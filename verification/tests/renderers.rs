use terminal_renderer::context::RenderContext;
use terminal_renderer::element_renderer::ElementRenderer;
use terminal_renderer::renderers::table::render_grid;
use terminal_renderer::renderers::{
    BlockquoteRenderer, CodeBlockRenderer, ListRenderer, TableRenderer,
};

fn context() -> RenderContext {
    RenderContext::new(false)
}

#[test]
fn code_block_indents_every_line() {
    let renderer = CodeBlockRenderer::new();
    assert_eq!(renderer.render_code_block("a\n  b\n\nc\n"), "    a\n      b\n    \n    c");
    assert_eq!(renderer.render_code_block(""), "");
    assert_eq!(renderer.render_code_block("\n"), "    ");
    assert_eq!(renderer.render_code_block("\n\n"), "    \n    ");
    assert_eq!(renderer.render_code_block("x"), "    x");
    assert_eq!(renderer.render_code_block("a\r\nb"), "    a\n    b");
}

#[test]
fn code_block_gathers_text_and_breaks() {
    let mut context = context();
    let mut renderer = CodeBlockRenderer::new();
    renderer.start(&mut context);
    assert_eq!(renderer.end(&mut context), Some(String::new()));
    renderer.handle_text("let a = 1;", &mut context);
    renderer.handle_soft_break(&mut context);
    renderer.handle_text("let b = 2;", &mut context);
    renderer.handle_hard_break(&mut context);
    assert_eq!(renderer.end(&mut context), Some("    let a = 1;\n    let b = 2;".to_string()));
    renderer.start(&mut context);
    assert_eq!(renderer.end(&mut context), Some(String::new()));
    assert_eq!(context.output, "");
}

#[test]
fn blockquote_prefixes_every_line() {
    let mut context = context();
    let mut renderer = BlockquoteRenderer::new();
    renderer.start(&mut context);
    renderer.handle_text("one", &mut context);
    renderer.handle_soft_break(&mut context);
    renderer.handle_text("two", &mut context);
    renderer.handle_text(" more", &mut context);
    renderer.handle_hard_break(&mut context);
    renderer.handle_text("three", &mut context);
    assert_eq!(renderer.end(&mut context), Some("▌ one\n▌ two more\n▌ three".to_string()));
    assert_eq!(context.output, "");
}

#[test]
fn blockquote_without_lines() {
    let mut context = context();
    let mut renderer = BlockquoteRenderer::new();
    assert_eq!(renderer.end(&mut context), Some(String::new()));
    renderer.handle_soft_break(&mut context);
    assert_eq!(renderer.end(&mut context), Some("▌ ".to_string()));
}

#[test]
fn blockquote_lines_as_given() {
    let lines = vec!["a".to_string(), String::new(), "b".to_string()];
    assert_eq!(BlockquoteRenderer::add_prefix_to_lines(&lines), "▌ a\n▌ \n▌ b");
    assert_eq!(BlockquoteRenderer::add_prefix_to_lines(&Vec::new()), "");
}

#[test]
fn ordered_items_count_from_one() {
    let mut renderer = ListRenderer::new(true, 1);
    let mut output = String::new();
    for _ in 0..11 {
        renderer.start_item(&mut output, 1);
        output.push('\n');
    }
    assert_eq!(output, "1. \n2. \n3. \n4. \n5. \n6. \n7. \n8. \n9. \n10. \n11. \n");
}

#[test]
fn unordered_items_have_bullets() {
    let mut renderer = ListRenderer::new(false, 1);
    let mut output = String::from("x");
    renderer.start_item(&mut output, 1);
    renderer.end_item();
    renderer.start_item(&mut output, 1);
    assert_eq!(output, "x• • ");
}

#[test]
fn items_are_indented_by_depth() {
    let mut renderer = ListRenderer::new(true, 3);
    let mut output = String::new();
    renderer.start_item(&mut output, 3);
    assert_eq!(output, "    1. ");
    let mut output = String::new();
    renderer.start_item(&mut output, 2);
    assert_eq!(output, "  2. ");
    let mut renderer = ListRenderer::new(false, 2);
    let mut output = String::new();
    renderer.start_item(&mut output, 2);
    assert_eq!(output, "  • ");
}

#[test]
fn list_renderer_hands_out_nothing() {
    let mut context = context();
    let mut renderer = ListRenderer::new(true, 1);
    renderer.start(&mut context);
    renderer.handle_text("text", &mut context);
    renderer.handle_soft_break(&mut context);
    renderer.handle_hard_break(&mut context);
    assert_eq!(renderer.end(&mut context), None);
    assert_eq!(context.output, "");
}

#[test]
fn table_gathers_rows_and_cells() {
    let mut context = context();
    let mut renderer = TableRenderer::new();
    renderer.start(&mut context);
    for row in [["Name", "Age"], ["Alice", "30"]] {
        renderer.start_row();
        for cell in row {
            renderer.start_cell();
            renderer.handle_text(cell, &mut context);
            renderer.end_cell();
        }
        renderer.end_row();
    }
    let expected = "┌───────┬─────┐\n│ Name  │ Age │\n├───────┼─────┤\n│ Alice │ 30  │\n└───────┴─────┘";
    assert_eq!(renderer.render_table(), expected);
    assert_eq!(renderer.end(&mut context), Some(expected.to_string()));
    assert_eq!(context.output, "");
}

#[test]
fn table_drops_rows_without_cells() {
    let mut renderer = TableRenderer::new();
    renderer.start_row();
    renderer.end_row();
    assert_eq!(renderer.render_table(), "");
    renderer.start_row();
    renderer.start_cell();
    renderer.end_cell();
    renderer.end_row();
    assert_eq!(renderer.render_table(), "┌──┐\n│  │\n└──┘");
}

#[test]
fn table_cell_breaks() {
    let mut context = context();
    let mut renderer = TableRenderer::new();
    renderer.start_row();
    renderer.start_cell();
    renderer.handle_text("a", &mut context);
    renderer.handle_soft_break(&mut context);
    renderer.handle_text("b", &mut context);
    renderer.handle_hard_break(&mut context);
    renderer.end_cell();
    renderer.end_row();
    assert_eq!(renderer.render_table(), "┌──────┐\n│ a b\n │\n└──────┘");
}

#[test]
fn starting_a_cell_or_row_forgets_what_was_open() {
    let mut context = context();
    let mut renderer = TableRenderer::new();
    renderer.start_row();
    renderer.start_cell();
    renderer.handle_text("lost", &mut context);
    renderer.start_cell();
    renderer.handle_text("kept", &mut context);
    renderer.end_cell();
    renderer.start_row();
    renderer.start_cell();
    renderer.handle_text("only", &mut context);
    renderer.end_cell();
    renderer.end_row();
    assert_eq!(renderer.render_table(), "┌──────┐\n│ only │\n└──────┘");
}

#[test]
fn grid_has_as_many_columns_as_its_longest_row() {
    let rows = vec![
        vec!["a".to_string()],
        vec!["b".to_string(), "cc".to_string(), "d".to_string()],
        vec!["eee".to_string(), "f".to_string()],
    ];
    assert_eq!(
        render_grid(&rows),
        "┌─────┬────┬───┐\n│ a   │    │   │\n├─────┼────┼───┤\n│ b   │ cc │ d │\n├─────┼────┼───┤\n│ eee │ f  │   │\n└─────┴────┴───┘"
    );
}

#[test]
fn short_row_has_a_slot_in_every_column() {
    let mut context = context();
    let mut renderer = TableRenderer::new();
    for row in [vec!["a", "bb"], vec!["ccc"]] {
        renderer.start_row();
        for cell in row {
            renderer.start_cell();
            renderer.handle_text(cell, &mut context);
            renderer.end_cell();
        }
        renderer.end_row();
    }
    assert_eq!(
        renderer.render_table(),
        "┌─────┬────┐\n│ a   │ bb │\n├─────┼────┤\n│ ccc │    │\n└─────┴────┘"
    );
}

#[test]
fn table_has_one_separator_between_each_two_rows() {
    for count in 1..6usize {
        let rows: Vec<Vec<String>> =
            (0..count).map(|r| vec![format!("r{}", r), "x".to_string()]).collect();
        let out = render_grid(&rows);
        let lines: Vec<&str> = out.split('\n').collect();
        assert_eq!(lines.len(), 2 * count + 1);
        assert_eq!(lines.iter().filter(|line| line.starts_with('├')).count(), count - 1);
        assert!(lines[0].starts_with('┌'));
        assert!(lines[2 * count].starts_with('└'));
    }
}
