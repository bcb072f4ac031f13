use terminal_renderer::renderer::MarkdownRenderer;

fn renderer_no_colors() -> MarkdownRenderer {
    MarkdownRenderer::with_colors(false)
}

#[test]
fn test_plain_text() {
    let renderer = renderer_no_colors();
    let result = renderer.render("4 + 5 = 9");
    assert_eq!(result.trim(), "4 + 5 = 9");
}

#[test]
fn test_bold() {
    let renderer = renderer_no_colors();
    let result = renderer.render("**bold text**");
    assert!(result.contains("bold text"));
}

#[test]
fn test_italic() {
    let renderer = renderer_no_colors();
    let result = renderer.render("*italic text*");
    assert!(result.contains("italic text"));
}

#[test]
fn test_inline_code() {
    let renderer = renderer_no_colors();
    let result = renderer.render("Use `cargo build` to compile");
    assert!(result.contains("cargo build"));
}

#[test]
fn test_header() {
    let renderer = renderer_no_colors();
    let result = renderer.render("# Main Title");
    assert!(result.contains("Main Title"));
}

#[test]
fn test_list() {
    let renderer = renderer_no_colors();
    let result = renderer.render("- Item 1\n- Item 2\n- Item 3");
    assert!(result.contains("Item 1"));
    assert!(result.contains("Item 2"));
    assert!(result.contains("Item 3"));
}

#[test]
fn test_ordered_list() {
    let renderer = renderer_no_colors();
    let result = renderer.render("1. First\n2. Second\n3. Third");
    assert!(result.contains("First"));
    assert!(result.contains("Second"));
    assert!(result.contains("Third"));
}

#[test]
fn test_code_block() {
    let renderer = renderer_no_colors();
    let result = renderer.render("```\nfn main() {}\n```");
    assert!(result.contains("fn main()"));
}

#[test]
fn test_mixed_formatting() {
    let renderer = renderer_no_colors();
    let result = renderer.render("Here's **bold** and *italic* text with `code`");
    assert!(result.contains("bold"));
    assert!(result.contains("italic"));
    assert!(result.contains("code"));
}

#[test]
fn test_link() {
    let renderer = renderer_no_colors();
    let result = renderer.render("[Example](https://example.com)");
    assert!(result.contains("Example"));
}

#[test]
fn test_paragraph_spacing() {
    let renderer = renderer_no_colors();
    let result = renderer.render("First paragraph.\n\nSecond paragraph.");
    assert!(result.contains("First paragraph"));
    assert!(result.contains("Second paragraph"));
}

#[test]
fn test_blockquote() {
    let renderer = renderer_no_colors();
    let result = renderer.render("> This is a quote\n> with multiple lines");
    assert!(result.contains("This is a quote"));
    assert!(result.contains("with multiple lines"));
    assert!(result.contains("▌"));
}

#[test]
fn test_render_table_function() {
    let renderer = renderer_no_colors();
    let rows = vec![
        vec!["Name".to_string(), "Age".to_string()],
        vec!["Alice".to_string(), "30".to_string()],
        vec!["Bob".to_string(), "25".to_string()],
    ];
    let result = renderer.render_table(&rows);
    assert!(result.contains("┌"));
    assert!(result.contains("┐"));
    assert!(result.contains("└"));
    assert!(result.contains("┘"));
    assert!(result.contains("│"));
    assert!(result.contains("Name"));
    assert!(result.contains("Alice"));
    assert!(result.contains("Bob"));
}

#[test]
fn bold_text_renders_plain_without_colors() {
    let renderer = renderer_no_colors();
    assert_eq!(renderer.render("**bold text**"), "bold text\n");
}

#[test]
fn plain_prose_is_returned_unchanged() {
    let renderer = renderer_no_colors();
    assert_eq!(renderer.render("4 + 5 = 9"), "4 + 5 = 9");
    assert_eq!(renderer.render(""), "");
    assert_eq!(renderer.render("  spaced  out  "), "  spaced  out  ");
    assert_eq!(renderer.render("a-b 1.5 x"), "a-b 1.5 x");
    let colored = MarkdownRenderer::with_colors(true);
    assert_eq!(colored.render("4 + 5 = 9"), "4 + 5 = 9");
}

#[test]
fn sigils_are_detected() {
    let renderer = renderer_no_colors();
    assert!(!renderer.has_markdown_syntax("plain prose, nothing else"));
    assert!(!renderer.has_markdown_syntax(""));
    assert!(!renderer.has_markdown_syntax("-"));
    assert!(!renderer.has_markdown_syntax("1."));
    assert!(!renderer.has_markdown_syntax("2. x"));
    assert!(!renderer.has_markdown_syntax("a-b"));
    assert!(renderer.has_markdown_syntax("a*b"));
    assert!(renderer.has_markdown_syntax("`"));
    assert!(renderer.has_markdown_syntax("#"));
    assert!(renderer.has_markdown_syntax("x [y"));
    assert!(renderer.has_markdown_syntax("line\nline"));
    assert!(renderer.has_markdown_syntax("- x"));
    assert!(renderer.has_markdown_syntax("x - y"));
    assert!(renderer.has_markdown_syntax("1. x"));
    assert!(renderer.has_markdown_syntax("11. x"));
    assert!(renderer.has_markdown_syntax("é1. "));
}

#[test]
fn unordered_list_uses_bullets() {
    let renderer = renderer_no_colors();
    let out = renderer.render("- a\n- b");
    assert!(out.contains("• a\n• b\n"));
    assert_eq!(out, "• a\n• b\n");
}

#[test]
fn ordered_list_counts_from_one() {
    let renderer = renderer_no_colors();
    let out = renderer.render("1. x\n2. y");
    let first = out.find("1. x").unwrap();
    let second = out.find("2. y").unwrap();
    assert!(first < second);
    assert_eq!(out, "1. x\n2. y\n");
}

#[test]
fn ordered_list_ignores_the_numbers_written() {
    let renderer = renderer_no_colors();
    assert_eq!(renderer.render("5. x\n5. y\n5. z"), "1. x\n2. y\n3. z\n");
}

#[test]
fn ordered_list_of_twelve_items() {
    let renderer = renderer_no_colors();
    let mut source = String::new();
    let mut expected = String::new();
    for n in 1..=12 {
        source.push_str(&format!("{}. item\n", n));
        expected.push_str(&format!("{}. item\n", n));
    }
    assert_eq!(renderer.render(&source), expected);
}

#[test]
fn nested_list_keeps_the_outer_count() {
    let renderer = renderer_no_colors();
    let out = renderer.render("1. a\n   - b\n   - c\n2. d");
    assert_eq!(out, "1. a  • b\n  • c\n\n2. d\n");
}

#[test]
fn first_level_heading_stands_between_rules() {
    let renderer = renderer_no_colors();
    let out = renderer.render("# Title");
    let lines: Vec<&str> = out.lines().collect();
    assert_eq!(lines.len(), 3);
    assert_eq!(lines[0], "─────────");
    assert_eq!(lines[0].chars().count(), 9);
    assert_eq!(lines[1], " Title ");
    assert_eq!(lines[2], lines[0]);
    assert_eq!(out, "─────────\n Title \n─────────\n");
}

#[test]
fn heading_is_followed_by_a_blank_line() {
    let renderer = renderer_no_colors();
    assert_eq!(renderer.render("## Head\n\ntext"), "─── Head ───\n\ntext\n");
    assert_eq!(renderer.render("text\n\n### Head"), "text\n- Head -\n");
    assert_eq!(renderer.render("#### Head\ntext"), "Head\n\ntext\n");
}

#[test]
fn heading_title_is_flattened() {
    let renderer = renderer_no_colors();
    assert_eq!(renderer.render("## A *b* `c`"), "─── A b c ───\n");
}

#[test]
fn paragraphs_are_separated_by_one_blank_line() {
    let renderer = renderer_no_colors();
    assert_eq!(
        renderer.render("First paragraph.\n\n\n\nSecond paragraph."),
        "First paragraph.\n\nSecond paragraph.\n"
    );
}

#[test]
fn soft_break_is_a_space_and_hard_break_a_newline() {
    let renderer = renderer_no_colors();
    assert_eq!(renderer.render("one\ntwo"), "one two\n");
    assert_eq!(renderer.render("one  \ntwo"), "one\ntwo\n");
    assert_eq!(renderer.render("- one  \n  two"), "• one\n  two\n");
}

#[test]
fn blockquote_lines_are_prefixed_one_by_one() {
    let renderer = renderer_no_colors();
    let out = renderer.render("> a\n> b\n> c");
    let prefixed: Vec<&str> = out.lines().filter(|line| line.starts_with("▌ ")).collect();
    assert_eq!(prefixed, vec!["▌ a", "▌ b", "▌ c"]);
    assert_eq!(out, "▌ a\n▌ b\n▌ c\n");
    assert!(!out.starts_with('\n'));
    assert_eq!(renderer.render("> a\n> b"), "▌ a\n▌ b\n");
    assert_eq!(renderer.render("p\n\n> q"), "p\n\n▌ q\n");
}

#[test]
fn code_block_is_indented_by_four_spaces() {
    let renderer = renderer_no_colors();
    assert_eq!(
        renderer.render("```\nfn main() {}\n\nlet x = 1;\n```"),
        "    fn main() {}\n    \n    let x = 1;\n"
    );
}

#[test]
fn table_from_markdown() {
    let renderer = renderer_no_colors();
    assert_eq!(
        renderer.render("| Name | Age |\n|---|---|\n| Alice | 30 |"),
        "┌───────┬─────┐\n│ Name  │ Age │\n├───────┼─────┤\n│ Alice │ 30  │\n└───────┴─────┘\n"
    );
}

#[test]
fn task_markers_have_their_glyphs() {
    let renderer = renderer_no_colors();
    assert_eq!(renderer.render("- [x] done\n- [ ] todo"), "• ☑ done\n• ☐ todo\n");
}

#[test]
fn raw_markup_is_dropped() {
    let renderer = renderer_no_colors();
    assert_eq!(renderer.render("a <b>c</b> *d*"), "a c d\n");
}

#[test]
fn empty_code_block_renders_to_nothing() {
    let renderer = renderer_no_colors();
    assert_eq!(renderer.render("```\n```"), "\n");
}

#[test]
fn direct_table_entry_point() {
    let renderer = renderer_no_colors();
    let rows = vec![
        vec!["Name".to_string(), "Age".to_string()],
        vec!["Alice".to_string(), "30".to_string()],
    ];
    let out = renderer.render_table(&rows);
    let lines: Vec<&str> = out.lines().collect();
    assert_eq!(lines.len(), 5);
    assert_eq!(lines[0], "┌───────┬─────┐");
    assert_eq!(lines[1], "│ Name  │ Age │");
    assert_eq!(lines[2], "├───────┼─────┤");
    assert_eq!(lines[3], "│ Alice │ 30  │");
    assert_eq!(lines[4], "└───────┴─────┘");
    assert_eq!(lines.iter().filter(|line| line.starts_with('├')).count(), 1);
    assert!(!out.ends_with('\n'));
}

#[test]
fn direct_table_edge_cases() {
    let renderer = renderer_no_colors();
    assert_eq!(renderer.render_table(&[]), "");
    assert_eq!(renderer.render_table(&[vec![]]), "┌┐\n│\n└┘");
    assert_eq!(renderer.render_table(&[vec![String::new()]]), "┌──┐\n│  │\n└──┘");
    let jagged = vec![
        vec!["a".to_string(), "bb".to_string(), "c".to_string()],
        vec!["dddd".to_string()],
    ];
    assert_eq!(
        renderer.render_table(&jagged),
        "┌──────┬────┬───┐\n│ a    │ bb │ c │\n├──────┼────┼───┤\n│ dddd │    │   │\n└──────┴────┴───┘"
    );
}

#[test]
fn table_width_counts_bytes_and_padding_counts_characters() {
    let renderer = renderer_no_colors();
    let rows = vec![vec!["é".to_string()], vec!["ab".to_string()]];
    assert_eq!(renderer.render_table(&rows), "┌────┐\n│ é  │\n├────┤\n│ ab │\n└────┘");
}

#[test]
fn renderer_remembers_its_colors() {
    assert!(MarkdownRenderer::with_colors(true).use_colors());
    assert!(!MarkdownRenderer::with_colors(false).use_colors());
    let probed = MarkdownRenderer::new();
    assert_eq!(probed.use_colors(), atty::is(atty::Stream::Stdout));
}

#[test]
fn rendering_ends_in_one_newline() {
    let renderer = renderer_no_colors();
    for source in ["# a\n\n\n", "- a\n- b\n\n", "> q\n\n", "a  \n", "```\nx\n```\n\n\n", "*a* \n"] {
        let out = renderer.render(source);
        assert!(out.ends_with('\n'), "{:?}", out);
        assert!(!out.ends_with("\n\n"), "{:?}", out);
        assert_eq!(out.trim_end().len() + 1, out.len(), "{:?}", out);
    }
}

#[test]
fn strikethrough_rules_and_images_are_passed_over() {
    let renderer = renderer_no_colors();
    assert_eq!(renderer.render("a ~~b~~ c\n\n---\n\nd"), "a b c\n\nd\n");
    assert_eq!(renderer.render("![alt](x.png)"), "alt\n");
}

#[test]
fn smart_punctuation_is_on() {
    let renderer = renderer_no_colors();
    assert_eq!(renderer.render("*it's*"), "it\u{2019}s\n");
}

#[test]
fn heading_levels_from_markdown() {
    let renderer = renderer_no_colors();
    assert_eq!(renderer.render("##### five"), "five\n");
    assert_eq!(renderer.render("###### six"), "six\n");
    assert_eq!(renderer.render("### three"), "- three -\n");
}

#[test]
fn ordered_list_after_a_heading_and_loose_items() {
    let renderer = renderer_no_colors();
    assert_eq!(
        renderer.render("# T\n\n1. one\n\n2. two\n"),
        "─────\n T \n─────\n\n1. \none\n\n2. \ntwo\n"
    );
}
