use terminal_renderer::events::{BlockKind, StructuralEvent};
use terminal_renderer::renderer::{MarkdownRenderer, RenderState};

fn text(s: &str) -> StructuralEvent {
    StructuralEvent::Text(s.to_string())
}

fn render(events: &[StructuralEvent]) -> String {
    MarkdownRenderer::with_colors(false).render_events(events)
}

#[test]
fn empty_document() {
    assert_eq!(render(&[]), "\n");
}

#[test]
fn paragraph_of_text() {
    let events = [
        StructuralEvent::Enter(BlockKind::Paragraph),
        text("hello"),
        StructuralEvent::Exit(BlockKind::Paragraph),
    ];
    assert_eq!(render(&events), "hello\n");
}

#[test]
fn stepping_gives_what_rendering_gives() {
    let events = [
        StructuralEvent::Enter(BlockKind::Heading(2)),
        text("Head"),
        StructuralEvent::Exit(BlockKind::Heading(2)),
        StructuralEvent::Enter(BlockKind::Paragraph),
        text("body"),
        StructuralEvent::Exit(BlockKind::Paragraph),
    ];
    let mut state = RenderState::new(false);
    for event in &events {
        state.step(event);
    }
    assert_eq!(state.into_output(), render(&events));
    assert_eq!(render(&events), "─── Head ───\n\nbody\n");
}

#[test]
fn ordinals_are_independent_of_content() {
    let mut events = vec![StructuralEvent::Enter(BlockKind::List(Some(7)))];
    for content in ["x", "", "1. not a number", "*"] {
        events.push(StructuralEvent::Enter(BlockKind::ListItem));
        events.push(text(content));
        events.push(StructuralEvent::SoftBreak);
        events.push(StructuralEvent::InlineCode("c".to_string()));
        events.push(StructuralEvent::Exit(BlockKind::ListItem));
    }
    events.push(StructuralEvent::Exit(BlockKind::List(Some(7))));
    assert_eq!(render(&events), "1. x c\n2.  c\n3. 1. not a number c\n4. * c\n");
}

#[test]
fn each_list_level_counts_for_itself() {
    let ordered = BlockKind::List(Some(1));
    let events = [
        StructuralEvent::Enter(ordered),
        StructuralEvent::Enter(BlockKind::ListItem),
        text("a"),
        StructuralEvent::Exit(BlockKind::ListItem),
        StructuralEvent::Enter(BlockKind::ListItem),
        text("b"),
        StructuralEvent::Enter(ordered),
        StructuralEvent::Enter(BlockKind::ListItem),
        text("c"),
        StructuralEvent::Exit(BlockKind::ListItem),
        StructuralEvent::Enter(BlockKind::ListItem),
        text("d"),
        StructuralEvent::Exit(BlockKind::ListItem),
        StructuralEvent::Exit(ordered),
        StructuralEvent::Exit(BlockKind::ListItem),
        StructuralEvent::Enter(BlockKind::ListItem),
        text("e"),
        StructuralEvent::Exit(BlockKind::ListItem),
        StructuralEvent::Exit(ordered),
    ];
    assert_eq!(render(&events), "1. a\n2. b  1. c\n  2. d\n\n3. e\n");
}

#[test]
fn styles_do_not_change_plain_output() {
    let events = [
        StructuralEvent::Enter(BlockKind::Paragraph),
        StructuralEvent::Enter(BlockKind::Link),
        StructuralEvent::Enter(BlockKind::Strong),
        StructuralEvent::Enter(BlockKind::Emphasis),
        text("inner"),
        StructuralEvent::Exit(BlockKind::Emphasis),
        StructuralEvent::Exit(BlockKind::Strong),
        StructuralEvent::Exit(BlockKind::Link),
        text(" outer"),
        StructuralEvent::Exit(BlockKind::Paragraph),
    ];
    assert_eq!(render(&events), "inner outer\n");
}

#[test]
fn heading_gathers_text_breaks_and_code() {
    let events = [
        StructuralEvent::Enter(BlockKind::Heading(3)),
        text("a"),
        StructuralEvent::SoftBreak,
        StructuralEvent::InlineCode("b".to_string()),
        StructuralEvent::Exit(BlockKind::Heading(3)),
    ];
    assert_eq!(render(&events), "- a b -\n");
}

#[test]
fn heading_levels() {
    let heading = |level: u32| {
        render(&[
            StructuralEvent::Enter(BlockKind::Heading(level)),
            text("Hi"),
            StructuralEvent::Exit(BlockKind::Heading(level)),
        ])
    };
    assert_eq!(heading(1), "──────\n Hi \n──────\n");
    assert_eq!(heading(2), "─── Hi ───\n");
    assert_eq!(heading(3), "- Hi -\n");
    assert_eq!(heading(4), "Hi\n");
    assert_eq!(heading(6), "Hi\n");
    assert_eq!(heading(0), "Hi\n");
}

#[test]
fn code_block_takes_breaks_as_newlines() {
    let events = [
        StructuralEvent::Enter(BlockKind::CodeBlock),
        text("a"),
        StructuralEvent::SoftBreak,
        text("b"),
        StructuralEvent::HardBreak,
        StructuralEvent::HardBreak,
        text("c\n"),
        StructuralEvent::Exit(BlockKind::CodeBlock),
    ];
    assert_eq!(render(&events), "    a\n    b\n    \n    c\n");
}

#[test]
fn table_cells_take_text_and_breaks() {
    let events = [
        StructuralEvent::Enter(BlockKind::Table),
        StructuralEvent::Enter(BlockKind::TableHeaderRow),
        StructuralEvent::Enter(BlockKind::TableCell),
        text("a"),
        StructuralEvent::SoftBreak,
        text("b"),
        StructuralEvent::Exit(BlockKind::TableCell),
        StructuralEvent::Exit(BlockKind::TableHeaderRow),
        StructuralEvent::Enter(BlockKind::TableRow),
        StructuralEvent::Exit(BlockKind::TableRow),
        StructuralEvent::Enter(BlockKind::TableRow),
        StructuralEvent::Enter(BlockKind::TableCell),
        StructuralEvent::InlineCode("c".to_string()),
        StructuralEvent::Exit(BlockKind::TableCell),
        StructuralEvent::Exit(BlockKind::TableRow),
        StructuralEvent::Exit(BlockKind::Table),
    ];
    assert_eq!(render(&events), "┌─────┐\n│ a b │\n├─────┤\n│ c   │\n└─────┘\n");
}

#[test]
fn empty_table_renders_to_nothing() {
    let events = [
        text("x"),
        StructuralEvent::Enter(BlockKind::Table),
        StructuralEvent::Exit(BlockKind::Table),
        text("y"),
    ];
    assert_eq!(render(&events), "x\n\ny\n");
}

#[test]
fn blockquote_flushes_the_last_line_only_if_it_has_text() {
    let quote = |inner: Vec<StructuralEvent>| {
        let mut events = vec![StructuralEvent::Enter(BlockKind::BlockQuote)];
        events.extend(inner);
        events.push(StructuralEvent::Exit(BlockKind::BlockQuote));
        render(&events)
    };
    assert_eq!(quote(vec![text("a"), StructuralEvent::SoftBreak, text("b")]), "▌ a\n▌ b\n");
    assert_eq!(quote(vec![text("a"), StructuralEvent::HardBreak]), "▌ a\n");
    assert_eq!(
        quote(vec![text("a"), StructuralEvent::SoftBreak, StructuralEvent::SoftBreak, text("b")]),
        "▌ a\n▌ \n▌ b\n"
    );
    assert_eq!(quote(vec![]), "\n");
}

#[test]
fn hard_break_in_a_list_item_indents_by_depth() {
    let list = BlockKind::List(None);
    let events = [
        StructuralEvent::Enter(list),
        StructuralEvent::Enter(BlockKind::ListItem),
        text("a"),
        StructuralEvent::Enter(list),
        StructuralEvent::Enter(BlockKind::ListItem),
        text("b"),
        StructuralEvent::HardBreak,
        text("c"),
        StructuralEvent::Exit(BlockKind::ListItem),
        StructuralEvent::Exit(list),
        StructuralEvent::Exit(BlockKind::ListItem),
        StructuralEvent::Exit(list),
    ];
    assert_eq!(render(&events), "• a  • b\n    c\n");
}

#[test]
fn unmatched_exits_change_nothing_of_their_own() {
    let events = [
        StructuralEvent::Exit(BlockKind::Emphasis),
        StructuralEvent::Exit(BlockKind::List(None)),
        StructuralEvent::Exit(BlockKind::TableCell),
        StructuralEvent::Exit(BlockKind::TableRow),
        text("x"),
    ];
    assert_eq!(render(&events), "x\n");
}

#[test]
fn ignored_events() {
    let events = [
        text("a"),
        StructuralEvent::RawMarkup,
        StructuralEvent::FootnoteReference,
        StructuralEvent::Rule,
        StructuralEvent::Enter(BlockKind::Strikethrough),
        StructuralEvent::Enter(BlockKind::Image),
        StructuralEvent::Enter(BlockKind::FootnoteDefinition),
        text("b"),
    ];
    assert_eq!(render(&events), "ab\n");
}

#[test]
fn trailing_white_space_is_trimmed() {
    let events = [text("a \t\u{a0}\n\n\n"), StructuralEvent::HardBreak];
    assert_eq!(render(&events), "a\n");
}

#[test]
fn empty_blocks_closed_one_after_the_other() {
    let list = BlockKind::List(None);
    let events = [
        StructuralEvent::Enter(list),
        StructuralEvent::Exit(list),
        StructuralEvent::Enter(BlockKind::BlockQuote),
        StructuralEvent::Exit(BlockKind::BlockQuote),
        StructuralEvent::Enter(BlockKind::CodeBlock),
        StructuralEvent::Exit(BlockKind::CodeBlock),
        text("x"),
    ];
    assert_eq!(render(&events), "\n\n\nx\n");
    let events = [
        text("x"),
        StructuralEvent::Enter(list),
        StructuralEvent::Exit(list),
        StructuralEvent::Enter(BlockKind::BlockQuote),
        StructuralEvent::Exit(BlockKind::BlockQuote),
        StructuralEvent::Enter(BlockKind::Table),
        StructuralEvent::Exit(BlockKind::Table),
        StructuralEvent::Enter(BlockKind::Paragraph),
        text("y"),
    ];
    assert_eq!(render(&events), "x\n\n\ny\n");
}

#[test]
fn soft_break_in_a_list_item_is_a_space() {
    let list = BlockKind::List(None);
    let events = [
        StructuralEvent::Enter(list),
        StructuralEvent::Enter(BlockKind::ListItem),
        text("a"),
        StructuralEvent::SoftBreak,
        text("b"),
        StructuralEvent::Exit(BlockKind::ListItem),
        StructuralEvent::Exit(list),
    ];
    assert_eq!(render(&events), "• a b\n");
}

#[test]
fn code_block_inside_a_block_quote() {
    let events = [
        StructuralEvent::Enter(BlockKind::BlockQuote),
        text("q"),
        StructuralEvent::Enter(BlockKind::CodeBlock),
        text("c\n"),
        StructuralEvent::Exit(BlockKind::CodeBlock),
        text("r"),
        StructuralEvent::Exit(BlockKind::BlockQuote),
    ];
    assert_eq!(render(&events), "    c\n▌ qr\n");
}

#[test]
fn item_without_a_list_writes_no_marker() {
    let events = [
        StructuralEvent::Enter(BlockKind::ListItem),
        text("a"),
        StructuralEvent::HardBreak,
        text("b"),
        StructuralEvent::Exit(BlockKind::ListItem),
    ];
    assert_eq!(render(&events), "a\nb\n");
}

#[test]
fn task_marker_goes_to_the_output_even_inside_a_quote() {
    let events = [
        StructuralEvent::Enter(BlockKind::BlockQuote),
        StructuralEvent::TaskMarker(true),
        text("done"),
        StructuralEvent::Exit(BlockKind::BlockQuote),
    ];
    assert_eq!(render(&events), "☑ ▌ done\n");
}

#[test]
fn events_are_cloned_with_their_texts() {
    let events = [
        StructuralEvent::Enter(BlockKind::Heading(2)),
        text("a"),
        StructuralEvent::InlineCode("b".to_string()),
        StructuralEvent::TaskMarker(true),
        StructuralEvent::Exit(BlockKind::List(Some(3))),
        StructuralEvent::Rule,
    ];
    for event in &events {
        assert_eq!(&event.clone(), event);
    }
}
