use terminal_renderer::context::{FormattingState, RenderContext};

#[test]
fn new_context_is_empty() {
    let context = RenderContext::new(true);
    assert_eq!(context.output, "");
    assert!(context.formatting_stack.is_empty());
    assert_eq!(context.pending_newlines, 0);
    assert!(context.use_colors);
    assert!(!RenderContext::new(false).use_colors);
}

#[test]
fn push_str_appends_and_resets_the_count() {
    let mut context = RenderContext::new(false);
    context.push_newline();
    context.push_str("abc");
    assert_eq!(context.output, "\nabc");
    assert_eq!(context.pending_newlines, 0);
    context.push_str("");
    assert_eq!(context.output, "\nabc");
    context.push_newline();
    context.push_str("d\n");
    assert_eq!(context.output, "\nabc\nd\n");
    assert_eq!(context.pending_newlines, 0);
}

#[test]
fn push_newline_counts_up_to_two() {
    let mut context = RenderContext::new(false);
    context.push_newline();
    assert_eq!(context.pending_newlines, 1);
    context.push_newline();
    assert_eq!(context.pending_newlines, 2);
    context.push_newline();
    assert_eq!(context.pending_newlines, 2);
    assert_eq!(context.output, "\n\n\n");
}

#[test]
fn ensure_newline_adds_one_only_where_it_is_missing() {
    let mut context = RenderContext::new(false);
    context.ensure_newline();
    assert_eq!(context.output, "");
    context.push_str("a");
    context.ensure_newline();
    assert_eq!(context.output, "a\n");
    assert_eq!(context.pending_newlines, 1);
    context.ensure_newline();
    assert_eq!(context.output, "a\n");
}

#[test]
fn ensure_blank_line_stops_at_one_blank_line() {
    let mut context = RenderContext::new(false);
    context.ensure_blank_line();
    assert_eq!(context.output, "");
    context.push_str("a");
    context.ensure_blank_line();
    assert_eq!(context.output, "a\n");
    context.ensure_blank_line();
    assert_eq!(context.output, "a\n\n");
    context.ensure_blank_line();
    assert_eq!(context.output, "a\n\n");
    assert_eq!(context.pending_newlines, 2);
}

#[test]
fn ensure_blank_line_looks_at_the_output_and_at_the_count() {
    let mut context = RenderContext::new(false);
    context.push_str("a\n\n");
    assert_eq!(context.pending_newlines, 0);
    context.ensure_blank_line();
    assert_eq!(context.output, "a\n\n");

    let mut context = RenderContext::new(false);
    context.push_str("a");
    context.pending_newlines = 2;
    context.ensure_blank_line();
    assert_eq!(context.output, "a");
}

#[test]
fn into_output_trims_the_end_and_closes_with_one_newline() {
    let mut context = RenderContext::new(false);
    context.push_str("  a b \t\n \n\n");
    assert_eq!(context.into_output(), "  a b\n");
    assert_eq!(RenderContext::new(false).into_output(), "\n");
    let mut context = RenderContext::new(false);
    context.push_str(" \n\u{3000}\u{2028}");
    assert_eq!(context.into_output(), "\n");
    let mut context = RenderContext::new(false);
    context.push_str("a\u{200b}\u{feff}");
    assert_eq!(context.into_output(), "a\u{200b}\u{feff}\n");
}

#[test]
fn formatting_stack_is_a_stack() {
    let mut context = RenderContext::new(false);
    context.formatting_stack.push_back(FormattingState::Bold);
    context.formatting_stack.push_back(FormattingState::Link);
    assert_eq!(context.formatting_stack.pop_back(), Some(FormattingState::Link));
    assert_eq!(context.formatting_stack.pop_back(), Some(FormattingState::Bold));
    assert_eq!(context.formatting_stack.pop_back(), None);
}
