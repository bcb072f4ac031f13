use std::collections::VecDeque;
use terminal_renderer::context::FormattingState;
use terminal_renderer::formatters::{format_heading, format_inline_code, format_text};

fn stack(states: &[FormattingState]) -> VecDeque<FormattingState> {
    states.iter().copied().collect()
}

#[test]
fn text_without_colors_is_unchanged() {
    let all = stack(&[FormattingState::Link, FormattingState::Bold, FormattingState::Italic]);
    assert_eq!(format_text("some text", &all, false), "some text");
    assert_eq!(format_text("", &all, false), "");
    assert_eq!(format_text("x", &stack(&[]), true), "x");
}

#[test]
fn inline_code_without_colors_is_unchanged() {
    assert_eq!(format_inline_code("cargo build", false), "cargo build");
}

#[test]
fn headings_without_colors() {
    assert_eq!(format_heading("Title", 1, false), "─────────\n Title \n─────────");
    assert_eq!(format_heading("Title", 2, false), "─── Title ───");
    assert_eq!(format_heading("Title", 3, false), "- Title -");
    assert_eq!(format_heading("Title", 4, false), "Title");
    assert_eq!(format_heading("Title", 5, false), "Title");
    assert_eq!(format_heading("Title", 6, false), "Title");
    assert_eq!(format_heading("Title", 7, false), "Title");
    assert_eq!(format_heading("Title", 0, false), "Title");
}

#[test]
fn rule_is_four_longer_than_the_title() {
    let out = format_heading("Main Title", 1, false);
    let lines: Vec<&str> = out.split('\n').collect();
    assert_eq!(lines.len(), 3);
    assert_eq!(lines[0].chars().count(), "Main Title".len() + 4);
    assert_eq!(lines[0], lines[2]);
    assert!(lines[0].chars().all(|c| c == '─'));
    assert_eq!(lines[1], " Main Title ");
}

#[test]
fn rule_of_an_empty_title() {
    assert_eq!(format_heading("", 1, false), "────\n  \n────");
}

#[test]
fn rule_is_measured_in_bytes() {
    assert_eq!(format_heading("é", 1, false), "──────\n é \n──────");
}
