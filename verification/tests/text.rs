use terminal_renderer::text::{
    byte_length, ends_with_blank_line, ends_with_newline, is_space, push_decimal, push_padded,
    push_repeated, split_lines, trim_end,
};

fn lines_of(text: &str) -> Vec<String> {
    split_lines(text)
}

#[test]
fn split_lines_as_the_standard_library_does() {
    for text in [
        "",
        "a",
        "a\n",
        "a\nb",
        "a\n\nb\n",
        "\n",
        "\n\n",
        "a\r\nb",
        "a\r\n",
        "a\r",
        "a\rb\n",
        "a\r\r\nb",
        "\r\n",
        "\r",
        "\r\r",
        "é\n│\r\n",
        "a\n\r",
        "a\n\r\n",
    ] {
        let expected: Vec<String> = text.lines().map(|line| line.to_string()).collect();
        assert_eq!(lines_of(text), expected, "lines of {:?}", text);
    }
}

#[test]
fn split_lines_examples() {
    assert_eq!(lines_of("a\n\nb\n"), vec!["a", "", "b"]);
    assert_eq!(lines_of("a\r\nb\r"), vec!["a", "b\r"]);
    assert!(lines_of("").is_empty());
}

#[test]
fn trim_end_as_the_standard_library_does() {
    for text in ["", " ", "a", "a ", " a", "a \t\r\n", "a\u{a0}", "a\u{2003}\u{3000}", "a\u{200b} ", "\u{85}"] {
        assert_eq!(trim_end(text), text.trim_end(), "trimmed {:?}", text);
    }
}

#[test]
fn white_space_is_what_the_standard_library_calls_so() {
    for code in 0..=0x3100u32 {
        if let Some(c) = char::from_u32(code) {
            assert_eq!(is_space(c), c.is_whitespace(), "U+{:04X}", code);
        }
    }
    assert!(!is_space('\u{feff}'));
    assert!(!is_space('\u{10ffff}'));
}

#[test]
fn decimal_notation() {
    for n in [0usize, 1, 9, 10, 11, 99, 100, 101, 909, 1000, 65535, usize::MAX] {
        let mut out = String::from("n=");
        push_decimal(&mut out, n);
        assert_eq!(out, format!("n={}", n));
    }
}

#[test]
fn padding_counts_characters() {
    let mut out = String::from("[");
    push_padded(&mut out, "ab", 5);
    out.push(']');
    assert_eq!(out, "[ab   ]");

    let mut out = String::new();
    push_padded(&mut out, "abcdef", 3);
    assert_eq!(out, "abcdef");

    let mut out = String::new();
    push_padded(&mut out, "─é", 4);
    assert_eq!(out, "─é  ");
    assert_eq!(out, format!("{:<4}", "─é"));

    let mut out = String::new();
    push_padded(&mut out, "", 0);
    assert_eq!(out, "");
}

#[test]
fn repetition() {
    let mut out = String::from("x");
    push_repeated(&mut out, '─', 3);
    assert_eq!(out, "x───");
    push_repeated(&mut out, 'y', 0);
    assert_eq!(out, "x───");
}

#[test]
fn length_in_bytes() {
    assert_eq!(byte_length(""), 0);
    assert_eq!(byte_length("abc"), 3);
    assert_eq!(byte_length("é"), 2);
    assert_eq!(byte_length("─"), 3);
    assert_eq!(byte_length("😀"), 4);
}

#[test]
fn newlines_at_the_end() {
    for text in [
        "", "a", "\n", "a\n", "\n\n", "a\n\n", "\na", "\n\na", "a\n\n\n", "\n \n", "\u{10a}",
        "\u{a0a}", "\n\u{10a}", "\u{10a}\n", "\u{10a}\n\n", "é\n", "😀\n\n", "\r\n\r\n",
    ] {
        assert_eq!(ends_with_newline(text), text.ends_with('\n'), "{:?}", text);
        assert_eq!(ends_with_blank_line(text), text.ends_with("\n\n"), "{:?}", text);
    }
}
