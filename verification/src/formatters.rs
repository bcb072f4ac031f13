//! Styled text for inline spans, inline code and headings.
//!
//! Whether text is styled is decided by the flag that a formatter is given,
//! and by nothing else. The escape sequences come from the `colored` crate,
//! which would decide for itself by the environment of the process; so
//! each styling first switches the crate's colouring on.

use crate::context::FormattingState;
use crate::text::{byte_len, byte_length, push_repeated, repeated};
use colored::Colorize;
use std::collections::VecDeque;
use vstd::prelude::*;
use vstd::string::*;

verus! {

/// The escape sequence that selects the graphic rendition `params`.
pub open spec fn sgr(params: Seq<char>) -> Seq<char> {
    seq!['\x1B', '['] + params + seq!['m']
}

/// The escape sequence that ends every style.
pub open spec fn reset_sequence() -> Seq<char> {
    sgr(seq!['0'])
}

/// `text` with `style` put behind each reset sequence in it, so that a
/// style that ends inside `text` does not end the one around it.
pub open spec fn reinstated(text: Seq<char>, style: Seq<char>) -> Seq<char>
    decreases text.len(),
{
    if text.len() == 0 {
        text
    } else if reset_sequence().is_prefix_of(text) {
        reset_sequence() + style + reinstated(text.skip(4), style)
    } else {
        seq![text[0]] + reinstated(text.drop_first(), style)
    }
}

/// `text` in the rendition `params`: the style's sequence, the text with
/// the style reinstated after each reset inside it, and a reset.
pub open spec fn painted(params: Seq<char>, text: Seq<char>) -> Seq<char> {
    sgr(params) + reinstated(text, sgr(params)) + reset_sequence()
}

/// The rendition of each inline style: bold, italic, and underlined blue for
/// a link.
pub open spec fn style_params(state: FormattingState) -> Seq<char> {
    match state {
        FormattingState::Bold => seq!['1'],
        FormattingState::Italic => seq!['3'],
        FormattingState::Link => seq!['4', ';', '3', '4'],
    }
}

/// The rendition of inline code: reverse video.
pub open spec fn code_params() -> Seq<char> {
    seq!['7']
}

/// `text` with every style of `stack` painted on, the last one of the
/// stack first, so that the style entered last lies closest to the text.
pub open spec fn fully_styled(stack: Seq<FormattingState>, text: Seq<char>) -> Seq<char>
    decreases stack.len(),
{
    if stack.len() == 0 {
        text
    } else {
        painted(style_params(stack[0]), fully_styled(stack.drop_first(), text))
    }
}

/// Text as [`format_text`] gives it: in the styles of the stack with
/// colours, as it is without.
pub open spec fn formatted_text(
    stack: Seq<FormattingState>,
    text: Seq<char>,
    colors: bool,
) -> Seq<char> {
    if colors {
        fully_styled(stack, text)
    } else {
        text
    }
}

/// Inline code as [`format_inline_code`] gives it: in reverse video with
/// colours, as it is without.
pub open spec fn formatted_code(code: Seq<char>, colors: bool) -> Seq<char> {
    if colors {
        painted(code_params(), code)
    } else {
        code
    }
}

/// Styles nest: text in the styles of a stack is the text in the styles
/// entered last, put into the styles entered before them.
pub proof fn lemma_styles_nest(
    outer: Seq<FormattingState>,
    inner: Seq<FormattingState>,
    text: Seq<char>,
)
    ensures
        fully_styled(outer + inner, text) == fully_styled(outer, fully_styled(inner, text)),
    decreases outer.len(),
{
    if outer.len() == 0 {
        assert(outer + inner =~= inner);
    } else {
        assert((outer + inner).drop_first() =~= outer.drop_first() + inner);
        assert((outer + inner)[0] == outer[0]);
        lemma_styles_nest(outer.drop_first(), inner, text);
    }
}

/// A horizontal rule of `n` characters.
pub open spec fn rule(n: nat) -> Seq<char> {
    repeated('─', n)
}

/// A title with the decoration of its level. Level 1 stands between two
/// rules, four longer than `width`, with a space on each side; level 2
/// between three dashes and a space on each side; level 3 between a hyphen
/// and a space on each side; any other level has no decoration.
pub open spec fn decorated(title: Seq<char>, level: u32, width: nat) -> Seq<char> {
    if level == 1 {
        rule(width + 4) + seq!['\n', ' '] + title + seq![' ', '\n'] + rule(width + 4)
    } else if level == 2 {
        seq!['─', '─', '─', ' '] + title + seq![' ', '─', '─', '─']
    } else if level == 3 {
        seq!['-', ' '] + title + seq![' ', '-']
    } else {
        title
    }
}

/// A heading as [`format_heading`] gives it: the title in bold where
/// colours are on, in the decoration of its level, which is measured by
/// the title as given, in bytes.
pub open spec fn formatted_heading(text: Seq<char>, level: u32, colors: bool) -> Seq<char> {
    decorated(
        if colors {
            painted(style_params(FormattingState::Bold), text)
        } else {
            text
        },
        level,
        byte_len(text),
    )
}

/// `colored::control::set_override(true)`, then `Colorize::bold` of
/// `colored` on a string slice and `to_string` on the `ColoredString` that
/// it gives. With the override set, the display of a `ColoredString` does
/// not ask the environment: it writes `ESC[1m`, the input with `ESC[1m` put
/// behind each `ESC[0m` in it, and `ESC[0m`. The override stays set for the
/// process.
#[verifier::external_body]
fn paint_bold(text: &str) -> (out: String)
    ensures
        out@ == painted(style_params(FormattingState::Bold), text@),
{
    colored::control::set_override(true);
    text.bold().to_string()
}

/// `colored::control::set_override(true)`, then `Colorize::italic` of
/// `colored` on a string slice and `to_string` on the result: `ESC[3m`,
/// the input with `ESC[3m` behind each `ESC[0m` in it, and `ESC[0m`.
#[verifier::external_body]
fn paint_italic(text: &str) -> (out: String)
    ensures
        out@ == painted(style_params(FormattingState::Italic), text@),
{
    colored::control::set_override(true);
    text.italic().to_string()
}

/// `colored::control::set_override(true)`, then `Colorize::blue` of
/// `colored` on a string slice, `Colorize::underline` on the
/// `ColoredString` that it gives, and `to_string` on the result. The two
/// calls set the foreground colour and the style of one `ColoredString`,
/// whose display writes the style before the colour: `ESC[4;34m`, the
/// input with `ESC[4;34m` behind each `ESC[0m` in it, and `ESC[0m`.
#[verifier::external_body]
fn paint_link(text: &str) -> (out: String)
    ensures
        out@ == painted(style_params(FormattingState::Link), text@),
{
    colored::control::set_override(true);
    text.blue().underline().to_string()
}

/// `colored::control::set_override(true)`, then `Colorize::reversed` of
/// `colored` on a string slice and `to_string` on the result: `ESC[7m`,
/// the input with `ESC[7m` behind each `ESC[0m` in it, and `ESC[0m`.
#[verifier::external_body]
fn paint_reversed(text: &str) -> (out: String)
    ensures
        out@ == painted(code_params(), text@),
{
    colored::control::set_override(true);
    text.reversed().to_string()
}

/// Format text with the styles of the stack applied, innermost first.
/// Without colours the text is returned as it is.
pub fn format_text(
    text: &str,
    formatting_stack: &VecDeque<FormattingState>,
    use_colors: bool,
) -> (out: String)
    ensures
        out@ == formatted_text(formatting_stack@, text@, use_colors),
{
    let mut result = text.to_owned();
    if !use_colors {
        return result;
    }
    let ghost stack = formatting_stack@;
    let mut j: usize = formatting_stack.len();
    assert(stack.skip(j as int) =~= Seq::<FormattingState>::empty());
    while j > 0
        invariant
            j <= stack.len(),
            stack == formatting_stack@,
            result@ == fully_styled(stack.skip(j as int), text@),
        decreases j,
    {
        j -= 1;
        let next = match formatting_stack[j] {
            FormattingState::Bold => paint_bold(result.as_str()),
            FormattingState::Italic => paint_italic(result.as_str()),
            FormattingState::Link => paint_link(result.as_str()),
        };
        proof {
            let open = stack.skip(j as int);
            assert(open.drop_first() =~= stack.skip(j + 1));
            assert(open[0] == stack[j as int]);
        }
        result = next;
    }
    assert(stack.skip(0) =~= stack);
    result
}

/// Format inline code in reverse video, whatever styles are open. Without
/// colours the code is returned as it is.
pub fn format_inline_code(code: &str, use_colors: bool) -> (out: String)
    ensures
        out@ == formatted_code(code@, use_colors),
{
    if !use_colors {
        return code.to_owned();
    }
    paint_reversed(code)
}

/// Format a heading's title by its level.
pub fn format_heading(text: &str, level: u32, use_colors: bool) -> (out: String)
    ensures
        out@ == formatted_heading(text@, level, use_colors),
{
    let title = if use_colors {
        paint_bold(text)
    } else {
        text.to_owned()
    };
    let mut out = String::new();
    proof {
        reveal_strlit("\n ");
        reveal_strlit(" \n");
        reveal_strlit("─── ");
        reveal_strlit(" ───");
        reveal_strlit("- ");
        reveal_strlit(" -");
    }
    if level == 1 {
        let width = byte_length(text);
        push_repeated(&mut out, '─', width);
        push_repeated(&mut out, '─', 4);
        out.append("\n ");
        out.append(title.as_str());
        out.append(" \n");
        push_repeated(&mut out, '─', width);
        push_repeated(&mut out, '─', 4);
        assert(repeated('─', width as nat) + repeated('─', 4) =~= rule(width as nat + 4));
        assert(out@ =~= decorated(title@, level, byte_len(text@)));
    } else if level == 2 {
        out.append("─── ");
        out.append(title.as_str());
        out.append(" ───");
        assert(out@ =~= decorated(title@, level, byte_len(text@)));
    } else if level == 3 {
        out.append("- ");
        out.append(title.as_str());
        out.append(" -");
        assert(out@ =~= decorated(title@, level, byte_len(text@)));
    } else {
        out.append(title.as_str());
        assert(out@ =~= decorated(title@, level, byte_len(text@)));
    }
    out
}

} // verus!
