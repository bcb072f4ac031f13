//! The output accumulator that all rendering writes to, with the stack of
//! open inline styles and the count of newlines at the end of the output.

use crate::text::{
    ends_with_blank_line, ends_with_newline, is_whitespace, trailing_newlines, trim_end,
    trimmed_end,
};
use std::collections::VecDeque;
use vstd::prelude::*;
use vstd::string::*;

verus! {

/// An inline style that is open around the text being rendered.
#[derive(Debug, Clone, Copy, PartialEq, Eq, Structural)]
pub enum FormattingState {
    Bold,
    Italic,
    Link,
}

/// What a [`RenderContext`] holds, as mathematical values.
pub struct ContextView {
    pub output: Seq<char>,
    pub stack: Seq<FormattingState>,
    pub pending: nat,
    pub colors: bool,
}

impl ContextView {
    /// The context before anything was written.
    pub open spec fn new(colors: bool) -> ContextView {
        ContextView { output: Seq::empty(), stack: Seq::empty(), pending: 0, colors }
    }

    /// `text` appended as it is; the newline count starts over.
    pub open spec fn push_str(self, text: Seq<char>) -> ContextView {
        ContextView { output: self.output + text, pending: 0, ..self }
    }

    /// One newline appended and counted; the count stops at 2.
    pub open spec fn push_newline(self) -> ContextView {
        ContextView {
            output: self.output.push('\n'),
            pending: if self.pending < 2 {
                self.pending + 1
            } else {
                self.pending
            },
            ..self
        }
    }

    /// Whether a newline is missing at the end of what was written.
    pub open spec fn lacks_newline(self) -> bool {
        self.output.len() > 0 && self.output.last() != '\n'
    }

    /// Whether the output ends in two newlines.
    pub open spec fn ends_blank(self) -> bool {
        let written = self.output;
        written.len() > 1 && written[written.len() - 1] == '\n' && written[written.len() - 2]
            == '\n'
    }

    /// Whether a newline is still needed to separate what follows by an
    /// empty line, as far as the output and the count tell.
    pub open spec fn lacks_blank_line(self) -> bool {
        self.output.len() > 0 && !self.ends_blank() && self.pending < 2
    }

    /// A newline appended unless the output is empty or ends in one.
    pub open spec fn ensure_newline(self) -> ContextView {
        if self.lacks_newline() {
            self.push_newline()
        } else {
            self
        }
    }

    /// A newline appended unless the output is empty, ends in two newlines,
    /// or two are counted.
    pub open spec fn ensure_blank_line(self) -> ContextView {
        if self.lacks_blank_line() {
            self.push_newline()
        } else {
            self
        }
    }

    /// The finished text: the output without the white space at its end,
    /// and one newline.
    pub open spec fn finalized(self) -> Seq<char> {
        trimmed_end(self.output).push('\n')
    }

    /// The count is at most 2 and not above the number of newlines at the
    /// end of the output.
    pub open spec fn counted(self) -> bool {
        self.pending <= 2 && self.pending <= trailing_newlines(self.output)
    }

    /// The count is the number of newlines at the end of the output, or 2
    /// where there are more.
    pub open spec fn exact(self) -> bool {
        self.pending == if trailing_newlines(self.output) < 2 {
            trailing_newlines(self.output)
        } else {
            2
        }
    }
}

/// Output accumulator, style stack and newline count of one rendering.
pub struct RenderContext {
    pub output: String,
    pub formatting_stack: VecDeque<FormattingState>,
    pub pending_newlines: usize,
    pub use_colors: bool,
}

impl View for RenderContext {
    type V = ContextView;

    open spec fn view(&self) -> ContextView {
        ContextView {
            output: self.output@,
            stack: self.formatting_stack@,
            pending: self.pending_newlines as nat,
            colors: self.use_colors,
        }
    }
}

impl RenderContext {
    /// An empty context.
    pub fn new(use_colors: bool) -> (context: Self)
        ensures
            context@ == ContextView::new(use_colors),
    {
        Self {
            output: String::new(),
            formatting_stack: VecDeque::new(),
            pending_newlines: 0,
            use_colors,
        }
    }

    /// Appends `s` as it is and sets the newline count to 0.
    pub fn push_str(&mut self, s: &str)
        ensures
            final(self)@ == old(self)@.push_str(s@),
    {
        self.output.append(s);
        self.pending_newlines = 0;
    }

    /// Appends one newline and counts it, up to 2.
    pub fn push_newline(&mut self)
        ensures
            final(self)@ == old(self)@.push_newline(),
    {
        self.output.push('\n');
        if self.pending_newlines < 2 {
            self.pending_newlines += 1;
        }
    }

    /// Appends a newline if the output is not empty and does not end in one.
    pub fn ensure_newline(&mut self)
        ensures
            final(self)@ == old(self)@.ensure_newline(),
    {
        if !self.output.as_str().is_empty() && !ends_with_newline(self.output.as_str()) {
            self.push_newline();
        }
    }

    /// Appends a newline if the output is not empty, does not end in two
    /// newlines, and fewer than two are counted.
    pub fn ensure_blank_line(&mut self)
        ensures
            final(self)@ == old(self)@.ensure_blank_line(),
    {
        if !self.output.as_str().is_empty() && !ends_with_blank_line(self.output.as_str())
            && self.pending_newlines < 2 {
            self.push_newline();
        }
    }

    /// The finished text: the output without the white space at its end,
    /// closed by exactly one newline.
    pub fn into_output(self) -> (out: String)
        ensures
            out@ == self@.finalized(),
    {
        let mut out = trim_end(self.output.as_str());
        out.push('\n');
        out
    }
}

/// A newline at the end is one more newline at the end.
pub proof fn lemma_trailing_newlines_push(s: Seq<char>)
    ensures
        trailing_newlines(s.push('\n')) == trailing_newlines(s) + 1,
{
    assert(s.push('\n').drop_last() =~= s);
}

/// Text that ends in another character ends in no newline.
proof fn lemma_trailing_newlines_append(s: Seq<char>, text: Seq<char>)
    requires
        text.len() > 0,
        text.last() != '\n',
    ensures
        trailing_newlines(s + text) == 0,
{
}

/// The output ends in two newlines exactly when two newlines or more stand
/// at its end.
pub proof fn lemma_ends_blank(c: ContextView)
    ensures
        c.ends_blank() <==> trailing_newlines(c.output) >= 2,
{
    let s = c.output;
    if s.len() >= 2 {
        let front = s.drop_last();
        assert(front.last() == s[s.len() - 2]);
        assert(trailing_newlines(front) == if front.last() == '\n' {
            1 + trailing_newlines(front.drop_last())
        } else {
            0
        });
    } else if s.len() == 1 {
        assert(trailing_newlines(s.drop_last()) == 0);
    }
}

/// The count of a new context is exact. Every operation leaves a count
/// that was not above the newlines at the end of the output not above
/// them, and an exact count exact. Appended text starts the count over, so
/// after it the count is exact only where the text ends in something other
/// than a newline.
pub proof fn lemma_count_is_kept(c: ContextView, text: Seq<char>)
    ensures
        ContextView::new(c.colors).counted() && ContextView::new(c.colors).exact(),
        c.push_str(text).counted(),
        text.len() > 0 && text.last() != '\n' ==> c.push_str(text).exact(),
        c.counted() ==> c.push_newline().counted(),
        c.exact() ==> c.push_newline().exact(),
        c.counted() ==> c.ensure_newline().counted() && c.ensure_blank_line().counted(),
        c.exact() ==> c.ensure_newline().exact() && c.ensure_blank_line().exact(),
{
    lemma_trailing_newlines_push(c.output);
    if text.len() > 0 && text.last() != '\n' {
        lemma_trailing_newlines_append(c.output, text);
    }
}

/// Where the count is not above the newlines at the end of the output, it
/// decides nothing: a newline is appended exactly when the output is not
/// empty and has fewer than two at its end, so that an empty line is never
/// followed by another.
pub proof fn lemma_blank_line_once(c: ContextView)
    requires
        c.counted(),
    ensures
        c.lacks_blank_line() <==> c.output.len() > 0 && trailing_newlines(c.output) < 2,
        trailing_newlines(c.output) <= 2 ==> trailing_newlines(c.ensure_blank_line().output) <= 2,
{
    lemma_ends_blank(c);
    lemma_trailing_newlines_push(c.output);
}

/// Trimmed text is empty or ends in something other than white space.
proof fn lemma_trimmed_end_is_trim(s: Seq<char>)
    ensures
        trimmed_end(s).len() == 0 || !is_whitespace(trimmed_end(s).last()),
        trimmed_end(s).is_prefix_of(s),
    decreases s.len(),
{
    if s.len() > 0 && is_whitespace(s.last()) {
        lemma_trimmed_end_is_trim(s.drop_last());
        let kept = trimmed_end(s);
        assert(s.subrange(0, kept.len() as int) =~= s.drop_last().subrange(0, kept.len() as int));
    } else {
        assert(s.subrange(0, s.len() as int) =~= s);
    }
}

/// The finished text ends in exactly one newline, and no white space
/// stands before that newline.
pub proof fn lemma_finalized_ends_in_one_newline(c: ContextView)
    ensures
        c.finalized().len() > 0,
        c.finalized().last() == '\n',
        trailing_newlines(c.finalized()) == 1,
        c.finalized().len() > 1 ==> !is_whitespace(c.finalized()[c.finalized().len() - 2]),
{
    let kept = trimmed_end(c.output);
    lemma_trimmed_end_is_trim(c.output);
    lemma_trailing_newlines_push(kept);
    assert(is_whitespace('\n'));
    if kept.len() > 0 {
        assert(kept.last() != '\n');
        assert(c.finalized()[c.finalized().len() - 2] == kept.last());
    }
}

} // verus!
