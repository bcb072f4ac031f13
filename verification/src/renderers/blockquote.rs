//! Block quotes: every line behind a vertical bar.

use crate::context::RenderContext;
use crate::element_renderer::ElementRenderer;
use crate::text::{is_plain_line, joined, lemma_lines_of_joined, lines, texts};
use vstd::prelude::*;
use vstd::string::*;

verus! {

/// What a [`BlockquoteRenderer`] holds: the finished lines and the line
/// that is being gathered.
pub struct QuoteView {
    pub lines: Seq<Seq<char>>,
    pub current: Seq<char>,
}

impl QuoteView {
    /// The renderer before anything was gathered.
    pub open spec fn new() -> QuoteView {
        QuoteView { lines: Seq::empty(), current: Seq::empty() }
    }

    /// `text` added to the line being gathered.
    pub open spec fn text(self, text: Seq<char>) -> QuoteView {
        QuoteView { current: self.current + text, ..self }
    }

    /// The line being gathered is finished, and an empty one begun.
    pub open spec fn line_break(self) -> QuoteView {
        QuoteView { lines: self.lines.push(self.current), current: Seq::empty() }
    }

    /// All lines at the end of the quote: the finished ones, and the one
    /// being gathered if anything is in it.
    pub open spec fn closed_lines(self) -> Seq<Seq<char>> {
        if self.current.len() > 0 {
            self.lines.push(self.current)
        } else {
            self.lines
        }
    }

    /// The quote as it is shown.
    pub open spec fn rendered(self) -> Seq<char> {
        quoted(self.closed_lines())
    }

    /// The renderer after it was given the texts of `lines` one after the
    /// other, with a break between each two.
    pub open spec fn gathered(lines: Seq<Seq<char>>) -> QuoteView
        decreases lines.len(),
    {
        if lines.len() == 0 {
            QuoteView::new()
        } else if lines.len() == 1 {
            QuoteView::new().text(lines[0])
        } else {
            QuoteView::gathered(lines.drop_last()).line_break().text(lines.last())
        }
    }
}

/// A quoted line as it is shown: a bar, a space, the line.
pub open spec fn quoted_line(line: Seq<char>) -> Seq<char> {
    seq!['▌', ' '] + line
}

/// Each of the lines behind its bar.
pub open spec fn quoted_lines(quote_lines: Seq<Seq<char>>) -> Seq<Seq<char>> {
    Seq::new(quote_lines.len(), |i: int| quoted_line(quote_lines[i]))
}

/// Lines as a block quote: each behind its bar, with a newline between
/// each two and none at the end.
pub open spec fn quoted(quote_lines: Seq<Seq<char>>) -> Seq<char> {
    joined(quoted_lines(quote_lines), seq!['\n'])
}

/// Texts with breaks between them are gathered as lines: all but the last
/// are finished, the last is being gathered.
pub proof fn lemma_gathered(lines: Seq<Seq<char>>)
    requires
        lines.len() > 0,
    ensures
        QuoteView::gathered(lines) == (QuoteView {
            lines: lines.drop_last(),
            current: lines.last(),
        }),
    decreases lines.len(),
{
    if lines.len() == 1 {
        assert(Seq::<char>::empty() + lines[0] =~= lines[0]);
        assert(lines.drop_last() =~= Seq::<Seq<char>>::empty());
    } else {
        let front = lines.drop_last();
        lemma_gathered(front);
        assert(front.drop_last().push(front.last()) =~= front);
        assert(Seq::<char>::empty() + lines.last() =~= lines.last());
    }
}

/// A quote of texts with a break between each two, soft or hard, is shown
/// as one line for each text, each behind its own bar. The last text must
/// not be empty: an empty line at the end of a quote is not shown. The
/// lines come apart again as they were quoted if all but the last can stand
/// before a newline and the last has no newline in it.
pub proof fn lemma_each_line_is_quoted(lines_given: Seq<Seq<char>>)
    requires
        lines_given.len() > 0,
        lines_given.last().len() > 0,
    ensures
        QuoteView::gathered(lines_given).rendered() == joined(
            quoted_lines(lines_given),
            seq!['\n'],
        ),
        quoted_lines(lines_given).len() == lines_given.len(),
        forall|n: int|
            0 <= n < lines_given.len() ==> #[trigger] quoted_lines(lines_given)[n] == seq![
                '▌',
                ' ',
            ] + lines_given[n],
        (forall|n: int| 0 <= n < lines_given.len() - 1 ==> is_plain_line(#[trigger] lines_given[n]))
            && (forall|i: int|
            0 <= i < lines_given.last().len() ==> lines_given.last()[i] != '\n') ==> lines(
            QuoteView::gathered(lines_given).rendered(),
        ) == quoted_lines(lines_given),
{
    lemma_gathered(lines_given);
    assert(lines_given.drop_last().push(lines_given.last()) =~= lines_given);
    let shown = quoted_lines(lines_given);
    if (forall|n: int| 0 <= n < lines_given.len() - 1 ==> is_plain_line(#[trigger] lines_given[n]))
        && (forall|i: int| 0 <= i < lines_given.last().len() ==> lines_given.last()[i] != '\n') {
        assert forall|n: int| 0 <= n < shown.len() - 1 implies is_plain_line(
            #[trigger] shown[n],
        ) by {
            let line = lines_given[n];
            assert(is_plain_line(line));
            assert forall|i: int| 0 <= i < shown[n].len() implies shown[n][i] != '\n' by {
                if i >= 2 {
                    assert(shown[n][i] == line[i - 2]);
                }
            }
            if line.len() > 0 {
                assert(shown[n].last() == line.last());
            }
        }
        assert forall|i: int| 0 <= i < shown.last().len() implies shown.last()[i] != '\n' by {
            if i >= 2 {
                assert(shown.last()[i] == lines_given.last()[i - 2]);
            }
        }
        lemma_lines_of_joined(shown);
    }
}

/// Renders blockquotes with vertical bar prefix.
pub struct BlockquoteRenderer {
    lines: Vec<String>,
    current_line: String,
}

impl View for BlockquoteRenderer {
    type V = QuoteView;

    closed spec fn view(&self) -> QuoteView {
        QuoteView { lines: texts(self.lines@), current: self.current_line@ }
    }
}

impl BlockquoteRenderer {
    /// A renderer that has gathered nothing.
    pub fn new() -> (renderer: Self)
        ensures
            renderer@ == QuoteView::new(),
    {
        let renderer = Self { lines: Vec::new(), current_line: String::new() };
        assert(texts(renderer.lines@) =~= Seq::<Seq<char>>::empty());
        renderer
    }

    /// The lines as a block quote.
    pub fn add_prefix_to_lines(quote_lines: &Vec<String>) -> (out: String)
        ensures
            out@ == quoted(texts(quote_lines@)),
    {
        let ghost shown = quoted_lines(texts(quote_lines@));
        let mut out = String::new();
        let mut i: usize = 0;
        assert(shown.take(0) =~= Seq::<Seq<char>>::empty());
        while i < quote_lines.len()
            invariant
                i <= quote_lines.len(),
                shown == quoted_lines(texts(quote_lines@)),
                out@ == joined(shown.take(i as int), seq!['\n']),
            decreases quote_lines.len() - i,
        {
            proof {
                reveal_strlit("▌ ");
                assert(shown.take(i + 1).drop_last() =~= shown.take(i as int));
                assert(shown.take(i + 1).last() == quoted_line(quote_lines@[i as int]@));
                assert("▌ "@ =~= seq!['▌', ' ']);
            }
            if i > 0 {
                out.push('\n');
            }
            out.append("▌ ");
            out.append(quote_lines[i].as_str());
            i += 1;
            assert(out@ =~= joined(shown.take(i as int), seq!['\n']));
        }
        assert(shown.take(i as int) =~= shown);
        out
    }

    /// Finishes the line being gathered.
    fn break_line(&mut self)
        ensures
            final(self)@ == old(self)@.line_break(),
    {
        let mut line = String::new();
        core::mem::swap(&mut self.current_line, &mut line);
        let ghost before = texts(self.lines@);
        self.lines.push(line);
        assert(texts(self.lines@) =~= before.push(line@));
    }
}

impl ElementRenderer for BlockquoteRenderer {
    /// Forgets what was gathered so far.
    fn start(&mut self, context: &mut RenderContext)
        ensures
            final(self)@ == QuoteView::new(),
            *final(context) == *old(context),
    {
        self.lines = Vec::new();
        self.current_line = String::new();
        assert(texts(self.lines@) =~= Seq::<Seq<char>>::empty());
    }

    /// Adds `text` to the line being gathered.
    fn handle_text(&mut self, text: &str, context: &mut RenderContext)
        ensures
            final(self)@ == old(self)@.text(text@),
            *final(context) == *old(context),
    {
        self.current_line.append(text);
    }

    /// A soft break ends the line.
    fn handle_soft_break(&mut self, context: &mut RenderContext)
        ensures
            final(self)@ == old(self)@.line_break(),
            *final(context) == *old(context),
    {
        self.break_line();
    }

    /// A hard break ends the line.
    fn handle_hard_break(&mut self, context: &mut RenderContext)
        ensures
            final(self)@ == old(self)@.line_break(),
            *final(context) == *old(context),
    {
        self.break_line();
    }

    /// The block quote for what was gathered. A line that was being
    /// gathered stays, and is now among the finished ones too.
    fn end(&mut self, context: &mut RenderContext) -> (out: Option<String>)
        ensures
            out matches Some(quote) && quote@ == old(self)@.rendered(),
            final(self)@ == (QuoteView {
                lines: old(self)@.closed_lines(),
                current: old(self)@.current,
            }),
            *final(context) == *old(context),
    {
        if !self.current_line.as_str().is_empty() {
            let ghost before = texts(self.lines@);
            self.lines.push(self.current_line.clone());
            assert(texts(self.lines@) =~= before.push(self.current_line@));
        }
        Some(Self::add_prefix_to_lines(&self.lines))
    }
}

} // verus!
