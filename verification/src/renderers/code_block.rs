//! Code blocks: every line indented by four spaces.

use crate::context::RenderContext;
use crate::element_renderer::ElementRenderer;
use crate::text::{
    has_return_newline, is_plain_line, joined, lemma_lines_are_plain, lemma_lines_of_joined,
    lemma_lines_rejoin, lines, repeated, split_lines, texts,
};
use vstd::prelude::*;
use vstd::string::*;

verus! {

/// A line of code as it is shown: four spaces, then the line.
pub open spec fn indented(line: Seq<char>) -> Seq<char> {
    repeated(' ', 4) + line
}

/// Each of the lines indented.
pub open spec fn indented_lines(code_lines: Seq<Seq<char>>) -> Seq<Seq<char>> {
    Seq::new(code_lines.len(), |i: int| indented(code_lines[i]))
}

/// A code block as it is shown: the lines of the code, each indented, with
/// a newline between each two and none at the end. Code without lines is
/// shown as nothing.
pub open spec fn code_block(code: Seq<char>) -> Seq<char> {
    joined(indented_lines(lines(code)), seq!['\n'])
}

/// A code block shows its code unchanged but for the indent. The block has
/// a line for each line of the code, an empty one included: that line
/// behind four spaces. And where no carriage return stands before a newline
/// in the code, the lines of the code are the code itself: joined by
/// newlines they give it back, but for a newline at its very end.
pub proof fn lemma_code_block_reproduces(code: Seq<char>)
    requires
        !has_return_newline(code),
    ensures
        code.len() > 0 ==> lines(code_block(code)) == indented_lines(lines(code)),
        forall|n: int|
            0 <= n < lines(code).len() ==> #[trigger] indented_lines(lines(code))[n] == repeated(
                ' ',
                4,
            ) + lines(code)[n],
        joined(lines(code), seq!['\n']) == if code.len() > 0 && code.last() == '\n' {
            code.drop_last()
        } else {
            code
        },
{
    lemma_lines_rejoin(code);
    if code.len() > 0 {
        let shown = indented_lines(lines(code));
        lemma_lines_are_plain(code);
        assert forall|n: int| 0 <= n < shown.len() - 1 implies is_plain_line(
            #[trigger] shown[n],
        ) by {
            let line = lines(code)[n];
            assert(is_plain_line(line));
            assert forall|i: int| 0 <= i < shown[n].len() implies shown[n][i] != '\n' by {
                if i >= 4 {
                    assert(shown[n][i] == line[i - 4]);
                }
            }
            if line.len() > 0 {
                assert(shown[n].last() == line.last());
            }
        }
        assert forall|i: int| 0 <= i < shown.last().len() implies shown.last()[i] != '\n' by {
            let line = lines(code).last();
            if i >= 4 {
                assert(shown.last()[i] == line[i - 4]);
            }
        }
        lemma_lines_of_joined(shown);
    }
}

/// Renders code blocks with 4-space indentation.
pub struct CodeBlockRenderer {
    buffer: String,
}

impl View for CodeBlockRenderer {
    type V = Seq<char>;

    /// The code gathered so far.
    closed spec fn view(&self) -> Seq<char> {
        self.buffer@
    }
}

impl CodeBlockRenderer {
    /// A renderer that has gathered nothing.
    pub fn new() -> (renderer: Self)
        ensures
            renderer@ == Seq::<char>::empty(),
    {
        Self { buffer: String::new() }
    }

    /// Renders `code` as a code block.
    pub fn render_code_block(&self, code: &str) -> (out: String)
        ensures
            out@ == code_block(code@),
    {
        let code_lines = split_lines(code);
        let ghost shown = indented_lines(lines(code@));
        let mut out = String::new();
        let mut i: usize = 0;
        assert(shown.take(0) =~= Seq::<Seq<char>>::empty());
        while i < code_lines.len()
            invariant
                i <= code_lines.len(),
                texts(code_lines@) == lines(code@),
                shown == indented_lines(lines(code@)),
                out@ == joined(shown.take(i as int), seq!['\n']),
            decreases code_lines.len() - i,
        {
            proof {
                reveal_strlit("    ");
                assert(shown.take(i + 1).drop_last() =~= shown.take(i as int));
                assert(shown.take(i + 1).last() == indented(code_lines@[i as int]@));
                assert("    "@ =~= repeated(' ', 4));
            }
            if i > 0 {
                out.push('\n');
            }
            out.append("    ");
            out.append(code_lines[i].as_str());
            i += 1;
            assert(out@ =~= joined(shown.take(i as int), seq!['\n']));
        }
        assert(shown.take(i as int) =~= shown);
        out
    }
}

impl ElementRenderer for CodeBlockRenderer {
    /// Forgets the code gathered so far.
    fn start(&mut self, context: &mut RenderContext)
        ensures
            final(self)@ == Seq::<char>::empty(),
            *final(context) == *old(context),
    {
        self.buffer = String::new();
    }

    /// Takes `text` as it is.
    fn handle_text(&mut self, text: &str, context: &mut RenderContext)
        ensures
            final(self)@ == old(self)@ + text@,
            *final(context) == *old(context),
    {
        self.buffer.append(text);
    }

    /// A soft break is a newline in the code.
    fn handle_soft_break(&mut self, context: &mut RenderContext)
        ensures
            final(self)@ == old(self)@.push('\n'),
            *final(context) == *old(context),
    {
        self.buffer.push('\n');
    }

    /// A hard break is a newline in the code.
    fn handle_hard_break(&mut self, context: &mut RenderContext)
        ensures
            final(self)@ == old(self)@.push('\n'),
            *final(context) == *old(context),
    {
        self.buffer.push('\n');
    }

    /// The code block for what was gathered.
    fn end(&mut self, context: &mut RenderContext) -> (out: Option<String>)
        ensures
            out matches Some(block) && block@ == code_block(old(self)@),
            final(self)@ == old(self)@,
            *final(context) == *old(context),
    {
        Some(self.render_code_block(self.buffer.as_str()))
    }
}

} // verus!
