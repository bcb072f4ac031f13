//! The renderer itself: one pass over the events of a document, with the
//! state that the pass keeps between them.

use crate::context::{
    lemma_count_is_kept, lemma_finalized_ends_in_one_newline, ContextView, FormattingState,
    RenderContext,
};
use crate::element_renderer::ElementRenderer;
use crate::events::{event_views, markdown_events, parse_markdown, BlockKind, EventView, StructuralEvent};
use crate::formatters::{
    format_heading, format_inline_code, format_text, formatted_code, formatted_heading,
    formatted_text,
};
use crate::renderers::blockquote::{BlockquoteRenderer, QuoteView};
use crate::renderers::code_block::{code_block, CodeBlockRenderer};
use crate::renderers::list::{ListRenderer, ListView};
use crate::renderers::table::{grid, grid_texts, render_grid, TableRenderer, TableView};
use crate::text::{repeated, trailing_newlines};
use vstd::prelude::*;
use vstd::string::*;

verus! {

/// The state of a rendering between two events, as mathematical values.
pub struct StateView {
    /// What was written, the open inline styles and the newline count.
    pub context: ContextView,
    /// The code gathered for the open code block, if one is open.
    pub code: Option<Seq<char>>,
    /// What was gathered for the open table, if one is open.
    pub table: Option<TableView>,
    /// What was gathered for the open block quote, if one is open.
    pub quote: Option<QuoteView>,
    /// The open lists, the outermost first.
    pub lists: Seq<ListView>,
    /// Whether the last list item begun was not ended yet.
    pub in_item: bool,
    /// Whether a heading is open.
    pub in_heading: bool,
    /// Level of the heading opened last.
    pub level: u32,
    /// Title gathered for the heading opened last.
    pub title: Seq<char>,
}

/// The glyph, with its space, for a task that is done or still to do.
pub open spec fn task_glyph(checked: bool) -> Seq<char> {
    if checked {
        seq!['☑', ' ']
    } else {
        seq!['☐', ' ']
    }
}

impl StateView {
    /// The state before the first event.
    pub open spec fn new(colors: bool) -> StateView {
        StateView {
            context: ContextView::new(colors),
            code: None,
            table: None,
            quote: None,
            lists: Seq::empty(),
            in_item: false,
            in_heading: false,
            level: 0,
            title: Seq::empty(),
        }
    }

    /// Whether text goes straight to the output: no heading is open and no
    /// code block, table or block quote.
    pub open spec fn direct(self) -> bool {
        !self.in_heading && self.code is None && self.table is None && self.quote is None
    }

    /// `text` written to the output.
    pub open spec fn write(self, text: Seq<char>) -> StateView {
        StateView { context: self.context.push_str(text), ..self }
    }

    /// A newline written to the output.
    pub open spec fn newline(self) -> StateView {
        StateView { context: self.context.push_newline(), ..self }
    }

    /// `text` taken by what gathers text at this point: the open heading
    /// before the open code block, that before the open table, and that
    /// before the open block quote.
    pub open spec fn gather(self, text: Seq<char>) -> StateView {
        if self.in_heading {
            StateView { title: self.title + text, ..self }
        } else {
            match (self.code, self.table, self.quote) {
                (Some(code), _, _) => StateView { code: Some(code + text), ..self },
                (None, Some(table), _) => StateView { table: Some(table.text(text)), ..self },
                (None, None, Some(quote)) => StateView { quote: Some(quote.text(text)), ..self },
                (None, None, None) => self,
            }
        }
    }

    /// Text arrives: where it goes straight to the output, it is written
    /// in the open styles; else it is gathered as it is.
    pub open spec fn text(self, text: Seq<char>) -> StateView {
        if self.direct() {
            self.write(formatted_text(self.context.stack, text, self.context.colors))
        } else {
            self.gather(text)
        }
    }

    /// Inline code arrives: where it goes straight to the output, it is
    /// written in reverse video, whatever styles are open; else it is
    /// gathered as it is.
    pub open spec fn inline_code(self, code: Seq<char>) -> StateView {
        if self.direct() {
            self.write(formatted_code(code, self.context.colors))
        } else {
            self.gather(code)
        }
    }

    /// A soft break arrives: a space in a title, in a table cell and in the
    /// output, a newline in code, the end of a line in a block quote.
    pub open spec fn soft_break(self) -> StateView {
        if self.in_heading {
            self.gather(seq![' '])
        } else {
            match (self.code, self.table, self.quote) {
                (Some(code), _, _) => self.gather(seq!['\n']),
                (None, Some(table), _) => self.gather(seq![' ']),
                (None, None, Some(quote)) => StateView { quote: Some(quote.line_break()), ..self },
                (None, None, None) => self.write(seq![' ']),
            }
        }
    }

    /// A hard break arrives: a newline wherever text is gathered, the end
    /// of a line in a block quote. In the output it is a newline, followed
    /// inside a list item by two spaces for each open list.
    pub open spec fn hard_break(self) -> StateView {
        if self.in_heading {
            self.gather(seq!['\n'])
        } else {
            match (self.code, self.table, self.quote) {
                (Some(code), _, _) => self.gather(seq!['\n']),
                (None, Some(table), _) => self.gather(seq!['\n']),
                (None, None, Some(quote)) => StateView { quote: Some(quote.line_break()), ..self },
                (None, None, None) => if self.in_item && self.lists.len() > 0 {
                    self.newline().write(repeated(' ', 2 * self.lists.len()))
                } else {
                    self.newline()
                },
            }
        }
    }

    /// A region is entered.
    pub open spec fn enter(self, kind: BlockKind) -> StateView {
        match kind {
            BlockKind::Paragraph => StateView {
                context: self.context.ensure_blank_line(),
                ..self
            },
            BlockKind::Heading(level) => StateView {
                context: self.context.ensure_newline(),
                in_heading: true,
                level,
                title: Seq::empty(),
                ..self
            },
            BlockKind::List(first) => StateView {
                lists: self.lists.push(ListView::new(first is Some, self.lists.len() + 1)),
                ..self
            },
            BlockKind::ListItem => if self.lists.len() > 0 {
                let innermost = self.lists.last();
                StateView {
                    context: self.context.push_str(innermost.next_marker(self.lists.len())),
                    lists: self.lists.drop_last().push(innermost.next_item()),
                    in_item: true,
                    ..self
                }
            } else {
                StateView { in_item: true, ..self }
            },
            BlockKind::CodeBlock => StateView {
                context: self.context.ensure_blank_line(),
                code: Some(Seq::empty()),
                ..self
            },
            BlockKind::BlockQuote => StateView {
                context: self.context.ensure_newline(),
                quote: Some(QuoteView::new()),
                ..self
            },
            BlockKind::Table => StateView {
                context: self.context.ensure_blank_line(),
                table: Some(TableView::new()),
                ..self
            },
            BlockKind::TableHeaderRow | BlockKind::TableRow => match self.table {
                Some(table) => StateView { table: Some(table.start_row()), ..self },
                None => self,
            },
            BlockKind::TableCell => match self.table {
                Some(table) => StateView { table: Some(table.start_cell()), ..self },
                None => self,
            },
            BlockKind::Emphasis => self.open_style(FormattingState::Italic),
            BlockKind::Strong => self.open_style(FormattingState::Bold),
            BlockKind::Link => self.open_style(FormattingState::Link),
            _ => self,
        }
    }

    /// An inline style begins.
    pub open spec fn open_style(self, style: FormattingState) -> StateView {
        StateView {
            context: ContextView { stack: self.context.stack.push(style), ..self.context },
            ..self
        }
    }

    /// The inline style begun last ends. Where none is open, nothing
    /// changes.
    pub open spec fn close_style(self) -> StateView {
        if self.context.stack.len() > 0 {
            StateView {
                context: ContextView { stack: self.context.stack.drop_last(), ..self.context },
                ..self
            }
        } else {
            self
        }
    }

    /// A buffered element ends: what it rendered to is written, if the
    /// element was open, and a newline after it.
    pub open spec fn flush(self, rendered: Option<Seq<char>>) -> StateView {
        match rendered {
            Some(block) => self.write(block).newline(),
            None => self.newline(),
        }
    }

    /// A region is left. A paragraph ends with a newline where its text
    /// went straight to the output, and with nothing where the text was
    /// gathered. A heading ends with its title, formatted by its level, and
    /// an empty line. Leaving what was not entered changes nothing but what
    /// any leaving of that kind writes.
    pub open spec fn exit(self, kind: BlockKind) -> StateView {
        match kind {
            BlockKind::Paragraph => if self.direct() {
                self.newline()
            } else {
                self
            },
            BlockKind::Heading(_) => StateView {
                in_heading: false,
                ..self.write(
                    formatted_heading(self.title, self.level, self.context.colors),
                ).newline().newline()
            },
            BlockKind::List(_) => if self.lists.len() > 1 {
                StateView { lists: self.lists.drop_last(), ..self }
            } else if self.lists.len() == 1 {
                StateView { lists: self.lists.drop_last(), ..self.newline() }
            } else {
                self
            },
            BlockKind::ListItem => StateView { in_item: false, ..self.newline() },
            BlockKind::CodeBlock => StateView {
                code: None,
                ..self.flush(
                    match self.code {
                        Some(code) => Some(code_block(code)),
                        None => None,
                    },
                )
            },
            BlockKind::BlockQuote => StateView {
                quote: None,
                ..self.flush(
                    match self.quote {
                        Some(quote) => Some(quote.rendered()),
                        None => None,
                    },
                )
            },
            BlockKind::Table => StateView {
                table: None,
                ..self.flush(
                    match self.table {
                        Some(table) => Some(table.rendered()),
                        None => None,
                    },
                )
            },
            BlockKind::TableHeaderRow | BlockKind::TableRow => match self.table {
                Some(table) => StateView { table: Some(table.end_row()), ..self },
                None => self,
            },
            BlockKind::TableCell => match self.table {
                Some(table) => StateView { table: Some(table.end_cell()), ..self },
                None => self,
            },
            BlockKind::Emphasis | BlockKind::Strong | BlockKind::Link => self.close_style(),
            _ => self,
        }
    }

    /// The state after `event`.
    pub open spec fn step(self, event: EventView) -> StateView {
        match event {
            EventView::Enter(kind) => self.enter(kind),
            EventView::Exit(kind) => self.exit(kind),
            EventView::Text(text) => self.text(text),
            EventView::InlineCode(code) => self.inline_code(code),
            EventView::SoftBreak => self.soft_break(),
            EventView::HardBreak => self.hard_break(),
            EventView::TaskMarker(checked) => self.write(task_glyph(checked)),
            EventView::RawMarkup | EventView::FootnoteReference | EventView::Rule => self,
        }
    }

    /// The state after `events`, one after the other.
    pub open spec fn run(self, events: Seq<EventView>) -> StateView
        decreases events.len(),
    {
        if events.len() == 0 {
            self
        } else {
            self.run(events.drop_last()).step(events.last())
        }
    }

    /// No more than `bound` lists are open, and none has numbered more than
    /// `bound` items.
    pub open spec fn bounded(self, bound: nat) -> bool {
        &&& self.lists.len() <= bound
        &&& forall|k: int| 0 <= k < self.lists.len() ==> (#[trigger] self.lists[k]).ordinal <= bound
    }
}

/// The rendering of `events`: the output that they lead to from the start,
/// without the white space at its end, closed by one newline.
pub open spec fn rendering(events: Seq<EventView>, colors: bool) -> Seq<char> {
    StateView::new(colors).run(events).context.finalized()
}

/// The views of the renderers of the open lists.
pub open spec fn list_views(lists: Seq<ListRenderer>) -> Seq<ListView> {
    Seq::new(lists.len(), |k: int| lists[k]@)
}

/// The state of a rendering between two events.
pub struct RenderState {
    context: RenderContext,
    code: Option<CodeBlockRenderer>,
    table: Option<TableRenderer>,
    quote: Option<BlockquoteRenderer>,
    lists: Vec<ListRenderer>,
    in_list_item: bool,
    in_heading: bool,
    heading_level: u32,
    heading_buffer: String,
}

impl View for RenderState {
    type V = StateView;

    closed spec fn view(&self) -> StateView {
        StateView {
            context: self.context@,
            code: match self.code {
                Some(renderer) => Some(renderer@),
                None => None,
            },
            table: match self.table {
                Some(renderer) => Some(renderer@),
                None => None,
            },
            quote: match self.quote {
                Some(renderer) => Some(renderer@),
                None => None,
            },
            lists: list_views(self.lists@),
            in_item: self.in_list_item,
            in_heading: self.in_heading,
            level: self.heading_level,
            title: self.heading_buffer@,
        }
    }
}

impl RenderState {
    /// The state before the first event.
    pub fn new(use_colors: bool) -> (state: Self)
        ensures
            state@ == StateView::new(use_colors),
    {
        let state = Self {
            context: RenderContext::new(use_colors),
            code: None,
            table: None,
            quote: None,
            lists: Vec::new(),
            in_list_item: false,
            in_heading: false,
            heading_level: 0,
            heading_buffer: String::new(),
        };
        assert(list_views(state.lists@) =~= Seq::<ListView>::empty());
        state
    }

    /// Hands `text` to what gathers text at this point.
    fn gather(&mut self, text: &str)
        ensures
            final(self)@ == old(self)@.gather(text@),
    {
        if self.in_heading {
            self.heading_buffer.append(text);
            return ;
        }
        match self.code.take() {
            Some(mut renderer) => {
                renderer.handle_text(text, &mut self.context);
                self.code = Some(renderer);
            },
            None => match self.table.take() {
                Some(mut renderer) => {
                    renderer.handle_text(text, &mut self.context);
                    self.table = Some(renderer);
                },
                None => match self.quote.take() {
                    Some(mut renderer) => {
                        renderer.handle_text(text, &mut self.context);
                        self.quote = Some(renderer);
                    },
                    None => {},
                },
            },
        }
    }

    /// Whether text goes straight to the output.
    fn is_direct(&self) -> (direct: bool)
        ensures
            direct == self@.direct(),
    {
        !self.in_heading && self.code.is_none() && self.table.is_none() && self.quote.is_none()
    }

    /// Text arrives.
    fn text(&mut self, text: &str)
        ensures
            final(self)@ == old(self)@.text(text@),
    {
        if self.is_direct() {
            let piece = format_text(
                text,
                &self.context.formatting_stack,
                self.context.use_colors,
            );
            self.context.push_str(piece.as_str());
        } else {
            self.gather(text);
        }
    }

    /// Inline code arrives.
    fn inline_code(&mut self, code: &str)
        ensures
            final(self)@ == old(self)@.inline_code(code@),
    {
        if self.is_direct() {
            let piece = format_inline_code(code, self.context.use_colors);
            self.context.push_str(piece.as_str());
        } else {
            self.gather(code);
        }
    }

    /// A soft break arrives.
    fn soft_break(&mut self)
        ensures
            final(self)@ == old(self)@.soft_break(),
    {
        proof {
            reveal_strlit(" ");
            reveal_strlit("\n");
            assert(" "@ =~= seq![' ']);
            assert("\n"@ =~= seq!['\n']);
        }
        if self.in_heading {
            self.gather(" ");
        } else if self.code.is_some() {
            self.gather("\n");
        } else if self.table.is_some() {
            self.gather(" ");
        } else {
            match self.quote.take() {
                Some(mut renderer) => {
                    renderer.handle_soft_break(&mut self.context);
                    self.quote = Some(renderer);
                },
                None => {
                    self.context.push_str(" ");
                },
            }
        }
    }

    /// A hard break arrives.
    fn hard_break(&mut self)
        ensures
            final(self)@ == old(self)@.hard_break(),
    {
        proof {
            reveal_strlit("\n");
            reveal_strlit("  ");
            assert("\n"@ =~= seq!['\n']);
            assert("  "@ =~= repeated(' ', 2));
        }
        if self.in_heading || self.code.is_some() || self.table.is_some() {
            self.gather("\n");
        } else {
            match self.quote.take() {
                Some(mut renderer) => {
                    renderer.handle_hard_break(&mut self.context);
                    self.quote = Some(renderer);
                },
                None => {
                    self.context.push_newline();
                    if self.in_list_item && self.lists.len() > 0 {
                        let ghost broken = self.context@;
                        let mut level: usize = 0;
                        while level < self.lists.len()
                            invariant
                                level <= self.lists.len(),
                                "  "@ == repeated(' ', 2),
                                level == 0 ==> self.context@ == broken,
                                level > 0 ==> self.context@ == broken.push_str(
                                    repeated(' ', 2 * level as nat),
                                ),
                                self.code == old(self).code,
                                self.table == old(self).table,
                                self.quote is None,
                                self.lists == old(self).lists,
                                self.in_list_item == old(self).in_list_item,
                                self.in_heading == old(self).in_heading,
                                self.heading_level == old(self).heading_level,
                                self.heading_buffer == old(self).heading_buffer,
                            decreases self.lists.len() - level,
                        {
                            self.context.push_str("  ");
                            level += 1;
                            assert(self.context@.output =~= broken.output + repeated(
                                ' ',
                                2 * level as nat,
                            ));
                        }
                    }
                },
            }
        }
    }

    /// A region is entered.
    fn enter(&mut self, kind: BlockKind)
        requires
            old(self)@.bounded((usize::MAX - 1) as nat),
        ensures
            final(self)@ == old(self)@.enter(kind),
    {
        match kind {
            BlockKind::Paragraph => {
                self.context.ensure_blank_line();
            },
            BlockKind::Heading(level) => {
                self.context.ensure_newline();
                self.in_heading = true;
                self.heading_level = level;
                self.heading_buffer = String::new();
            },
            BlockKind::List(first) => {
                let ghost before = list_views(self.lists@);
                let renderer = ListRenderer::new(first.is_some(), self.lists.len() + 1);
                self.lists.push(renderer);
                assert(list_views(self.lists@) =~= before.push(renderer@));
            },
            BlockKind::ListItem => {
                self.in_list_item = true;
                let depth = self.lists.len();
                if depth > 0 {
                    let ghost before = list_views(self.lists@);
                    assert(before[depth - 1] == self.lists@[depth - 1]@);
                    let mut innermost = self.lists.pop().unwrap();
                    innermost.start_item(&mut self.context.output, depth);
                    self.context.pending_newlines = 0;
                    self.lists.push(innermost);
                    assert(list_views(self.lists@) =~= before.drop_last().push(
                        before.last().next_item(),
                    ));
                }
            },
            BlockKind::CodeBlock => {
                self.context.ensure_blank_line();
                let mut renderer = CodeBlockRenderer::new();
                renderer.start(&mut self.context);
                self.code = Some(renderer);
            },
            BlockKind::BlockQuote => {
                self.quote = Some(BlockquoteRenderer::new());
                self.context.ensure_newline();
            },
            BlockKind::Table => {
                self.context.ensure_blank_line();
                let mut renderer = TableRenderer::new();
                renderer.start(&mut self.context);
                self.table = Some(renderer);
            },
            BlockKind::TableHeaderRow | BlockKind::TableRow => {
                match self.table.take() {
                    Some(mut renderer) => {
                        renderer.start_row();
                        self.table = Some(renderer);
                    },
                    None => {},
                }
            },
            BlockKind::TableCell => {
                match self.table.take() {
                    Some(mut renderer) => {
                        renderer.start_cell();
                        self.table = Some(renderer);
                    },
                    None => {},
                }
            },
            BlockKind::Emphasis => {
                self.context.formatting_stack.push_back(FormattingState::Italic);
            },
            BlockKind::Strong => {
                self.context.formatting_stack.push_back(FormattingState::Bold);
            },
            BlockKind::Link => {
                self.context.formatting_stack.push_back(FormattingState::Link);
            },
            _ => {},
        }
    }

    /// Writes what a buffered element rendered to, and a newline.
    fn flush(&mut self, rendered: Option<String>)
        ensures
            final(self)@ == old(self)@.flush(
                match rendered {
                    Some(block) => Some(block@),
                    None => None,
                },
            ),
    {
        match rendered {
            Some(block) => {
                self.context.push_str(block.as_str());
            },
            None => {},
        }
        self.context.push_newline();
    }

    /// A region is left.
    fn exit(&mut self, kind: BlockKind)
        ensures
            final(self)@ == old(self)@.exit(kind),
    {
        match kind {
            BlockKind::Paragraph => {
                if self.is_direct() {
                    self.context.push_newline();
                }
            },
            BlockKind::Heading(_) => {
                let formatted = format_heading(
                    self.heading_buffer.as_str(),
                    self.heading_level,
                    self.context.use_colors,
                );
                self.context.push_str(formatted.as_str());
                self.context.push_newline();
                self.context.push_newline();
                self.in_heading = false;
            },
            BlockKind::List(_) => {
                if self.lists.len() > 0 {
                    let ghost open = list_views(self.lists@);
                    self.lists.pop();
                    assert(list_views(self.lists@) =~= open.drop_last());
                    if self.lists.len() == 0 {
                        self.context.push_newline();
                    }
                }
            },
            BlockKind::ListItem => {
                self.in_list_item = false;
                self.context.push_newline();
            },
            BlockKind::CodeBlock => {
                let rendered = match self.code.take() {
                    Some(mut renderer) => renderer.end(&mut self.context),
                    None => None,
                };
                self.flush(rendered);
            },
            BlockKind::BlockQuote => {
                let rendered = match self.quote.take() {
                    Some(mut renderer) => renderer.end(&mut self.context),
                    None => None,
                };
                self.flush(rendered);
            },
            BlockKind::Table => {
                let rendered = match self.table.take() {
                    Some(mut renderer) => renderer.end(&mut self.context),
                    None => None,
                };
                self.flush(rendered);
            },
            BlockKind::TableHeaderRow | BlockKind::TableRow => {
                match self.table.take() {
                    Some(mut renderer) => {
                        renderer.end_row();
                        self.table = Some(renderer);
                    },
                    None => {},
                }
            },
            BlockKind::TableCell => {
                match self.table.take() {
                    Some(mut renderer) => {
                        renderer.end_cell();
                        self.table = Some(renderer);
                    },
                    None => {},
                }
            },
            BlockKind::Emphasis | BlockKind::Strong | BlockKind::Link => {
                self.context.formatting_stack.pop_back();
            },
            _ => {},
        }
    }

    /// Takes the next event of the document.
    ///
    /// The events need not be well nested. The end of a style, a list, a
    /// row or a cell that is not open changes nothing; the end of a
    /// paragraph, a list item, a heading, a code block, a block quote or a
    /// table writes what such an end always writes.
    pub fn step(&mut self, event: &StructuralEvent)
        requires
            old(self)@.bounded((usize::MAX - 1) as nat),
        ensures
            final(self)@ == old(self)@.step(event@),
    {
        match event {
            StructuralEvent::Enter(kind) => {
                self.enter(*kind);
            },
            StructuralEvent::Exit(kind) => {
                self.exit(*kind);
            },
            StructuralEvent::Text(text) => {
                self.text(text.as_str());
            },
            StructuralEvent::InlineCode(code) => {
                self.inline_code(code.as_str());
            },
            StructuralEvent::SoftBreak => {
                self.soft_break();
            },
            StructuralEvent::HardBreak => {
                self.hard_break();
            },
            StructuralEvent::TaskMarker(checked) => {
                proof {
                    reveal_strlit("☑ ");
                    reveal_strlit("☐ ");
                    assert("☑ "@ =~= seq!['☑', ' ']);
                    assert("☐ "@ =~= seq!['☐', ' ']);
                }
                self.context.push_str(
                    if *checked {
                        "☑ "
                    } else {
                        "☐ "
                    },
                );
            },
            StructuralEvent::RawMarkup | StructuralEvent::FootnoteReference
            | StructuralEvent::Rule => {},
        }
    }

    /// The finished text.
    pub fn into_output(self) -> (out: String)
        ensures
            out@ == self@.context.finalized(),
    {
        self.context.into_output()
    }
}

/// One event opens at most one list and numbers at most one item.
pub proof fn lemma_step_bounded(state: StateView, event: EventView, bound: nat)
    requires
        state.bounded(bound),
    ensures
        state.step(event).bounded(bound + 1),
{
    let next = state.step(event);
    assert forall|k: int| 0 <= k < next.lists.len() implies (#[trigger] next.lists[k]).ordinal
        <= bound + 1 by {
        if k < state.lists.len() {
            assert(state.lists[k].ordinal <= bound);
        }
    }
}

/// The output is only ever appended to: what was written before an event
/// stands unchanged at the beginning of what is written after it.
pub proof fn lemma_step_appends(state: StateView, event: EventView)
    ensures
        state.context.output.is_prefix_of(state.step(event).context.output),
{
    let before = state.context.output;
    let after = state.step(event).context.output;
    assert(before.len() <= after.len());
    assert(after.subrange(0, before.len() as int) =~= before);
}

/// A newline count that is not above the newlines at the end of the output
/// stays so over every event.
pub proof fn lemma_step_keeps_count(state: StateView, event: EventView)
    requires
        state.context.counted(),
    ensures
        state.step(event).context.counted(),
{
    let c = state.context;
    let none = Seq::<char>::empty();
    lemma_count_is_kept(c, none);
    lemma_count_is_kept(c.push_newline(), none);
    match event {
        EventView::Exit(BlockKind::Heading(_)) => {
            let title = formatted_heading(state.title, state.level, c.colors);
            lemma_count_is_kept(c, title);
            lemma_count_is_kept(c.push_str(title), none);
            lemma_count_is_kept(c.push_str(title).push_newline(), none);
        },
        EventView::Exit(BlockKind::CodeBlock) => {
            if let Some(code) = state.code {
                lemma_count_is_kept(c, code_block(code));
                lemma_count_is_kept(c.push_str(code_block(code)), none);
            }
        },
        EventView::Exit(BlockKind::BlockQuote) => {
            if let Some(quote) = state.quote {
                lemma_count_is_kept(c, quote.rendered());
                lemma_count_is_kept(c.push_str(quote.rendered()), none);
            }
        },
        EventView::Exit(BlockKind::Table) => {
            if let Some(table) = state.table {
                lemma_count_is_kept(c, table.rendered());
                lemma_count_is_kept(c.push_str(table.rendered()), none);
            }
        },
        EventView::Enter(BlockKind::ListItem) => {
            if state.lists.len() > 0 {
                lemma_count_is_kept(c, state.lists.last().next_marker(state.lists.len()));
            }
        },
        EventView::Text(text) => {
            lemma_count_is_kept(c, formatted_text(c.stack, text, c.colors));
        },
        EventView::InlineCode(code) => {
            lemma_count_is_kept(c, formatted_code(code, c.colors));
        },
        EventView::SoftBreak => {
            lemma_count_is_kept(c, seq![' ']);
        },
        EventView::HardBreak => {
            lemma_count_is_kept(c.push_newline(), repeated(' ', 2 * state.lists.len()));
        },
        EventView::TaskMarker(checked) => {
            lemma_count_is_kept(c, task_glyph(checked));
        },
        _ => {},
    }
}

/// What holds of the output at the start of a run holds of it at the end:
/// it stands unchanged at the beginning of what was written, and a newline
/// count that was not above the newlines at its end is not above them.
pub proof fn lemma_run_appends(start: StateView, events: Seq<EventView>)
    ensures
        start.context.output.is_prefix_of(start.run(events).context.output),
        start.context.counted() ==> start.run(events).context.counted(),
    decreases events.len(),
{
    let first = start.context.output;
    if events.len() > 0 {
        let before = start.run(events.drop_last());
        lemma_run_appends(start, events.drop_last());
        lemma_step_appends(before, events.last());
        if before.context.counted() {
            lemma_step_keeps_count(before, events.last());
        }
        let middle = before.context.output;
        let last = start.run(events).context.output;
        assert(last.subrange(0, first.len() as int) =~= middle.subrange(0, first.len() as int));
    } else {
        assert(first.subrange(0, first.len() as int) =~= first);
    }
}

/// In every state that a rendering reaches, the newline count is at most 2
/// and not above the number of newlines at the end of the output.
pub proof fn lemma_count_never_exceeds(colors: bool, events: Seq<EventView>)
    ensures
        StateView::new(colors).run(events).context.counted(),
{
    lemma_run_appends(StateView::new(colors), events);
}

/// Every rendering of events ends in exactly one newline.
pub proof fn lemma_rendering_ends_in_one_newline(events: Seq<EventView>, colors: bool)
    ensures
        rendering(events, colors).len() > 0,
        rendering(events, colors).last() == '\n',
        trailing_newlines(rendering(events, colors)) == 1,
{
    lemma_finalized_ends_in_one_newline(StateView::new(colors).run(events).context);
}

/// Whether `s` has one of the marks of markdown at position `i`: an
/// asterisk, a backtick, a hash, an opening bracket, a newline, a hyphen
/// followed by a space, or the digit 1 followed by a full stop and a space.
pub open spec fn sigil_at(s: Seq<char>, i: int) -> bool {
    ||| s[i] == '*'
    ||| s[i] == '`'
    ||| s[i] == '#'
    ||| s[i] == '['
    ||| s[i] == '\n'
    ||| (s[i] == '-' && i + 1 < s.len() && s[i + 1] == ' ')
    ||| (s[i] == '1' && i + 2 < s.len() && s[i + 1] == '.' && s[i + 2] == ' ')
}

/// Whether `s` has a mark of markdown anywhere.
pub open spec fn has_sigil(s: Seq<char>) -> bool {
    exists|i: int| 0 <= i < s.len() && sigil_at(s, i)
}

/// `atty::is` with `Stream::Stdout`: whether the standard output of the
/// process is a terminal. The answer depends on how the process was
/// started, so nothing is said of it.
#[verifier::external_body]
fn stdout_is_terminal() -> bool {
    atty::is(atty::Stream::Stdout)
}

/// Renders markdown as text for a terminal.
pub struct MarkdownRenderer {
    use_colors: bool,
}

impl MarkdownRenderer {
    /// Whether the renderer styles with escape sequences.
    pub closed spec fn colors(&self) -> bool {
        self.use_colors
    }

    /// A renderer that uses colours if the standard output is a terminal.
    pub fn new() -> Self {
        Self::with_colors(stdout_is_terminal())
    }

    /// A renderer that uses colours as told.
    pub fn with_colors(use_colors: bool) -> (renderer: Self)
        ensures
            renderer.colors() == use_colors,
    {
        Self { use_colors }
    }

    /// Whether the renderer styles with escape sequences.
    pub fn use_colors(&self) -> (colors: bool)
        ensures
            colors == self.colors(),
    {
        self.use_colors
    }

    /// Renders a document given as its events. Every sequence of events
    /// has a rendering, well nested or not.
    pub fn render_events(&self, events: &[StructuralEvent]) -> (out: String)
        ensures
            out@ == rendering(event_views(events@), self.colors()),
    {
        let ghost all = event_views(events@);
        let ghost start = StateView::new(self.use_colors);
        let mut state = RenderState::new(self.use_colors);
        let mut i: usize = 0;
        assert(all.take(0) =~= Seq::<EventView>::empty());
        while i < events.len()
            invariant
                i <= events.len(),
                all == event_views(events@),
                start == StateView::new(self.use_colors),
                state@.bounded(i as nat),
                state@ == start.run(all.take(i as int)),
            decreases events.len() - i,
        {
            proof {
                let done = all.take(i + 1);
                assert(done.drop_last() =~= all.take(i as int));
                assert(done.last() == events@[i as int]@);
                lemma_step_bounded(state@, all[i as int], i as nat);
            }
            state.step(&events[i]);
            i += 1;
        }
        assert(all.take(i as int) =~= all);
        state.into_output()
    }

    /// Renders markdown text. Text without any mark of markdown is
    /// returned as it is; other text is parsed and its events rendered.
    pub fn render(&self, markdown: &str) -> (out: String)
        ensures
            out@ == if has_sigil(markdown@) {
                rendering(markdown_events(markdown@), self.colors())
            } else {
                markdown@
            },
    {
        if !self.has_markdown_syntax(markdown) {
            return markdown.to_owned();
        }
        let events = parse_markdown(markdown);
        self.render_events(events.as_slice())
    }

    /// Renders rows of cells as a table, without going through events.
    pub fn render_table(&self, rows: &[Vec<String>]) -> (out: String)
        ensures
            out@ == grid(grid_texts(rows@)),
    {
        render_grid(rows)
    }

    /// Whether `text` has a mark of markdown anywhere.
    pub fn has_markdown_syntax(&self, text: &str) -> (found: bool)
        ensures
            found == has_sigil(text@),
    {
        let mut last = ' ';
        let mut last_but_one = ' ';
        for c in it: text.chars()
            invariant
                it.seq() == text@,
                it.index() >= 1 ==> last == text@[it.index() - 1],
                it.index() >= 2 ==> last_but_one == text@[it.index() - 2],
                it.index() == 0 ==> last == ' ',
                it.index() <= 1 ==> last_but_one == ' ',
                forall|k: int|
                    0 <= k < it.index() ==> !sigil_at(text@.take(it.index() as int), k),
        {
            let ghost i = it.index() as int;
            let ghost seen = text@.take(i + 1);
            if c == '*' || c == '`' || c == '#' || c == '[' || c == '\n' {
                assert(sigil_at(text@, i));
                return true;
            }
            if c == ' ' && last == '-' {
                assert(sigil_at(text@, i - 1));
                return true;
            }
            if c == ' ' && last == '.' && last_but_one == '1' {
                assert(sigil_at(text@, i - 2));
                return true;
            }
            proof {
                assert forall|k: int| 0 <= k < i + 1 implies !sigil_at(seen, k) by {
                    if k < i {
                        assert(!sigil_at(text@.take(i), k));
                        assert(seen[k] == text@.take(i)[k]);
                    }
                }
            }
            last_but_one = last;
            last = c;
        }
        assert(text@.take(text@.len() as int) =~= text@);
        false
    }
}

} // verus!
