//! What the buffered blocks come out as: a block quote, a table and a code
//! block, followed from the events that make them to the text that is
//! written when they end.

use crate::events::{BlockKind, EventView};
use crate::renderer::StateView;
use crate::renderers::blockquote::{lemma_each_line_is_quoted, quoted_lines, QuoteView};
use crate::renderers::code_block::code_block;
use crate::renderers::table::{grid, TableView};
use crate::text::joined;
use vstd::prelude::*;

verus! {

/// A run of one more event is a run of the events before it and a step.
pub proof fn lemma_run_push(start: StateView, events: Seq<EventView>, event: EventView)
    ensures
        start.run(events.push(event)) == start.run(events).step(event),
{
    let all = events.push(event);
    assert(all.drop_last() =~= events);
    assert(all.last() == event);
}

/// A run of one event is a step.
pub proof fn lemma_run_one(start: StateView, event: EventView)
    ensures
        start.run(seq![event]) == start.step(event),
{
    let none = Seq::<EventView>::empty();
    assert(seq![event] =~= none.push(event));
    lemma_run_push(start, none, event);
}

/// The events of a block quote up to its line number `count`: the
/// beginning of the quote and of the paragraph in it, and the texts of the
/// first `count` lines, with a soft break between each two.
pub open spec fn quote_events(lines: Seq<Seq<char>>, count: nat) -> Seq<EventView>
    decreases count,
{
    if count == 0 {
        seq![EventView::Enter(BlockKind::BlockQuote), EventView::Enter(BlockKind::Paragraph)]
    } else if count == 1 {
        quote_events(lines, 0).push(EventView::Text(lines[0]))
    } else {
        quote_events(lines, (count - 1) as nat).push(EventView::SoftBreak).push(
            EventView::Text(lines[count - 1]),
        )
    }
}

/// Whether a block quote that begins in this state gets the text that
/// follows: no heading is open, no code block and no table.
pub open spec fn takes_quote(state: StateView) -> bool {
    !state.in_heading && state.code is None && state.table is None
}

/// The lines of a block quote are gathered one by one: after the
/// beginning of the quote and the texts of `count` lines with soft breaks
/// between them, the quote holds these lines, nothing was written but the
/// newlines that set the quote off from what was written before, and
/// nothing else has changed.
pub proof fn lemma_quote_gathers_lines(start: StateView, lines: Seq<Seq<char>>, count: nat)
    requires
        takes_quote(start),
        count <= lines.len(),
    ensures
        start.run(quote_events(lines, count)) == (StateView {
            context: start.context.ensure_newline().ensure_blank_line(),
            quote: Some(QuoteView::gathered(lines.take(count as int))),
            ..start
        }),
    decreases count,
{
    let begin = EventView::Enter(BlockKind::BlockQuote);
    let paragraph = EventView::Enter(BlockKind::Paragraph);
    if count == 0 {
        assert(quote_events(lines, 0) =~= seq![begin].push(paragraph));
        lemma_run_push(start, seq![begin], paragraph);
        lemma_run_one(start, begin);
        assert(lines.take(0) =~= Seq::<Seq<char>>::empty());
    } else if count == 1 {
        lemma_quote_gathers_lines(start, lines, 0);
        lemma_run_push(start, quote_events(lines, 0), EventView::Text(lines[0]));
        assert(lines.take(0) =~= Seq::<Seq<char>>::empty());
        assert(lines.take(1) =~= seq![lines[0]]);
    } else {
        let fewer = (count - 1) as nat;
        let so_far = quote_events(lines, fewer);
        lemma_quote_gathers_lines(start, lines, fewer);
        lemma_run_push(start, so_far, EventView::SoftBreak);
        lemma_run_push(start, so_far.push(EventView::SoftBreak), EventView::Text(lines[count - 1]));
        assert(lines.take(count as int).drop_last() =~= lines.take(fewer as int));
        assert(lines.take(count as int).last() == lines[count - 1]);
    }
}

/// The events of a whole block quote: its beginning, its lines in one
/// paragraph with a soft break between each two, and its end.
pub open spec fn whole_quote_events(lines: Seq<Seq<char>>) -> Seq<EventView> {
    quote_events(lines, lines.len()).push(EventView::Exit(BlockKind::Paragraph)).push(
        EventView::Exit(BlockKind::BlockQuote),
    )
}

/// A block quote of lines with a soft break between each two is written
/// as one line for each of them, each behind its own bar, and a newline
/// after the last. The end of the paragraph in the quote writes nothing:
/// where nothing was written before the quote, the first quoted line is
/// the first line of the output. The quote must have a line, and its last
/// line must not be empty.
pub proof fn lemma_quote_is_written_line_by_line(start: StateView, lines: Seq<Seq<char>>)
    requires
        takes_quote(start),
        lines.len() > 0,
        lines.last().len() > 0,
    ensures
        start.run(whole_quote_events(lines)) == (StateView {
            context: start.context.ensure_newline().ensure_blank_line().push_str(
                joined(quoted_lines(lines), seq!['\n']),
            ).push_newline(),
            quote: None,
            ..start
        }),
        start.context.output.len() == 0 ==> start.run(whole_quote_events(lines)).context.output
            == joined(quoted_lines(lines), seq!['\n']) + seq!['\n'],
{
    let gathered = quote_events(lines, lines.len());
    let paragraph = EventView::Exit(BlockKind::Paragraph);
    lemma_quote_gathers_lines(start, lines, lines.len());
    assert(lines.take(lines.len() as int) =~= lines);
    lemma_each_line_is_quoted(lines);
    lemma_run_push(start, gathered, paragraph);
    lemma_run_push(start, gathered.push(paragraph), EventView::Exit(BlockKind::BlockQuote));
    if start.context.output.len() == 0 {
        let shown = joined(quoted_lines(lines), seq!['\n']);
        assert(start.context.output + shown + seq!['\n'] =~= shown + seq!['\n']);
        assert(start.run(whole_quote_events(lines)).context.output =~= shown + seq!['\n']);
    }
}

/// The events of a table up to cell number `col` of its row number `row`:
/// the beginning of the table, the rows before that row from beginning to
/// end, the beginning of that row, and its first `col` cells, each with
/// its text between its beginning and its end.
pub open spec fn table_events(cells: Seq<Seq<Seq<char>>>, row: nat, col: nat) -> Seq<EventView>
    decreases row, col,
{
    if col > 0 {
        table_events(cells, row, (col - 1) as nat).push(
            EventView::Enter(BlockKind::TableCell),
        ).push(EventView::Text(cells[row as int][col - 1])).push(
            EventView::Exit(BlockKind::TableCell),
        )
    } else if row > 0 {
        table_events(cells, (row - 1) as nat, cells[row - 1].len()).push(
            EventView::Exit(BlockKind::TableRow),
        ).push(EventView::Enter(BlockKind::TableRow))
    } else {
        seq![EventView::Enter(BlockKind::Table), EventView::Enter(BlockKind::TableRow)]
    }
}

/// Whether a table that begins in this state gets the text that follows: no
/// heading is open and no code block.
pub open spec fn takes_table(state: StateView) -> bool {
    !state.in_heading && state.code is None
}

/// The cells of a table are gathered row by row: after the events of a
/// table up to some cell, the table holds the rows that have ended and the
/// cells of the open row that have; nothing was written but the newlines
/// that the table began with, where they were missing. A row without cells
/// would not be kept, so the rows before the open one must have cells.
pub proof fn lemma_table_gathers_cells(
    start: StateView,
    cells: Seq<Seq<Seq<char>>>,
    row: nat,
    col: nat,
)
    requires
        takes_table(start),
        row < cells.len(),
        col <= cells[row as int].len(),
        forall|r: int| 0 <= r < row ==> (#[trigger] cells[r]).len() > 0,
    ensures
        start.run(table_events(cells, row, col)) == (StateView {
            context: start.context.ensure_blank_line(),
            table: Some(
                TableView {
                    rows: cells.take(row as int),
                    row: cells[row as int].take(col as int),
                    cell: Seq::empty(),
                },
            ),
            ..start
        }),
    decreases row, col,
{
    let none = Seq::<char>::empty();
    if col > 0 {
        let before = (col - 1) as nat;
        let enter = EventView::Enter(BlockKind::TableCell);
        let text = EventView::Text(cells[row as int][col - 1]);
        let exit = EventView::Exit(BlockKind::TableCell);
        let so_far = table_events(cells, row, before);
        lemma_table_gathers_cells(start, cells, row, before);
        lemma_run_push(start, so_far, enter);
        lemma_run_push(start, so_far.push(enter), text);
        lemma_run_push(start, so_far.push(enter).push(text), exit);
        assert(none + cells[row as int][col - 1] =~= cells[row as int][col - 1]);
        assert(cells[row as int].take(before as int).push(cells[row as int][col - 1])
            =~= cells[row as int].take(col as int));
    } else if row > 0 {
        let above = (row - 1) as nat;
        let exit = EventView::Exit(BlockKind::TableRow);
        let enter = EventView::Enter(BlockKind::TableRow);
        let so_far = table_events(cells, above, cells[row - 1].len());
        lemma_table_gathers_cells(start, cells, above, cells[row - 1].len());
        lemma_run_push(start, so_far, exit);
        lemma_run_push(start, so_far.push(exit), enter);
        assert(cells[row - 1].take(cells[row - 1].len() as int) =~= cells[row - 1]);
        assert(cells.take(above as int).push(cells[row - 1]) =~= cells.take(row as int));
        assert(cells[row as int].take(0) =~= Seq::<Seq<char>>::empty());
    } else {
        let table = EventView::Enter(BlockKind::Table);
        let enter = EventView::Enter(BlockKind::TableRow);
        assert(table_events(cells, 0, 0) =~= seq![table].push(enter));
        lemma_run_push(start, seq![table], enter);
        lemma_run_one(start, table);
        assert(cells.take(0) =~= Seq::<Seq<Seq<char>>>::empty());
        assert(cells[0].take(0) =~= Seq::<Seq<char>>::empty());
    }
}

/// The events of a whole table: its beginning, its rows cell by cell, and
/// its end.
pub open spec fn whole_table_events(cells: Seq<Seq<Seq<char>>>) -> Seq<EventView> {
    table_events(cells, (cells.len() - 1) as nat, cells.last().len()).push(
        EventView::Exit(BlockKind::TableRow),
    ).push(EventView::Exit(BlockKind::Table))
}

/// A table of rows of cells, each row with a cell at least, is written as
/// the grid of its cells and a newline after it, behind an empty line if
/// something was written before.
pub proof fn lemma_table_is_written_as_grid(start: StateView, cells: Seq<Seq<Seq<char>>>)
    requires
        takes_table(start),
        cells.len() > 0,
        forall|r: int| 0 <= r < cells.len() ==> (#[trigger] cells[r]).len() > 0,
    ensures
        start.run(whole_table_events(cells)) == (StateView {
            context: start.context.ensure_blank_line().push_str(grid(cells)).push_newline(),
            table: None,
            ..start
        }),
{
    let bottom = (cells.len() - 1) as nat;
    let exit = EventView::Exit(BlockKind::TableRow);
    let so_far = table_events(cells, bottom, cells.last().len());
    lemma_table_gathers_cells(start, cells, bottom, cells.last().len());
    lemma_run_push(start, so_far, exit);
    lemma_run_push(start, so_far.push(exit), EventView::Exit(BlockKind::Table));
    assert(cells.last().take(cells.last().len() as int) =~= cells.last());
    assert(cells.take(bottom as int).push(cells.last()) =~= cells);
}

/// Whether a code block that begins in this state gets the text that
/// follows: no heading is open.
pub open spec fn takes_code(state: StateView) -> bool {
    !state.in_heading
}

/// A code block is written as its code indented, and a newline after it,
/// behind an empty line if something was written before: the events of a
/// code block with its code as one text lead to exactly that.
pub proof fn lemma_code_block_is_written_indented(start: StateView, code: Seq<char>)
    requires
        takes_code(start),
    ensures
        start.run(
            seq![
                EventView::Enter(BlockKind::CodeBlock),
                EventView::Text(code),
                EventView::Exit(BlockKind::CodeBlock),
            ],
        ) == (StateView {
            context: start.context.ensure_blank_line().push_str(code_block(code)).push_newline(),
            code: None,
            ..start
        }),
{
    let enter = EventView::Enter(BlockKind::CodeBlock);
    let text = EventView::Text(code);
    let exit = EventView::Exit(BlockKind::CodeBlock);
    assert(seq![enter, text, exit] =~= seq![enter].push(text).push(exit));
    lemma_run_one(start, enter);
    lemma_run_push(start, seq![enter], text);
    lemma_run_push(start, seq![enter].push(text), exit);
    assert(Seq::<char>::empty() + code =~= code);
}

} // verus!
