//! Tables drawn with box-drawing characters.

use crate::context::RenderContext;
use crate::element_renderer::ElementRenderer;
use crate::text::{
    byte_len, byte_length, is_plain_line, joined, lemma_chars_fit_bytes, lemma_joined_first,
    lemma_lines_of_joined, lemma_padded_width, lines, padded, push_padded, push_repeated,
    repeated, texts,
};
use vstd::prelude::*;
use vstd::string::*;

verus! {

/// The cell texts of a table, row by row.
pub open spec fn grid_texts(rows: Seq<Vec<String>>) -> Seq<Seq<Seq<char>>> {
    Seq::new(rows.len(), |r: int| texts(rows[r]@))
}

/// Number of columns: the number of cells of the longest row.
pub open spec fn column_count(rows: Seq<Seq<Seq<char>>>) -> nat
    decreases rows.len(),
{
    if rows.len() == 0 {
        0
    } else {
        let above = column_count(rows.drop_last());
        if rows.last().len() > above {
            rows.last().len()
        } else {
            above
        }
    }
}

/// Width of a column: the length in bytes of its longest cell. A row that
/// ends before the column has no cell in it.
pub open spec fn column_width(rows: Seq<Seq<Seq<char>>>, col: int) -> nat
    decreases rows.len(),
{
    if rows.len() == 0 {
        0
    } else {
        let above = column_width(rows.drop_last(), col);
        let row = rows.last();
        if 0 <= col < row.len() && byte_len(row[col]) > above {
            byte_len(row[col])
        } else {
            above
        }
    }
}

/// The widths of all columns.
pub open spec fn column_widths(rows: Seq<Seq<Seq<char>>>) -> Seq<nat> {
    Seq::new(column_count(rows), |col: int| column_width(rows, col))
}

/// The part of a border between its corners: for each column a run of
/// dashes, two longer than the column is wide, with `cross` between each
/// two runs.
pub open spec fn border_run(widths: Seq<nat>, cross: char) -> Seq<char>
    decreases widths.len(),
{
    if widths.len() == 0 {
        Seq::empty()
    } else if widths.len() == 1 {
        repeated('─', widths[0] + 2)
    } else {
        border_run(widths.drop_last(), cross) + seq![cross] + repeated('─', widths.last() + 2)
    }
}

/// A border line.
pub open spec fn border(widths: Seq<nat>, left: char, cross: char, right: char) -> Seq<char> {
    seq![left] + border_run(widths, cross) + seq![right]
}

/// A cell in its slot: a space, the cell padded to the column's width, a
/// space, and the bar that closes the slot.
pub open spec fn cell_slot(cell: Seq<char>, width: nat) -> Seq<char> {
    seq![' '] + padded(cell, width) + seq![' ', '│']
}

/// The cell that a row has in a column: empty where the row ends before
/// the column.
pub open spec fn cell_at(row: Seq<Seq<char>>, col: int) -> Seq<char> {
    if 0 <= col < row.len() {
        row[col]
    } else {
        Seq::empty()
    }
}

/// The slots of a row in the first `count` columns.
pub open spec fn row_slots(row: Seq<Seq<char>>, widths: Seq<nat>, count: nat) -> Seq<char>
    decreases count,
{
    if count == 0 {
        Seq::empty()
    } else {
        row_slots(row, widths, (count - 1) as nat) + cell_slot(
            cell_at(row, count - 1),
            widths[count - 1],
        )
    }
}

/// A row of cells as a line: a bar, then a slot for every column. A row
/// that ends before the last column has empty slots for the cells that it
/// lacks.
pub open spec fn row_line(row: Seq<Seq<char>>, widths: Seq<nat>) -> Seq<char> {
    seq!['│'] + row_slots(row, widths, widths.len())
}

/// The separator between two rows.
pub open spec fn separator(widths: Seq<nat>) -> Seq<char> {
    border(widths, '├', '┼', '┤')
}

/// The first `count` rows as lines, with a separator between each two, and
/// a newline after every line.
pub open spec fn grid_body(rows: Seq<Seq<Seq<char>>>, widths: Seq<nat>, count: nat) -> Seq<char>
    decreases count,
{
    if count == 0 {
        Seq::empty()
    } else if count == 1 {
        row_line(rows[0], widths).push('\n')
    } else {
        grid_body(rows, widths, (count - 1) as nat) + separator(widths).push('\n') + row_line(
            rows[count - 1],
            widths,
        ).push('\n')
    }
}

/// A table as it is shown: the top border, the rows with a separator
/// between each two, the header like any other row, and the bottom border,
/// with no newline after it. A table without rows is shown as nothing.
pub open spec fn grid(rows: Seq<Seq<Seq<char>>>) -> Seq<char> {
    if rows.len() == 0 {
        Seq::empty()
    } else {
        let widths = column_widths(rows);
        border(widths, '┌', '┬', '┐').push('\n') + grid_body(rows, widths, rows.len()) + border(
            widths,
            '└',
            '┴',
            '┘',
        )
    }
}

/// Widths as numbers without bound.
pub open spec fn as_nats(widths: Seq<usize>) -> Seq<nat> {
    Seq::new(widths.len(), |i: int| widths[i] as nat)
}

/// No row has more cells than the table has columns.
pub proof fn lemma_row_fits(rows: Seq<Seq<Seq<char>>>, r: int)
    requires
        0 <= r < rows.len(),
    ensures
        rows[r].len() <= column_count(rows),
    decreases rows.len(),
{
    if r < rows.len() - 1 {
        lemma_row_fits(rows.drop_last(), r);
    }
}

/// Some row has as many cells as the table has columns.
pub proof fn lemma_longest_row(rows: Seq<Seq<Seq<char>>>) -> (r: int)
    requires
        rows.len() > 0,
    ensures
        0 <= r < rows.len(),
        rows[r].len() == column_count(rows),
    decreases rows.len(),
{
    if rows.len() == 1 {
        assert(column_count(rows.drop_last()) == 0);
        0
    } else if rows.last().len() > column_count(rows.drop_last()) {
        rows.len() - 1
    } else {
        lemma_longest_row(rows.drop_last())
    }
}

/// No cell is longer than its column is wide.
pub proof fn lemma_cell_fits(rows: Seq<Seq<Seq<char>>>, r: int, col: int)
    requires
        0 <= r < rows.len(),
        0 <= col < rows[r].len(),
    ensures
        byte_len(rows[r][col]) <= column_width(rows, col),
    decreases rows.len(),
{
    if r < rows.len() - 1 {
        lemma_cell_fits(rows.drop_last(), r, col);
    }
}

/// A column that has a cell is as wide as one of its cells is long.
pub proof fn lemma_widest_cell(rows: Seq<Seq<Seq<char>>>, col: int) -> (r: int)
    requires
        0 <= col < column_count(rows),
    ensures
        0 <= r < rows.len(),
        col < rows[r].len(),
        byte_len(rows[r][col]) == column_width(rows, col),
    decreases rows.len(),
{
    let above = rows.drop_last();
    let row = rows.last();
    if col < row.len() && byte_len(row[col]) > column_width(above, col) {
        rows.len() - 1
    } else if col < column_count(above) {
        lemma_widest_cell(above, col)
    } else {
        assert(col < row.len());
        lemma_zero_width(above, col);
        rows.len() - 1
    }
}

/// A column beyond every row has width 0.
proof fn lemma_zero_width(rows: Seq<Seq<Seq<char>>>, col: int)
    requires
        col >= column_count(rows),
    ensures
        column_width(rows, col) == 0,
    decreases rows.len(),
{
    if rows.len() > 0 {
        lemma_zero_width(rows.drop_last(), col);
    }
}

/// Where in a line the slot of column `col` begins: behind the bar that
/// opens the line and the slots before it, each three characters longer
/// than its column is wide.
pub open spec fn slot_start(widths: Seq<nat>, col: nat) -> nat
    decreases col,
{
    if col == 0 {
        1
    } else {
        slot_start(widths, (col - 1) as nat) + widths[col - 1] + 3
    }
}

/// Whether each cell of `row` in the first `count` columns has no more
/// characters than its column is wide.
pub open spec fn cells_fit(row: Seq<Seq<char>>, widths: Seq<nat>, count: nat) -> bool {
    forall|col: int| 0 <= col < count ==> (#[trigger] cell_at(row, col)).len() <= widths[col]
}

/// The slots of cells that fit end where the next slot begins.
proof fn lemma_row_slots_len(row: Seq<Seq<char>>, widths: Seq<nat>, count: nat)
    requires
        count <= widths.len(),
        cells_fit(row, widths, count),
    ensures
        row_slots(row, widths, count).len() + 1 == slot_start(widths, count),
    decreases count,
{
    if count > 0 {
        lemma_row_slots_len(row, widths, (count - 1) as nat);
        assert(cell_at(row, count - 1).len() <= widths[count - 1]);
    }
}

/// The slots of the first cells of a row stand at the beginning of the
/// slots of more of its cells.
proof fn lemma_row_slots_prefix(row: Seq<Seq<char>>, widths: Seq<nat>, few: nat, many: nat)
    requires
        few <= many,
    ensures
        row_slots(row, widths, few).is_prefix_of(row_slots(row, widths, many)),
    decreases many - few,
{
    if few < many {
        lemma_row_slots_prefix(row, widths, few, (many - 1) as nat);
        let shorter = row_slots(row, widths, (many - 1) as nat);
        let longer = row_slots(row, widths, many);
        assert(shorter.is_prefix_of(longer)) by {
            assert(longer.subrange(0, shorter.len() as int) =~= shorter);
        }
        let least = row_slots(row, widths, few);
        assert(longer.subrange(0, least.len() as int) =~= shorter.subrange(0, least.len() as int));
    }
}

/// A border is as long as a line with a slot for every column.
proof fn lemma_border_len(widths: Seq<nat>, left: char, cross: char, right: char)
    requires
        widths.len() > 0,
    ensures
        border(widths, left, cross, right).len() == slot_start(widths, widths.len()),
        border_run(widths, cross).len() + 2 == slot_start(widths, widths.len()),
    decreases widths.len(),
{
    if widths.len() > 1 {
        let fewer = widths.drop_last();
        lemma_border_len(fewer, left, cross, right);
        lemma_slot_start_of_prefix(widths, fewer, fewer.len());
    } else {
        assert(slot_start(widths, 0) == 1);
    }
}

/// Where a slot begins depends on the columns before it alone.
proof fn lemma_slot_start_of_prefix(widths: Seq<nat>, fewer: Seq<nat>, col: nat)
    requires
        col <= fewer.len() <= widths.len(),
        forall|c: int| 0 <= c < fewer.len() ==> fewer[c] == widths[c],
    ensures
        slot_start(fewer, col) == slot_start(widths, col),
    decreases col,
{
    if col > 0 {
        lemma_slot_start_of_prefix(widths, fewer, (col - 1) as nat);
    }
}

/// Every cell of a table fits its column: it has no more characters than
/// the column is wide.
proof fn lemma_cells_fit(rows: Seq<Seq<Seq<char>>>, r: int)
    requires
        0 <= r < rows.len(),
    ensures
        rows[r].len() <= column_widths(rows).len(),
        cells_fit(rows[r], column_widths(rows), column_widths(rows).len()),
{
    lemma_row_fits(rows, r);
    let widths = column_widths(rows);
    assert forall|col: int| 0 <= col < widths.len() implies (#[trigger] cell_at(
        rows[r],
        col,
    )).len() <= widths[col] by {
        if col < rows[r].len() {
            lemma_chars_fit_bytes(rows[r][col]);
            lemma_cell_fits(rows, r, col);
        }
    }
}

/// The columns of a table are aligned. In the line of every row, the slot
/// of a column begins where the column begins and ends where the next one
/// begins, whether the row has a cell there or not; between its two spaces
/// the cell is printed as wide as the column, which is as wide as the
/// column's longest cell is long.
pub proof fn lemma_slots_are_aligned(rows: Seq<Seq<Seq<char>>>, r: int, col: int)
    requires
        0 <= r < rows.len(),
        0 <= col < column_count(rows),
    ensures
        ({
            let widths = column_widths(rows);
            let line = row_line(rows[r], widths);
            &&& widths[col] == column_width(rows, col)
            &&& padded(cell_at(rows[r], col), widths[col]).len() == widths[col]
            &&& slot_start(widths, (col + 1) as nat) <= line.len()
            &&& line.subrange(
                slot_start(widths, col as nat) as int,
                slot_start(widths, (col + 1) as nat) as int,
            ) == cell_slot(cell_at(rows[r], col), widths[col])
        }),
{
    let widths = column_widths(rows);
    let row = rows[r];
    let line = row_line(row, widths);
    lemma_cells_fit(rows, r);
    assert(cell_at(row, col).len() <= widths[col]);
    lemma_padded_width(cell_at(row, col), widths[col]);
    let before = row_slots(row, widths, col as nat);
    let with = row_slots(row, widths, (col + 1) as nat);
    let all = row_slots(row, widths, widths.len());
    assert(cells_fit(row, widths, col as nat));
    assert(cells_fit(row, widths, (col + 1) as nat));
    lemma_row_slots_len(row, widths, col as nat);
    lemma_row_slots_len(row, widths, (col + 1) as nat);
    lemma_row_slots_prefix(row, widths, (col + 1) as nat, widths.len());
    let slot = cell_slot(cell_at(row, col), widths[col]);
    assert(with == before + slot);
    let found = line.subrange(
        slot_start(widths, col as nat) as int,
        slot_start(widths, (col + 1) as nat) as int,
    );
    assert(found.len() == slot.len());
    assert forall|i: int| 0 <= i < slot.len() implies found[i] == slot[i] by {
        assert(found[i] == all[before.len() + i]);
        assert(all.subrange(0, with.len() as int)[before.len() + i] == with[before.len() + i]);
        assert(with[before.len() + i] == slot[i]);
    }
    assert(found =~= slot);
}

/// Every row has a slot in every column, as many as the longest row has
/// cells: its line ends where the last column ends, which is where the
/// borders end too if the table has a column at all.
pub proof fn lemma_row_spans_the_table(
    rows: Seq<Seq<Seq<char>>>,
    r: int,
    left: char,
    cross: char,
    right: char,
)
    requires
        0 <= r < rows.len(),
    ensures
        row_line(rows[r], column_widths(rows)).len() == slot_start(
            column_widths(rows),
            column_count(rows),
        ),
        column_count(rows) > 0 ==> row_line(rows[r], column_widths(rows)).len() == border(
            column_widths(rows),
            left,
            cross,
            right,
        ).len(),
{
    let widths = column_widths(rows);
    lemma_cells_fit(rows, r);
    lemma_row_slots_len(rows[r], widths, widths.len());
    if column_count(rows) > 0 {
        lemma_border_len(widths, left, cross, right);
    }
}

/// The lines of the first `count` rows, with a separator between each two.
pub open spec fn body_lines(
    rows: Seq<Seq<Seq<char>>>,
    widths: Seq<nat>,
    count: nat,
) -> Seq<Seq<char>>
    decreases count,
{
    if count == 0 {
        Seq::empty()
    } else if count == 1 {
        seq![row_line(rows[0], widths)]
    } else {
        body_lines(rows, widths, (count - 1) as nat).push(separator(widths)).push(
            row_line(rows[count - 1], widths),
        )
    }
}

/// The lines of a table: the top border, the rows with a separator between
/// each two, and the bottom border.
pub open spec fn grid_lines(rows: Seq<Seq<Seq<char>>>) -> Seq<Seq<char>> {
    let widths = column_widths(rows);
    seq![border(widths, '┌', '┬', '┐')] + body_lines(rows, widths, rows.len()) + seq![
        border(widths, '└', '┴', '┘'),
    ]
}

/// Whether `c` occurs nowhere in `s`.
pub open spec fn has_no(s: Seq<char>, c: char) -> bool {
    forall|i: int| 0 <= i < s.len() ==> s[i] != c
}

/// The rows and separators of a table, line by line: rows and separators
/// take turns, beginning and ending with a row, and the body of the grid is
/// these lines with a newline after each.
proof fn lemma_body_lines(rows: Seq<Seq<Seq<char>>>, widths: Seq<nat>, count: nat)
    requires
        count >= 1,
    ensures
        body_lines(rows, widths, count).len() == 2 * count - 1,
        grid_body(rows, widths, count) == joined(body_lines(rows, widths, count), seq!['\n'])
            + seq!['\n'],
        forall|i: int|
            0 <= i < 2 * count - 1 ==> #[trigger] body_lines(rows, widths, count)[i] == if i % 2
                == 0 {
                row_line(rows[i / 2], widths)
            } else {
                separator(widths)
            },
    decreases count,
{
    let nl = seq!['\n'];
    let all = body_lines(rows, widths, count);
    if count == 1 {
        assert(grid_body(rows, widths, 1) =~= joined(all, nl) + nl);
    } else {
        let fewer = (count - 1) as nat;
        let front = body_lines(rows, widths, fewer);
        let row = row_line(rows[count - 1], widths);
        lemma_body_lines(rows, widths, fewer);
        let middle = front.push(separator(widths));
        assert(all.drop_last() =~= middle);
        assert(middle.drop_last() =~= front);
        assert(joined(middle, nl) == joined(front, nl) + nl + separator(widths));
        assert(joined(all, nl) == joined(middle, nl) + nl + row);
        assert(grid_body(rows, widths, count) =~= joined(all, nl) + nl);
        assert forall|i: int| 0 <= i < 2 * count - 1 implies #[trigger] all[i] == if i % 2 == 0 {
            row_line(rows[i / 2], widths)
        } else {
            separator(widths)
        } by {
            if i < 2 * fewer - 1 {
                assert(all[i] == front[i]);
            }
        }
    }
}

/// A table is its lines joined by newlines. It has two lines for each row
/// and one more: the top border first, the bottom border last, and between
/// them rows and separators in turn, so that one separator stands between
/// each two rows and none before the first row or after the last. The
/// separators are the lines that begin with `├`.
pub proof fn lemma_grid_lines(rows: Seq<Seq<Seq<char>>>)
    requires
        rows.len() > 0,
    ensures
        grid(rows) == joined(grid_lines(rows), seq!['\n']),
        grid_lines(rows).len() == 2 * rows.len() + 1,
        forall|i: int|
            0 <= i < 2 * rows.len() + 1 ==> #[trigger] grid_lines(rows)[i] == if i == 0 {
                border(column_widths(rows), '┌', '┬', '┐')
            } else if i == 2 * rows.len() {
                border(column_widths(rows), '└', '┴', '┘')
            } else if i % 2 == 1 {
                row_line(rows[(i - 1) / 2], column_widths(rows))
            } else {
                separator(column_widths(rows))
            },
        forall|i: int|
            0 <= i < 2 * rows.len() + 1 ==> (#[trigger] grid_lines(rows)[i]).len() > 0 && (
            grid_lines(rows)[i][0] == '├' <==> i % 2 == 0 && 0 < i < 2 * rows.len()),
{
    let nl = seq!['\n'];
    let widths = column_widths(rows);
    let top = border(widths, '┌', '┬', '┐');
    let bottom = border(widths, '└', '┴', '┘');
    let body = body_lines(rows, widths, rows.len());
    let all = grid_lines(rows);
    lemma_body_lines(rows, widths, rows.len());
    let front = seq![top] + body;
    assert(all.drop_last() =~= front);
    assert(all.last() == bottom);
    lemma_joined_first(top, body, nl);
    assert(joined(all, nl) == joined(front, nl) + nl + bottom);
    assert(grid(rows) =~= joined(all, nl));
    assert forall|i: int| 0 <= i < 2 * rows.len() + 1 implies #[trigger] all[i] == if i == 0 {
        top
    } else if i == 2 * rows.len() {
        bottom
    } else if i % 2 == 1 {
        row_line(rows[(i - 1) / 2], widths)
    } else {
        separator(widths)
    } by {
        if 0 < i < 2 * rows.len() {
            assert(all[i] == body[i - 1]);
        }
    }
    assert forall|i: int| 0 <= i < 2 * rows.len() + 1 implies (#[trigger] all[i]).len() > 0 && (
    all[i][0] == '├' <==> i % 2 == 0 && 0 < i < 2 * rows.len()) by {
        assert(top[0] == '┌');
        assert(bottom[0] == '└');
        assert(separator(widths)[0] == '├');
        if 0 < i < 2 * rows.len() && i % 2 == 1 {
            assert(row_line(rows[(i - 1) / 2], widths)[0] == '│');
        }
    }
}

/// A border has no newline and no carriage return in it.
proof fn lemma_border_is_plain(widths: Seq<nat>, left: char, cross: char, right: char)
    requires
        left != '\n' && cross != '\n' && right != '\n' && right != '\r',
    ensures
        is_plain_line(border(widths, left, cross, right)),
        has_no(border_run(widths, cross), '\n'),
    decreases widths.len(),
{
    if widths.len() > 1 {
        lemma_border_is_plain(widths.drop_last(), left, cross, right);
    }
    let line = border(widths, left, cross, right);
    assert(line.last() == right);
}

/// The line of a row whose cells have no newline has none, and does not
/// end in a carriage return.
proof fn lemma_row_is_plain(row: Seq<Seq<char>>, widths: Seq<nat>, count: nat)
    requires
        forall|col: int| 0 <= col < row.len() ==> has_no(#[trigger] row[col], '\n'),
    ensures
        has_no(row_slots(row, widths, count), '\n'),
        count > 0 ==> row_slots(row, widths, count).last() == '│',
        count == widths.len() ==> is_plain_line(row_line(row, widths)),
    decreases count,
{
    if count > 0 {
        lemma_row_is_plain(row, widths, (count - 1) as nat);
        let cell = cell_at(row, count - 1);
        assert(has_no(cell, '\n'));
        let slot = cell_slot(cell, widths[count - 1]);
        assert(has_no(slot, '\n')) by {
            assert forall|i: int| 0 <= i < slot.len() implies slot[i] != '\n' by {
                if 1 <= i < 1 + cell.len() {
                    assert(slot[i] == cell[i - 1]);
                }
            }
        }
        assert(slot.last() == '│');
    }
    if count == widths.len() {
        let line = row_line(row, widths);
        assert(line.last() == '│');
    }
}

/// A table whose cells have no newline in them comes apart, at its
/// newlines, into its lines: two for each row and one more, one separator
/// between each two rows.
pub proof fn lemma_grid_comes_apart(rows: Seq<Seq<Seq<char>>>)
    requires
        rows.len() > 0,
        forall|r: int, col: int|
            0 <= r < rows.len() && 0 <= col < rows[r].len() ==> has_no(
                #[trigger] rows[r][col],
                '\n',
            ),
    ensures
        lines(grid(rows)) == grid_lines(rows),
        lines(grid(rows)).len() == 2 * rows.len() + 1,
{
    let widths = column_widths(rows);
    let all = grid_lines(rows);
    lemma_grid_lines(rows);
    lemma_border_is_plain(widths, '┌', '┬', '┐');
    lemma_border_is_plain(widths, '└', '┴', '┘');
    lemma_border_is_plain(widths, '├', '┼', '┤');
    assert forall|n: int| 0 <= n < all.len() implies is_plain_line(#[trigger] all[n]) by {
        if 0 < n < 2 * rows.len() && n % 2 == 1 {
            let row = rows[(n - 1) / 2];
            assert forall|col: int| 0 <= col < row.len() implies has_no(
                #[trigger] row[col],
                '\n',
            ) by {
                assert(has_no(rows[(n - 1) / 2][col], '\n'));
            }
            lemma_row_is_plain(row, widths, widths.len());
        }
    }
    assert(is_plain_line(all.last()));
    lemma_lines_of_joined(all);
}

/// The number of columns of `rows`.
fn count_columns(rows: &[Vec<String>]) -> (count: usize)
    ensures
        count == column_count(grid_texts(rows@)),
{
    let ghost cells = grid_texts(rows@);
    let mut count: usize = 0;
    let mut r: usize = 0;
    while r < rows.len()
        invariant
            r <= rows.len(),
            cells == grid_texts(rows@),
            count == column_count(cells.take(r as int)),
        decreases rows.len() - r,
    {
        proof {
            assert(cells.take(r + 1).drop_last() =~= cells.take(r as int));
            assert(cells.take(r + 1).last().len() == rows@[r as int].len());
        }
        if rows[r].len() > count {
            count = rows[r].len();
        }
        r += 1;
    }
    assert(cells.take(r as int) =~= cells);
    count
}

/// The widths of the columns of `rows`.
fn measure_columns(rows: &[Vec<String>]) -> (widths: Vec<usize>)
    ensures
        as_nats(widths@) == column_widths(grid_texts(rows@)),
{
    let ghost cells = grid_texts(rows@);
    let count = count_columns(rows);
    let mut widths: Vec<usize> = Vec::new();
    while widths.len() < count
        invariant
            widths.len() <= count,
            forall|c: int| 0 <= c < widths.len() ==> widths[c] == 0,
        decreases count - widths.len(),
    {
        widths.push(0);
    }
    let mut r: usize = 0;
    while r < rows.len()
        invariant
            r <= rows.len(),
            cells == grid_texts(rows@),
            widths.len() == count == column_count(cells),
            forall|c: int|
                0 <= c < count ==> widths[c] == #[trigger] column_width(cells.take(r as int), c),
        decreases rows.len() - r,
    {
        let row = &rows[r];
        let ghost above = cells.take(r as int);
        proof {
            lemma_row_fits(cells, r as int);
            assert(cells.take(r + 1).drop_last() =~= above);
            assert(cells.take(r + 1).last() == texts(row@));
        }
        let mut j: usize = 0;
        while j < row.len()
            invariant
                j <= row.len() <= count,
                widths.len() == count,
                forall|c: int|
                    0 <= c < count ==> widths[c] == if c < j && byte_len(row@[c]@)
                        > #[trigger] column_width(above, c) {
                        byte_len(row@[c]@)
                    } else {
                        column_width(above, c)
                    },
            decreases row.len() - j,
        {
            let len = byte_length(row[j].as_str());
            if len > widths[j] {
                widths.set(j, len);
            }
            j += 1;
        }
        proof {
            let below = cells.take(r + 1);
            assert forall|c: int| 0 <= c < count implies widths[c] == #[trigger] column_width(
                below,
                c,
            ) by {
                assert(below.drop_last() == above);
                assert(below.last() == texts(row@));
                assert(widths[c] == if c < row.len() && byte_len(row@[c]@) > column_width(
                    above,
                    c,
                ) {
                    byte_len(row@[c]@)
                } else {
                    column_width(above, c)
                });
            }
        }
        r += 1;
    }
    proof {
        assert(cells.take(r as int) =~= cells);
        assert(as_nats(widths@) =~= column_widths(cells));
    }
    widths
}

/// Appends a border line.
fn push_border(out: &mut String, widths: &Vec<usize>, left: char, cross: char, right: char)
    ensures
        final(out)@ == old(out)@ + border(as_nats(widths@), left, cross, right),
{
    let ghost columns = as_nats(widths@);
    out.push(left);
    let mut i: usize = 0;
    assert(columns.take(0) =~= Seq::<nat>::empty());
    while i < widths.len()
        invariant
            i <= widths.len(),
            columns == as_nats(widths@),
            out@ == old(out)@ + seq![left] + border_run(columns.take(i as int), cross),
        decreases widths.len() - i,
    {
        proof {
            assert(columns.take(i + 1).drop_last() =~= columns.take(i as int));
            assert(columns.take(i + 1).last() == widths[i as int]);
            assert(repeated('─', widths[i as int] as nat) + repeated('─', 2) =~= repeated(
                '─',
                widths[i as int] as nat + 2,
            ));
        }
        if i > 0 {
            out.push(cross);
        }
        push_repeated(out, '─', widths[i]);
        push_repeated(out, '─', 2);
        i += 1;
        assert(out@ =~= old(out)@ + seq![left] + border_run(columns.take(i as int), cross));
    }
    assert(columns.take(i as int) =~= columns);
    out.push(right);
    assert(out@ =~= old(out)@ + border(columns, left, cross, right));
}

/// Appends a row of cells as a line, with a slot for every column.
fn push_row(out: &mut String, row: &Vec<String>, widths: &Vec<usize>)
    ensures
        final(out)@ == old(out)@ + row_line(texts(row@), as_nats(widths@)),
{
    let ghost columns = as_nats(widths@);
    let ghost cells = texts(row@);
    out.push('│');
    let mut j: usize = 0;
    while j < widths.len()
        invariant
            j <= widths.len(),
            columns == as_nats(widths@),
            cells == texts(row@),
            out@ == old(out)@ + seq!['│'] + row_slots(cells, columns, j as nat),
        decreases widths.len() - j,
    {
        let ghost before = out@;
        out.push(' ');
        if j < row.len() {
            push_padded(out, row[j].as_str(), widths[j]);
        } else {
            proof {
                reveal_strlit("");
                assert(""@ =~= Seq::<char>::empty());
            }
            push_padded(out, "", widths[j]);
        }
        out.push(' ');
        out.push('│');
        assert(out@ =~= before + cell_slot(cell_at(cells, j as int), columns[j as int]));
        j += 1;
        assert(out@ =~= old(out)@ + seq!['│'] + row_slots(cells, columns, j as nat));
    }
    assert(out@ =~= old(out)@ + row_line(cells, columns));
}

/// Renders rows of cells as a table. Rows may differ in length: every row
/// has a slot in every column, an empty one where it lacks the cell.
pub fn render_grid(rows: &[Vec<String>]) -> (out: String)
    ensures
        out@ == grid(grid_texts(rows@)),
{
    let mut out = String::new();
    if rows.len() == 0 {
        return out;
    }
    let ghost cells = grid_texts(rows@);
    let widths = measure_columns(rows);
    let ghost columns = as_nats(widths@);
    push_border(&mut out, &widths, '┌', '┬', '┐');
    out.push('\n');
    let ghost top = out@;
    let mut r: usize = 0;
    while r < rows.len()
        invariant
            r <= rows.len(),
            cells == grid_texts(rows@),
            columns == as_nats(widths@),
            columns == column_widths(cells),
            out@ == top + grid_body(cells, columns, r as nat),
        decreases rows.len() - r,
    {
        if r > 0 {
            push_border(&mut out, &widths, '├', '┼', '┤');
            out.push('\n');
        }
        push_row(&mut out, &rows[r], &widths);
        out.push('\n');
        r += 1;
        assert(out@ =~= top + grid_body(cells, columns, r as nat));
    }
    push_border(&mut out, &widths, '└', '┴', '┘');
    assert(out@ =~= grid(cells));
    out
}

/// What a [`TableRenderer`] holds: the finished rows, the cells of the row
/// that is open, and the text of the cell that is open.
pub struct TableView {
    pub rows: Seq<Seq<Seq<char>>>,
    pub row: Seq<Seq<char>>,
    pub cell: Seq<char>,
}

impl TableView {
    /// The renderer before anything was gathered.
    pub open spec fn new() -> TableView {
        TableView { rows: Seq::empty(), row: Seq::empty(), cell: Seq::empty() }
    }

    /// `text` added to the open cell.
    pub open spec fn text(self, text: Seq<char>) -> TableView {
        TableView { cell: self.cell + text, ..self }
    }

    /// A row begins: no cells yet.
    pub open spec fn start_row(self) -> TableView {
        TableView { row: Seq::empty(), ..self }
    }

    /// A cell begins: no text yet.
    pub open spec fn start_cell(self) -> TableView {
        TableView { cell: Seq::empty(), ..self }
    }

    /// The open cell ends and joins its row.
    pub open spec fn end_cell(self) -> TableView {
        TableView { row: self.row.push(self.cell), cell: Seq::empty(), ..self }
    }

    /// The open row ends and joins the table, unless it has no cells.
    pub open spec fn end_row(self) -> TableView {
        if self.row.len() > 0 {
            TableView { rows: self.rows.push(self.row), row: Seq::empty(), ..self }
        } else {
            self
        }
    }

    /// The table as it is shown: the finished rows.
    pub open spec fn rendered(self) -> Seq<char> {
        grid(self.rows)
    }
}

/// Renders markdown tables with box-drawing characters.
pub struct TableRenderer {
    rows: Vec<Vec<String>>,
    current_row: Vec<String>,
    current_cell: String,
}

impl View for TableRenderer {
    type V = TableView;

    closed spec fn view(&self) -> TableView {
        TableView {
            rows: grid_texts(self.rows@),
            row: texts(self.current_row@),
            cell: self.current_cell@,
        }
    }
}

impl TableRenderer {
    /// A renderer that has gathered nothing.
    pub fn new() -> (renderer: Self)
        ensures
            renderer@ == TableView::new(),
    {
        let renderer = Self {
            rows: Vec::new(),
            current_row: Vec::new(),
            current_cell: String::new(),
        };
        proof {
            assert(grid_texts(renderer.rows@) =~= Seq::<Seq<Seq<char>>>::empty());
            assert(texts(renderer.current_row@) =~= Seq::<Seq<char>>::empty());
        }
        renderer
    }

    /// Adds a cell to the open row.
    fn add_cell(&mut self, cell: String)
        ensures
            final(self)@ == (TableView { row: old(self)@.row.push(cell@), ..old(self)@ }),
    {
        let ghost before = texts(self.current_row@);
        self.current_row.push(cell);
        assert(texts(self.current_row@) =~= before.push(cell@));
    }

    /// Moves the open row to the finished ones, unless it has no cells.
    fn finish_row(&mut self)
        ensures
            final(self)@ == old(self)@.end_row(),
    {
        if self.current_row.len() > 0 {
            let mut row: Vec<String> = Vec::new();
            core::mem::swap(&mut self.current_row, &mut row);
            let ghost before = grid_texts(self.rows@);
            self.rows.push(row);
            proof {
                assert(grid_texts(self.rows@) =~= before.push(texts(row@)));
                assert(texts(self.current_row@) =~= Seq::<Seq<char>>::empty());
            }
        }
    }

    /// The finished rows as a table.
    pub fn render_table(&self) -> (out: String)
        ensures
            out@ == self@.rendered(),
    {
        render_grid(self.rows.as_slice())
    }

    /// A cell begins.
    pub fn start_cell(&mut self)
        ensures
            final(self)@ == old(self)@.start_cell(),
    {
        self.current_cell = String::new();
    }

    /// The open cell ends.
    pub fn end_cell(&mut self)
        ensures
            final(self)@ == old(self)@.end_cell(),
    {
        let mut cell = String::new();
        core::mem::swap(&mut self.current_cell, &mut cell);
        self.add_cell(cell);
    }

    /// A row begins.
    pub fn start_row(&mut self)
        ensures
            final(self)@ == old(self)@.start_row(),
    {
        self.current_row = Vec::new();
        assert(texts(self.current_row@) =~= Seq::<Seq<char>>::empty());
    }

    /// The open row ends.
    pub fn end_row(&mut self)
        ensures
            final(self)@ == old(self)@.end_row(),
    {
        self.finish_row();
    }
}

impl ElementRenderer for TableRenderer {
    /// Forgets what was gathered so far.
    fn start(&mut self, context: &mut RenderContext)
        ensures
            final(self)@ == TableView::new(),
            *final(context) == *old(context),
    {
        self.rows = Vec::new();
        self.current_row = Vec::new();
        self.current_cell = String::new();
        proof {
            assert(grid_texts(self.rows@) =~= Seq::<Seq<Seq<char>>>::empty());
            assert(texts(self.current_row@) =~= Seq::<Seq<char>>::empty());
        }
    }

    /// Adds `text` to the open cell.
    fn handle_text(&mut self, text: &str, context: &mut RenderContext)
        ensures
            final(self)@ == old(self)@.text(text@),
            *final(context) == *old(context),
    {
        self.current_cell.append(text);
    }

    /// A soft break is a space in the cell.
    fn handle_soft_break(&mut self, context: &mut RenderContext)
        ensures
            final(self)@ == old(self)@.text(seq![' ']),
            *final(context) == *old(context),
    {
        self.current_cell.push(' ');
        assert(self.current_cell@ =~= old(self).current_cell@ + seq![' ']);
    }

    /// A hard break is a newline in the cell.
    fn handle_hard_break(&mut self, context: &mut RenderContext)
        ensures
            final(self)@ == old(self)@.text(seq!['\n']),
            *final(context) == *old(context),
    {
        self.current_cell.push('\n');
        assert(self.current_cell@ =~= old(self).current_cell@ + seq!['\n']);
    }

    /// The table for the rows that were finished.
    fn end(&mut self, context: &mut RenderContext) -> (out: Option<String>)
        ensures
            out matches Some(table) && table@ == old(self)@.rendered(),
            final(self)@ == old(self)@,
            *final(context) == *old(context),
    {
        Some(self.render_table())
    }
}

} // verus!
