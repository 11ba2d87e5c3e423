//! The grid driver: the two entry points that consume a whole grid.
//!
//! The write path converts each row of the grid — in grid order, one row at a
//! time so that only one row's converted values are ever held at once — and
//! hands every converted row to a row-consuming operator. The scan path
//! measures the maximum column count among a bounded prefix of rows.

use vstd::prelude::*;
use crate::values::{convert_spec, CellValue, CsvError, CsvValue};

pub mod operators;

verus! {

/// One row as a row-consuming operator receives it: the separator and line
/// length it was handed, and the converted cells in column order.
pub struct ReceivedRow {
    pub separator: Seq<char>,
    pub line_length: int,
    pub cells: Seq<Result<Seq<char>, Seq<char>>>,
}

/// The conversion outcomes of one row of cells, in column order.
pub open spec fn converted_row(row: Seq<CellValue>) -> Seq<Result<Seq<char>, Seq<char>>> {
    row.map_values(|c: CellValue| convert_spec(c))
}

/// The views of a row of converted values, in column order.
pub open spec fn cell_views(row: Seq<CsvValue>) -> Seq<Result<Seq<char>, Seq<char>>> {
    row.map_values(|v: CsvValue| v@)
}

/// Everything the operator receives for a whole grid: one entry per grid
/// row, in grid order, each carrying the same separator and line length.
pub open spec fn written_rows(grid: Seq<Vec<CellValue>>, separator: Seq<char>, line_length: int) -> Seq<ReceivedRow> {
    grid.map_values(
        |row: Vec<CellValue>|
            (ReceivedRow { separator, line_length, cells: converted_row(row@) }),
    )
}

/// The external collaborator of the write path: a sink that accepts one
/// converted row at a time, together with the separator and the advisory
/// line length, and may refuse with a descriptive error. `taken` is the
/// sink's view of everything it has accepted, in arrival order; `refusals`
/// is its view of every error it has refused a row with.
pub trait CsvRowOperator {
    /// The rows accepted so far, oldest first.
    spec fn taken(&self) -> Seq<ReceivedRow>;

    /// The messages of the rows refused so far, oldest first.
    spec fn refusals(&self) -> Seq<Seq<char>>;

    /// Accepts one converted row. On success the row is appended to what was
    /// taken; on refusal nothing is taken and the refusal's message is
    /// recorded.
    fn operate_row(&mut self, separator: &str, line_length: i32, row: Vec<CsvValue>) -> (r: Result<
        (),
        CsvError,
    >)
        ensures
            r is Ok ==> final(self).taken() == old(self).taken().push(
                (ReceivedRow {
                    separator: separator@,
                    line_length: line_length as int,
                    cells: cell_views(row@),
                }),
            ) && final(self).refusals() == old(self).refusals(),
            r matches Err(e) ==> final(self).taken() == old(self).taken()
                && final(self).refusals() == old(self).refusals().push(e.0@),
    ;
}

/// Converts every row of `grid`, in grid order and with each row's cells in
/// column order, and hands each converted row to `operator` along with `sep`
/// and `line_length` (both passed through untouched). The result is the
/// operator's: on success the operator has taken exactly the converted grid
/// and refused nothing; write_range fails only when the operator refuses a
/// row, it then stops at that row — the ones before it delivered, none
/// skipped, duplicated or reordered — and reports the operator's own error,
/// unchanged.
pub fn write_range<Op: CsvRowOperator>(
    grid: &Vec<Vec<CellValue>>,
    operator: &mut Op,
    line_length: i32,
    sep: String,
) -> (r: Result<(), CsvError>)
    ensures
        r is Ok ==> final(operator).taken() == old(operator).taken() + written_rows(
            grid@,
            sep@,
            line_length as int,
        ) && final(operator).refusals() == old(operator).refusals(),
        r matches Err(e) ==> final(operator).refusals() == old(operator).refusals().push(e.0@)
            && exists|k: int|
            0 <= k < grid@.len() && final(operator).taken() == old(operator).taken()
                + written_rows(grid@.take(k), sep@, line_length as int),
{
    let mut i: usize = 0;
    while i < grid.len()
        invariant
            i <= grid@.len(),
            operator.taken() == old(operator).taken() + written_rows(
                grid@.take(i as int),
                sep@,
                line_length as int,
            ),
            operator.refusals() == old(operator).refusals(),
        decreases grid@.len() - i,
    {
        let row: &Vec<CellValue> = &grid[i];
        let mut converted: Vec<CsvValue> = Vec::new();
        let mut j: usize = 0;
        while j < row.len()
            invariant
                j <= row@.len(),
                cell_views(converted@) == converted_row(row@.take(j as int)),
            decreases row@.len() - j,
        {
            let ghost prev = converted@;
            let cv = CsvValue::from_cell(&row[j]);
            converted.push(cv);
            proof {
                assert(converted@ == prev.push(cv));
                assert(cell_views(prev).len() == prev.len());
                assert(converted_row(row@.take(j as int)).len() == row@.take(j as int).len());
                assert(prev.len() == j as int);
                assert forall|k: int| 0 <= k < j as int + 1 implies cell_views(converted@)[k]
                    == converted_row(row@.take(j as int + 1))[k] by {
                    assert(cell_views(converted@)[k] == converted@[k]@);
                    assert(row@.take(j as int + 1)[k] == row@[k]);
                    assert(converted_row(row@.take(j as int + 1))[k] == convert_spec(row@[k]));
                    if k < j as int {
                        assert(converted@[k] == prev[k]);
                        assert(cell_views(prev)[k] == prev[k]@);
                        assert(converted_row(row@.take(j as int))[k] == convert_spec(
                            row@.take(j as int)[k],
                        ));
                        assert(row@.take(j as int)[k] == row@[k]);
                    } else {
                        assert(converted@[k] == cv);
                    }
                }
                assert(cell_views(converted@) =~= converted_row(row@.take(j as int + 1)));
            }
            j += 1;
        }
        proof {
            assert(row@.take(row@.len() as int) =~= row@);
        }
        match operator.operate_row(sep.as_str(), line_length, converted) {
            Ok(_) => {},
            Err(e) => {
                proof {
                    assert(operator.taken() == old(operator).taken() + written_rows(
                        grid@.take(i as int),
                        sep@,
                        line_length as int,
                    ));
                }
                return Err(e);
            },
        }
        proof {
            assert(operator.taken() =~= old(operator).taken() + written_rows(
                grid@.take(i as int + 1),
                sep@,
                line_length as int,
            ));
        }
        i += 1;
    }
    proof {
        assert(grid@.take(grid@.len() as int) =~= grid@);
    }
    Ok(())
}

/// The maximum column count among the first `lines` rows of the grid: 0 when
/// `lines` is not positive or the grid is empty.
pub open spec fn max_width(grid: Seq<Vec<CellValue>>, lines: int) -> int
    decreases grid.len(),
{
    if lines <= 0 || grid.len() == 0 {
        0
    } else {
        let first = grid[0]@.len() as int;
        let rest = max_width(grid.drop_first(), lines - 1);
        if first >= rest {
            first
        } else {
            rest
        }
    }
}

/// `max_width` is exactly the maximum: no examined row is wider, and unless
/// it is 0 some examined row reaches it.
pub proof fn lemma_max_width_is_max(grid: Seq<Vec<CellValue>>, lines: int)
    ensures
        max_width(grid, lines) >= 0,
        forall|i: int|
            0 <= i < grid.len() && i < lines ==> (#[trigger] grid[i]@.len()) <= max_width(
                grid,
                lines,
            ),
        max_width(grid, lines) == 0 || exists|i: int|
            0 <= i < grid.len() && i < lines && grid[i]@.len() == max_width(grid, lines),
    decreases grid.len(),
{
    if !(lines <= 0 || grid.len() == 0) {
        let rest = grid.drop_first();
        lemma_max_width_is_max(rest, lines - 1);
        assert forall|i: int| 0 <= i < grid.len() && i < lines implies (#[trigger] grid[i]@.len())
            <= max_width(grid, lines) by {
            if i > 0 {
                assert(rest[i - 1] == grid[i]);
            }
        }
        if max_width(grid, lines) != 0 && grid[0]@.len() != max_width(grid, lines) {
            let j = choose|j: int|
                0 <= j < rest.len() && j < lines - 1 && rest[j]@.len() == max_width(
                    rest,
                    lines - 1,
                );
            assert(grid[j + 1]@.len() == max_width(grid, lines));
        }
    }
}

/// Scans at most the first `lines_to_consider` rows (all rows when fewer)
/// and returns the maximum column count seen; examining zero rows — a grid
/// with none, or a bound of zero or less — yields 0. The scan counts cells,
/// never converting them.
pub fn get_max_line_length_of_first_x_lines(
    grid: &Vec<Vec<CellValue>>,
    lines_to_consider: i32,
) -> (r: Result<i32, CsvError>)
    requires
        forall|i: int|
            0 <= i < grid@.len() && i < lines_to_consider as int ==> (#[trigger] grid@[i]@.len())
                <= i32::MAX,
    ensures
        r matches Ok(w) && w as int == max_width(grid@, lines_to_consider as int),
{
    operators::count_columns(lines_to_consider, grid)
}

} // verus!
