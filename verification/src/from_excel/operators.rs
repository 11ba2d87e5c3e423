//! Row-consuming operators, and the scan path's counting routine.

use vstd::prelude::*;
use crate::from_excel::{cell_views, lemma_max_width_is_max, max_width, CsvRowOperator, ReceivedRow};
use crate::values::{CellValue, CsvError, CsvValue};

verus! {

/// Counts the maximum column count among the first `lines_to_consider` rows.
/// The counting never fails on an in-memory grid; the `Result` is the scan
/// path's error surface, kept for counting routines that read a live source.
pub fn count_columns(lines_to_consider: i32, grid: &Vec<Vec<CellValue>>) -> (r: Result<
    i32,
    CsvError,
>)
    requires
        forall|i: int|
            0 <= i < grid@.len() && i < lines_to_consider as int ==> (#[trigger] grid@[i]@.len())
                <= i32::MAX,
    ensures
        r matches Ok(w) && w as int == max_width(grid@, lines_to_consider as int),
{
    let ghost lines = lines_to_consider as int;
    let n: usize = if lines_to_consider <= 0 {
        0
    } else if (lines_to_consider as usize) < grid.len() {
        lines_to_consider as usize
    } else {
        grid.len()
    };
    let mut best: i32 = 0;
    let mut i: usize = 0;
    proof {
        assert(grid@.skip(0) =~= grid@);
        lemma_max_width_is_max(grid@, lines);
    }
    while i < n
        invariant
            i <= n <= grid@.len(),
            lines > 0 ==> n as int <= lines,
            lines > 0 ==> (n as int == lines || n == grid@.len()),
            lines <= 0 ==> n == 0,
            0 <= best,
            forall|k: int|
                0 <= k < grid@.len() && k < lines ==> (#[trigger] grid@[k]@.len()) <= i32::MAX,
            max_width(grid@, lines) == if best as int >= max_width(
                grid@.skip(i as int),
                lines - i,
            ) {
                best as int
            } else {
                max_width(grid@.skip(i as int), lines - i)
            },
        decreases n - i,
    {
        proof {
            assert(grid@.skip(i as int).drop_first() =~= grid@.skip(i as int + 1));
            assert(grid@.skip(i as int)[0] == grid@[i as int]);
            lemma_max_width_is_max(grid@.skip(i as int + 1), lines - i - 1);
        }
        let width = grid[i].len();
        if width > best as usize {
            best = width as i32;
        }
        i += 1;
    }
    proof {
        if lines > 0 && n < grid@.len() {
            assert(max_width(grid@.skip(n as int), lines - n) == 0);
        }
        if n == grid@.len() {
            assert(grid@.skip(n as int).len() == 0);
        }
    }
    Ok(best)
}

/// One row as [`CollectingOperator`] stored it.
pub struct CollectedRow {
    pub separator: String,
    pub line_length: i32,
    pub cells: Vec<CsvValue>,
}

/// A row-consuming operator that keeps every row it is handed, in arrival
/// order, and never refuses one (its recorded refusals stay empty, so a
/// caller of the write path can conclude full delivery). It decides no
/// emission policy: callers read the collected rows — failures included —
/// and apply their own.
pub struct CollectingOperator {
    pub rows: Vec<CollectedRow>,
}

impl CollectingOperator {
    /// An operator that has taken nothing yet.
    pub fn new() -> (r: CollectingOperator)
        ensures
            r.taken() == Seq::<ReceivedRow>::empty(),
            r.refusals() == Seq::<Seq<char>>::empty(),
    {
        let r = CollectingOperator { rows: Vec::new() };
        proof {
            assert(r.taken() =~= Seq::<ReceivedRow>::empty());
        }
        r
    }
}

impl CsvRowOperator for CollectingOperator {
    open spec fn refusals(&self) -> Seq<Seq<char>> {
        Seq::empty()
    }

    open spec fn taken(&self) -> Seq<ReceivedRow> {
        self.rows@.map_values(
            |cr: CollectedRow|
                (ReceivedRow {
                    separator: cr.separator@,
                    line_length: cr.line_length as int,
                    cells: cell_views(cr.cells@),
                }),
        )
    }

    fn operate_row(&mut self, separator: &str, line_length: i32, row: Vec<CsvValue>) -> (r: Result<
        (),
        CsvError,
    >)
        ensures
            r is Ok,
    {
        self.rows.push(
            CollectedRow { separator: String::from_str(separator), line_length, cells: row },
        );
        proof {
            assert(self.taken() =~= old(self).taken().push(
                (ReceivedRow {
                    separator: separator@,
                    line_length: line_length as int,
                    cells: cell_views(row@),
                }),
            ));
        }
        Ok(())
    }
}

} // verus!
