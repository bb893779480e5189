//! Dual update over a set of covering lines.
//!
//! A covering is a list of lines, each a row index tagged `'R'` or a column
//! index tagged `'C'`.  The dual update finds the least uncovered entry and
//! shifts the grid by it: doubly covered cells grow, uncovered cells shrink,
//! singly covered cells stay.

use vstd::prelude::*;
use crate::matrix::Matrix;
use crate::model::cell_update;
use crate::model::crossed_col;
use crate::model::crossed_row;
use crate::model::uncovered;
use crate::model::uncovered_min;
use crate::reduce::ENTRY_LIMIT;
use crate::solver::MadarskaMetoda;

verus! {

/// Covering lines: a row index tagged `'R'` or a column index tagged `'C'`.
pub type Crossed = Vec<(usize, char)>;

/// Whether the list holds the line `(index, tag)`.
pub(crate) fn crossed_contains(crossed: &Vec<(usize, char)>, index: usize, tag: char) -> (r: bool)
    ensures
        r == crossed@.contains((index, tag)),
{
    for k in 0..crossed.len()
        invariant
            forall|t: int| 0 <= t < k ==> crossed@[t] != (index, tag),
    {
        if crossed[k].0 == index && crossed[k].1 == tag {
            assert(crossed@[k as int] == (index, tag));
            return true;
        }
    }
    false
}

impl MadarskaMetoda {
    /// The least entry over the cells whose row and column are both
    /// uncovered.
    #[verifier::loop_isolation(false)]
    pub fn find_min_in_non_crossed(matrix: &Matrix, crossed: &Crossed) -> (r: i32)
        requires
            matrix.wf(),
            exists|i: int, j: int|
                0 <= i < matrix.rows && 0 <= j < matrix.columns && uncovered(crossed@, i, j),
        ensures
            uncovered_min(*matrix, crossed@, r as int),
    {
        let mut found = false;
        let mut best: i32 = 0;
        let ghost mut wa: int = 0;
        let ghost mut wb: int = 0;
        for i in 0..matrix.rows
            invariant
                matrix.wf(),
                found ==> 0 <= wa < i && 0 <= wb < matrix.columns && uncovered(crossed@, wa, wb)
                    && matrix.val(wa, wb) == best as int,
                !found ==> forall|a: int, b: int|
                    0 <= a < i && 0 <= b < matrix.columns
                        ==> !#[trigger] uncovered(crossed@, a, b),
                forall|a: int, b: int|
                    0 <= a < i && 0 <= b < matrix.columns && #[trigger] uncovered(crossed@, a, b)
                        ==> #[trigger] matrix.val(a, b) >= best as int,
        {
            if !crossed_contains(crossed, i, 'R') {
                for j in 0..matrix.columns
                    invariant
                        matrix.wf(),
                        i < matrix.rows,
                        !crossed_row(crossed@, i as int),
                        found ==> 0 <= wa < matrix.rows && 0 <= wb < matrix.columns
                            && uncovered(crossed@, wa, wb)
                            && (wa < i || (wa == i && wb < j))
                            && matrix.val(wa, wb) == best as int,
                        !found ==> forall|a: int, b: int|
                            0 <= a < matrix.rows && 0 <= b < matrix.columns
                                && (a < i || (a == i && b < j))
                                ==> !#[trigger] uncovered(crossed@, a, b),
                        forall|a: int, b: int|
                            0 <= a < matrix.rows && 0 <= b < matrix.columns
                                && #[trigger] uncovered(crossed@, a, b)
                                && (a < i || (a == i && b < j))
                                ==> #[trigger] matrix.val(a, b) >= best as int,
                {
                    if !crossed_contains(crossed, j, 'C') {
                        if !found || matrix.matrix[i][j] < best {
                            best = matrix.matrix[i][j];
                            found = true;
                            proof {
                                wa = i as int;
                                wb = j as int;
                            }
                            assert(uncovered(crossed@, i as int, j as int));
                            assert(matrix.val(i as int, j as int) == best as int);
                        }
                    }
                }
            }
        }
        proof {
            if !found {
                let (a, b) = choose|a: int, b: int|
                    0 <= a < matrix.rows && 0 <= b < matrix.columns && uncovered(crossed@, a, b);
                assert(matrix.val(a, b) >= best as int);
            } else {
                assert(0 <= wa < matrix.rows && 0 <= wb < matrix.columns
                    && uncovered(crossed@, wa, wb) && matrix.val(wa, wb) == best as int);
            }
        }
        best
    }

    /// One dual update: adds the least uncovered entry to every doubly
    /// covered cell and subtracts it from every uncovered cell.
    pub fn third_step(matrix: Matrix, crossed: &Crossed) -> (r: Matrix)
        requires
            matrix.wf(),
            exists|i: int, j: int|
                0 <= i < matrix.rows && 0 <= j < matrix.columns && uncovered(crossed@, i, j),
            forall|i: int, j: int|
                0 <= i < matrix.rows && 0 <= j < matrix.columns
                    ==> 0 <= #[trigger] matrix.val(i, j) <= ENTRY_LIMIT as int,
        ensures
            r.wf(),
            r.rows == matrix.rows,
            r.columns == matrix.columns,
            exists|d: int| uncovered_min(matrix, crossed@, d) && cell_update(matrix, r, crossed@, d),
            forall|i: int, j: int|
                0 <= i < r.rows && 0 <= j < r.columns ==> #[trigger] r.val(i, j) >= 0,
    {
        let rows = matrix.rows;
        let columns = matrix.columns;
        let min = Self::find_min_in_non_crossed(&matrix, crossed);
        proof {
            let (a, b) = choose|a: int, b: int|
                0 <= a < matrix.rows && 0 <= b < matrix.columns && uncovered(crossed@, a, b)
                    && #[trigger] matrix.val(a, b) == min as int;
            assert(0 <= min as int <= ENTRY_LIMIT as int);
        }

        // Record which rows and columns are covered.
        let mut rcov: Vec<bool> = Vec::new();
        for i in 0..rows
            invariant
                rcov@.len() == i,
                forall|a: int| 0 <= a < i ==> #[trigger] rcov@[a] == crossed_row(crossed@, a),
        {
            let c = crossed_contains(crossed, i, 'R');
            rcov.push(c);
        }
        let mut ccov: Vec<bool> = Vec::new();
        for j in 0..columns
            invariant
                ccov@.len() == j,
                forall|b: int| 0 <= b < j ==> #[trigger] ccov@[b] == crossed_col(crossed@, b),
        {
            let c = crossed_contains(crossed, j, 'C');
            ccov.push(c);
        }

        let mut out_rows: Vec<Vec<i32>> = Vec::new();
        for i in 0..rows
            invariant
                matrix.wf(),
                matrix.rows == rows,
                matrix.columns == columns,
                rcov@.len() == rows,
                ccov@.len() == columns,
                forall|a: int| 0 <= a < rows ==> #[trigger] rcov@[a] == crossed_row(crossed@, a),
                forall|b: int| 0 <= b < columns ==> #[trigger] ccov@[b] == crossed_col(crossed@, b),
                0 <= min as int <= ENTRY_LIMIT as int,
                uncovered_min(matrix, crossed@, min as int),
                forall|a: int, b: int|
                    0 <= a < rows && 0 <= b < columns
                        ==> 0 <= #[trigger] matrix.val(a, b) <= ENTRY_LIMIT as int,
                out_rows@.len() == i,
                forall|a: int| 0 <= a < i ==> (#[trigger] out_rows@[a])@.len() == columns,
                forall|a: int, b: int|
                    0 <= a < i && 0 <= b < columns
                        ==> #[trigger] out_rows@[a]@[b] as int == (
                        if crossed_row(crossed@, a) && crossed_col(crossed@, b) {
                            matrix.val(a, b) + min as int
                        } else if !crossed_row(crossed@, a) && !crossed_col(crossed@, b) {
                            matrix.val(a, b) - min as int
                        } else {
                            matrix.val(a, b)
                        }),
                forall|a: int, b: int|
                    0 <= a < i && 0 <= b < columns ==> #[trigger] out_rows@[a]@[b] >= 0,
        {
            let mut line: Vec<i32> = Vec::new();
            let row_is_covered = rcov[i];
            for j in 0..columns
                invariant
                    matrix.wf(),
                    matrix.rows == rows,
                    matrix.columns == columns,
                    i < rows,
                    rcov@.len() == rows,
                    ccov@.len() == columns,
                    forall|a: int| 0 <= a < rows ==> #[trigger] rcov@[a] == crossed_row(crossed@, a),
                    forall|b: int|
                        0 <= b < columns ==> #[trigger] ccov@[b] == crossed_col(crossed@, b),
                    row_is_covered == crossed_row(crossed@, i as int),
                    0 <= min as int <= ENTRY_LIMIT as int,
                    uncovered_min(matrix, crossed@, min as int),
                    forall|a: int, b: int|
                        0 <= a < rows && 0 <= b < columns
                            ==> 0 <= #[trigger] matrix.val(a, b) <= ENTRY_LIMIT as int,
                    line@.len() == j,
                    forall|b: int|
                        0 <= b < j ==> #[trigger] line@[b] as int == (
                        if crossed_row(crossed@, i as int) && crossed_col(crossed@, b) {
                            matrix.val(i as int, b) + min as int
                        } else if !crossed_row(crossed@, i as int) && !crossed_col(crossed@, b) {
                            matrix.val(i as int, b) - min as int
                        } else {
                            matrix.val(i as int, b)
                        }),
                    forall|b: int| 0 <= b < j ==> #[trigger] line@[b] >= 0,
            {
                let cell = matrix.matrix[i][j];
                proof {
                    assert(0 <= matrix.val(i as int, j as int) <= ENTRY_LIMIT as int);
                }
                if row_is_covered && ccov[j] {
                    line.push(cell + min);
                } else if !row_is_covered && !ccov[j] {
                    proof {
                        assert(uncovered(crossed@, i as int, j as int));
                        assert(matrix.val(i as int, j as int) >= min as int);
                    }
                    line.push(cell - min);
                } else {
                    line.push(cell);
                }
            }
            out_rows.push(line);
        }
        let out = Matrix { rows, columns, matrix: out_rows };
        proof {
            assert(cell_update(matrix, out, crossed@, min as int));
            assert(uncovered_min(matrix, crossed@, min as int)
                && cell_update(matrix, out, crossed@, min as int));
        }
        out
    }
}

} // verus!
