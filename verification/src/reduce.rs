//! Dual reduction: subtracting row minima, then column minima.

use vstd::prelude::*;
use crate::matrix::Matrix;
use crate::model::col_has_zero;
use crate::model::is_col_min;
use crate::model::is_reduced_col_min;
use crate::model::is_row_min;
use crate::model::reduced_exact;
use crate::model::row_has_zero;
use crate::solver::MadarskaMetoda;

verus! {

/// Entries this large are safe through one reduction pass.
pub const ENTRY_LIMIT: i32 = 0x3fff_ffff;

impl MadarskaMetoda {
    /// Subtracts each row's least entry from that row, then each column's
    /// least entry from that column.  The result is determined exactly by the
    /// `reduced_exact` relation; in particular every entry is non-negative
    /// afterwards and every row and column contains a zero.
    pub fn first_step(matrix: Matrix) -> (r: Matrix)
        requires
            matrix.wf(),
            matrix.rows >= 1,
            matrix.columns >= 1,
            forall|i: int, j: int|
                0 <= i < matrix.rows && 0 <= j < matrix.columns
                    ==> -(ENTRY_LIMIT as int) <= #[trigger] matrix.val(i, j) <= ENTRY_LIMIT as int,
        ensures
            r.wf(),
            r.rows == matrix.rows,
            r.columns == matrix.columns,
            exists|u: Seq<int>, v: Seq<int>| reduced_exact(matrix, r, u, v),
            forall|i: int, j: int|
                0 <= i < r.rows && 0 <= j < r.columns ==> #[trigger] r.val(i, j) >= 0,
            forall|i: int| 0 <= i < r.rows ==> #[trigger] row_has_zero(r, i),
            forall|j: int| 0 <= j < r.columns ==> #[trigger] col_has_zero(r, j),
    {
        let rows = matrix.rows;
        let columns = matrix.columns;

        // Row pass: collect the row minima, then subtract them.
        let mut row_mins: Vec<i32> = Vec::new();
        for i in 0..rows
            invariant
                matrix.wf(),
                matrix.rows == rows,
                matrix.columns == columns,
                rows >= 1,
                columns >= 1,
                row_mins@.len() == i,
                forall|a: int| 0 <= a < i ==> is_row_min(matrix, a, #[trigger] row_mins@[a] as int),
        {
            let m = matrix.find_min_row(i);
            let ghost prev = row_mins@;
            row_mins.push(m);
            proof {
                assert(is_row_min(matrix, i as int, m as int));
                assert forall|a: int| 0 <= a < i + 1
                    implies is_row_min(matrix, a, #[trigger] row_mins@[a] as int) by {
                    if a < i {
                        assert(row_mins@[a] == prev[a]);
                        assert(is_row_min(matrix, a, prev[a] as int));
                    }
                }
            }
        }

        let mut mid_rows: Vec<Vec<i32>> = Vec::new();
        for i in 0..rows
            invariant
                matrix.wf(),
                matrix.rows == rows,
                matrix.columns == columns,
                rows >= 1,
                columns >= 1,
                row_mins@.len() == rows,
                forall|a: int|
                    0 <= a < rows ==> is_row_min(matrix, a, #[trigger] row_mins@[a] as int),
                forall|a: int, j: int|
                    0 <= a < rows && 0 <= j < columns
                        ==> -(ENTRY_LIMIT as int) <= #[trigger] matrix.val(a, j)
                            <= ENTRY_LIMIT as int,
                mid_rows@.len() == i,
                forall|a: int| 0 <= a < i ==> (#[trigger] mid_rows@[a])@.len() == columns,
                forall|a: int, j: int|
                    0 <= a < i && 0 <= j < columns
                        ==> #[trigger] mid_rows@[a]@[j] as int
                            == matrix.val(a, j) - row_mins@[a] as int,
        {
            let mut line: Vec<i32> = Vec::new();
            let m = row_mins[i];
            proof {
                assert(is_row_min(matrix, i as int, m as int));
            }
            for j in 0..columns
                invariant
                    matrix.wf(),
                    matrix.rows == rows,
                    matrix.columns == columns,
                    i < rows,
                    row_mins@.len() == rows,
                    m as int == row_mins@[i as int] as int,
                    is_row_min(matrix, i as int, m as int),
                    -(ENTRY_LIMIT as int) <= m as int <= ENTRY_LIMIT as int,
                    forall|a: int, jj: int|
                        0 <= a < rows && 0 <= jj < columns
                            ==> -(ENTRY_LIMIT as int) <= #[trigger] matrix.val(a, jj)
                                <= ENTRY_LIMIT as int,
                    line@.len() == j,
                    forall|jj: int|
                        0 <= jj < j ==> #[trigger] line@[jj] as int
                            == matrix.val(i as int, jj) - m as int,
            {
                proof {
                    assert(-(ENTRY_LIMIT as int) <= matrix.val(i as int, j as int)
                        <= ENTRY_LIMIT as int);
                    assert(matrix.val(i as int, j as int) >= m as int);
                }
                line.push(checked_sub(matrix.matrix[i][j], m));
            }
            mid_rows.push(line);
        }
        let mid = Matrix { rows, columns, matrix: mid_rows };
        proof {
            assert forall|a: int, b: int| 0 <= a < rows && 0 <= b < columns
                implies 0 <= #[trigger] mid.val(a, b) <= 2 * (ENTRY_LIMIT as int) by {
                assert(is_row_min(matrix, a, row_mins@[a] as int));
                assert(matrix.val(a, b) >= row_mins@[a] as int);
            }
        }

        // Column pass: collect the column minima of the row-reduced grid,
        // then subtract them.
        let mut col_mins: Vec<i32> = Vec::new();
        for j in 0..columns
            invariant
                mid.wf(),
                mid.rows == rows,
                mid.columns == columns,
                rows >= 1,
                columns >= 1,
                forall|a: int, b: int|
                    0 <= a < rows && 0 <= b < columns
                        ==> 0 <= #[trigger] mid.val(a, b) <= 2 * (ENTRY_LIMIT as int),
                col_mins@.len() == j,
                forall|b: int| 0 <= b < j ==> is_col_min(mid, b, #[trigger] col_mins@[b] as int),
                forall|b: int|
                    0 <= b < j ==> 0 <= #[trigger] col_mins@[b] as int <= 2 * (ENTRY_LIMIT as int),
        {
            let m = mid.find_min_col(j);
            let ghost prev = col_mins@;
            col_mins.push(m);
            proof {
                assert(is_col_min(mid, j as int, m as int));
                assert forall|b: int| 0 <= b < j + 1
                    implies is_col_min(mid, b, #[trigger] col_mins@[b] as int) by {
                    if b < j {
                        assert(col_mins@[b] == prev[b]);
                        assert(is_col_min(mid, b, prev[b] as int));
                    }
                }
            }
        }

        let mut out_rows: Vec<Vec<i32>> = Vec::new();
        for i in 0..rows
            invariant
                mid.wf(),
                mid.rows == rows,
                mid.columns == columns,
                rows >= 1,
                columns >= 1,
                col_mins@.len() == columns,
                forall|b: int|
                    0 <= b < columns ==> is_col_min(mid, b, #[trigger] col_mins@[b] as int),
                forall|a: int, b: int|
                    0 <= a < rows && 0 <= b < columns
                        ==> 0 <= #[trigger] mid.val(a, b) <= 2 * (ENTRY_LIMIT as int),
                forall|b: int|
                    0 <= b < columns
                        ==> 0 <= #[trigger] col_mins@[b] as int <= 2 * (ENTRY_LIMIT as int),
                out_rows@.len() == i,
                forall|a: int| 0 <= a < i ==> (#[trigger] out_rows@[a])@.len() == columns,
                forall|a: int, b: int|
                    0 <= a < i && 0 <= b < columns
                        ==> #[trigger] out_rows@[a]@[b] as int
                            == mid.val(a, b) - col_mins@[b] as int,
        {
            let mut line: Vec<i32> = Vec::new();
            for j in 0..columns
                invariant
                    mid.wf(),
                    mid.rows == rows,
                    mid.columns == columns,
                    i < rows,
                    col_mins@.len() == columns,
                    forall|b: int|
                        0 <= b < columns ==> is_col_min(mid, b, #[trigger] col_mins@[b] as int),
                    forall|a: int, b: int|
                        0 <= a < rows && 0 <= b < columns
                            ==> 0 <= #[trigger] mid.val(a, b) <= 2 * (ENTRY_LIMIT as int),
                    forall|b: int|
                        0 <= b < columns
                            ==> 0 <= #[trigger] col_mins@[b] as int <= 2 * (ENTRY_LIMIT as int),
                    line@.len() == j,
                    forall|b: int|
                        0 <= b < j ==> #[trigger] line@[b] as int
                            == mid.val(i as int, b) - col_mins@[b] as int,
            {
                proof {
                    assert(is_col_min(mid, j as int, col_mins@[j as int] as int));
                    assert(mid.val(i as int, j as int) >= col_mins@[j as int] as int);
                }
                line.push(checked_sub(mid.matrix[i][j], col_mins[j]));
            }
            out_rows.push(line);
        }
        let out = Matrix { rows, columns, matrix: out_rows };

        proof {
            let u = row_mins@.map_values(|x: i32| x as int);
            let v = col_mins@.map_values(|x: i32| x as int);
            assert forall|i: int, j: int|
                0 <= i < rows && 0 <= j < columns
                implies #[trigger] out.val(i, j) == matrix.val(i, j) - u[i] - v[j] by {
                assert(mid.val(i, j) == matrix.val(i, j) - row_mins@[i] as int);
            }
            assert forall|i: int| 0 <= i < rows
                implies is_row_min(matrix, i, #[trigger] u[i]) by {
                assert(is_row_min(matrix, i, row_mins@[i] as int));
            }
            assert forall|j: int| 0 <= j < columns
                implies is_reduced_col_min(matrix, u, j, #[trigger] v[j]) by {
                assert(is_col_min(mid, j, col_mins@[j] as int));
                let w = choose|i: int| 0 <= i < rows && #[trigger] mid.val(i, j) == col_mins@[j] as int;
                assert(mid.val(w, j) == matrix.val(w, j) - u[w]);
                assert(matrix.val(w, j) - u[w] == v[j]);
                assert forall|i: int| 0 <= i < rows
                    implies #[trigger] matrix.val(i, j) - u[i] >= v[j] by {
                    assert(mid.val(i, j) == matrix.val(i, j) - u[i]);
                    assert(mid.val(i, j) >= col_mins@[j] as int);
                }
            }
            assert(reduced_exact(matrix, out, u, v));
            assert forall|i: int, j: int| 0 <= i < rows && 0 <= j < columns
                implies #[trigger] out.val(i, j) >= 0 by {
                assert(is_col_min(mid, j, col_mins@[j] as int));
                assert(mid.val(i, j) >= col_mins@[j] as int);
            }
            // The cell of each column minimum becomes that column's zero.
            assert forall|j: int| 0 <= j < columns implies #[trigger] col_has_zero(out, j) by {
                assert(is_col_min(mid, j, col_mins@[j] as int));
                let iw = choose|iw: int| 0 <= iw < rows && #[trigger] mid.val(iw, j) == col_mins@[j] as int;
                assert(out.val(iw, j) == 0);
            }
            // The cell of each row minimum keeps value zero: its column's
            // minimum cannot be positive there.
            assert forall|i: int| 0 <= i < rows implies #[trigger] row_has_zero(out, i) by {
                assert(is_row_min(matrix, i, u[i]));
                let jw = choose|jw: int| 0 <= jw < columns && #[trigger] matrix.val(i, jw) == u[i];
                assert(mid.val(i, jw) == 0);
                assert(is_col_min(mid, jw, col_mins@[jw] as int));
                assert(col_mins@[jw] as int <= mid.val(i, jw));
                assert(out.val(i, jw) == 0);
            }
        }
        out
    }
}

/// Subtraction that the caller has shown cannot overflow.
fn checked_sub(a: i32, b: i32) -> (r: i32)
    requires
        -(i32::MAX as int) <= a as int - b as int <= i32::MAX as int,
    ensures
        r as int == a as int - b as int,
{
    a - b
}

} // verus!
