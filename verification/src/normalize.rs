//! Input preparation: squaring a rectangular list of rows by zero padding.

use vstd::prelude::*;
use crate::matrix::Matrix;
use crate::model::is_max_assignment;
use crate::model::is_min_assignment;
use crate::model::solve_input_ok;
use crate::solver::MadarskaMetoda;

verus! {

/// Rejected inputs of the solver.
#[derive(Debug, PartialEq, Eq, Structural)]
pub enum SolveError {
    /// The input grid was empty, or no row had a column.
    InvalidInput,
}

/// The widest row width among the first `k` rows.
pub open spec fn max_width(data: Seq<Vec<i32>>, k: int) -> int
    decreases k,
{
    if k <= 0 {
        0
    } else {
        let w = data[k - 1]@.len() as int;
        if w > max_width(data, k - 1) {
            w
        } else {
            max_width(data, k - 1)
        }
    }
}

/// The size of the square grid a list of rows normalizes to.
pub open spec fn squared_dim(data: Seq<Vec<i32>>) -> int {
    let r = data.len() as int;
    let w = max_width(data, r);
    if r > w {
        r
    } else {
        w
    }
}

/// The square grid a list of rows normalizes to: original entries where the
/// input has them, zeros in the padding.
pub open spec fn squared_form(data: Seq<Vec<i32>>, m: Matrix) -> bool {
    let r = data.len() as int;
    let w = max_width(data, r);
    let n = if r > w {
        r
    } else {
        w
    };
    &&& m.wf()
    &&& m.rows == n
    &&& m.columns == n
    &&& forall|i: int, j: int|
        0 <= i < n && 0 <= j < n ==> #[trigger] m.val(i, j) == (
        if i < r && j < data[i]@.len() {
            data[i]@[j] as int
        } else {
            0
        })
}

impl Matrix {
    /// Builds the square grid for a list of rows: ragged rows are padded
    /// with zeros to the widest width, then all-zero rows or columns are
    /// appended until the grid is square.  An input without any cell is
    /// rejected.  An already square input is returned unchanged.
    #[verifier::loop_isolation(false)]
    pub fn new_squared(data: &Vec<Vec<i32>>) -> (res: Result<Matrix, SolveError>)
        ensures
            match res {
                Ok(m) => {
                    &&& squared_form(data@, m)
                    &&& data@.len() > 0
                    &&& max_width(data@, data@.len() as int) > 0
                },
                Err(e) => {
                    &&& e == SolveError::InvalidInput
                    &&& data@.len() == 0 || max_width(data@, data@.len() as int) == 0
                },
            },
    {
        let rows = data.len();
        let mut width: usize = 0;
        for i in 0..rows
            invariant
                width as int == max_width(data@, i as int),
        {
            if data[i].len() > width {
                width = data[i].len();
            }
        }
        if rows == 0 || width == 0 {
            return Err(SolveError::InvalidInput);
        }
        let n = if rows > width {
            rows
        } else {
            width
        };
        let mut out_rows: Vec<Vec<i32>> = Vec::new();
        for i in 0..n
            invariant
                rows == data@.len(),
                width as int == max_width(data@, rows as int),
                n == (if rows > width {
                    rows
                } else {
                    width
                }),
                out_rows@.len() == i,
                forall|a: int| 0 <= a < i ==> (#[trigger] out_rows@[a])@.len() == n,
                forall|a: int, b: int|
                    0 <= a < i && 0 <= b < n
                        ==> #[trigger] out_rows@[a]@[b] as int == (
                        if a < rows && b < data@[a]@.len() {
                            data@[a]@[b] as int
                        } else {
                            0
                        }),
        {
            let mut line: Vec<i32> = Vec::new();
            for j in 0..n
                invariant
                    rows == data@.len(),
                    i < n,
                    line@.len() == j,
                    forall|b: int|
                        0 <= b < j ==> #[trigger] line@[b] as int == (
                        if i < rows && b < data@[i as int]@.len() {
                            data@[i as int]@[b] as int
                        } else {
                            0
                        }),
            {
                if i < rows && j < data[i].len() {
                    line.push(data[i][j]);
                } else {
                    line.push(0);
                }
            }
            out_rows.push(line);
        }
        Ok(Matrix { rows: n, columns: n, matrix: out_rows })
    }
}

impl MadarskaMetoda {
    /// Normalizes a list of rows to a square grid and solves it, minimizing
    /// by default or maximizing on request.  Only an input without any cell
    /// is rejected.
    pub fn solve_grid(data: &Vec<Vec<i32>>, maximize: bool) -> (res: Result<i32, SolveError>)
        requires
            forall|i: int, j: int|
                0 <= i < data@.len() && 0 <= j < (#[trigger] data@[i])@.len() ==> {
                    let n = squared_dim(data@);
                    let e = #[trigger] data@[i]@[j] as int;
                    &&& -0x3fff_ffff <= e <= 0x3fff_ffff
                    &&& e * (8 * n * n + 8) <= 0x3fff_ffff
                    &&& -(e * (8 * n * n + 8)) <= 0x3fff_ffff
                },
        ensures
            match res {
                Ok(v) => exists|m: Matrix|
                    {
                        &&& #[trigger] squared_form(data@, m)
                        &&& (!maximize ==> is_min_assignment(m, m.rows as int, v as int))
                        &&& (maximize ==> is_max_assignment(m, m.rows as int, v as int))
                    },
                Err(e) => {
                    &&& e == SolveError::InvalidInput
                    &&& data@.len() == 0 || max_width(data@, data@.len() as int) == 0
                },
            },
    {
        match Matrix::new_squared(data) {
            Ok(m) => {
                proof {
                    let n = squared_dim(data@);
                    assert(m.rows as int == n);
                    assert forall|i: int, j: int| 0 <= i < m.rows && 0 <= j < m.columns
                        implies {
                            let e = #[trigger] m.val(i, j);
                            &&& -0x3fff_ffff <= e <= 0x3fff_ffff
                            &&& e * (8 * n * n + 8) <= 0x3fff_ffff
                            &&& -(e * (8 * n * n + 8)) <= 0x3fff_ffff
                        } by {
                        let e = m.val(i, j);
                        if i < data@.len() && j < data@[i]@.len() {
                            assert(e == data@[i]@[j] as int);
                        } else {
                            assert(e == 0);
                            assert(0 * (8 * n * n + 8) == 0) by (nonlinear_arith);
                        }
                    }
                    assert(solve_input_ok(m));
                }
                if maximize {
                    Ok(MadarskaMetoda::solve_max(&m))
                } else {
                    Ok(MadarskaMetoda::solve(&m))
                }
            },
            Err(e) => Err(e),
        }
    }
}

} // verus!
