//! The Hungarian-method solver.
//!
//! `solve` returns the least possible sum of one entry per row and column
//! of a square cost grid; `solve_assignment` also returns the chosen cells
//! and can maximize instead.  The proof rests on a dual certificate: the
//! working grid always equals the cost grid shifted by row and column
//! potentials, stays non-negative, and the final matching selects only
//! zeros, so no assignment can do better.

use vstd::prelude::*;
use crate::engine::find_pair_by_row;
use crate::matrix::Matrix;
use crate::model::assignment_cost;
use crate::model::cell_update;
use crate::model::cost_upto;
use crate::model::count_cols_crossed;
use crate::model::count_rows_crossed;
use crate::model::crossed_col;
use crate::model::crossed_row;
use crate::model::distinct_cols;
use crate::model::distinct_rows;
use crate::model::grid_sum;
use crate::model::is_max_assignment;
use crate::model::is_min_assignment;
use crate::model::is_perm;
use crate::model::lemma_cost_dual_split;
use crate::model::lemma_cost_negated;
use crate::model::lemma_cost_nonneg;
use crate::model::lemma_cost_pointwise_eq;
use crate::model::lemma_cost_zero_sel;
use crate::model::lemma_count_cols_bounds;
use crate::model::lemma_count_rows_bounds;
use crate::model::lemma_distinct_rows_complete;
use crate::model::lemma_grid_sum_nonneg;
use crate::model::lemma_grid_sum_scaled_bound;
use crate::model::lemma_pairs_perm;
use crate::model::lemma_scaled_small;
use crate::model::lemma_some_col_uncovered;
use crate::model::lemma_some_row_uncovered;
use crate::model::lemma_sum_perm_reindex;
use crate::model::lemma_update_sum_decreases;
use crate::model::pairs_perm;
use crate::model::pairs_wf;
use crate::model::reduced_exact;
use crate::model::row_has_pair;
use crate::model::solve_input_ok;
use crate::model::sum_seq;
use crate::model::uncovered;
use crate::model::uncovered_min;
use crate::model::zero_cells;

verus! {

/// Hungarian-method assignment solver.  All operations are associated
/// functions; a solve call owns its working state for its whole duration.
pub struct MadarskaMetoda {}

/// An exact copy of the grid.
fn clone_matrix(m: &Matrix) -> (r: Matrix)
    requires
        m.wf(),
    ensures
        r.wf(),
        r.rows == m.rows,
        r.columns == m.columns,
        forall|i: int, j: int|
            0 <= i < m.rows && 0 <= j < m.columns ==> #[trigger] r.val(i, j) == m.val(i, j),
{
    let mut rows_out: Vec<Vec<i32>> = Vec::new();
    for i in 0..m.rows
        invariant
            m.wf(),
            rows_out@.len() == i,
            forall|a: int| 0 <= a < i ==> (#[trigger] rows_out@[a])@.len() == m.columns,
            forall|a: int, b: int|
                0 <= a < i && 0 <= b < m.columns
                    ==> #[trigger] rows_out@[a]@[b] as int == m.val(a, b),
    {
        let mut line: Vec<i32> = Vec::new();
        for j in 0..m.columns
            invariant
                m.wf(),
                i < m.rows,
                line@.len() == j,
                forall|b: int| 0 <= b < j ==> #[trigger] line@[b] as int == m.val(i as int, b),
        {
            line.push(m.matrix[i][j]);
        }
        rows_out.push(line);
    }
    Matrix { rows: m.rows, columns: m.columns, matrix: rows_out }
}

/// The grid with every entry negated.
fn negate_matrix(m: &Matrix) -> (r: Matrix)
    requires
        m.wf(),
        forall|i: int, j: int|
            0 <= i < m.rows && 0 <= j < m.columns
                ==> -0x7fff_ffff <= #[trigger] m.val(i, j) <= 0x7fff_ffff,
    ensures
        r.wf(),
        r.rows == m.rows,
        r.columns == m.columns,
        forall|i: int, j: int|
            0 <= i < m.rows && 0 <= j < m.columns ==> #[trigger] r.val(i, j) == -m.val(i, j),
{
    let mut rows_out: Vec<Vec<i32>> = Vec::new();
    for i in 0..m.rows
        invariant
            m.wf(),
            forall|a: int, b: int|
                0 <= a < m.rows && 0 <= b < m.columns
                    ==> -0x7fff_ffff <= #[trigger] m.val(a, b) <= 0x7fff_ffff,
            rows_out@.len() == i,
            forall|a: int| 0 <= a < i ==> (#[trigger] rows_out@[a])@.len() == m.columns,
            forall|a: int, b: int|
                0 <= a < i && 0 <= b < m.columns
                    ==> #[trigger] rows_out@[a]@[b] as int == -m.val(a, b),
    {
        let mut line: Vec<i32> = Vec::new();
        for j in 0..m.columns
            invariant
                m.wf(),
                i < m.rows,
                forall|a: int, b: int|
                    0 <= a < m.rows && 0 <= b < m.columns
                        ==> -0x7fff_ffff <= #[trigger] m.val(a, b) <= 0x7fff_ffff,
                line@.len() == j,
                forall|b: int| 0 <= b < j ==> #[trigger] line@[b] as int == -m.val(i as int, b),
        {
            proof {
                assert(-0x7fff_ffff <= m.val(i as int, j as int) <= 0x7fff_ffff);
            }
            line.push(-m.matrix[i][j]);
        }
        rows_out.push(line);
    }
    Matrix { rows: m.rows, columns: m.columns, matrix: rows_out }
}

/// Addition that the caller has shown cannot overflow.
fn checked_add(a: i32, b: i32) -> (r: i32)
    requires
        -(i32::MAX as int) <= a as int + b as int <= i32::MAX as int,
    ensures
        r as int == a as int + b as int,
{
    a + b
}

impl MadarskaMetoda {
    /// The least possible total cost of one cell per row and column.
    pub fn solve(starting_matrix: &Matrix) -> (r: i32)
        requires
            solve_input_ok(*starting_matrix),
        ensures
            is_min_assignment(*starting_matrix, starting_matrix.rows as int, r as int),
    {
        let (value, _assigned) = Self::solve_assignment(starting_matrix, false);
        value
    }

    /// The greatest possible total cost of one cell per row and column.
    pub fn solve_max(starting_matrix: &Matrix) -> (r: i32)
        requires
            solve_input_ok(*starting_matrix),
        ensures
            is_max_assignment(*starting_matrix, starting_matrix.rows as int, r as int),
    {
        let (value, _assigned) = Self::solve_assignment(starting_matrix, true);
        value
    }

    /// Solves the assignment problem and also returns the chosen cells: one
    /// per row and one per column, whose total is the optimum.
    #[verifier::loop_isolation(false)]
    pub fn solve_assignment(starting_matrix: &Matrix, maximize: bool) -> (res: (
        i32,
        Vec<(usize, usize)>,
    ))
        requires
            solve_input_ok(*starting_matrix),
        ensures
            res.1@.len() == starting_matrix.rows,
            pairs_wf(res.1@, starting_matrix.rows as int),
            distinct_rows(res.1@),
            distinct_cols(res.1@),
            exists|p: Seq<int>|
                {
                    &&& is_perm(p, starting_matrix.rows as int)
                    &&& forall|k: int|
                        0 <= k < res.1@.len()
                            ==> p[(#[trigger] res.1@[k]).0 as int] == res.1@[k].1 as int
                    &&& res.0 as int == assignment_cost(
                        *starting_matrix,
                        p,
                        starting_matrix.rows as int,
                    )
                },
            !maximize ==> is_min_assignment(
                *starting_matrix,
                starting_matrix.rows as int,
                res.0 as int,
            ),
            maximize ==> is_max_assignment(
                *starting_matrix,
                starting_matrix.rows as int,
                res.0 as int,
            ),
    {
        let n = starting_matrix.rows;
        let ghost ni = n as int;
        let ghost l0 = 0x3fff_ffffint;
        let ghost f8 = 8 * ni * ni + 8;
        let ghost f = 2 * ni * ni + 2;

        let base_matrix = if maximize {
            negate_matrix(starting_matrix)
        } else {
            clone_matrix(starting_matrix)
        };
        let ghost base = base_matrix;
        proof {
            assert forall|i: int, j: int| 0 <= i < ni && 0 <= j < ni
                implies {
                    &&& -l0 <= #[trigger] base.val(i, j) <= l0
                    &&& base.val(i, j) * f8 <= l0
                    &&& -(base.val(i, j) * f8) <= l0
                } by {
                let s = starting_matrix.val(i, j);
                assert(s * f8 <= l0 && -(s * f8) <= l0);
                if maximize {
                    assert(base.val(i, j) == -s);
                    assert((-s) * f8 == -(s * f8)) by (nonlinear_arith);
                }
            }
        }

        let mut work = Self::first_step(base_matrix);
        let ghost (u0, v0) = choose|u: Seq<int>, v: Seq<int>| reduced_exact(base, work, u, v);
        let ghost mut u = u0;
        let ghost mut v = v0;
        let ghost mut d_total: int = 0;

        proof {
            // Every working entry is a combination of four grid entries, so
            // it obeys a quarter of the scaled input bound.
            assert forall|i: int, j: int| 0 <= i < ni && 0 <= j < ni
                implies #[trigger] work.val(i, j) * f <= l0 by {
                assert(crate::model::is_row_min(base, i, u[i]));
                assert(crate::model::is_reduced_col_min(base, u, j, v[j]));
                let jw = choose|jw: int| 0 <= jw < ni && #[trigger] base.val(i, jw) == u[i];
                let iw = choose|iw: int|
                    0 <= iw < ni && #[trigger] base.val(iw, j) - u[iw] == v[j];
                assert(base.val(iw, j) >= u[iw]);
                assert(v[j] >= 0);
                let a = base.val(i, j);
                let b = u[i];
                let w = work.val(i, j);
                assert(w == a - b - v[j]);
                assert(w * f8 <= a * f8 - b * f8) by (nonlinear_arith)
                    requires
                        w == a - b - v[j],
                        v[j] >= 0,
                        f8 >= 0,
                ;
                assert(b * f8 == base.val(i, jw) * f8);
                assert(w * f8 <= 2 * l0);
                assert(f8 == 4 * f) by (nonlinear_arith)
                    requires
                        f8 == 8 * ni * ni + 8,
                        f == 2 * ni * ni + 2,
                ;
                assert(w * f <= l0) by (nonlinear_arith)
                    requires
                        w * f8 <= 2 * l0,
                        f8 == 4 * f,
                        w >= 0,
                        f >= 2,
                ;
            }
            lemma_grid_sum_scaled_bound(work, f, l0, ni);
        }
        let ghost s1 = grid_sum(work);

        loop
            invariant
                work.wf(),
                work.rows == n,
                work.columns == n,
                n >= 1,
                ni == n as int,
                l0 == 0x3fff_ffff,
                f8 == 8 * ni * ni + 8,
                f == 2 * ni * ni + 2,
                base.wf(),
                base.rows == n,
                base.columns == n,
                forall|i: int, j: int|
                    0 <= i < ni && 0 <= j < ni
                        ==> #[trigger] base.val(i, j) == (
                        if maximize {
                            -starting_matrix.val(i, j)
                        } else {
                            starting_matrix.val(i, j)
                        }),
                u.len() == ni,
                v.len() == ni,
                forall|i: int, j: int|
                    0 <= i < ni && 0 <= j < ni
                        ==> #[trigger] work.val(i, j) == base.val(i, j) - u[i] - v[j],
                forall|i: int, j: int|
                    0 <= i < ni && 0 <= j < ni ==> #[trigger] work.val(i, j) >= 0,
                forall|i: int, j: int|
                    0 <= i < ni && 0 <= j < ni
                        ==> (#[trigger] work.val(i, j) - d_total) * f <= l0,
                0 <= d_total,
                d_total + grid_sum(work) <= s1,
                s1 * f <= ni * ni * l0,
            decreases grid_sum(work),
        {
            let (crossed, assigned) = Self::second_step(&work);
            if crossed.len() == n {
                proof {
                    lemma_pairs_perm(assigned@, ni);
                    lemma_distinct_rows_complete(assigned@, ni);
                }
                let ghost p = pairs_perm(assigned@, ni);
                let mut total: i32 = 0;
                for i in 0..n
                    invariant
                        n >= 1,
                        ni == n as int,
                        l0 == 0x3fff_ffff,
                        f8 == 8 * ni * ni + 8,
                        solve_input_ok(*starting_matrix),
                        starting_matrix.rows == n,
                        assigned@.len() == n,
                        pairs_wf(assigned@, ni),
                        distinct_rows(assigned@),
                        distinct_cols(assigned@),
                        p == pairs_perm(assigned@, ni),
                        is_perm(p, ni),
                        forall|k: int|
                            0 <= k < assigned@.len()
                                ==> p[(#[trigger] assigned@[k]).0 as int] == assigned@[k].1 as int,
                        forall|r: int| 0 <= r < ni ==> row_has_pair(assigned@, r),
                        total as int == cost_upto(*starting_matrix, p, i as int),
                        -(i as int * l0) <= total as int * f8 <= i as int * l0,
                {
                    match find_pair_by_row(&assigned, i) {
                        Some(k) => {
                            let c = assigned[k].1;
                            proof {
                                assert(assigned@[k as int].0 == i);
                                assert(p[i as int] == c as int);
                                let e = starting_matrix.val(i as int, c as int);
                                let t = total as int;
                                assert(e * f8 <= l0 && -(e * f8) <= l0);
                                assert(f8 >= 8 * ni && f8 >= 8) by (nonlinear_arith)
                                    requires
                                        f8 == 8 * ni * ni + 8,
                                        ni >= 1,
                                ;
                                assert(-(ni * l0) <= t * f8 <= ni * l0) by (nonlinear_arith)
                                    requires
                                        -(i as int * l0) <= t * f8 <= i as int * l0,
                                        0 <= i as int <= ni,
                                        l0 >= 0,
                                ;
                                lemma_scaled_small(t, f8, ni, l0);
                                lemma_scaled_small(e, f8, 1, l0);
                                assert((t + e) * f8 == t * f8 + e * f8) by (nonlinear_arith);
                            }
                            total = checked_add(total, starting_matrix.matrix[i][c]);
                        },
                        None => {
                            proof {
                                assert(row_has_pair(assigned@, i as int));
                                assert(false);
                            }
                            vstd::pervasive::unreached()
                        },
                    }
                }
                proof {
                    let dual_total = sum_seq(u, ni) + sum_seq(v, ni);
                    // No assignment can beat the dual total on the shifted
                    // grid's base.
                    assert forall|q: Seq<int>| is_perm(q, ni)
                        implies assignment_cost(base, q, ni) >= dual_total by {
                        lemma_cost_dual_split(base, work, u, v, q, ni);
                        lemma_cost_nonneg(work, q, ni);
                        lemma_sum_perm_reindex(v, q, ni);
                    }
                    // The returned matching meets it exactly.
                    assert forall|i: int| 0 <= i < ni
                        implies work.val(i, #[trigger] p[i]) == 0 by {
                        assert(row_has_pair(assigned@, i));
                        let k = choose|k: int|
                            0 <= k < assigned@.len() && (#[trigger] assigned@[k]).0 as int == i;
                        assert(p[i] == assigned@[k].1 as int);
                        assert(work.val(assigned@[k].0 as int, assigned@[k].1 as int) == 0);
                    }
                    lemma_cost_zero_sel(work, p, ni);
                    lemma_cost_dual_split(base, work, u, v, p, ni);
                    lemma_sum_perm_reindex(v, p, ni);
                    assert(assignment_cost(base, p, ni) == dual_total);
                    if maximize {
                        lemma_cost_negated(*starting_matrix, base, p, ni);
                        assert(total as int == -assignment_cost(base, p, ni));
                        assert forall|q: Seq<int>| is_perm(q, ni)
                            implies assignment_cost(*starting_matrix, q, ni) <= total as int by {
                            lemma_cost_negated(*starting_matrix, base, q, ni);
                        }
                    } else {
                        lemma_cost_pointwise_eq(*starting_matrix, base, p, ni);
                        assert(total as int == assignment_cost(base, p, ni));
                        assert forall|q: Seq<int>| is_perm(q, ni)
                            implies assignment_cost(*starting_matrix, q, ni) >= total as int by {
                            lemma_cost_pointwise_eq(*starting_matrix, base, q, ni);
                        }
                    }
                }
                return (total, assigned);
            }
            // The covering has fewer than `n` lines: shift the duals to
            // open up a new zero.  The grid total strictly shrinks.
            proof {
                let cr = crossed@;
                lemma_count_rows_bounds(cr, ni);
                lemma_count_cols_bounds(cr, ni);
                assert(count_rows_crossed(cr, ni) + count_cols_crossed(cr, ni) < ni);
                lemma_some_row_uncovered(cr, ni);
                lemma_some_col_uncovered(cr, ni);
                let i0 = choose|i: int| 0 <= i < ni && !crossed_row(cr, i);
                let j0 = choose|j: int| 0 <= j < ni && !crossed_col(cr, j);
                assert(uncovered(cr, i0, j0));
                assert(0 <= i0 < work.rows && 0 <= j0 < work.columns && uncovered(cr, i0, j0));
                // Entries stay within the dual-update bound.
                lemma_grid_sum_nonneg(work, ni);
                assert forall|i: int, j: int| 0 <= i < ni && 0 <= j < ni
                    implies 0 <= #[trigger] work.val(i, j) <= l0 by {
                    let w = work.val(i, j);
                    assert((w - d_total) * f <= l0);
                    assert(d_total * f <= s1 * f) by (nonlinear_arith)
                        requires
                            d_total <= s1,
                            f >= 0,
                    ;
                    assert(w * f <= l0 + d_total * f) by (nonlinear_arith)
                        requires
                            (w - d_total) * f <= l0,
                    ;
                    assert(w <= l0) by (nonlinear_arith)
                        requires
                            w * f <= l0 + ni * ni * l0,
                            f == 2 * ni * ni + 2,
                            ni >= 1,
                            l0 >= 0,
                            w >= 0,
                    ;
                }
            }
            let ghost prev_work = work;
            let ghost cr = crossed@;
            work = Self::third_step(work, &crossed);
            proof {
                let d = choose|d: int|
                    uncovered_min(prev_work, cr, d) && cell_update(prev_work, work, cr, d);
                let (wa, wb) = choose|wa: int, wb: int|
                    0 <= wa < prev_work.rows && 0 <= wb < prev_work.columns && uncovered(cr, wa, wb)
                        && #[trigger] prev_work.val(wa, wb) == d;
                assert(d >= 0);
                assert(d >= 1) by {
                    if prev_work.val(wa, wb) == 0 {
                        assert(crossed_row(cr, wa) || crossed_col(cr, wb));
                    }
                }
                lemma_update_sum_decreases(prev_work, work, cr, d);
                lemma_grid_sum_nonneg(work, ni);
                let uo = u;
                let vo = v;
                let d_old = d_total;
                u = Seq::new(ni as nat, |i: int| if crossed_row(cr, i) { uo[i] - d } else { uo[i] });
                v = Seq::new(ni as nat, |j: int| if crossed_col(cr, j) { vo[j] } else { vo[j] + d });
                d_total = d_total + d;
                assert forall|i: int, j: int| 0 <= i < ni && 0 <= j < ni
                    implies #[trigger] work.val(i, j) == base.val(i, j) - u[i] - v[j] by {
                    assert(prev_work.val(i, j) == base.val(i, j) - uo[i] - vo[j]);
                }
                assert forall|i: int, j: int| 0 <= i < ni && 0 <= j < ni
                    implies (#[trigger] work.val(i, j) - d_total) * f <= l0 by {
                    let w0 = prev_work.val(i, j);
                    let w1 = work.val(i, j);
                    assert((w0 - d_old) * f <= l0);
                    assert(w1 <= w0 + d);
                    assert((w1 - d_total) * f <= (w0 - d_old) * f) by (nonlinear_arith)
                        requires
                            w1 - d_total <= w0 - d_old,
                            f >= 0,
                    ;
                }
            }
        }
    }
}

} // verus!
