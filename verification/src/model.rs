//! Mathematical model of assignments and their costs.
//!
//! An assignment of a square grid is a permutation of the row indices; its
//! cost is the sum of the entries it selects.  The solver's contracts are
//! stated over these definitions.

use vstd::prelude::*;
use crate::matrix::Matrix;

verus! {

/// `p` maps the row indices `0..n` injectively into the column indices `0..n`.
pub open spec fn is_perm(p: Seq<int>, n: int) -> bool {
    &&& p.len() == n
    &&& forall|i: int| 0 <= i < n ==> 0 <= #[trigger] p[i] < n
    &&& forall|i: int, k: int|
        0 <= i < n && 0 <= k < n && i != k ==> #[trigger] p[i] != #[trigger] p[k]
}

/// Sum of the entries selected by `p` in the first `k` rows of `m`.
pub open spec fn cost_upto(m: Matrix, p: Seq<int>, k: int) -> int
    decreases k,
{
    if k <= 0 {
        0
    } else {
        cost_upto(m, p, k - 1) + m.val(k - 1, p[k - 1])
    }
}

/// Total cost of the assignment `p` on the square matrix `m` of size `n`.
pub open spec fn assignment_cost(m: Matrix, p: Seq<int>, n: int) -> int {
    cost_upto(m, p, n)
}

/// `v` is the least cost over all assignments of the square matrix `m`.
pub open spec fn is_min_assignment(m: Matrix, n: int, v: int) -> bool {
    &&& exists|p: Seq<int>| is_perm(p, n) && assignment_cost(m, p, n) == v
    &&& forall|p: Seq<int>| is_perm(p, n) ==> assignment_cost(m, p, n) >= v
}

/// `v` is the greatest cost over all assignments of the square matrix `m`.
pub open spec fn is_max_assignment(m: Matrix, n: int, v: int) -> bool {
    &&& exists|p: Seq<int>| is_perm(p, n) && assignment_cost(m, p, n) == v
    &&& forall|p: Seq<int>| is_perm(p, n) ==> assignment_cost(m, p, n) <= v
}

/// `v` is the least entry of row `i` of `m`.
pub open spec fn is_row_min(m: Matrix, i: int, v: int) -> bool {
    &&& forall|j: int| 0 <= j < m.columns ==> #[trigger] m.val(i, j) >= v
    &&& exists|j: int| 0 <= j < m.columns && #[trigger] m.val(i, j) == v
}

/// `v` is the least entry of column `j` of `m`.
pub open spec fn is_col_min(m: Matrix, j: int, v: int) -> bool {
    &&& forall|i: int| 0 <= i < m.rows ==> #[trigger] m.val(i, j) >= v
    &&& exists|i: int| 0 <= i < m.rows && #[trigger] m.val(i, j) == v
}

/// `v` is the least value of `m.val(i, j) - u[i]` over the rows `i`: the
/// least entry of column `j` after the rows were reduced by `u`.
pub open spec fn is_reduced_col_min(m: Matrix, u: Seq<int>, j: int, v: int) -> bool {
    &&& forall|i: int| 0 <= i < m.rows ==> #[trigger] m.val(i, j) - u[i] >= v
    &&& exists|i: int| 0 <= i < m.rows && #[trigger] m.val(i, j) - u[i] == v
}

/// `r` is `m` with `u[i]` subtracted from every row `i` and then `v[j]`
/// subtracted from every column `j`, where `u[i]` is the least entry of row
/// `i` of `m` and `v[j]` is the least entry of column `j` of the row-reduced
/// grid.  This determines `r` uniquely from `m`.
pub open spec fn reduced_exact(m: Matrix, r: Matrix, u: Seq<int>, v: Seq<int>) -> bool {
    &&& u.len() == m.rows
    &&& v.len() == m.columns
    &&& forall|i: int| 0 <= i < m.rows ==> is_row_min(m, i, #[trigger] u[i])
    &&& forall|j: int| 0 <= j < m.columns ==> is_reduced_col_min(m, u, j, #[trigger] v[j])
    &&& forall|i: int, j: int|
        0 <= i < m.rows && 0 <= j < m.columns
            ==> #[trigger] r.val(i, j) == m.val(i, j) - u[i] - v[j]
}

/// Row `i` of `m` contains a zero.
pub open spec fn row_has_zero(m: Matrix, i: int) -> bool {
    exists|j: int| 0 <= j < m.columns && #[trigger] m.val(i, j) == 0
}

/// Column `j` of `m` contains a zero.
pub open spec fn col_has_zero(m: Matrix, j: int) -> bool {
    exists|i: int| 0 <= i < m.rows && #[trigger] m.val(i, j) == 0
}

/// The crossing list marks row `i` as covered.
pub open spec fn crossed_row(cr: Seq<(usize, char)>, i: int) -> bool {
    cr.contains(((i as usize), 'R'))
}

/// The crossing list marks column `j` as covered.
pub open spec fn crossed_col(cr: Seq<(usize, char)>, j: int) -> bool {
    cr.contains(((j as usize), 'C'))
}

/// The cell `(i, j)` is covered by no line of the crossing list.
pub open spec fn uncovered(cr: Seq<(usize, char)>, i: int, j: int) -> bool {
    !crossed_row(cr, i) && !crossed_col(cr, j)
}

/// `d` is the least entry of `m` over the uncovered cells.
pub open spec fn uncovered_min(m: Matrix, cr: Seq<(usize, char)>, d: int) -> bool {
    &&& exists|i: int, j: int|
        0 <= i < m.rows && 0 <= j < m.columns && uncovered(cr, i, j)
            && #[trigger] m.val(i, j) == d
    &&& forall|i: int, j: int|
        0 <= i < m.rows && 0 <= j < m.columns && uncovered(cr, i, j)
            ==> #[trigger] m.val(i, j) >= d
}

/// `r` is `m` with `d` added to every doubly covered cell and `d` subtracted
/// from every uncovered cell; cells covered by exactly one line are kept.
pub open spec fn cell_update(m: Matrix, r: Matrix, cr: Seq<(usize, char)>, d: int) -> bool {
    forall|i: int, j: int|
        0 <= i < m.rows && 0 <= j < m.columns ==> #[trigger] r.val(i, j) == (
        if crossed_row(cr, i) && crossed_col(cr, j) {
            m.val(i, j) + d
        } else if !crossed_row(cr, i) && !crossed_col(cr, j) {
            m.val(i, j) - d
        } else {
            m.val(i, j)
        })
}

/// Sum of the first `k` entries of row `i`.
pub open spec fn sum_row_upto(m: Matrix, i: int, k: int) -> int
    decreases k,
{
    if k <= 0 {
        0
    } else {
        sum_row_upto(m, i, k - 1) + m.val(i, k - 1)
    }
}

/// Sum of the full rows `0..k`.
pub open spec fn sum_upto(m: Matrix, k: int) -> int
    decreases k,
{
    if k <= 0 {
        0
    } else {
        sum_upto(m, k - 1) + sum_row_upto(m, k - 1, m.columns as int)
    }
}

/// Sum of every entry of `m`.
pub open spec fn grid_sum(m: Matrix) -> int {
    sum_upto(m, m.rows as int)
}

/// Number of covered rows with index below `k`.
pub open spec fn count_rows_crossed(cr: Seq<(usize, char)>, k: int) -> int
    decreases k,
{
    if k <= 0 {
        0
    } else {
        count_rows_crossed(cr, k - 1) + if crossed_row(cr, k - 1) { 1int } else { 0int }
    }
}

/// Number of covered columns with index below `k`.
pub open spec fn count_cols_crossed(cr: Seq<(usize, char)>, k: int) -> int
    decreases k,
{
    if k <= 0 {
        0
    } else {
        count_cols_crossed(cr, k - 1) + if crossed_col(cr, k - 1) { 1int } else { 0int }
    }
}

/// A dual update changes the grid total by `d` for each doubly covered cell
/// and by `-d` for each uncovered cell.
pub proof fn lemma_update_row_sum(m: Matrix, r: Matrix, cr: Seq<(usize, char)>, d: int, i: int, k: int)
    requires
        m.rows == r.rows,
        m.columns == r.columns,
        cell_update(m, r, cr, d),
        0 <= i < m.rows,
        0 <= k <= m.columns,
    ensures
        crossed_row(cr, i) ==> sum_row_upto(r, i, k)
            == sum_row_upto(m, i, k) + d * count_cols_crossed(cr, k),
        !crossed_row(cr, i) ==> sum_row_upto(r, i, k)
            == sum_row_upto(m, i, k) - d * (k - count_cols_crossed(cr, k)),
    decreases k,
{
    if k > 0 {
        lemma_update_row_sum(m, r, cr, d, i, k - 1);
        let c0 = count_cols_crossed(cr, k - 1);
        assert(d * (c0 + 1) == d * c0 + d) by (nonlinear_arith);
        assert(d * ((k - 1) - c0 + 1) == d * ((k - 1) - c0) + d) by (nonlinear_arith);
        assert(r.val(i, k - 1) == {
            if crossed_row(cr, i) && crossed_col(cr, k - 1) {
                m.val(i, k - 1) + d
            } else if !crossed_row(cr, i) && !crossed_col(cr, k - 1) {
                m.val(i, k - 1) - d
            } else {
                m.val(i, k - 1)
            }
        });
    }
}

/// Summing the per-row changes over the rows `0..k`.
pub proof fn lemma_update_sum_upto(m: Matrix, r: Matrix, cr: Seq<(usize, char)>, d: int, k: int)
    requires
        m.rows == r.rows,
        m.columns == r.columns,
        cell_update(m, r, cr, d),
        0 <= k <= m.rows,
    ensures
        sum_upto(r, k) == sum_upto(m, k)
            + d * count_rows_crossed(cr, k) * count_cols_crossed(cr, m.columns as int)
            - d * (k - count_rows_crossed(cr, k))
                * (m.columns as int - count_cols_crossed(cr, m.columns as int)),
    decreases k,
{
    let cols = m.columns as int;
    let cc = count_cols_crossed(cr, cols);
    if k > 0 {
        lemma_update_sum_upto(m, r, cr, d, k - 1);
        lemma_update_row_sum(m, r, cr, d, k - 1, cols);
        let r0 = count_rows_crossed(cr, k - 1);
        let r1 = count_rows_crossed(cr, k);
        assert(sum_upto(r, k) == sum_upto(r, k - 1) + sum_row_upto(r, k - 1, cols));
        assert(sum_upto(m, k) == sum_upto(m, k - 1) + sum_row_upto(m, k - 1, cols));
        if crossed_row(cr, k - 1) {
            assert(r1 == r0 + 1);
            assert(sum_row_upto(r, k - 1, cols) == sum_row_upto(m, k - 1, cols) + d * cc);
            assert(d * r1 * cc == d * r0 * cc + d * cc) by (nonlinear_arith)
                requires
                    r1 == r0 + 1,
            ;
            assert(d * ((k - 1) - r0) * (cols - cc) == d * (k - r1) * (cols - cc))
                by (nonlinear_arith)
                requires
                    r1 == r0 + 1,
            ;
        } else {
            assert(r1 == r0);
            assert(sum_row_upto(r, k - 1, cols) == sum_row_upto(m, k - 1, cols)
                - d * (cols - cc));
            assert(d * ((k - 1) - r0) * (cols - cc) + d * (cols - cc)
                == d * (k - r1) * (cols - cc)) by (nonlinear_arith)
                requires
                    r1 == r0,
            ;
        }
        assert(sum_upto(r, k) == sum_upto(m, k) + d * r1 * cc - d * (k - r1) * (cols - cc));
    } else {
        assert(count_rows_crossed(cr, 0) == 0);
        assert(d * count_rows_crossed(cr, k) * cc == 0) by (nonlinear_arith)
            requires
                count_rows_crossed(cr, k) == 0,
        ;
        assert(d * (k - count_rows_crossed(cr, k)) * (cols - cc) == 0) by (nonlinear_arith)
            requires
                count_rows_crossed(cr, k) == 0,
                k == 0,
        ;
    }
}

/// With fewer covering lines than rows, a positive dual update strictly
/// lowers the grid total.
pub proof fn lemma_update_sum_decreases(m: Matrix, r: Matrix, cr: Seq<(usize, char)>, d: int)
    requires
        m.rows == r.rows,
        m.columns == r.columns,
        m.rows == m.columns,
        cell_update(m, r, cr, d),
        d >= 1,
        count_rows_crossed(cr, m.rows as int) + count_cols_crossed(cr, m.columns as int)
            < m.rows as int,
    ensures
        grid_sum(r) <= grid_sum(m) - d,
{
    let n = m.rows as int;
    let rr = count_rows_crossed(cr, n);
    let cc = count_cols_crossed(cr, n);
    lemma_update_sum_upto(m, r, cr, d, n);
    lemma_count_rows_bounds(cr, n);
    lemma_count_cols_bounds(cr, n);
    assert(d * rr * cc - d * (n - rr) * (n - cc) <= -d) by (nonlinear_arith)
        requires
            0 <= rr,
            0 <= cc,
            rr + cc < n,
            d >= 1,
    ;
}

/// The row count lies between `0` and `k`.
pub proof fn lemma_count_rows_bounds(cr: Seq<(usize, char)>, k: int)
    requires
        k >= 0,
    ensures
        0 <= count_rows_crossed(cr, k) <= k,
    decreases k,
{
    if k > 0 {
        lemma_count_rows_bounds(cr, k - 1);
    }
}

/// The column count lies between `0` and `k`.
pub proof fn lemma_count_cols_bounds(cr: Seq<(usize, char)>, k: int)
    requires
        k >= 0,
    ensures
        0 <= count_cols_crossed(cr, k) <= k,
    decreases k,
{
    if k > 0 {
        lemma_count_cols_bounds(cr, k - 1);
    }
}

/// Every listed cell lies inside the `n` by `n` grid.
pub open spec fn pairs_wf(s: Seq<(usize, usize)>, n: int) -> bool {
    forall|k: int| 0 <= k < s.len() ==> (#[trigger] s[k]).0 < n && s[k].1 < n
}

/// No two listed cells share a row.
pub open spec fn distinct_rows(s: Seq<(usize, usize)>) -> bool {
    forall|k1: int, k2: int|
        0 <= k1 < k2 < s.len() ==> (#[trigger] s[k1]).0 != (#[trigger] s[k2]).0
}

/// No two listed cells share a column.
pub open spec fn distinct_cols(s: Seq<(usize, usize)>) -> bool {
    forall|k1: int, k2: int|
        0 <= k1 < k2 < s.len() ==> (#[trigger] s[k1]).1 != (#[trigger] s[k2]).1
}

/// Every listed cell holds a zero of `m`.
pub open spec fn zero_cells(m: Matrix, s: Seq<(usize, usize)>) -> bool {
    forall|k: int|
        0 <= k < s.len() ==> m.val((#[trigger] s[k]).0 as int, s[k].1 as int) == 0
}

/// Some listed cell lies in row `r`.
pub open spec fn row_has_pair(s: Seq<(usize, usize)>, r: int) -> bool {
    exists|k: int| 0 <= k < s.len() && (#[trigger] s[k]).0 as int == r
}

/// Some listed cell lies in column `c`.
pub open spec fn col_has_pair(s: Seq<(usize, usize)>, c: int) -> bool {
    exists|k: int| 0 <= k < s.len() && (#[trigger] s[k]).1 as int == c
}

/// The listed cell `(r, c)` is present.
pub open spec fn has_pair_at(s: Seq<(usize, usize)>, r: int, c: int) -> bool {
    exists|k: int| 0 <= k < s.len() && (#[trigger] s[k]).0 as int == r && s[k].1 as int == c
}

/// Number of `true` flags below index `k`.
pub open spec fn count_true(s: Seq<bool>, k: int) -> int
    decreases k,
{
    if k <= 0 {
        0
    } else {
        count_true(s, k - 1) + if s[k - 1] { 1int } else { 0int }
    }
}

/// Updating one flag changes the count by the difference at that index.
pub proof fn lemma_count_true_update(s: Seq<bool>, i: int, v: bool, k: int)
    requires
        0 <= i < s.len(),
        0 <= k <= s.len(),
    ensures
        count_true(s.update(i, v), k) == count_true(s, k) + (
        if i < k {
            (if v { 1int } else { 0int }) - (if s[i] { 1int } else { 0int })
        } else {
            0int
        }),
    decreases k,
{
    if k > 0 {
        lemma_count_true_update(s, i, v, k - 1);
    }
}

/// The count of `true` flags lies between `0` and `k`.
pub proof fn lemma_count_true_bounds(s: Seq<bool>, k: int)
    requires
        k >= 0,
    ensures
        0 <= count_true(s, k) <= k,
    decreases k,
{
    if k > 0 {
        lemma_count_true_bounds(s, k - 1);
    }
}

/// A vector of clear flags counts zero.
pub proof fn lemma_count_true_all_false(s: Seq<bool>, k: int)
    requires
        0 <= k,
        forall|i: int| 0 <= i < k ==> !s[i],
    ensures
        count_true(s, k) == 0,
    decreases k,
{
    if k > 0 {
        lemma_count_true_all_false(s, k - 1);
    }
}

/// Counting covered rows through the crossing list agrees with counting
/// `true` flags through a matching flag vector.
pub proof fn lemma_count_rows_matches(cr: Seq<(usize, char)>, rb: Seq<bool>, k: int)
    requires
        0 <= k,
        forall|i: int| 0 <= i < k ==> crossed_row(cr, i) == rb[i],
    ensures
        count_rows_crossed(cr, k) == count_true(rb, k),
    decreases k,
{
    if k > 0 {
        lemma_count_rows_matches(cr, rb, k - 1);
    }
}

/// Counting covered columns through the crossing list agrees with counting
/// `true` flags through a matching flag vector.
pub proof fn lemma_count_cols_matches(cr: Seq<(usize, char)>, cb: Seq<bool>, k: int)
    requires
        0 <= k,
        forall|j: int| 0 <= j < k ==> crossed_col(cr, j) == cb[j],
    ensures
        count_cols_crossed(cr, k) == count_true(cb, k),
    decreases k,
{
    if k > 0 {
        lemma_count_cols_matches(cr, cb, k - 1);
    }
}

/// Cells with pairwise distinct rows inside an `n` by `n` grid number at
/// most `n`.
pub proof fn lemma_distinct_rows_len(s: Seq<(usize, usize)>, n: int)
    requires
        n >= 0,
        pairs_wf(s, n),
        distinct_rows(s),
    ensures
        s.len() <= n,
{
    let rows = s.map_values(|p: (usize, usize)| p.0 as int);
    assert(rows.no_duplicates());
    rows.unique_seq_to_set();
    assert forall|x: int| rows.to_set().contains(x)
        implies vstd::set_lib::set_int_range(0, n).contains(x) by {
        let k = choose|k: int| 0 <= k < rows.len() && rows[k] == x;
        assert(s[k].0 < n);
    }
    vstd::set_lib::lemma_int_range(0, n);
    vstd::set_lib::lemma_len_subset(rows.to_set(), vstd::set_lib::set_int_range(0, n));
}

/// If additionally some row below `n` has no cell, they number at most
/// `n - 1`.
pub proof fn lemma_distinct_rows_missing_len(s: Seq<(usize, usize)>, n: int, r: int)
    requires
        n >= 1,
        pairs_wf(s, n),
        distinct_rows(s),
        0 <= r < n,
        !row_has_pair(s, r),
    ensures
        s.len() <= n - 1,
{
    let rows = s.map_values(|p: (usize, usize)| p.0 as int);
    assert(rows.no_duplicates());
    rows.unique_seq_to_set();
    let range = vstd::set_lib::set_int_range(0, n).remove(r);
    assert forall|x: int| rows.to_set().contains(x) implies range.contains(x) by {
        let k = choose|k: int| 0 <= k < rows.len() && rows[k] == x;
        assert(s[k].0 < n);
        assert(s[k].0 as int != r);
    }
    vstd::set_lib::lemma_int_range(0, n);
    vstd::set_lib::lemma_len_subset(rows.to_set(), range);
}

/// Cells with `n` pairwise distinct rows inside an `n` by `n` grid fill
/// every row.
pub proof fn lemma_distinct_rows_complete(s: Seq<(usize, usize)>, n: int)
    requires
        n >= 0,
        pairs_wf(s, n),
        distinct_rows(s),
        s.len() == n,
    ensures
        forall|r: int| 0 <= r < n ==> row_has_pair(s, r),
{
    assert forall|r: int| 0 <= r < n implies row_has_pair(s, r) by {
        if !row_has_pair(s, r) {
            lemma_distinct_rows_missing_len(s, n, r);
        }
    }
}

/// Sum of the first `k` values.
pub open spec fn sum_seq(v: Seq<int>, k: int) -> int
    decreases k,
{
    if k <= 0 {
        0
    } else {
        sum_seq(v, k - 1) + v[k - 1]
    }
}

/// Sum of the values picked by the first `k` indices of `p`.
pub open spec fn sum_pick(v: Seq<int>, p: Seq<int>, k: int) -> int
    decreases k,
{
    if k <= 0 {
        0
    } else {
        sum_pick(v, p, k - 1) + v[p[k - 1]]
    }
}

/// Picking through index lists that agree gives equal sums.
pub proof fn lemma_sum_pick_congruent(v: Seq<int>, p1: Seq<int>, p2: Seq<int>, k: int)
    requires
        forall|i: int| 0 <= i < k ==> p1[i] == p2[i],
    ensures
        sum_pick(v, p1, k) == sum_pick(v, p2, k),
    decreases k,
{
    if k > 0 {
        lemma_sum_pick_congruent(v, p1, p2, k - 1);
    }
}

/// Removing one index from the list removes its value from the sum.
pub proof fn lemma_sum_pick_remove(v: Seq<int>, p: Seq<int>, k: int, i0: int)
    requires
        0 <= i0 < k <= p.len(),
    ensures
        sum_pick(v, p, k) == sum_pick(v, p.remove(i0), k - 1) + v[p[i0]],
    decreases k,
{
    let q = p.remove(i0);
    if k - 1 == i0 {
        lemma_sum_pick_congruent(v, p, q, k - 1);
    } else {
        lemma_sum_pick_remove(v, p, k - 1, i0);
        assert(q[k - 2] == p[k - 1]);
    }
}

/// A permutation of `0..n` takes every value below `n`.
pub proof fn lemma_perm_surjective(p: Seq<int>, n: int, c: int)
    requires
        is_perm(p, n),
        0 <= c < n,
    ensures
        exists|i: int| 0 <= i < n && p[i] == c,
{
    if !(exists|i: int| 0 <= i < n && p[i] == c) {
        assert(p.no_duplicates());
        p.unique_seq_to_set();
        let range = vstd::set_lib::set_int_range(0, n).remove(c);
        assert forall|x: int| p.to_set().contains(x) implies range.contains(x) by {
            let k = choose|k: int| 0 <= k < p.len() && p[k] == x;
            assert(0 <= p[k] < n);
            assert(p[k] != c);
        }
        vstd::set_lib::lemma_int_range(0, n);
        vstd::set_lib::lemma_len_subset(p.to_set(), range);
    }
}

/// Summing values through a permutation of their indices reorders the sum
/// without changing it.
pub proof fn lemma_sum_perm_reindex(v: Seq<int>, p: Seq<int>, n: int)
    requires
        is_perm(p, n),
        n <= v.len(),
    ensures
        sum_pick(v, p, n) == sum_seq(v, n),
    decreases n,
{
    if n > 0 {
        lemma_perm_surjective(p, n, n - 1);
        let i0 = choose|i: int| 0 <= i < n && p[i] == n - 1;
        let q = p.remove(i0);
        assert forall|i: int| 0 <= i < n - 1 implies 0 <= #[trigger] q[i] < n - 1 by {
            if i < i0 {
                assert(q[i] == p[i]);
                assert(p[i] != p[i0]);
            } else {
                assert(q[i] == p[i + 1]);
                assert(p[i + 1] != p[i0]);
            }
        }
        assert forall|i: int, k: int|
            0 <= i < n - 1 && 0 <= k < n - 1 && i != k
            implies #[trigger] q[i] != #[trigger] q[k] by {
            let pi: int = if i < i0 { i } else { i + 1 };
            let pk: int = if k < i0 { k } else { k + 1 };
            assert(q[i] == p[pi]);
            assert(q[k] == p[pk]);
        }
        assert(is_perm(q, n - 1));
        lemma_sum_perm_reindex(v, q, n - 1);
        lemma_sum_pick_remove(v, p, n, i0);
    }
}

/// Splitting the cost of an assignment on a dually shifted grid.
pub proof fn lemma_cost_dual_split(
    base: Matrix,
    work: Matrix,
    u: Seq<int>,
    v: Seq<int>,
    p: Seq<int>,
    k: int,
)
    requires
        base.rows == work.rows,
        base.columns == work.columns,
        base.rows == base.columns,
        forall|i: int, j: int|
            0 <= i < base.rows && 0 <= j < base.columns
                ==> #[trigger] work.val(i, j) == base.val(i, j) - u[i] - v[j],
        0 <= k <= base.rows,
        forall|i: int| 0 <= i < base.rows ==> 0 <= #[trigger] p[i] < base.columns,
    ensures
        cost_upto(base, p, k) == cost_upto(work, p, k) + sum_seq(u, k) + sum_pick(v, p, k),
    decreases k,
{
    if k > 0 {
        lemma_cost_dual_split(base, work, u, v, p, k - 1);
    }
}

/// The cost of any assignment on a non-negative grid is non-negative.
pub proof fn lemma_cost_nonneg(work: Matrix, p: Seq<int>, k: int)
    requires
        0 <= k <= work.rows,
        work.rows == work.columns,
        forall|i: int, j: int|
            0 <= i < work.rows && 0 <= j < work.columns ==> #[trigger] work.val(i, j) >= 0,
        forall|i: int| 0 <= i < work.rows ==> 0 <= #[trigger] p[i] < work.columns,
    ensures
        cost_upto(work, p, k) >= 0,
    decreases k,
{
    if k > 0 {
        lemma_cost_nonneg(work, p, k - 1);
    }
}

/// An assignment through cells that all hold zeros costs zero.
pub proof fn lemma_cost_zero_sel(work: Matrix, p: Seq<int>, k: int)
    requires
        0 <= k,
        forall|i: int| 0 <= i < k ==> work.val(i, #[trigger] p[i]) == 0,
    ensures
        cost_upto(work, p, k) == 0,
    decreases k,
{
    if k > 0 {
        lemma_cost_zero_sel(work, p, k - 1);
    }
}

/// Costs on a pointwise negated grid are the negated costs.
pub proof fn lemma_cost_negated(m: Matrix, nm: Matrix, p: Seq<int>, k: int)
    requires
        m.rows == nm.rows,
        m.columns == nm.columns,
        forall|i: int, j: int|
            0 <= i < m.rows && 0 <= j < m.columns ==> #[trigger] nm.val(i, j) == -m.val(i, j),
        0 <= k <= m.rows,
        forall|i: int| 0 <= i < m.rows ==> 0 <= #[trigger] p[i] < m.columns,
    ensures
        cost_upto(nm, p, k) == -cost_upto(m, p, k),
    decreases k,
{
    if k > 0 {
        lemma_cost_negated(m, nm, p, k - 1);
    }
}

/// The column assigned to row `r` by the cell list.
pub open spec fn pair_col(s: Seq<(usize, usize)>, r: int) -> int {
    let k = choose|k: int| 0 <= k < s.len() && (#[trigger] s[k]).0 as int == r;
    s[k].1 as int
}

/// The permutation encoded by the cell list, row by row.
pub open spec fn pairs_perm(s: Seq<(usize, usize)>, n: int) -> Seq<int> {
    Seq::new(n as nat, |r: int| pair_col(s, r))
}

/// A full list of cells with distinct rows and columns encodes a
/// permutation, and each listed cell agrees with it.
pub proof fn lemma_pairs_perm(s: Seq<(usize, usize)>, n: int)
    requires
        n >= 0,
        pairs_wf(s, n),
        distinct_rows(s),
        distinct_cols(s),
        s.len() == n,
    ensures
        is_perm(pairs_perm(s, n), n),
        forall|k: int|
            0 <= k < s.len()
                ==> pairs_perm(s, n)[(#[trigger] s[k]).0 as int] == s[k].1 as int,
{
    let p = pairs_perm(s, n);
    lemma_distinct_rows_complete(s, n);
    assert forall|k: int|
        0 <= k < s.len()
        implies p[(#[trigger] s[k]).0 as int] == s[k].1 as int by {
        let r = s[k].0 as int;
        assert(s[k].0 as int == r);
        let k2 = choose|k2: int| 0 <= k2 < s.len() && (#[trigger] s[k2]).0 as int == r;
        assert(k2 == k);
    }
    assert forall|r: int| 0 <= r < n implies 0 <= #[trigger] p[r] < n by {
        assert(row_has_pair(s, r));
        let k2 = choose|k2: int| 0 <= k2 < s.len() && (#[trigger] s[k2]).0 as int == r;
        assert(s[k2].1 < n);
    }
    assert forall|r1: int, r2: int|
        0 <= r1 < n && 0 <= r2 < n && r1 != r2
        implies #[trigger] p[r1] != #[trigger] p[r2] by {
        assert(row_has_pair(s, r1));
        assert(row_has_pair(s, r2));
        let k1 = choose|k1: int| 0 <= k1 < s.len() && (#[trigger] s[k1]).0 as int == r1;
        let k2 = choose|k2: int| 0 <= k2 < s.len() && (#[trigger] s[k2]).0 as int == r2;
        assert(k1 != k2);
        assert(s[k1].1 != s[k2].1);
    }
}

/// A grid of bounded non-negative entries has a bounded total, in the scaled
/// form `total * f <= rows * cols * cap` where every `entry * f <= cap`.
pub proof fn lemma_grid_sum_scaled_bound(m: Matrix, f: int, cap: int, k: int)
    requires
        m.wf(),
        f >= 1,
        cap >= 0,
        0 <= k <= m.rows,
        forall|i: int, j: int|
            0 <= i < m.rows && 0 <= j < m.columns
                ==> 0 <= #[trigger] m.val(i, j) && m.val(i, j) * f <= cap,
    ensures
        0 <= sum_upto(m, k),
        sum_upto(m, k) * f <= k * (m.columns as int) * cap,
    decreases k,
{
    let cols = m.columns as int;
    if k > 0 {
        lemma_grid_sum_scaled_bound(m, f, cap, k - 1);
        lemma_row_sum_scaled_bound(m, f, cap, k - 1, cols);
        let a = sum_upto(m, k);
        let b = sum_upto(m, k - 1);
        let c = sum_row_upto(m, k - 1, cols);
        assert(a == b + c);
        assert(a * f <= k * cols * cap) by (nonlinear_arith)
            requires
                a == b + c,
                b * f <= (k - 1) * cols * cap,
                c * f <= cols * cap,
                f >= 1,
                cap >= 0,
                cols >= 0,
        ;
    } else {
        assert(sum_upto(m, k) * f == 0) by (nonlinear_arith)
            requires
                sum_upto(m, k) == 0,
        ;
        assert(k * cols * cap >= 0) by (nonlinear_arith)
            requires
                k == 0,
        ;
    }
}

/// Row version of the scaled sum bound.
pub proof fn lemma_row_sum_scaled_bound(m: Matrix, f: int, cap: int, i: int, k: int)
    requires
        m.wf(),
        f >= 1,
        cap >= 0,
        0 <= i < m.rows,
        0 <= k <= m.columns,
        forall|i2: int, j: int|
            0 <= i2 < m.rows && 0 <= j < m.columns
                ==> 0 <= #[trigger] m.val(i2, j) && m.val(i2, j) * f <= cap,
    ensures
        0 <= sum_row_upto(m, i, k),
        sum_row_upto(m, i, k) * f <= k * cap,
    decreases k,
{
    if k > 0 {
        lemma_row_sum_scaled_bound(m, f, cap, i, k - 1);
        let a = sum_row_upto(m, i, k);
        let b = sum_row_upto(m, i, k - 1);
        let c = m.val(i, k - 1);
        assert(a == b + c);
        assert(a * f <= k * cap) by (nonlinear_arith)
            requires
                a == b + c,
                b * f <= (k - 1) * cap,
                c * f <= cap,
                f >= 1,
                cap >= 0,
        ;
    } else {
        assert(sum_row_upto(m, i, k) * f == 0) by (nonlinear_arith)
            requires
                sum_row_upto(m, i, k) == 0,
        ;
    }
}

/// A non-negative grid has a non-negative total.
pub proof fn lemma_grid_sum_nonneg(m: Matrix, k: int)
    requires
        m.wf(),
        0 <= k <= m.rows,
        forall|i: int, j: int|
            0 <= i < m.rows && 0 <= j < m.columns ==> #[trigger] m.val(i, j) >= 0,
    ensures
        sum_upto(m, k) >= 0,
    decreases k,
{
    if k > 0 {
        lemma_grid_sum_nonneg(m, k - 1);
        lemma_row_sum_nonneg(m, k - 1, m.columns as int);
    }
}

/// A non-negative row has a non-negative partial sum.
pub proof fn lemma_row_sum_nonneg(m: Matrix, i: int, k: int)
    requires
        m.wf(),
        0 <= i < m.rows,
        0 <= k <= m.columns,
        forall|i2: int, j: int|
            0 <= i2 < m.rows && 0 <= j < m.columns ==> #[trigger] m.val(i2, j) >= 0,
    ensures
        sum_row_upto(m, i, k) >= 0,
    decreases k,
{
    if k > 0 {
        lemma_row_sum_nonneg(m, i, k - 1);
    }
}

/// Assignments cost the same on grids that agree pointwise.
pub proof fn lemma_cost_pointwise_eq(m1: Matrix, m2: Matrix, p: Seq<int>, k: int)
    requires
        m1.rows == m2.rows,
        m1.columns == m2.columns,
        forall|i: int, j: int|
            0 <= i < m1.rows && 0 <= j < m1.columns ==> #[trigger] m1.val(i, j) == m2.val(i, j),
        0 <= k <= m1.rows,
        forall|i: int| 0 <= i < m1.rows ==> 0 <= #[trigger] p[i] < m1.columns,
    ensures
        cost_upto(m1, p, k) == cost_upto(m2, p, k),
    decreases k,
{
    if k > 0 {
        lemma_cost_pointwise_eq(m1, m2, p, k - 1);
    }
}

/// From a scaled bound `|t * f| <= n * cap` with `f >= 8 * n` follows the
/// direct bound `|8 * t| <= cap`.
pub proof fn lemma_scaled_small(t: int, f: int, n: int, cap: int)
    requires
        -(n * cap) <= t * f,
        t * f <= n * cap,
        f >= 8 * n,
        n >= 1,
        cap >= 0,
    ensures
        -cap <= 8 * t <= cap,
{
    assert(-cap <= 8 * t <= cap) by (nonlinear_arith)
        requires
            -(n * cap) <= t * f,
            t * f <= n * cap,
            f >= 8 * n,
            n >= 1,
            cap >= 0,
    ;
}

/// Inputs the solver accepts: a non-empty square grid whose entries are
/// small enough, relative to its size, for the whole computation to stay
/// within machine integers.
pub open spec fn solve_input_ok(m: Matrix) -> bool {
    let n = m.rows as int;
    &&& m.wf()
    &&& m.rows == m.columns
    &&& m.rows >= 1
    &&& forall|i: int, j: int|
        0 <= i < m.rows && 0 <= j < m.columns
            ==> -0x3fff_ffff <= #[trigger] m.val(i, j) <= 0x3fff_ffff
                && m.val(i, j) * (8 * n * n + 8) <= 0x3fff_ffff
                && -(m.val(i, j) * (8 * n * n + 8)) <= 0x3fff_ffff
}

/// If not every row below `n` is covered, some row below `n` is uncovered.
pub proof fn lemma_some_row_uncovered(cr: Seq<(usize, char)>, n: int)
    requires
        n >= 1,
        count_rows_crossed(cr, n) < n,
    ensures
        exists|i: int| 0 <= i < n && !crossed_row(cr, i),
    decreases n,
{
    if crossed_row(cr, n - 1) {
        lemma_count_rows_bounds(cr, n - 1);
        lemma_some_row_uncovered(cr, n - 1);
    } else {
        assert(0 <= n - 1 < n && !crossed_row(cr, n - 1));
    }
}

/// If not every column below `n` is covered, some column below `n` is
/// uncovered.
pub proof fn lemma_some_col_uncovered(cr: Seq<(usize, char)>, n: int)
    requires
        n >= 1,
        count_cols_crossed(cr, n) < n,
    ensures
        exists|j: int| 0 <= j < n && !crossed_col(cr, j),
    decreases n,
{
    if crossed_col(cr, n - 1) {
        lemma_count_cols_bounds(cr, n - 1);
        lemma_some_col_uncovered(cr, n - 1);
    } else {
        assert(0 <= n - 1 < n && !crossed_col(cr, n - 1));
    }
}

} // verus!
