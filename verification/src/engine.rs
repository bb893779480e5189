//! Matching engine: builds a maximum matching on the zero cells together
//! with a covering of all zeros by as many lines as the matching has cells.
//!
//! Zeros tentatively chosen for the matching are starred; zeros that witness
//! a possible improvement are primed.  When no uncovered zero remains, the
//! covered lines form the covering; otherwise an alternating path of primes
//! and stars grows the matching by one.

use vstd::prelude::*;
use crate::cover::Crossed;
use crate::matrix::Matrix;
use crate::model::col_has_pair;
use crate::model::count_cols_crossed;
use crate::model::count_rows_crossed;
use crate::model::count_true;
use crate::model::crossed_col;
use crate::model::crossed_row;
use crate::model::distinct_cols;
use crate::model::distinct_rows;
use crate::model::has_pair_at;
use crate::model::lemma_count_cols_matches;
use crate::model::lemma_count_rows_matches;
use crate::model::lemma_count_true_all_false;
use crate::model::lemma_count_true_update;
use crate::model::lemma_distinct_rows_len;
use crate::model::lemma_distinct_rows_missing_len;
use crate::model::pairs_wf;
use crate::model::row_has_pair;
use crate::model::zero_cells;
use crate::solver::MadarskaMetoda;

verus! {

broadcast use vstd::seq_lib::lemma_seq_contains_after_push;

/// Index of some listed cell in row `r`, if any.
pub(crate) fn find_pair_by_row(pairs: &Vec<(usize, usize)>, r: usize) -> (res: Option<usize>)
    ensures
        match res {
            Some(k) => k < pairs@.len() && pairs@[k as int].0 == r,
            None => !row_has_pair(pairs@, r as int),
        },
{
    for k in 0..pairs.len()
        invariant
            forall|t: int| 0 <= t < k ==> (#[trigger] pairs@[t]).0 != r,
    {
        if pairs[k].0 == r {
            return Some(k);
        }
    }
    None
}

/// Index of some listed cell in column `c`, if any.
fn find_pair_by_col(pairs: &Vec<(usize, usize)>, c: usize) -> (res: Option<usize>)
    ensures
        match res {
            Some(k) => k < pairs@.len() && pairs@[k as int].1 == c,
            None => !col_has_pair(pairs@, c as int),
        },
{
    for k in 0..pairs.len()
        invariant
            forall|t: int| 0 <= t < k ==> (#[trigger] pairs@[t]).1 != c,
    {
        if pairs[k].1 == c {
            return Some(k);
        }
    }
    None
}

/// Some zero cell whose row and column flags are both clear, if any.
fn find_uncovered_zero(matrix: &Matrix, rcov: &Vec<bool>, ccov: &Vec<bool>) -> (res: Option<
    (usize, usize)>)
    requires
        matrix.wf(),
        rcov@.len() == matrix.rows,
        ccov@.len() == matrix.columns,
    ensures
        match res {
            Some(rc) => {
                &&& rc.0 < matrix.rows
                &&& rc.1 < matrix.columns
                &&& !rcov@[rc.0 as int]
                &&& !ccov@[rc.1 as int]
                &&& matrix.val(rc.0 as int, rc.1 as int) == 0
            },
            None => forall|i: int, j: int|
                0 <= i < matrix.rows && 0 <= j < matrix.columns && !rcov@[i] && !ccov@[j]
                    ==> #[trigger] matrix.val(i, j) != 0,
        },
{
    for i in 0..matrix.rows
        invariant
            matrix.wf(),
            rcov@.len() == matrix.rows,
            ccov@.len() == matrix.columns,
            forall|a: int, b: int|
                0 <= a < i && 0 <= b < matrix.columns && !rcov@[a] && !ccov@[b]
                    ==> #[trigger] matrix.val(a, b) != 0,
    {
        if !rcov[i] {
            for j in 0..matrix.columns
                invariant
                    matrix.wf(),
                    rcov@.len() == matrix.rows,
                    ccov@.len() == matrix.columns,
                    i < matrix.rows,
                    !rcov@[i as int],
                    forall|a: int, b: int|
                        0 <= a < matrix.rows && 0 <= b < matrix.columns && !rcov@[a] && !ccov@[b]
                            && (a < i || (a == i && b < j))
                            ==> #[trigger] matrix.val(a, b) != 0,
            {
                if !ccov[j] && matrix.matrix[i][j] == 0 {
                    return Some((i, j));
                }
            }
        }
    }
    None
}

/// A vector of `n` clear flags.
fn make_flags(n: usize) -> (r: Vec<bool>)
    ensures
        r@.len() == n,
        forall|i: int| 0 <= i < n ==> !#[trigger] r@[i],
{
    let mut flags: Vec<bool> = Vec::new();
    for _i in 0..n
        invariant
            flags@.len() == _i,
            forall|i: int| 0 <= i < _i ==> !#[trigger] flags@[i],
    {
        flags.push(false);
    }
    flags
}

/// Every prime whose column holds a star was preceded by a prime in that
/// star's row: columns are uncovered before any zero in them is primed, and
/// a starred column is uncovered exactly when its star's row gets primed.
pub(crate) open spec fn primed_before(primes: Seq<(usize, usize)>, t: int, r: int) -> bool {
    exists|t2: int| 0 <= t2 < t && (#[trigger] primes[t2]).0 as int == r
}

/// The creation-order discipline of primes relative to the fixed stars.
pub(crate) open spec fn primes_ordered(stars: Seq<(usize, usize)>, primes: Seq<(usize, usize)>) -> bool {
    forall|t: int, k: int|
        0 <= t < primes.len() && 0 <= k < stars.len()
            && (#[trigger] primes[t]).1 == (#[trigger] stars[k]).1
            ==> primed_before(primes, t, stars[k].0 as int)
}

/// Swaps the matching along the alternating path that starts at the last
/// prime, whose row is starless.  The result has one star more.
#[verifier::loop_isolation(false)]
fn augment(matrix: &Matrix, stars: Vec<(usize, usize)>, primes: &Vec<(usize, usize)>) -> (res: Vec<
    (usize, usize)>)
    requires
        matrix.wf(),
        matrix.rows == matrix.columns,
        pairs_wf(stars@, matrix.rows as int),
        distinct_rows(stars@),
        distinct_cols(stars@),
        zero_cells(*matrix, stars@),
        pairs_wf(primes@, matrix.rows as int),
        distinct_rows(primes@),
        zero_cells(*matrix, primes@),
        primes@.len() >= 1,
        forall|t: int|
            0 <= t < primes@.len() - 1
                ==> row_has_pair(stars@, (#[trigger] primes@[t]).0 as int),
        !row_has_pair(stars@, primes@[primes@.len() - 1].0 as int),
        primes_ordered(stars@, primes@),
    ensures
        res@.len() == stars@.len() + 1,
        pairs_wf(res@, matrix.rows as int),
        distinct_rows(res@),
        distinct_cols(res@),
        zero_cells(*matrix, res@),
{
    let n = matrix.rows;
    let ghost stars0 = stars@;
    let origin = primes[primes.len() - 1];

    // Collect the primes of the alternating path.  Each one was created
    // before its predecessor, so the walk cannot revisit a column.
    let mut path: Vec<(usize, usize)> = Vec::new();
    path.push(origin);
    let ghost mut idxs: Seq<int> = seq![primes@.len() - 1];
    let mut done = false;
    while !done
        invariant
            1 <= path@.len(),
            idxs.len() == path@.len(),
            forall|m: int|
                0 <= m < path@.len()
                    ==> 0 <= #[trigger] idxs[m] < primes@.len()
                        && primes@[idxs[m]] == path@[m],
            forall|m1: int, m2: int|
                0 <= m1 < m2 < path@.len() ==> #[trigger] idxs[m1] > #[trigger] idxs[m2],
            path@[0] == primes@[primes@.len() - 1],
            forall|m: int|
                0 <= m < path@.len() - 1
                    ==> has_pair_at(
                        stars@,
                        (#[trigger] path@[m + 1]).0 as int,
                        path@[m].1 as int,
                    ),
            distinct_cols(path@),
            done ==> !col_has_pair(stars@, path@[path@.len() - 1].1 as int),
        decreases (if done { 0int } else { 1int }), idxs[path@.len() - 1],
    {
        let lastc = path[path.len() - 1].1;
        let ghost tl = idxs[path@.len() - 1];
        match find_pair_by_col(&stars, lastc) {
            None => {
                done = true;
            },
            Some(k) => {
                let sr = stars[k].0;
                proof {
                    // The star's row was primed earlier than the last prime.
                    assert(primes@[tl].1 == stars@[k as int].1);
                    assert(primed_before(primes@, tl, sr as int));
                }
                match find_pair_by_row(primes, sr) {
                    Some(t2) => {
                        let next = primes[t2];
                        path.push(next);
                        proof {
                            let l = path@.len() - 1;  // index of the new element
                            // The prime in row `sr` is unique, and earlier.
                            let t3 = choose|t3: int|
                                0 <= t3 < tl && (#[trigger] primes@[t3]).0 as int == sr as int;
                            assert(primes@[t2 as int].0 == sr);
                            assert(t3 == t2 as int);
                            idxs = idxs.push(t2 as int);
                            assert(idxs[l] == t2 as int);
                            assert(idxs[l - 1] == tl);
                            // The new column is fresh: a clash would need a
                            // prime in the clashing column's star's row both
                            // before and after an existing path member.
                            assert forall|m1: int| 0 <= m1 < l
                                implies (#[trigger] path@[m1]).1 != path@[l].1 by {
                                if path@[m1].1 == path@[l].1 {
                                    if m1 == l - 1 {
                                        assert(stars@[k as int].1 == primes@[t2 as int].1);
                                        let t4 = choose|t4: int|
                                            0 <= t4 < t2 as int
                                                && (#[trigger] primes@[t4]).0 as int == sr as int;
                                        assert(primes@[t4].0 == primes@[t2 as int].0);
                                    } else {
                                        assert(has_pair_at(
                                            stars@,
                                            path@[m1 + 1].0 as int,
                                            path@[m1].1 as int,
                                        ));
                                        let k2 = choose|k2: int|
                                            0 <= k2 < stars@.len()
                                                && (#[trigger] stars@[k2]).0 as int
                                                    == path@[m1 + 1].0 as int
                                                && stars@[k2].1 as int == path@[m1].1 as int;
                                        assert(primes@[t2 as int].1 == stars@[k2].1);
                                        assert(primed_before(primes@, t2 as int, stars@[k2].0 as int));
                                        let t5 = choose|t5: int|
                                            0 <= t5 < t2 as int
                                                && (#[trigger] primes@[t5]).0 as int
                                                    == path@[m1 + 1].0 as int;
                                        assert(primes@[idxs[m1 + 1]].0 == path@[m1 + 1].0);
                                        assert(t5 == idxs[m1 + 1]);
                                        assert(idxs[m1 + 1] >= idxs[l - 1]);
                                    }
                                }
                            }
                            assert(has_pair_at(stars@, next.0 as int, lastc as int));
                        }
                    },
                    None => {
                        proof {
                            let t3 = choose|t3: int|
                                0 <= t3 < tl && (#[trigger] primes@[t3]).0 as int == sr as int;
                            assert(row_has_pair(primes@, sr as int));
                            assert(false);
                        }
                        vstd::pervasive::unreached()
                    },
                }
            },
        }
    }

    proof {
        // Path primes occupy pairwise distinct rows.
        assert forall|m1: int, m2: int| 0 <= m1 < m2 < path@.len()
            implies (#[trigger] path@[m1]).0 != (#[trigger] path@[m2]).0 by {
            assert(primes@[idxs[m1]] == path@[m1]);
            assert(primes@[idxs[m2]] == path@[m2]);
        }
    }

    // Swap stars and primes along the path: the star in each path column
    // moves to the path prime of that column; the final prime is new.
    let mut new_stars = stars;
    let last = path.len() - 1;
    proof {
        assert forall|k: int, q: int|
            0 <= k < new_stars@.len() && 0 <= q < path@.len()
                && (#[trigger] new_stars@[k]).0 as int == (#[trigger] path@[q]).0 as int
            implies q >= 1 && new_stars@[k].1 as int == path@[q - 1].1 as int by {
            if q == 0 {
                assert(row_has_pair(new_stars@, path@[0].0 as int));
            } else {
                assert(has_pair_at(new_stars@, path@[(q - 1) + 1].0 as int, path@[q - 1].1 as int));
                assert(has_pair_at(new_stars@, path@[q].0 as int, path@[q - 1].1 as int));
                let k2 = choose|k2: int|
                    0 <= k2 < new_stars@.len()
                        && (#[trigger] new_stars@[k2]).0 as int == path@[q].0 as int
                        && new_stars@[k2].1 as int == path@[q - 1].1 as int;
                assert(k2 == k);
            }
        }
    }
    for m in 0..last
        invariant
            last == path@.len() - 1,
            new_stars@.len() == stars0.len(),
            pairs_wf(new_stars@, n as int),
            distinct_rows(new_stars@),
            distinct_cols(new_stars@),
            zero_cells(*matrix, new_stars@),
            !row_has_pair(new_stars@, path@[m as int].0 as int),
            forall|q: int|
                m <= q < path@.len() - 1
                    ==> has_pair_at(
                        new_stars@,
                        (#[trigger] path@[q + 1]).0 as int,
                        path@[q].1 as int,
                    ),
            forall|k: int, q: int|
                0 <= k < new_stars@.len() && m <= q < path@.len()
                    && (#[trigger] new_stars@[k]).0 as int == (#[trigger] path@[q]).0 as int
                    ==> q >= 1 && new_stars@[k].1 as int == path@[q - 1].1 as int,
            forall|k: int|
                0 <= k < new_stars@.len()
                    ==> (#[trigger] new_stars@[k]).1 != path@[path@.len() - 1].1,
    {
        let target_col = path[m].1;
        match find_pair_by_col(&new_stars, target_col) {
            Some(k) => {
                proof {
                    assert(has_pair_at(new_stars@, path@[m as int + 1].0 as int,
                        path@[m as int].1 as int));
                    let k2 = choose|k2: int|
                        0 <= k2 < new_stars@.len()
                            && (#[trigger] new_stars@[k2]).0 as int == path@[m as int + 1].0 as int
                            && new_stars@[k2].1 as int == path@[m as int].1 as int;
                    assert(k2 == k as int);
                    assert(new_stars@[k as int] == (path@[m as int + 1].0, path@[m as int].1));
                }
                let ghost prev = new_stars@;
                new_stars.set(k, path[m]);
                proof {
                    let u = new_stars@;
                    let mi = m as int;
                    assert(u == prev.update(k as int, path@[mi]));
                    // The moved star is a prime of the path: in range, zero.
                    assert(primes@[idxs[mi]] == path@[mi]);
                    assert(path@[mi].0 < n && path@[mi].1 < n);
                    assert(matrix.val(path@[mi].0 as int, path@[mi].1 as int) == 0);
                    // No remaining star sits in the next path row.
                    assert forall|k3: int| 0 <= k3 < u.len()
                        implies (#[trigger] u[k3]).0 as int != path@[mi + 1].0 as int by {
                        if k3 != k as int {
                            assert(u[k3] == prev[k3]);
                            if u[k3].0 as int == path@[mi + 1].0 as int {
                                assert(prev[k3].1 as int == path@[mi].1 as int);
                                assert(prev[k as int].1 as int == path@[mi].1 as int);
                            }
                        }
                    }
                    // Later replacees are untouched: their columns differ.
                    assert forall|q: int| mi + 1 <= q < path@.len() - 1
                        implies has_pair_at(
                            u,
                            (#[trigger] path@[q + 1]).0 as int,
                            path@[q].1 as int,
                        ) by {
                        let kq = choose|kq: int|
                            0 <= kq < prev.len()
                                && (#[trigger] prev[kq]).0 as int == path@[q + 1].0 as int
                                && prev[kq].1 as int == path@[q].1 as int;
                        assert(path@[q].1 != path@[mi].1);
                        assert(kq != k as int);
                        assert(u[kq] == prev[kq]);
                    }
                    // Stars in later path rows keep their characterization.
                    assert forall|k3: int, q: int|
                        0 <= k3 < u.len() && mi + 1 <= q < path@.len()
                            && (#[trigger] u[k3]).0 as int == (#[trigger] path@[q]).0 as int
                        implies q >= 1 && u[k3].1 as int == path@[q - 1].1 as int by {
                        if k3 == k as int {
                            assert(path@[mi].0 != path@[q].0);
                            assert(false);
                        } else {
                            assert(u[k3] == prev[k3]);
                        }
                    }
                }
            },
            None => {
                proof {
                    assert(has_pair_at(new_stars@, path@[m as int + 1].0 as int,
                        path@[m as int].1 as int));
                    let k2 = choose|k2: int|
                        0 <= k2 < new_stars@.len()
                            && (#[trigger] new_stars@[k2]).0 as int == path@[m as int + 1].0 as int
                            && new_stars@[k2].1 as int == path@[m as int].1 as int;
                    assert(col_has_pair(new_stars@, path@[m as int].1 as int));
                    assert(false);
                }
                vstd::pervasive::unreached()
            },
        }
    }
    let tail = path[last];
    new_stars.push(tail);
    new_stars
}

/// Turns the two flag vectors into a crossing list: first the covered rows
/// in ascending order, then the covered columns.
#[verifier::loop_isolation(false)]
fn build_crossed(rcov: &Vec<bool>, ccov: &Vec<bool>) -> (cr: Crossed)
    ensures
        forall|i: int| 0 <= i < rcov@.len() ==> crossed_row(cr@, i) == rcov@[i],
        forall|j: int| 0 <= j < ccov@.len() ==> crossed_col(cr@, j) == ccov@[j],
        cr@.len() == count_true(rcov@, rcov@.len() as int) + count_true(
            ccov@,
            ccov@.len() as int,
        ),
{
    let mut cr: Vec<(usize, char)> = Vec::new();
    let nr = rcov.len();
    let nc = ccov.len();
    for i in 0..nr
        invariant
            forall|t: int|
                0 <= t < cr@.len() ==> {
                    let e = #[trigger] cr@[t];
                    e.1 == 'R' && e.0 < i && rcov@[e.0 as int]
                },
            forall|a: int| 0 <= a < i ==> crossed_row(cr@, a) == rcov@[a],
            cr@.len() == count_true(rcov@, i as int),
    {
        if rcov[i] {
            cr.push((i, 'R'));
            assert(cr@[cr@.len() - 1] == (i, 'R'));
        }
        proof {
            assert forall|a: int| 0 <= a < i + 1 implies crossed_row(cr@, a) == rcov@[a] by {
                if crossed_row(cr@, a) {
                    let t = choose|t: int|
                        0 <= t < cr@.len() && cr@[t] == ((a as usize), 'R');
                    assert(rcov@[a]);
                }
            }
        }
    }
    let ghost rpart = cr@;
    for j in 0..nc
        invariant
            cr@.len() >= rpart.len(),
            forall|t: int| 0 <= t < rpart.len() ==> #[trigger] cr@[t] == rpart[t],
            forall|t: int|
                rpart.len() <= t < cr@.len() ==> {
                    let e = #[trigger] cr@[t];
                    e.1 == 'C' && e.0 < j && ccov@[e.0 as int]
                },
            forall|b: int| 0 <= b < j ==> crossed_col(cr@, b) == ccov@[b],
            cr@.len() == rpart.len() + count_true(ccov@, j as int),
    {
        if ccov[j] {
            cr.push((j, 'C'));
            assert(cr@[cr@.len() - 1] == (j, 'C'));
        }
        proof {
            assert forall|b: int| 0 <= b < j + 1 implies crossed_col(cr@, b) == ccov@[b] by {
                if crossed_col(cr@, b) {
                    let t = choose|t: int|
                        0 <= t < cr@.len() && cr@[t] == ((b as usize), 'C');
                    if t < rpart.len() {
                        assert(rpart[t].1 == 'R');
                    }
                    assert(ccov@[b]);
                }
            }
        }
    }
    proof {
        // The column pass added no row line, so row membership is kept.
        assert forall|a: int| 0 <= a < nr implies crossed_row(cr@, a) == rcov@[a] by {
            if crossed_row(cr@, a) {
                let t = choose|t: int| 0 <= t < cr@.len() && cr@[t] == ((a as usize), 'R');
                if t >= rpart.len() {
                    assert(cr@[t].1 == 'C');
                }
                assert(rpart[t] == ((a as usize), 'R'));
                assert(rpart.contains(((a as usize), 'R')));
                let t2 = choose|t2: int| 0 <= t2 < rpart.len() && rpart[t2] == ((a as usize), 'R');
                assert(cr@[t2] == ((a as usize), 'R'));
            } else {
                if rcov@[a] {
                    assert(crossed_row(rpart, a));
                    let t = choose|t: int| 0 <= t < rpart.len() && rpart[t] == ((a as usize), 'R');
                    assert(cr@[t] == ((a as usize), 'R'));
                }
            }
        }
    }
    cr
}

/// Column `c` holds a star whose row was never primed; such a column is
/// covered during the search for an augmenting path.
pub(crate) open spec fn col_star_unprimed(
    stars: Seq<(usize, usize)>,
    primes: Seq<(usize, usize)>,
    c: int,
) -> bool {
    exists|k: int|
        0 <= k < stars.len() && (#[trigger] stars[k]).1 as int == c
            && !row_has_pair(primes, stars[k].0 as int)
}

impl MadarskaMetoda {
    /// Seeds the matching: scans row-major and stars every zero whose row
    /// and column hold no star yet.
    fn seed_stars(matrix: &Matrix) -> (stars: Vec<(usize, usize)>)
        requires
            matrix.wf(),
            matrix.rows == matrix.columns,
        ensures
            pairs_wf(stars@, matrix.rows as int),
            distinct_rows(stars@),
            distinct_cols(stars@),
            zero_cells(*matrix, stars@),
    {
        let n = matrix.rows;
        let mut stars: Vec<(usize, usize)> = Vec::new();
        let mut row_used = make_flags(n);
        let mut col_used = make_flags(n);
        for i in 0..n
            invariant
                matrix.wf(),
                matrix.rows == n,
                matrix.columns == n,
                row_used@.len() == n,
                col_used@.len() == n,
                pairs_wf(stars@, n as int),
                distinct_rows(stars@),
                distinct_cols(stars@),
                zero_cells(*matrix, stars@),
                forall|k: int|
                    0 <= k < stars@.len()
                        ==> row_used@[(#[trigger] stars@[k]).0 as int]
                            && col_used@[stars@[k].1 as int],
        {
            for j in 0..n
                invariant
                    matrix.wf(),
                    matrix.rows == n,
                    matrix.columns == n,
                    i < n,
                    row_used@.len() == n,
                    col_used@.len() == n,
                    pairs_wf(stars@, n as int),
                    distinct_rows(stars@),
                    distinct_cols(stars@),
                    zero_cells(*matrix, stars@),
                    forall|k: int|
                        0 <= k < stars@.len()
                            ==> row_used@[(#[trigger] stars@[k]).0 as int]
                                && col_used@[stars@[k].1 as int],
            {
                if matrix.matrix[i][j] == 0 && !row_used[i] && !col_used[j] {
                    stars.push((i, j));
                    row_used.set(i, true);
                    col_used.set(j, true);
                }
            }
        }
        stars
    }

    /// Builds a maximum matching on the zero cells (the starred zeros,
    /// returned second) and a covering of every zero by exactly as many
    /// lines (returned first).  When the covering has `n` lines the matching
    /// is perfect.
    #[verifier::loop_isolation(false)]
    pub fn second_step(matrix: &Matrix) -> (res: (Crossed, Vec<(usize, usize)>))
        requires
            matrix.wf(),
            matrix.rows == matrix.columns,
        ensures
            pairs_wf(res.1@, matrix.rows as int),
            distinct_rows(res.1@),
            distinct_cols(res.1@),
            zero_cells(*matrix, res.1@),
            res.1@.len() <= matrix.rows,
            res.0@.len() == res.1@.len(),
            count_rows_crossed(res.0@, matrix.rows as int) + count_cols_crossed(
                res.0@,
                matrix.columns as int,
            ) == res.0@.len(),
            forall|i: int, j: int|
                0 <= i < matrix.rows && 0 <= j < matrix.columns && matrix.val(i, j) == 0
                    ==> crossed_row(res.0@, i) || crossed_col(res.0@, j),
    {
        let n = matrix.rows;
        let mut stars = Self::seed_stars(matrix);
        proof {
            lemma_distinct_rows_len(stars@, n as int);
        }
        loop
            invariant
                pairs_wf(stars@, n as int),
                distinct_rows(stars@),
                distinct_cols(stars@),
                zero_cells(*matrix, stars@),
                stars@.len() <= n,
            decreases n - stars@.len(),
        {
            // Cover the column of every star.
            let ghost phase_stars = stars@.len() as int;
            let mut rcov = make_flags(n);
            let mut ccov = make_flags(n);
            proof {
                lemma_count_true_all_false(ccov@, n as int);
            }
            let star_count = stars.len();
            for k in 0..star_count
                invariant
                    star_count == stars@.len(),
                    ccov@.len() == n,
                    forall|c: int|
                        0 <= c < n
                            ==> (#[trigger] ccov@[c] == col_has_pair(stars@.take(k as int), c)),
                    count_true(ccov@, n as int) == k,
            {
                let c = stars[k].1;
                proof {
                    assert(!col_has_pair(stars@.take(k as int), c as int));
                    lemma_count_true_update(ccov@, c as int, true, n as int);
                }
                let ghost prevc = ccov@;
                ccov.set(c, true);
                proof {
                    assert forall|c2: int| 0 <= c2 < n
                        implies (#[trigger] ccov@[c2] == col_has_pair(
                            stars@.take(k as int + 1),
                            c2,
                        )) by {
                        let pre = stars@.take(k as int);
                        let post = stars@.take(k as int + 1);
                        assert(post == pre.push(stars@[k as int]));
                        if c2 == c as int {
                            assert(post[k as int].1 as int == c2);
                            assert(col_has_pair(post, c2));
                        } else {
                            if col_has_pair(pre, c2) {
                                let w = choose|w: int|
                                    0 <= w < pre.len() && (#[trigger] pre[w]).1 as int == c2;
                                assert(post[w].1 as int == c2);
                            }
                            if col_has_pair(post, c2) {
                                let w = choose|w: int|
                                    0 <= w < post.len() && (#[trigger] post[w]).1 as int == c2;
                                assert(w < k as int);
                                assert(pre[w].1 as int == c2);
                            }
                        }
                    }
                }
            }
            proof {
                assert(stars@.take(stars@.len() as int) == stars@);
                lemma_count_true_all_false(rcov@, n as int);
            }
            let mut primes: Vec<(usize, usize)> = Vec::new();
            let mut augmented = false;

            while !augmented
                invariant
                    pairs_wf(stars@, n as int),
                    distinct_rows(stars@),
                    distinct_cols(stars@),
                    zero_cells(*matrix, stars@),
                    stars@.len() <= n,
                    !augmented ==> rcov@.len() == n && ccov@.len() == n,
                    !augmented ==> pairs_wf(primes@, n as int) && distinct_rows(primes@)
                        && zero_cells(*matrix, primes@),
                    !augmented ==> forall|r: int|
                        0 <= r < n ==> (#[trigger] rcov@[r] == row_has_pair(primes@, r)),
                    !augmented ==> forall|t: int|
                        0 <= t < primes@.len()
                            ==> row_has_pair(stars@, (#[trigger] primes@[t]).0 as int),
                    !augmented ==> forall|c: int|
                        0 <= c < n
                            ==> (#[trigger] ccov@[c] == col_star_unprimed(stars@, primes@, c)),
                    !augmented ==> primes_ordered(stars@, primes@),
                    !augmented ==> count_true(rcov@, n as int) == primes@.len(),
                    !augmented ==> count_true(ccov@, n as int) == stars@.len() - primes@.len(),
                    !augmented ==> stars@.len() as int == phase_stars,
                    augmented ==> stars@.len() as int == phase_stars + 1,
                decreases (if augmented { 0int } else { 1int }), n - primes@.len(),
            {
                match find_uncovered_zero(matrix, &rcov, &ccov) {
                    None => {
                        // Every zero is covered: the lines are the answer.
                        let crossed = build_crossed(&rcov, &ccov);
                        proof {
                            lemma_count_rows_matches(crossed@, rcov@, n as int);
                            lemma_count_cols_matches(crossed@, ccov@, n as int);
                        }
                        return (crossed, stars);
                    },
                    Some(rc) => {
                        let (r, c) = rc;
                        let ghost oldprimes = primes@;
                        proof {
                            assert(!row_has_pair(oldprimes, r as int));
                            lemma_distinct_rows_missing_len(oldprimes, n as int, r as int);
                        }
                        primes.push((r, c));
                        proof {
                            // The new prime honours the creation order: its
                            // column is uncovered, so if that column holds a
                            // star, the star's row was primed before.
                            assert forall|k: int|
                                0 <= k < stars@.len() && (#[trigger] stars@[k]).1 == c
                                implies primed_before(
                                primes@,
                                oldprimes.len() as int,
                                stars@[k].0 as int,
                            ) by {
                                assert(!col_star_unprimed(stars@, oldprimes, c as int));
                                assert(row_has_pair(oldprimes, stars@[k].0 as int));
                                let t2 = choose|t2: int|
                                    0 <= t2 < oldprimes.len()
                                        && (#[trigger] oldprimes[t2]).0 as int
                                            == stars@[k].0 as int;
                                assert(primes@[t2].0 as int == stars@[k].0 as int);
                            }
                            assert forall|t: int, k: int|
                                0 <= t < primes@.len() && 0 <= k < stars@.len()
                                    && (#[trigger] primes@[t]).1 == (#[trigger] stars@[k]).1
                                    implies primed_before(primes@, t, stars@[k].0 as int) by {
                                if t < oldprimes.len() {
                                    assert(oldprimes[t] == primes@[t]);
                                    assert(primed_before(oldprimes, t, stars@[k].0 as int));
                                    let t2 = choose|t2: int|
                                        0 <= t2 < t
                                            && (#[trigger] oldprimes[t2]).0 as int
                                                == stars@[k].0 as int;
                                    assert(primes@[t2].0 as int == stars@[k].0 as int);
                                }
                            }
                        }
                        match find_pair_by_row(&stars, r) {
                            Some(sk) => {
                                let sc = stars[sk].1;
                                proof {
                                    // The star's column was covered until now.
                                    assert(col_star_unprimed(stars@, oldprimes, sc as int));
                                    assert(ccov@[sc as int]);
                                    lemma_count_true_update(rcov@, r as int, true, n as int);
                                    lemma_count_true_update(ccov@, sc as int, false, n as int);
                                }
                                let ghost oldr = rcov@;
                                let ghost oldc = ccov@;
                                rcov.set(r, true);
                                ccov.set(sc, false);
                                proof {
                                    let np = primes@;
                                    // Row covers now match the primed rows.
                                    assert forall|r2: int| 0 <= r2 < n
                                        implies (#[trigger] rcov@[r2] == row_has_pair(np, r2)) by {
                                        if r2 == r as int {
                                            assert(np[np.len() - 1].0 as int == r2);
                                        } else {
                                            if row_has_pair(oldprimes, r2) {
                                                let w = choose|w: int|
                                                    0 <= w < oldprimes.len()
                                                        && (#[trigger] oldprimes[w]).0 as int == r2;
                                                assert(np[w].0 as int == r2);
                                            }
                                            if row_has_pair(np, r2) {
                                                let w = choose|w: int|
                                                    0 <= w < np.len()
                                                        && (#[trigger] np[w]).0 as int == r2;
                                                assert(w < oldprimes.len());
                                                assert(oldprimes[w].0 as int == r2);
                                            }
                                        }
                                    }
                                    // Column covers: only the star in the
                                    // newly primed row changes state.
                                    assert forall|c2: int| 0 <= c2 < n
                                        implies (#[trigger] ccov@[c2] == col_star_unprimed(
                                            stars@,
                                            np,
                                            c2,
                                        )) by {
                                        if c2 == sc as int {
                                            if col_star_unprimed(stars@, np, c2) {
                                                let w = choose|w: int|
                                                    0 <= w < stars@.len()
                                                        && (#[trigger] stars@[w]).1 as int == c2
                                                        && !row_has_pair(np, stars@[w].0 as int);
                                                assert(w == sk as int);
                                                assert(np[np.len() - 1].0 as int
                                                    == stars@[sk as int].0 as int);
                                            }
                                        } else {
                                            if col_star_unprimed(stars@, oldprimes, c2) {
                                                let w = choose|w: int|
                                                    0 <= w < stars@.len()
                                                        && (#[trigger] stars@[w]).1 as int == c2
                                                        && !row_has_pair(
                                                        oldprimes,
                                                        stars@[w].0 as int,
                                                    );
                                                assert(stars@[w].0 as int != r as int) by {
                                                    if stars@[w].0 as int == r as int {
                                                        assert(w == sk as int);
                                                    }
                                                }
                                                assert(!row_has_pair(np, stars@[w].0 as int)) by {
                                                    if row_has_pair(np, stars@[w].0 as int) {
                                                        let w2 = choose|w2: int|
                                                            0 <= w2 < np.len()
                                                                && (#[trigger] np[w2]).0 as int
                                                                    == stars@[w].0 as int;
                                                        assert(w2 < oldprimes.len());
                                                    }
                                                }
                                                assert(col_star_unprimed(stars@, np, c2));
                                            }
                                            if col_star_unprimed(stars@, np, c2) {
                                                let w = choose|w: int|
                                                    0 <= w < stars@.len()
                                                        && (#[trigger] stars@[w]).1 as int == c2
                                                        && !row_has_pair(np, stars@[w].0 as int);
                                                assert(!row_has_pair(oldprimes, stars@[w].0 as int))
                                                    by {
                                                    if row_has_pair(
                                                        oldprimes,
                                                        stars@[w].0 as int,
                                                    ) {
                                                        let w2 = choose|w2: int|
                                                            0 <= w2 < oldprimes.len()
                                                                && (#[trigger] oldprimes[w2]).0
                                                                    as int == stars@[w].0 as int;
                                                        assert(np[w2].0 as int
                                                            == stars@[w].0 as int);
                                                    }
                                                }
                                                assert(col_star_unprimed(stars@, oldprimes, c2));
                                            }
                                        }
                                    }
                                }
                            },
                            None => {
                                // The primed row is starless: augment along
                                // the alternating path and start a new phase.
                                stars = augment(matrix, stars, &primes);
                                proof {
                                    lemma_distinct_rows_len(stars@, n as int);
                                }
                                augmented = true;
                            },
                        }
                    },
                }
            }
        }
    }
}

} // verus!
