//! Global properties of the solver's model, stated and proved once.

use vstd::prelude::*;
use crate::matrix::Matrix;
use crate::model::assignment_cost;
use crate::model::cost_upto;
use crate::model::is_max_assignment;
use crate::model::is_min_assignment;
use crate::model::is_perm;
use crate::model::lemma_cost_negated;
use crate::normalize::max_width;
use crate::normalize::squared_form;

verus! {

/// Widths of a grid whose rows all have the full length.
proof fn lemma_max_width_square(data: Seq<Vec<i32>>, k: int)
    requires
        forall|i: int| 0 <= i < data.len() ==> (#[trigger] data[i])@.len() == data.len(),
        0 <= k <= data.len(),
    ensures
        max_width(data, k) == if k <= 0 {
            0int
        } else {
            data.len() as int
        },
    decreases k,
{
    if k > 0 {
        lemma_max_width_square(data, k - 1);
    }
}

/// Normalizing an already square grid returns it unchanged.
pub proof fn lemma_normalize_idempotent(data: Seq<Vec<i32>>, m: Matrix)
    requires
        data.len() > 0,
        forall|i: int| 0 <= i < data.len() ==> (#[trigger] data[i])@.len() == data.len(),
        squared_form(data, m),
    ensures
        m.rows == data.len(),
        m.columns == data.len(),
        forall|i: int, j: int|
            0 <= i < data.len() && 0 <= j < data.len()
                ==> #[trigger] m.val(i, j) == data[i]@[j] as int,
{
    lemma_max_width_square(data, data.len() as int);
}

/// Maximizing a grid is minimizing its pointwise negation, with the sign of
/// the optimum flipped.
pub proof fn lemma_sign_duality(m: Matrix, nm: Matrix, n: int, v: int)
    requires
        m.rows == nm.rows,
        m.columns == nm.columns,
        m.rows == m.columns,
        n == m.rows,
        forall|i: int, j: int|
            0 <= i < m.rows && 0 <= j < m.columns ==> #[trigger] nm.val(i, j) == -m.val(i, j),
    ensures
        is_min_assignment(nm, n, v) <==> is_max_assignment(m, n, -v),
{
    if is_min_assignment(nm, n, v) {
        let p = choose|p: Seq<int>| is_perm(p, n) && assignment_cost(nm, p, n) == v;
        lemma_cost_negated(m, nm, p, n);
        assert(is_perm(p, n) && assignment_cost(m, p, n) == -v);
        assert forall|q: Seq<int>| is_perm(q, n)
            implies assignment_cost(m, q, n) <= -v by {
            lemma_cost_negated(m, nm, q, n);
        }
    }
    if is_max_assignment(m, n, -v) {
        let p = choose|p: Seq<int>| is_perm(p, n) && assignment_cost(m, p, n) == -v;
        lemma_cost_negated(m, nm, p, n);
        assert(is_perm(p, n) && assignment_cost(nm, p, n) == v);
        assert forall|q: Seq<int>| is_perm(q, n)
            implies assignment_cost(nm, q, n) >= v by {
            lemma_cost_negated(m, nm, q, n);
        }
    }
}

/// Selected cells in rows that all hold zeros add nothing to the cost.
proof fn lemma_cost_tail_zero(m: Matrix, p: Seq<int>, r: int, k: int)
    requires
        0 <= r <= k,
        forall|i: int| r <= i < k ==> m.val(i, #[trigger] p[i]) == 0,
    ensures
        cost_upto(m, p, k) == cost_upto(m, p, r),
    decreases k,
{
    if k > r {
        lemma_cost_tail_zero(m, p, r, k - 1);
    }
}

/// The rows added when squaring a grid contribute nothing to any
/// assignment's cost: the objective is the sum over the original rows alone.
pub proof fn lemma_padding_neutral(data: Seq<Vec<i32>>, m: Matrix, p: Seq<int>)
    requires
        squared_form(data, m),
        is_perm(p, m.rows as int),
        data.len() <= m.rows,
    ensures
        forall|i: int| data.len() <= i < m.rows ==> m.val(i, #[trigger] p[i]) == 0,
        assignment_cost(m, p, m.rows as int) == cost_upto(m, p, data.len() as int),
{
    assert forall|i: int| data.len() <= i < m.rows implies m.val(i, #[trigger] p[i]) == 0 by {
        assert(0 <= p[i] < m.rows);
    }
    lemma_cost_tail_zero(m, p, data.len() as int, m.rows as int);
}

} // verus!
