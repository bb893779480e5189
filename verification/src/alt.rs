//! Direct selection of assignment positions among the zeros of a reduced
//! grid.
//!
//! These routines pick zero cells greedily, preferring zeros that are alone
//! in their row or column and falling back to an arbitrary choice when no
//! forced pick exists.  They are bounded by a fuel counter: on inputs where
//! the greedy search can make no further progress they stop and return what
//! was selected so far.

use vstd::prelude::*;
use crate::matrix::Matrix;
use crate::model::distinct_cols;
use crate::model::distinct_rows;
use crate::model::pairs_wf;
use crate::model::zero_cells;
use crate::solver::MadarskaMetoda;

verus! {

/// Whether the index list holds `x`.
fn contains_index(v: &Vec<usize>, x: usize) -> (r: bool)
    ensures
        r == v@.contains(x),
{
    for k in 0..v.len()
        invariant
            forall|t: int| 0 <= t < k ==> v@[t] != x,
    {
        if v[k] == x {
            assert(v@[k as int] == x);
            return true;
        }
    }
    false
}

impl MadarskaMetoda {
    /// Whether the cell shares a row or a column with an already chosen one.
    pub fn skip(result: &Vec<(usize, usize)>, current_pos: &(usize, usize)) -> (r: bool)
        ensures
            r == exists|k: int|
                0 <= k < result@.len() && ((#[trigger] result@[k]).0 == current_pos.0
                    || result@[k].1 == current_pos.1),
    {
        let row = current_pos.0;
        let col = current_pos.1;
        for k in 0..result.len()
            invariant
                row == current_pos.0,
                col == current_pos.1,
                forall|t: int|
                    0 <= t < k ==> (#[trigger] result@[t]).0 != row && result@[t].1 != col,
        {
            if result[k].0 == row || result[k].1 == col {
                proof {
                    assert(row == current_pos.0 && col == current_pos.1);
                    assert((result@[k as int]).0 == row || (result@[k as int]).1 == col);
                }
                return true;
            }
        }
        false
    }

    /// Chooses zero cells, never two in one row or column: zeros alone in
    /// their row or column first, then arbitrary ones when a pass makes no
    /// progress.  Stops once one cell per row is chosen, or when the zeros
    /// allow no further pick.
    #[verifier::loop_isolation(false)]
    pub fn optimal(matrix: &Matrix) -> (result: Vec<(usize, usize)>)
        requires
            matrix.wf(),
            matrix.rows == matrix.columns,
        ensures
            pairs_wf(result@, matrix.rows as int),
            distinct_rows(result@),
            distinct_cols(result@),
            zero_cells(*matrix, result@),
            result@.len() <= matrix.rows,
    {
        let zero_pos = matrix.find_pos(0);
        let mut result: Vec<(usize, usize)> = Vec::new();
        let mut choose_first = false;
        let mut fuel: u128 = matrix.rows as u128 * 2 + 4;
        while fuel > 0 && result.len() != matrix.rows
            invariant
                pairs_wf(result@, matrix.rows as int),
                distinct_rows(result@),
                distinct_cols(result@),
                zero_cells(*matrix, result@),
                result@.len() <= matrix.rows,
            decreases fuel,
        {
            fuel = fuel - 1;
            let change = result.len();
            for i in 0..zero_pos.len()
                invariant
                    pairs_wf(result@, matrix.rows as int),
                    distinct_rows(result@),
                    distinct_cols(result@),
                    zero_cells(*matrix, result@),
                    result@.len() <= matrix.rows,
            {
                if !Self::skip(&result, &zero_pos[i]) {
                    let mut only_in_row = true;
                    let mut only_in_col = true;
                    for j in 0..zero_pos.len()
                        invariant
                            i < zero_pos@.len(),
                    {
                        if i != j {
                            if zero_pos[i].0 == zero_pos[j].0 {
                                only_in_row = false;
                            }
                            if zero_pos[i].1 == zero_pos[j].1 {
                                only_in_col = false;
                            }
                        }
                    }
                    if only_in_col || only_in_row || choose_first {
                        choose_first = false;
                        let pos = zero_pos[i];
                        proof {
                            assert(!crate::model::row_has_pair(result@, pos.0 as int)) by {
                                if crate::model::row_has_pair(result@, pos.0 as int) {
                                    let k = choose|k: int|
                                        0 <= k < result@.len()
                                            && (#[trigger] result@[k]).0 as int == pos.0 as int;
                                }
                            }
                            crate::model::lemma_distinct_rows_missing_len(
                                result@,
                                matrix.rows as int,
                                pos.0 as int,
                            );
                        }
                        result.push(pos);
                    }
                }
            }
            if change == result.len() {
                choose_first = true;
            }
        }
        result
    }

    /// Chooses zero cells pass by pass: zeros alone in their row or column
    /// are taken first; every zero sharing a row or column with a taken one
    /// is discarded; when a pass takes nothing, the next pass takes the
    /// first zero still standing.  Stops once one cell per row is chosen,
    /// or when the zeros run out.
    #[verifier::loop_isolation(false)]
    pub fn get_optimal_result_positions(matrix: &Matrix) -> (result: Vec<(usize, usize)>)
        requires
            matrix.wf(),
        ensures
            forall|k: int|
                0 <= k < result@.len()
                    ==> (#[trigger] result@[k]).0 < matrix.rows
                        && result@[k].1 < matrix.columns,
            zero_cells(*matrix, result@),
    {
        let mut chosen_positions: Vec<(usize, usize)> = Vec::new();
        let mut zero_pos = matrix.find_pos(0);
        let mut select_first = false;
        let mut fuel: u128 = zero_pos.len() as u128 * 2 + 4;
        while fuel > 0 && chosen_positions.len() != matrix.rows
            invariant
                forall|k: int|
                    0 <= k < chosen_positions@.len()
                        ==> (#[trigger] chosen_positions@[k]).0 < matrix.rows
                            && chosen_positions@[k].1 < matrix.columns,
                zero_cells(*matrix, chosen_positions@),
                forall|k: int|
                    0 <= k < zero_pos@.len()
                        ==> (#[trigger] zero_pos@[k]).0 < matrix.rows
                            && zero_pos@[k].1 < matrix.columns,
                zero_cells(*matrix, zero_pos@),
            decreases fuel,
        {
            fuel = fuel - 1;
            let mut remove_indexes: Vec<usize> = Vec::new();
            let positions_found = chosen_positions.len();
            for t in 0..zero_pos.len()
                invariant
                    forall|k: int|
                        0 <= k < chosen_positions@.len()
                            ==> (#[trigger] chosen_positions@[k]).0 < matrix.rows
                                && chosen_positions@[k].1 < matrix.columns,
                    zero_cells(*matrix, chosen_positions@),
            {
                let row = zero_pos[t].0;
                let col = zero_pos[t].1;
                let mut zeroes_in_row: Vec<usize> = Vec::new();
                let mut zeroes_in_col: Vec<usize> = Vec::new();
                for s in 0..zero_pos.len()
                    invariant
                        t < zero_pos@.len(),
                {
                    if zero_pos[s].0 == row {
                        zeroes_in_row.push(s);
                    }
                    if zero_pos[s].1 == col {
                        zeroes_in_col.push(s);
                    }
                }
                if zeroes_in_row.len() == 1 || zeroes_in_col.len() == 1 || select_first {
                    select_first = false;
                    chosen_positions.push((row, col));
                    for s in 0..zeroes_in_row.len()
                        invariant
                            t < zero_pos@.len(),
                    {
                        remove_indexes.push(zeroes_in_row[s]);
                    }
                    for s in 0..zeroes_in_col.len()
                        invariant
                            t < zero_pos@.len(),
                    {
                        remove_indexes.push(zeroes_in_col[s]);
                    }
                }
            }
            if chosen_positions.len() != matrix.rows {
                if positions_found == chosen_positions.len() {
                    select_first = true;
                }
                let mut kept: Vec<(usize, usize)> = Vec::new();
                for t in 0..zero_pos.len()
                    invariant
                        forall|k: int|
                            0 <= k < zero_pos@.len()
                                ==> (#[trigger] zero_pos@[k]).0 < matrix.rows
                                    && zero_pos@[k].1 < matrix.columns,
                        zero_cells(*matrix, zero_pos@),
                        forall|k: int|
                            0 <= k < kept@.len()
                                ==> (#[trigger] kept@[k]).0 < matrix.rows
                                    && kept@[k].1 < matrix.columns,
                        zero_cells(*matrix, kept@),
                {
                    if !contains_index(&remove_indexes, t) {
                        kept.push(zero_pos[t]);
                    }
                }
                zero_pos = kept;
            }
        }
        chosen_positions
    }
}

} // verus!
