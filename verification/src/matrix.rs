//! The dense cost grid and its elementary queries.

use vstd::prelude::*;

verus! {

/// Selects the dimension a query works along.
pub enum Position {
    Row,
    Column,
}

/// Dense rectangular grid of signed integer costs.
pub struct Matrix {
    pub rows: usize,
    pub columns: usize,
    pub matrix: Vec<Vec<i32>>,
}

impl Matrix {
    /// The stored data has exactly `rows` rows, each of width `columns`.
    pub open spec fn wf(self) -> bool {
        &&& self.matrix@.len() == self.rows
        &&& forall|i: int| 0 <= i < self.rows ==> (#[trigger] self.matrix@[i])@.len() == self.columns
    }

    /// The entry in row `i`, column `j`, as an unbounded integer.
    pub open spec fn val(self, i: int, j: int) -> int {
        self.matrix@[i]@[j] as int
    }

    /// Builds a `row` by `column` grid filled with zeros.
    pub fn new_empty(row: usize, column: usize) -> (m: Matrix)
        ensures
            m.wf(),
            m.rows == row,
            m.columns == column,
            forall|i: int, j: int| 0 <= i < row && 0 <= j < column ==> m.val(i, j) == 0,
    {
        let mut new_matrix: Vec<Vec<i32>> = Vec::new();
        for _i in 0..row
            invariant
                new_matrix@.len() == _i,
                forall|i: int| 0 <= i < _i ==> (#[trigger] new_matrix@[i])@.len() == column,
                forall|i: int, j: int|
                    0 <= i < _i && 0 <= j < column ==> #[trigger] new_matrix@[i]@[j] == 0,
        {
            let mut line: Vec<i32> = Vec::new();
            for _j in 0..column
                invariant
                    line@.len() == _j,
                    forall|j: int| 0 <= j < _j ==> line@[j] == 0,
            {
                line.push(0);
            }
            new_matrix.push(line);
        }
        Matrix { rows: row, columns: column, matrix: new_matrix }
    }

    /// Wraps an already rectangular, non-empty list of rows.
    pub fn new(data: Vec<Vec<i32>>) -> (m: Matrix)
        requires
            data@.len() > 0,
            forall|i: int| 0 <= i < data@.len() ==> (#[trigger] data@[i])@.len() == data@[0]@.len(),
        ensures
            m.wf(),
            m.rows == data@.len(),
            m.columns == data@[0]@.len(),
            m.matrix@ == data@,
    {
        let rows = data.len();
        let columns = data[0].len();
        Matrix { rows, columns, matrix: data }
    }

    /// Copies out one row, or one column, as a vector.
    pub fn get(&self, position: Position, index: usize) -> (r: Vec<i32>)
        requires
            self.wf(),
            match position {
                Position::Row => index < self.rows,
                Position::Column => index < self.columns,
            },
        ensures
            match position {
                Position::Row => {
                    &&& r@.len() == self.columns
                    &&& forall|j: int| 0 <= j < self.columns ==> r@[j] as int == self.val(index as int, j)
                },
                Position::Column => {
                    &&& r@.len() == self.rows
                    &&& forall|i: int| 0 <= i < self.rows ==> r@[i] as int == self.val(i, index as int)
                },
            },
    {
        match position {
            Position::Row => {
                let mut temp: Vec<i32> = Vec::new();
                for j in 0..self.columns
                    invariant
                        self.wf(),
                        index < self.rows,
                        temp@.len() == j,
                        forall|k: int| 0 <= k < j ==> temp@[k] as int == self.val(index as int, k),
                {
                    temp.push(self.matrix[index][j]);
                }
                temp
            },
            Position::Column => {
                let mut temp: Vec<i32> = Vec::new();
                for i in 0..self.rows
                    invariant
                        self.wf(),
                        index < self.columns,
                        temp@.len() == i,
                        forall|k: int| 0 <= k < i ==> temp@[k] as int == self.val(k, index as int),
                {
                    temp.push(self.matrix[i][index]);
                }
                temp
            },
        }
    }

    /// Borrows the stored rows.
    pub fn get_matrix(&self) -> (r: &Vec<Vec<i32>>)
        ensures
            r@ == self.matrix@,
    {
        &self.matrix
    }

    /// The least entry of row `index`.
    pub fn find_min_row(&self, index: usize) -> (r: i32)
        requires
            self.wf(),
            index < self.rows,
            self.columns >= 1,
        ensures
            forall|j: int| 0 <= j < self.columns ==> self.val(index as int, j) >= r as int,
            exists|j: int| 0 <= j < self.columns && self.val(index as int, j) == r as int,
    {
        let mut min = self.matrix[index][0];
        assert(self.val(index as int, 0) == min as int);
        for j in 1..self.columns
            invariant
                self.wf(),
                index < self.rows,
                1 <= j <= self.columns,
                forall|k: int| 0 <= k < j ==> self.val(index as int, k) >= min as int,
                exists|k: int| 0 <= k < j && self.val(index as int, k) == min as int,
        {
            if self.matrix[index][j] < min {
                min = self.matrix[index][j];
                assert(self.val(index as int, j as int) == min as int);
            } else {
                proof {
                    let w = choose|k: int| 0 <= k < j && self.val(index as int, k) == min as int;
                    assert(0 <= w < j + 1 && self.val(index as int, w) == min as int);
                }
            }
        }
        min
    }

    /// The least entry of column `index`.
    pub fn find_min_col(&self, index: usize) -> (r: i32)
        requires
            self.wf(),
            index < self.columns,
            self.rows >= 1,
        ensures
            forall|i: int| 0 <= i < self.rows ==> self.val(i, index as int) >= r as int,
            exists|i: int| 0 <= i < self.rows && self.val(i, index as int) == r as int,
    {
        let mut min = self.matrix[0][index];
        assert(self.val(0, index as int) == min as int);
        for i in 1..self.rows
            invariant
                self.wf(),
                index < self.columns,
                1 <= i <= self.rows,
                forall|k: int| 0 <= k < i ==> self.val(k, index as int) >= min as int,
                exists|k: int| 0 <= k < i && self.val(k, index as int) == min as int,
        {
            if self.matrix[i][index] < min {
                min = self.matrix[i][index];
                assert(self.val(i as int, index as int) == min as int);
            } else {
                proof {
                    let w = choose|k: int| 0 <= k < i && self.val(k, index as int) == min as int;
                    assert(0 <= w < i + 1 && self.val(w, index as int) == min as int);
                }
            }
        }
        min
    }

    /// Number of entries equal to `v` among the first `k` cells of row `i`.
    pub open spec fn count_in_row(self, i: int, v: int, k: int) -> int
        decreases k,
    {
        if k <= 0 {
            0
        } else {
            self.count_in_row(i, v, k - 1) + if self.val(i, k - 1) == v { 1int } else { 0int }
        }
    }

    /// Number of entries equal to `v` among the first `k` cells of column `j`.
    pub open spec fn count_in_col(self, j: int, v: int, k: int) -> int
        decreases k,
    {
        if k <= 0 {
            0
        } else {
            self.count_in_col(j, v, k - 1) + if self.val(k - 1, j) == v { 1int } else { 0int }
        }
    }

    /// Counts how often `value` occurs in row `index` (or column `index`).
    pub fn count(&self, index: usize, position: Position, value: i32) -> (r: usize)
        requires
            self.wf(),
            match position {
                Position::Row => index < self.rows,
                Position::Column => index < self.columns,
            },
        ensures
            match position {
                Position::Row => r as int == self.count_in_row(
                    index as int,
                    value as int,
                    self.columns as int,
                ),
                Position::Column => r as int == self.count_in_col(
                    index as int,
                    value as int,
                    self.rows as int,
                ),
            },
    {
        let mut cnt: usize = 0;
        match position {
            Position::Row => {
                for j in 0..self.columns
                    invariant
                        self.wf(),
                        index < self.rows,
                        cnt as int == self.count_in_row(index as int, value as int, j as int),
                        cnt <= j,
                {
                    if self.matrix[index][j] == value {
                        cnt += 1;
                    }
                }
            },
            Position::Column => {
                for i in 0..self.rows
                    invariant
                        self.wf(),
                        index < self.columns,
                        cnt as int == self.count_in_col(index as int, value as int, i as int),
                        cnt <= i,
                {
                    if self.matrix[i][index] == value {
                        cnt += 1;
                    }
                }
            },
        }
        cnt
    }

    /// All positions holding `value`, listed in row-major order.
    pub fn find_pos(&self, value: i32) -> (r: Vec<(usize, usize)>)
        requires
            self.wf(),
        ensures
            forall|k: int|
                0 <= k < r@.len() ==> {
                    &&& (#[trigger] r@[k]).0 < self.rows
                    &&& r@[k].1 < self.columns
                    &&& self.val(r@[k].0 as int, r@[k].1 as int) == value as int
                },
            forall|i: int, j: int|
                0 <= i < self.rows && 0 <= j < self.columns && self.val(i, j) == value as int
                    ==> r@.contains((i as usize, j as usize)),
            forall|k1: int, k2: int|
                0 <= k1 < k2 < r@.len() ==> {
                    let a = #[trigger] r@[k1];
                    let b = #[trigger] r@[k2];
                    a.0 < b.0 || (a.0 == b.0 && a.1 < b.1)
                },
    {
        let mut positions: Vec<(usize, usize)> = Vec::new();
        for i in 0..self.rows
            invariant
                self.wf(),
                forall|k: int|
                    0 <= k < positions@.len() ==> {
                        &&& (#[trigger] positions@[k]).0 < i
                        &&& positions@[k].1 < self.columns
                        &&& self.val(positions@[k].0 as int, positions@[k].1 as int) == value as int
                    },
                forall|a: int, b: int|
                    0 <= a < i && 0 <= b < self.columns && self.val(a, b) == value as int
                        ==> positions@.contains((a as usize, b as usize)),
                forall|k1: int, k2: int|
                    0 <= k1 < k2 < positions@.len() ==> {
                        let a = #[trigger] positions@[k1];
                        let b = #[trigger] positions@[k2];
                        a.0 < b.0 || (a.0 == b.0 && a.1 < b.1)
                    },
        {
            for j in 0..self.columns
                invariant
                    self.wf(),
                    i < self.rows,
                    forall|k: int|
                        0 <= k < positions@.len() ==> {
                            &&& (#[trigger] positions@[k]).0 <= i
                            &&& positions@[k].1 < self.columns
                            &&& (positions@[k].0 == i ==> positions@[k].1 < j)
                            &&& self.val(positions@[k].0 as int, positions@[k].1 as int)
                                == value as int
                        },
                    forall|a: int, b: int|
                        0 <= a < self.rows && 0 <= b < self.columns && self.val(a, b) == value as int
                            && (a < i || (a == i && b < j))
                            ==> positions@.contains((a as usize, b as usize)),
                    forall|k1: int, k2: int|
                        0 <= k1 < k2 < positions@.len() ==> {
                            let a = #[trigger] positions@[k1];
                            let b = #[trigger] positions@[k2];
                            a.0 < b.0 || (a.0 == b.0 && a.1 < b.1)
                        },
            {
                if self.matrix[i][j] == value {
                    let ghost prev = positions@;
                    positions.push((i, j));
                    proof {
                        assert(positions@[positions@.len() - 1] == (i, j));
                        assert forall|a: int, b: int|
                            0 <= a < self.rows && 0 <= b < self.columns
                                && self.val(a, b) == value as int
                                && (a < i as int || (a == i as int && b < j as int + 1))
                            implies positions@.contains((a as usize, b as usize)) by {
                            if a < i as int || (a == i as int && b < j as int) {
                                let k = choose|k: int|
                                    0 <= k < prev.len() && prev[k] == (a as usize, b as usize);
                                assert(positions@[k] == (a as usize, b as usize));
                            } else {
                                assert(positions@[positions@.len() - 1] == (a as usize, b as usize));
                            }
                        };
                    }
                }
            }
        }
        positions
    }

    /// Index of the first entry equal to `value` in row `index` (or column
    /// `index`); `0` when the value does not occur.
    pub fn find_val(&self, index: usize, position: Position, value: i32) -> (r: usize)
        requires
            self.wf(),
            match position {
                Position::Row => index < self.rows,
                Position::Column => index < self.columns,
            },
        ensures
            match position {
                Position::Row => {
                    if exists|j: int| 0 <= j < self.columns && self.val(index as int, j) == value as int {
                        &&& r < self.columns
                        &&& self.val(index as int, r as int) == value as int
                        &&& forall|j: int| 0 <= j < r ==> self.val(index as int, j) != value as int
                    } else {
                        r == 0
                    }
                },
                Position::Column => {
                    if exists|i: int| 0 <= i < self.rows && self.val(i, index as int) == value as int {
                        &&& r < self.rows
                        &&& self.val(r as int, index as int) == value as int
                        &&& forall|i: int| 0 <= i < r ==> self.val(i, index as int) != value as int
                    } else {
                        r == 0
                    }
                },
            },
    {
        match position {
            Position::Row => {
                for j in 0..self.columns
                    invariant
                        self.wf(),
                        position is Row,
                        index < self.rows,
                        forall|k: int| 0 <= k < j ==> self.val(index as int, k) != value as int,
                {
                    if self.matrix[index][j] == value {
                        assert(self.val(index as int, j as int) == value as int);
                        return j;
                    }
                }
                0
            },
            Position::Column => {
                for i in 0..self.rows
                    invariant
                        self.wf(),
                        position is Column,
                        index < self.columns,
                        forall|k: int| 0 <= k < i ==> self.val(k, index as int) != value as int,
                {
                    if self.matrix[i][index] == value {
                        assert(self.val(i as int, index as int) == value as int);
                        return i;
                    }
                }
                0
            },
        }
    }
}

} // verus!
