use madarska_metoda::matrix::{Matrix, Position};
use madarska_metoda::normalize::SolveError;
use madarska_metoda::solver::MadarskaMetoda;

#[test]
fn single_cell_returns_its_value() {
    let m = Matrix::new(vec![vec![7]]);
    assert_eq!(7, MadarskaMetoda::solve(&m));
    let neg = Matrix::new(vec![vec![-3]]);
    assert_eq!(-3, MadarskaMetoda::solve(&neg));
}

#[test]
fn all_zero_grid_returns_zero() {
    let m = Matrix::new(vec![vec![0; 3]; 3]);
    assert_eq!(0, MadarskaMetoda::solve(&m));
}

#[test]
fn permutation_of_zeros_returns_zero() {
    let m = Matrix::new(vec![
        vec![0, 3, 4],
        vec![5, 6, 0],
        vec![7, 0, 9],
    ]);
    assert_eq!(0, MadarskaMetoda::solve(&m));
}

#[test]
fn two_by_two_minimum() {
    let m = Matrix::new(vec![vec![1, 2], vec![3, 4]]);
    assert_eq!(5, MadarskaMetoda::solve(&m));
}

#[test]
fn two_by_two_maximum() {
    let m = Matrix::new(vec![vec![1, 2], vec![2, 4]]);
    assert_eq!(5, MadarskaMetoda::solve_max(&m));
}

#[test]
fn maximize_is_negated_minimize_of_negation() {
    let data = vec![
        vec![10, 8, 4, 5],
        vec![6, 2, 12, 3],
        vec![3, 5, 6, 9],
        vec![4, 7, 8, 6],
    ];
    let m = Matrix::new(data.clone());
    let negated = Matrix::new(
        data.iter().map(|row| row.iter().map(|x| -x).collect()).collect(),
    );
    assert_eq!(
        MadarskaMetoda::solve_max(&m),
        -MadarskaMetoda::solve(&negated)
    );
}

#[test]
fn solve_assignment_returns_a_perfect_matching() {
    let m = Matrix::new(vec![
        vec![10, 8, 4, 5],
        vec![6, 2, 12, 3],
        vec![3, 5, 6, 9],
        vec![4, 7, 8, 6],
    ]);
    let (value, cells) = MadarskaMetoda::solve_assignment(&m, false);
    assert_eq!(15, value);
    assert_eq!(4, cells.len());
    let mut row_seen = vec![false; 4];
    let mut col_seen = vec![false; 4];
    let mut total = 0;
    for (r, c) in &cells {
        assert!(*r < 4 && *c < 4);
        assert!(!row_seen[*r] && !col_seen[*c]);
        row_seen[*r] = true;
        col_seen[*c] = true;
        total += m.matrix[*r][*c];
    }
    assert_eq!(15, total);
}

#[test]
fn second_step_covers_zeros_with_matching_size_lines() {
    let reduced = MadarskaMetoda::first_step(Matrix::new(vec![
        vec![10, 8, 4, 5],
        vec![6, 2, 12, 3],
        vec![3, 5, 6, 9],
        vec![4, 7, 8, 6],
    ]));
    let (crossed, assigned) = MadarskaMetoda::second_step(&reduced);
    assert_eq!(crossed.len(), assigned.len());
    for (r, c) in &assigned {
        assert_eq!(0, reduced.matrix[*r][*c]);
    }
    for i in 0..4 {
        for j in 0..4 {
            if reduced.matrix[i][j] == 0 {
                assert!(crossed.contains(&(i, 'R')) || crossed.contains(&(j, 'C')));
            }
        }
    }
}

#[test]
fn uncovered_minimum_of_crossed_grid() {
    let matrica = Matrix {
        rows: 4,
        columns: 4,
        matrix: vec![
            vec![6, 4, 0, 0],
            vec![4, 0, 10, 0],
            vec![0, 2, 3, 5],
            vec![0, 3, 4, 1],
        ],
    };
    let crossed = vec![(0, 'R'), (1, 'R'), (0, 'C')];
    assert_eq!(1, MadarskaMetoda::find_min_in_non_crossed(&matrica, &crossed));
}

#[test]
fn squaring_pads_with_zeros() {
    let m = Matrix::new_squared(&vec![vec![1, 2]]).unwrap();
    assert_eq!(2, m.rows);
    assert_eq!(2, m.columns);
    assert_eq!(vec![vec![1, 2], vec![0, 0]], m.matrix);
}

#[test]
fn squaring_keeps_square_input_unchanged() {
    let data = vec![vec![1, 2], vec![3, 4]];
    let m = Matrix::new_squared(&data).unwrap();
    assert_eq!(data, m.matrix);
}

#[test]
fn squaring_equalizes_ragged_rows() {
    let m = Matrix::new_squared(&vec![vec![5], vec![1, 2, 3]]).unwrap();
    assert_eq!(3, m.rows);
    assert_eq!(vec![vec![5, 0, 0], vec![1, 2, 3, ], vec![0, 0, 0]], m.matrix);
}

#[test]
fn rectangular_grid_solves_through_padding() {
    assert_eq!(Ok(1), MadarskaMetoda::solve_grid(&vec![vec![1, 2]], false));
}

#[test]
fn empty_input_is_rejected() {
    assert_eq!(
        Err(SolveError::InvalidInput),
        MadarskaMetoda::solve_grid(&vec![], false)
    );
    assert_eq!(
        Err(SolveError::InvalidInput),
        MadarskaMetoda::solve_grid(&vec![vec![], vec![]], true)
    );
}

#[test]
fn solve_grid_maximizes_on_request() {
    assert_eq!(
        Ok(5),
        MadarskaMetoda::solve_grid(&vec![vec![1, 2], vec![2, 4]], true)
    );
}

#[test]
fn count_and_find_helpers() {
    let m = Matrix::new(vec![
        vec![0, 4, 0],
        vec![2, 0, 6],
        vec![0, 1, 3],
    ]);
    assert_eq!(2, m.count(0, Position::Row, 0));
    assert_eq!(2, m.count(0, Position::Column, 0));
    assert_eq!(1, m.count(1, Position::Row, 0));
    assert_eq!(1, m.find_val(1, Position::Row, 0));
    assert_eq!(2, m.find_val(1, Position::Column, 1));
    assert_eq!(0, m.find_val(2, Position::Row, 99));
    assert_eq!(vec![(0, 0), (0, 2), (1, 1), (2, 0)], m.find_pos(0));
    assert_eq!(&m.matrix, m.get_matrix());
}

#[test]
fn larger_grid_minimum() {
    let m = Matrix::new(vec![
        vec![60, 59, 71, 15, 82],
        vec![21, 54, 63, 30, 92],
        vec![28, 7, 97, 5, 96],
        vec![70, 5, 95, 75, 31],
        vec![41, 64, 55, 85, 59],
    ]);
    assert_eq!(129, MadarskaMetoda::solve(&m));
}

#[test]
fn negative_entries_are_handled() {
    let m = Matrix::new(vec![vec![-5, 3], vec![2, -4]]);
    assert_eq!(-9, MadarskaMetoda::solve(&m));
    assert_eq!(5, MadarskaMetoda::solve_max(&m));
}
