use madarska_metoda::matrix::{Matrix, Position};
use madarska_metoda::solver::MadarskaMetoda;

const RED: usize = 5;
const STUPAC: usize = 6;

#[test]
fn new_empty_matrix() {
    let m = Matrix::new_empty(RED, STUPAC);
    assert_eq!(vec![vec![0; STUPAC]; RED], m.matrix);
    assert_eq!(RED, m.rows);
    assert_eq!(STUPAC, m.columns);
}

#[test]
fn new_matrix() {
    let m = Matrix::new(vec![vec![0; STUPAC]; RED]);
    assert_eq!(vec![vec![0; STUPAC]; RED], m.matrix);
    assert_eq!(RED, m.rows);
    assert_eq!(STUPAC, m.columns);
}

#[test]
fn min_row() {
    let matrica = Matrix {
        rows: 4,
        columns: 4,
        matrix: vec![
            vec![10, 8, 4, 5],
            vec![6, 2, 12, 3],
            vec![3, 5, 6, 9],
            vec![4, 7, 8, 6],
        ],
    };
    assert_eq!(4, matrica.find_min_row(0));
    assert_eq!(2, matrica.find_min_row(1));
    assert_eq!(3, matrica.find_min_row(2));
    assert_eq!(4, matrica.find_min_row(3));
}

#[test]
fn min_col() {
    let matrica = Matrix {
        rows: 4,
        columns: 4,
        matrix: vec![
            vec![10, 8, 4, 5],
            vec![6, 2, 12, 3],
            vec![3, 5, 6, 9],
            vec![4, 7, 8, 6],
        ],
    };
    assert_eq!(3, matrica.find_min_col(0));
    assert_eq!(2, matrica.find_min_col(1));
    assert_eq!(4, matrica.find_min_col(2));
    assert_eq!(3, matrica.find_min_col(3));
}

#[test]
fn get() {
    let matrica = Matrix {
        rows: 4,
        columns: 4,
        matrix: vec![
            vec![10, 8, 4, 5],
            vec![6, 2, 12, 3],
            vec![3, 5, 6, 9],
            vec![4, 7, 8, 6],
        ],
    };
    assert_eq!(vec![10, 8, 4, 5], matrica.get(Position::Row, 0));
    assert_eq!(vec![3, 5, 6, 9], matrica.get(Position::Row, 2));
    assert_eq!(vec![10, 6, 3, 4], matrica.get(Position::Column, 0));
    assert_eq!(vec![5, 3, 9, 6], matrica.get(Position::Column, 3));
}

#[test]
fn first_step_test() {
    let matrica = Matrix {
        rows: 4,
        columns: 4,
        matrix: vec![
            vec![10, 8, 4, 5],
            vec![6, 2, 12, 3],
            vec![3, 5, 6, 9],
            vec![4, 7, 8, 6],
        ],
    };
    let after = Matrix {
        rows: 4,
        columns: 4,
        matrix: vec![
            vec![6, 4, 0, 0],
            vec![4, 0, 10, 0],
            vec![0, 2, 3, 5],
            vec![0, 3, 4, 1],
        ],
    };
    assert_eq!(after.matrix, MadarskaMetoda::first_step(matrica).matrix);
}

#[test]
fn second_step_test() {
    let mut matrica = Matrix {
        rows: 4,
        columns: 4,
        matrix: vec![
            vec![10, 8, 4, 5],
            vec![6, 2, 12, 3],
            vec![3, 5, 6, 9],
            vec![4, 7, 8, 6],
        ],
    };
    let _crossed_test = vec![(0, 'C'), (0, 'R'), (1, 'R')];
    matrica = MadarskaMetoda::first_step(matrica);
    assert_eq!(4, matrica.rows);
}

#[test]
fn find_min_in_non_crossed_test() {
    let mut matrica = Matrix {
        rows: 4,
        columns: 4,
        matrix: vec![
            vec![10, 8, 4, 5],
            vec![6, 2, 12, 3],
            vec![3, 5, 6, 9],
            vec![4, 7, 8, 6],
        ],
    };
    matrica = MadarskaMetoda::first_step(matrica);
    let _crossed_test = MadarskaMetoda::second_step(&matrica);
}

#[test]
fn third_step_test() {
    let mut matrica = Matrix {
        rows: 4,
        columns: 4,
        matrix: vec![
            vec![6, 4, 0, 0],
            vec![4, 0, 10, 0],
            vec![0, 2, 3, 5],
            vec![0, 3, 4, 1],
        ],
    };
    let after = Matrix {
        rows: 4,
        columns: 4,
        matrix: vec![
            vec![7, 4, 0, 0],
            vec![5, 0, 10, 0],
            vec![0, 1, 2, 4],
            vec![0, 2, 3, 0],
        ],
    };
    let crossed_test = vec![(0, 'R'), (1, 'R'), (0, 'C')];
    matrica = MadarskaMetoda::third_step(matrica, &crossed_test);
    assert_eq!(after.matrix, matrica.matrix);
}

#[test]
fn get_optimal_result_positions_test() {
    let matrica = Matrix {
        rows: 4,
        columns: 4,
        matrix: vec![
            vec![0, 4, 6, 0],
            vec![2, 0, 0, 6],
            vec![1, 0, 3, 0],
            vec![0, 2, 0, 2],
        ],
    };
    let mut res = MadarskaMetoda::get_optimal_result_positions(&matrica);
    res.sort_by(|a, b| a.0.cmp(&b.0));
    assert_eq!(vec![(0, 0), (1, 1), (2, 3), (3, 2)], res);
}

#[test]
fn solve_test() {
    let matrica = Matrix {
        rows: 4,
        columns: 4,
        matrix: vec![
            vec![10, 8, 4, 5],
            vec![6, 2, 12, 3],
            vec![3, 5, 6, 9],
            vec![4, 7, 8, 6],
        ],
    };

    let matrica2 = Matrix {
        rows: 4,
        columns: 4,
        matrix: vec![
            vec![1, 5, 7, 1],
            vec![3, 1, 1, 7],
            vec![2, 1, 2, 4],
            vec![1, 3, 1, 3],
        ],
    };

    let matrica3 = Matrix {
        rows: 4,
        columns: 4,
        matrix: vec![
            vec![1, 5, 7, 1],
            vec![3, 1, 1, 7],
            vec![2, 1, 4, 1],
            vec![1, 3, 1, 3],
        ],
    };

    let matrica4 = Matrix::new(vec![
        vec![60, 59, 71, 15, 82],
        vec![21, 54, 63, 30, 92],
        vec![28, 7, 97, 5, 96],
        vec![70, 5, 95, 75, 31],
        vec![41, 64, 55, 85, 59],
    ]);

    assert_eq!(15, MadarskaMetoda::solve(&matrica));
    assert_eq!(4, MadarskaMetoda::solve(&matrica2));
    assert_eq!(4, MadarskaMetoda::solve(&matrica3));
    assert_eq!(129, MadarskaMetoda::solve(&matrica4));
}

#[test]
fn optimal_test() {
    let matrica = Matrix {
        rows: 4,
        columns: 4,
        matrix: vec![
            vec![1, 5, 0, 0],
            vec![3, 0, 1, 0],
            vec![0, 1, 4, 1],
            vec![0, 3, 1, 0],
        ],
    };
    let matrica2 = Matrix::new(vec![
        vec![0, 5, 7, 0],
        vec![3, 0, 0, 7],
        vec![2, 0, 4, 0],
        vec![0, 3, 0, 3],
    ]);

    let matrica3 = Matrix::new(vec![
        vec![35, 42, 32, 0, 39],
        vec![0, 41, 28, 19, 53],
        vec![13, 0, 68, 0, 63],
        vec![57, 0, 68, 72, 0],
        vec![0, 31, 0, 54, 0],
    ]);

    MadarskaMetoda::optimal(&matrica);
    MadarskaMetoda::optimal(&matrica2);
    MadarskaMetoda::optimal(&matrica3);
}
