use sudoku::simd::SimdValidator;
use sudoku::solver::Solver;
use sudoku::{Board, Grid, SudokuError};

fn classic_puzzle() -> Vec<Vec<i32>> {
    vec![
        vec![5, 3, 0, 0, 7, 0, 0, 0, 0],
        vec![6, 0, 0, 1, 9, 5, 0, 0, 0],
        vec![0, 9, 8, 0, 0, 0, 0, 6, 0],
        vec![8, 0, 0, 0, 6, 0, 0, 0, 3],
        vec![4, 0, 0, 8, 0, 3, 0, 0, 1],
        vec![7, 0, 0, 0, 2, 0, 0, 0, 6],
        vec![0, 6, 0, 0, 0, 0, 2, 8, 0],
        vec![0, 0, 0, 4, 1, 9, 0, 0, 5],
        vec![0, 0, 0, 0, 8, 0, 0, 7, 9],
    ]
}

fn classic_solution() -> Vec<Vec<i32>> {
    vec![
        vec![5, 3, 4, 6, 7, 8, 9, 1, 2],
        vec![6, 7, 2, 1, 9, 5, 3, 4, 8],
        vec![1, 9, 8, 3, 4, 2, 5, 6, 7],
        vec![8, 5, 9, 7, 6, 1, 4, 2, 3],
        vec![4, 2, 6, 8, 5, 3, 7, 9, 1],
        vec![7, 1, 3, 9, 2, 4, 8, 5, 6],
        vec![9, 6, 1, 5, 3, 7, 2, 8, 4],
        vec![2, 8, 7, 4, 1, 9, 6, 3, 5],
        vec![3, 4, 5, 2, 8, 6, 1, 7, 9],
    ]
}

fn first_grid() -> Vec<Vec<i32>> {
    vec![
        vec![1, 2, 3, 4, 5, 6, 7, 8, 9],
        vec![4, 5, 6, 7, 8, 9, 1, 2, 3],
        vec![7, 8, 9, 1, 2, 3, 4, 5, 6],
        vec![2, 1, 4, 3, 6, 5, 8, 9, 7],
        vec![3, 6, 5, 8, 9, 7, 2, 1, 4],
        vec![8, 9, 7, 2, 1, 4, 3, 6, 5],
        vec![5, 3, 1, 6, 4, 2, 9, 7, 8],
        vec![6, 4, 2, 9, 7, 8, 5, 3, 1],
        vec![9, 7, 8, 5, 3, 1, 6, 4, 2],
    ]
}

#[test]
fn test_solver_with_valid_board() {
    let grid = Grid {
        value: classic_puzzle(),
        solution: classic_solution(),
        difficulty: "Medium".to_string(),
    };

    let mut solver = Solver::new(grid);
    let solution = solver.solve().unwrap();

    assert_eq!(solution.len(), 9);
    for row in solution.iter() {
        assert_eq!(row.len(), 9);
        let mut nums = row.clone();
        nums.sort_unstable();
        assert_eq!(nums, (1..=9).collect::<Vec<i32>>());
    }

    assert!(solver.verify_solution());
}

#[test]
fn test_solution_matching() {
    let grid = Grid {
        value: classic_puzzle(),
        solution: classic_solution(),
        difficulty: "Medium".to_string(),
    };

    let mut solver = Solver::new(grid);
    solver.solve().unwrap();
    assert!(solver.has_unique_solution(), "Solution should match API's solution");
}

#[test]
fn test_invalid_board() {
    let mut value = classic_puzzle();
    value[0][1] = 5;
    let grid = Grid {
        value,
        solution: vec![vec![0; 9]; 9],
        difficulty: "Medium".to_string(),
    };

    let mut solver = Solver::new(grid);
    assert!(solver.solve().is_err(), "Should fail with invalid board");
}

#[test]
fn test_empty_board() {
    let grid = Grid {
        value: vec![vec![0; 9]; 9],
        solution: vec![
            vec![1, 2, 3, 4, 5, 6, 7, 8, 9],
            vec![4, 5, 6, 7, 8, 9, 1, 2, 3],
            vec![7, 8, 9, 1, 2, 3, 4, 5, 6],
            vec![2, 3, 1, 5, 6, 4, 8, 9, 7],
            vec![5, 6, 4, 8, 9, 7, 2, 3, 1],
            vec![8, 9, 7, 2, 3, 1, 5, 6, 4],
            vec![3, 1, 2, 6, 4, 5, 9, 7, 8],
            vec![6, 4, 5, 9, 7, 8, 3, 1, 2],
            vec![9, 7, 8, 3, 1, 2, 6, 4, 5],
        ],
        difficulty: "Easy".to_string(),
    };

    let mut solver = Solver::new(grid);
    let solution = solver.solve().unwrap();

    assert!(solver.is_valid_solution(&Board::new(&solution)));
    assert!(!solver.has_unique_solution(), "Empty board should have multiple solutions");
}

#[test]
fn test_almost_complete_board() {
    let mut value = classic_solution();
    value[0][8] = 0;
    let grid = Grid {
        value,
        solution: classic_solution(),
        difficulty: "Easy".to_string(),
    };

    let mut solver = Solver::new(grid);
    solver.solve().unwrap();
    assert!(solver.has_unique_solution(), "Board with one empty cell should have unique solution");
    assert!(solver.verify_solution(), "Solution should match API's solution");
}

#[test]
fn test_simd_solution_validation() {
    let grid = Grid {
        value: classic_solution(),
        solution: vec![vec![0; 9]; 9],
        difficulty: "Test".to_string(),
    };

    let board = Board::new(&grid.value);
    assert!(SimdValidator::validate_solution(&board));
}

#[test]
fn classic_puzzle_solves_to_its_reference() {
    let grid = Grid {
        value: classic_puzzle(),
        solution: classic_solution(),
        difficulty: "Medium".to_string(),
    };
    let mut solver = Solver::new(grid);
    assert!(solver.has_unique_solution());
    let solution = solver.solve().unwrap();
    assert_eq!(solution, classic_solution());
    assert_eq!(solver.get_solution(), classic_solution());
    assert_eq!(solver.get_original_solution(), classic_solution());
    assert!(solver.has_unique_solution());
    assert!(solver.verify_solution());
}

#[test]
fn solution_keeps_the_fixed_cells() {
    let puzzle = classic_puzzle();
    let grid = Grid {
        value: puzzle.clone(),
        solution: vec![vec![0; 9]; 9],
        difficulty: "Medium".to_string(),
    };
    let mut solver = Solver::new(grid);
    let solution = solver.solve().unwrap();
    for r in 0..9 {
        for c in 0..9 {
            if puzzle[r][c] != 0 {
                assert_eq!(solution[r][c], puzzle[r][c]);
            }
        }
    }
    assert!(SimdValidator::validate_solution(&Board::new(&solution)));
    assert!(SimdValidator::validate_solution_fallback(&Board::new(&solution)));
    assert!(SimdValidator::validate_solution_simd(&Board::new(&solution)));
    assert!(!solver.has_unique_solution());
    assert!(!solver.verify_solution());
}

#[test]
fn contradiction_fails_with_invalid_board() {
    let mut value = classic_puzzle();
    value[0][1] = 5;
    let grid = Grid {
        value: value.clone(),
        solution: vec![vec![0; 9]; 9],
        difficulty: "Medium".to_string(),
    };
    let mut solver = Solver::new(grid);
    assert!(matches!(solver.solve(), Err(SudokuError::InvalidBoard)));
    assert_eq!(solver.get_solution(), value);
    assert!(!solver.has_unique_solution());
}

#[test]
fn contradiction_in_a_column_or_box_fails() {
    let mut value = vec![vec![0; 9]; 9];
    value[0][0] = 7;
    value[8][0] = 7;
    let mut solver = Solver::new(Grid {
        value,
        solution: vec![vec![0; 9]; 9],
        difficulty: "x".to_string(),
    });
    assert!(matches!(solver.solve(), Err(SudokuError::InvalidBoard)));

    let mut value = vec![vec![0; 9]; 9];
    value[3][3] = 2;
    value[5][5] = 2;
    let mut solver = Solver::new(Grid {
        value,
        solution: vec![vec![0; 9]; 9],
        difficulty: "x".to_string(),
    });
    assert!(matches!(solver.solve(), Err(SudokuError::InvalidBoard)));
}

#[test]
fn empty_board_solves_to_the_first_grid() {
    let grid = Grid {
        value: vec![vec![0; 9]; 9],
        solution: first_grid(),
        difficulty: "Easy".to_string(),
    };
    let mut solver = Solver::new(grid);
    let solution = solver.solve().unwrap();
    assert_eq!(solution, first_grid());
    assert!(solver.has_unique_solution());
    assert!(solver.verify_solution());
}

#[test]
fn full_valid_board_is_returned_as_it_is() {
    let grid = Grid {
        value: classic_solution(),
        solution: vec![vec![0; 9]; 9],
        difficulty: "Test".to_string(),
    };
    let mut solver = Solver::new(grid);
    assert_eq!(solver.solve().unwrap(), classic_solution());
    assert!(solver.has_unique_solution());
    assert!(!solver.verify_solution());
}

#[test]
fn full_invalid_board_fails() {
    let mut value = classic_solution();
    value[4][4] = 6;
    let grid = Grid {
        value,
        solution: classic_solution(),
        difficulty: "Test".to_string(),
    };
    let mut solver = Solver::new(grid);
    assert!(matches!(solver.solve(), Err(SudokuError::InvalidBoard)));
    assert!(solver.has_unique_solution());
}

#[test]
fn cell_without_candidates_fails() {
    let mut value = vec![vec![0; 9]; 9];
    for c in 1..9 {
        value[0][c] = c as i32;
    }
    value[1][0] = 9;
    let grid = Grid {
        value,
        solution: vec![vec![0; 9]; 9],
        difficulty: "x".to_string(),
    };
    let mut solver = Solver::new(grid);
    assert!(matches!(solver.solve(), Err(SudokuError::InvalidBoard)));
    assert!(solver.has_unique_solution());
}

#[test]
fn solving_twice_gives_the_same_board() {
    let grid = Grid {
        value: classic_puzzle(),
        solution: classic_solution(),
        difficulty: "Medium".to_string(),
    };
    let mut solver = Solver::new(grid);
    let first = solver.solve().unwrap();
    let second = solver.solve().unwrap();
    assert_eq!(first, second);
    assert!(solver.has_unique_solution());
}
