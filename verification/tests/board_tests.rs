use sudoku::grid::check_matrix;
use sudoku::{Board, CandidateSet, Grid, SudokuError};

#[test]
fn candidate_set_all_and_empty() {
    let all = CandidateSet::all();
    assert_eq!(all.count_candidates(), 9);
    assert!(!all.is_empty());
    assert_eq!(all.iter_candidates(), vec![1, 2, 3, 4, 5, 6, 7, 8, 9]);
    for n in 1..=9 {
        assert!(all.has_candidate(n));
    }
    let empty = CandidateSet::empty();
    assert_eq!(empty.count_candidates(), 0);
    assert!(empty.is_empty());
    assert_eq!(empty.iter_candidates(), Vec::<u8>::new());
    for n in 1..=9 {
        assert!(!empty.has_candidate(n));
    }
    assert!(CandidateSet::default().is_empty());
}

#[test]
fn candidate_set_add_and_remove() {
    let mut set = CandidateSet::empty();
    set.add_candidate(9);
    set.add_candidate(1);
    set.add_candidate(4);
    set.add_candidate(4);
    assert_eq!(set.iter_candidates(), vec![1, 4, 9]);
    assert_eq!(set.count_candidates(), 3);
    assert!(set.has_candidate(1) && set.has_candidate(4) && set.has_candidate(9));
    assert!(!set.has_candidate(2) && !set.has_candidate(8));
    set.remove_candidate(4);
    set.remove_candidate(5);
    assert_eq!(set.iter_candidates(), vec![1, 9]);
    assert_eq!(set.iter_candidates(), vec![1, 9]);
    set.remove_candidate(1);
    set.remove_candidate(9);
    assert!(set.is_empty());
}

#[test]
fn candidate_set_common_digits() {
    let mut a = CandidateSet::empty();
    let mut b = CandidateSet::empty();
    for n in [1u8, 2, 3, 7] {
        a.add_candidate(n);
    }
    for n in [2u8, 7, 8, 9] {
        b.add_candidate(n);
    }
    assert_eq!(a.count_common(&b), 2);
    assert_eq!(a.count_common(&CandidateSet::all()), 4);
    assert_eq!(a.count_common(&CandidateSet::empty()), 0);
}

#[test]
fn board_cells() {
    let mut board = Board::empty();
    for r in 0..9 {
        for c in 0..9 {
            assert_eq!(board.get(r, c), 0);
            assert!(board.is_empty_cell(r, c));
        }
    }
    board.set(2, 7, 4);
    assert_eq!(board.get(2, 7), 4);
    assert!(!board.is_empty_cell(2, 7));
    assert!(board.is_empty_cell(7, 2));
    let rows = board.to_vec();
    assert_eq!(rows.len(), 9);
    assert_eq!(rows[2], vec![0, 0, 0, 0, 0, 0, 0, 4, 0]);
    assert_eq!(rows[7], vec![0; 9]);
    assert_eq!(Board::new(&rows), board);
    assert_ne!(Board::empty(), board);
    let copy = board.clone();
    board.set(2, 7, 0);
    assert_eq!(copy.get(2, 7), 4);
    assert_eq!(board, Board::empty());
}

#[test]
fn board_from_matrix_is_row_major() {
    let rows: Vec<Vec<i32>> =
        (0..9).map(|r| (0..9).map(|c| ((r * 9 + c) % 10) as i32).collect()).collect();
    let board = Board::new(&rows);
    for r in 0..9 {
        for c in 0..9 {
            assert_eq!(board.get(r, c) as usize, (r * 9 + c) % 10);
        }
    }
    assert_eq!(board.to_vec(), rows);
}

#[test]
fn box_index() {
    assert_eq!(Board::get_box_index(0, 0), 0);
    assert_eq!(Board::get_box_index(2, 2), 0);
    assert_eq!(Board::get_box_index(0, 3), 1);
    assert_eq!(Board::get_box_index(1, 8), 2);
    assert_eq!(Board::get_box_index(3, 0), 3);
    assert_eq!(Board::get_box_index(4, 4), 4);
    assert_eq!(Board::get_box_index(5, 6), 5);
    assert_eq!(Board::get_box_index(6, 2), 6);
    assert_eq!(Board::get_box_index(8, 5), 7);
    assert_eq!(Board::get_box_index(8, 8), 8);
}

#[test]
fn matrix_checks() {
    let good = vec![vec![0; 9]; 9];
    assert!(check_matrix(&good).is_ok());
    assert!(matches!(check_matrix(&vec![vec![0; 9]; 8]), Err(SudokuError::InvalidBoard)));
    assert!(matches!(check_matrix(&vec![vec![0; 9]; 10]), Err(SudokuError::InvalidBoard)));
    let mut short = good.clone();
    short[4].pop();
    assert!(matches!(check_matrix(&short), Err(SudokuError::InvalidBoard)));
    let mut bad = good.clone();
    bad[3][5] = 10;
    bad[6][0] = -1;
    assert!(matches!(
        check_matrix(&bad),
        Err(SudokuError::InvalidValue { row: 3, col: 5, value: 10 })
    ));
    bad[3][5] = 9;
    assert!(matches!(
        check_matrix(&bad),
        Err(SudokuError::InvalidValue { row: 6, col: 0, value: -1 })
    ));

    let grid = Grid { value: good.clone(), solution: good.clone(), difficulty: "Easy".to_string() };
    assert!(grid.check().is_ok());
    let grid = Grid { value: good.clone(), solution: bad.clone(), difficulty: "Easy".to_string() };
    assert!(matches!(grid.check(), Err(SudokuError::InvalidValue { row: 6, col: 0, value: -1 })));
    let grid = Grid { value: short, solution: good, difficulty: "Easy".to_string() };
    assert!(matches!(grid.check(), Err(SudokuError::InvalidBoard)));
}
