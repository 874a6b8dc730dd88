use sudoku::simd::{has_simd_support, SimdBoard, SimdCandidateSet, SimdSolver, SimdValidator};
use sudoku::{Board, CandidateSet};

fn solved_rows() -> Vec<Vec<i32>> {
    vec![
        vec![5, 3, 4, 6, 7, 8, 9, 1, 2],
        vec![6, 7, 2, 1, 9, 5, 3, 4, 8],
        vec![1, 9, 8, 3, 4, 2, 5, 6, 7],
        vec![8, 5, 9, 7, 6, 1, 4, 2, 3],
        vec![4, 2, 6, 8, 5, 3, 7, 9, 1],
        vec![7, 1, 3, 9, 2, 4, 8, 5, 6],
        vec![9, 6, 1, 5, 3, 7, 2, 8, 4],
        vec![2, 8, 7, 4, 1, 9, 6, 3, 5],
        vec![3, 4, 5, 2, 8, 6, 1, 7, 9],
    ]
}

fn all_three(board: &Board) -> (bool, bool, bool) {
    (
        SimdValidator::validate_solution(board),
        SimdValidator::validate_solution_simd(board),
        SimdValidator::validate_solution_fallback(board),
    )
}

#[test]
fn test_simd_support_detection() {
    let _ = has_simd_support();
}

#[test]
fn test_simd_candidate_set() {
    if !has_simd_support() {
        return;
    }

    let mut simd_set = SimdCandidateSet::new();
    let values = 0x1;
    simd_set.remove_candidates(values);
    assert!(!simd_set.has_candidates(values));
}

#[test]
fn test_simd_board_validation() {
    let mut board = Board::empty();
    for i in 0..9 {
        board.set(0, i, (i + 1) as u8);
    }

    if has_simd_support() {
        let simd_board = SimdBoard::from_board(&board);
        assert!(simd_board.is_valid_row(0));
    }
}

#[test]
fn simd_support_is_reported() {
    assert!(has_simd_support());
}

#[test]
fn simd_candidate_set_masks() {
    let mut set = SimdCandidateSet::new();
    assert!(set.has_candidates(0x1FF));
    assert!(set.has_candidates(0x100));
    assert!(!set.has_candidates(0));
    assert!(!set.has_candidates(0xFE00));
    set.remove_candidates(0b1_0000_0101);
    assert!(!set.has_candidates(0b1_0000_0101));
    assert!(set.has_candidates(0b10));
    let plain = set.to_candidate_set();
    assert_eq!(plain.iter_candidates(), vec![2, 4, 5, 6, 7, 8]);
    assert_eq!(plain.count_candidates(), 6);

    let mut source = CandidateSet::empty();
    source.add_candidate(3);
    source.add_candidate(9);
    let simd = SimdCandidateSet::from_candidate_set(source);
    assert!(simd.has_candidates(0b100));
    assert!(simd.has_candidates(0x100));
    assert!(!simd.has_candidates(0b1111_1011));
    assert_eq!(simd.to_candidate_set().iter_candidates(), vec![3, 9]);
}

#[test]
fn simd_board_rows() {
    let board = Board::new(&solved_rows());
    let simd = SimdBoard::from_board(&board);
    for row in 0..9 {
        assert!(simd.is_valid_row(row));
    }
    assert!(simd.validate_multiple_rows(0, 9));
    assert!(simd.validate_multiple_rows(3, 0));

    let mut broken = board;
    broken.set(4, 8, 4);
    let simd = SimdBoard::from_board(&broken);
    assert!(!simd.is_valid_row(4));
    assert!(simd.is_valid_row(3));
    assert!(simd.validate_multiple_rows(0, 4));
    assert!(!simd.validate_multiple_rows(0, 5));
    assert!(!simd.validate_multiple_rows(4, 1));
    assert!(simd.validate_multiple_rows(5, 4));

    let mut broken = board;
    broken.set(2, 0, 0);
    assert!(!SimdBoard::from_board(&broken).is_valid_row(2));
    let mut broken = board;
    broken.set(2, 7, 10);
    assert!(!SimdBoard::from_board(&broken).is_valid_row(2));
    let mut broken = board;
    broken.set(2, 3, 255);
    assert!(!SimdBoard::from_board(&broken).is_valid_row(2));
}

#[test]
fn validators_accept_a_solved_board() {
    let board = Board::new(&solved_rows());
    assert_eq!(all_three(&board), (true, true, true));
}

#[test]
fn validators_agree_on_zeros() {
    assert_eq!(all_three(&Board::empty()), (false, false, false));
    for cell in 0..81 {
        let mut board = Board::new(&solved_rows());
        board.set(cell / 9, cell % 9, 0);
        assert_eq!(all_three(&board), (false, false, false));
    }
}

#[test]
fn validators_agree_on_out_of_range_values() {
    for value in [10u8, 11, 16, 17, 100, 255] {
        let mut board = Board::new(&solved_rows());
        board.set(8, 8, value);
        assert_eq!(all_three(&board), (false, false, false));
        let mut board = Board::new(&solved_rows());
        board.set(0, 0, value);
        assert_eq!(all_three(&board), (false, false, false));
    }
}

#[test]
fn validators_agree_on_duplicates() {
    // rows stay valid, columns and boxes break
    let mut rows = solved_rows();
    rows.swap(0, 3);
    let board = Board::new(&rows);
    assert_eq!(all_three(&board), (false, false, false));

    // rows and columns stay valid, boxes break
    let shifted: Vec<Vec<i32>> =
        (0..9).map(|r| (0..9).map(|c| ((r + c) % 9 + 1) as i32).collect()).collect();
    let board = Board::new(&shifted);
    assert_eq!(all_three(&board), (false, false, false));

    // one digit changed
    let mut board = Board::new(&solved_rows());
    board.set(4, 4, 6);
    assert_eq!(all_three(&board), (false, false, false));
}

#[test]
fn validate_placed_tells_contradictions() {
    assert!(SimdValidator::validate_placed(&Board::empty()));
    assert!(SimdValidator::validate_placed(&Board::new(&solved_rows())));
    let mut board = Board::empty();
    board.set(0, 0, 5);
    board.set(0, 1, 5);
    assert!(!SimdValidator::validate_placed(&board));
    let mut board = Board::empty();
    board.set(0, 0, 5);
    board.set(7, 0, 5);
    assert!(!SimdValidator::validate_placed(&board));
    let mut board = Board::empty();
    board.set(0, 0, 5);
    board.set(1, 1, 5);
    assert!(!SimdValidator::validate_placed(&board));
    let mut board = Board::empty();
    board.set(0, 0, 5);
    board.set(1, 3, 5);
    board.set(3, 1, 5);
    assert!(SimdValidator::validate_placed(&board));
    board.set(8, 8, 12);
    assert!(!SimdValidator::validate_placed(&board));
}

#[test]
fn mask_engine_legality() {
    let mut board = Board::empty();
    board.set(0, 0, 5);
    board.set(4, 4, 7);
    let mut engine = SimdSolver::new(&board);
    assert!(!engine.is_valid_candidate(0, 8, 5));
    assert!(!engine.is_valid_candidate(8, 0, 5));
    assert!(!engine.is_valid_candidate(2, 2, 5));
    assert!(engine.is_valid_candidate(3, 3, 5));
    assert!(!engine.is_valid_candidate(3, 3, 7));
    assert!(engine.is_valid_candidate(0, 8, 7));
    assert!(!engine.is_valid_candidate(0, 8, 0));
    assert!(!engine.is_valid_candidate(0, 8, 10));

    let copy = engine.clone();
    engine.update_masks(0, 8, 7);
    assert!(!engine.is_valid_candidate(0, 3, 7));
    assert!(!engine.is_valid_candidate(6, 8, 7));
    assert!(!engine.is_valid_candidate(1, 6, 7));
    assert!(engine.is_valid_candidate(1, 0, 7));
    assert!(copy.is_valid_candidate(0, 3, 7));
    assert!(copy.is_valid_candidate(6, 8, 7));
}

#[test]
fn mask_engine_passes_over_values_that_are_no_digits() {
    let mut board = Board::empty();
    board.set(0, 0, 12);
    let engine = SimdSolver::new(&board);
    for digit in 1..=9 {
        assert!(engine.is_valid_candidate(0, 1, digit));
    }
}
