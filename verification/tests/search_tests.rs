use sudoku::search::{
    explore_branch, fan_out, find_next_empty, is_valid_placement, is_valid_solution,
    try_solve_with_value,
};
use sudoku::selection::{
    calculate_impact, find_empty_cells, order_by_impact, placement_impact, precompute_candidates,
};
use sudoku::simd::SimdSolver;
use sudoku::Board;

fn reference_rows() -> Vec<Vec<i32>> {
    vec![
        vec![5, 3, 4, 6, 7, 8, 9, 1, 2],
        vec![6, 7, 2, 1, 9, 5, 3, 4, 8],
        vec![1, 9, 8, 3, 4, 2, 5, 6, 7],
        vec![8, 5, 9, 7, 6, 1, 4, 2, 3],
        vec![4, 2, 6, 8, 5, 3, 7, 9, 1],
        vec![7, 1, 3, 9, 2, 4, 8, 5, 6],
        vec![9, 6, 1, 5, 3, 7, 2, 8, 4],
        vec![2, 8, 7, 4, 1, 9, 6, 3, 5],
        vec![3, 4, 5, 2, 8, 6, 1, 7, 9],
    ]
}

fn puzzle_rows() -> Vec<Vec<i32>> {
    vec![
        vec![5, 3, 0, 0, 7, 0, 0, 0, 0],
        vec![6, 0, 0, 1, 9, 5, 0, 0, 0],
        vec![0, 9, 8, 0, 0, 0, 0, 6, 0],
        vec![8, 0, 0, 0, 6, 0, 0, 0, 3],
        vec![4, 0, 0, 8, 0, 3, 0, 0, 1],
        vec![7, 0, 0, 0, 2, 0, 0, 0, 6],
        vec![0, 6, 0, 0, 0, 0, 2, 8, 0],
        vec![0, 0, 0, 4, 1, 9, 0, 0, 5],
        vec![0, 0, 0, 0, 8, 0, 0, 7, 9],
    ]
}

fn first_grid() -> Vec<Vec<i32>> {
    vec![
        vec![1, 2, 3, 4, 5, 6, 7, 8, 9],
        vec![4, 5, 6, 7, 8, 9, 1, 2, 3],
        vec![7, 8, 9, 1, 2, 3, 4, 5, 6],
        vec![2, 1, 4, 3, 6, 5, 8, 9, 7],
        vec![3, 6, 5, 8, 9, 7, 2, 1, 4],
        vec![8, 9, 7, 2, 1, 4, 3, 6, 5],
        vec![5, 3, 1, 6, 4, 2, 9, 7, 8],
        vec![6, 4, 2, 9, 7, 8, 5, 3, 1],
        vec![9, 7, 8, 5, 3, 1, 6, 4, 2],
    ]
}

#[test]
fn placement_is_read_from_the_three_units() {
    let board = Board::new(&puzzle_rows());
    // cell (0, 2): row holds 5 3 7, column holds 8, box holds 5 3 6 9 8
    let legal: Vec<u8> = (1..=9).filter(|&d| is_valid_placement(&board, 0, 2, d)).collect();
    assert_eq!(legal, vec![1, 2, 4]);
    // cell (4, 4): row 4 8 3 1, column 7 9 6 2 1 8, box 6 8 3 2
    let legal: Vec<u8> = (1..=9).filter(|&d| is_valid_placement(&board, 4, 4, d)).collect();
    assert_eq!(legal, vec![5]);
    assert!(!is_valid_placement(&board, 0, 2, 0));
    assert!(is_valid_placement(&Board::empty(), 3, 3, 9));
    assert!(!is_valid_placement(&Board::empty(), 3, 3, 0));
}

#[test]
fn engine_and_board_agree_on_every_placement() {
    let board = Board::new(&puzzle_rows());
    let engine = SimdSolver::new(&board);
    for row in 0..9 {
        for col in 0..9 {
            for digit in 1..=9 {
                assert_eq!(
                    engine.is_valid_candidate(row, col, digit),
                    is_valid_placement(&board, row, col, digit)
                );
            }
        }
    }
}

#[test]
fn next_empty_cell_is_the_first_in_row_major_order() {
    assert_eq!(find_next_empty(&Board::empty()), Some((0, 0)));
    assert_eq!(find_next_empty(&Board::new(&puzzle_rows())), Some((0, 2)));
    assert_eq!(find_next_empty(&Board::new(&reference_rows())), None);
    let mut board = Board::new(&reference_rows());
    board.set(8, 8, 0);
    assert_eq!(find_next_empty(&board), Some((8, 8)));
    board.set(3, 0, 0);
    assert_eq!(find_next_empty(&board), Some((3, 0)));
}

#[test]
fn search_below_a_placement() {
    for with_engine in [true, false] {
        let puzzle = Board::new(&puzzle_rows());
        let engine = if with_engine { Some(SimdSolver::new(&puzzle)) } else { None };

        let mut board = puzzle;
        assert!(try_solve_with_value(0, 2, 4, &mut board, engine));
        assert_eq!(board.to_vec(), reference_rows());

        let mut board = puzzle;
        assert!(!try_solve_with_value(0, 2, 1, &mut board, engine));
        let mut placed = puzzle;
        placed.set(0, 2, 1);
        assert_eq!(board, placed);

        // a digit that the row holds already: the search runs and fails
        let mut board = puzzle;
        assert!(!try_solve_with_value(0, 2, 5, &mut board, engine));
        let mut placed = puzzle;
        placed.set(0, 2, 5);
        assert_eq!(board, placed);
    }
}

#[test]
fn search_finds_the_first_solution() {
    let board = Board::empty();
    let engine = Some(SimdSolver::new(&board));
    let found = explore_branch(&board, &engine, 0, 0, 1).unwrap();
    assert_eq!(found.to_vec(), first_grid());
    assert!(is_valid_solution(&found));
    let found = explore_branch(&board, &None, 0, 0, 1).unwrap();
    assert_eq!(found.to_vec(), first_grid());

    let nine_first = explore_branch(&board, &engine, 0, 0, 9).unwrap();
    assert!(is_valid_solution(&nine_first));
    assert_eq!(nine_first.to_vec()[0], vec![9, 1, 2, 3, 4, 5, 6, 7, 8]);
    assert_eq!(board, Board::empty());
}

#[test]
fn search_on_the_last_cell() {
    let mut board = Board::new(&reference_rows());
    board.set(0, 8, 0);
    let engine = Some(SimdSolver::new(&board));
    assert_eq!(explore_branch(&board, &engine, 0, 8, 2).unwrap().to_vec(), reference_rows());
    for digit in [1u8, 3, 4, 5, 6, 7, 8, 9] {
        assert!(explore_branch(&board, &engine, 0, 8, digit).is_none());
        assert!(explore_branch(&board, &None, 0, 8, digit).is_none());
    }
}

#[test]
fn fan_out_takes_the_first_digit_that_leads_to_a_solution() {
    let board = Board::new(&puzzle_rows());
    let engine = Some(SimdSolver::new(&board));
    let found = fan_out(&board, &engine, 0, 2, vec![1, 2, 4]).unwrap();
    assert_eq!(found.to_vec(), reference_rows());

    let empty = Board::empty();
    let engine = Some(SimdSolver::new(&empty));
    let found = fan_out(&empty, &engine, 0, 0, vec![1, 2, 3, 4, 5, 6, 7, 8, 9]).unwrap();
    assert_eq!(found.to_vec(), first_grid());
    let found = fan_out(&empty, &None, 4, 4, vec![1, 2, 3, 4, 5, 6, 7, 8, 9]).unwrap();
    assert!(is_valid_solution(&found));
    assert_eq!(found.get(4, 4), 1);

    // two fives in the first row: no digit of the cell leads to a solution
    let mut rows = puzzle_rows();
    rows[0][1] = 5;
    let board = Board::new(&rows);
    let engine = Some(SimdSolver::new(&board));
    let digits: Vec<u8> = (1..=9).filter(|&d| is_valid_placement(&board, 0, 2, d)).collect();
    assert!(fan_out(&board, &engine, 0, 2, digits).is_none());
}

#[test]
fn candidate_table_of_a_puzzle() {
    let board = Board::new(&puzzle_rows());
    let table = precompute_candidates(&board);
    assert_eq!(table.len(), 81);
    assert_eq!(table[2].iter_candidates(), vec![1, 2, 4]);
    assert_eq!(table[4 * 9 + 4].iter_candidates(), vec![5]);
    assert!(table[0].is_empty());
    assert!(table[1].is_empty());
    for row in 0..9 {
        for col in 0..9 {
            let expected: Vec<u8> = if board.is_empty_cell(row, col) {
                (1..=9).filter(|&d| is_valid_placement(&board, row, col, d)).collect()
            } else {
                Vec::new()
            };
            assert_eq!(table[row * 9 + col].iter_candidates(), expected);
        }
    }
}

#[test]
fn impact_on_the_empty_board() {
    let board = Board::empty();
    let table = precompute_candidates(&board);
    for (row, col) in [(0, 0), (4, 4), (8, 8), (2, 7)] {
        assert_eq!(calculate_impact(&board, &table, row, col), 180);
    }
    let cells = find_empty_cells(&board, &table);
    assert_eq!(cells.len(), 81);
    assert_eq!(cells[0], (0, 0));
    assert_eq!(cells[80], (8, 8));
    assert_eq!(cells[10], (1, 1));
}

#[test]
fn impact_and_selection_with_one_digit_placed() {
    let mut board = Board::empty();
    board.set(0, 0, 5);
    let table = precompute_candidates(&board);
    assert_eq!(table[1].count_candidates(), 8);
    assert_eq!(table[40].count_candidates(), 9);
    // 19 empty neighbours, 8 digits shared with each
    assert_eq!(calculate_impact(&board, &table, 0, 1), 152);
    assert_eq!(calculate_impact(&board, &table, 0, 3), 152);
    assert_eq!(calculate_impact(&board, &table, 1, 1), 152);
    // 20 empty neighbours, of which (4, 0) and (0, 4) lack the 5
    assert_eq!(calculate_impact(&board, &table, 4, 4), 178);
    assert_eq!(placement_impact(&board, &table, 4, 4, 1), 178);
    assert_eq!(placement_impact(&board, &table, 4, 4, 9), 178);

    let cells = find_empty_cells(&board, &table);
    let expected: Vec<(usize, usize)> = vec![
        (0, 1), (0, 2), (0, 3), (0, 4), (0, 5), (0, 6), (0, 7), (0, 8),
        (1, 0), (1, 1), (1, 2), (2, 0), (2, 1), (2, 2),
        (3, 0), (4, 0), (5, 0), (6, 0), (7, 0), (8, 0),
    ];
    assert_eq!(cells, expected);
    assert_eq!(order_by_impact(&board, &table, 0, 1, vec![1, 2, 3, 4, 6, 7, 8, 9]),
        vec![1, 2, 3, 4, 6, 7, 8, 9]);
    assert_eq!(order_by_impact(&board, &table, 0, 1, vec![9, 1, 4]), vec![9, 1, 4]);
}

#[test]
fn selection_prefers_fewest_candidates_then_greatest_impact() {
    let board = Board::new(&puzzle_rows());
    let table = precompute_candidates(&board);
    let cells = find_empty_cells(&board, &table);
    assert!(!cells.is_empty());
    let count = |cell: (usize, usize)| table[cell.0 * 9 + cell.1].count_candidates();
    let fewest = (0..81)
        .filter(|&k| board.is_empty_cell(k / 9, k % 9))
        .map(|k| table[k].count_candidates())
        .min()
        .unwrap();
    assert_eq!(fewest, 1);
    let greatest = (0..81)
        .filter(|&k| board.is_empty_cell(k / 9, k % 9) && table[k].count_candidates() == fewest)
        .map(|k| calculate_impact(&board, &table, k / 9, k % 9))
        .max()
        .unwrap();
    for &cell in cells.iter() {
        assert_eq!(count(cell), fewest);
        assert_eq!(calculate_impact(&board, &table, cell.0, cell.1), greatest);
    }
    let all: Vec<(usize, usize)> = (0..81)
        .map(|k| (k / 9, k % 9))
        .filter(|&(r, c)| {
            board.is_empty_cell(r, c)
                && table[r * 9 + c].count_candidates() == fewest
                && calculate_impact(&board, &table, r, c) == greatest
        })
        .collect();
    assert_eq!(cells, all);

    assert!(find_empty_cells(&Board::new(&reference_rows()),
        &precompute_candidates(&Board::new(&reference_rows()))).is_empty());
}
