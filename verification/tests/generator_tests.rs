use sudoku::generator::{
    count_solutions, pick_difficulty, BoardGenerator, Difficulty, DIFFICULTY_WEIGHTS,
};
use sudoku::simd::SimdValidator;
use sudoku::solver::Solver;
use sudoku::Board;

#[test]
fn test_board_generation() {
    let mut generator = BoardGenerator::new();
    let grid = generator.generate().unwrap();

    assert_eq!(grid.value.len(), 9);
    assert_eq!(grid.solution.len(), 9);
    for i in 0..9 {
        assert_eq!(grid.value[i].len(), 9);
        assert_eq!(grid.solution[i].len(), 9);
    }

    for row in 0..9 {
        for col in 0..9 {
            if grid.value[row][col] != 0 {
                assert_eq!(grid.value[row][col], grid.solution[row][col]);
            }
        }
    }
}

#[test]
fn test_difficulty_distribution() {
    let mut generator = BoardGenerator::new();
    let mut difficulties = std::collections::HashMap::new();

    for _ in 0..100 {
        let grid = generator.generate().unwrap();
        *difficulties.entry(grid.difficulty).or_insert(0) += 1;
    }

    assert!(difficulties.len() >= 2, "Should generate multiple difficulty levels");
}

#[test]
fn generated_puzzle_has_its_reference_as_only_solution() {
    for seed in 0..5u64 {
        let mut generator = BoardGenerator::with_seed(seed);
        let grid = generator.generate().unwrap();
        assert!(grid.check().is_ok());
        assert!(SimdValidator::validate_solution(&Board::new(&grid.solution)));
        let puzzle = Board::new(&grid.value);
        let mut found = Vec::new();
        assert_eq!(count_solutions(&puzzle, &mut found, 3), 1);
        assert_eq!(found[0].to_vec(), grid.solution);

        let empty = grid.value.iter().flatten().filter(|&&v| v == 0).count();
        let most = match grid.difficulty.as_str() {
            "Easy" => 35,
            "Medium" => 50,
            "Hard" => 60,
            other => panic!("unexpected label {}", other),
        };
        assert!(empty <= most);
        assert!(empty >= 1);

        let solution = grid.solution.clone();
        let mut solver = Solver::new(grid);
        assert_eq!(solver.solve().unwrap(), solution);
        assert!(solver.has_unique_solution());
        assert!(solver.verify_solution());
    }
}

#[test]
fn equal_seeds_give_equal_puzzles() {
    let first = BoardGenerator::with_seed(42).generate().unwrap();
    let second = BoardGenerator::with_seed(42).generate().unwrap();
    assert_eq!(first, second);
}

#[test]
fn other_seeds_give_other_boards() {
    let solutions: Vec<Vec<Vec<i32>>> =
        (1..=4).map(|seed| BoardGenerator::with_seed(seed).generate().unwrap().solution).collect();
    assert!(solutions.iter().any(|solution| *solution != solutions[0]));
    let first_row: Vec<i32> = (1..=9).collect();
    assert!(solutions.iter().any(|solution| solution[0] != first_row));
}

#[test]
fn filling_a_board() {
    let mut generator = BoardGenerator::with_seed(7);
    let mut board = Board::empty();
    assert!(generator.fill_board(&mut board, 0, 0));
    assert!(SimdValidator::validate_solution(&board));

    let mut board = Board::empty();
    board.set(0, 0, 9);
    board.set(4, 4, 1);
    assert!(generator.fill_board(&mut board, 0, 0));
    assert!(SimdValidator::validate_solution(&board));
    assert_eq!(board.get(0, 0), 9);
    assert_eq!(board.get(4, 4), 1);

    // the first row lacks 9 only, and the column of its empty cell holds 9
    let mut board = Board::empty();
    for col in 1..9 {
        board.set(0, col, col as u8);
    }
    board.set(1, 0, 9);
    let before = board;
    assert!(!generator.fill_board(&mut board, 0, 0));
    assert_eq!(board, before);
}

#[test]
fn removing_numbers() {
    let mut generator = BoardGenerator::with_seed(3);
    let mut solved = Board::empty();
    assert!(generator.fill_board(&mut solved, 0, 0));

    let mut board = solved;
    generator.remove_numbers(&mut board, 0);
    assert_eq!(board, solved);

    let mut board = solved;
    generator.remove_numbers(&mut board, 20);
    let empty = (0..81).filter(|&k| board.is_empty_cell(k / 9, k % 9)).count();
    assert_eq!(empty, 20);
    for k in 0..81 {
        let value = board.get(k / 9, k % 9);
        assert!(value == 0 || value == solved.get(k / 9, k % 9));
    }
    let mut found = Vec::new();
    assert_eq!(count_solutions(&board, &mut found, 2), 1);
    assert_eq!(found[0], solved);
}

#[test]
fn counting_solutions() {
    let mut generator = BoardGenerator::with_seed(11);
    let mut solved = Board::empty();
    assert!(generator.fill_board(&mut solved, 0, 0));
    let mut found = Vec::new();
    assert_eq!(count_solutions(&solved, &mut found, 2), 1);
    assert_eq!(count_solutions(&solved, &mut found, 2), 1);
    assert_eq!(found, vec![solved]);

    let mut found = Vec::new();
    assert_eq!(count_solutions(&Board::empty(), &mut found, 2), 2);
    assert_ne!(found[0], found[1]);
    assert!(SimdValidator::validate_solution(&found[0]));
    assert!(SimdValidator::validate_solution(&found[1]));
    // a full list is left as it is
    assert_eq!(count_solutions(&solved, &mut found, 2), 2);
    assert_eq!(found.len(), 2);

    let mut found = Vec::new();
    assert_eq!(count_solutions(&Board::empty(), &mut found, 0), 0);
}

#[test]
fn difficulty_by_weight() {
    assert_eq!(DIFFICULTY_WEIGHTS, [4, 62, 34]);
    assert_eq!(pick_difficulty(&DIFFICULTY_WEIGHTS, 0), Difficulty::Easy);
    assert_eq!(pick_difficulty(&DIFFICULTY_WEIGHTS, 3), Difficulty::Easy);
    assert_eq!(pick_difficulty(&DIFFICULTY_WEIGHTS, 4), Difficulty::Medium);
    assert_eq!(pick_difficulty(&DIFFICULTY_WEIGHTS, 65), Difficulty::Medium);
    assert_eq!(pick_difficulty(&DIFFICULTY_WEIGHTS, 66), Difficulty::Hard);
    assert_eq!(pick_difficulty(&DIFFICULTY_WEIGHTS, 99), Difficulty::Hard);
    assert_eq!(pick_difficulty(&DIFFICULTY_WEIGHTS, 100), Difficulty::Medium);
    assert_eq!(pick_difficulty(&[0, 0, 0], 0), Difficulty::Medium);
    assert_eq!(Difficulty::Easy.label(), "Easy");
    assert_eq!(Difficulty::Medium.label(), "Medium");
    assert_eq!(Difficulty::Hard.label(), "Hard");
    assert_eq!((Difficulty::Easy.fewest_removed(), Difficulty::Easy.most_removed()), (30, 35));
    assert_eq!((Difficulty::Medium.fewest_removed(), Difficulty::Medium.most_removed()), (40, 50));
    assert_eq!((Difficulty::Hard.fewest_removed(), Difficulty::Hard.most_removed()), (51, 60));
    let mut generator = BoardGenerator::with_seed(1);
    let mut seen = std::collections::HashSet::new();
    for _ in 0..200 {
        seen.insert(generator.get_weighted_difficulty().label());
    }
    assert!(seen.contains("Medium") && seen.contains("Hard"));
}
