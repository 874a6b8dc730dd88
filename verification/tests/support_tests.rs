use sudoku::api::{
    first_grid, rate_limit_wait, retry_delay_millis, BoardCache, FetchAction, FetchPlan,
    CACHE_SIZE, LOCAL_GENERATION_THRESHOLD, MAX_RETRIES, MIN_REQUEST_INTERVAL_NANOS,
};
use sudoku::benchmark::{
    check_board_count, classify_difficulty, classify_lowered, summarize, BoardOutcome,
    DifficultyClass, DifficultyStats, NO_MIN_DURATION,
};
use sudoku::generator::BoardGenerator;
use sudoku::render::render_board;
use sudoku::{ApiResponse, BoardWrapper, Grid, SudokuError};

fn grid(label: &str) -> Grid {
    Grid {
        value: vec![vec![0; 9]; 9],
        solution: vec![vec![0; 9]; 9],
        difficulty: label.to_string(),
    }
}

#[test]
fn test_cache() {
    let mut cache = BoardCache::new();
    let test_board = Grid {
        value: vec![
            vec![5, 3, 0, 0, 7, 0, 0, 0, 0],
            vec![6, 0, 0, 1, 9, 5, 0, 0, 0],
            vec![0, 9, 8, 0, 0, 0, 0, 6, 0],
            vec![8, 0, 0, 0, 6, 0, 0, 0, 3],
            vec![4, 0, 0, 8, 0, 3, 0, 0, 1],
            vec![7, 0, 0, 0, 2, 0, 0, 0, 6],
            vec![0, 6, 0, 0, 0, 0, 2, 8, 0],
            vec![0, 0, 0, 4, 1, 9, 0, 0, 5],
            vec![0, 0, 0, 0, 8, 0, 0, 7, 9],
        ],
        solution: vec![
            vec![5, 3, 4, 6, 7, 8, 9, 1, 2],
            vec![6, 7, 2, 1, 9, 5, 3, 4, 8],
            vec![1, 9, 8, 3, 4, 2, 5, 6, 7],
            vec![8, 5, 9, 7, 6, 1, 4, 2, 3],
            vec![4, 2, 6, 8, 5, 3, 7, 9, 1],
            vec![7, 1, 3, 9, 2, 4, 8, 5, 6],
            vec![9, 6, 1, 5, 3, 7, 2, 8, 4],
            vec![2, 8, 7, 4, 1, 9, 6, 3, 5],
            vec![3, 4, 5, 2, 8, 6, 1, 7, 9],
        ],
        difficulty: "Medium".to_string(),
    };

    cache.add_to_cache(test_board.clone());

    let cached_board = cache.get_from_cache().expect("Failed to retrieve from cache");
    assert_eq!(cached_board.value, test_board.value);
    assert_eq!(cached_board.solution, test_board.solution);
    assert_eq!(cached_board.difficulty, test_board.difficulty);
}

#[test]
fn cache_gives_the_newest_first() {
    let mut cache = BoardCache::new();
    assert!(cache.is_empty());
    assert!(cache.get_from_cache().is_none());
    cache.add_to_cache(grid("a"));
    cache.add_to_cache(grid("b"));
    cache.add_to_cache(grid("c"));
    assert_eq!(cache.len(), 3);
    assert_eq!(cache.get_from_cache().unwrap().difficulty, "c");
    assert_eq!(cache.get_from_cache().unwrap().difficulty, "b");
    assert_eq!(cache.get_from_cache().unwrap().difficulty, "a");
    assert!(cache.get_from_cache().is_none());
    assert!(cache.is_empty());
}

#[test]
fn full_cache_gives_up_its_last_puzzle() {
    assert_eq!(CACHE_SIZE, 1000);
    let mut cache = BoardCache::new();
    for i in 0..CACHE_SIZE {
        cache.add_to_cache(grid(&format!("{}", i)));
    }
    assert_eq!(cache.len(), CACHE_SIZE);
    cache.add_to_cache(grid("new"));
    assert_eq!(cache.len(), CACHE_SIZE);
    assert_eq!(cache.get_from_cache().unwrap().difficulty, "new");
    assert_eq!(cache.get_from_cache().unwrap().difficulty, "999");
    let mut last = String::new();
    while let Some(board) = cache.get_from_cache() {
        last = board.difficulty;
    }
    assert_eq!(last, "1");
}

#[test]
fn empty_cache_is_filled_from_the_generator() {
    assert_eq!(LOCAL_GENERATION_THRESHOLD, 100);
    let mut generator = BoardGenerator::with_seed(5);
    let mut cache = BoardCache::new();
    cache.initialize_cache(&mut generator);
    assert_eq!(cache.len(), 100);
    let first = cache.get_from_cache().unwrap();
    assert!(first.check().is_ok());
    cache.initialize_cache(&mut generator);
    assert_eq!(cache.len(), 99);
}

#[test]
fn pause_between_requests() {
    assert_eq!(MIN_REQUEST_INTERVAL_NANOS, 100_000_000);
    assert_eq!(rate_limit_wait(0), Some(100_000_000));
    assert_eq!(rate_limit_wait(1), Some(99_999_999));
    assert_eq!(rate_limit_wait(99_999_999), Some(1));
    assert_eq!(rate_limit_wait(100_000_000), None);
    assert_eq!(rate_limit_wait(u128::MAX), None);
}

#[test]
fn delay_before_a_retry() {
    assert_eq!(MAX_RETRIES, 3);
    assert_eq!(retry_delay_millis(0), 0);
    assert_eq!(retry_delay_millis(1), 200);
    assert_eq!(retry_delay_millis(2), 400);
    assert_eq!(retry_delay_millis(10), 102_400);
    assert_eq!(retry_delay_millis(57), 100 * (1u64 << 57));
}

#[test]
fn first_puzzle_of_an_answer() {
    let answer = ApiResponse {
        newboard: BoardWrapper {
            grids: vec![grid("one"), grid("two")],
            results: 2,
            message: "All Ok".to_string(),
        },
    };
    assert_eq!(first_grid(answer).unwrap().difficulty, "one");
    let answer = ApiResponse {
        newboard: BoardWrapper { grids: Vec::new(), results: 0, message: String::new() },
    };
    assert!(first_grid(answer).is_none());
}

#[test]
fn fetch_plan_alternates_and_stops() {
    let mut plan = FetchPlan::new(3, 0);
    assert_eq!((plan.wanted, plan.fetched, plan.attempts, plan.max_attempts), (3, 0, 0, 6));
    assert_eq!(plan.next_action(), FetchAction::RemoteThenLocal);
    assert!(!plan.record(true));
    assert_eq!(plan.next_action(), FetchAction::Local);
    assert!(plan.record(false));
    assert_eq!(plan.next_action(), FetchAction::RemoteThenLocal);
    assert!(!plan.record(true));
    assert_eq!(plan.next_action(), FetchAction::Local);
    assert!(plan.record(true));
    assert_eq!((plan.fetched, plan.attempts), (3, 4));
    assert_eq!(plan.next_action(), FetchAction::Done);

    let mut plan = FetchPlan::new(1, 0);
    assert!(!plan.record(false));
    assert!(plan.record(false));
    assert_eq!(plan.next_action(), FetchAction::Done);
    assert_eq!(plan.fetched, 0);

    let plan = FetchPlan::new(5, 2);
    assert_eq!((plan.fetched, plan.max_attempts), (2, 6));
    assert_eq!(FetchPlan::new(5, 9).next_action(), FetchAction::Done);
    assert_eq!(FetchPlan::new(0, 0).next_action(), FetchAction::Done);
    let plan = FetchPlan::new(usize::MAX, 0);
    assert_eq!(plan.max_attempts, usize::MAX);
}

#[test]
fn classes_of_difficulty_labels() {
    assert_eq!(classify_difficulty("Easy"), DifficultyClass::Easy);
    assert_eq!(classify_difficulty("easy"), DifficultyClass::Easy);
    assert_eq!(classify_difficulty("MEDIUM"), DifficultyClass::Medium);
    assert_eq!(classify_difficulty("Hard"), DifficultyClass::Hard);
    assert_eq!(classify_difficulty("harder"), DifficultyClass::Unknown);
    assert_eq!(classify_difficulty(""), DifficultyClass::Unknown);
    assert_eq!(classify_lowered(&"hard".to_string()), DifficultyClass::Hard);
    assert_eq!(classify_lowered(&"Hard".to_string()), DifficultyClass::Unknown);
}

#[test]
fn difficulty_counts() {
    let mut stats = DifficultyStats::default();
    assert_eq!(stats, DifficultyStats { easy: 0, medium: 0, hard: 0, unknown: 0 });
    stats.record(DifficultyClass::Medium);
    stats.record(DifficultyClass::Medium);
    stats.record(DifficultyClass::Unknown);
    stats.record(DifficultyClass::Easy);
    stats.record(DifficultyClass::Hard);
    assert_eq!(stats, DifficultyStats { easy: 1, medium: 2, hard: 1, unknown: 1 });
}

#[test]
fn test_benchmark_invalid_count() {
    match check_board_count(0) {
        Ok(_) => panic!("Should fail with zero boards"),
        Err(SudokuError::BenchmarkError(_)) => (),
        Err(e) => panic!("Unexpected error: {}", e.message()),
    }
    assert!(check_board_count(1).is_ok());
}

#[test]
fn figures_of_a_run() {
    let outcomes = vec![
        BoardOutcome { difficulty: DifficultyClass::Easy, solved: true, unique: true, nanos: 300 },
        BoardOutcome { difficulty: DifficultyClass::Hard, solved: false, unique: false, nanos: 5 },
        BoardOutcome { difficulty: DifficultyClass::Hard, solved: true, unique: false, nanos: 100 },
        BoardOutcome { difficulty: DifficultyClass::Unknown, solved: true, unique: true, nanos: 800 },
    ];
    let results = summarize(5, &outcomes, 5000);
    assert_eq!(results.total_duration, 5000);
    assert_eq!(results.average_duration, 240);
    assert_eq!(results.min_duration, 100);
    assert_eq!(results.max_duration, 800);
    assert_eq!(results.total_boards, 5);
    assert_eq!(results.solved_boards, 3);
    assert_eq!(results.unique_solutions, 2);
    assert_eq!(results.multiple_solutions, 1);
    assert_eq!(results.difficulty_stats, DifficultyStats { easy: 1, medium: 0, hard: 2, unknown: 1 });

    let results = summarize(2, &Vec::new(), 7);
    assert_eq!(results.min_duration, NO_MIN_DURATION);
    assert_eq!(results.min_duration, u64::MAX as u128 * 1_000_000_000);
    assert_eq!(results.max_duration, 0);
    assert_eq!(results.average_duration, 0);
    assert_eq!(results.solved_boards, 0);
}

#[test]
fn texts_of_failures() {
    assert_eq!(SudokuError::ApiError("no answer".to_string()).message(), "API error: no answer");
    assert_eq!(SudokuError::InvalidBoard.message(), "Invalid Sudoku board");
    assert_eq!(
        SudokuError::InvalidValue { row: 3, col: 5, value: 10 }.message(),
        "Invalid value 10 at position (3, 5)"
    );
    assert_eq!(
        SudokuError::InvalidValue { row: 0, col: 12, value: -7 }.message(),
        "Invalid value -7 at position (0, 12)"
    );
    assert_eq!(
        SudokuError::InvalidValue { row: 120, col: 0, value: i32::MIN }.message(),
        "Invalid value -2147483648 at position (120, 0)"
    );
    assert_eq!(
        SudokuError::InvalidValue { row: usize::MAX, col: 9, value: i32::MAX }.message(),
        format!("Invalid value 2147483647 at position ({}, 9)", usize::MAX)
    );
    assert_eq!(SudokuError::BenchmarkError("x".to_string()).message(), "Benchmark error: x");
    assert_eq!(SudokuError::CacheTimeout.message(), "Cache lock timeout");
    assert_eq!(SudokuError::GeneratorTimeout.message(), "Generator lock timeout");
    assert_eq!(
        SudokuError::from_message("API requests exhausted").message(),
        "API error: API requests exhausted"
    );
}

#[test]
fn picture_of_a_board() {
    let board = vec![
        vec![5, 3, 0, 0, 7, 0, 0, 0, 0],
        vec![6, 0, 0, 1, 9, 5, 0, 0, 0],
        vec![0, 9, 8, 0, 0, 0, 0, 6, 0],
        vec![8, 0, 0, 0, 6, 0, 0, 0, 3],
        vec![4, 0, 0, 8, 0, 3, 0, 0, 1],
        vec![7, 0, 0, 0, 2, 0, 0, 0, 6],
        vec![0, 6, 0, 0, 0, 0, 2, 8, 0],
        vec![0, 0, 0, 4, 1, 9, 0, 0, 5],
        vec![0, 0, 0, 0, 8, 0, 0, 7, 9],
    ];
    let expected = "\
┌───────┬───────┬───────┐
│ 5 3 · │ · 7 · │ · · · │
│ 6 · · │ 1 9 5 │ · · · │
│ · 9 8 │ · · · │ · 6 · │
├───────┼───────┼───────┤
│ 8 · · │ · 6 · │ · · 3 │
│ 4 · · │ 8 · 3 │ · · 1 │
│ 7 · · │ · 2 · │ · · 6 │
├───────┼───────┼───────┤
│ · 6 · │ · · · │ 2 8 · │
│ · · · │ 4 1 9 │ · · 5 │
│ · · · │ · 8 · │ · 7 9 │
└───────┴───────┴───────┘
";
    assert_eq!(render_board(&board), expected);
    assert_eq!(render_board(&[]), "┌───────┬───────┬───────┐\n└───────┴───────┴───────┘\n");
    assert_eq!(
        render_board(&[vec![12, -3, 0, 7]]),
        "┌───────┬───────┬───────┐\n│ 12 -3 · │ 7 │\n└───────┴───────┴───────┘\n"
    );
}
