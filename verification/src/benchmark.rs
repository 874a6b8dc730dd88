//! The figures of a benchmark run, gathered from the outcome of each puzzle. Times are
//! counted in nanoseconds.

use crate::error::SudokuError;
use vstd::prelude::*;

verus! {

/// The class of a difficulty label.
#[derive(Debug, Clone, Copy, PartialEq, Eq, Structural)]
pub enum DifficultyClass {
    Easy,
    Medium,
    Hard,
    Unknown,
}

/// The lower-case form of a text, as `str::to_lowercase` of the standard library makes
/// it.
pub uninterp spec fn lowercase_of(text: Seq<char>) -> Seq<char>;

/// The lower-case form of `label`: `str::to_lowercase` of the standard library, whose
/// result depends on the text alone.
#[verifier::external_body]
fn lowercase(label: &str) -> (lowered: String)
    ensures
        lowered@ == lowercase_of(label@),
{
    label.to_lowercase()
}

/// The class that a label in lower case stands for: `easy`, `medium` and `hard` name
/// their classes, every other text is unknown.
pub open spec fn class_of_lowered(lowered: Seq<char>) -> DifficultyClass {
    if lowered == "easy"@ {
        DifficultyClass::Easy
    } else if lowered == "medium"@ {
        DifficultyClass::Medium
    } else if lowered == "hard"@ {
        DifficultyClass::Hard
    } else {
        DifficultyClass::Unknown
    }
}

/// The class that the lower-case label `lowered` stands for.
pub fn classify_lowered(lowered: &String) -> (class: DifficultyClass)
    ensures
        class == class_of_lowered(lowered@),
{
    let easy = "easy".to_owned();
    let medium = "medium".to_owned();
    let hard = "hard".to_owned();
    if *lowered == easy {
        DifficultyClass::Easy
    } else if *lowered == medium {
        DifficultyClass::Medium
    } else if *lowered == hard {
        DifficultyClass::Hard
    } else {
        DifficultyClass::Unknown
    }
}

/// The class of the difficulty label `label`, whatever the case of its letters.
pub fn classify_difficulty(label: &str) -> (class: DifficultyClass)
    ensures
        class == class_of_lowered(lowercase_of(label@)),
{
    let lowered = lowercase(label);
    classify_lowered(&lowered)
}

/// How many puzzles of each class of difficulty a run has seen.
#[derive(Debug, Clone, Copy, PartialEq, Eq, Structural)]
pub struct DifficultyStats {
    pub easy: usize,
    pub medium: usize,
    pub hard: usize,
    pub unknown: usize,
}

impl Default for DifficultyStats {
    fn default() -> (stats: DifficultyStats)
        ensures
            stats == (DifficultyStats { easy: 0, medium: 0, hard: 0, unknown: 0 }),
    {
        DifficultyStats { easy: 0, medium: 0, hard: 0, unknown: 0 }
    }
}

impl DifficultyStats {
    /// The count of `class`.
    pub open spec fn count(&self, class: DifficultyClass) -> usize {
        match class {
            DifficultyClass::Easy => self.easy,
            DifficultyClass::Medium => self.medium,
            DifficultyClass::Hard => self.hard,
            DifficultyClass::Unknown => self.unknown,
        }
    }

    /// Counts one more puzzle of `class`.
    pub fn record(&mut self, class: DifficultyClass)
        requires
            old(self).count(class) < usize::MAX,
        ensures
            forall|other: DifficultyClass| #[trigger]
                final(self).count(other) == old(self).count(other) + if other == class {
                    1int
                } else {
                    0int
                },
    {
        match class {
            DifficultyClass::Easy => self.easy = self.easy + 1,
            DifficultyClass::Medium => self.medium = self.medium + 1,
            DifficultyClass::Hard => self.hard = self.hard + 1,
            DifficultyClass::Unknown => self.unknown = self.unknown + 1,
        }
    }
}

/// What became of one puzzle of a run: the class of its difficulty, whether it was
/// solved, whether the solution matched the reference, and how long solving took.
#[derive(Debug, Clone, Copy, PartialEq, Eq, Structural)]
pub struct BoardOutcome {
    pub difficulty: DifficultyClass,
    pub solved: bool,
    pub unique: bool,
    pub nanos: u64,
}

/// The figures of a run.
#[derive(Debug, Clone, Copy, PartialEq, Eq, Structural)]
pub struct BenchmarkResults {
    /// The time the whole run took.
    pub total_duration: u128,
    /// The time spent on solved puzzles, divided by the number of puzzles asked for.
    pub average_duration: u128,
    /// The shortest time a solved puzzle took.
    pub min_duration: u128,
    /// The longest time a solved puzzle took.
    pub max_duration: u128,
    /// The number of puzzles asked for.
    pub total_boards: usize,
    pub solved_boards: usize,
    pub unique_solutions: usize,
    pub multiple_solutions: usize,
    pub difficulty_stats: DifficultyStats,
}

/// The shortest-time figure of a run in which no puzzle was solved: the nanoseconds of
/// as many seconds as 64 bits can count.
pub const NO_MIN_DURATION: u128 = 18_446_744_073_709_551_615_000_000_000;

/// The number of outcomes among the first `n` of `outcomes` that have the class
/// `class`.
pub open spec fn class_count(outcomes: Seq<BoardOutcome>, class: DifficultyClass, n: int) -> nat
    decreases n,
{
    if n <= 0 {
        0
    } else {
        class_count(outcomes, class, n - 1) + if outcomes[n - 1].difficulty == class {
            1nat
        } else {
            0nat
        }
    }
}

/// The number of solved puzzles among the first `n` of `outcomes` whose mark of a
/// matching reference is `unique`.
pub open spec fn solved_count(outcomes: Seq<BoardOutcome>, unique: bool, n: int) -> nat
    decreases n,
{
    if n <= 0 {
        0
    } else {
        solved_count(outcomes, unique, n - 1) + if outcomes[n - 1].solved && outcomes[n
            - 1].unique == unique {
            1nat
        } else {
            0nat
        }
    }
}

/// The time spent on the solved puzzles among the first `n` of `outcomes`.
pub open spec fn solved_nanos(outcomes: Seq<BoardOutcome>, n: int) -> nat
    decreases n,
{
    if n <= 0 {
        0
    } else {
        solved_nanos(outcomes, n - 1) + if outcomes[n - 1].solved {
            outcomes[n - 1].nanos as nat
        } else {
            0nat
        }
    }
}

/// The shortest time of a solved puzzle among the first `n` of `outcomes`, or
/// `NO_MIN_DURATION` where none was solved.
pub open spec fn shortest_nanos(outcomes: Seq<BoardOutcome>, n: int) -> nat
    decreases n,
{
    if n <= 0 {
        NO_MIN_DURATION as nat
    } else {
        let before = shortest_nanos(outcomes, n - 1);
        if outcomes[n - 1].solved && outcomes[n - 1].nanos < before {
            outcomes[n - 1].nanos as nat
        } else {
            before
        }
    }
}

/// The longest time of a solved puzzle among the first `n` of `outcomes`, or 0 where
/// none was solved.
pub open spec fn longest_nanos(outcomes: Seq<BoardOutcome>, n: int) -> nat
    decreases n,
{
    if n <= 0 {
        0
    } else {
        let before = longest_nanos(outcomes, n - 1);
        if outcomes[n - 1].solved && outcomes[n - 1].nanos > before {
            outcomes[n - 1].nanos as nat
        } else {
            before
        }
    }
}

/// Whether `results` are the figures of a run that asked for `board_count` puzzles,
/// saw `outcomes` and took `elapsed_nanos`.
pub open spec fn is_summary(
    results: BenchmarkResults,
    board_count: usize,
    outcomes: Seq<BoardOutcome>,
    elapsed_nanos: u128,
) -> bool {
    let n = outcomes.len() as int;
    &&& results.total_duration == elapsed_nanos
    &&& results.average_duration == solved_nanos(outcomes, n) / (board_count as nat)
    &&& results.min_duration == shortest_nanos(outcomes, n)
    &&& results.max_duration == longest_nanos(outcomes, n)
    &&& results.total_boards == board_count
    &&& results.unique_solutions == solved_count(outcomes, true, n)
    &&& results.multiple_solutions == solved_count(outcomes, false, n)
    &&& results.solved_boards == results.unique_solutions + results.multiple_solutions
    &&& forall|class: DifficultyClass| #[trigger]
        results.difficulty_stats.count(class) == class_count(outcomes, class, n)
}

/// Refuses a run of no puzzle.
pub fn check_board_count(board_count: usize) -> (checked: Result<(), SudokuError>)
    ensures
        board_count > 0 ==> checked is Ok,
        board_count == 0 ==> (checked matches Err(SudokuError::BenchmarkError(message))
            && message@ == "Board count must be greater than 0"@),
{
    if board_count == 0 {
        Err(SudokuError::BenchmarkError("Board count must be greater than 0".to_owned()))
    } else {
        Ok(())
    }
}

/// The figures of a run that asked for `board_count` puzzles, saw `outcomes` and took
/// `elapsed_nanos`.
pub fn summarize(board_count: usize, outcomes: &Vec<BoardOutcome>, elapsed_nanos: u128) -> (results:
    BenchmarkResults)
    requires
        board_count > 0,
    ensures
        is_summary(results, board_count, outcomes@, elapsed_nanos),
{
    let mut min_duration: u128 = NO_MIN_DURATION;
    let mut max_duration: u128 = 0;
    let mut total: u128 = 0;
    let mut unique_solutions: usize = 0;
    let mut multiple_solutions: usize = 0;
    let mut stats = DifficultyStats::default();
    for i in 0..outcomes.len()
        invariant
            total == solved_nanos(outcomes@, i as int),
            total <= i * 0xFFFF_FFFF_FFFF_FFFF,
            min_duration == shortest_nanos(outcomes@, i as int),
            max_duration == longest_nanos(outcomes@, i as int),
            unique_solutions == solved_count(outcomes@, true, i as int),
            multiple_solutions == solved_count(outcomes@, false, i as int),
            unique_solutions + multiple_solutions <= i,
            forall|class: DifficultyClass| #[trigger]
                stats.count(class) == class_count(outcomes@, class, i as int),
            forall|class: DifficultyClass| #[trigger] stats.count(class) <= i,
    {
        let outcome = outcomes[i];
        stats.record(outcome.difficulty);
        if outcome.solved {
            if outcome.unique {
                unique_solutions = unique_solutions + 1;
            } else {
                multiple_solutions = multiple_solutions + 1;
            }
            let nanos = outcome.nanos as u128;
            if nanos < min_duration {
                min_duration = nanos;
            }
            if nanos > max_duration {
                max_duration = nanos;
            }
            total = total + nanos;
        }
    }
    BenchmarkResults {
        total_duration: elapsed_nanos,
        average_duration: total / (board_count as u128),
        min_duration,
        max_duration,
        total_boards: board_count,
        solved_boards: unique_solutions + multiple_solutions,
        unique_solutions,
        multiple_solutions,
        difficulty_stats: stats,
    }
}

} // verus!
