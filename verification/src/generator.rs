//! The local source of puzzles: a solved board filled at random, from which cells are
//! taken away as long as the puzzle keeps exactly one solution.

use crate::board::Board;
use crate::error::SudokuError;
use crate::grid::Grid;
use crate::rules::{
    empty_count, is_completion, is_consistent, is_full, is_solvable, is_solved,
    lemma_blocked_digit_has_no_completion, lemma_completion_fixes_cell,
    lemma_completion_of_emptied, lemma_completion_of_filled, lemma_empty_count_zero,
    lemma_fill_decreases_empty_count, lemma_full_board_completion,
    lemma_full_consistent_is_solved, lemma_part_of_solved_is_consistent,
    lemma_pattern_is_solved, lemma_placement_keeps_consistent, lemma_board_of_matrix, board_of,
};
use crate::search::{find_next_empty, is_valid_placement};
use rand::rngs::{OsRng, SmallRng};
use rand::seq::SliceRandom;
use rand::{Rng, SeedableRng};
use vstd::prelude::*;

verus! {

/// rand's small, fast generator of random numbers. Nothing of its state is visible here.
#[verifier::external_type_specification]
#[verifier::external_body]
pub struct ExSmallRng(SmallRng);

/// A generator seeded from the operating system: `SmallRng::from_rng` of rand's
/// `SeedableRng` on `OsRng`. Nothing is promised of the result; it is `None` where the
/// system gives no random bytes.
#[verifier::external_body]
fn rng_from_system() -> Option<SmallRng> {
    SmallRng::from_rng(OsRng).ok()
}

/// A generator seeded with `seed`: `SmallRng::seed_from_u64` of rand's `SeedableRng`.
/// Nothing is promised of the result.
#[verifier::external_body]
fn rng_from_seed(seed: u64) -> SmallRng {
    SmallRng::seed_from_u64(seed)
}

/// Puts the items of `items` into a random order: `shuffle` of rand's `SliceRandom`,
/// which only swaps items of the slice. The contract claims that much and no more: the
/// same items, each as often as before.
#[verifier::external_body]
fn shuffle<T>(rng: &mut SmallRng, items: &mut Vec<T>)
    ensures
        final(items)@.to_multiset() == old(items)@.to_multiset(),
{
    items.shuffle(rng)
}

/// A random number from `low` to `high`, both included: `gen_range` of rand's `Rng` on
/// the range `low..=high`. The contract claims that the number lies in the range. An
/// empty range, on which `gen_range` panics, is left out.
#[verifier::external_body]
fn random_in_range(rng: &mut SmallRng, low: u32, high: u32) -> (number: u32)
    requires
        low <= high,
    ensures
        low <= number <= high,
{
    rng.gen_range(low..=high)
}

/// How hard a generated puzzle is meant to be.
#[derive(Debug, Clone, Copy, PartialEq, Eq, Structural)]
pub enum Difficulty {
    Easy,
    Medium,
    Hard,
}

impl Difficulty {
    /// The label of the difficulty.
    pub fn label(&self) -> (label: &'static str)
        ensures
            label@ == match self {
                Difficulty::Easy => "Easy"@,
                Difficulty::Medium => "Medium"@,
                Difficulty::Hard => "Hard"@,
            },
    {
        match self {
            Difficulty::Easy => "Easy",
            Difficulty::Medium => "Medium",
            Difficulty::Hard => "Hard",
        }
    }

    /// The fewest cells to take away for the difficulty.
    pub open spec fn spec_fewest_removed(self) -> u32 {
        match self {
            Difficulty::Easy => 30,
            Difficulty::Medium => 40,
            Difficulty::Hard => 51,
        }
    }

    /// The most cells to take away for the difficulty.
    pub open spec fn spec_most_removed(self) -> u32 {
        match self {
            Difficulty::Easy => 35,
            Difficulty::Medium => 50,
            Difficulty::Hard => 60,
        }
    }

    /// The fewest cells to take away for the difficulty.
    #[verifier::when_used_as_spec(spec_fewest_removed)]
    pub fn fewest_removed(self) -> (cells: u32)
        ensures
            cells == self.spec_fewest_removed(),
    {
        match self {
            Difficulty::Easy => 30,
            Difficulty::Medium => 40,
            Difficulty::Hard => 51,
        }
    }

    /// The most cells to take away for the difficulty.
    #[verifier::when_used_as_spec(spec_most_removed)]
    pub fn most_removed(self) -> (cells: u32)
        ensures
            cells == self.spec_most_removed(),
    {
        match self {
            Difficulty::Easy => 35,
            Difficulty::Medium => 50,
            Difficulty::Hard => 60,
        }
    }
}

/// The difficulty that the number `roll` selects under the weights of `Easy`, `Medium`
/// and `Hard`, in this order: `Easy` below the first weight, `Medium` below the sum of
/// the first two, `Hard` below the sum of all three, and `Medium` from there on.
pub open spec fn weighted_difficulty(weights: Seq<u32>, roll: int) -> Difficulty {
    if roll < weights[0] {
        Difficulty::Easy
    } else if roll < weights[0] + weights[1] {
        Difficulty::Medium
    } else if roll < weights[0] + weights[1] + weights[2] {
        Difficulty::Hard
    } else {
        Difficulty::Medium
    }
}

/// Whether `difficulty` is what some number from 0 up to, but without, the sum of the
/// weights selects.
pub open spec fn is_weighted_draw(weights: Seq<u32>, difficulty: Difficulty) -> bool {
    exists|roll: int|
        0 <= roll < weights[0] + weights[1] + weights[2] && difficulty
            == #[trigger] weighted_difficulty(weights, roll)
}

/// The difficulty that `roll` selects: the weights are gone through in order, and the
/// first that exceeds what is left of `roll` decides.
pub fn pick_difficulty(weights: &[u32; 3], roll: u32) -> (difficulty: Difficulty)
    ensures
        difficulty == weighted_difficulty(weights@, roll as int),
{
    let mut rest = roll;
    if rest < weights[0] {
        return Difficulty::Easy;
    }
    rest = rest - weights[0];
    if rest < weights[1] {
        return Difficulty::Medium;
    }
    rest = rest - weights[1];
    if rest < weights[2] {
        return Difficulty::Hard;
    }
    Difficulty::Medium
}

/// The digits 1 to 9 in a random order.
fn shuffled_digits(rng: &mut SmallRng) -> (digits: Vec<u8>)
    ensures
        forall|d: u8| 1 <= d <= 9 <==> digits@.contains(d),
{
    let mut digits: Vec<u8> = Vec::new();
    let mut d: u8 = 1;
    while d <= 9
        invariant
            1 <= d <= 10,
            forall|e: u8| 1 <= e < d <==> digits@.contains(e),
        decreases 10 - d,
    {
        let ghost before = digits@;
        digits.push(d);
        assert forall|e: u8| 1 <= e < d + 1 <==> digits@.contains(e) by {
            if 1 <= e < d {
                assert(before.contains(e));
                let i = choose|i: int| 0 <= i < before.len() && before[i] == e;
                assert(digits@[i] == e);
            }
            if e == d {
                assert(digits@[before.len() as int] == e);
            }
            if digits@.contains(e) {
                let i = choose|i: int| 0 <= i < digits@.len() && digits@[i] == e;
                if i < before.len() {
                    assert(before[i] == e);
                    assert(before.contains(e));
                }
            }
        }
        d = d + 1;
    }
    let ghost ordered = digits@;
    shuffle(rng, &mut digits);
    proof {
        ordered.to_multiset_ensures();
        digits@.to_multiset_ensures();
        assert forall|e: u8| 1 <= e <= 9 <==> digits@.contains(e) by {
            assert(ordered.contains(e) <==> ordered.to_multiset().count(e) > 0);
            assert(digits@.contains(e) <==> digits@.to_multiset().count(e) > 0);
        }
    }
    digits
}

/// The cells of the board, each once, in a random order.
fn shuffled_cells(rng: &mut SmallRng) -> (cells: Vec<usize>)
    ensures
        cells@.len() == 81,
        cells@.no_duplicates(),
        forall|i: int| 0 <= i < cells@.len() ==> #[trigger] cells@[i] < 81,
        forall|cell: usize| cell < 81 ==> cells@.contains(cell),
{
    let mut cells: Vec<usize> = Vec::new();
    for row in 0..9usize
        invariant
            cells@.len() == row * 9,
            forall|i: int| 0 <= i < cells@.len() ==> #[trigger] cells@[i] == i,
    {
        for col in 0..9usize
            invariant
                row < 9,
                cells@.len() == row * 9 + col,
                forall|i: int| 0 <= i < cells@.len() ==> #[trigger] cells@[i] == i,
        {
            let ghost before = cells@;
            cells.push(row * 9 + col);
            assert forall|i: int| 0 <= i < cells@.len() implies #[trigger] cells@[i] == i by {
                if i < before.len() {
                    assert(cells@[i] == before[i]);
                }
            }
        }
    }
    let ghost ordered = cells@;
    shuffle(rng, &mut cells);
    proof {
        assert(ordered.no_duplicates());
        ordered.to_multiset_ensures();
        cells@.to_multiset_ensures();
        ordered.lemma_multiset_has_no_duplicates();
        cells@.lemma_multiset_has_no_duplicates_conv();
        assert forall|i: int| 0 <= i < cells@.len() implies #[trigger] cells@[i] < 81 by {
            let cell = cells@[i];
            assert(cells@.contains(cell));
            assert(cells@.to_multiset().count(cell) > 0);
            assert(ordered.to_multiset().count(cell) > 0);
            assert(ordered.contains(cell));
            let j = choose|j: int| 0 <= j < ordered.len() && ordered[j] == cell;
            assert(ordered[j] == j);
        }
        assert forall|cell: usize| cell < 81 implies cells@.contains(cell) by {
            assert(ordered[cell as int] == cell);
            assert(ordered.contains(cell));
            assert(ordered.to_multiset().count(cell) > 0);
            assert(cells@.to_multiset().count(cell) > 0);
        }
    }
    cells
}

/// Whether `found` holds `board`.
fn holds_board(found: &Vec<Board>, board: &Board) -> (holds: bool)
    ensures
        holds == exists|i: int| 0 <= i < found@.len() && (#[trigger] found@[i])@ == board@,
{
    for i in 0..found.len()
        invariant
            forall|j: int| 0 <= j < i ==> (#[trigger] found@[j])@ != board@,
    {
        if found[i] == *board {
            return true;
        }
    }
    false
}

/// Whether every board of `found` is a solution of `p`.
pub open spec fn are_completions(found: Seq<Board>, p: Seq<u8>) -> bool {
    forall|i: int| 0 <= i < found.len() ==> is_completion(p, (#[trigger] found[i])@)
}

/// Whether `found` holds every solution of `p`.
pub open spec fn holds_all_completions(found: Seq<Board>, p: Seq<u8>) -> bool {
    forall|t: Seq<u8>| #[trigger]
        is_completion(p, t) ==> exists|i: int| 0 <= i < found.len() && (#[trigger] found[i])@ == t
}

/// Adds to `solutions` the solutions of `board` that it does not hold yet, as long as
/// it holds fewer than `limit` boards when a search step begins, and returns how many
/// boards it then holds. The first empty cell in row-major order is tried with the
/// digits 1 to 9 that its units lack.
///
/// The boards that were there stay, in their places. Every board added is a solution of
/// `board`. Where fewer than `limit` boards are held at the end, every solution of
/// `board` is among them.
#[verifier::rlimit(50)]
pub fn count_solutions(board: &Board, solutions: &mut Vec<Board>, limit: usize) -> (count: usize)
    requires
        is_consistent(board@),
    ensures
        count == final(solutions)@.len(),
        old(solutions)@.len() <= final(solutions)@.len(),
        forall|i: int|
            0 <= i < old(solutions)@.len() ==> #[trigger] final(solutions)@[i] == old(solutions)@[i],
        forall|i: int|
            old(solutions)@.len() <= i < final(solutions)@.len() ==> is_completion(
                board@,
                (#[trigger] final(solutions)@[i])@,
            ),
        final(solutions)@.len() < limit ==> holds_all_completions(final(solutions)@, board@),
    decreases empty_count(board@, 81),
{
    if solutions.len() >= limit {
        return solutions.len();
    }
    let ghost start = solutions@;
    let ghost p = board@;
    match find_next_empty(board) {
        Some((row, col)) => {
            let ghost k = row * 9 + col;
            let mut num: u8 = 1;
            while num <= 9
                invariant
                    1 <= num <= 10,
                    row < 9,
                    col < 9,
                    k == row * 9 + col,
                    p == board@,
                    p[k] == 0,
                    is_consistent(p),
                    start == old(solutions)@,
                    start.len() <= solutions@.len(),
                    forall|i: int| 0 <= i < start.len() ==> #[trigger] solutions@[i] == start[i],
                    forall|i: int|
                        start.len() <= i < solutions@.len() ==> is_completion(
                            p,
                            (#[trigger] solutions@[i])@,
                        ),
                    solutions@.len() < limit ==> forall|d: u8|
                        1 <= d < num ==> holds_all_completions(
                            solutions@,
                            #[trigger] p.update(k, d),
                        ),
                decreases 10 - num,
            {
                let ghost before = solutions@;
                if is_valid_placement(board, row, col, num) {
                    let mut new_board = board.clone();
                    new_board.set(row, col, num);
                    proof {
                        lemma_placement_keeps_consistent(p, k, num);
                        lemma_fill_decreases_empty_count(p, k, num, 81);
                    }
                    count_solutions(&new_board, solutions, limit);
                    proof {
                        assert forall|i: int| start.len() <= i < solutions@.len() implies is_completion(
                            p,
                            (#[trigger] solutions@[i])@,
                        ) by {
                            if i >= before.len() {
                                lemma_completion_of_filled(p, k, num, solutions@[i]@);
                            } else {
                                assert(solutions@[i] == before[i]);
                            }
                        }
                    }
                } else {
                    proof {
                        lemma_blocked_digit_has_no_completion(p, k, num);
                    }
                }
                proof {
                    if solutions@.len() < limit {
                        assert forall|d: u8| 1 <= d < num + 1 implies holds_all_completions(
                            solutions@,
                            #[trigger] p.update(k, d),
                        ) by {
                            if d < num {
                                assert(holds_all_completions(before, p.update(k, d)));
                                assert forall|t: Seq<u8>| #[trigger]
                                    is_completion(p.update(k, d), t) implies exists|i: int|
                                    0 <= i < solutions@.len() && (#[trigger] solutions@[i])@ == t by {
                                    let i = choose|i: int|
                                        0 <= i < before.len() && (#[trigger] before[i])@ == t;
                                    assert(solutions@[i] == before[i]);
                                }
                            }
                        }
                    }
                }
                num += 1;
            }
            proof {
                if solutions@.len() < limit {
                    assert forall|t: Seq<u8>| #[trigger] is_completion(p, t) implies exists|i: int|
                        0 <= i < solutions@.len() && (#[trigger] solutions@[i])@ == t by {
                        lemma_completion_fixes_cell(p, t, k);
                        assert(holds_all_completions(solutions@, p.update(k, t[k])));
                    }
                }
            }
        },
        None => {
            proof {
                lemma_full_consistent_is_solved(p);
            }
            let ghost mut place: int = 0;
            if !holds_board(solutions, board) {
                solutions.push(*board);
                proof {
                    place = start.len() as int;
                }
            } else {
                proof {
                    place = choose|i: int| 0 <= i < start.len() && (#[trigger] start[i])@ == p;
                }
            }
            proof {
                assert(0 <= place < solutions@.len() && solutions@[place]@ == p);
                assert forall|t: Seq<u8>| #[trigger] is_completion(p, t) implies exists|i: int|
                    0 <= i < solutions@.len() && (#[trigger] solutions@[i])@ == t by {
                    lemma_full_board_completion(p, t);
                    assert(solutions@[place]@ == t);
                }
            }
        },
    }
    solutions.len()
}

/// Whether `s` is the one solution of the puzzle `p`.
pub open spec fn is_only_completion(p: Seq<u8>, s: Seq<u8>) -> bool {
    &&& is_completion(p, s)
    &&& forall|t: Seq<u8>| #[trigger] is_completion(p, t) ==> t == s
}

/// Whether `grid` is a puzzle as the generator makes it: a solved board as the
/// reference, a puzzle that has the reference as its one solution, and the label of a
/// difficulty that allows as many empty cells as the puzzle has.
pub open spec fn is_generated(grid: Grid) -> bool {
    &&& grid.is_well_formed()
    &&& is_solved(board_of(grid.solution@))
    &&& is_only_completion(board_of(grid.value@), board_of(grid.solution@))
    &&& exists|difficulty: Difficulty| #[trigger]
        is_labelled(grid, difficulty) && empty_count(board_of(grid.value@), 81)
            <= difficulty.most_removed()
}

/// Whether `grid` carries the label of `difficulty`.
pub open spec fn is_labelled(grid: Grid, difficulty: Difficulty) -> bool {
    grid.difficulty@ == match difficulty {
        Difficulty::Easy => "Easy"@,
        Difficulty::Medium => "Medium"@,
        Difficulty::Hard => "Hard"@,
    }
}

/// The weights of `Easy`, `Medium` and `Hard`, out of a hundred.
pub const DIFFICULTY_WEIGHTS: [u32; 3] = [4, 62, 34];

/// The generator of puzzles.
pub struct BoardGenerator {
    rng: SmallRng,
}

impl BoardGenerator {
    /// A generator seeded from the operating system, or with a fixed seed where the
    /// system gives none.
    pub fn new() -> (generator: BoardGenerator) {
        let rng = match rng_from_system() {
            Some(rng) => rng,
            None => rng_from_seed(0x5EED),
        };
        BoardGenerator { rng }
    }

    /// A generator seeded with `seed`.
    pub fn with_seed(seed: u64) -> (generator: BoardGenerator) {
        BoardGenerator { rng: rng_from_seed(seed) }
    }

    /// Makes a puzzle: fills a board at random, draws a difficulty, draws within the
    /// bounds of the difficulty how many cells to take away, and takes away at most so
    /// many, none whose loss would give the puzzle a second solution.
    #[verifier::rlimit(50)]
    pub fn generate(&mut self) -> (result: Result<Grid, SudokuError>)
        ensures
            result matches Ok(grid) && is_generated(grid),
    {
        let mut solution = Board::empty();
        proof {
            lemma_pattern_is_solved();
            assert(solution@ =~= Seq::new(81, |i: int| 0u8));
            assert(is_solvable(solution@));
            assert(is_consistent(solution@));
        }
        if !self.fill_board(&mut solution, 0, 0) {
            return Err(SudokuError::InvalidBoard);
        }
        let mut board = solution.clone();
        let difficulty = self.get_weighted_difficulty();
        let remove_count = random_in_range(
            &mut self.rng,
            difficulty.fewest_removed(),
            difficulty.most_removed(),
        );
        self.remove_numbers(&mut board, remove_count);
        let value = board.to_vec();
        let reference = solution.to_vec();
        let label = difficulty.label().to_owned();
        let grid = Grid { value, solution: reference, difficulty: label };
        proof {
            lemma_part_of_solved_is_consistent(board@, solution@);
            lemma_board_of_matrix(grid.value@, board@);
            lemma_board_of_matrix(grid.solution@, solution@);
            assert(is_labelled(grid, difficulty));
        }
        Ok(grid)
    }

    /// Fills the empty cells of `board` from the cell at `row`, `col` on, in row-major
    /// order, each with the first digit of a random order that its units lack and that
    /// lets the rest be filled. A cell for which no digit does is left empty again.
    ///
    /// On success `board` is solved and keeps the digits it had. On failure `board` is
    /// as it was and has no solution.
    #[verifier::rlimit(50)]
    pub fn fill_board(&mut self, board: &mut Board, row: usize, col: usize) -> (filled: bool)
        requires
            row <= 9,
            col < 9,
            is_consistent(old(board)@),
            forall|i: int| 0 <= i < row * 9 + col && i < 81 ==> old(board)@[i] != 0,
        ensures
            filled ==> is_completion(old(board)@, final(board)@),
            !filled ==> final(board)@ == old(board)@ && !is_solvable(old(board)@),
        decreases 81 - (row * 9 + col),
    {
        let ghost start = board@;
        if row == 9 {
            proof {
                assert forall|i: int| 0 <= i < 81 implies #[trigger] start[i] != 0 by {}
                lemma_full_consistent_is_solved(start);
            }
            return true;
        }
        let ghost k = row * 9 + col;
        let next_row = if col == 8 {
            row + 1
        } else {
            row
        };
        let next_col = if col == 8 {
            0
        } else {
            col + 1
        };
        if board.get(row, col) != 0 {
            return self.fill_board(board, next_row, next_col);
        }
        let numbers = shuffled_digits(&mut self.rng);
        for index in 0..numbers.len()
            invariant
                row < 9,
                col < 9,
                k == row * 9 + col,
                next_row * 9 + next_col == k + 1,
                next_row <= 9,
                next_col < 9,
                board@ == start,
                start == old(board)@,
                start[k] == 0,
                is_consistent(start),
                forall|i: int| 0 <= i < k ==> start[i] != 0,
                forall|d: u8| 1 <= d <= 9 <==> numbers@.contains(d),
                forall|i: int| 0 <= i < index ==> !is_solvable(start.update(k, #[trigger] numbers@[i])),
        {
            let num = numbers[index];
            assert(numbers@.contains(num));
            if is_valid_placement(board, row, col, num) {
                board.set(row, col, num);
                proof {
                    lemma_placement_keeps_consistent(start, k, num);
                }
                if self.fill_board(board, next_row, next_col) {
                    proof {
                        lemma_completion_of_filled(start, k, num, board@);
                    }
                    return true;
                }
                board.set(row, col, 0);
                assert(board@ =~= start);
            } else {
                proof {
                    lemma_blocked_digit_has_no_completion(start, k, num);
                }
            }
        }
        proof {
            assert forall|s: Seq<u8>| !is_completion(start, s) by {
                if is_completion(start, s) {
                    lemma_completion_fixes_cell(start, s, k);
                    assert(numbers@.contains(s[k]));
                    let i = choose|i: int| 0 <= i < numbers@.len() && numbers@[i] == s[k];
                    assert(is_solvable(start.update(k, numbers@[i])));
                }
            }
        }
        false
    }

    /// Takes digits away from the solved `board`, cell by cell in a random order, until
    /// `count` cells are empty or every cell was tried. A digit is put back where,
    /// without it, a second solution was found; once that has happened, every later digit
    /// is put back too.
    ///
    /// The board that `board` was stays the one solution of the puzzle that it becomes.
    #[verifier::rlimit(50)]
    pub fn remove_numbers(&mut self, board: &mut Board, count: u32)
        requires
            is_solved(old(board)@),
        ensures
            is_only_completion(final(board)@, old(board)@),
            empty_count(final(board)@, 81) <= count,
    {
        let ghost solution = board@;
        let positions = shuffled_cells(&mut self.rng);
        let mut removed: u32 = 0;
        let mut unique_solutions: Vec<Board> = Vec::new();
        proof {
            lemma_full_solved_is_only(solution);
            lemma_empty_count_zero(solution, 81);
        }
        let mut index: usize = 0;
        while index < positions.len() && removed < count
            invariant
                index <= positions@.len(),
                solution == old(board)@,
                is_solved(solution),
                forall|i: int| 0 <= i < positions@.len() ==> #[trigger] positions@[i] < 81,
                is_only_completion(board@, solution),
                removed == empty_count(board@, 81),
                removed <= count,
                unique_solutions@.len() <= 1 ==> are_completions(unique_solutions@, board@),
            decreases positions@.len() - index,
        {
            let cell = positions[index];
            let row = cell / 9;
            let col = cell % 9;
            let ghost before = board@;
            let ghost found_before = unique_solutions@;
            let temp = board.get(row, col);
            board.set(row, col, 0);
            proof {
                lemma_completion_of_emptied(before, cell as int, solution);
                lemma_part_of_solved_is_consistent(board@, solution);
                assert forall|i: int| 0 <= i < found_before.len() && found_before.len()
                    <= 1 implies is_completion(board@, (#[trigger] found_before[i])@) by {
                    lemma_completion_of_emptied(before, cell as int, found_before[i]@);
                }
            }
            if count_solutions(board, &mut unique_solutions, 2) > 1 {
                board.set(row, col, temp);
                assert(board@ =~= before);
            } else {
                proof {
                    let found = unique_solutions@;
                    assert(holds_all_completions(found, board@));
                    assert forall|t: Seq<u8>| #[trigger] is_completion(board@, t) implies t
                        == solution by {
                        let i = choose|i: int| 0 <= i < found.len() && (#[trigger] found[i])@ == t;
                        let j = choose|j: int|
                            0 <= j < found.len() && (#[trigger] found[j])@ == solution;
                        assert(i == 0 && j == 0);
                    }
                    assert forall|i: int| 0 <= i < found.len() implies is_completion(
                        board@,
                        (#[trigger] found[i])@,
                    ) by {
                        if i < found_before.len() {
                            assert(found[i] == found_before[i]);
                        }
                    }
                    if temp != 0 {
                        lemma_empty_count_after_emptying(before, cell as int, 81);
                    } else {
                        assert(board@ =~= before);
                    }
                }
                if temp != 0 {
                    removed += 1;
                }
            }
            index += 1;
        }
    }

    /// Draws a difficulty: a number below the sum of the weights is drawn and handed to
    /// `pick_difficulty`. Whatever number is drawn, the difficulty is the one that the
    /// number selects under `DIFFICULTY_WEIGHTS`.
    pub fn get_weighted_difficulty(&mut self) -> (difficulty: Difficulty)
        ensures
            is_weighted_draw(DIFFICULTY_WEIGHTS@, difficulty),
    {
        let weights = DIFFICULTY_WEIGHTS;
        let total: u32 = weights[0] + weights[1] + weights[2];
        let roll = random_in_range(&mut self.rng, 0, total - 1);
        let difficulty = pick_difficulty(&weights, roll);
        assert(difficulty == weighted_difficulty(DIFFICULTY_WEIGHTS@, roll as int));
        difficulty
    }
}

/// A solved board is its own one solution.
proof fn lemma_full_solved_is_only(s: Seq<u8>)
    requires
        is_solved(s),
    ensures
        is_only_completion(s, s),
        is_full(s),
{
    assert forall|i: int| 0 <= i < s.len() implies #[trigger] s[i] != 0 by {
        assert(1 <= s[i]);
    }
    assert forall|t: Seq<u8>| #[trigger] is_completion(s, t) implies t == s by {
        lemma_full_board_completion(s, t);
    }
}

/// Emptying a filled cell adds one to the number of empty cells.
proof fn lemma_empty_count_after_emptying(b: Seq<u8>, k: int, n: int)
    requires
        0 <= k < b.len(),
        0 <= n <= b.len(),
        b[k] != 0,
    ensures
        empty_count(b.update(k, 0), n) == empty_count(b, n) + if k < n { 1int } else { 0int },
    decreases n,
{
    if n > 0 {
        lemma_empty_count_after_emptying(b, k, n - 1);
    }
}

} // verus!
