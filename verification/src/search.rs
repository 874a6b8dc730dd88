//! The depth-first search below one placement, and the fan-out over the candidate digits
//! of a cell.

use crate::board::{gather_box, gather_col, gather_row, holds_value, Board};
use crate::rules::{
    box_of, differ_first_at, empty_count, is_completion, is_first_completion, is_full,
    is_placeable, is_solvable, is_solved, lemma_blocked_digit_has_no_completion,
    lemma_box_has_by_values, lemma_col_has_by_values, lemma_completion_fixes_cell,
    lemma_completion_digit_is_placeable, lemma_completion_of_filled,
    lemma_fill_decreases_empty_count, lemma_full_board_completion, lemma_placeable_by_units,
    lemma_row_has_by_values, lex_less,
};
use crate::simd::{SimdSolver, SimdValidator};
use rayon::iter::{IntoParallelIterator, ParallelIterator};
use vstd::prelude::*;

verus! {

/// Whether `engine`, where there is one, records the digits of `b`.
pub open spec fn engine_records(engine: Option<SimdSolver>, b: Seq<u8>) -> bool {
    engine matches Some(e) ==> e.records(b)
}

/// What the search below a placement comes to: with digit `d` in the empty cell `k` of
/// `p`, either the first solution of that board or, where it has none, nothing.
pub open spec fn is_branch_outcome(p: Seq<u8>, k: int, d: u8, outcome: Option<Seq<u8>>) -> bool {
    match outcome {
        Some(s) => is_first_completion(p.update(k, d), s),
        None => !is_solvable(p.update(k, d)),
    }
}

/// Whether `num` occurs in none of the row, the column and the box of the cell at `row`,
/// `col`, found by reading the three units.
pub fn is_valid_placement(board: &Board, row: usize, col: usize, num: u8) -> (valid: bool)
    requires
        row < 9,
        col < 9,
    ensures
        valid == is_placeable(board@, row * 9 + col, num),
{
    proof {
        lemma_placeable_by_units(board@, row * 9 + col, num);
        lemma_row_has_by_values(board@, row as int, num);
        lemma_col_has_by_values(board@, col as int, num);
        lemma_box_has_by_values(board@, box_of(row as int, col as int), num);
    }
    let row_values = gather_row(board, row);
    if holds_value(&row_values, num) {
        return false;
    }
    let col_values = gather_col(board, col);
    if holds_value(&col_values, num) {
        return false;
    }
    let box_values = gather_box(board, Board::get_box_index(row, col));
    if holds_value(&box_values, num) {
        return false;
    }
    true
}

/// The first empty cell in row-major order, if there is one.
pub fn find_next_empty(board: &Board) -> (next: Option<(usize, usize)>)
    ensures
        match next {
            Some((row, col)) => {
                &&& row < 9
                &&& col < 9
                &&& board@[row * 9 + col] == 0
                &&& forall|i: int| 0 <= i < row * 9 + col ==> board@[i] != 0
            },
            None => is_full(board@),
        },
{
    for row in 0..9usize
        invariant
            forall|i: int| 0 <= i < row * 9 ==> board@[i] != 0,
    {
        for col in 0..9usize
            invariant
                row < 9,
                forall|i: int| 0 <= i < row * 9 + col ==> board@[i] != 0,
        {
            if board.is_empty_cell(row, col) {
                return Some((row, col));
            }
        }
    }
    None
}

/// Puts `value` into the empty cell at `start_row`, `start_col` and searches for a
/// solution of the board so made: the next empty cell in row-major order is tried with
/// the digits 1 to 9 in ascending order, each of them only where the cell's units lack
/// it, and each on a copy of the board and of the mask engine.
///
/// On success `board` holds the solution found, which is the first solution in
/// lexicographic order. On failure the board with `value` placed has no solution, and
/// `board` holds it. With an engine, legality is read from its masks; without one, from
/// the board.
#[verifier::rlimit(50)]
pub fn try_solve_with_value(
    start_row: usize,
    start_col: usize,
    value: u8,
    board: &mut Board,
    simd_solver: Option<SimdSolver>,
) -> (found: bool)
    requires
        start_row < 9,
        start_col < 9,
        1 <= value <= 9,
        old(board)@[start_row * 9 + start_col] == 0,
        engine_records(simd_solver, old(board)@),
    ensures
        found ==> is_first_completion(
            old(board)@.update(start_row * 9 + start_col, value),
            final(board)@,
        ),
        !found ==> final(board)@ == old(board)@.update(start_row * 9 + start_col, value),
        !found ==> !is_solvable(final(board)@),
    decreases empty_count(old(board)@, 81),
{
    let ghost start = board@;
    board.set(start_row, start_col, value);
    let ghost placed = board@;
    let engine = match simd_solver {
        Some(mut engine) => {
            let ghost before = engine;
            engine.update_masks(start_row, start_col, value);
            proof {
                engine.lemma_records_placement(
                    before,
                    start,
                    start_row as int,
                    start_col as int,
                    value,
                );
            }
            Some(engine)
        },
        None => None,
    };
    proof {
        lemma_fill_decreases_empty_count(start, start_row * 9 + start_col, value, 81);
    }
    match find_next_empty(board) {
        Some((next_row, next_col)) => {
            let ghost next = next_row * 9 + next_col;
            let mut num: u8 = 1;
            while num <= 9
                invariant
                    1 <= num <= 10,
                    next_row < 9,
                    next_col < 9,
                    next == next_row * 9 + next_col,
                    board@ == placed,
                    start == old(board)@,
                    start.len() == 81,
                    placed == start.update(start_row * 9 + start_col, value),
                    placed[next] == 0,
                    forall|i: int| 0 <= i < next ==> placed[i] != 0,
                    engine_records(engine, placed),
                    forall|d: u8| 1 <= d < num ==> !is_solvable(#[trigger] placed.update(next, d)),
                    empty_count(placed, 81) < empty_count(start, 81),
                decreases 10 - num,
            {
                let is_valid = match &engine {
                    Some(solver) => {
                        proof {
                            solver.lemma_candidate_is_placeable(
                                placed,
                                next_row as int,
                                next_col as int,
                                num,
                            );
                        }
                        solver.is_valid_candidate(next_row, next_col, num)
                    },
                    None => is_valid_placement(board, next_row, next_col, num),
                };
                assert(is_valid == is_placeable(placed, next, num));
                if is_valid {
                    let mut new_board = board.clone();
                    let new_engine = engine.clone();
                    if try_solve_with_value(next_row, next_col, num, &mut new_board, new_engine) {
                        *board = new_board;
                        proof {
                            lemma_first_below(placed, next, num, new_board@);
                        }
                        return true;
                    }
                } else {
                    proof {
                        lemma_blocked_digit_has_no_completion(placed, next, num);
                    }
                }
                num += 1;
            }
            proof {
                assert forall|s: Seq<u8>| !is_completion(placed, s) by {
                    if is_completion(placed, s) {
                        lemma_completion_fixes_cell(placed, s, next);
                        assert(is_solvable(placed.update(next, s[next])));
                    }
                }
            }
            false
        },
        None => {
            let valid = is_valid_solution(board);
            proof {
                if valid {
                    assert forall|t: Seq<u8>| #[trigger] is_completion(placed, t) implies t
                        == placed || lex_less(placed, t) by {
                        lemma_full_board_completion(placed, t);
                    }
                } else {
                    assert forall|s: Seq<u8>| !is_completion(placed, s) by {
                        if is_completion(placed, s) {
                            lemma_full_board_completion(placed, s);
                        }
                    }
                }
            }
            valid
        },
    }
}

/// Whether `board` is solved.
pub fn is_valid_solution(board: &Board) -> (valid: bool)
    ensures
        valid == is_solved(board@),
{
    SimdValidator::validate_solution(board)
}

/// The first solution below digit `d` in the first empty cell `k` of `p` is the first
/// solution of `p` when no smaller digit in `k` leads to one.
proof fn lemma_first_below(p: Seq<u8>, k: int, d: u8, s: Seq<u8>)
    requires
        p.len() == 81,
        0 <= k < 81,
        p[k] == 0,
        1 <= d <= 9,
        forall|i: int| 0 <= i < k ==> p[i] != 0,
        forall|e: u8| 1 <= e < d ==> !is_solvable(#[trigger] p.update(k, e)),
        is_first_completion(p.update(k, d), s),
    ensures
        is_first_completion(p, s),
{
    lemma_completion_of_filled(p, k, d, s);
    assert(p.update(k, d)[k] != 0);
    assert(s[k] == d);
    assert forall|t: Seq<u8>| #[trigger] is_completion(p, t) implies t == s || lex_less(s, t) by {
        lemma_completion_fixes_cell(p, t, k);
        let e = t[k];
        if e < d {
            assert(is_solvable(p.update(k, e)));
        } else if e == d {
            assert(is_completion(p.update(k, d), t));
        } else {
            assert forall|i: int| 0 <= i < k implies s[i] == t[i] by {
                assert(p[i] != 0);
            }
            assert(differ_first_at(s, t, k));
        }
    }
}

/// The search below digit `digit` in the cell at `row`, `col`, on copies of `board` and
/// `engine`: the solution found, if there is one.
pub fn explore_branch(
    board: &Board,
    engine: &Option<SimdSolver>,
    row: usize,
    col: usize,
    digit: u8,
) -> (found: Option<Board>)
    requires
        row < 9,
        col < 9,
        1 <= digit <= 9,
        board@[row * 9 + col] == 0,
        engine_records(*engine, board@),
    ensures
        is_branch_outcome(
            board@,
            row * 9 + col,
            digit,
            match found {
                Some(solved) => Some(solved@),
                None => None,
            },
        ),
{
    let mut board_copy = board.clone();
    let engine_copy = engine.clone();
    if try_solve_with_value(row, col, digit, &mut board_copy, engine_copy) {
        Some(board_copy)
    } else {
        None
    }
}

/// Whether the search below `digits[i]` found `s` and the searches below the digits
/// before it found nothing.
pub open spec fn is_first_success(p: Seq<u8>, k: int, digits: Seq<u8>, i: int, s: Seq<u8>) -> bool {
    &&& 0 <= i < digits.len()
    &&& is_branch_outcome(p, k, digits[i], Some(s))
    &&& forall|j: int| 0 <= j < i ==> is_branch_outcome(p, k, #[trigger] digits[j], None)
}

/// Runs `explore_branch` for the digits of `digits` on the threads of rayon's pool and
/// returns the solution found for the first digit, in the order of `digits`, whose search
/// finds one.
///
/// This is `find_map_first` of rayon's `ParallelIterator` on `digits.into_par_iter()`.
/// The contract rests on what rayon documents of it: it applies the closure to the
/// items and returns the first result, in the order of the items, that is not `None`;
/// the items before that one have all been tried, those after it may have been stopped.
#[verifier::external_body]
fn first_solved_branch(
    board: &Board,
    engine: &Option<SimdSolver>,
    row: usize,
    col: usize,
    digits: Vec<u8>,
) -> (found: Option<Board>)
    requires
        row < 9,
        col < 9,
        board@[row * 9 + col] == 0,
        engine_records(*engine, board@),
        forall|i: int| 0 <= i < digits@.len() ==> 1 <= #[trigger] digits@[i] <= 9,
    ensures
        match found {
            Some(solved) => exists|i: int|
                #[trigger] is_first_success(board@, row * 9 + col, digits@, i, solved@),
            None => forall|i: int|
                0 <= i < digits@.len() ==> is_branch_outcome(
                    board@,
                    row * 9 + col,
                    #[trigger] digits@[i],
                    None,
                ),
        },
{
    digits.into_par_iter().find_map_first(|digit| explore_branch(board, engine, row, col, digit))
}

/// What the fan-out over the candidate digits of the empty cell `k` of `p` comes to,
/// the digits taken in ascending order: the solution of `p` with the smallest digit in
/// `k` and, among those, the first in lexicographic order; or nothing where `p` has no
/// solution.
pub open spec fn is_fan_out_outcome(p: Seq<u8>, k: int, outcome: Option<Seq<u8>>) -> bool {
    match outcome {
        Some(s) => is_completion(p, s) && is_preferred_at(p, k, s),
        None => !is_solvable(p),
    }
}

/// Whether no solution of `p` comes before `s` when solutions are ordered by their digit
/// in cell `k` first and lexicographically second.
pub open spec fn is_preferred_at(p: Seq<u8>, k: int, s: Seq<u8>) -> bool {
    forall|t: Seq<u8>| #[trigger]
        is_completion(p, t) ==> s[k] < t[k] || (s[k] == t[k] && (t == s || lex_less(s, t)))
}

/// Searches for a solution of `board` with each of `digits` in the empty cell at `row`,
/// `col`, one task per digit and each task on its own copies of `board` and `engine`.
/// The digit that comes first in `digits` and leads to a solution decides the result.
#[verifier::rlimit(50)]
pub fn fan_out(
    board: &Board,
    engine: &Option<SimdSolver>,
    row: usize,
    col: usize,
    digits: Vec<u8>,
) -> (found: Option<Board>)
    requires
        row < 9,
        col < 9,
        board@[row * 9 + col] == 0,
        engine_records(*engine, board@),
        forall|i: int, j: int| 0 <= i < j < digits@.len() ==> digits@[i] < digits@[j],
        forall|d: u8|
            1 <= d <= 9 && is_placeable(board@, row * 9 + col, d) <==> digits@.contains(d),
    ensures
        is_fan_out_outcome(
            board@,
            row * 9 + col,
            match found {
                Some(solved) => Some(solved@),
                None => None,
            },
        ),
{
    let ghost p = board@;
    let ghost k = row * 9 + col;
    let ghost order = digits@;
    proof {
        assert forall|i: int| 0 <= i < order.len() implies 1 <= #[trigger] order[i] <= 9 by {
            assert(order.contains(order[i]));
        }
    }
    let found = first_solved_branch(board, engine, row, col, digits);
    proof {
        match found {
            Some(solved) => {
                let s = solved@;
                let i = choose|i: int| #[trigger] is_first_success(p, k, order, i, s);
                let d = order[i];
                lemma_completion_of_filled(p, k, d, s);
                assert(p.update(k, d)[k] != 0);
                assert(s[k] == d);
                assert forall|t: Seq<u8>| #[trigger] is_completion(p, t) implies s[k] < t[k] || (
                s[k] == t[k] && (t == s || lex_less(s, t))) by {
                    lemma_completion_fixes_cell(p, t, k);
                    lemma_completion_digit_is_placeable(p, t, k);
                    let e = t[k];
                    assert(order.contains(e));
                    let m = choose|m: int| 0 <= m < order.len() && order[m] == e;
                    if m < i {
                        assert(is_branch_outcome(p, k, order[m], None));
                        assert(is_solvable(p.update(k, e)));
                    } else if m == i {
                        assert(is_completion(p.update(k, d), t));
                    }
                }
            },
            None => {
                assert forall|t: Seq<u8>| !is_completion(p, t) by {
                    if is_completion(p, t) {
                        lemma_completion_fixes_cell(p, t, k);
                        lemma_completion_digit_is_placeable(p, t, k);
                        let e = t[k];
                        assert(order.contains(e));
                        let m = choose|m: int| 0 <= m < order.len() && order[m] == e;
                        assert(is_branch_outcome(p, k, order[m], None));
                        assert(is_solvable(p.update(k, e)));
                    }
                }
            },
        }
    }
    found
}

} // verus!
