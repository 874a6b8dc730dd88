//! What holds of the solver on every puzzle, proved from the contracts of its functions.

use crate::rules::{
    box_has, box_values, col_has, col_values, extends, in_row, is_completion,
    is_first_completion, is_full, is_solvable, is_solved, is_unit_valid,
    lemma_box_holds_every_digit, lemma_col_holds_every_digit, lemma_conflict_has_no_completion,
    lemma_lex_less_asymmetric, lemma_out_of_range_has_no_completion,
    lemma_row_holds_every_digit, lemma_solved_by_units, lex_less, peers, row_has, row_values,
};
use crate::solver::{is_chosen_completion, is_solve_step, SolverView};
use vstd::prelude::*;

verus! {

/// A solver as `Solver::new` leaves it: the puzzle on the board, the reference beside
/// it, and the reference taken to match.
pub open spec fn is_fresh(view: SolverView, puzzle: Seq<u8>, reference: Seq<u8>) -> bool {
    view.board == puzzle && view.reference == reference && view.matches_reference
}

/// The board that a successful `solve` leaves is solved, so the validator accepts it:
/// each of its rows, columns and boxes holds nine different digits, and with them every
/// digit from 1 to 9.
pub proof fn law_solution_is_valid(pre: SolverView, post: SolverView)
    requires
        is_solve_step(pre, post, true),
    ensures
        is_solved(post.board),
        forall|u: int| 0 <= u < 9 ==> is_unit_valid(#[trigger] row_values(post.board, u)),
        forall|u: int| 0 <= u < 9 ==> is_unit_valid(#[trigger] col_values(post.board, u)),
        forall|u: int| 0 <= u < 9 ==> is_unit_valid(#[trigger] box_values(post.board, u)),
        forall|u: int, d: u8| 0 <= u < 9 && 1 <= d <= 9 ==> #[trigger] row_has(post.board, u, d),
        forall|u: int, d: u8| 0 <= u < 9 && 1 <= d <= 9 ==> #[trigger] col_has(post.board, u, d),
        forall|u: int, d: u8| 0 <= u < 9 && 1 <= d <= 9 ==> #[trigger] box_has(post.board, u, d),
{
    let s = post.board;
    lemma_solved_by_units(s);
    assert forall|u: int, d: u8| 0 <= u < 9 && 1 <= d <= 9 implies #[trigger] row_has(s, u, d) by {
        lemma_row_holds_every_digit(s, u, d);
    }
    assert forall|u: int, d: u8| 0 <= u < 9 && 1 <= d <= 9 implies #[trigger] col_has(s, u, d) by {
        lemma_col_holds_every_digit(s, u, d);
    }
    assert forall|u: int, d: u8| 0 <= u < 9 && 1 <= d <= 9 implies #[trigger] box_has(s, u, d) by {
        lemma_box_holds_every_digit(s, u, d);
    }
}

/// A puzzle has at most one first solution, so the search below a placement has one
/// result and no other.
pub proof fn law_first_completion_is_unique(p: Seq<u8>, s: Seq<u8>, t: Seq<u8>)
    requires
        is_first_completion(p, s),
        is_first_completion(p, t),
    ensures
        s == t,
{
    if s != t {
        assert(is_completion(p, t));
        assert(is_completion(p, s));
        assert(lex_less(s, t));
        assert(lex_less(t, s));
        lemma_lex_less_asymmetric(s, t);
    }
}

/// The solver returns one solution and no other: two boards that are both the chosen
/// solution of a puzzle are equal.
pub proof fn law_chosen_completion_is_unique(p: Seq<u8>, s: Seq<u8>, t: Seq<u8>, k: int)
    requires
        crate::selection::is_selected_cell(p, k),
        is_chosen_completion(p, s),
        is_chosen_completion(p, t),
    ensures
        s == t,
{
    assert(crate::search::is_preferred_at(p, k, s));
    assert(crate::search::is_preferred_at(p, k, t));
    assert(is_completion(p, t));
    assert(is_completion(p, s));
    if s != t {
        assert(s[k] == t[k]);
        assert(lex_less(s, t));
        assert(lex_less(t, s));
        lemma_lex_less_asymmetric(s, t);
    }
}

/// The board that a successful `solve` leaves keeps every digit of the puzzle.
pub proof fn law_fixed_cells_are_kept(pre: SolverView, post: SolverView, i: int)
    requires
        is_solve_step(pre, post, true),
        0 <= i < 81,
        pre.board[i] != 0,
    ensures
        post.board[i] == pre.board[i],
{
    assert(extends(post.board, pre.board));
}

/// A board with an empty cell is not solved.
pub proof fn law_empty_cell_is_invalid(b: Seq<u8>, i: int)
    requires
        0 <= i < 81,
        b[i] == 0,
    ensures
        !is_solved(b),
{
}

/// A board with a value above 9 is not solved.
pub proof fn law_out_of_range_is_invalid(b: Seq<u8>, i: int)
    requires
        0 <= i < 81,
        b[i] > 9,
    ensures
        !is_solved(b),
{
}

/// Where the reference is the only solution of the puzzle, `solve` on a fresh solver
/// succeeds, leaves the reference on the board and marks it as matching.
pub proof fn law_only_solution_is_found(
    puzzle: Seq<u8>,
    reference: Seq<u8>,
    pre: SolverView,
    post: SolverView,
    solved: bool,
)
    requires
        is_completion(puzzle, reference),
        forall|t: Seq<u8>| #[trigger] is_completion(puzzle, t) ==> t == reference,
        is_fresh(pre, puzzle, reference),
        is_solve_step(pre, post, solved),
    ensures
        solved,
        post.board == reference,
        post.board == post.reference,
        post.matches_reference,
{
    assert(is_solvable(puzzle));
    assert(is_completion(puzzle, post.board));
}

/// On the empty board with a solved reference, `solve` on a fresh solver succeeds, and
/// it marks the reference as matching exactly when the reference is the solution it
/// returns. So the mark is false for every reference but that one.
pub proof fn law_empty_board_is_ambiguous(
    reference: Seq<u8>,
    pre: SolverView,
    post: SolverView,
    solved: bool,
)
    requires
        is_solved(reference),
        is_fresh(pre, Seq::new(81, |i: int| 0u8), reference),
        is_solve_step(pre, post, solved),
    ensures
        solved,
        is_chosen_completion(pre.board, post.board),
        post.matches_reference <==> reference == post.board,
        !is_chosen_completion(pre.board, reference) ==> !post.matches_reference,
{
    let empty = Seq::new(81, |i: int| 0u8);
    assert(is_completion(empty, reference));
    assert(empty[0] == 0);
    assert(!is_full(empty));
}

/// A puzzle with one empty cell and a solved reference that extends it has the
/// reference as its only solution.
pub proof fn law_single_empty_cell(puzzle: Seq<u8>, reference: Seq<u8>, k: int, t: Seq<u8>)
    requires
        is_completion(puzzle, reference),
        0 <= k < 81,
        puzzle[k] == 0,
        forall|i: int| 0 <= i < 81 && i != k ==> #[trigger] puzzle[i] != 0,
        is_completion(puzzle, t),
    ensures
        t == reference,
{
    assert forall|i: int| 0 <= i < 81 && i != k implies t[i] == reference[i] by {
        assert(puzzle[i] != 0);
    }
    lemma_row_holds_every_digit(reference, k / 9, t[k]);
    let j = choose|j: int| #[trigger] in_row(k / 9, j) && reference[j] == t[k];
    if j != k {
        assert(t[j] == reference[j]);
        assert(peers(k, j));
    }
    assert(t =~= reference);
}

/// A puzzle with one empty cell and a solved reference that extends it is solved to
/// exactly the reference, and the reference is marked as matching.
pub proof fn law_single_empty_cell_is_determined(
    puzzle: Seq<u8>,
    reference: Seq<u8>,
    k: int,
    pre: SolverView,
    post: SolverView,
    solved: bool,
)
    requires
        is_completion(puzzle, reference),
        0 <= k < 81,
        puzzle[k] == 0,
        forall|i: int| 0 <= i < 81 && i != k ==> #[trigger] puzzle[i] != 0,
        is_fresh(pre, puzzle, reference),
        is_solve_step(pre, post, solved),
    ensures
        solved,
        post.board == reference,
        post.matches_reference,
{
    assert forall|t: Seq<u8>| #[trigger] is_completion(puzzle, t) implies t == reference by {
        law_single_empty_cell(puzzle, reference, k, t);
    }
    law_only_solution_is_found(puzzle, reference, pre, post, solved);
}

/// A board on which a digit stands twice in a row, a column or a box is not solved by
/// `solve`: the call fails, and the board stays as it was.
pub proof fn law_contradiction_is_rejected(pre: SolverView, post: SolverView, solved: bool, i: int, j: int)
    requires
        pre.board.len() == 81,
        peers(i, j),
        pre.board[i] != 0,
        pre.board[i] == pre.board[j],
        is_solve_step(pre, post, solved),
    ensures
        !solved,
        post.board == pre.board,
{
    lemma_conflict_has_no_completion(pre.board, i, j);
}

/// A board with a value above 9 is not solved by `solve` either.
pub proof fn law_out_of_range_is_rejected(pre: SolverView, post: SolverView, solved: bool, i: int)
    requires
        pre.board.len() == 81,
        0 <= i < 81,
        pre.board[i] > 9,
        is_solve_step(pre, post, solved),
    ensures
        !solved,
{
    lemma_out_of_range_has_no_completion(pre.board, i);
}

} // verus!
