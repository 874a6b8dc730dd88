//! The solver: a puzzle with its reference solution, the candidate table computed from
//! the puzzle, and the mask engine that seeds the search.

use crate::board::Board;
use crate::candidates::CandidateSet;
use crate::error::SudokuError;
use crate::grid::Grid;
use crate::rules::{
    board_of, is_completion, is_full, is_matrix, is_solvable, is_solved,
    lemma_board_of_matrix, lemma_full_board_completion, lemma_solvable_is_consistent,
    matrix_holds,
};
use crate::search::{engine_records, fan_out, is_preferred_at};
use crate::selection::{
    count_of, find_empty_cells, has_dead_cell, is_candidate_table, is_selected_cell,
    lemma_dead_cell_has_no_completion, lemma_no_dead_cell, lemma_selected_cell_unique,
    order_by_impact, precompute_candidates,
};
use crate::simd::{has_simd_support, SimdSolver, SimdValidator};
use vstd::prelude::*;

verus! {

/// What can be seen of a solver: the board it works on, the reference solution, and
/// whether the reference is taken to be the puzzle's solution.
pub struct SolverView {
    pub board: Seq<u8>,
    pub reference: Seq<u8>,
    pub matches_reference: bool,
}

/// Whether `s` is the solution of `p` that the solver returns: a solution that, for
/// the cell the search branches on, comes before every other solution when solutions are
/// ordered by their digit in that cell first and lexicographically second.
pub open spec fn is_chosen_completion(p: Seq<u8>, s: Seq<u8>) -> bool {
    &&& is_completion(p, s)
    &&& forall|k: int| #[trigger] is_selected_cell(p, k) ==> is_preferred_at(p, k, s)
}

/// What one call of `solve` does to a solver, `solved` telling whether it succeeded.
///
/// It succeeds exactly when the board has a solution, and then leaves the chosen
/// solution on the board; when it fails, the board is as it was. The reference solution
/// never changes. The mark that the reference matches is left alone where the board was
/// full. After a search that succeeded it tells whether the search returned the
/// reference solution. After a failure it is left alone where some empty cell had no
/// candidate digit, and is false otherwise.
pub open spec fn is_solve_step(pre: SolverView, post: SolverView, solved: bool) -> bool {
    &&& post.reference == pre.reference
    &&& solved <==> is_solvable(pre.board)
    &&& solved ==> is_chosen_completion(pre.board, post.board)
    &&& !solved ==> post.board == pre.board
    &&& post.matches_reference == if is_full(pre.board) {
        pre.matches_reference
    } else if solved {
        post.board == post.reference
    } else if has_dead_cell(pre.board) {
        pre.matches_reference
    } else {
        false
    }
}

/// A puzzle under solution.
pub struct Solver {
    board: Board,
    solution: Board,
    candidates: Vec<CandidateSet>,
    unique_solution: bool,
    simd_solver: Option<SimdSolver>,
}

impl View for Solver {
    type V = SolverView;

    closed spec fn view(&self) -> SolverView {
        SolverView {
            board: self.board@,
            reference: self.solution@,
            matches_reference: self.unique_solution,
        }
    }
}

impl Solver {
    #[verifier::type_invariant]
    spec fn is_prepared(self) -> bool {
        &&& is_candidate_table(self.candidates@, self.board@)
        &&& !is_full(self.board@) ==> engine_records(self.simd_solver, self.board@)
    }

    /// The solver for the puzzle and the reference solution of `grid`. The candidate
    /// digits of every empty cell are computed here, once, from the puzzle as given.
    pub fn new(grid: Grid) -> (solver: Solver)
        requires
            grid.is_well_formed(),
        ensures
            solver@.board == board_of(grid.value@),
            solver@.reference == board_of(grid.solution@),
            solver@.matches_reference,
    {
        let board = Board::new(grid.value.as_slice());
        let solution = Board::new(grid.solution.as_slice());
        let simd_solver = if has_simd_support() {
            Some(SimdSolver::new(&board))
        } else {
            None
        };
        let candidates = precompute_candidates(&board);
        Solver { board, solution, candidates, unique_solution: true, simd_solver }
    }

    /// Solves the puzzle.
    ///
    /// A full board is returned as it is if it is solved. Otherwise the search branches
    /// on the first of the best cells: one task for each of its candidate digits, in
    /// ascending order, each task searching depth-first on its own copy of the board.
    /// The result is `Ok` with the chosen solution exactly when the puzzle has a
    /// solution; every failure is `InvalidBoard`. A board whose placed digits contradict
    /// the rules fails before any search.
    #[verifier::rlimit(50)]
    pub fn solve(&mut self) -> (result: Result<Vec<Vec<i32>>, SudokuError>)
        ensures
            is_solve_step(old(self)@, final(self)@, result is Ok),
            result matches Ok(matrix) ==> is_matrix(matrix@),
            result matches Ok(matrix) ==> board_of(matrix@) == final(self)@.board,
            result matches Err(e) ==> e == SudokuError::InvalidBoard,
    {
        proof {
            use_type_invariant(&*self);
        }
        let ghost p = self.board@;
        let empty_cells = find_empty_cells(&self.board, &self.candidates);
        if empty_cells.len() == 0 {
            if !SimdValidator::validate_solution(&self.board) {
                proof {
                    lemma_full_unsolved(p);
                }
                return Err(SudokuError::InvalidBoard);
            }
            proof {
                lemma_full_solved(p);
            }
            let matrix = self.board.to_vec();
            proof {
                lemma_board_of_matrix(matrix@, p);
            }
            return Ok(matrix);
        }
        let (row, col) = empty_cells[0];
        let ghost k = row * 9 + col;
        let candidates = self.candidates[row * 9 + col];
        proof {
            candidates.lemma_count();
        }
        if candidates.is_empty() {
            proof {
                lemma_dead_cell_has_no_completion(p, k);
                assert(count_of(p, k) == 0);
            }
            return Err(SudokuError::InvalidBoard);
        }
        proof {
            lemma_no_dead_cell(p, k);
        }
        if !SimdValidator::validate_placed(&self.board) {
            proof {
                if is_solvable(p) {
                    lemma_solvable_is_consistent(p);
                }
            }
            self.unique_solution = false;
            return Err(SudokuError::InvalidBoard);
        }
        let digits = order_by_impact(
            &self.board,
            &self.candidates,
            row,
            col,
            candidates.iter_candidates(),
        );
        match fan_out(&self.board, &self.simd_solver, row, col, digits) {
            Some(solved) => {
                proof {
                    lemma_chosen(p, k, solved@);
                }
                self.unique_solution = solved == self.solution;
                self.board = solved;
                let matrix = self.board.to_vec();
                proof {
                    lemma_board_of_matrix(matrix@, solved@);
                }
                Ok(matrix)
            },
            None => {
                self.unique_solution = false;
                Err(SudokuError::InvalidBoard)
            },
        }
    }

    /// Whether the board equals the reference solution.
    pub fn verify_solution(&self) -> (matches: bool)
        ensures
            matches == (self@.board == self@.reference),
    {
        self.board == self.solution
    }

    /// Whether the reference is taken to be the puzzle's solution: true from
    /// construction on, and after a search whether the search returned the reference.
    pub fn has_unique_solution(&self) -> (unique: bool)
        ensures
            unique == self@.matches_reference,
    {
        self.unique_solution
    }

    /// The board as nine rows of nine entries.
    pub fn get_solution(&self) -> (matrix: Vec<Vec<i32>>)
        ensures
            matrix_holds(matrix@, self@.board),
            board_of(matrix@) == self@.board,
    {
        self.board.to_vec()
    }

    /// The reference solution as nine rows of nine entries.
    pub fn get_original_solution(&self) -> (matrix: Vec<Vec<i32>>)
        ensures
            matrix_holds(matrix@, self@.reference),
            board_of(matrix@) == self@.reference,
    {
        self.solution.to_vec()
    }

    /// Whether `board` is solved.
    pub fn is_valid_solution(&self, board: &Board) -> (valid: bool)
        ensures
            valid == is_solved(board@),
    {
        SimdValidator::validate_solution(board)
    }
}

/// A full board that is not solved has no solution.
proof fn lemma_full_unsolved(p: Seq<u8>)
    requires
        is_full(p),
        !is_solved(p),
    ensures
        !is_solvable(p),
{
    assert forall|s: Seq<u8>| !is_completion(p, s) by {
        if is_completion(p, s) {
            lemma_full_board_completion(p, s);
        }
    }
}

/// A solved board is its own chosen solution.
proof fn lemma_full_solved(p: Seq<u8>)
    requires
        is_solved(p),
    ensures
        is_solvable(p),
        is_chosen_completion(p, p),
        is_full(p),
{
    assert(is_completion(p, p));
    assert forall|k: int| #[trigger] is_selected_cell(p, k) implies is_preferred_at(p, k, p) by {
        assert(p[k] == 0);
        assert(1 <= p[k]);
    }
}

/// The solution that the fan-out over the selected cell returns is the chosen one.
proof fn lemma_chosen(p: Seq<u8>, k: int, s: Seq<u8>)
    requires
        is_selected_cell(p, k),
        is_completion(p, s),
        is_preferred_at(p, k, s),
    ensures
        is_chosen_completion(p, s),
        is_solvable(p),
        is_full(s),
{
    assert forall|j: int| #[trigger] is_selected_cell(p, j) implies is_preferred_at(p, j, s) by {
        lemma_selected_cell_unique(p, j, k);
    }
    assert forall|i: int| 0 <= i < s.len() implies #[trigger] s[i] != 0 by {
        assert(1 <= s[i]);
    }
}

} // verus!
