//! A puzzle as it arrives from a source: the puzzle, a reference solution, a label.

use crate::error::SudokuError;
use crate::rules::is_matrix;
use vstd::prelude::*;

verus! {

/// A puzzle with its reference solution and its difficulty label. Both matrices use 0
/// for an empty or unknown cell.
#[derive(Debug, Clone, PartialEq)]
pub struct Grid {
    pub value: Vec<Vec<i32>>,
    pub solution: Vec<Vec<i32>>,
    pub difficulty: String,
}

/// A batch of puzzles as a source delivers it.
#[derive(Debug, Clone)]
pub struct BoardWrapper {
    pub grids: Vec<Grid>,
    pub results: i32,
    pub message: String,
}

/// The answer of a puzzle source.
#[derive(Debug, Clone)]
pub struct ApiResponse {
    pub newboard: BoardWrapper,
}

/// Whether `(row, col)` is the first entry of `m` in row-major order that is not from 0
/// to 9, `m` having nine rows of nine entries.
pub open spec fn is_first_bad_entry(m: Seq<Vec<i32>>, row: int, col: int) -> bool {
    &&& 0 <= row < 9
    &&& 0 <= col < 9
    &&& !(0 <= m[row]@[col] <= 9)
    &&& forall|r: int, c: int|
        0 <= r < 9 && 0 <= c < 9 && r * 9 + c < row * 9 + col ==> 0 <= #[trigger] m[r]@[c] <= 9
}

/// Whether `m` has nine rows of nine entries.
pub open spec fn has_shape(m: Seq<Vec<i32>>) -> bool {
    &&& m.len() == 9
    &&& forall|r: int| 0 <= r < 9 ==> (#[trigger] m[r])@.len() == 9
}

/// Whether `fault` is what is wrong with `m`: `InvalidBoard` for a matrix that has not
/// nine rows of nine entries, and else `InvalidValue` with the place and the value of the
/// first entry, in row-major order, that is not from 0 to 9.
pub open spec fn is_matrix_fault(m: Seq<Vec<i32>>, fault: SudokuError) -> bool {
    if !has_shape(m) {
        fault == SudokuError::InvalidBoard
    } else {
        &&& fault matches SudokuError::InvalidValue { row, col, value }
        &&& is_first_bad_entry(m, row as int, col as int)
        &&& value == m[row as int]@[col as int]
    }
}

/// Checks that `m` has nine rows of nine entries from 0 to 9, and tells what is wrong
/// where it has not.
pub fn check_matrix(m: &Vec<Vec<i32>>) -> (checked: Result<(), SudokuError>)
    ensures
        checked is Ok <==> is_matrix(m@),
        checked matches Err(fault) ==> is_matrix_fault(m@, fault),
{
    if m.len() != 9 {
        return Err(SudokuError::InvalidBoard);
    }
    for r in 0..9usize
        invariant
            m@.len() == 9,
            forall|i: int| 0 <= i < r ==> (#[trigger] m@[i])@.len() == 9,
    {
        if m[r].len() != 9 {
            return Err(SudokuError::InvalidBoard);
        }
    }
    for r in 0..9usize
        invariant
            has_shape(m@),
            forall|i: int, c: int| 0 <= i < r && 0 <= c < 9 ==> 0 <= #[trigger] m@[i]@[c] <= 9,
    {
        for c in 0..9usize
            invariant
                r < 9,
                has_shape(m@),
                forall|i: int, j: int| 0 <= i < r && 0 <= j < 9 ==> 0 <= #[trigger] m@[i]@[j] <= 9,
                forall|j: int| 0 <= j < c ==> 0 <= #[trigger] m@[r as int]@[j] <= 9,
        {
            let value: i32 = m[r][c];
            if value < 0 || value > 9 {
                assert forall|i: int, j: int|
                    0 <= i < 9 && 0 <= j < 9 && i * 9 + j < r * 9 + c implies 0
                    <= #[trigger] m@[i]@[j] <= 9 by {
                    if i < r {
                    } else {
                        assert(i == r);
                    }
                }
                return Err(SudokuError::InvalidValue { row: r, col: c, value });
            }
        }
    }
    Ok(())
}

impl Grid {
    /// Whether both matrices have nine rows of nine entries from 0 to 9.
    pub open spec fn is_well_formed(&self) -> bool {
        is_matrix(self.value@) && is_matrix(self.solution@)
    }

    /// Checks the puzzle and then the reference solution with `check_matrix`: what is
    /// wrong with the puzzle is told first.
    pub fn check(&self) -> (checked: Result<(), SudokuError>)
        ensures
            checked is Ok <==> self.is_well_formed(),
            checked matches Err(fault) ==> is_matrix_fault(
                if is_matrix(self.value@) {
                    self.solution@
                } else {
                    self.value@
                },
                fault,
            ),
    {
        match check_matrix(&self.value) {
            Ok(()) => check_matrix(&self.solution),
            Err(e) => Err(e),
        }
    }
}

} // verus!
