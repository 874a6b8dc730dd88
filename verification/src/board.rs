//! The board: 81 cells in row-major order, 0 for an empty cell.

use crate::rules::{
    board_of, box_cell, box_of, box_values, col_values, is_matrix, lemma_board_of_matrix,
    matrix_holds, row_values,
};
use vstd::prelude::*;

verus! {

/// A board of 81 cells. The cell at `row`, `col` has index `row * 9 + col`.
#[derive(Debug, Clone, Copy)]
pub struct Board {
    pub(crate) cells: [u8; 81],
}

impl View for Board {
    type V = Seq<u8>;

    open(crate) spec fn view(&self) -> Seq<u8> {
        self.cells@
    }
}

impl PartialEq for Board {
    fn eq(&self, other: &Board) -> (equal: bool) {
        let mut i: usize = 0;
        while i < 81
            invariant
                i <= 81,
                forall|k: int| 0 <= k < i ==> self@[k] == other@[k],
            decreases 81 - i,
        {
            if self.cells[i] != other.cells[i] {
                return false;
            }
            i += 1;
        }
        assert(self@ =~= other@);
        true
    }
}

impl vstd::std_specs::cmp::PartialEqSpecImpl for Board {
    open spec fn obeys_eq_spec() -> bool {
        true
    }

    open spec fn eq_spec(&self, other: &Board) -> bool {
        self@ == other@
    }
}

impl Board {
    /// The board that holds the entries of a 9x9 matrix.
    pub fn new(grid: &[Vec<i32>]) -> (board: Board)
        requires
            is_matrix(grid@),
        ensures
            matrix_holds(grid@, board@),
            board@ == board_of(grid@),
    {
        let mut cells = [0u8; 81];
        for i in 0..9usize
            invariant
                is_matrix(grid@),
                forall|r: int, c: int|
                    0 <= r < i && 0 <= c < 9 ==> #[trigger] grid@[r]@[c] == cells@[r * 9 + c],
        {
            for j in 0..9usize
                invariant
                    i < 9,
                    is_matrix(grid@),
                    forall|r: int, c: int|
                        0 <= r < i && 0 <= c < 9 ==> #[trigger] grid@[r]@[c] == cells@[r * 9 + c],
                    forall|c: int| 0 <= c < j ==> #[trigger] grid@[i as int]@[c] == cells@[i * 9 + c],
            {
                let value: i32 = grid[i][j];
                cells[i * 9 + j] = value as u8;
            }
        }
        let board = Board { cells };
        proof {
            lemma_board_of_matrix(grid@, board@);
        }
        board
    }

    /// The board with every cell empty.
    pub fn empty() -> (board: Board)
        ensures
            board@ == Seq::new(81, |i: int| 0u8),
    {
        let board = Board { cells: [0u8; 81] };
        assert(board@ =~= Seq::new(81, |i: int| 0u8));
        board
    }

    /// The value of the cell at `row`, `col`.
    pub fn get(&self, row: usize, col: usize) -> (value: u8)
        requires
            row < 9,
            col < 9,
        ensures
            value == self@[row * 9 + col],
    {
        self.cells[row * 9 + col]
    }

    /// Writes `value` into the cell at `row`, `col`.
    pub fn set(&mut self, row: usize, col: usize, value: u8)
        requires
            row < 9,
            col < 9,
        ensures
            final(self)@ == old(self)@.update(row * 9 + col, value),
    {
        self.cells[row * 9 + col] = value;
    }

    /// The cells as nine rows of nine entries.
    pub fn to_vec(&self) -> (matrix: Vec<Vec<i32>>)
        ensures
            matrix_holds(matrix@, self@),
            board_of(matrix@) == self@,
    {
        let mut matrix: Vec<Vec<i32>> = Vec::new();
        for i in 0..9usize
            invariant
                matrix@.len() == i,
                forall|r: int| 0 <= r < i ==> (#[trigger] matrix@[r])@.len() == 9,
                forall|r: int, c: int|
                    0 <= r < i && 0 <= c < 9 ==> #[trigger] matrix@[r]@[c] == self@[r * 9 + c],
        {
            let mut row: Vec<i32> = Vec::new();
            for j in 0..9usize
                invariant
                    i < 9,
                    row@.len() == j,
                    forall|c: int| 0 <= c < j ==> row@[c] == self@[i * 9 + c],
            {
                row.push(self.get(i, j) as i32);
            }
            matrix.push(row);
        }
        proof {
            lemma_board_of_matrix(matrix@, self@);
        }
        matrix
    }

    /// Whether the cell at `row`, `col` is empty.
    pub fn is_empty_cell(&self, row: usize, col: usize) -> (empty: bool)
        requires
            row < 9,
            col < 9,
        ensures
            empty == (self@[row * 9 + col] == 0),
    {
        self.get(row, col) == 0
    }

    /// The index, from 0 to 8, of the box that holds the cell at `row`, `col`.
    pub fn get_box_index(row: usize, col: usize) -> (index: usize)
        requires
            row < 9,
            col < 9,
        ensures
            index == box_of(row as int, col as int),
            index < 9,
    {
        (row / 3) * 3 + col / 3
    }
}

/// The nine values of row `row`.
pub(crate) fn gather_row(board: &Board, row: usize) -> (values: [u8; 9])
    requires
        row < 9,
    ensures
        values@ == row_values(board@, row as int),
{
    let mut values = [0u8; 9];
    for k in 0..9usize
        invariant
            row < 9,
            forall|x: int| 0 <= x < k ==> values@[x] == row_values(board@, row as int)[x],
    {
        values[k] = board.get(row, k);
    }
    assert(values@ =~= row_values(board@, row as int));
    values
}

/// The nine values of column `col`.
pub(crate) fn gather_col(board: &Board, col: usize) -> (values: [u8; 9])
    requires
        col < 9,
    ensures
        values@ == col_values(board@, col as int),
{
    let mut values = [0u8; 9];
    for k in 0..9usize
        invariant
            col < 9,
            forall|x: int| 0 <= x < k ==> values@[x] == col_values(board@, col as int)[x],
    {
        values[k] = board.get(k, col);
    }
    assert(values@ =~= col_values(board@, col as int));
    values
}

/// The nine values of box `index`.
#[verifier::rlimit(50)]
pub(crate) fn gather_box(board: &Board, index: usize) -> (values: [u8; 9])
    requires
        index < 9,
    ensures
        values@ == box_values(board@, index as int),
{
    let mut values = [0u8; 9];
    let box_row = index / 3;
    let box_col = index % 3;
    for i in 0..3usize
        invariant
            index < 9,
            box_row == index / 3,
            box_col == index % 3,
            forall|x: int| 0 <= x < i * 3 ==> values@[x] == box_values(board@, index as int)[x],
    {
        for j in 0..3usize
            invariant
                index < 9,
                i < 3,
                box_row == index / 3,
                box_col == index % 3,
                forall|x: int|
                    0 <= x < i * 3 + j ==> values@[x] == box_values(board@, index as int)[x],
        {
            assert(box_cell(index as int, i * 3 + j) == (box_row * 3 + i) * 9 + box_col * 3 + j);
            values[i * 3 + j] = board.get(box_row * 3 + i, box_col * 3 + j);
        }
    }
    assert(values@ =~= box_values(board@, index as int));
    values
}

/// Whether `num` is among nine values.
pub(crate) fn holds_value(values: &[u8; 9], num: u8) -> (holds: bool)
    ensures
        holds == values@.contains(num),
{
    for k in 0..9usize
        invariant
            forall|x: int| 0 <= x < k ==> values@[x] != num,
    {
        if values[k] == num {
            return true;
        }
    }
    false
}

} // verus!
