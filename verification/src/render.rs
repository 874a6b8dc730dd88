//! The picture of a board as text: nine rows between grid lines, a dot for each empty
//! cell.

use crate::error::{push_signed_decimal, signed_decimal};
use vstd::prelude::*;

verus! {

/// The text of one cell: a dot for 0, else the number, and a space behind either.
pub open spec fn cell_text(cell: int) -> Seq<char> {
    if cell == 0 {
        "· "@
    } else {
        signed_decimal(cell) + " "@
    }
}

/// Whether a bar follows the entry at place `j` of a row, or a line the row at place
/// `j` of a board: after every third, but not after the ninth.
pub open spec fn is_block_end(j: int) -> bool {
    (j + 1) % 3 == 0 && j < 8
}

/// The text of a row up to, but without, its entry at place `n`.
pub open spec fn row_text_upto(row: Seq<i32>, n: int) -> Seq<char>
    decreases n,
{
    if n <= 0 {
        "│ "@
    } else {
        row_text_upto(row, n - 1) + cell_text(row[n - 1] as int) + if is_block_end(n - 1) {
            "│ "@
        } else {
            Seq::<char>::empty()
        }
    }
}

/// The text of a row: a bar in front, the cells with a bar between the blocks, a bar
/// and a line break behind.
pub open spec fn row_text(row: Seq<i32>) -> Seq<char> {
    row_text_upto(row, row.len() as int) + "│\n"@
}

/// The text of a board up to, but without, its row at place `n`.
pub open spec fn board_text_upto(board: Seq<Vec<i32>>, n: int) -> Seq<char>
    decreases n,
{
    if n <= 0 {
        "┌───────┬───────┬───────┐\n"@
    } else {
        board_text_upto(board, n - 1) + row_text(board[n - 1]@) + if is_block_end(n - 1) {
            "├───────┼───────┼───────┤\n"@
        } else {
            Seq::<char>::empty()
        }
    }
}

/// The text of a board: the top line, the rows with a line between the blocks, the
/// bottom line.
pub open spec fn board_text(board: Seq<Vec<i32>>) -> Seq<char> {
    board_text_upto(board, board.len() as int) + "└───────┴───────┴───────┘\n"@
}

/// The picture of `board` as text.
pub fn render_board(board: &[Vec<i32>]) -> (text: String)
    ensures
        text@ == board_text(board@),
{
    let mut text = "┌───────┬───────┬───────┐\n".to_owned();
    for i in 0..board.len()
        invariant
            text@ == board_text_upto(board@, i as int),
    {
        let row = &board[i];
        let ghost before = text@;
        text.push_str("│ ");
        for j in 0..row.len()
            invariant
                row@ == board@[i as int]@,
                text@ == before + row_text_upto(row@, j as int),
        {
            let cell = row[j];
            let ghost so_far = text@;
            if cell == 0 {
                text.push_str("· ");
            } else {
                push_signed_decimal(&mut text, cell);
                text.push_str(" ");
            }
            assert(text@ =~= so_far + cell_text(cell as int));
            if (j + 1) % 3 == 0 && j < 8 {
                text.push_str("│ ");
            }
            assert(text@ =~= before + row_text_upto(row@, j + 1));
        }
        text.push_str("│\n");
        assert(text@ =~= before + row_text(row@));
        if (i + 1) % 3 == 0 && i < 8 {
            text.push_str("├───────┼───────┼───────┤\n");
        }
        assert(text@ =~= board_text_upto(board@, i + 1));
    }
    text.push_str("└───────┴───────┴───────┘\n");
    text
}

} // verus!
