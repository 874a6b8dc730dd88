//! The choice of the cell to branch on: fewest candidate digits first, then the greatest
//! impact on the neighbouring empty cells.

use crate::board::Board;
use crate::candidates::CandidateSet;
use crate::rules::{
    box_of, is_completion, is_full, is_placeable, is_solvable,
    lemma_completion_digit_is_placeable, peers, shares_unit,
};
use crate::search::is_valid_placement;
use vstd::prelude::*;

verus! {

/// The candidate digits of cell `k` on board `b`: for an empty cell the digits that its
/// row, column and box lack, for a filled cell none.
pub open spec fn candidates_of(b: Seq<u8>, k: int) -> Set<u8> {
    if b[k] == 0 {
        Set::new(|d: u8| 1 <= d <= 9 && is_placeable(b, k, d))
    } else {
        Set::empty()
    }
}

/// Whether `table` holds, for each empty cell of `b`, the cell's candidate digits.
pub open spec fn is_candidate_table(table: Seq<CandidateSet>, b: Seq<u8>) -> bool {
    &&& table.len() == 81
    &&& b.len() == 81
    &&& forall|k: int| 0 <= k < 81 && b[k] == 0 ==> (#[trigger] table[k])@ == candidates_of(b, k)
}

/// The number of candidate digits of cell `k`.
pub open spec fn count_of(b: Seq<u8>, k: int) -> nat {
    candidates_of(b, k).len()
}

/// What cell `j` adds to the impact of cell `k`: for another empty cell of a common row,
/// column or box, the number of candidate digits that the two cells share.
pub open spec fn impact_share(b: Seq<u8>, k: int, j: int) -> nat {
    if peers(k, j) && b[j] == 0 {
        candidates_of(b, k).intersect(candidates_of(b, j)).len()
    } else {
        0
    }
}

/// The sum of the shares that the first `n` cells add to the impact of cell `k`.
pub open spec fn impact_upto(b: Seq<u8>, k: int, n: int) -> nat
    decreases n,
{
    if n <= 0 {
        0
    } else {
        impact_upto(b, k, n - 1) + impact_share(b, k, n - 1)
    }
}

/// The impact of cell `k`: the sum, over every other empty cell of a common row, column
/// or box, of the number of candidate digits shared with it.
pub open spec fn impact_of(b: Seq<u8>, k: int) -> nat {
    impact_upto(b, k, 81)
}

/// Whether `k` is an empty cell with the fewest candidate digits and, among those, with
/// the greatest impact.
pub open spec fn is_best_cell(b: Seq<u8>, k: int) -> bool {
    &&& 0 <= k < 81
    &&& b[k] == 0
    &&& forall|j: int| 0 <= j < 81 && b[j] == 0 ==> count_of(b, k) <= #[trigger] count_of(b, j)
    &&& forall|j: int|
        0 <= j < 81 && b[j] == 0 && count_of(b, j) == count_of(b, k) ==> #[trigger] impact_of(b, j)
            <= impact_of(b, k)
}

/// Whether `k` is the first best cell in row-major order: the cell that the search
/// branches on.
pub open spec fn is_selected_cell(b: Seq<u8>, k: int) -> bool {
    &&& is_best_cell(b, k)
    &&& forall|j: int| 0 <= j < k ==> !is_best_cell(b, j)
}

/// Whether some empty cell of `b` has no candidate digit.
pub open spec fn has_dead_cell(b: Seq<u8>) -> bool {
    exists|k: int| 0 <= k < 81 && b[k] == 0 && #[trigger] count_of(b, k) == 0
}

/// Two cells share a unit exactly when their rows, their columns or their boxes agree.
#[verifier::rlimit(50)]
pub proof fn lemma_shares_unit_by_position(row: int, col: int, other_row: int, other_col: int)
    requires
        0 <= row < 9,
        0 <= col < 9,
        0 <= other_row < 9,
        0 <= other_col < 9,
    ensures
        shares_unit(row * 9 + col, other_row * 9 + other_col) == (other_row == row || other_col
            == col || box_of(other_row, other_col) == box_of(row, col)),
        row * 9 + col == other_row * 9 + other_col <==> row == other_row && col == other_col,
{
    let i = row * 9 + col;
    let j = other_row * 9 + other_col;
    assert(i / 9 == row && i % 9 == col);
    assert(j / 9 == other_row && j % 9 == other_col);
}

/// The candidate digits of every empty cell of `board`, found by reading the units of
/// each cell. The entry of a filled cell is the empty set.
#[verifier::rlimit(50)]
pub fn precompute_candidates(board: &Board) -> (table: Vec<CandidateSet>)
    ensures
        table@.len() == 81,
        forall|k: int| 0 <= k < 81 ==> (#[trigger] table@[k])@ == candidates_of(board@, k),
{
    let mut table: Vec<CandidateSet> = Vec::new();
    for row in 0..9usize
        invariant
            table@.len() == row * 9,
            forall|k: int| 0 <= k < row * 9 ==> (#[trigger] table@[k])@ == candidates_of(board@, k),
    {
        for col in 0..9usize
            invariant
                row < 9,
                table@.len() == row * 9 + col,
                forall|k: int|
                    0 <= k < row * 9 + col ==> (#[trigger] table@[k])@ == candidates_of(board@, k),
        {
            let ghost k = row * 9 + col;
            let mut candidates = CandidateSet::empty();
            if board.is_empty_cell(row, col) {
                candidates = CandidateSet::all();
                let mut num: u8 = 1;
                while num <= 9
                    invariant
                        1 <= num <= 10,
                        row < 9,
                        col < 9,
                        k == row * 9 + col,
                        forall|d: u8|
                            candidates@.contains(d) <==> 1 <= d <= 9 && (d >= num || is_placeable(
                                board@,
                                k,
                                d,
                            )),
                    decreases 10 - num,
                {
                    if !is_valid_placement(board, row, col, num) {
                        candidates.remove_candidate(num);
                    }
                    num += 1;
                }
                assert(candidates@ =~= candidates_of(board@, k));
            }
            table.push(candidates);
        }
    }
    table
}

/// The impact of the empty cell at `row`, `col`, read from the candidate table.
#[verifier::rlimit(50)]
pub fn calculate_impact(board: &Board, table: &Vec<CandidateSet>, row: usize, col: usize) -> (impact:
    u32)
    requires
        row < 9,
        col < 9,
        board@[row * 9 + col] == 0,
        is_candidate_table(table@, board@),
    ensures
        impact == impact_of(board@, row * 9 + col),
        impact <= 729,
{
    let k = row * 9 + col;
    let own = table[k];
    let own_box = Board::get_box_index(row, col);
    let mut impact: u32 = 0;
    for other_row in 0..9usize
        invariant
            row < 9,
            col < 9,
            k == row * 9 + col,
            own == table@[k as int],
            own_box == box_of(row as int, col as int),
            board@[k as int] == 0,
            is_candidate_table(table@, board@),
            impact == impact_upto(board@, k as int, other_row * 9),
            impact <= other_row * 81,
    {
        for other_col in 0..9usize
            invariant
                row < 9,
                col < 9,
                other_row < 9,
                k == row * 9 + col,
                own == table@[k as int],
                own_box == box_of(row as int, col as int),
                board@[k as int] == 0,
                is_candidate_table(table@, board@),
                impact == impact_upto(board@, k as int, other_row * 9 + other_col),
                impact <= other_row * 81 + other_col * 9,
        {
            let j = other_row * 9 + other_col;
            let shares = other_row == row || other_col == col || Board::get_box_index(
                other_row,
                other_col,
            ) == own_box;
            proof {
                lemma_shares_unit_by_position(
                    row as int,
                    col as int,
                    other_row as int,
                    other_col as int,
                );
            }
            let mut share: u32 = 0;
            if j != k && shares && board.is_empty_cell(other_row, other_col) {
                share = own.count_common(&table[j]);
            }
            assert(share == impact_share(board@, k as int, j as int));
            assert(impact_upto(board@, k as int, j + 1) == impact_upto(board@, k as int, j as int)
                + impact_share(board@, k as int, j as int));
            impact = impact + share;
        }
    }
    impact
}

/// The empty cells with the fewest candidate digits and, among those, the greatest
/// impact, in row-major order. The result is empty exactly when no cell is empty.
#[verifier::rlimit(50)]
pub fn find_empty_cells(board: &Board, table: &Vec<CandidateSet>) -> (cells: Vec<(usize, usize)>)
    requires
        is_candidate_table(table@, board@),
    ensures
        forall|i: int|
            0 <= i < cells@.len() ==> (#[trigger] cells@[i]).0 < 9 && cells@[i].1 < 9 && is_best_cell(
                board@,
                cells@[i].0 * 9 + cells@[i].1,
            ),
        forall|i: int, j: int|
            0 <= i < j < cells@.len() ==> (#[trigger] cells@[i]).0 * 9 + cells@[i].1 < (
            #[trigger] cells@[j]).0 * 9 + cells@[j].1,
        forall|k: int| is_best_cell(board@, k) ==> cells@.contains(((k / 9) as usize, (k % 9) as usize)),
        cells@.len() == 0 <==> is_full(board@),
        cells@.len() > 0 ==> is_selected_cell(board@, cells@[0].0 * 9 + cells@[0].1),
{
    let ghost b = board@;
    let mut min_candidates: u32 = 10;
    let mut max_impact: u32 = 0;
    let ghost mut witness: int = 0;
    // First pass: the fewest candidates and, among the cells that have them, the greatest impact.
    for row in 0..9usize
        invariant
            b == board@,
            is_candidate_table(table@, b),
            min_candidates <= 10,
            min_candidates == 10 <==> (forall|j: int| 0 <= j < row * 9 ==> b[j] != 0),
            min_candidates < 10 ==> 0 <= witness < row * 9 && b[witness] == 0 && count_of(b, witness)
                == min_candidates && impact_of(b, witness) == max_impact,
            forall|j: int|
                0 <= j < row * 9 && b[j] == 0 ==> min_candidates <= #[trigger] count_of(b, j),
            forall|j: int|
                0 <= j < row * 9 && b[j] == 0 && count_of(b, j) == min_candidates
                    ==> #[trigger] impact_of(b, j) <= max_impact,
    {
        for col in 0..9usize
            invariant
                row < 9,
                b == board@,
                is_candidate_table(table@, b),
                min_candidates <= 10,
                min_candidates == 10 <==> (forall|j: int| 0 <= j < row * 9 + col ==> b[j] != 0),
                min_candidates < 10 ==> 0 <= witness < row * 9 + col && b[witness] == 0 && count_of(
                    b,
                    witness,
                ) == min_candidates && impact_of(b, witness) == max_impact,
                forall|j: int|
                    0 <= j < row * 9 + col && b[j] == 0 ==> min_candidates <= #[trigger] count_of(
                        b,
                        j,
                    ),
                forall|j: int|
                    0 <= j < row * 9 + col && b[j] == 0 && count_of(b, j) == min_candidates
                        ==> #[trigger] impact_of(b, j) <= max_impact,
        {
            if board.is_empty_cell(row, col) {
                let count = table[row * 9 + col].count_candidates();
                if count < min_candidates {
                    min_candidates = count;
                    max_impact = calculate_impact(board, table, row, col);
                    proof {
                        witness = row * 9 + col;
                    }
                } else if count == min_candidates {
                    let impact = calculate_impact(board, table, row, col);
                    if impact > max_impact {
                        max_impact = impact;
                        proof {
                            witness = row * 9 + col;
                        }
                    }
                }
            }
        }
    }
    // Second pass: the cells that reach both.
    let mut cells: Vec<(usize, usize)> = Vec::new();
    for row in 0..9usize
        invariant
            b == board@,
            is_candidate_table(table@, b),
            min_candidates == 10 <==> (forall|j: int| 0 <= j < 81 ==> b[j] != 0),
            min_candidates < 10 ==> 0 <= witness < 81 && b[witness] == 0 && count_of(b, witness)
                == min_candidates && impact_of(b, witness) == max_impact,
            forall|j: int| 0 <= j < 81 && b[j] == 0 ==> min_candidates <= #[trigger] count_of(b, j),
            forall|j: int|
                0 <= j < 81 && b[j] == 0 && count_of(b, j) == min_candidates
                    ==> #[trigger] impact_of(b, j) <= max_impact,
            forall|i: int|
                0 <= i < cells@.len() ==> (#[trigger] cells@[i]).0 < 9 && cells@[i].1 < 9
                    && cells@[i].0 * 9 + cells@[i].1 < row * 9 && is_best_cell(
                    b,
                    cells@[i].0 * 9 + cells@[i].1,
                ),
            forall|i: int, j: int|
                0 <= i < j < cells@.len() ==> (#[trigger] cells@[i]).0 * 9 + cells@[i].1 < (
                #[trigger] cells@[j]).0 * 9 + cells@[j].1,
            forall|k: int|
                0 <= k < row * 9 && is_best_cell(b, k) ==> cells@.contains(
                    ((k / 9) as usize, (k % 9) as usize),
                ),
    {
        for col in 0..9usize
            invariant
                row < 9,
                b == board@,
                is_candidate_table(table@, b),
                min_candidates == 10 <==> (forall|j: int| 0 <= j < 81 ==> b[j] != 0),
                min_candidates < 10 ==> 0 <= witness < 81 && b[witness] == 0 && count_of(b, witness)
                    == min_candidates && impact_of(b, witness) == max_impact,
                forall|j: int|
                    0 <= j < 81 && b[j] == 0 ==> min_candidates <= #[trigger] count_of(b, j),
                forall|j: int|
                    0 <= j < 81 && b[j] == 0 && count_of(b, j) == min_candidates
                        ==> #[trigger] impact_of(b, j) <= max_impact,
                forall|i: int|
                    0 <= i < cells@.len() ==> (#[trigger] cells@[i]).0 < 9 && cells@[i].1 < 9
                        && cells@[i].0 * 9 + cells@[i].1 < row * 9 + col && is_best_cell(
                        b,
                        cells@[i].0 * 9 + cells@[i].1,
                    ),
                forall|i: int, j: int|
                    0 <= i < j < cells@.len() ==> (#[trigger] cells@[i]).0 * 9 + cells@[i].1 < (
                    #[trigger] cells@[j]).0 * 9 + cells@[j].1,
                forall|k: int|
                    0 <= k < row * 9 + col && is_best_cell(b, k) ==> cells@.contains(
                        ((k / 9) as usize, (k % 9) as usize),
                    ),
        {
            let ghost k = row * 9 + col;
            let ghost before = cells@;
            let mut chosen = false;
            if board.is_empty_cell(row, col) {
                let count = table[row * 9 + col].count_candidates();
                let impact = calculate_impact(board, table, row, col);
                if count == min_candidates && impact >= max_impact {
                    proof {
                        assert(is_best_cell(b, k));
                    }
                    cells.push((row, col));
                    chosen = true;
                } else {
                    proof {
                        assert(count_of(b, witness) == min_candidates);
                        assert(!is_best_cell(b, k));
                    }
                }
            }
            proof {
                assert forall|m: int| 0 <= m < k + 1 && is_best_cell(b, m) implies cells@.contains(
                    ((m / 9) as usize, (m % 9) as usize),
                ) by {
                    if m < k {
                        let cell = ((m / 9) as usize, (m % 9) as usize);
                        let i = choose|i: int| 0 <= i < before.len() && before[i] == cell;
                        assert(cells@[i] == cell);
                    } else {
                        assert(chosen);
                        assert(cells@[before.len() as int] == (row, col));
                    }
                }
            }
        }
    }
    proof {
        if cells@.len() == 0 {
            if min_candidates < 10 {
                assert(is_best_cell(b, witness));
                assert(cells@.contains(((witness / 9) as usize, (witness % 9) as usize)));
            }
        } else {
            let first = cells@[0].0 * 9 + cells@[0].1;
            assert(is_best_cell(b, first));
            assert forall|j: int| 0 <= j < first implies !is_best_cell(b, j) by {
                if is_best_cell(b, j) {
                    let cell = ((j / 9) as usize, (j % 9) as usize);
                    let i = choose|i: int| 0 <= i < cells@.len() && cells@[i] == cell;
                    assert(cells@[i].0 * 9 + cells@[i].1 == j);
                    if i > 0 {
                        assert(cells@[0].0 * 9 + cells@[0].1 < cells@[i].0 * 9 + cells@[i].1);
                    }
                }
            }
        }
    }
    cells
}

/// The impact that digit `digit` would produce if it were placed in the empty cell at
/// `row`, `col`. It is read from the candidate table, which stands as it was computed
/// from the puzzle, so it is the impact of the cell whatever the digit.
pub fn placement_impact(
    board: &Board,
    table: &Vec<CandidateSet>,
    row: usize,
    col: usize,
    digit: u8,
) -> (impact: u32)
    requires
        row < 9,
        col < 9,
        board@[row * 9 + col] == 0,
        is_candidate_table(table@, board@),
    ensures
        impact == impact_of(board@, row * 9 + col),
{
    calculate_impact(board, table, row, col)
}

/// The digits of `digits` in ascending order of the impact that each would produce in
/// the cell at `row`, `col`, digits of equal impact in the order they came in. As the
/// impact is the same for every digit, that is the order of `digits`.
pub fn order_by_impact(
    board: &Board,
    table: &Vec<CandidateSet>,
    row: usize,
    col: usize,
    digits: Vec<u8>,
) -> (ordered: Vec<u8>)
    requires
        row < 9,
        col < 9,
        board@[row * 9 + col] == 0,
        is_candidate_table(table@, board@),
    ensures
        ordered@ == digits@,
{
    let mut ordered: Vec<u8> = Vec::new();
    let mut keys: Vec<u32> = Vec::new();
    let ghost impact = impact_of(board@, row * 9 + col);
    for i in 0..digits.len()
        invariant
            row < 9,
            col < 9,
            board@[row * 9 + col] == 0,
            is_candidate_table(table@, board@),
            impact == impact_of(board@, row * 9 + col),
            ordered@ == digits@.take(i as int),
            keys@.len() == i,
            forall|x: int| 0 <= x < i ==> keys@[x] == impact,
    {
        let digit = digits[i];
        let key = placement_impact(board, table, row, col, digit);
        let mut position = ordered.len();
        while position > 0 && keys[position - 1] > key
            invariant
                position <= i,
                position == ordered@.len(),
                keys@.len() == i,
                key == impact,
                forall|x: int| 0 <= x < i ==> keys@[x] == impact,
            decreases position,
        {
            position -= 1;
        }
        ordered.insert(position, digit);
        keys.insert(position, key);
        assert(ordered@ =~= digits@.take(i + 1));
    }
    assert(digits@.take(digits@.len() as int) =~= digits@);
    ordered
}

/// A board has at most one selected cell.
pub proof fn lemma_selected_cell_unique(b: Seq<u8>, j: int, k: int)
    requires
        is_selected_cell(b, j),
        is_selected_cell(b, k),
    ensures
        j == k,
{
    if j < k {
        assert(!is_best_cell(b, j));
    } else if k < j {
        assert(!is_best_cell(b, k));
    }
}

/// Where the cell with the fewest candidate digits has one, no empty cell is without.
pub proof fn lemma_no_dead_cell(b: Seq<u8>, k: int)
    requires
        is_best_cell(b, k),
        count_of(b, k) != 0,
    ensures
        !has_dead_cell(b),
{
    if has_dead_cell(b) {
        let j = choose|j: int| 0 <= j < 81 && b[j] == 0 && #[trigger] count_of(b, j) == 0;
        assert(count_of(b, k) <= count_of(b, j));
    }
}

/// A board with an empty cell that has no candidate digit has no solution.
pub proof fn lemma_dead_cell_has_no_completion(b: Seq<u8>, k: int)
    requires
        0 <= k < 81,
        b[k] == 0,
        candidates_of(b, k) == Set::<u8>::empty(),
    ensures
        !is_solvable(b),
{
    assert forall|s: Seq<u8>| !is_completion(b, s) by {
        if is_completion(b, s) {
            lemma_completion_digit_is_placeable(b, s, k);
            assert(candidates_of(b, k).contains(s[k]));
        }
    }
}

} // verus!
