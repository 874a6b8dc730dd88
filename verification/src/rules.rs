//! The rules of the game, stated over a board as a sequence of 81 cells in row-major order.
//!
//! A cell holds 0 when it is empty and a digit from 1 to 9 when it is filled. Every
//! contract of the crate that speaks of validity, of completions or of the order in
//! which completions are found is written with the functions of this module.

use vstd::prelude::*;

verus! {

/// The index of the box that holds the cell at `row`, `col`.
pub open spec fn box_of(row: int, col: int) -> int {
    (row / 3) * 3 + col / 3
}

/// Whether cells `i` and `j` lie in a common row, column or box. A cell shares its
/// units with itself.
pub open spec fn shares_unit(i: int, j: int) -> bool {
    &&& 0 <= i < 81
    &&& 0 <= j < 81
    &&& (i / 9 == j / 9 || i % 9 == j % 9 || box_of(i / 9, i % 9) == box_of(j / 9, j % 9))
}

/// Whether cell `j` lies in row `r`.
pub open spec fn in_row(r: int, j: int) -> bool {
    0 <= j < 81 && j / 9 == r
}

/// Whether cell `j` lies in column `c`.
pub open spec fn in_col(c: int, j: int) -> bool {
    0 <= j < 81 && j % 9 == c
}

/// Whether cell `j` lies in box `x`.
pub open spec fn in_box(x: int, j: int) -> bool {
    0 <= j < 81 && box_of(j / 9, j % 9) == x
}

/// Whether some cell of row `r` holds `d`.
pub open spec fn row_has(b: Seq<u8>, r: int, d: u8) -> bool {
    exists|j: int| #[trigger] in_row(r, j) && b[j] == d
}

/// Whether some cell of column `c` holds `d`.
pub open spec fn col_has(b: Seq<u8>, c: int, d: u8) -> bool {
    exists|j: int| #[trigger] in_col(c, j) && b[j] == d
}

/// Whether some cell of box `x` holds `d`.
pub open spec fn box_has(b: Seq<u8>, x: int, d: u8) -> bool {
    exists|j: int| #[trigger] in_box(x, j) && b[j] == d
}

/// Whether `i` and `j` are two different cells of a common row, column or box.
pub open spec fn peers(i: int, j: int) -> bool {
    i != j && shares_unit(i, j)
}

/// Whether `b` is completely and correctly filled: every cell holds a digit from 1 to 9
/// and no two cells of a row, column or box hold the same digit.
pub open spec fn is_solved(b: Seq<u8>) -> bool {
    &&& b.len() == 81
    &&& forall|i: int| 0 <= i < 81 ==> 1 <= #[trigger] b[i] <= 9
    &&& forall|i: int, j: int| #[trigger] peers(i, j) ==> b[i] != b[j]
}

/// The index of the `k`-th cell of box `x`, both counted from 0 in row-major order.
pub open spec fn box_cell(x: int, k: int) -> int {
    ((x / 3) * 3 + k / 3) * 9 + (x % 3) * 3 + k % 3
}

/// The nine values of row `r`, from left to right.
pub open spec fn row_values(b: Seq<u8>, r: int) -> Seq<u8> {
    Seq::new(9, |k: int| b[r * 9 + k])
}

/// The nine values of column `c`, from top to bottom.
pub open spec fn col_values(b: Seq<u8>, c: int) -> Seq<u8> {
    Seq::new(9, |k: int| b[k * 9 + c])
}

/// The nine values of box `x`, in row-major order.
pub open spec fn box_values(b: Seq<u8>, x: int) -> Seq<u8> {
    Seq::new(9, |k: int| b[box_cell(x, k)])
}

/// Whether the nine values of a unit are digits from 1 to 9, no two of them equal.
pub open spec fn is_unit_valid(values: Seq<u8>) -> bool {
    &&& values.len() == 9
    &&& forall|k: int| 0 <= k < 9 ==> 1 <= #[trigger] values[k] <= 9
    &&& forall|k: int, m: int| 0 <= k < m < 9 ==> #[trigger] values[k] != #[trigger] values[m]
}

/// Whether every row, every column and every box of `b` is valid.
pub open spec fn all_units_valid(b: Seq<u8>) -> bool {
    &&& b.len() == 81
    &&& forall|u: int| 0 <= u < 9 ==> is_unit_valid(#[trigger] row_values(b, u))
    &&& forall|u: int| 0 <= u < 9 ==> is_unit_valid(#[trigger] col_values(b, u))
    &&& forall|u: int| 0 <= u < 9 ==> is_unit_valid(#[trigger] box_values(b, u))
}

/// Whether the nine values of a unit are at most 9 and no digit occurs twice among them.
pub open spec fn is_unit_consistent(values: Seq<u8>) -> bool {
    &&& values.len() == 9
    &&& forall|k: int| 0 <= k < 9 ==> #[trigger] values[k] <= 9
    &&& forall|k: int, m: int|
        0 <= k < m < 9 && values[k] != 0 ==> #[trigger] values[k] != #[trigger] values[m]
}

/// Whether every row, every column and every box of `b` is consistent.
pub open spec fn all_units_consistent(b: Seq<u8>) -> bool {
    &&& b.len() == 81
    &&& forall|u: int| 0 <= u < 9 ==> is_unit_consistent(#[trigger] row_values(b, u))
    &&& forall|u: int| 0 <= u < 9 ==> is_unit_consistent(#[trigger] col_values(b, u))
    &&& forall|u: int| 0 <= u < 9 ==> is_unit_consistent(#[trigger] box_values(b, u))
}

/// Whether the digits placed on `b` contradict no rule yet: every cell holds 0 to 9 and
/// no two cells of a row, column or box hold the same digit.
pub open spec fn is_consistent(b: Seq<u8>) -> bool {
    &&& b.len() == 81
    &&& forall|i: int| 0 <= i < 81 ==> #[trigger] b[i] <= 9
    &&& forall|i: int, j: int| #[trigger] peers(i, j) && b[i] != 0 ==> b[i] != b[j]
}

/// Whether `b` has no empty cell.
pub open spec fn is_full(b: Seq<u8>) -> bool {
    forall|i: int| 0 <= i < b.len() ==> #[trigger] b[i] != 0
}

/// Whether `s` keeps every digit that is placed on `p`.
pub open spec fn extends(s: Seq<u8>, p: Seq<u8>) -> bool {
    &&& s.len() == p.len()
    &&& forall|i: int| 0 <= i < p.len() && #[trigger] p[i] != 0 ==> s[i] == p[i]
}

/// Whether `s` is a solution of the puzzle `p`.
pub open spec fn is_completion(p: Seq<u8>, s: Seq<u8>) -> bool {
    is_solved(s) && extends(s, p)
}

/// Whether the puzzle `p` has a solution.
pub open spec fn is_solvable(p: Seq<u8>) -> bool {
    exists|s: Seq<u8>| is_completion(p, s)
}

/// Whether digit `d` occurs in none of the row, the column and the box of cell `k`.
pub open spec fn is_placeable(b: Seq<u8>, k: int, d: u8) -> bool {
    forall|j: int| #[trigger] shares_unit(k, j) ==> b[j] != d
}

/// A board is solved exactly when each of its rows, columns and boxes holds nine
/// different digits.
#[verifier::rlimit(50)]
pub proof fn lemma_solved_by_units(b: Seq<u8>)
    ensures
        is_solved(b) <==> all_units_valid(b),
{
    if is_solved(b) {
        assert forall|u: int| 0 <= u < 9 implies is_unit_valid(#[trigger] row_values(b, u)) by {
            lemma_row_of_solved(b, u);
        }
        assert forall|u: int| 0 <= u < 9 implies is_unit_valid(#[trigger] col_values(b, u)) by {
            lemma_col_of_solved(b, u);
        }
        assert forall|u: int| 0 <= u < 9 implies is_unit_valid(#[trigger] box_values(b, u)) by {
            lemma_box_of_solved(b, u);
        }
    }
    if all_units_valid(b) {
        assert forall|i: int| 0 <= i < 81 implies 1 <= #[trigger] b[i] <= 9 by {
            lemma_cell_in_row_values(b, i);
            assert(is_unit_valid(row_values(b, i / 9)));
        }
        assert forall|i: int, j: int| #[trigger] peers(i, j) implies b[i] != b[j] by {
            lemma_peers_differ_by_units(b, i, j);
        }
    }
}

/// A board is consistent exactly when each of its rows, columns and boxes is.
#[verifier::rlimit(50)]
pub proof fn lemma_consistent_by_units(b: Seq<u8>)
    ensures
        is_consistent(b) <==> all_units_consistent(b),
{
    if is_consistent(b) {
        assert forall|u: int| 0 <= u < 9 implies is_unit_consistent(#[trigger] row_values(b, u)) by {
            lemma_row_of_consistent(b, u);
        }
        assert forall|u: int| 0 <= u < 9 implies is_unit_consistent(#[trigger] col_values(b, u)) by {
            lemma_col_of_consistent(b, u);
        }
        assert forall|u: int| 0 <= u < 9 implies is_unit_consistent(#[trigger] box_values(b, u)) by {
            lemma_box_of_consistent(b, u);
        }
    }
    if all_units_consistent(b) {
        assert forall|i: int| 0 <= i < 81 implies #[trigger] b[i] <= 9 by {
            lemma_cell_in_row_values(b, i);
            assert(is_unit_consistent(row_values(b, i / 9)));
        }
        assert forall|i: int, j: int| #[trigger] peers(i, j) && b[i] != 0 implies b[i] != b[j] by {
            lemma_peers_differ_by_consistent_units(b, i, j);
        }
    }
}

/// The row and the column of the cell at `r`, `c`.
pub proof fn lemma_cell_position(r: int, c: int)
    requires
        0 <= r < 9,
        0 <= c < 9,
    ensures
        0 <= r * 9 + c < 81,
        (r * 9 + c) / 9 == r,
        (r * 9 + c) % 9 == c,
{
}

/// Two cells of one row are peers, and so are two cells of one column.
#[verifier::rlimit(50)]
proof fn lemma_peers_in_line(u: int, k: int, m: int)
    requires
        0 <= u < 9,
        0 <= k < 9,
        0 <= m < 9,
        k != m,
    ensures
        peers(u * 9 + k, u * 9 + m),
        peers(k * 9 + u, m * 9 + u),
{
    lemma_cell_position(u, k);
    lemma_cell_position(u, m);
    lemma_cell_position(k, u);
    lemma_cell_position(m, u);
}

#[verifier::rlimit(50)]
proof fn lemma_cell_in_row_values(b: Seq<u8>, i: int)
    requires
        0 <= i < 81,
    ensures
        0 <= i / 9 < 9,
        0 <= i % 9 < 9,
        row_values(b, i / 9)[i % 9] == b[i],
{
}

#[verifier::rlimit(50)]
proof fn lemma_row_of_consistent(b: Seq<u8>, u: int)
    requires
        is_consistent(b),
        0 <= u < 9,
    ensures
        is_unit_consistent(row_values(b, u)),
{
    let v = row_values(b, u);
    assert forall|k: int, m: int| 0 <= k < m < 9 && v[k] != 0 implies #[trigger] v[k]
        != #[trigger] v[m] by {
        lemma_peers_in_line(u, k, m);
    }
}

#[verifier::rlimit(50)]
proof fn lemma_col_of_consistent(b: Seq<u8>, u: int)
    requires
        is_consistent(b),
        0 <= u < 9,
    ensures
        is_unit_consistent(col_values(b, u)),
{
    let v = col_values(b, u);
    assert forall|k: int, m: int| 0 <= k < m < 9 && v[k] != 0 implies #[trigger] v[k]
        != #[trigger] v[m] by {
        lemma_peers_in_line(u, k, m);
    }
}

#[verifier::rlimit(50)]
proof fn lemma_box_of_consistent(b: Seq<u8>, u: int)
    requires
        is_consistent(b),
        0 <= u < 9,
    ensures
        is_unit_consistent(box_values(b, u)),
{
    let v = box_values(b, u);
    assert forall|k: int| 0 <= k < 9 implies #[trigger] v[k] <= 9 by {
        lemma_box_cell(u, k);
    }
    assert forall|k: int, m: int| 0 <= k < m < 9 && v[k] != 0 implies #[trigger] v[k]
        != #[trigger] v[m] by {
        lemma_box_cell(u, k);
        lemma_box_cell(u, m);
        let i = box_cell(u, k);
        let j = box_cell(u, m);
        assert(i != j) by {
            if k / 3 == m / 3 {
                assert(k % 3 != m % 3);
            }
        }
        assert(peers(i, j));
    }
}

#[verifier::rlimit(50)]
proof fn lemma_peers_differ_by_consistent_units(b: Seq<u8>, i: int, j: int)
    requires
        all_units_consistent(b),
        peers(i, j),
        b[i] != 0,
    ensures
        b[i] != b[j],
{
    if b[i] == b[j] {
        if i / 9 == j / 9 {
            let v = row_values(b, i / 9);
            assert(is_unit_consistent(v));
            assert(v[i % 9] == b[i] && v[j % 9] == b[j]);
        } else if i % 9 == j % 9 {
            let v = col_values(b, i % 9);
            assert(is_unit_consistent(v));
            assert(v[i / 9] == b[i] && v[j / 9] == b[j]);
        } else {
            let x = box_of(i / 9, i % 9);
            let v = box_values(b, x);
            assert(is_unit_consistent(v));
            lemma_place_in_box(i);
            lemma_place_in_box(j);
            let ki = place_in_box(i);
            let kj = place_in_box(j);
            assert(v[ki] == b[i] && v[kj] == b[j]);
            assert(ki != kj);
        }
    }
}

#[verifier::rlimit(50)]
proof fn lemma_row_of_solved(b: Seq<u8>, u: int)
    requires
        is_solved(b),
        0 <= u < 9,
    ensures
        is_unit_valid(row_values(b, u)),
{
    let v = row_values(b, u);
    assert forall|k: int, m: int| 0 <= k < m < 9 implies #[trigger] v[k] != #[trigger] v[m] by {
        lemma_peers_in_line(u, k, m);
    }
}

#[verifier::rlimit(50)]
proof fn lemma_col_of_solved(b: Seq<u8>, u: int)
    requires
        is_solved(b),
        0 <= u < 9,
    ensures
        is_unit_valid(col_values(b, u)),
{
    let v = col_values(b, u);
    assert forall|k: int, m: int| 0 <= k < m < 9 implies #[trigger] v[k] != #[trigger] v[m] by {
        lemma_peers_in_line(u, k, m);
    }
}

#[verifier::rlimit(50)]
proof fn lemma_box_of_solved(b: Seq<u8>, u: int)
    requires
        is_solved(b),
        0 <= u < 9,
    ensures
        is_unit_valid(box_values(b, u)),
{
    let v = box_values(b, u);
    assert forall|k: int| 0 <= k < 9 implies 1 <= #[trigger] v[k] <= 9 by {
        lemma_box_cell(u, k);
    }
    assert forall|k: int, m: int| 0 <= k < m < 9 implies #[trigger] v[k] != #[trigger] v[m] by {
        lemma_box_cell(u, k);
        lemma_box_cell(u, m);
        let i = box_cell(u, k);
        let j = box_cell(u, m);
        assert(i != j) by {
            if k / 3 == m / 3 {
                assert(k % 3 != m % 3);
            }
        }
        assert(peers(i, j));
    }
}

#[verifier::rlimit(50)]
proof fn lemma_peers_differ_by_units(b: Seq<u8>, i: int, j: int)
    requires
        all_units_valid(b),
        peers(i, j),
    ensures
        b[i] != b[j],
{
    if i / 9 == j / 9 {
        let v = row_values(b, i / 9);
        assert(is_unit_valid(v));
        assert(v[i % 9] == b[i] && v[j % 9] == b[j]);
    } else if i % 9 == j % 9 {
        let v = col_values(b, i % 9);
        assert(is_unit_valid(v));
        assert(v[i / 9] == b[i] && v[j / 9] == b[j]);
    } else {
        let x = box_of(i / 9, i % 9);
        let v = box_values(b, x);
        assert(is_unit_valid(v));
        lemma_place_in_box(i);
        lemma_place_in_box(j);
        let ki = place_in_box(i);
        let kj = place_in_box(j);
        assert(v[ki] == b[i] && v[kj] == b[j]);
        assert(ki != kj);
    }
}

/// The place of cell `i` within its box, counted from 0 in row-major order.
pub open spec fn place_in_box(i: int) -> int {
    ((i / 9) % 3) * 3 + (i % 9) % 3
}

/// A cell is the cell of its box at its place.
#[verifier::rlimit(50)]
pub proof fn lemma_place_in_box(i: int)
    requires
        0 <= i < 81,
    ensures
        0 <= box_of(i / 9, i % 9) < 9,
        0 <= place_in_box(i) < 9,
        box_cell(box_of(i / 9, i % 9), place_in_box(i)) == i,
{
    let r = i / 9;
    let c = i % 9;
    assert(i == r * 9 + c);
    let x = (r / 3) * 3 + c / 3;
    let k = (r % 3) * 3 + c % 3;
    assert(x / 3 == r / 3);
    assert(x % 3 == c / 3);
    assert(k / 3 == r % 3);
    assert(k % 3 == c % 3);
}

/// The cells of a box lie in that box, each at its own place.
#[verifier::rlimit(50)]
pub proof fn lemma_box_cell(x: int, k: int)
    requires
        0 <= x < 9,
        0 <= k < 9,
    ensures
        in_box(x, box_cell(x, k)),
        box_cell(x, k) / 9 == (x / 3) * 3 + k / 3,
        box_cell(x, k) % 9 == (x % 3) * 3 + k % 3,
{
}

/// Row `r` holds `d` exactly when `d` is among the row's values.
#[verifier::rlimit(50)]
pub proof fn lemma_row_has_by_values(b: Seq<u8>, r: int, d: u8)
    requires
        0 <= r < 9,
    ensures
        row_has(b, r, d) <==> row_values(b, r).contains(d),
{
    let v = row_values(b, r);
    if row_has(b, r, d) {
        let j = choose|j: int| #[trigger] in_row(r, j) && b[j] == d;
        assert(v[j % 9] == d);
    }
    if v.contains(d) {
        let k = choose|k: int| 0 <= k < 9 && v[k] == d;
        assert(in_row(r, r * 9 + k));
    }
}

/// Column `c` holds `d` exactly when `d` is among the column's values.
#[verifier::rlimit(50)]
pub proof fn lemma_col_has_by_values(b: Seq<u8>, c: int, d: u8)
    requires
        0 <= c < 9,
    ensures
        col_has(b, c, d) <==> col_values(b, c).contains(d),
{
    let v = col_values(b, c);
    if col_has(b, c, d) {
        let j = choose|j: int| #[trigger] in_col(c, j) && b[j] == d;
        assert(v[j / 9] == d);
    }
    if v.contains(d) {
        let k = choose|k: int| 0 <= k < 9 && v[k] == d;
        assert(in_col(c, k * 9 + c));
    }
}

/// Box `x` holds `d` exactly when `d` is among the box's values.
#[verifier::rlimit(50)]
pub proof fn lemma_box_has_by_values(b: Seq<u8>, x: int, d: u8)
    requires
        0 <= x < 9,
    ensures
        box_has(b, x, d) <==> box_values(b, x).contains(d),
{
    let v = box_values(b, x);
    if box_has(b, x, d) {
        let j = choose|j: int| #[trigger] in_box(x, j) && b[j] == d;
        lemma_place_in_box(j);
        assert(v[place_in_box(j)] == d);
    }
    if v.contains(d) {
        let k = choose|k: int| 0 <= k < 9 && v[k] == d;
        lemma_box_cell(x, k);
    }
}

/// Nine different digits from 1 to 9 are all of them: a valid unit holds every digit.
pub proof fn lemma_unit_holds_every_digit(values: Seq<u8>, d: u8)
    requires
        is_unit_valid(values),
        1 <= d <= 9,
    ensures
        values.contains(d),
{
    if !values.contains(d) {
        assert(values.no_duplicates());
        values.unique_seq_to_set();
        let digits = set![1u8, 2u8, 3u8, 4u8, 5u8, 6u8, 7u8, 8u8, 9u8];
        let rest = digits.remove(d);
        assert(digits.len() == 9);
        assert(rest.len() == 8);
        assert forall|v: u8| values.to_set().contains(v) implies rest.contains(v) by {
            let k = choose|k: int| 0 <= k < values.len() && values[k] == v;
            assert(1 <= values[k] <= 9);
        }
        vstd::set_lib::lemma_len_subset(values.to_set(), rest);
    }
}

/// Every row of a solved board holds every digit.
pub proof fn lemma_row_holds_every_digit(b: Seq<u8>, r: int, d: u8)
    requires
        is_solved(b),
        0 <= r < 9,
        1 <= d <= 9,
    ensures
        row_has(b, r, d),
{
    lemma_solved_by_units(b);
    assert(is_unit_valid(row_values(b, r)));
    lemma_unit_holds_every_digit(row_values(b, r), d);
    lemma_row_has_by_values(b, r, d);
}

/// Every column of a solved board holds every digit.
pub proof fn lemma_col_holds_every_digit(b: Seq<u8>, c: int, d: u8)
    requires
        is_solved(b),
        0 <= c < 9,
        1 <= d <= 9,
    ensures
        col_has(b, c, d),
{
    lemma_solved_by_units(b);
    assert(is_unit_valid(col_values(b, c)));
    lemma_unit_holds_every_digit(col_values(b, c), d);
    lemma_col_has_by_values(b, c, d);
}

/// Every box of a solved board holds every digit.
pub proof fn lemma_box_holds_every_digit(b: Seq<u8>, x: int, d: u8)
    requires
        is_solved(b),
        0 <= x < 9,
        1 <= d <= 9,
    ensures
        box_has(b, x, d),
{
    lemma_solved_by_units(b);
    assert(is_unit_valid(box_values(b, x)));
    lemma_unit_holds_every_digit(box_values(b, x), d);
    lemma_box_has_by_values(b, x, d);
}

/// A digit is placeable in a cell exactly when the row, the column and the box of the
/// cell lack it.
#[verifier::rlimit(50)]
pub proof fn lemma_placeable_by_units(b: Seq<u8>, k: int, d: u8)
    requires
        0 <= k < 81,
    ensures
        is_placeable(b, k, d) <==> !row_has(b, k / 9, d) && !col_has(b, k % 9, d) && !box_has(
            b,
            box_of(k / 9, k % 9),
            d,
        ),
{
    if is_placeable(b, k, d) {
        assert forall|j: int| #[trigger] in_row(k / 9, j) implies b[j] != d by {
            assert(shares_unit(k, j));
        }
        assert forall|j: int| #[trigger] in_col(k % 9, j) implies b[j] != d by {
            assert(shares_unit(k, j));
        }
        assert forall|j: int| #[trigger] in_box(box_of(k / 9, k % 9), j) implies b[j] != d by {
            assert(shares_unit(k, j));
        }
    } else {
        let j = choose|j: int| #[trigger] shares_unit(k, j) && b[j] == d;
        assert(in_row(k / 9, j) || in_col(k % 9, j) || in_box(box_of(k / 9, k % 9), j));
    }
}

/// The strict lexicographic order on boards read in row-major order.
pub open spec fn lex_less(a: Seq<u8>, b: Seq<u8>) -> bool {
    exists|k: int| #[trigger] differ_first_at(a, b, k) && a[k] < b[k]
}

/// Whether `k` is the first cell in which `a` and `b` differ.
pub open spec fn differ_first_at(a: Seq<u8>, b: Seq<u8>, k: int) -> bool {
    &&& 0 <= k < a.len()
    &&& k < b.len()
    &&& a[k] != b[k]
    &&& forall|i: int| 0 <= i < k ==> a[i] == b[i]
}

/// Whether `s` is the solution of `p` that comes first in lexicographic order.
pub open spec fn is_first_completion(p: Seq<u8>, s: Seq<u8>) -> bool {
    &&& is_completion(p, s)
    &&& forall|t: Seq<u8>| #[trigger] is_completion(p, t) ==> t == s || lex_less(s, t)
}

/// Whether `m` has nine rows of nine entries, each from 0 to 9.
pub open spec fn is_matrix(m: Seq<Vec<i32>>) -> bool {
    &&& m.len() == 9
    &&& forall|r: int| 0 <= r < 9 ==> (#[trigger] m[r])@.len() == 9
    &&& forall|r: int, c: int| 0 <= r < 9 && 0 <= c < 9 ==> 0 <= #[trigger] m[r]@[c] <= 9
}

/// Whether the matrix `m` holds, row by row, the cells of board `b`.
pub open spec fn matrix_holds(m: Seq<Vec<i32>>, b: Seq<u8>) -> bool {
    &&& m.len() == 9
    &&& b.len() == 81
    &&& forall|r: int| 0 <= r < 9 ==> (#[trigger] m[r])@.len() == 9
    &&& forall|r: int, c: int| 0 <= r < 9 && 0 <= c < 9 ==> #[trigger] m[r]@[c] == b[r * 9 + c]
}

/// The board that the matrix `m` holds, row by row.
pub open spec fn board_of(m: Seq<Vec<i32>>) -> Seq<u8> {
    Seq::new(81, |i: int| m[i / 9]@[i % 9] as u8)
}

/// A matrix that holds a board holds no other, and its entries are from 0 to 9 where
/// the board's cells are.
pub proof fn lemma_board_of_matrix(m: Seq<Vec<i32>>, b: Seq<u8>)
    requires
        matrix_holds(m, b),
    ensures
        board_of(m) == b,
        (forall|i: int| 0 <= i < 81 ==> #[trigger] b[i] <= 9) ==> is_matrix(m),
{
    assert forall|i: int| 0 <= i < 81 implies board_of(m)[i] == b[i] by {
        assert(m[i / 9]@[i % 9] == b[(i / 9) * 9 + i % 9]);
    }
    assert(board_of(m) =~= b);
    if forall|i: int| 0 <= i < 81 ==> #[trigger] b[i] <= 9 {
        assert forall|r: int, c: int| 0 <= r < 9 && 0 <= c < 9 implies 0 <= #[trigger] m[r]@[c]
            <= 9 by {
            assert(b[r * 9 + c] <= 9);
        }
    }
}

/// The value at cell `i` of a board that is solved whatever else is: the rows are the
/// digits in order, each row shifted against the one above.
pub open spec fn pattern_cell(i: int) -> u8 {
    (((i / 9) * 3 + (i / 9) / 3 + i % 9) % 9 + 1) as u8
}

/// The board of `pattern_cell`.
pub open spec fn pattern_board() -> Seq<u8> {
    Seq::new(81, |i: int| pattern_cell(i))
}

/// The pattern board is solved, so the empty board has a solution.
pub proof fn lemma_pattern_is_solved()
    ensures
        is_solved(pattern_board()),
        is_completion(Seq::new(81, |i: int| 0u8), pattern_board()),
{
    let b = pattern_board();
    assert forall|u: int| 0 <= u < 9 implies is_unit_valid(#[trigger] row_values(b, u)) by {
        lemma_pattern_row(u);
    }
    assert forall|u: int| 0 <= u < 9 implies is_unit_valid(#[trigger] col_values(b, u)) by {
        lemma_pattern_col(u);
    }
    assert forall|u: int| 0 <= u < 9 implies is_unit_valid(#[trigger] box_values(b, u)) by {
        lemma_pattern_box(u);
    }
    lemma_solved_by_units(b);
}

#[verifier::rlimit(50)]
proof fn lemma_shifted_digits_differ(a: int, k: int, m: int)
    requires
        0 <= a,
        0 <= k < 9,
        0 <= m < 9,
        k != m,
    ensures
        (a + k) % 9 != (a + m) % 9,
        0 <= (a + k) % 9 < 9,
{
}

#[verifier::rlimit(50)]
proof fn lemma_pattern_row(u: int)
    requires
        0 <= u < 9,
    ensures
        is_unit_valid(row_values(pattern_board(), u)),
{
    let v = row_values(pattern_board(), u);
    let a = u * 3 + u / 3;
    assert forall|k: int| 0 <= k < 9 implies #[trigger] v[k] == (a + k) % 9 + 1 by {
        lemma_cell_position(u, k);
    }
    assert forall|k: int, m: int| 0 <= k < m < 9 implies #[trigger] v[k] != #[trigger] v[m] by {
        lemma_shifted_digits_differ(a, k, m);
    }
}

/// The first value of row `k` of the pattern, less one.
spec fn pattern_row_start(k: int) -> int {
    (k * 3 + k / 3) % 9
}

#[verifier::rlimit(50)]
proof fn lemma_pattern_row_starts_differ(k: int, m: int)
    requires
        0 <= k < 9,
        0 <= m < 9,
        k != m,
    ensures
        pattern_row_start(k) != pattern_row_start(m),
        0 <= pattern_row_start(k) < 9,
{
    assert(pattern_row_start(0) == 0 && pattern_row_start(1) == 3 && pattern_row_start(2) == 6);
    assert(pattern_row_start(3) == 1 && pattern_row_start(4) == 4 && pattern_row_start(5) == 7);
    assert(pattern_row_start(6) == 2 && pattern_row_start(7) == 5 && pattern_row_start(8) == 8);
}

proof fn lemma_pattern_row_start(k: int)
    requires
        0 <= k < 9,
    ensures
        k * 3 + k / 3 == 9 * (k / 3) + pattern_row_start(k),
        0 <= pattern_row_start(k) < 9,
{
    assert(pattern_row_start(0) == 0 && pattern_row_start(1) == 3 && pattern_row_start(2) == 6);
    assert(pattern_row_start(3) == 1 && pattern_row_start(4) == 4 && pattern_row_start(5) == 7);
    assert(pattern_row_start(6) == 2 && pattern_row_start(7) == 5 && pattern_row_start(8) == 8);
}

proof fn lemma_whole_nines_drop(q: int, x: int)
    requires
        0 <= q < 3,
        0 <= x,
    ensures
        (9 * q + x) % 9 == x % 9,
{
}

#[verifier::rlimit(50)]
proof fn lemma_pattern_col_value(k: int, u: int)
    requires
        0 <= k < 9,
        0 <= u < 9,
    ensures
        pattern_cell(k * 9 + u) == (pattern_row_start(k) + u) % 9 + 1,
{
    lemma_cell_position(k, u);
    lemma_pattern_row_start(k);
    lemma_whole_nines_drop(k / 3, pattern_row_start(k) + u);
    assert(k * 3 + k / 3 + u == 9 * (k / 3) + (pattern_row_start(k) + u));
}

#[verifier::rlimit(50)]
proof fn lemma_pattern_col(u: int)
    requires
        0 <= u < 9,
    ensures
        is_unit_valid(col_values(pattern_board(), u)),
{
    let v = col_values(pattern_board(), u);
    assert forall|k: int| 0 <= k < 9 implies #[trigger] v[k] == (pattern_row_start(k) + u) % 9
        + 1 by {
        lemma_cell_position(k, u);
        lemma_pattern_col_value(k, u);
    }
    assert forall|k: int, m: int| 0 <= k < m < 9 implies #[trigger] v[k] != #[trigger] v[m] by {
        lemma_pattern_row_starts_differ(k, m);
        lemma_shifted_digits_differ(u, pattern_row_start(k), pattern_row_start(m));
    }
}

#[verifier::rlimit(50)]
proof fn lemma_pattern_box(u: int)
    requires
        0 <= u < 9,
    ensures
        is_unit_valid(box_values(pattern_board(), u)),
{
    let v = box_values(pattern_board(), u);
    let a = u / 3 + 3 * (u % 3);
    assert forall|k: int| 0 <= k < 9 implies #[trigger] v[k] == (a + k) % 9 + 1 by {
        lemma_box_cell(u, k);
        let r = (u / 3) * 3 + k / 3;
        let c = (u % 3) * 3 + k % 3;
        assert(r / 3 == u / 3);
        assert(r * 3 + r / 3 + c == 9 * (u / 3) + (a + k));
    }
    assert forall|k: int, m: int| 0 <= k < m < 9 implies #[trigger] v[k] != #[trigger] v[m] by {
        lemma_shifted_digits_differ(a, k, m);
    }
}

/// The number of empty cells among the first `n` cells of `b`.
pub open spec fn empty_count(b: Seq<u8>, n: int) -> nat
    decreases n,
{
    if n <= 0 {
        0
    } else {
        empty_count(b, n - 1) + if b[n - 1] == 0 { 1nat } else { 0nat }
    }
}

/// Two boards cannot each come before the other.
pub proof fn lemma_lex_less_asymmetric(a: Seq<u8>, b: Seq<u8>)
    requires
        lex_less(a, b),
    ensures
        !lex_less(b, a),
{
    let k = choose|k: int| #[trigger] differ_first_at(a, b, k) && a[k] < b[k];
    if lex_less(b, a) {
        let m = choose|m: int| #[trigger] differ_first_at(b, a, m) && b[m] < a[m];
        if m < k {
            assert(a[m] == b[m]);
        } else if k < m {
            assert(b[k] == a[k]);
        }
    }
}

/// Filling an empty cell takes one from the number of empty cells.
pub proof fn lemma_fill_decreases_empty_count(b: Seq<u8>, k: int, d: u8, n: int)
    requires
        0 <= k < b.len(),
        0 <= n <= b.len(),
        b[k] == 0,
        d != 0,
    ensures
        empty_count(b.update(k, d), n) == empty_count(b, n) - if k < n { 1int } else { 0int },
    decreases n,
{
    if n > 0 {
        lemma_fill_decreases_empty_count(b, k, d, n - 1);
    }
}

/// A board with no empty cell among its first `n` cells counts none there, and the other
/// way round.
pub proof fn lemma_empty_count_zero(b: Seq<u8>, n: int)
    requires
        0 <= n <= b.len(),
    ensures
        empty_count(b, n) == 0 <==> (forall|i: int| 0 <= i < n ==> #[trigger] b[i] != 0),
    decreases n,
{
    if n > 0 {
        lemma_empty_count_zero(b, n - 1);
        if empty_count(b, n) == 0 {
            assert forall|i: int| 0 <= i < n implies #[trigger] b[i] != 0 by {
                if i < n - 1 {
                }
            }
        }
    }
}

/// A digit that stands in a unit of cell `k` can be the value of `k` in no solution.
pub proof fn lemma_blocked_digit_has_no_completion(p: Seq<u8>, k: int, d: u8)
    requires
        p.len() == 81,
        0 <= k < 81,
        p[k] == 0,
        d != 0,
        !is_placeable(p, k, d),
    ensures
        !is_solvable(p.update(k, d)),
{
    let q = p.update(k, d);
    let j = choose|j: int| #[trigger] shares_unit(k, j) && p[j] == d;
    assert(j != k);
    assert forall|s: Seq<u8>| !is_completion(q, s) by {
        if is_completion(q, s) {
            assert(q[j] != 0);
            assert(q[k] != 0);
            assert(s[j] == d);
            assert(s[k] == d);
            assert(peers(k, j));
        }
    }
}

/// Every solution of `p` is a solution of `p` with cell `k` set to the digit that the
/// solution holds there.
pub proof fn lemma_completion_fixes_cell(p: Seq<u8>, s: Seq<u8>, k: int)
    requires
        is_completion(p, s),
        0 <= k < 81,
    ensures
        is_completion(p.update(k, s[k]), s),
        1 <= s[k] <= 9,
{
    let q = p.update(k, s[k]);
    assert forall|i: int| 0 <= i < q.len() && #[trigger] q[i] != 0 implies s[i] == q[i] by {
        if i != k {
            assert(p[i] != 0);
        }
    }
}

/// A solution of `p` with an empty cell filled is a solution of `p`.
pub proof fn lemma_completion_of_filled(p: Seq<u8>, k: int, d: u8, s: Seq<u8>)
    requires
        0 <= k < p.len(),
        p[k] == 0,
        is_completion(p.update(k, d), s),
    ensures
        is_completion(p, s),
{
    let q = p.update(k, d);
    assert forall|i: int| 0 <= i < p.len() && #[trigger] p[i] != 0 implies s[i] == p[i] by {
        assert(q[i] != 0);
    }
}

/// In a solution of `p`, an empty cell of `p` holds a digit that none of its units holds
/// in `p`.
pub proof fn lemma_completion_digit_is_placeable(p: Seq<u8>, s: Seq<u8>, k: int)
    requires
        is_completion(p, s),
        0 <= k < 81,
        p[k] == 0,
    ensures
        is_placeable(p, k, s[k]),
{
    assert forall|j: int| #[trigger] shares_unit(k, j) implies p[j] != s[k] by {
        if p[j] == s[k] {
            assert(p[j] != 0);
            assert(j != k);
            assert(peers(k, j));
        }
    }
}

/// A board on which two cells of one unit hold the same digit has no solution.
pub proof fn lemma_conflict_has_no_completion(p: Seq<u8>, i: int, j: int)
    requires
        p.len() == 81,
        peers(i, j),
        p[i] != 0,
        p[i] == p[j],
    ensures
        !is_solvable(p),
{
    assert forall|s: Seq<u8>| !is_completion(p, s) by {
        if is_completion(p, s) {
            assert(s[i] == p[i]);
            assert(s[j] == p[j]);
        }
    }
}

/// A board with a cell above 9 has no solution.
pub proof fn lemma_out_of_range_has_no_completion(p: Seq<u8>, i: int)
    requires
        p.len() == 81,
        0 <= i < 81,
        p[i] > 9,
    ensures
        !is_solvable(p),
{
    assert forall|s: Seq<u8>| !is_completion(p, s) by {
        if is_completion(p, s) {
            assert(s[i] == p[i]);
        }
    }
}

/// A puzzle with a solution contradicts no rule.
pub proof fn lemma_solvable_is_consistent(p: Seq<u8>)
    requires
        is_solvable(p),
    ensures
        is_consistent(p),
{
    let s = choose|s: Seq<u8>| is_completion(p, s);
    assert forall|i: int| 0 <= i < 81 implies #[trigger] p[i] <= 9 by {
        if p[i] != 0 {
            assert(s[i] == p[i]);
        }
    }
    assert forall|i: int, j: int| #[trigger] peers(i, j) && p[i] != 0 implies p[i] != p[j] by {
        if p[i] == p[j] {
            lemma_conflict_has_no_completion(p, i, j);
        }
    }
}

/// A digit placed in an empty cell whose units lack it leaves the board consistent.
pub proof fn lemma_placement_keeps_consistent(b: Seq<u8>, k: int, d: u8)
    requires
        is_consistent(b),
        0 <= k < 81,
        b[k] == 0,
        1 <= d <= 9,
        is_placeable(b, k, d),
    ensures
        is_consistent(b.update(k, d)),
{
    let q = b.update(k, d);
    assert forall|i: int| 0 <= i < 81 implies #[trigger] q[i] <= 9 by {
        if i != k {
            assert(b[i] <= 9);
        }
    }
    assert forall|i: int, j: int| #[trigger] peers(i, j) && q[i] != 0 implies q[i] != q[j] by {
        if i == k {
            assert(shares_unit(k, j));
        } else if j == k {
            assert(peers(j, i));
            assert(shares_unit(k, i));
        }
    }
}

/// A consistent board with no empty cell is solved.
pub proof fn lemma_full_consistent_is_solved(b: Seq<u8>)
    requires
        is_consistent(b),
        is_full(b),
    ensures
        is_solved(b),
{
    assert forall|i: int| 0 <= i < 81 implies 1 <= #[trigger] b[i] <= 9 by {
        assert(b[i] != 0);
    }
}

/// A board from which a solved board is reached by filling empty cells is consistent.
pub proof fn lemma_part_of_solved_is_consistent(p: Seq<u8>, s: Seq<u8>)
    requires
        is_completion(p, s),
    ensures
        is_consistent(p),
{
    assert(is_solvable(p));
    lemma_solvable_is_consistent(p);
}

/// Emptying a cell of a puzzle keeps its solutions.
pub proof fn lemma_completion_of_emptied(p: Seq<u8>, k: int, s: Seq<u8>)
    requires
        is_completion(p, s),
        0 <= k < p.len(),
    ensures
        is_completion(p.update(k, 0), s),
{
    let q = p.update(k, 0);
    assert forall|i: int| 0 <= i < q.len() && #[trigger] q[i] != 0 implies s[i] == q[i] by {
        assert(p[i] != 0);
    }
}

/// A full board has itself as its only possible solution.
pub proof fn lemma_full_board_completion(p: Seq<u8>, s: Seq<u8>)
    requires
        is_full(p),
        is_completion(p, s),
    ensures
        s == p,
{
    assert(s =~= p);
}

} // verus!
