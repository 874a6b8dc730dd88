//! The word-parallel code paths: digit sets, rows and unit masks kept in machine words,
//! and the validator that uses them beside its plain fallback.

use crate::board::{gather_box, gather_col, gather_row, Board};
use crate::candidates::{
    all_digits, digit_bit, lemma_mask_all_and_none, lemma_mask_difference, lemma_mask_empty,
    lemma_mask_intersection, lemma_mask_union, mask_digits, CandidateSet, ALL_DIGITS,
};
use crate::rules::{
    box_has, box_of, box_values, col_has, col_values, in_box, in_col, in_row, is_consistent,
    is_placeable, is_solved, is_unit_consistent, is_unit_valid, lemma_consistent_by_units,
    lemma_placeable_by_units, lemma_solved_by_units, row_has, row_values,
};
use vstd::prelude::*;

verus! {

/// Whether the word-parallel code paths can be used. They are written with integer
/// operations that every target has, so they always can.
pub fn has_simd_support() -> (supported: bool)
    ensures
        supported,
{
    true
}

/// A set of digits kept in one machine word, for operations on several digits at once.
/// A mask of digits has bit `n - 1` set for digit `n`.
#[derive(Debug, Clone, Copy)]
pub struct SimdCandidateSet {
    candidates: u16,
}

impl View for SimdCandidateSet {
    type V = Set<u8>;

    closed spec fn view(&self) -> Set<u8> {
        mask_digits(self.candidates)
    }
}

impl SimdCandidateSet {
    /// The set of all nine digits.
    pub fn new() -> (set: SimdCandidateSet)
        ensures
            set@ == all_digits(),
    {
        proof {
            lemma_mask_all_and_none();
        }
        SimdCandidateSet { candidates: ALL_DIGITS }
    }

    /// Takes out of the set every digit of the mask `values`.
    pub fn remove_candidates(&mut self, values: u16)
        ensures
            final(self)@ == old(self)@.difference(mask_digits(values)),
    {
        proof {
            lemma_mask_difference(self.candidates, values);
        }
        self.candidates = self.candidates & !values;
    }

    /// Whether the set holds some digit of the mask `values`.
    pub fn has_candidates(&self, values: u16) -> (has: bool)
        ensures
            has == (self@.intersect(mask_digits(values)) != Set::<u8>::empty()),
    {
        proof {
            lemma_mask_intersection(self.candidates, values);
            lemma_mask_empty(self.candidates & values);
        }
        (self.candidates & values) & ALL_DIGITS != 0
    }

    /// The same digits as `set`.
    pub fn from_candidate_set(set: CandidateSet) -> (simd: SimdCandidateSet)
        ensures
            simd@ == set@,
    {
        SimdCandidateSet { candidates: set.0 }
    }

    /// The same digits as a `CandidateSet`.
    pub fn to_candidate_set(&self) -> (set: CandidateSet)
        ensures
            set@ == self@,
    {
        CandidateSet(self.candidates)
    }
}

/// Adds digit `value` to the mask `seen` of the digits met so far in a unit, unless it
/// is no digit or was met before.
fn mark_in_mask(seen: u16, value: u8) -> (marked: Option<u16>)
    ensures
        match marked {
            Some(next) => 1 <= value <= 9 && !mask_digits(seen).contains(value) && mask_digits(
                next,
            ) == mask_digits(seen).insert(value),
            None => value == 0 || value > 9 || mask_digits(seen).contains(value),
        },
{
    if value == 0 || value > 9 {
        return None;
    }
    let bit = digit_bit(value);
    proof {
        lemma_bit_test(seen, bit, value);
        lemma_mask_insert(seen, bit, value);
    }
    if seen & bit != 0 {
        None
    } else {
        Some(seen | bit)
    }
}

/// Whether nine values are digits from 1 to 9, no two of them equal; the digits met are
/// kept in a bit mask.
fn unit_is_valid_masked(values: &[u8; 9]) -> (valid: bool)
    ensures
        valid == is_unit_valid(values@),
{
    let mut seen: u16 = 0;
    proof {
        lemma_mask_all_and_none();
    }
    for k in 0..9usize
        invariant
            forall|x: int| 0 <= x < k ==> 1 <= #[trigger] values@[x] <= 9,
            forall|x: int, y: int| 0 <= x < y < k ==> #[trigger] values@[x] != #[trigger] values@[y],
            forall|d: u8|
                mask_digits(seen).contains(d) <==> exists|x: int| 0 <= x < k && values@[x] == d,
    {
        let value = values[k];
        match mark_in_mask(seen, value) {
            Some(next) => {
                assert forall|d: u8|
                    mask_digits(next).contains(d) <==> exists|x: int|
                        0 <= x < k + 1 && values@[x] == d by {
                    if mask_digits(seen).contains(d) {
                        let x = choose|x: int| 0 <= x < k && values@[x] == d;
                        assert(0 <= x < k + 1 && values@[x] == d);
                    }
                    if d == value {
                        assert(0 <= k < k + 1 && values@[k as int] == d);
                    }
                }
                seen = next;
            },
            None => {
                proof {
                    if 1 <= value <= 9 {
                        let x = choose|x: int| 0 <= x < k && values@[x] == value;
                        assert(values@[x] == values@[k as int]);
                    }
                }
                return false;
            },
        }
    }
    true
}

/// Whether nine values are at most 9 and no digit occurs twice among them; the digits met
/// are kept in a bit mask.
fn unit_is_consistent_masked(values: &[u8; 9]) -> (consistent: bool)
    ensures
        consistent == is_unit_consistent(values@),
{
    let mut seen: u16 = 0;
    proof {
        lemma_mask_all_and_none();
    }
    for k in 0..9usize
        invariant
            forall|x: int| 0 <= x < k ==> #[trigger] values@[x] <= 9,
            forall|x: int, y: int|
                0 <= x < y < k && values@[x] != 0 ==> #[trigger] values@[x] != #[trigger] values@[y],
            forall|d: u8|
                mask_digits(seen).contains(d) <==> d != 0 && exists|x: int|
                    0 <= x < k && values@[x] == d,
    {
        let value = values[k];
        if value != 0 {
            match mark_in_mask(seen, value) {
                Some(next) => {
                    assert forall|d: u8|
                        mask_digits(next).contains(d) <==> d != 0 && exists|x: int|
                            0 <= x < k + 1 && values@[x] == d by {
                        if mask_digits(seen).contains(d) {
                            let x = choose|x: int| 0 <= x < k && values@[x] == d;
                            assert(0 <= x < k + 1 && values@[x] == d);
                        }
                        if d == value {
                            assert(0 <= k < k + 1 && values@[k as int] == d);
                        }
                    }
                    seen = next;
                },
                None => {
                    proof {
                        if value <= 9 {
                            let x = choose|x: int| 0 <= x < k && values@[x] == value;
                            assert(values@[x] == values@[k as int]);
                        }
                    }
                    return false;
                },
            }
        } else {
            assert forall|d: u8|
                mask_digits(seen).contains(d) <==> d != 0 && exists|x: int|
                    0 <= x < k + 1 && values@[x] == d by {
                if mask_digits(seen).contains(d) {
                    let x = choose|x: int| 0 <= x < k && values@[x] == d;
                    assert(0 <= x < k + 1 && values@[x] == d);
                }
            }
        }
    }
    true
}

/// Whether nine values are digits from 1 to 9, no two of them equal; the digits met are
/// kept in an array of flags.
fn unit_is_valid_scalar(values: &[u8; 9]) -> (valid: bool)
    ensures
        valid == is_unit_valid(values@),
{
    let mut seen = [false; 10];
    for k in 0..9usize
        invariant
            forall|x: int| 0 <= x < k ==> 1 <= #[trigger] values@[x] <= 9,
            forall|x: int, y: int| 0 <= x < y < k ==> #[trigger] values@[x] != #[trigger] values@[y],
            forall|d: int|
                0 <= d < 10 ==> (#[trigger] seen@[d] <==> exists|x: int|
                    0 <= x < k && values@[x] == d),
    {
        let value = values[k];
        if value == 0 || value > 9 || seen[value as usize] {
            proof {
                if 1 <= value <= 9 {
                    let x = choose|x: int| 0 <= x < k && values@[x] == value;
                    assert(values@[x] == values@[k as int]);
                }
            }
            return false;
        }
        let ghost before = seen@;
        seen[value as usize] = true;
        assert forall|d: int| 0 <= d < 10 implies (#[trigger] seen@[d] <==> exists|x: int|
            0 <= x < k + 1 && values@[x] == d) by {
            if before[d] {
                let x = choose|x: int| 0 <= x < k && values@[x] == d;
                assert(0 <= x < k + 1 && values@[x] == d);
            }
            if d == value {
                assert(0 <= k < k + 1 && values@[k as int] == d);
            }
        }
    }
    true
}

/// Lane `k` of a word of eight lanes of sixteen bits.
pub open spec fn lane_of(word: u128, k: int) -> u16 {
    ((word >> ((16 * k) as u128)) & 0xFFFF) as u16
}

/// A board laid out for whole-row work: the first eight cells of each row are packed
/// into one word of eight lanes, the ninth is kept beside it.
#[derive(Debug, Clone, Copy)]
pub struct SimdBoard {
    rows: [u128; 9],
    last_elements: [u16; 9],
}

impl View for SimdBoard {
    type V = Seq<u8>;

    closed spec fn view(&self) -> Seq<u8> {
        Seq::new(81, |i: int| self.value_at(i / 9, i % 9) as u8)
    }
}

impl SimdBoard {
    /// The value kept for the cell at `row`, `col`.
    pub closed spec fn value_at(&self, row: int, col: int) -> u16 {
        if col < 8 {
            lane_of(self.rows@[row], col)
        } else {
            self.last_elements@[row]
        }
    }

    #[verifier::type_invariant]
    spec fn holds_bytes(self) -> bool {
        forall|row: int, col: int|
            0 <= row < 9 && 0 <= col < 9 ==> #[trigger] self.value_at(row, col) <= 255
    }

    /// The layout of `board`.
    #[verifier::rlimit(50)]
    pub fn from_board(board: &Board) -> (simd: SimdBoard)
        ensures
            simd@ == board@,
    {
        let mut rows = [0u128; 9];
        let mut last_elements = [0u16; 9];
        for row in 0..9usize
            invariant
                forall|r: int, c: int|
                    0 <= r < row && 0 <= c < 8 ==> #[trigger] lane_of(rows@[r], c) == board@[r * 9
                        + c],
                forall|r: int| 0 <= r < row ==> #[trigger] last_elements@[r] == board@[r * 9 + 8],
        {
            let mut word: u128 = 0;
            assert(0u128 >> 0u128 == 0) by (bit_vector);
            for col in 0..8usize
                invariant
                    row < 9,
                    forall|c: int|
                        0 <= c < col ==> #[trigger] lane_of(word, c) == board@[row * 9 + c],
                    col < 8 ==> word >> ((16 * col) as u128) == 0,
            {
                let value = board.get(row, col) as u128;
                let shift = (16 * col) as u128;
                let ghost before = word;
                word = word | (value << shift);
                proof {
                    lemma_pack_top(before, value, shift);
                    assert forall|c: int| 0 <= c < col implies #[trigger] lane_of(word, c)
                        == board@[row * 9 + c] by {
                        lemma_pack_below(before, value, shift, (16 * c) as u128);
                        assert(lane_of(before, c) == board@[row * 9 + c]);
                    }
                }
            }
            rows[row] = word;
            last_elements[row] = board.get(row, 8) as u16;
        }
        let simd = SimdBoard { rows, last_elements };
        assert(simd@ =~= board@);
        simd
    }

    /// The value kept for the cell at `row`, `col`.
    fn cell(&self, row: usize, col: usize) -> (value: u8)
        requires
            row < 9,
            col < 9,
        ensures
            value == self@[row * 9 + col],
    {
        proof {
            use_type_invariant(self);
            assert(self.value_at(row as int, col as int) <= 255);
            assert((row * 9 + col) / 9 == row && (row * 9 + col) % 9 == col);
        }
        if col < 8 {
            let word = self.rows[row];
            let shift = (16 * col) as u128;
            assert((word >> shift) & 0xFFFF <= 0xFFFF) by (bit_vector);
            let lane = ((word >> shift) & 0xFFFF) as u16;
            lane as u8
        } else {
            self.last_elements[row] as u8
        }
    }

    /// Whether row `row` holds nine different digits.
    pub fn is_valid_row(&self, row: usize) -> (valid: bool)
        requires
            row < 9,
        ensures
            valid == is_unit_valid(row_values(self@, row as int)),
    {
        let mut values = [0u8; 9];
        for k in 0..9usize
            invariant
                row < 9,
                forall|x: int| 0 <= x < k ==> values@[x] == row_values(self@, row as int)[x],
        {
            values[k] = self.cell(row, k);
        }
        assert(values@ =~= row_values(self@, row as int));
        unit_is_valid_masked(&values)
    }

    /// Whether each of the `count` rows from `start_row` on holds nine different digits.
    pub fn validate_multiple_rows(&self, start_row: usize, count: usize) -> (valid: bool)
        requires
            start_row + count <= 9,
        ensures
            valid == (forall|r: int|
                start_row <= r < start_row + count ==> is_unit_valid(
                    #[trigger] row_values(self@, r),
                )),
    {
        for row in start_row..start_row + count
            invariant
                start_row + count <= 9,
                forall|r: int|
                    start_row <= r < row ==> is_unit_valid(#[trigger] row_values(self@, r)),
        {
            if !self.is_valid_row(row) {
                return false;
            }
        }
        true
    }
}

proof fn lemma_pack_top(word: u128, value: u128, shift: u128)
    requires
        value < 256,
        shift % 16 == 0,
        shift <= 112,
        word >> shift == 0,
    ensures
        ((word | (value << shift)) >> shift) & 0xFFFF == value,
        shift < 112 ==> (word | (value << shift)) >> ((shift + 16) as u128) == 0,
{
    assert(value < 256 && shift <= 112 && word >> shift == 0 ==> ((word | (value << shift))
        >> shift) & 0xFFFF == value) by (bit_vector);
    assert(value < 256 && shift < 112 && word >> shift == 0 ==> (word | (value << shift)) >> (
    shift + 16) as u128 == 0) by (bit_vector);
}

proof fn lemma_pack_below(word: u128, value: u128, shift: u128, below: u128)
    requires
        shift <= 112,
        below + 16 <= shift,
    ensures
        ((word | (value << shift)) >> below) & 0xFFFF == (word >> below) & 0xFFFF,
{
    assert(shift <= 112 && below + 16 <= shift ==> ((word | (value << shift)) >> below) & 0xFFFF
        == (word >> below) & 0xFFFF) by (bit_vector);
}

/// The validator: decides whether a board is completely and correctly filled.
pub struct SimdValidator;

impl SimdValidator {
    /// Whether `board` is solved. The word-parallel path is taken where it can be used,
    /// the fallback elsewhere; both give the same answer on every board.
    pub fn validate_solution(board: &Board) -> (valid: bool)
        ensures
            valid == is_solved(board@),
    {
        if has_simd_support() {
            Self::validate_solution_simd(board)
        } else {
            Self::validate_solution_fallback(board)
        }
    }

    /// Whether the digits placed on `board` contradict no rule: no cell holds more than
    /// 9 and no digit stands twice in a row, a column or a box. Empty cells are passed
    /// over.
    pub fn validate_placed(board: &Board) -> (consistent: bool)
        ensures
            consistent == is_consistent(board@),
    {
        for row in 0..9usize
            invariant
                forall|u: int| 0 <= u < row ==> is_unit_consistent(#[trigger] row_values(board@, u)),
        {
            let values = gather_row(board, row);
            if !unit_is_consistent_masked(&values) {
                proof {
                    lemma_consistent_by_units(board@);
                }
                return false;
            }
        }
        for col in 0..9usize
            invariant
                forall|u: int| 0 <= u < 9 ==> is_unit_consistent(#[trigger] row_values(board@, u)),
                forall|u: int| 0 <= u < col ==> is_unit_consistent(#[trigger] col_values(board@, u)),
        {
            let values = gather_col(board, col);
            if !unit_is_consistent_masked(&values) {
                proof {
                    lemma_consistent_by_units(board@);
                }
                return false;
            }
        }
        for index in 0..9usize
            invariant
                forall|u: int| 0 <= u < 9 ==> is_unit_consistent(#[trigger] row_values(board@, u)),
                forall|u: int| 0 <= u < 9 ==> is_unit_consistent(#[trigger] col_values(board@, u)),
                forall|u: int|
                    0 <= u < index ==> is_unit_consistent(#[trigger] box_values(board@, u)),
        {
            let values = gather_box(board, index);
            if !unit_is_consistent_masked(&values) {
                proof {
                    lemma_consistent_by_units(board@);
                }
                return false;
            }
        }
        proof {
            lemma_consistent_by_units(board@);
        }
        true
    }

    /// Whether `board` is solved, by the word-parallel path: rows are tested on the
    /// packed layout, and every unit keeps the digits it has met in a bit mask. An empty
    /// cell and a value above 9 make the board invalid.
    pub fn validate_solution_simd(board: &Board) -> (valid: bool)
        ensures
            valid == is_solved(board@),
    {
        let simd_board = SimdBoard::from_board(board);
        for row in 0..9usize
            invariant
                simd_board@ == board@,
                forall|u: int| 0 <= u < row ==> is_unit_valid(#[trigger] row_values(board@, u)),
        {
            if !simd_board.is_valid_row(row) {
                proof {
                    lemma_solved_by_units(board@);
                }
                return false;
            }
        }
        for col in 0..9usize
            invariant
                forall|u: int| 0 <= u < 9 ==> is_unit_valid(#[trigger] row_values(board@, u)),
                forall|u: int| 0 <= u < col ==> is_unit_valid(#[trigger] col_values(board@, u)),
        {
            let values = gather_col(board, col);
            if !unit_is_valid_masked(&values) {
                proof {
                    lemma_solved_by_units(board@);
                }
                return false;
            }
        }
        for index in 0..9usize
            invariant
                forall|u: int| 0 <= u < 9 ==> is_unit_valid(#[trigger] row_values(board@, u)),
                forall|u: int| 0 <= u < 9 ==> is_unit_valid(#[trigger] col_values(board@, u)),
                forall|u: int| 0 <= u < index ==> is_unit_valid(#[trigger] box_values(board@, u)),
        {
            let values = gather_box(board, index);
            if !unit_is_valid_masked(&values) {
                proof {
                    lemma_solved_by_units(board@);
                }
                return false;
            }
        }
        proof {
            lemma_solved_by_units(board@);
        }
        true
    }

    /// Whether `board` is solved, by the plain path: each row, column and box is swept
    /// with an array of flags for the digits met. An empty cell and a value above 9 make
    /// the board invalid.
    pub fn validate_solution_fallback(board: &Board) -> (valid: bool)
        ensures
            valid == is_solved(board@),
    {
        for row in 0..9usize
            invariant
                forall|u: int| 0 <= u < row ==> is_unit_valid(#[trigger] row_values(board@, u)),
        {
            let values = gather_row(board, row);
            if !unit_is_valid_scalar(&values) {
                proof {
                    lemma_solved_by_units(board@);
                }
                return false;
            }
        }
        for col in 0..9usize
            invariant
                forall|u: int| 0 <= u < 9 ==> is_unit_valid(#[trigger] row_values(board@, u)),
                forall|u: int| 0 <= u < col ==> is_unit_valid(#[trigger] col_values(board@, u)),
        {
            let values = gather_col(board, col);
            if !unit_is_valid_scalar(&values) {
                proof {
                    lemma_solved_by_units(board@);
                }
                return false;
            }
        }
        for index in 0..9usize
            invariant
                forall|u: int| 0 <= u < 9 ==> is_unit_valid(#[trigger] row_values(board@, u)),
                forall|u: int| 0 <= u < 9 ==> is_unit_valid(#[trigger] col_values(board@, u)),
                forall|u: int| 0 <= u < index ==> is_unit_valid(#[trigger] box_values(board@, u)),
        {
            let values = gather_box(board, index);
            if !unit_is_valid_scalar(&values) {
                proof {
                    lemma_solved_by_units(board@);
                }
                return false;
            }
        }
        proof {
            lemma_solved_by_units(board@);
        }
        true
    }
}

/// The mask engine: for each row, column and box the set of digits placed in it, kept
/// as one bit mask per unit.
#[derive(Debug, Clone, Copy)]
pub struct SimdSolver {
    row_masks: [u16; 9],
    col_masks: [u16; 9],
    box_masks: [u16; 9],
}

impl SimdSolver {
    /// The digits recorded for row `r`.
    pub closed spec fn row_digits(&self, r: int) -> Set<u8> {
        mask_digits(self.row_masks@[r])
    }

    /// The digits recorded for column `c`.
    pub closed spec fn col_digits(&self, c: int) -> Set<u8> {
        mask_digits(self.col_masks@[c])
    }

    /// The digits recorded for box `x`.
    pub closed spec fn box_digits(&self, x: int) -> Set<u8> {
        mask_digits(self.box_masks@[x])
    }

    /// Whether the engine is `before` with digit `value` added to the row, the column
    /// and the box of the cell at `row`, `col`, and nothing else changed.
    pub open spec fn is_update_of(&self, before: SimdSolver, row: int, col: int, value: u8) -> bool {
        &&& forall|r: int|
            0 <= r < 9 ==> #[trigger] self.row_digits(r) == if r == row {
                before.row_digits(r).insert(value)
            } else {
                before.row_digits(r)
            }
        &&& forall|c: int|
            0 <= c < 9 ==> #[trigger] self.col_digits(c) == if c == col {
                before.col_digits(c).insert(value)
            } else {
                before.col_digits(c)
            }
        &&& forall|x: int|
            0 <= x < 9 ==> #[trigger] self.box_digits(x) == if x == box_of(row, col) {
                before.box_digits(x).insert(value)
            } else {
                before.box_digits(x)
            }
    }

    /// Whether the engine records, for every unit, the digits from 1 to 9 that the first
    /// `n` cells of `b` hold in that unit.
    pub open spec fn records_prefix(&self, b: Seq<u8>, n: int) -> bool {
        &&& forall|r: int, d: u8|
            0 <= r < 9 ==> (#[trigger] self.row_digits(r).contains(d) <==> 1 <= d <= 9 && exists|
                j: int,
            |
                j < n && #[trigger] in_row(r, j) && b[j] == d)
        &&& forall|c: int, d: u8|
            0 <= c < 9 ==> (#[trigger] self.col_digits(c).contains(d) <==> 1 <= d <= 9 && exists|
                j: int,
            |
                j < n && #[trigger] in_col(c, j) && b[j] == d)
        &&& forall|x: int, d: u8|
            0 <= x < 9 ==> (#[trigger] self.box_digits(x).contains(d) <==> 1 <= d <= 9 && exists|
                j: int,
            |
                j < n && #[trigger] in_box(x, j) && b[j] == d)
    }

    /// Whether the engine records, for every unit, the digits from 1 to 9 that `b` holds
    /// in that unit.
    pub open spec fn records(&self, b: Seq<u8>) -> bool {
        &&& forall|r: int, d: u8|
            0 <= r < 9 ==> (#[trigger] self.row_digits(r).contains(d) <==> 1 <= d <= 9 && row_has(
                b,
                r,
                d,
            ))
        &&& forall|c: int, d: u8|
            0 <= c < 9 ==> (#[trigger] self.col_digits(c).contains(d) <==> 1 <= d <= 9 && col_has(
                b,
                c,
                d,
            ))
        &&& forall|x: int, d: u8|
            0 <= x < 9 ==> (#[trigger] self.box_digits(x).contains(d) <==> 1 <= d <= 9 && box_has(
                b,
                x,
                d,
            ))
    }

    /// The engine for the digits that stand on `board`.
    pub fn new(board: &Board) -> (engine: SimdSolver)
        ensures
            engine.records(board@),
    {
        let mut engine = SimdSolver { row_masks: [0u16; 9], col_masks: [0u16; 9], box_masks: [0u16; 9] };
        proof {
            lemma_mask_all_and_none();
            assert(engine.records_prefix(board@, 0));
        }
        for row in 0..9usize
            invariant
                engine.records_prefix(board@, row * 9),
        {
            for col in 0..9usize
                invariant
                    row < 9,
                    engine.records_prefix(board@, row * 9 + col),
            {
                let value = board.get(row, col);
                let ghost before = engine;
                let ghost k = row * 9 + col;
                if 1 <= value && value <= 9 {
                    engine.update_masks(row, col, value);
                }
                proof {
                    let b = board@;
                    let x = box_of(row as int, col as int);
                    assert(in_row(row as int, k) && in_col(col as int, k) && in_box(x, k));
                    assert forall|r: int, d: u8| 0 <= r < 9 implies (
                    #[trigger] engine.row_digits(r).contains(d) <==> 1 <= d <= 9 && exists|j: int|
                        j < k + 1 && #[trigger] in_row(r, j) && b[j] == d) by {
                        if before.row_digits(r).contains(d) {
                            let j = choose|j: int| j < k && #[trigger] in_row(r, j) && b[j] == d;
                            assert(j < k + 1 && in_row(r, j) && b[j] == d);
                        }
                        if 1 <= d <= 9 && exists|j: int|
                            j < k + 1 && #[trigger] in_row(r, j) && b[j] == d {
                            let j = choose|j: int| j < k + 1 && #[trigger] in_row(r, j) && b[j] == d;
                            if j < k {
                                assert(before.row_digits(r).contains(d));
                            }
                        }
                    }
                    assert forall|c: int, d: u8| 0 <= c < 9 implies (
                    #[trigger] engine.col_digits(c).contains(d) <==> 1 <= d <= 9 && exists|j: int|
                        j < k + 1 && #[trigger] in_col(c, j) && b[j] == d) by {
                        if before.col_digits(c).contains(d) {
                            let j = choose|j: int| j < k && #[trigger] in_col(c, j) && b[j] == d;
                            assert(j < k + 1 && in_col(c, j) && b[j] == d);
                        }
                        if 1 <= d <= 9 && exists|j: int|
                            j < k + 1 && #[trigger] in_col(c, j) && b[j] == d {
                            let j = choose|j: int| j < k + 1 && #[trigger] in_col(c, j) && b[j] == d;
                            if j < k {
                                assert(before.col_digits(c).contains(d));
                            }
                        }
                    }
                    assert forall|y: int, d: u8| 0 <= y < 9 implies (
                    #[trigger] engine.box_digits(y).contains(d) <==> 1 <= d <= 9 && exists|j: int|
                        j < k + 1 && #[trigger] in_box(y, j) && b[j] == d) by {
                        if before.box_digits(y).contains(d) {
                            let j = choose|j: int| j < k && #[trigger] in_box(y, j) && b[j] == d;
                            assert(j < k + 1 && in_box(y, j) && b[j] == d);
                        }
                        if 1 <= d <= 9 && exists|j: int|
                            j < k + 1 && #[trigger] in_box(y, j) && b[j] == d {
                            let j = choose|j: int| j < k + 1 && #[trigger] in_box(y, j) && b[j] == d;
                            if j < k {
                                assert(before.box_digits(y).contains(d));
                            }
                        }
                    }
                }
            }
        }
        proof {
            engine.lemma_records_whole(board@);
        }
        engine
    }

    /// Whether `value` may be placed at `row`, `col`: it is a digit that the engine has
    /// recorded for none of the row, the column and the box of the cell.
    pub fn is_valid_candidate(&self, row: usize, col: usize, value: u8) -> (valid: bool)
        requires
            row < 9,
            col < 9,
        ensures
            valid == (1 <= value <= 9 && !self.row_digits(row as int).contains(value)
                && !self.col_digits(col as int).contains(value) && !self.box_digits(
                box_of(row as int, col as int),
            ).contains(value)),
    {
        if value == 0 || value > 9 {
            return false;
        }
        let bit = digit_bit(value);
        let box_index = Board::get_box_index(row, col);
        proof {
            lemma_bit_test(self.row_masks[row as int], bit, value);
            lemma_bit_test(self.col_masks[col as int], bit, value);
            lemma_bit_test(self.box_masks[box_index as int], bit, value);
        }
        if self.row_masks[row] & bit != 0 {
            return false;
        }
        if self.col_masks[col] & bit != 0 {
            return false;
        }
        if self.box_masks[box_index] & bit != 0 {
            return false;
        }
        true
    }

    /// Records digit `value` for the row, the column and the box of the cell at `row`,
    /// `col`. Nothing else changes, and nothing is tested.
    pub fn update_masks(&mut self, row: usize, col: usize, value: u8)
        requires
            row < 9,
            col < 9,
            1 <= value <= 9,
        ensures
            final(self).is_update_of(*old(self), row as int, col as int, value),
    {
        let bit = digit_bit(value);
        let box_index = Board::get_box_index(row, col);
        proof {
            lemma_mask_insert(self.row_masks[row as int], bit, value);
            lemma_mask_insert(self.col_masks[col as int], bit, value);
            lemma_mask_insert(self.box_masks[box_index as int], bit, value);
        }
        self.row_masks[row] = self.row_masks[row] | bit;
        self.col_masks[col] = self.col_masks[col] | bit;
        self.box_masks[box_index] = self.box_masks[box_index] | bit;
    }

    /// An engine that records `b` tells of a digit whether it may be placed in a cell.
    pub proof fn lemma_candidate_is_placeable(self, b: Seq<u8>, row: int, col: int, value: u8)
        requires
            self.records(b),
            0 <= row < 9,
            0 <= col < 9,
        ensures
            (1 <= value <= 9 && !self.row_digits(row).contains(value) && !self.col_digits(
                col,
            ).contains(value) && !self.box_digits(box_of(row, col)).contains(value)) <==> (1
                <= value <= 9 && is_placeable(b, row * 9 + col, value)),
    {
        lemma_placeable_by_units(b, row * 9 + col, value);
    }

    /// After a digit is placed in an empty cell and recorded for the cell's units, the
    /// engine records the new board.
    #[verifier::rlimit(50)]
    pub proof fn lemma_records_placement(
        self,
        before: SimdSolver,
        b: Seq<u8>,
        row: int,
        col: int,
        value: u8,
    )
        requires
            before.records(b),
            0 <= row < 9,
            0 <= col < 9,
            1 <= value <= 9,
            b.len() == 81,
            b[row * 9 + col] == 0,
            self.is_update_of(before, row, col, value),
        ensures
            self.records(b.update(row * 9 + col, value)),
    {
        let k = row * 9 + col;
        let x = box_of(row, col);
        let after = b.update(k, value);
        assert(in_row(row, k) && in_col(col, k) && in_box(x, k));
        assert forall|r: int, d: u8| 0 <= r < 9 implies (#[trigger] self.row_digits(r).contains(d)
            <==> 1 <= d <= 9 && row_has(after, r, d)) by {
            if before.row_digits(r).contains(d) {
                let j = choose|j: int| #[trigger] in_row(r, j) && b[j] == d;
                assert(in_row(r, j) && after[j] == d);
            }
            if 1 <= d <= 9 && row_has(after, r, d) {
                let j = choose|j: int| #[trigger] in_row(r, j) && after[j] == d;
                if j != k {
                    assert(in_row(r, j) && b[j] == d);
                }
            }
        }
        assert forall|c: int, d: u8| 0 <= c < 9 implies (#[trigger] self.col_digits(c).contains(d)
            <==> 1 <= d <= 9 && col_has(after, c, d)) by {
            if before.col_digits(c).contains(d) {
                let j = choose|j: int| #[trigger] in_col(c, j) && b[j] == d;
                assert(in_col(c, j) && after[j] == d);
            }
            if 1 <= d <= 9 && col_has(after, c, d) {
                let j = choose|j: int| #[trigger] in_col(c, j) && after[j] == d;
                if j != k {
                    assert(in_col(c, j) && b[j] == d);
                }
            }
        }
        assert forall|y: int, d: u8| 0 <= y < 9 implies (#[trigger] self.box_digits(y).contains(d)
            <==> 1 <= d <= 9 && box_has(after, y, d)) by {
            if before.box_digits(y).contains(d) {
                let j = choose|j: int| #[trigger] in_box(y, j) && b[j] == d;
                assert(in_box(y, j) && after[j] == d);
            }
            if 1 <= d <= 9 && box_has(after, y, d) {
                let j = choose|j: int| #[trigger] in_box(y, j) && after[j] == d;
                if j != k {
                    assert(in_box(y, j) && b[j] == d);
                }
            }
        }
    }

    /// An engine that records the whole of a board's cells records the board.
    proof fn lemma_records_whole(self, b: Seq<u8>)
        requires
            self.records_prefix(b, 81),
        ensures
            self.records(b),
    {
        assert forall|r: int, d: u8| 0 <= r < 9 implies (#[trigger] self.row_digits(r).contains(d)
            <==> 1 <= d <= 9 && row_has(b, r, d)) by {
            if self.row_digits(r).contains(d) {
                let j = choose|j: int| j < 81 && #[trigger] in_row(r, j) && b[j] == d;
                assert(in_row(r, j) && b[j] == d);
            }
            if 1 <= d <= 9 && row_has(b, r, d) {
                let j = choose|j: int| #[trigger] in_row(r, j) && b[j] == d;
                assert(j < 81 && in_row(r, j) && b[j] == d);
            }
        }
        assert forall|c: int, d: u8| 0 <= c < 9 implies (#[trigger] self.col_digits(c).contains(d)
            <==> 1 <= d <= 9 && col_has(b, c, d)) by {
            if self.col_digits(c).contains(d) {
                let j = choose|j: int| j < 81 && #[trigger] in_col(c, j) && b[j] == d;
                assert(in_col(c, j) && b[j] == d);
            }
            if 1 <= d <= 9 && col_has(b, c, d) {
                let j = choose|j: int| #[trigger] in_col(c, j) && b[j] == d;
                assert(j < 81 && in_col(c, j) && b[j] == d);
            }
        }
        assert forall|x: int, d: u8| 0 <= x < 9 implies (#[trigger] self.box_digits(x).contains(d)
            <==> 1 <= d <= 9 && box_has(b, x, d)) by {
            if self.box_digits(x).contains(d) {
                let j = choose|j: int| j < 81 && #[trigger] in_box(x, j) && b[j] == d;
                assert(in_box(x, j) && b[j] == d);
            }
            if 1 <= d <= 9 && box_has(b, x, d) {
                let j = choose|j: int| #[trigger] in_box(x, j) && b[j] == d;
                assert(j < 81 && in_box(x, j) && b[j] == d);
            }
        }
    }
}

proof fn lemma_bit_test(mask: u16, bit: u16, value: u8)
    requires
        1 <= value <= 9,
        bit == 1u16 << ((value - 1) as u16),
    ensures
        mask & bit != 0 <==> mask_digits(mask).contains(value),
{
    let shift = (value - 1) as u16;
    assert(shift < 9 ==> ((mask & (1u16 << shift) != 0) <==> ((mask >> shift) & 1 == 1)))
        by (bit_vector);
}

proof fn lemma_mask_insert(mask: u16, bit: u16, value: u8)
    requires
        mask_digits(bit) == set![value],
    ensures
        mask_digits(mask | bit) == mask_digits(mask).insert(value),
{
    lemma_mask_union(mask, bit);
    assert(mask_digits(mask).union(set![value]) =~= mask_digits(mask).insert(value));
}

} // verus!
