//! Sets of digits kept as bit masks: bit `n - 1` of a mask stands for digit `n`.

use vstd::prelude::*;

verus! {

/// The mask that holds all nine digits.
pub const ALL_DIGITS: u16 = 0x1FF;

/// Whether bit `k` of `mask` is set.
pub open spec fn bit_is_set(mask: u16, k: u16) -> bool {
    (mask >> k) & 1 == 1
}

/// Whether `mask` holds digit `n`.
pub open spec fn mask_has(mask: u16, n: u8) -> bool {
    1 <= n <= 9 && bit_is_set(mask, (n - 1) as u16)
}

/// The digits that `mask` holds.
pub open spec fn mask_digits(mask: u16) -> Set<u8> {
    Set::new(|n: u8| mask_has(mask, n))
}

/// The digits up to `limit` that `mask` holds.
pub open spec fn mask_digits_upto(mask: u16, limit: int) -> Set<u8> {
    Set::new(|n: u8| n <= limit && mask_has(mask, n))
}

/// The digits 1 to 9.
pub open spec fn all_digits() -> Set<u8> {
    Set::new(|n: u8| 1 <= n <= 9)
}

/// The mask with the bit of digit `n` alone.
pub fn digit_bit(n: u8) -> (bit: u16)
    requires
        1 <= n <= 9,
    ensures
        bit == 1u16 << ((n - 1) as u16),
        mask_digits(bit) == set![n],
{
    let shift: u16 = (n - 1) as u16;
    let bit: u16 = 1u16 << shift;
    proof {
        assert forall|m: u8| mask_has(bit, m) <==> m == n by {
            if 1 <= m <= 9 {
                lemma_single_bit(shift, (m - 1) as u16);
            }
        }
        assert(mask_digits(bit) =~= set![n]);
    }
    bit
}

proof fn lemma_single_bit(k: u16, j: u16)
    requires
        k < 9,
        j < 9,
    ensures
        bit_is_set(1u16 << k, j) <==> j == k,
{
    assert(k < 9 && j < 9 ==> ((((1u16 << k) >> j) & 1 == 1) <==> j == k)) by (bit_vector);
}

proof fn lemma_bit_or(a: u16, b: u16, j: u16)
    requires
        j < 16,
    ensures
        bit_is_set(a | b, j) <==> bit_is_set(a, j) || bit_is_set(b, j),
{
    assert(j < 16 ==> ((((a | b) >> j) & 1 == 1) <==> (((a >> j) & 1 == 1) || ((b >> j) & 1 == 1))))
        by (bit_vector);
}

proof fn lemma_bit_and(a: u16, b: u16, j: u16)
    requires
        j < 16,
    ensures
        bit_is_set(a & b, j) <==> bit_is_set(a, j) && bit_is_set(b, j),
{
    assert(j < 16 ==> ((((a & b) >> j) & 1 == 1) <==> (((a >> j) & 1 == 1) && ((b >> j) & 1 == 1))))
        by (bit_vector);
}

proof fn lemma_bit_and_not(a: u16, b: u16, j: u16)
    requires
        j < 16,
    ensures
        bit_is_set(a & !b, j) <==> bit_is_set(a, j) && !bit_is_set(b, j),
{
    assert(j < 16 ==> ((((a & !b) >> j) & 1 == 1) <==> (((a >> j) & 1 == 1) && !((b >> j) & 1
        == 1)))) by (bit_vector);
}

proof fn lemma_bit_of_all(j: u16)
    requires
        j < 9,
    ensures
        bit_is_set(0x1FF, j),
        !bit_is_set(0, j),
{
    assert(j < 9 ==> (0x1FFu16 >> j) & 1 == 1) by (bit_vector);
    assert((0u16 >> j) & 1 == 0) by (bit_vector);
}

proof fn lemma_low_bits_clear(a: u16)
    ensures
        a & 0x1FF == 0 <==> (forall|j: u16| j < 9 ==> !bit_is_set(a, j)),
{
    assert(a & 0x1FF == 0 <==> ((a >> 0) & 1 != 1 && (a >> 1) & 1 != 1 && (a >> 2) & 1 != 1 && (a
        >> 3) & 1 != 1 && (a >> 4) & 1 != 1 && (a >> 5) & 1 != 1 && (a >> 6) & 1 != 1 && (a >> 7)
        & 1 != 1 && (a >> 8) & 1 != 1)) by (bit_vector);
    if a & 0x1FF == 0 {
        assert forall|j: u16| j < 9 implies !bit_is_set(a, j) by {
            assert(j == 0 || j == 1 || j == 2 || j == 3 || j == 4 || j == 5 || j == 6 || j == 7 || j
                == 8);
        }
    } else {
        assert(bit_is_set(a, 0) || bit_is_set(a, 1) || bit_is_set(a, 2) || bit_is_set(a, 3)
            || bit_is_set(a, 4) || bit_is_set(a, 5) || bit_is_set(a, 6) || bit_is_set(a, 7)
            || bit_is_set(a, 8));
    }
}

/// The union of two masks holds the digits of both.
pub proof fn lemma_mask_union(a: u16, b: u16)
    ensures
        mask_digits(a | b) == mask_digits(a).union(mask_digits(b)),
{
    assert forall|n: u8| mask_has(a | b, n) <==> mask_has(a, n) || mask_has(b, n) by {
        if 1 <= n <= 9 {
            lemma_bit_or(a, b, (n - 1) as u16);
        }
    }
    assert(mask_digits(a | b) =~= mask_digits(a).union(mask_digits(b)));
}

/// The intersection of two masks holds the digits common to both.
pub proof fn lemma_mask_intersection(a: u16, b: u16)
    ensures
        mask_digits(a & b) == mask_digits(a).intersect(mask_digits(b)),
{
    assert forall|n: u8| mask_has(a & b, n) <==> mask_has(a, n) && mask_has(b, n) by {
        if 1 <= n <= 9 {
            lemma_bit_and(a, b, (n - 1) as u16);
        }
    }
    assert(mask_digits(a & b) =~= mask_digits(a).intersect(mask_digits(b)));
}

/// Clearing the bits of `b` in `a` leaves the digits of `a` that `b` lacks.
pub proof fn lemma_mask_difference(a: u16, b: u16)
    ensures
        mask_digits(a & !b) == mask_digits(a).difference(mask_digits(b)),
{
    assert forall|n: u8| mask_has(a & !b, n) <==> mask_has(a, n) && !mask_has(b, n) by {
        if 1 <= n <= 9 {
            lemma_bit_and_not(a, b, (n - 1) as u16);
        }
    }
    assert(mask_digits(a & !b) =~= mask_digits(a).difference(mask_digits(b)));
}

/// The full mask holds the nine digits and the zero mask none.
pub proof fn lemma_mask_all_and_none()
    ensures
        mask_digits(ALL_DIGITS) == all_digits(),
        mask_digits(0) == Set::<u8>::empty(),
{
    assert forall|n: u8| 1 <= n <= 9 implies mask_has(ALL_DIGITS, n) && !mask_has(0, n) by {
        lemma_bit_of_all((n - 1) as u16);
    }
    assert(mask_digits(ALL_DIGITS) =~= all_digits());
    assert(mask_digits(0) =~= Set::<u8>::empty());
}

/// A mask holds no digit exactly when its nine low bits are clear.
pub proof fn lemma_mask_empty(a: u16)
    ensures
        a & ALL_DIGITS == 0 <==> mask_digits(a) == Set::<u8>::empty(),
{
    lemma_low_bits_clear(a);
    if a & ALL_DIGITS == 0 {
        assert forall|n: u8| !mask_has(a, n) by {
            if 1 <= n <= 9 {
                assert(!bit_is_set(a, (n - 1) as u16));
            }
        }
        assert(mask_digits(a) =~= Set::<u8>::empty());
    } else {
        let j = choose|j: u16| j < 9 && bit_is_set(a, j);
        let n = (j + 1) as u8;
        assert(mask_has(a, n));
        assert(mask_digits(a).contains(n));
    }
}

/// The digits of a mask are finitely many, nine at most.
pub proof fn lemma_mask_digits_finite(mask: u16, limit: int)
    requires
        0 <= limit <= 9,
    ensures
        mask_digits_upto(mask, limit).finite(),
        mask_digits_upto(mask, limit).len() <= limit,
        limit == 9 ==> mask_digits_upto(mask, limit) == mask_digits(mask),
    decreases limit,
{
    if limit == 0 {
        assert(mask_digits_upto(mask, limit) =~= Set::<u8>::empty());
    } else {
        lemma_mask_digits_finite(mask, limit - 1);
        let below = mask_digits_upto(mask, limit - 1);
        let n = limit as u8;
        if mask_has(mask, n) {
            assert(mask_digits_upto(mask, limit) =~= below.insert(n));
        } else {
            assert(mask_digits_upto(mask, limit) =~= below);
        }
    }
    if limit == 9 {
        assert(mask_digits_upto(mask, limit) =~= mask_digits(mask));
    }
}

/// Counts the digits that `mask` holds.
pub fn count_digits(mask: u16) -> (count: u32)
    ensures
        count == mask_digits(mask).len(),
        count <= 9,
{
    let mut count: u32 = 0;
    let mut n: u8 = 1;
    proof {
        lemma_mask_digits_finite(mask, 0);
    }
    while n <= 9
        invariant
            1 <= n <= 10,
            count == mask_digits_upto(mask, n - 1).len(),
            count <= n - 1,
            mask_digits_upto(mask, n - 1).finite(),
        decreases 10 - n,
    {
        let shift: u16 = (n - 1) as u16;
        proof {
            let below = mask_digits_upto(mask, n - 1);
            if mask_has(mask, n) {
                assert(mask_digits_upto(mask, n as int) =~= below.insert(n));
            } else {
                assert(mask_digits_upto(mask, n as int) =~= below);
            }
        }
        if (mask >> shift) & 1 == 1 {
            count = count + 1;
        }
        n = n + 1;
    }
    proof {
        lemma_mask_digits_finite(mask, 9);
    }
    count
}

/// The digits that may still stand in a cell.
#[derive(Debug, Clone, Copy)]
pub struct CandidateSet(pub(crate) u16);

impl View for CandidateSet {
    type V = Set<u8>;

    open(crate) spec fn view(&self) -> Set<u8> {
        mask_digits(self.0)
    }
}

impl Default for CandidateSet {
    fn default() -> (set: CandidateSet)
        ensures
            set@ == Set::<u8>::empty(),
    {
        CandidateSet::empty()
    }
}

impl CandidateSet {
    /// The set of all nine digits.
    pub fn all() -> (set: CandidateSet)
        ensures
            set@ == all_digits(),
    {
        proof {
            lemma_mask_all_and_none();
        }
        CandidateSet(ALL_DIGITS)
    }

    /// The set of no digit.
    pub fn empty() -> (set: CandidateSet)
        ensures
            set@ == Set::<u8>::empty(),
    {
        proof {
            lemma_mask_all_and_none();
        }
        CandidateSet(0)
    }

    /// Puts digit `n` into the set.
    pub fn add_candidate(&mut self, n: u8)
        requires
            1 <= n <= 9,
        ensures
            final(self)@ == old(self)@.insert(n),
    {
        let bit = digit_bit(n);
        proof {
            lemma_mask_union(self.0, bit);
            assert(old(self)@.union(set![n]) =~= old(self)@.insert(n));
        }
        self.0 = self.0 | bit;
    }

    /// Takes digit `n` out of the set.
    pub fn remove_candidate(&mut self, n: u8)
        requires
            1 <= n <= 9,
        ensures
            final(self)@ == old(self)@.remove(n),
    {
        let bit = digit_bit(n);
        proof {
            lemma_mask_difference(self.0, bit);
            assert(old(self)@.difference(set![n]) =~= old(self)@.remove(n));
        }
        self.0 = self.0 & !bit;
    }

    /// Whether digit `n` is in the set.
    pub fn has_candidate(&self, n: u8) -> (has: bool)
        requires
            1 <= n <= 9,
        ensures
            has == self@.contains(n),
    {
        let shift: u16 = (n - 1) as u16;
        (self.0 >> shift) & 1 == 1
    }

    /// The number of digits in the set.
    pub fn count_candidates(&self) -> (count: u32)
        ensures
            count == self@.len(),
            count <= 9,
    {
        count_digits(self.0)
    }

    /// Whether the set holds no digit.
    pub fn is_empty(&self) -> (empty: bool)
        ensures
            empty == (self@ == Set::<u8>::empty()),
    {
        proof {
            lemma_mask_empty(self.0);
        }
        self.0 & ALL_DIGITS == 0
    }

    /// The digits of the set in ascending order.
    pub fn iter_candidates(&self) -> (digits: Vec<u8>)
        ensures
            forall|i: int, j: int| 0 <= i < j < digits@.len() ==> digits@[i] < digits@[j],
            forall|n: u8| self@.contains(n) <==> digits@.contains(n),
            digits@.len() == self@.len(),
    {
        let mut digits: Vec<u8> = Vec::new();
        let mut n: u8 = 1;
        while n <= 9
            invariant
                1 <= n <= 10,
                forall|i: int, j: int| 0 <= i < j < digits@.len() ==> digits@[i] < digits@[j],
                forall|i: int| 0 <= i < digits@.len() ==> digits@[i] < n,
                forall|m: u8| m < n && self@.contains(m) <==> digits@.contains(m),
            decreases 10 - n,
        {
            if self.has_candidate(n) {
                let ghost before = digits@;
                digits.push(n);
                assert forall|m: u8| m < n + 1 && self@.contains(m) <==> digits@.contains(m) by {
                    if m < n && self@.contains(m) {
                        let i = choose|i: int| 0 <= i < before.len() && before[i] == m;
                        assert(digits@[i] == m);
                    }
                    if m == n {
                        assert(digits@[before.len() as int] == n);
                    }
                    if digits@.contains(m) {
                        let i = choose|i: int| 0 <= i < digits@.len() && digits@[i] == m;
                        if i < before.len() {
                            assert(before[i] == m);
                            assert(before.contains(m));
                        }
                    }
                }
            }
            n = n + 1;
        }
        proof {
            assert(digits@.no_duplicates());
            digits@.unique_seq_to_set();
            assert(digits@.to_set() =~= self@);
        }
        digits
    }

    /// A set of digits is finite, and it is empty exactly when it counts no digit.
    pub proof fn lemma_count(self)
        ensures
            self@.finite(),
            self@.len() <= 9,
            self@.len() == 0 <==> self@ == Set::<u8>::empty(),
    {
        lemma_mask_digits_finite(self.0, 9);
        if self@.len() == 0 {
            self@.lemma_len0_is_empty();
        }
    }

    /// The number of digits that this set and `other` have in common.
    pub fn count_common(&self, other: &CandidateSet) -> (count: u32)
        ensures
            count == self@.intersect(other@).len(),
            count <= 9,
    {
        proof {
            lemma_mask_intersection(self.0, other.0);
        }
        count_digits(self.0 & other.0)
    }
}

} // verus!
