//! Sets of letters, one bit per letter, with the rank of a letter in a set.

use vstd::prelude::*;
use crate::bits::{
    bit, count_below, low_mask, lemma_bit_zero, lemma_bit_set, lemma_bit_test,
    lemma_count_masked, lemma_count_monotone, lemma_count_strict,
};
use crate::letter::Letter;

verus! {

/// `u32::count_ones`: the number of bits that are set in `x`.
#[verifier::external_body]
fn count_ones(x: u32) -> (n: u32)
    ensures
        n == count_below(x, 32),
{
    x.count_ones()
}

/// A set of letters.
#[derive(Debug, Clone, Copy, PartialEq, Eq, Hash)]
pub struct LetterSet {
    bits: u32,
}

impl View for LetterSet {
    type V = Set<Letter>;

    closed spec fn view(&self) -> Set<Letter> {
        Set::new(|l: Letter| bit(self.bits, l.ord()))
    }
}

impl LetterSet {
    /// Number of letters of the set that come before `letter` in the alphabet.
    pub closed spec fn rank(&self, letter: Letter) -> nat {
        count_below(self.bits, letter.ord())
    }

    /// Number of letters in the set.
    pub closed spec fn count(&self) -> nat {
        count_below(self.bits, 26)
    }

    /// The rank of a letter of the set is below the number of its letters.
    pub proof fn lemma_rank_below_count(&self, letter: Letter)
        requires
            self@.contains(letter),
        ensures
            self.rank(letter) < self.count() <= 26,
    {
        Letter::lemma_ord_at();
        lemma_count_strict(self.bits, letter.ord(), 26);
        lemma_count_monotone(self.bits, 0, 26);
    }

    /// Ranks follow the alphabet: of two letters, the later one has no smaller
    /// rank, and a greater one where the earlier letter is in the set.
    pub proof fn lemma_rank_ordered(&self, a: Letter, b: Letter)
        requires
            a.ord() < b.ord(),
        ensures
            self.rank(a) <= self.rank(b),
            self@.contains(a) ==> self.rank(a) < self.rank(b),
    {
        Letter::lemma_ord_at();
        lemma_count_monotone(self.bits, a.ord(), b.ord());
        if self@.contains(a) {
            lemma_count_strict(self.bits, a.ord(), b.ord());
        }
    }

    /// The ranks count the letters of the set in the order of the alphabet:
    /// `A` has rank 0, and the rank after a letter is one more where that
    /// letter is in the set, and the same where it is not.
    pub proof fn lemma_rank_step(&self, i: int)
        requires
            0 <= i < 26,
        ensures
            self.rank(Letter::A) == 0,
            i < 25 ==> self.rank(Letter::at(i + 1)) == self.rank(Letter::at(i)) + (if self@.contains(
                Letter::at(i),
            ) { 1nat } else { 0nat }),
            i == 25 ==> self.count() == self.rank(Letter::at(i)) + (if self@.contains(
                Letter::at(i),
            ) { 1nat } else { 0nat }),
    {
        Letter::lemma_ord_at();
        assert(count_below(self.bits, 0) == 0);
        assert(count_below(self.bits, i + 1) == count_below(self.bits, i) + (if bit(self.bits, i) { 1nat } else { 0nat }));
    }

    /// The set without letters.
    pub fn empty() -> (set: LetterSet)
        ensures
            set@ == Set::<Letter>::empty(),
            set.count() == 0,
    {
        let set = LetterSet { bits: 0 };
        proof {
            assert forall|l: Letter| !set@.contains(l) by {
                lemma_bit_zero(l.ord());
            }
            assert(set@ =~= Set::<Letter>::empty());
            lemma_count_zero(26);
        }
        set
    }

    /// Whether `letter` is in the set.
    pub fn contains(&self, letter: Letter) -> (r: bool)
        ensures
            r == self@.contains(letter),
    {
        let i: u8 = letter.ordinal();
        proof {
            lemma_bit_test(self.bits, i as u32);
        }
        self.bits & (1u32 << (i as u32)) != 0
    }

    /// Adds `letter` to the set.
    pub fn insert(&mut self, letter: Letter)
        ensures
            final(self)@ == old(self)@.insert(letter),
    {
        let i: u8 = letter.ordinal();
        self.bits = self.bits | (1u32 << (i as u32));
        proof {
            assert forall|l: Letter| final(self)@.contains(l) == old(self)@.insert(letter).contains(l) by {
                Letter::lemma_ord_at();
                lemma_bit_set(old(self).bits, i as u32, l.ord());
            }
            assert(final(self)@ =~= old(self)@.insert(letter));
        }
    }

    /// Number of letters in the set.
    pub fn len(&self) -> (n: usize)
        ensures
            n == self.count(),
            n <= 26,
    {
        proof {
            lemma_count_masked(self.bits, 26, 32);
            lemma_count_monotone(self.bits, 0, 26);
            assert(low_mask(26) == 0x3ff_ffffu32) by (bit_vector);
        }
        count_ones(self.bits & 0x3ff_ffff) as usize
    }

    /// Number of letters of the set that come before `letter` in the alphabet.
    pub fn rank_of(&self, letter: Letter) -> (n: usize)
        ensures
            n == self.rank(letter),
            n <= 25,
    {
        let i: u8 = letter.ordinal();
        let shift: u32 = i as u32;
        assert((1u32 << shift) >= 1) by (bit_vector)
            requires
                shift < 26,
        ;
        let before_mask: u32 = (1u32 << shift) - 1;
        proof {
            lemma_count_masked(self.bits, shift, 32);
            lemma_count_monotone(self.bits, 0, i as int);
        }
        count_ones(self.bits & before_mask) as usize
    }
}

/// The empty word has no bit set, so every count over it is 0.
proof fn lemma_count_zero(n: int)
    ensures
        count_below(0, n) == 0,
    decreases n,
{
    if n > 0 {
        lemma_count_zero(n - 1);
        lemma_bit_zero(n - 1);
    }
}

} // verus!
