//! Small sets of ordinals held as the bits of a `u32`.

use vstd::prelude::*;

verus! {

/// Whether bit `i` of `x` is set. Bits from 32 on are never set.
pub open spec fn bit(x: u32, i: int) -> bool {
    0 <= i < 32 && (x >> (i as u32)) & 1 == 1
}

/// Number of set bits of `x` below position `n`.
pub open spec fn count_below(x: u32, n: int) -> nat
    decreases n,
{
    if n <= 0 {
        0
    } else {
        count_below(x, n - 1) + if bit(x, n - 1) { 1nat } else { 0nat }
    }
}

/// The word with exactly the bits below `n` set.
pub open spec fn low_mask(n: int) -> u32
    recommends
        0 <= n <= 32,
{
    if n >= 32 { 0xffff_ffffu32 } else { (((1u32 << (n as u32)) - 1) as u32) }
}

pub proof fn lemma_bit_zero(i: int)
    ensures
        !bit(0, i),
{
    if 0 <= i < 32 {
        let k = i as u32;
        assert((0u32 >> k) & 1 == 0) by (bit_vector);
    }
}

pub proof fn lemma_bit_set(x: u32, i: u32, j: int)
    requires
        i < 32,
    ensures
        bit(x | (1u32 << i), j) == (bit(x, j) || j == i),
{
    if 0 <= j < 32 {
        let k = j as u32;
        assert(((x | (1u32 << i)) >> k) & 1 == 1 <==> ((x >> k) & 1 == 1 || k == i))
            by (bit_vector)
            requires i < 32, k < 32;
    }
}

pub proof fn lemma_bit_clear(x: u32, i: u32, j: int)
    requires
        i < 32,
    ensures
        bit(x & !(1u32 << i), j) == (bit(x, j) && j != i),
{
    if 0 <= j < 32 {
        let k = j as u32;
        assert(((x & !(1u32 << i)) >> k) & 1 == 1 <==> ((x >> k) & 1 == 1 && k != i))
            by (bit_vector)
            requires i < 32, k < 32;
    }
}

pub proof fn lemma_bit_test(x: u32, i: u32)
    requires
        i < 32,
    ensures
        (x & (1u32 << i) != 0) == bit(x, i as int),
{
    assert((x & (1u32 << i) != 0) <==> ((x >> i) & 1 == 1)) by (bit_vector)
        requires i < 32;
}

pub proof fn lemma_bit_and_not(x: u32, y: u32, j: int)
    ensures
        bit(x & !y, j) == (bit(x, j) && !bit(y, j)),
{
    if 0 <= j < 32 {
        let k = j as u32;
        assert(((x & !y) >> k) & 1 == 1 <==> ((x >> k) & 1 == 1 && !((y >> k) & 1 == 1)))
            by (bit_vector)
            requires k < 32;
    }
}

pub proof fn lemma_bit_low_mask(n: u32, j: int)
    requires
        n <= 32,
    ensures
        bit(low_mask(n as int), j) == (0 <= j < n),
{
    if 0 <= j < 32 {
        let k = j as u32;
        if n == 32 {
            assert((0xffff_ffffu32 >> k) & 1 == 1) by (bit_vector)
                requires k < 32;
        } else {
            assert(((((1u32 << n) - 1) as u32) >> k) & 1 == 1 <==> k < n) by (bit_vector)
                requires n < 32, k < 32;
        }
    }
}

pub proof fn lemma_bit_and(x: u32, y: u32, j: int)
    ensures
        bit(x & y, j) == (bit(x, j) && bit(y, j)),
{
    if 0 <= j < 32 {
        let k = j as u32;
        assert(((x & y) >> k) & 1 == 1 <==> ((x >> k) & 1 == 1 && (y >> k) & 1 == 1))
            by (bit_vector)
            requires k < 32;
    }
}

/// The count grows with the position, by at most one per position.
pub proof fn lemma_count_monotone(x: u32, m: int, n: int)
    requires
        0 <= m <= n,
    ensures
        count_below(x, m) <= count_below(x, n) <= count_below(x, m) + (n - m),
    decreases n - m,
{
    if m < n {
        lemma_count_monotone(x, m, n - 1);
    }
}

/// A set bit below `n` is counted strictly after its own position.
pub proof fn lemma_count_strict(x: u32, i: int, n: int)
    requires
        bit(x, i),
        i < n,
    ensures
        count_below(x, i) < count_below(x, n),
{
    assert(count_below(x, i + 1) == count_below(x, i) + 1);
    lemma_count_monotone(x, i + 1, n);
}

/// Masking to the low `n` bits keeps the count of the bits below `n`.
pub proof fn lemma_count_masked(x: u32, n: u32, m: int)
    requires
        n <= 32,
    ensures
        count_below(x & low_mask(n as int), m) == count_below(x, if m < n { m } else { n as int }),
    decreases m,
{
    if m > 0 {
        lemma_count_masked(x, n, m - 1);
        lemma_bit_and(x, low_mask(n as int), m - 1);
        lemma_bit_low_mask(n, m - 1);
    }
}

} // verus!
