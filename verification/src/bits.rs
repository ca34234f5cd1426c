//! Bit-level groundwork for the board encoding: a population-count
//! model and lemmas about single bits, shifts and masks.

use vstd::arithmetic::power2::{lemma2_to64, lemma2_to64_rest, lemma_pow2_unfold, pow2};
use vstd::prelude::*;

verus! {

/// Number of set bits in the binary representation of a nonnegative
/// integer (zero for arguments at or below zero, which never arise here).
pub open spec fn popcnt(m: int) -> nat
    decreases m,
{
    if m <= 0 {
        0
    } else {
        ((m % 2) + popcnt(m / 2)) as nat
    }
}

/// Truncating halving, as the hardware divides: toward zero.
pub open spec fn half_toward_zero(x: int) -> int {
    if x >= 0 {
        x / 2
    } else {
        -((-x) / 2)
    }
}

/// Bit `i` of `x` is set.
pub open spec fn nth(x: u64, i: int) -> bool {
    0 <= i < 64 && (x >> (i as u64)) & 1u64 == 1u64
}

/// Bit `i` of `x` is set, with the index as a word.
pub open spec fn nthu(x: u64, i: u64) -> bool {
    i < 64 && (x >> i) & 1u64 == 1u64
}

/// How `|`, `&`, `^` and a single-bit mask act on one bit position.
pub proof fn lemma_bit_ops(x: u64, y: u64, i: u64)
    by (bit_vector)
    requires
        i < 64,
    ensures
        (((x | y) >> i) & 1u64 == 1) == ((x >> i) & 1u64 == 1 || (y >> i) & 1u64 == 1),
        (((x & y) >> i) & 1u64 == 1) == ((x >> i) & 1u64 == 1 && (y >> i) & 1u64 == 1),
        (((x ^ y) >> i) & 1u64 == 1) == (((x >> i) & 1u64 == 1) != ((y >> i) & 1u64 == 1)),
        (x & (1u64 << i) == 0) == ((x >> i) & 1u64 == 0),
        ((1u64 << i) & x == 0) == ((x >> i) & 1u64 == 0),
        ((x >> i) & 1u64 == 0) == !((x >> i) & 1u64 == 1),
        (x >> i) & 1u64 == 1 && (y >> i) & 1u64 == 1 ==> x & y != 0,
{
}

/// Which single bit a shifted one tests.
pub proof fn lemma_one_bit(x: u64, k: u64, i: u64)
    by (bit_vector)
    requires
        i < 64,
        k < 64,
    ensures
        (((1u64 << k) >> i) & 1u64 == 1) == (i == k),
        (((x | (1u64 << k)) >> i) & 1u64 == 1) == ((x >> i) & 1u64 == 1 || i == k),
{
}

/// A nonzero word has a set bit.
pub proof fn lemma_bit_witness(z: u64)
    requires
        z != 0,
    ensures
        exists|i: int| 0 <= i < 64 && #[trigger] nth(z, i),
    decreases z,
{
    if z % 2 == 1 {
        assert((z >> 0u64) & 1u64 == 1) by (bit_vector)
            requires
                z % 2 == 1,
        ;
        assert(nth(z, 0));
    } else {
        assert(z >> 1u64 != 0 && z >> 1u64 < z) by (bit_vector)
            requires
                z != 0 && z % 2 == 0,
        ;
        lemma_bit_witness(z >> 1u64);
        let i = choose|i: int| 0 <= i < 64 && #[trigger] nth(z >> 1u64, i);
        if i == 63 {
            assert(((z >> 1u64) >> 63u64) & 1u64 == 0) by (bit_vector);
        } else {
            lemma_shift_bits(z, 1, i as u64);
            assert(nth(z, i + 1));
        }
    }
}

/// How the two shifts move single bits around.
pub proof fn lemma_shift_bits(x: u64, k: u64, i: u64)
    by (bit_vector)
    requires
        k < 64,
        i < 64,
    ensures
        i >= k ==> ((((x << k) >> i) & 1u64 == 1) == ((x >> ((i - k) as u64)) & 1u64 == 1)),
        i < k ==> ((x << k) >> i) & 1u64 == 0,
        i + k < 64 ==> ((((x >> k) >> i) & 1u64 == 1) == ((x >> ((i + k) as u64)) & 1u64 == 1)),
        i + k >= 64 ==> ((x >> k) >> i) & 1u64 == 0,
{
}

/// A number below two to the `k` has at most `k` set bits.
pub proof fn lemma_popcnt_bound(m: int, k: nat)
    requires
        m < pow2(k),
    ensures
        popcnt(m) <= k,
    decreases k,
{
    if m > 0 {
        if k == 0 {
            assert(pow2(0) == 1) by {
                lemma2_to64();
            }
        } else {
            assert(pow2(k) == 2 * pow2((k - 1) as nat)) by {
                lemma_pow2_unfold(k);
            }
            lemma_popcnt_bound(m / 2, (k - 1) as nat);
        }
    }
}

/// Any sixty-four bit word has at most sixty-four set bits.
pub proof fn lemma_popcnt_u64(m: u64)
    ensures
        popcnt(m as int) <= 64,
{
    assert(pow2(64) == 0x10000000000000000) by {
        lemma2_to64_rest();
    }
    lemma_popcnt_bound(m as int, 64);
}

/// Counting distributes over a union of disjoint bit sets.
pub proof fn lemma_popcnt_or_disjoint(a: u64, b: u64)
    requires
        a & b == 0,
    ensures
        popcnt((a | b) as int) == popcnt(a as int) + popcnt(b as int),
    decreases a | b,
{
    if a != 0 || b != 0 {
        assert((a | b) != 0 && (a | b) % 2 == a % 2 + b % 2 && (a | b) / 2 == ((a >> 1u64) | (b
            >> 1u64)) && (a >> 1u64) & (b >> 1u64) == 0 && (a >> 1u64) == a / 2 && (b >> 1u64) == b
            / 2 && ((a >> 1u64) | (b >> 1u64)) < (a | b)) by (bit_vector)
            requires
                a & b == 0 && (a != 0 || b != 0),
        ;
        lemma_popcnt_or_disjoint(a >> 1u64, b >> 1u64);
    } else {
        assert((0u64 | 0u64) == 0) by (bit_vector);
    }
}

/// A nonzero word without its lowest bit set twice is a single bit.
pub proof fn lemma_popcnt_single(mv: u64)
    requires
        mv != 0,
        mv & ((mv - 1) as u64) == 0,
    ensures
        popcnt(mv as int) == 1,
    decreases mv,
{
    if mv % 2 == 1 {
        assert(mv == 1) by (bit_vector)
            requires
                mv != 0 && mv % 2 == 1 && mv & ((mv - 1) as u64) == 0,
        ;
        assert(popcnt(0) == 0);
        assert(popcnt(1) == 1);
    } else {
        let h = mv >> 1u64;
        assert(h == mv / 2 && h != 0 && h & ((h - 1) as u64) == 0 && h < mv) by (bit_vector)
            requires
                mv != 0 && mv % 2 == 0 && mv & ((mv - 1) as u64) == 0 && h == mv >> 1u64,
        ;
        lemma_popcnt_single(h);
    }
}

/// A subset has at most as many bits, and strictly fewer when proper.
pub proof fn lemma_popcnt_subset(a: u64, b: u64)
    requires
        a & b == a,
    ensures
        popcnt(a as int) <= popcnt(b as int),
        a != b ==> popcnt(a as int) < popcnt(b as int),
    decreases b,
{
    if b != 0 {
        assert(a % 2 <= b % 2 && (a >> 1u64) & (b >> 1u64) == (a >> 1u64) && (a >> 1u64) == a / 2
            && (b >> 1u64) == b / 2 && (a != b ==> a % 2 < b % 2 || (a >> 1u64) != (b >> 1u64)))
            by (bit_vector)
            requires
                a & b == a,
        ;
        lemma_popcnt_subset(a >> 1u64, b >> 1u64);
    } else {
        assert(a == 0) by (bit_vector)
            requires
                a & b == a && b == 0,
        ;
    }
}

/// Removing the lowest set bit lowers the value and drops the count by one.
pub proof fn lemma_popcnt_clear_lowest(m: u64)
    ensures
        m != 0 ==> (m & ((m - 1) as u64)) < m,
        m != 0 ==> popcnt((m & ((m - 1) as u64)) as int) + 1 == popcnt(m as int),
    decreases m,
{
    if m != 0 {
        let l = m & ((m - 1) as u64);
        if m % 2 == 1 {
            assert(l == (m - 1) as u64 && m / 2 == (m - 1) / 2) by (bit_vector)
                requires
                    m % 2 == 1 && l == m & ((m - 1) as u64),
            ;
        } else {
            let h = m >> 1u64;
            assert(h == m / 2 && h != 0 && l % 2 == 0 && l / 2 == (h & ((h - 1) as u64)) && l < m)
                by (bit_vector)
                requires
                    m % 2 == 0 && m != 0 && l == m & ((m - 1) as u64) && h == m >> 1u64,
            ;
            lemma_popcnt_clear_lowest(h);
        }
    }
}

} // verus!
