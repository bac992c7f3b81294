//! Bit scanning on 128-bit words.
use vstd::prelude::*;
use vstd::std_specs::bits::{u64_trailing_zeros, axiom_u64_trailing_zeros};

verus! {

/// Index of the lowest set bit of a nonzero word.
pub fn lowest_bit(x: u128) -> (r: u32)
    requires
        x != 0,
    ensures
        r < 128,
        x & (1u128 << (r as u128)) == 1u128 << (r as u128),
        x & low_mask_spec(r as nat) == 0,
{
    let lo = x as u64;
    if lo != 0 {
        proof { axiom_u64_trailing_zeros(lo); }
        let r = lo.trailing_zeros();
        assert(x & (1u128 << (r as u128)) == 1u128 << (r as u128)
            && x & (((1u128 << (r as u128)) - 1) as u128) == 0) by (bit_vector)
            requires lo == x as u64, r < 64, (lo >> (r as u64)) & 1u64 == 1u64, lo << ((64 - r) as u64) == 0;
        r
    } else {
        let hi = (x >> 64u128) as u64;
        assert(hi != 0) by (bit_vector)
            requires x != 0, lo == x as u64, lo == 0, hi == (x >> 64u128) as u64;
        proof { axiom_u64_trailing_zeros(hi); }
        let t = hi.trailing_zeros();
        let r = 64 + t;
        assert(x & (1u128 << (r as u128)) == 1u128 << (r as u128)
            && x & (((1u128 << (r as u128)) - 1) as u128) == 0) by (bit_vector)
            requires lo == x as u64, lo == 0, hi == (x >> 64u128) as u64, t < 64, r == 64 + t,
                (hi >> (t as u64)) & 1u64 == 1u64, hi << ((64 - t) as u64) == 0;
        r
    }
}

/// Clearing the lowest set bit keeps a subset.
pub proof fn lemma_clear_lowest_subset(x: u128, s: u128)
    requires
        x != 0,
        s & x == x,
    ensures
        s & (x & ((x - 1) as u128)) == x & ((x - 1) as u128),
{
    assert(s & (x & ((x - 1) as u128)) == x & ((x - 1) as u128)) by (bit_vector)
        requires x != 0, s & x == x;
}

/// Clearing the lowest set bit makes a nonzero word smaller.
pub proof fn lemma_clear_lowest(x: u128)
    requires
        x != 0,
    ensures
        x & ((x - 1) as u128) < x,
{
    lemma_clear_lowest_bits(x, 0, 0);
}

/// Clearing the lowest set bit `r` of `x` makes it smaller and keeps every
/// other bit.
pub proof fn lemma_clear_lowest_bits(x: u128, r: u128, w: u128)
    requires
        x != 0,
        r < 128,
        w < 128,
    ensures
        x & ((x - 1) as u128) < x,
        x & (1u128 << r) == 1u128 << r && x & (((1u128 << r) - 1) as u128) == 0 ==>
            ((((x & ((x - 1) as u128)) >> w) & 1 == 1) <==> (((x >> w) & 1 == 1) && w != r)),
{
    assert(x & ((x - 1) as u128) < x
        && (x & (1u128 << r) == 1u128 << r && x & (((1u128 << r) - 1) as u128) == 0 ==>
            ((((x & ((x - 1) as u128)) >> w) & 1 == 1) <==> (((x >> w) & 1 == 1) && w != r)))) by (bit_vector)
        requires x != 0, r < 128, w < 128;
}

/// Removing a nonempty subset of the bits of `x` makes it smaller.
pub proof fn lemma_remove_bits(x: u128, v: u128)
    requires
        v != 0,
        x & v == v,
    ensures
        x & !v < x,
{
    assert(x & !v < x) by (bit_vector)
        requires v != 0, x & v == v;
}

/// Number of set bits.
pub fn popcount(x: u128) -> (r: u32)
    ensures
        r == crate::gray::pop_upto(x, 128),
{
    let mut c: u32 = 0;
    let mut i: u32 = 0;
    while i < 128
        invariant
            i <= 128,
            c <= i,
            c == crate::gray::pop_upto(x, i as nat),
        decreases 128 - i,
    {
        if (x >> (i as u128)) & 1 == 1 {
            c = c + 1;
        }
        i = i + 1;
    }
    c
}

/// The bits below `k` (all bits from 128 on).
pub open spec fn low_mask_spec(k: nat) -> u128 {
    if k >= 128 { !0u128 } else { ((1u128 << (k as u128)) - 1) as u128 }
}

/// The bits below `k`.
pub fn low_mask(k: u32) -> (r: u128)
    ensures
        r == low_mask_spec(k as nat),
{
    if k >= 128 {
        !0u128
    } else {
        assert(1u128 << (k as u128) >= 1) by (bit_vector)
            requires k < 128;
        (1u128 << (k as u128)) - 1
    }
}

/// Zero or a single bit.
pub open spec fn zero_or_pow2(x: u128) -> bool {
    x == 0 || x & ((x - 1) as u128) == 0
}

/// Zero or a single bit.
pub fn is_zero_or_pow2(x: u128) -> (r: bool)
    ensures
        r == zero_or_pow2(x),
{
    x == 0 || x & (x - 1) == 0
}

/// The single bit `1 << i`.
pub fn bit_at(i: u32) -> (r: u128)
    requires
        i < 128,
    ensures
        r == 1u128 << (i as u128),
        r != 0,
{
    assert(1u128 << (i as u128) != 0) by (bit_vector)
        requires i < 128;
    1u128 << (i as u128)
}

/// A word meets itself, and a union meets either part, in full.
pub proof fn lemma_and_absorb(x: u128, y: u128)
    ensures
        x & x == x,
        (x | y) & x == x,
{
    assert(x & x == x && (x | y) & x == x) by (bit_vector);
}

/// XOR is associative and commutative with zero as its unit, and a word
/// with no bit outside a mask keeps all its bits under it.
pub proof fn lemma_xor_algebra(a: u128, b: u128, c: u128)
    ensures
        a ^ 0u128 == a,
        0u128 ^ a == a,
        (a ^ b) ^ c == a ^ (b ^ c),
        a ^ b == b ^ a,
        a & 0u128 == 0,
        a & !b == 0 ==> a & b == a,
{
    assert(a ^ 0u128 == a && 0u128 ^ a == a && (a ^ b) ^ c == a ^ (b ^ c) && a ^ b == b ^ a && a & 0u128 == 0
        && (a & !b == 0 ==> a & b == a)) by (bit_vector);
}

/// How a single-bit word meets a XOR, an OR with a zero-or-single-bit
/// word, and a single bit.
pub proof fn lemma_single_bit_meets(x: u128, a: u128, b: u128, i: u128)
    requires
        x != 0,
        x & ((x - 1) as u128) == 0,
    ensures
        (x & (a ^ b) != 0) == ((x & a != 0) != (x & b != 0)),
        (b == 0 || b & ((b - 1) as u128) == 0) ==> ((x & (a | b) != 0) == (x & a != 0 || x == b)),
        i < 128 ==> ((x & (1u128 << i) != 0) <==> x == 1u128 << i),
{
    assert(((x & (a ^ b) != 0) == ((x & a != 0) != (x & b != 0)))
        && ((b == 0 || b & ((b - 1) as u128) == 0) ==> ((x & (a | b) != 0) == (x & a != 0 || x == b)))
        && (i < 128 ==> ((x & (1u128 << i) != 0) <==> x == 1u128 << i))) by (bit_vector)
        requires
            x != 0,
            x & ((x - 1) as u128) == 0;
}

/// Single bits against each other, and clearing the bits of a word one
/// position at a time from the bottom (`lb` and `lb1` the masks of the
/// bits below `b` and below `b + 1`).
pub proof fn lemma_unit_bits(m: u128, i: u128, b: u128, lb: u128, lb1: u128)
    requires
        i < 128,
        b < 128,
    ensures
        i != b ==> (1u128 << i) & (1u128 << b) == 0,
        (1u128 << b) & (1u128 << b) != 0,
        ((1u128 << 0u128) - 1) as u128 == 0,
        lb == ((1u128 << b) - 1) as u128 && lb1 == (if b < 127 { ((1u128 << (b + 1)) - 1) as u128 } else { !0u128 }) ==> {
            &&& (m & !lb) & (1u128 << b) != 0 ==> (m & !lb) ^ (1u128 << b) == m & !lb1
            &&& (m & !lb) & (1u128 << b) == 0 ==> m & !lb == m & !lb1
        },
{
    assert((i != b ==> (1u128 << i) & (1u128 << b) == 0)
        && ((1u128 << 0u128) - 1) as u128 == 0
        && (1u128 << b) & (1u128 << b) != 0
        && (lb == ((1u128 << b) - 1) as u128 && lb1 == (if b < 127 { ((1u128 << (b + 1)) - 1) as u128 } else { !0u128 }) ==>
            ((m & !lb) & (1u128 << b) != 0 ==> (m & !lb) ^ (1u128 << b) == m & !lb1)
            && ((m & !lb) & (1u128 << b) == 0 ==> m & !lb == m & !lb1))) by (bit_vector)
        requires
            i < 128,
            b < 128;
}

/// The bits of `&`, `|` and `!`, and one more left shift of a single bit.
pub proof fn lemma_bit_ops(a: u128, b: u128, j: u128)
    requires
        j < 128,
    ensures
        ((a & b) >> j) & 1 == 1 <==> (((a >> j) & 1 == 1) && ((b >> j) & 1 == 1)),
        ((a | b) >> j) & 1 == 1 <==> (((a >> j) & 1 == 1) || ((b >> j) & 1 == 1)),
        ((!a) >> j) & 1 == 1 <==> !((a >> j) & 1 == 1),
        j < 127 ==> (1u128 << j) << 1u128 == 1u128 << (j + 1),
        (1u128 << 127u128) << 1u128 == 0,
        zero_or_pow2(1u128 << j),
{
    assert(
        (((a & b) >> j) & 1 == 1 <==> (((a >> j) & 1 == 1) && ((b >> j) & 1 == 1)))
        && (((a | b) >> j) & 1 == 1 <==> (((a >> j) & 1 == 1) || ((b >> j) & 1 == 1)))
        && ((((!a) >> j) & 1 == 1) <==> !((a >> j) & 1 == 1))
        && (j < 127 ==> (1u128 << j) << 1u128 == 1u128 << (j + 1))
        && (1u128 << 127u128) << 1u128 == 0
        && ((1u128 << j) == 0 || (1u128 << j) & (((1u128 << j) - 1) as u128) == 0)
    ) by (bit_vector)
        requires j < 128;
}

/// Identities of the empty and the full word.
pub proof fn lemma_word_ids(x: u128)
    ensures
        0u128 & x == 0,
        0u128 | x == x,
        x & !0u128 == x,
        x | 0u128 == x,
{
    assert forall|j: int| 0 <= j < 128 implies #[trigger] crate::gf2::bit(0u128 & x, j) == crate::gf2::bit(0u128, j) by {
        lemma_bit_ops(0u128, x, j as u128);
        crate::gf2::lemma_zero_bits(j as u128);
    }
    crate::gf2::lemma_bits_equal(0u128 & x, 0u128);
    assert forall|j: int| 0 <= j < 128 implies #[trigger] crate::gf2::bit(0u128 | x, j) == crate::gf2::bit(x, j) by {
        lemma_bit_ops(0u128, x, j as u128);
        crate::gf2::lemma_zero_bits(j as u128);
    }
    crate::gf2::lemma_bits_equal(0u128 | x, x);
    assert forall|j: int| 0 <= j < 128 implies #[trigger] crate::gf2::bit(x | 0u128, j) == crate::gf2::bit(x, j) by {
        lemma_bit_ops(x, 0u128, j as u128);
        crate::gf2::lemma_zero_bits(j as u128);
    }
    crate::gf2::lemma_bits_equal(x | 0u128, x);
    assert forall|j: int| 0 <= j < 128 implies #[trigger] crate::gf2::bit(x & !0u128, j) == crate::gf2::bit(x, j) by {
        lemma_bit_ops(x, !0u128, j as u128);
        lemma_bit_ops(0u128, 0u128, j as u128);
        crate::gf2::lemma_zero_bits(j as u128);
    }
    crate::gf2::lemma_bits_equal(x & !0u128, x);
}

} // verus!


