//! Linear reversible (CNOT) synthesis over GF(2).
//!
//! A matrix is a list of rows; row `i` is a bitmask over the inputs. A CNOT
//! `(c, t)` is the row operation `row[t] ^= row[c]`.
use vstd::prelude::*;
use vstd::string::StringExecFns;

verus! {

/// The identity matrix `I_n`: row `i` is the bit `i`.
pub open spec fn identity_rows(n: nat) -> Seq<u128> {
    Seq::new(n, |i: int| 1u128 << (i as u128))
}

/// Effect of one CNOT on a matrix (indices out of range change nothing).
pub open spec fn apply_op(m: Seq<u128>, op: (usize, usize)) -> Seq<u128> {
    if op.0 < m.len() && op.1 < m.len() {
        m.update(op.1 as int, m[op.1 as int] ^ m[op.0 as int])
    } else {
        m
    }
}

/// Effect of a CNOT list applied in order.
pub open spec fn apply_ops(m: Seq<u128>, ops: Seq<(usize, usize)>) -> Seq<u128>
    decreases ops.len(),
{
    if ops.len() == 0 {
        m
    } else {
        apply_op(apply_ops(m, ops.drop_last()), ops.last())
    }
}

/// Every CNOT acts on two wires below `n`.
pub open spec fn ops_in_range(ops: Seq<(usize, usize)>, n: nat) -> bool {
    forall|k: int| 0 <= k < ops.len() ==> (#[trigger] ops[k]).0 < n && ops[k].1 < n
}

/// The first `n` rows restricted to the columns `0..n`.
pub open spec fn masked_rows(m: Seq<u128>, n: nat) -> Seq<u128> {
    Seq::new(n, |i: int| m[i] & row_mask_spec(n))
}

/// Bitmask of the columns `0..n`.
pub open spec fn row_mask_spec(n: nat) -> u128 {
    if n >= 128 { !0u128 } else { ((1u128 << (n as u128)) - 1) as u128 }
}

/// Two words with the same bits are equal.
pub proof fn lemma_bits_equal(a: u128, b: u128)
    requires
        forall|j: int| 0 <= j < 128 ==> #[trigger] bit(a, j) == bit(b, j),
    ensures
        a == b,
{
    assert(bit(a, 0) == bit(b, 0));
    assert(bit(a, 1) == bit(b, 1));
    assert(bit(a, 2) == bit(b, 2));
    assert(bit(a, 3) == bit(b, 3));
    assert(bit(a, 4) == bit(b, 4));
    assert(bit(a, 5) == bit(b, 5));
    assert(bit(a, 6) == bit(b, 6));
    assert(bit(a, 7) == bit(b, 7));
    assert(bit(a, 8) == bit(b, 8));
    assert(bit(a, 9) == bit(b, 9));
    assert(bit(a, 10) == bit(b, 10));
    assert(bit(a, 11) == bit(b, 11));
    assert(bit(a, 12) == bit(b, 12));
    assert(bit(a, 13) == bit(b, 13));
    assert(bit(a, 14) == bit(b, 14));
    assert(bit(a, 15) == bit(b, 15));
    assert(bit(a, 16) == bit(b, 16));
    assert(bit(a, 17) == bit(b, 17));
    assert(bit(a, 18) == bit(b, 18));
    assert(bit(a, 19) == bit(b, 19));
    assert(bit(a, 20) == bit(b, 20));
    assert(bit(a, 21) == bit(b, 21));
    assert(bit(a, 22) == bit(b, 22));
    assert(bit(a, 23) == bit(b, 23));
    assert(bit(a, 24) == bit(b, 24));
    assert(bit(a, 25) == bit(b, 25));
    assert(bit(a, 26) == bit(b, 26));
    assert(bit(a, 27) == bit(b, 27));
    assert(bit(a, 28) == bit(b, 28));
    assert(bit(a, 29) == bit(b, 29));
    assert(bit(a, 30) == bit(b, 30));
    assert(bit(a, 31) == bit(b, 31));
    assert(bit(a, 32) == bit(b, 32));
    assert(bit(a, 33) == bit(b, 33));
    assert(bit(a, 34) == bit(b, 34));
    assert(bit(a, 35) == bit(b, 35));
    assert(bit(a, 36) == bit(b, 36));
    assert(bit(a, 37) == bit(b, 37));
    assert(bit(a, 38) == bit(b, 38));
    assert(bit(a, 39) == bit(b, 39));
    assert(bit(a, 40) == bit(b, 40));
    assert(bit(a, 41) == bit(b, 41));
    assert(bit(a, 42) == bit(b, 42));
    assert(bit(a, 43) == bit(b, 43));
    assert(bit(a, 44) == bit(b, 44));
    assert(bit(a, 45) == bit(b, 45));
    assert(bit(a, 46) == bit(b, 46));
    assert(bit(a, 47) == bit(b, 47));
    assert(bit(a, 48) == bit(b, 48));
    assert(bit(a, 49) == bit(b, 49));
    assert(bit(a, 50) == bit(b, 50));
    assert(bit(a, 51) == bit(b, 51));
    assert(bit(a, 52) == bit(b, 52));
    assert(bit(a, 53) == bit(b, 53));
    assert(bit(a, 54) == bit(b, 54));
    assert(bit(a, 55) == bit(b, 55));
    assert(bit(a, 56) == bit(b, 56));
    assert(bit(a, 57) == bit(b, 57));
    assert(bit(a, 58) == bit(b, 58));
    assert(bit(a, 59) == bit(b, 59));
    assert(bit(a, 60) == bit(b, 60));
    assert(bit(a, 61) == bit(b, 61));
    assert(bit(a, 62) == bit(b, 62));
    assert(bit(a, 63) == bit(b, 63));
    assert(bit(a, 64) == bit(b, 64));
    assert(bit(a, 65) == bit(b, 65));
    assert(bit(a, 66) == bit(b, 66));
    assert(bit(a, 67) == bit(b, 67));
    assert(bit(a, 68) == bit(b, 68));
    assert(bit(a, 69) == bit(b, 69));
    assert(bit(a, 70) == bit(b, 70));
    assert(bit(a, 71) == bit(b, 71));
    assert(bit(a, 72) == bit(b, 72));
    assert(bit(a, 73) == bit(b, 73));
    assert(bit(a, 74) == bit(b, 74));
    assert(bit(a, 75) == bit(b, 75));
    assert(bit(a, 76) == bit(b, 76));
    assert(bit(a, 77) == bit(b, 77));
    assert(bit(a, 78) == bit(b, 78));
    assert(bit(a, 79) == bit(b, 79));
    assert(bit(a, 80) == bit(b, 80));
    assert(bit(a, 81) == bit(b, 81));
    assert(bit(a, 82) == bit(b, 82));
    assert(bit(a, 83) == bit(b, 83));
    assert(bit(a, 84) == bit(b, 84));
    assert(bit(a, 85) == bit(b, 85));
    assert(bit(a, 86) == bit(b, 86));
    assert(bit(a, 87) == bit(b, 87));
    assert(bit(a, 88) == bit(b, 88));
    assert(bit(a, 89) == bit(b, 89));
    assert(bit(a, 90) == bit(b, 90));
    assert(bit(a, 91) == bit(b, 91));
    assert(bit(a, 92) == bit(b, 92));
    assert(bit(a, 93) == bit(b, 93));
    assert(bit(a, 94) == bit(b, 94));
    assert(bit(a, 95) == bit(b, 95));
    assert(bit(a, 96) == bit(b, 96));
    assert(bit(a, 97) == bit(b, 97));
    assert(bit(a, 98) == bit(b, 98));
    assert(bit(a, 99) == bit(b, 99));
    assert(bit(a, 100) == bit(b, 100));
    assert(bit(a, 101) == bit(b, 101));
    assert(bit(a, 102) == bit(b, 102));
    assert(bit(a, 103) == bit(b, 103));
    assert(bit(a, 104) == bit(b, 104));
    assert(bit(a, 105) == bit(b, 105));
    assert(bit(a, 106) == bit(b, 106));
    assert(bit(a, 107) == bit(b, 107));
    assert(bit(a, 108) == bit(b, 108));
    assert(bit(a, 109) == bit(b, 109));
    assert(bit(a, 110) == bit(b, 110));
    assert(bit(a, 111) == bit(b, 111));
    assert(bit(a, 112) == bit(b, 112));
    assert(bit(a, 113) == bit(b, 113));
    assert(bit(a, 114) == bit(b, 114));
    assert(bit(a, 115) == bit(b, 115));
    assert(bit(a, 116) == bit(b, 116));
    assert(bit(a, 117) == bit(b, 117));
    assert(bit(a, 118) == bit(b, 118));
    assert(bit(a, 119) == bit(b, 119));
    assert(bit(a, 120) == bit(b, 120));
    assert(bit(a, 121) == bit(b, 121));
    assert(bit(a, 122) == bit(b, 122));
    assert(bit(a, 123) == bit(b, 123));
    assert(bit(a, 124) == bit(b, 124));
    assert(bit(a, 125) == bit(b, 125));
    assert(bit(a, 126) == bit(b, 126));
    assert(bit(a, 127) == bit(b, 127));
    assert(a == b) by (bit_vector)
        requires
            ((a >> 0u128) & 1 == 1) == ((b >> 0u128) & 1 == 1),
            ((a >> 1u128) & 1 == 1) == ((b >> 1u128) & 1 == 1),
            ((a >> 2u128) & 1 == 1) == ((b >> 2u128) & 1 == 1),
            ((a >> 3u128) & 1 == 1) == ((b >> 3u128) & 1 == 1),
            ((a >> 4u128) & 1 == 1) == ((b >> 4u128) & 1 == 1),
            ((a >> 5u128) & 1 == 1) == ((b >> 5u128) & 1 == 1),
            ((a >> 6u128) & 1 == 1) == ((b >> 6u128) & 1 == 1),
            ((a >> 7u128) & 1 == 1) == ((b >> 7u128) & 1 == 1),
            ((a >> 8u128) & 1 == 1) == ((b >> 8u128) & 1 == 1),
            ((a >> 9u128) & 1 == 1) == ((b >> 9u128) & 1 == 1),
            ((a >> 10u128) & 1 == 1) == ((b >> 10u128) & 1 == 1),
            ((a >> 11u128) & 1 == 1) == ((b >> 11u128) & 1 == 1),
            ((a >> 12u128) & 1 == 1) == ((b >> 12u128) & 1 == 1),
            ((a >> 13u128) & 1 == 1) == ((b >> 13u128) & 1 == 1),
            ((a >> 14u128) & 1 == 1) == ((b >> 14u128) & 1 == 1),
            ((a >> 15u128) & 1 == 1) == ((b >> 15u128) & 1 == 1),
            ((a >> 16u128) & 1 == 1) == ((b >> 16u128) & 1 == 1),
            ((a >> 17u128) & 1 == 1) == ((b >> 17u128) & 1 == 1),
            ((a >> 18u128) & 1 == 1) == ((b >> 18u128) & 1 == 1),
            ((a >> 19u128) & 1 == 1) == ((b >> 19u128) & 1 == 1),
            ((a >> 20u128) & 1 == 1) == ((b >> 20u128) & 1 == 1),
            ((a >> 21u128) & 1 == 1) == ((b >> 21u128) & 1 == 1),
            ((a >> 22u128) & 1 == 1) == ((b >> 22u128) & 1 == 1),
            ((a >> 23u128) & 1 == 1) == ((b >> 23u128) & 1 == 1),
            ((a >> 24u128) & 1 == 1) == ((b >> 24u128) & 1 == 1),
            ((a >> 25u128) & 1 == 1) == ((b >> 25u128) & 1 == 1),
            ((a >> 26u128) & 1 == 1) == ((b >> 26u128) & 1 == 1),
            ((a >> 27u128) & 1 == 1) == ((b >> 27u128) & 1 == 1),
            ((a >> 28u128) & 1 == 1) == ((b >> 28u128) & 1 == 1),
            ((a >> 29u128) & 1 == 1) == ((b >> 29u128) & 1 == 1),
            ((a >> 30u128) & 1 == 1) == ((b >> 30u128) & 1 == 1),
            ((a >> 31u128) & 1 == 1) == ((b >> 31u128) & 1 == 1),
            ((a >> 32u128) & 1 == 1) == ((b >> 32u128) & 1 == 1),
            ((a >> 33u128) & 1 == 1) == ((b >> 33u128) & 1 == 1),
            ((a >> 34u128) & 1 == 1) == ((b >> 34u128) & 1 == 1),
            ((a >> 35u128) & 1 == 1) == ((b >> 35u128) & 1 == 1),
            ((a >> 36u128) & 1 == 1) == ((b >> 36u128) & 1 == 1),
            ((a >> 37u128) & 1 == 1) == ((b >> 37u128) & 1 == 1),
            ((a >> 38u128) & 1 == 1) == ((b >> 38u128) & 1 == 1),
            ((a >> 39u128) & 1 == 1) == ((b >> 39u128) & 1 == 1),
            ((a >> 40u128) & 1 == 1) == ((b >> 40u128) & 1 == 1),
            ((a >> 41u128) & 1 == 1) == ((b >> 41u128) & 1 == 1),
            ((a >> 42u128) & 1 == 1) == ((b >> 42u128) & 1 == 1),
            ((a >> 43u128) & 1 == 1) == ((b >> 43u128) & 1 == 1),
            ((a >> 44u128) & 1 == 1) == ((b >> 44u128) & 1 == 1),
            ((a >> 45u128) & 1 == 1) == ((b >> 45u128) & 1 == 1),
            ((a >> 46u128) & 1 == 1) == ((b >> 46u128) & 1 == 1),
            ((a >> 47u128) & 1 == 1) == ((b >> 47u128) & 1 == 1),
            ((a >> 48u128) & 1 == 1) == ((b >> 48u128) & 1 == 1),
            ((a >> 49u128) & 1 == 1) == ((b >> 49u128) & 1 == 1),
            ((a >> 50u128) & 1 == 1) == ((b >> 50u128) & 1 == 1),
            ((a >> 51u128) & 1 == 1) == ((b >> 51u128) & 1 == 1),
            ((a >> 52u128) & 1 == 1) == ((b >> 52u128) & 1 == 1),
            ((a >> 53u128) & 1 == 1) == ((b >> 53u128) & 1 == 1),
            ((a >> 54u128) & 1 == 1) == ((b >> 54u128) & 1 == 1),
            ((a >> 55u128) & 1 == 1) == ((b >> 55u128) & 1 == 1),
            ((a >> 56u128) & 1 == 1) == ((b >> 56u128) & 1 == 1),
            ((a >> 57u128) & 1 == 1) == ((b >> 57u128) & 1 == 1),
            ((a >> 58u128) & 1 == 1) == ((b >> 58u128) & 1 == 1),
            ((a >> 59u128) & 1 == 1) == ((b >> 59u128) & 1 == 1),
            ((a >> 60u128) & 1 == 1) == ((b >> 60u128) & 1 == 1),
            ((a >> 61u128) & 1 == 1) == ((b >> 61u128) & 1 == 1),
            ((a >> 62u128) & 1 == 1) == ((b >> 62u128) & 1 == 1),
            ((a >> 63u128) & 1 == 1) == ((b >> 63u128) & 1 == 1),
            ((a >> 64u128) & 1 == 1) == ((b >> 64u128) & 1 == 1),
            ((a >> 65u128) & 1 == 1) == ((b >> 65u128) & 1 == 1),
            ((a >> 66u128) & 1 == 1) == ((b >> 66u128) & 1 == 1),
            ((a >> 67u128) & 1 == 1) == ((b >> 67u128) & 1 == 1),
            ((a >> 68u128) & 1 == 1) == ((b >> 68u128) & 1 == 1),
            ((a >> 69u128) & 1 == 1) == ((b >> 69u128) & 1 == 1),
            ((a >> 70u128) & 1 == 1) == ((b >> 70u128) & 1 == 1),
            ((a >> 71u128) & 1 == 1) == ((b >> 71u128) & 1 == 1),
            ((a >> 72u128) & 1 == 1) == ((b >> 72u128) & 1 == 1),
            ((a >> 73u128) & 1 == 1) == ((b >> 73u128) & 1 == 1),
            ((a >> 74u128) & 1 == 1) == ((b >> 74u128) & 1 == 1),
            ((a >> 75u128) & 1 == 1) == ((b >> 75u128) & 1 == 1),
            ((a >> 76u128) & 1 == 1) == ((b >> 76u128) & 1 == 1),
            ((a >> 77u128) & 1 == 1) == ((b >> 77u128) & 1 == 1),
            ((a >> 78u128) & 1 == 1) == ((b >> 78u128) & 1 == 1),
            ((a >> 79u128) & 1 == 1) == ((b >> 79u128) & 1 == 1),
            ((a >> 80u128) & 1 == 1) == ((b >> 80u128) & 1 == 1),
            ((a >> 81u128) & 1 == 1) == ((b >> 81u128) & 1 == 1),
            ((a >> 82u128) & 1 == 1) == ((b >> 82u128) & 1 == 1),
            ((a >> 83u128) & 1 == 1) == ((b >> 83u128) & 1 == 1),
            ((a >> 84u128) & 1 == 1) == ((b >> 84u128) & 1 == 1),
            ((a >> 85u128) & 1 == 1) == ((b >> 85u128) & 1 == 1),
            ((a >> 86u128) & 1 == 1) == ((b >> 86u128) & 1 == 1),
            ((a >> 87u128) & 1 == 1) == ((b >> 87u128) & 1 == 1),
            ((a >> 88u128) & 1 == 1) == ((b >> 88u128) & 1 == 1),
            ((a >> 89u128) & 1 == 1) == ((b >> 89u128) & 1 == 1),
            ((a >> 90u128) & 1 == 1) == ((b >> 90u128) & 1 == 1),
            ((a >> 91u128) & 1 == 1) == ((b >> 91u128) & 1 == 1),
            ((a >> 92u128) & 1 == 1) == ((b >> 92u128) & 1 == 1),
            ((a >> 93u128) & 1 == 1) == ((b >> 93u128) & 1 == 1),
            ((a >> 94u128) & 1 == 1) == ((b >> 94u128) & 1 == 1),
            ((a >> 95u128) & 1 == 1) == ((b >> 95u128) & 1 == 1),
            ((a >> 96u128) & 1 == 1) == ((b >> 96u128) & 1 == 1),
            ((a >> 97u128) & 1 == 1) == ((b >> 97u128) & 1 == 1),
            ((a >> 98u128) & 1 == 1) == ((b >> 98u128) & 1 == 1),
            ((a >> 99u128) & 1 == 1) == ((b >> 99u128) & 1 == 1),
            ((a >> 100u128) & 1 == 1) == ((b >> 100u128) & 1 == 1),
            ((a >> 101u128) & 1 == 1) == ((b >> 101u128) & 1 == 1),
            ((a >> 102u128) & 1 == 1) == ((b >> 102u128) & 1 == 1),
            ((a >> 103u128) & 1 == 1) == ((b >> 103u128) & 1 == 1),
            ((a >> 104u128) & 1 == 1) == ((b >> 104u128) & 1 == 1),
            ((a >> 105u128) & 1 == 1) == ((b >> 105u128) & 1 == 1),
            ((a >> 106u128) & 1 == 1) == ((b >> 106u128) & 1 == 1),
            ((a >> 107u128) & 1 == 1) == ((b >> 107u128) & 1 == 1),
            ((a >> 108u128) & 1 == 1) == ((b >> 108u128) & 1 == 1),
            ((a >> 109u128) & 1 == 1) == ((b >> 109u128) & 1 == 1),
            ((a >> 110u128) & 1 == 1) == ((b >> 110u128) & 1 == 1),
            ((a >> 111u128) & 1 == 1) == ((b >> 111u128) & 1 == 1),
            ((a >> 112u128) & 1 == 1) == ((b >> 112u128) & 1 == 1),
            ((a >> 113u128) & 1 == 1) == ((b >> 113u128) & 1 == 1),
            ((a >> 114u128) & 1 == 1) == ((b >> 114u128) & 1 == 1),
            ((a >> 115u128) & 1 == 1) == ((b >> 115u128) & 1 == 1),
            ((a >> 116u128) & 1 == 1) == ((b >> 116u128) & 1 == 1),
            ((a >> 117u128) & 1 == 1) == ((b >> 117u128) & 1 == 1),
            ((a >> 118u128) & 1 == 1) == ((b >> 118u128) & 1 == 1),
            ((a >> 119u128) & 1 == 1) == ((b >> 119u128) & 1 == 1),
            ((a >> 120u128) & 1 == 1) == ((b >> 120u128) & 1 == 1),
            ((a >> 121u128) & 1 == 1) == ((b >> 121u128) & 1 == 1),
            ((a >> 122u128) & 1 == 1) == ((b >> 122u128) & 1 == 1),
            ((a >> 123u128) & 1 == 1) == ((b >> 123u128) & 1 == 1),
            ((a >> 124u128) & 1 == 1) == ((b >> 124u128) & 1 == 1),
            ((a >> 125u128) & 1 == 1) == ((b >> 125u128) & 1 == 1),
            ((a >> 126u128) & 1 == 1) == ((b >> 126u128) & 1 == 1),
            ((a >> 127u128) & 1 == 1) == ((b >> 127u128) & 1 == 1);
}

/// Parity of the bits that `a` and `w` share below `k`.
pub open spec fn dot_upto(a: u128, w: u128, k: int) -> bool
    decreases k,
{
    if k <= 0 { false } else { dot_upto(a, w, k - 1) != (bit(a, k - 1) && bit(w, k - 1)) }
}

/// Every row is orthogonal to `w` on the columns below `n`.
pub open spec fn kills(m: Seq<u128>, w: u128, n: nat) -> bool {
    forall|i: int| 0 <= i < m.len() ==> !#[trigger] dot_upto(m[i], w, n as int)
}

/// `m`, cut to its `n x n` block, is a product of CNOTs on `n` wires: an
/// invertible matrix over GF(2).
pub open spec fn cx_realizable(m: Seq<u128>, n: nat) -> bool {
    exists|ops: Seq<(usize, usize)>| #![trigger apply_ops(identity_rows(n), ops)]
        ops_in_range(ops, n) && ops_distinct(ops) && apply_ops(identity_rows(n), ops) == masked_rows(m, n)
}

/// Orthogonality is linear in the row.
pub proof fn lemma_dot_xor(a: u128, b: u128, w: u128, k: int)
    requires
        k <= 128,
    ensures
        dot_upto(a ^ b, w, k) == (dot_upto(a, w, k) != dot_upto(b, w, k)),
    decreases k,
{
    if k > 0 {
        lemma_dot_xor(a, b, w, k - 1);
        crate::combination::lemma_bit_xor(a, b, (k - 1) as u128);
    }
}

/// A CNOT keeps every row orthogonal to `w`.
pub proof fn lemma_kills_ops(m: Seq<u128>, w: u128, n: nat, ops: Seq<(usize, usize)>)
    requires
        n <= 128,
        kills(m, w, n),
    ensures
        kills(apply_ops(m, ops), w, n),
    decreases ops.len(),
{
    if ops.len() > 0 {
        lemma_kills_ops(m, w, n, ops.drop_last());
        let p = apply_ops(m, ops.drop_last());
        let op = ops.last();
        if op.0 < p.len() && op.1 < p.len() {
            lemma_dot_xor(p[op.1 as int], p[op.0 as int], w, n as int);
            let q = apply_op(p, op);
            assert forall|i: int| 0 <= i < q.len() implies !#[trigger] dot_upto(q[i], w, n as int) by {
                if i != op.1 as int { assert(q[i] == p[i]); }
            }
        }
    }
}

/// A single bit meets `w` exactly where `w` holds it.
pub proof fn lemma_dot_single(i: u128, w: u128, k: int)
    requires
        i < 128,
        k <= 128,
    ensures
        dot_upto(1u128 << i, w, k) == (i < k && bit(w, i as int)),
    decreases k,
{
    if k > 0 {
        lemma_dot_single(i, w, k - 1);
        crate::parity_network::lemma_bit_single(i, (k - 1) as u128);
    }
}

/// The word with bit `c` and, below `k`, the bits `j` where row `j` holds
/// column `c`.
pub open spec fn fix_word(m: Seq<u128>, c: int, k: int) -> u128
    decreases k,
{
    if k <= 0 {
        1u128 << (c as u128)
    } else {
        let a = fix_word(m, c, k - 1);
        if bit(m[k - 1], c) { a ^ (1u128 << ((k - 1) as u128)) } else { a }
    }
}

proof fn lemma_fix_word_bits(m: Seq<u128>, c: int, k: int, j: int)
    requires
        0 <= k <= c < 128,
        0 <= j < 128,
    ensures
        bit(fix_word(m, c, k), j) == if j == c { true } else if j < k { bit(m[j], c) } else { false },
    decreases k,
{
    if k == 0 {
        crate::parity_network::lemma_bit_single(c as u128, j as u128);
    } else {
        lemma_fix_word_bits(m, c, k - 1, j);
        crate::parity_network::lemma_bit_toggle(fix_word(m, c, k - 1), (k - 1) as u128, j as u128);
    }
}

/// Columns `0..c` in echelon form: row `i` holds column `j < c` exactly
/// when `i == j`.
pub open spec fn echelon_upto(m: Seq<u128>, n: nat, c: int) -> bool {
    forall|i: int, j: int| 0 <= i < n && 0 <= j < c ==> #[trigger] bit(m[i], j) == (i == j)
}

/// With columns `0..c` in echelon form and no row from `c` on holding
/// column `c`, the column fix of `c` is orthogonal to every row.
proof fn lemma_killed_at_gap(m: Seq<u128>, n: nat, c: int)
    requires
        m.len() == n,
        0 <= c < n <= 128,
        echelon_upto(m, n, c),
        forall|i: int| c <= i < n ==> !#[trigger] bit(m[i], c),
    ensures
        kills(m, fix_word(m, c, c), n),
        bit(fix_word(m, c, c), c),
{
    let w = fix_word(m, c, c);
    lemma_fix_word_bits(m, c, c, c);
    assert forall|i: int| 0 <= i < m.len() implies !#[trigger] dot_upto(m[i], w, n as int) by {
        lemma_dot_gap(m, n, c, i, n as int);
    }
}

proof fn lemma_dot_gap(m: Seq<u128>, n: nat, c: int, i: int, k: int)
    requires
        m.len() == n,
        0 <= c < n <= 128,
        0 <= i < n,
        0 <= k <= n,
        echelon_upto(m, n, c),
        forall|r: int| c <= r < n ==> !#[trigger] bit(m[r], c),
    ensures
        dot_upto(m[i], fix_word(m, c, c), k)
            == ((i < c && k > i && bit(m[i], c)) != (k > c && bit(m[i], c))),
    decreases k,
{
    if k > 0 {
        lemma_dot_gap(m, n, c, i, k - 1);
        let j = k - 1;
        lemma_fix_word_bits(m, c, c, j);
        if j < c {
            assert(bit(m[i], j) == (i == j));
        }
    }
}

/// A matrix that some CNOT list (with the matrix's own CNOTs) links to one
/// with a row space orthogonal to a column of the identity is not a product
/// of CNOTs.
pub proof fn lemma_not_realizable(input: Seq<u128>, n: nat, w0: Seq<u128>, cnots: Seq<(usize, usize)>, w: u128, c: int)
    requires
        0 <= c < n <= 128,
        w0 == apply_ops(masked_rows(input, n), cnots),
        ops_distinct(cnots),
        kills(w0, w, n),
        bit(w, c),
    ensures
        !cx_realizable(input, n),
{
    if cx_realizable(input, n) {
        let ops = choose|ops: Seq<(usize, usize)>| #![trigger apply_ops(identity_rows(n), ops)]
            ops_in_range(ops, n) && ops_distinct(ops) && apply_ops(identity_rows(n), ops) == masked_rows(input, n);
        let t = ops + cnots;
        lemma_apply_ops_concat(identity_rows(n), ops, cnots);
        assert forall|k: int| 0 <= k < t.len() implies (#[trigger] t[k]).0 != t[k].1 by {
            if k < ops.len() { assert(t[k] == ops[k]); } else { assert(t[k] == cnots[k - ops.len()]); }
        }
        lemma_reverse_tape_undoes(identity_rows(n), t);
        lemma_kills_ops(w0, w, n, t.reverse());
        let id = identity_rows(n);
        assert(id[c] == 1u128 << (c as u128));
        lemma_dot_single(c as u128, w, n as int);
        assert(dot_upto(id[c], w, n as int));
        assert(false);
    }
}

/// `m` is in reduced echelon form on its `n x n` block with the `r` pivot
/// columns `p`: pivot row `i` alone holds column `p[i]`, the pivots rise,
/// and the rows from `r` on are zero below column `n`.
pub open spec fn echelon_with(m: Seq<u128>, n: nat, r: nat, p: Seq<int>) -> bool {
    &&& m.len() == n
    &&& p.len() == r
    &&& r <= n
    &&& forall|i: int, j: int| 0 <= i < j < r ==> p[i] < p[j]
    &&& forall|i: int| 0 <= i < r ==> 0 <= #[trigger] p[i] < n
    &&& forall|i: int, k: int| 0 <= i < r && 0 <= k < n ==> (#[trigger] bit(m[k], p[i]) <==> k == i)
    &&& forall|k: int, j: int| r <= k < n && 0 <= j < n ==> !#[trigger] bit(m[k], j)
}

/// The GF(2) rank of the `n x n` block of `m` is `r`: row operations take
/// it to a reduced echelon form with `r` pivots.
pub open spec fn gf2_rank_is(m: Seq<u128>, n: nat, r: nat) -> bool {
    exists|ops: Seq<(usize, usize)>, p: Seq<int>| #![trigger echelon_with(apply_ops(m, ops), n, r, p)]
        ops_in_range(ops, n) && ops_distinct(ops) && echelon_with(apply_ops(m, ops), n, r, p)
}

/// `m` is a product of CNOTs, or some word holding a column below `n` is
/// orthogonal to all its rows (then it is singular).
pub open spec fn realizable_or_killed(m: Seq<u128>, n: nat) -> bool {
    cx_realizable(m, n) || exists|w: u128, c: int| #![trigger kills(masked_rows(m, n), w, n), bit(w, c)]
        0 <= c < n && bit(w, c) && kills(masked_rows(m, n), w, n)
}

/// A CNOT with distinct wires is its own inverse.
pub proof fn lemma_apply_op_involution(m: Seq<u128>, op: (usize, usize))
    requires
        op.0 != op.1,
    ensures
        apply_op(apply_op(m, op), op) == m,
{
    if op.0 < m.len() && op.1 < m.len() {
        let a = m[op.1 as int];
        let b = m[op.0 as int];
        assert((a ^ b) ^ b == a) by (bit_vector);
        assert(apply_op(apply_op(m, op), op) =~= m);
    }
}

/// Applying a list then its reverse is the identity, when no CNOT has equal
/// control and target.
pub proof fn lemma_reverse_tape_undoes(m: Seq<u128>, ops: Seq<(usize, usize)>)
    requires
        forall|k: int| 0 <= k < ops.len() ==> (#[trigger] ops[k]).0 != ops[k].1,
    ensures
        apply_ops(apply_ops(m, ops), ops.reverse()) == m,
    decreases ops.len(),
{
    if ops.len() > 0 {
        let init = ops.drop_last();
        let last = ops.last();
        let mid = apply_ops(m, init);
        lemma_apply_op_involution(mid, last);
        assert(ops.reverse() =~= seq![last] + init.reverse());
        lemma_apply_ops_concat(apply_ops(m, ops), seq![last], init.reverse());
        reveal_with_fuel(apply_ops, 2);
        assert(seq![last].drop_last() =~= Seq::<(usize, usize)>::empty());
        assert(apply_ops(apply_ops(m, ops), seq![last]) == mid);
        lemma_reverse_tape_undoes(m, init);
    }
}

/// Applying a concatenation applies the two parts in turn.
pub proof fn lemma_apply_ops_concat(m: Seq<u128>, a: Seq<(usize, usize)>, b: Seq<(usize, usize)>)
    ensures
        apply_ops(m, a + b) == apply_ops(apply_ops(m, a), b),
    decreases b.len(),
{
    if b.len() == 0 {
        assert(a + b =~= a);
    } else {
        assert((a + b).drop_last() =~= a + b.drop_last());
        lemma_apply_ops_concat(m, a, b.drop_last());
    }
}

/// Applying a matrix to a row list keeps its length.
pub proof fn lemma_apply_ops_len(m: Seq<u128>, ops: Seq<(usize, usize)>)
    ensures
        apply_ops(m, ops).len() == m.len(),
    decreases ops.len(),
{
    if ops.len() > 0 {
        lemma_apply_ops_len(m, ops.drop_last());
    }
}

/// Apply a CX list to `I_n` (row `t ^=` row `c`).
pub fn apply_cnots_to_identity(cnots: &Vec<(usize, usize)>, n: usize) -> (r: Vec<u128>)
    requires
        n <= 128,
        ops_in_range(cnots@, n as nat),
    ensures
        r@ == apply_ops(identity_rows(n as nat), cnots@),
{
    let mut m: Vec<u128> = Vec::new();
    let mut i: usize = 0;
    while i < n
        invariant
            i <= n <= 128,
            m@ == identity_rows(i as nat),
        decreases n - i,
    {
        m.push(1u128 << i);
        assert(m@ =~= identity_rows((i + 1) as nat));
        i = i + 1;
    }
    let mut k: usize = 0;
    while k < cnots.len()
        invariant
            k <= cnots@.len(),
            n <= 128,
            ops_in_range(cnots@, n as nat),
            m@ == apply_ops(identity_rows(n as nat), cnots@.subrange(0, k as int)),
            m@.len() == n,
        decreases cnots@.len() - k,
    {
        let (c, t) = cnots[k];
        assert(cnots@[k as int].0 < n && cnots@[k as int].1 < n);
        let v = m[t] ^ m[c];
        m.set(t, v);
        assert(cnots@.subrange(0, k + 1).drop_last() =~= cnots@.subrange(0, k as int));
        k = k + 1;
    }
    assert(cnots@.subrange(0, cnots@.len() as int) =~= cnots@);
    m
}

/// Default Patel–Markov–Hayes section width:
/// `min(4, max(2, floor(log2 n)))`, `2` for `n < 4` (`n` itself when
/// smaller), `1` for `n = 0`.
pub open spec fn default_section_spec(n: nat) -> nat {
    if n == 0 {
        1
    } else if n < 4 {
        if n < 2 { n } else { 2 }
    } else if n < 8 {
        2
    } else if n < 16 {
        3
    } else {
        4
    }
}

/// Default Patel–Markov–Hayes section width for `n` wires.
pub fn default_pmh_section_size(n: usize) -> (r: usize)
    ensures
        r == default_section_spec(n as nat),
        1 <= r <= 4,
{
    if n == 0 {
        return 1;
    }
    if n < 4 {
        return if n < 2 { n } else { 2 };
    }
    if n < 8 {
        2
    } else if n < 16 {
        3
    } else {
        4
    }
}


/// Bitmask of the columns `0..n`.
fn pmh_row_mask(n: usize) -> (r: u128)
    requires
        n <= 128,
    ensures
        r == row_mask_spec(n as nat),
{
    if n >= 128 {
        !0u128
    } else {
        assert(1u128 << (n as u128) >= 1) by (bit_vector)
            requires n < 128;
        (1u128 << n) - 1
    }
}

/// The `width` bits of `row` starting at column `start`.
fn pmh_subrow_pattern(row: u128, start: usize, width: usize) -> (r: u128)
    requires
        start < 128,
        width <= 8,
    ensures
        r == (row >> (start as u128)) & (((1u128 << (width as u128)) - 1) as u128),
        r < 256,
        r < (1u128 << (width as u128)),
{
    assert(1u128 << (width as u128) >= 1) by (bit_vector)
        requires width <= 8;
    let mask: u128 = (1u128 << width) - 1;
    let r = (row >> start) & mask;
    assert(((row >> (start as u128)) & (((1u128 << (width as u128)) - 1) as u128)) < 256) by (bit_vector)
        requires width <= 8;
    assert(((row >> (start as u128)) & (((1u128 << (width as u128)) - 1) as u128)) < (1u128 << (width as u128))) by (bit_vector)
        requires width <= 8;
    r
}

/// Bit `j` of `x`.
pub open spec fn bit(x: u128, j: int) -> bool {
    (x >> (j as u128)) & 1 == 1
}

pub(crate) proof fn lemma_set_bit(x: u128, i: u128, k: u128)
    requires
        i < 128,
        k < 128,
    ensures
        ((x | (1u128 << i)) >> k) & 1 == if k == i { 1u128 } else { (x >> k) & 1 },
{
    assert(((x | (1u128 << i)) >> k) & 1 == if k == i { 1u128 } else { (x >> k) & 1 }) by (bit_vector)
        requires i < 128, k < 128;
}

pub(crate) proof fn lemma_zero_bits(i: u128)
    ensures
        (0u128 >> i) & 1 == 0,
{
    assert((0u128 >> i) & 1 == 0) by (bit_vector);
}

/// Transpose of the leading `n x n` block.
fn pmh_transpose(matrix: &Vec<u128>, n: usize) -> (r: Vec<u128>)
    requires
        n <= 128,
        matrix@.len() >= n,
    ensures
        r@.len() == n,
        forall|i: int, j: int| 0 <= i < n && 0 <= j < n ==> bit(#[trigger] r@[j], i) == bit(#[trigger] matrix@[i], j),
{
    let mut out: Vec<u128> = Vec::new();
    let mut k: usize = 0;
    while k < n
        invariant
            k <= n,
            out@.len() == k,
            forall|j: int| 0 <= j < k ==> out@[j] == 0,
        decreases n - k,
    {
        out.push(0);
        k = k + 1;
    }
    proof {
        assert forall|j: int, i: int| 0 <= j < n && 0 <= i < 128 implies !bit(out@[j], i) by {
            let z = out@[j];
            assert(z == 0);
            lemma_zero_bits(i as u128);
        }
    }
    let mut i: usize = 0;
    while i < n
        invariant
            i <= n <= 128,
            matrix@.len() >= n,
            out@.len() == n,
            forall|jj: int, ii: int| 0 <= jj < n && 0 <= ii < 128 ==>
                #[trigger] bit(out@[jj], ii) == (ii < i && bit(matrix@[ii], jj)),
        decreases n - i,
    {
        let row = matrix[i];
        let mut j: usize = 0;
        while j < n
            invariant
                i < n <= 128,
                j <= n,
                matrix@.len() >= n,
                row == matrix@[i as int],
                out@.len() == n,
                forall|jj: int, ii: int| 0 <= jj < n && 0 <= ii < 128 ==>
                    #[trigger] bit(out@[jj], ii) == (ii < i && bit(matrix@[ii], jj)
                        || ii == i && jj < j && bit(row, jj)),
            decreases n - j,
        {
            if (row >> (j as u128)) & 1 == 1 {
                let ghost before = out@;
                let v = out[j] | (1u128 << (i as u128));
                out.set(j, v);
                proof {
                    assert forall|jj: int, ii: int| 0 <= jj < n && 0 <= ii < 128 implies
                        #[trigger] bit(out@[jj], ii) == (ii < i && bit(matrix@[ii], jj)
                            || ii == i && jj < j + 1 && bit(row, jj)) by {
                        if jj == j {
                            lemma_set_bit(before[jj], i as u128, ii as u128);
                            assert(out@[jj] == before[jj] | (1u128 << (i as u128)));
                            assert(bit(before[jj], ii) == (ii < i && bit(matrix@[ii], jj)
                                || ii == i && jj < j && bit(row, jj)));
                            assert(bit(row, jj));
                        } else {
                            assert(out@[jj] == before[jj]);
                        }
                    }
                }
            }
            j = j + 1;
        }
        i = i + 1;
    }
    out
}

/// Drop adjacent equal pairs (a CNOT followed by itself).
fn pmh_cancel_adjacent(cnots: Vec<(usize, usize)>) -> (r: Vec<(usize, usize)>)
    requires
        forall|k: int| 0 <= k < cnots@.len() ==> (#[trigger] cnots@[k]).0 != cnots@[k].1,
    ensures
        forall|m: Seq<u128>| #[trigger] apply_ops(m, r@) == apply_ops(m, cnots@),
        forall|k: int| 0 <= k < r@.len() ==> cnots@.contains(#[trigger] r@[k]),
        forall|k: int| 0 <= k < r@.len() - 1 ==> #[trigger] r@[k] != r@[k + 1],
        r@.len() <= cnots@.len(),
{
    let mut out: Vec<(usize, usize)> = Vec::new();
    let mut k: usize = 0;
    while k < cnots.len()
        invariant
            k <= cnots@.len(),
            forall|l: int| 0 <= l < cnots@.len() ==> (#[trigger] cnots@[l]).0 != cnots@[l].1,
            forall|m: Seq<u128>| #[trigger] apply_ops(m, out@) == apply_ops(m, cnots@.subrange(0, k as int)),
            forall|l: int| 0 <= l < out@.len() ==> cnots@.contains(#[trigger] out@[l]),
            forall|l: int| 0 <= l < out@.len() - 1 ==> #[trigger] out@[l] != out@[l + 1],
            out@.len() <= k,
        decreases cnots@.len() - k,
    {
        let g = cnots[k];
        let ghost prev = out@;
        assert(cnots@.subrange(0, k + 1).drop_last() =~= cnots@.subrange(0, k as int));
        let n = out.len();
        if n > 0 && out[n - 1].0 == g.0 && out[n - 1].1 == g.1 {
            out.pop();
            proof {
                assert(prev.drop_last() =~= out@);
                assert forall|m: Seq<u128>| #[trigger] apply_ops(m, out@) == apply_ops(m, cnots@.subrange(0, k + 1)) by {
                    assert(apply_ops(m, prev) == apply_op(apply_ops(m, out@), g));
                    lemma_apply_op_involution(apply_ops(m, out@), g);
                }
                assert forall|l: int| 0 <= l < out@.len() implies cnots@.contains(#[trigger] out@[l]) by {
                    assert(out@[l] == prev[l]);
                }
                assert forall|l: int| 0 <= l < out@.len() - 1 implies #[trigger] out@[l] != out@[l + 1] by {
                    assert(out@[l] == prev[l] && out@[l + 1] == prev[l + 1]);
                }
            }
        } else {
            out.push(g);
            proof {
                assert(out@.drop_last() =~= prev);
                assert forall|m: Seq<u128>| #[trigger] apply_ops(m, out@) == apply_ops(m, cnots@.subrange(0, k + 1)) by {
                    assert(apply_ops(m, out@) == apply_op(apply_ops(m, prev), g));
                }
                assert forall|l: int| 0 <= l < out@.len() implies cnots@.contains(#[trigger] out@[l]) by {
                    if l < prev.len() { assert(out@[l] == prev[l]); } else { assert(cnots@[k as int] == out@[l]); }
                }
                assert forall|l: int| 0 <= l < out@.len() - 1 implies #[trigger] out@[l] != out@[l + 1] by {
                    if l + 1 < prev.len() {
                        assert(out@[l] == prev[l] && out@[l + 1] == prev[l + 1]);
                    } else {
                        assert(out@[l] == prev[n - 1] && out@[l + 1] == g);
                    }
                }
            }
        }
        k = k + 1;
    }
    assert(cnots@.subrange(0, cnots@.len() as int) =~= cnots@);
    out
}


/// No CNOT has equal control and target.
pub open spec fn ops_distinct(ops: Seq<(usize, usize)>) -> bool {
    forall|k: int| 0 <= k < ops.len() ==> (#[trigger] ops[k]).0 != ops[k].1
}

/// Applying a list extended by one CNOT applies that CNOT last.
pub proof fn lemma_apply_ops_push(m: Seq<u128>, ops: Seq<(usize, usize)>, g: (usize, usize))
    ensures
        apply_ops(m, ops.push(g)) == apply_op(apply_ops(m, ops), g),
{
    assert(ops.push(g).drop_last() =~= ops);
}

/// `row[t] ^= row[c]` on the matrix, recorded as the CNOT `(c, t)`.
fn record_cx(matrix: &mut Vec<u128>, circuit: &mut Vec<(usize, usize)>, c: usize, t: usize, Ghost(m0): Ghost<Seq<u128>>, Ghost(n): Ghost<nat>)
    requires
        c < old(matrix)@.len(),
        t < old(matrix)@.len(),
        c < n,
        t < n,
        c != t,
        old(matrix)@ == apply_ops(m0, old(circuit)@),
        ops_in_range(old(circuit)@, n),
        ops_distinct(old(circuit)@),
    ensures
        final(matrix)@ == apply_ops(m0, final(circuit)@),
        final(matrix)@ == apply_op(old(matrix)@, (c, t)),
        final(matrix)@.len() == old(matrix)@.len(),
        final(circuit)@ == old(circuit)@.push((c, t)),
        ops_in_range(final(circuit)@, n),
        ops_distinct(final(circuit)@),
{
    let v = matrix[t] ^ matrix[c];
    matrix.set(t, v);
    circuit.push((c, t));
    proof {
        lemma_apply_ops_push(m0, old(circuit)@, (c, t));
        assert(matrix@ =~= apply_op(old(matrix)@, (c, t)));
        assert forall|k: int| 0 <= k < circuit@.len() implies (#[trigger] circuit@[k]).0 < n && circuit@[k].1 < n by {
            if k < old(circuit)@.len() { assert(circuit@[k] == old(circuit)@[k]); }
        }
        assert forall|k: int| 0 <= k < circuit@.len() implies (#[trigger] circuit@[k]).0 != circuit@[k].1 by {
            if k < old(circuit)@.len() { assert(circuit@[k] == old(circuit)@[k]); }
        }
    }
}

/// Lower-triangular sectioned elimination (Patel–Markov–Hayes, Alg. 1):
/// every recorded CNOT is applied to the matrix; `None` when a diagonal 1
/// cannot be placed.
fn lwr_cnot_synth(matrix: &mut Vec<u128>, n: usize, section_size: usize) -> (r: Option<Vec<(usize, usize)>>)
    requires
        old(matrix)@.len() == n,
        n <= 128,
        1 <= section_size <= 8,
    ensures
        final(matrix)@.len() == n,
        r matches Some(c) ==> final(matrix)@ == apply_ops(old(matrix)@, c@)
            && ops_in_range(c@, n as nat) && ops_distinct(c@)
            && c@.len() <= 2 * n * n,
{
    let ghost m0 = matrix@;
    let mut circuit: Vec<(usize, usize)> = Vec::new();
    let n_secs = (n + section_size - 1) / section_size;
    let mut sec: usize = 0;
    let ghost mut done: int = 0;
    while sec < n_secs
        invariant
            matrix@.len() == n,
            n <= 128,
            1 <= section_size <= 8,
            n_secs == (n + section_size - 1) as int / (section_size as int),
            matrix@ == apply_ops(m0, circuit@),
            ops_in_range(circuit@, n as nat),
            ops_distinct(circuit@),
            sec <= n_secs,
            0 <= done <= sec * section_size,
            done <= n,
            circuit@.len() <= sec * n + done * n,
        decreases n_secs - sec,
    {
        assert(sec * section_size < n) by (nonlinear_arith)
            requires
                sec < n_secs,
                n_secs == (n + section_size - 1) as int / (section_size as int),
                1 <= section_size;
        let ghost len0 = circuit@.len() as int;
        let start = sec * section_size;
        let end = if start + section_size < n { start + section_size } else { n };
        let width = end - start;
        let mut patt: Vec<Option<usize>> = Vec::new();
        let mut k: usize = 0;
        while k < 256
            invariant
                k <= 256,
                patt@.len() == k,
                forall|i: int| 0 <= i < k ==> patt@[i].is_none(),
            decreases 256 - k,
        {
            patt.push(None);
            k = k + 1;
        }
        let mut row: usize = start;
        while row < n
            invariant
                start < n <= 128,
                start <= row <= n,
                width <= 8,
                matrix@.len() == n,
                patt@.len() == 256,
                forall|i: int| 0 <= i < 256 ==> (#[trigger] patt@[i] matches Some(f) ==> start <= f < row),
                matrix@ == apply_ops(m0, circuit@),
                ops_in_range(circuit@, n as nat),
                ops_distinct(circuit@),
                circuit@.len() <= len0 + (row - start),
            decreases n - row,
        {
            let p = pmh_subrow_pattern(matrix[row], start, width) as usize;
            if p != 0 {
                match patt[p] {
                    Some(first) => {
                        record_cx(matrix, &mut circuit, first, row, Ghost(m0), Ghost(n as nat));
                    },
                    None => {
                        patt.set(p, Some(row));
                    },
                }
            }
            row = row + 1;
        }
        let ghost len1 = circuit@.len() as int;
        assert(len1 <= len0 + n);
        let mut col: usize = start;
        while col < end
            invariant
                start <= col <= end <= n <= 128,
                matrix@.len() == n,
                matrix@ == apply_ops(m0, circuit@),
                ops_in_range(circuit@, n as nat),
                ops_distinct(circuit@),
                circuit@.len() <= len1 + (col - start) * n,
            decreases end - col,
        {
            let mut diag_one = (matrix[col] >> (col as u128)) & 1 == 1;
            let mut row: usize = col + 1;
            let ghost len2 = circuit@.len() as int;
            while row < n
                invariant
                    col < end <= n <= 128,
                    col + 1 <= row <= n,
                    matrix@.len() == n,
                    matrix@ == apply_ops(m0, circuit@),
                    ops_in_range(circuit@, n as nat),
                    ops_distinct(circuit@),
                    circuit@.len() <= len2 + (row - col - 1) + (if diag_one { 1int } else { 0int }),
                decreases n - row,
            {
                if (matrix[row] >> (col as u128)) & 1 == 1 {
                    if !diag_one {
                        record_cx(matrix, &mut circuit, row, col, Ghost(m0), Ghost(n as nat));
                        diag_one = true;
                    }
                    record_cx(matrix, &mut circuit, col, row, Ghost(m0), Ghost(n as nat));
                }
                row = row + 1;
            }
            if !diag_one {
                return None;
            }
            proof {
                assert((col - start) * n + n == (col + 1 - start) * n) by (nonlinear_arith);
            }
            col = col + 1;
        }
        proof {
            assert(circuit@.len() <= len0 + n + width * n);
            assert(start + width == end);
            assert(done + width <= n);
            assert((sec + 1) * n == sec * n + n) by (nonlinear_arith);
            assert((done + width) * n == done * n + width * n) by (nonlinear_arith);
            assert((sec + 1) * section_size == sec * section_size + section_size) by (nonlinear_arith);
            done = done + width;
        }
        sec = sec + 1;
    }
    proof {
        assert(n_secs <= n) by (nonlinear_arith)
            requires
                n_secs == (n + section_size - 1) as int / (section_size as int),
                1 <= section_size;
        assert(sec * n <= n * n) by (nonlinear_arith)
            requires sec <= n;
        assert(done * n <= n * n) by (nonlinear_arith)
            requires 0 <= done <= n;
        assert(2 * n * n == n * n + n * n) by (nonlinear_arith);
        assert(circuit@.len() <= 2 * n * n);
    }
    Some(circuit)
}

/// Element-wise equality of two word vectors.
fn rows_equal(a: &Vec<u128>, b: &Vec<u128>) -> (r: bool)
    ensures
        r == (a@ == b@),
{
    if a.len() != b.len() {
        return false;
    }
    let mut i: usize = 0;
    while i < a.len()
        invariant
            a@.len() == b@.len(),
            i <= a@.len(),
            forall|k: int| 0 <= k < i ==> a@[k] == b@[k],
        decreases a@.len() - i,
    {
        if a[i] != b[i] {
            return false;
        }
        i = i + 1;
    }
    assert(a@ =~= b@);
    true
}

/// The first `n` rows of `matrix`, each masked to the columns `0..n`.
fn masked_copy(matrix: &Vec<u128>, n: usize) -> (r: Vec<u128>)
    requires
        n <= 128,
        matrix@.len() >= n,
    ensures
        r@ == masked_rows(matrix@, n as nat),
{
    let mask = pmh_row_mask(n);
    let mut out: Vec<u128> = Vec::new();
    let mut i: usize = 0;
    while i < n
        invariant
            i <= n <= 128,
            matrix@.len() >= n,
            mask == row_mask_spec(n as nat),
            out@.len() == i,
            forall|k: int| 0 <= k < i ==> out@[k] == matrix@[k] & mask,
        decreases n - i,
    {
        out.push(matrix[i] & mask);
        i = i + 1;
    }
    assert(out@ =~= masked_rows(matrix@, n as nat));
    out
}

/// PMH with a fixed section width: lower elimination, transpose, upper
/// elimination, stitched and checked against the matrix.
fn synthesize_cnot_matrix_pmh_inner(matrix: &Vec<u128>, n: usize, section_size: usize) -> (r: Option<Vec<(usize, usize)>>)
    requires
        n <= 128,
        1 <= section_size <= 8,
    ensures
        r matches Some(c) ==> matrix@.len() >= n
            && apply_ops(identity_rows(n as nat), c@) == masked_rows(matrix@, n as nat)
            && ops_in_range(c@, n as nat)
            && ops_distinct(c@)
            && c@.len() <= 4 * n * n,
{
    if matrix.len() < n {
        return None;
    }
    let mut work = masked_copy(matrix, n);
    let circuit_l = match lwr_cnot_synth(&mut work, n, section_size) {
        Some(c) => c,
        None => { return None; },
    };
    let mut work2 = pmh_transpose(&work, n);
    let circuit_u = match lwr_cnot_synth(&mut work2, n, section_size) {
        Some(c) => c,
        None => { return None; },
    };
    let mut cnots: Vec<(usize, usize)> = Vec::new();
    let mut i: usize = 0;
    while i < circuit_u.len()
        invariant
            i <= circuit_u@.len(),
            ops_in_range(circuit_u@, n as nat),
            ops_distinct(circuit_u@),
            ops_in_range(cnots@, n as nat),
            ops_distinct(cnots@),
            cnots@.len() == i,
        decreases circuit_u@.len() - i,
    {
        let (c, t) = circuit_u[i];
        assert(circuit_u@[i as int].0 < n && circuit_u@[i as int].1 < n && c != t);
        let ghost before = cnots@;
        cnots.push((t, c));
        proof {
            assert forall|k: int| 0 <= k < cnots@.len() implies (#[trigger] cnots@[k]).0 < n && cnots@[k].1 < n && cnots@[k].0 != cnots@[k].1 by {
                if k < before.len() { assert(cnots@[k] == before[k]); }
            }
        }
        i = i + 1;
    }
    let mut j: usize = circuit_l.len();
    while j > 0
        invariant
            j <= circuit_l@.len(),
            ops_in_range(circuit_l@, n as nat),
            ops_distinct(circuit_l@),
            ops_in_range(cnots@, n as nat),
            ops_distinct(cnots@),
            cnots@.len() == circuit_u@.len() + (circuit_l@.len() - j),
        decreases j,
    {
        j = j - 1;
        let (c, t) = circuit_l[j];
        assert(circuit_l@[j as int].0 < n && circuit_l@[j as int].1 < n && c != t);
        let ghost before = cnots@;
        cnots.push((c, t));
        proof {
            assert forall|k: int| 0 <= k < cnots@.len() implies (#[trigger] cnots@[k]).0 < n && cnots@[k].1 < n && cnots@[k].0 != cnots@[k].1 by {
                if k < before.len() { assert(cnots@[k] == before[k]); }
            }
        }
    }
    let ghost pre = cnots@;
    assert(4 * n * n == 2 * n * n + 2 * n * n) by (nonlinear_arith);
    let cnots = pmh_cancel_adjacent(cnots);
    proof {
        assert forall|k: int| 0 <= k < cnots@.len() implies (#[trigger] cnots@[k]).0 < n && cnots@[k].1 < n && cnots@[k].0 != cnots@[k].1 by {
            assert(pre.contains(cnots@[k]));
            let l = choose|l: int| 0 <= l < pre.len() && pre[l] == cnots@[k];
            assert(pre[l].0 < n && pre[l].1 < n && pre[l].0 != pre[l].1);
        }
    }
    let got = apply_cnots_to_identity(&cnots, n);
    let want = masked_copy(matrix, n);
    if !rows_equal(&got, &want) {
        return None;
    }
    Some(cnots)
}


/// Sectioned Patel–Markov–Hayes CNOT synthesis. `None` for the section
/// width takes [`default_pmh_section_size`]; the width is clamped to
/// `1..=min(n, 8)`. An `Err` lets callers fall back to Gauss–Jordan.
pub fn synthesize_cnot_matrix_pmh(matrix: Vec<u128>, num_qubits: usize, section_size: Option<usize>) -> (r: Result<Vec<(usize, usize)>, String>)
    requires
        num_qubits <= 128,
    ensures
        num_qubits == 0 ==> (r matches Ok(c) && c@.len() == 0),
        num_qubits > 0 && matrix@.len() < num_qubits ==> (r matches Err(e) && e@ == "matrix shorter than num_qubits"@),
        num_qubits > 0 && matrix@.len() >= num_qubits && r is Err ==> (r matches Err(e) && e@ == "pmh failed invertibility check"@),
        r matches Ok(c) ==> apply_ops(identity_rows(num_qubits as nat), c@) == masked_rows(matrix@, num_qubits as nat)
            && ops_in_range(c@, num_qubits as nat)
            && ops_distinct(c@)
            && c@.len() <= 4 * num_qubits * num_qubits,
{
    let n = num_qubits;
    if n == 0 {
        return Ok(Vec::new());
    }
    if matrix.len() < n {
        return Err(String::from_str("matrix shorter than num_qubits"));
    }
    let requested = match section_size {
        Some(m) => m,
        None => default_pmh_section_size(n),
    };
    let hi = if n < 8 { n } else { 8 };
    let m = if requested < 1 { 1 } else if requested > hi { hi } else { requested };
    match synthesize_cnot_matrix_pmh_inner(&matrix, n, m) {
        Some(c) => Ok(c),
        None => Err(String::from_str("pmh failed invertibility check")),
    }
}

/// Three CNOTs `(p,c) (c,p) (p,c)` swap rows `p` and `c`.
pub proof fn lemma_three_cx_swap(m: Seq<u128>, p: usize, c: usize)
    requires
        p < m.len(),
        c < m.len(),
        p != c,
    ensures
        apply_op(apply_op(apply_op(m, (p, c)), (c, p)), (p, c)) == m.update(p as int, m[c as int]).update(c as int, m[p as int]),
{
    let a = m[p as int];
    let b = m[c as int];
    assert(a ^ (b ^ a) == b && (b ^ a) ^ b == a) by (bit_vector);
    assert(apply_op(apply_op(apply_op(m, (p, c)), (c, p)), (p, c)) =~= m.update(p as int, b).update(c as int, a));
}

/// Record a CNOT, cancelling it against an equal last entry.
fn ge_push(cnots: &mut Vec<(usize, usize)>, c: usize, t: usize, Ghost(m0): Ghost<Seq<u128>>, Ghost(n): Ghost<nat>)
    requires
        c < n,
        t < n,
        c != t,
        ops_in_range(old(cnots)@, n),
        ops_distinct(old(cnots)@),
    ensures
        apply_ops(m0, final(cnots)@) == apply_op(apply_ops(m0, old(cnots)@), (c, t)),
        ops_in_range(final(cnots)@, n),
        ops_distinct(final(cnots)@),
        final(cnots)@.len() <= old(cnots)@.len() + 1,
{
    let len = cnots.len();
    if len > 0 && cnots[len - 1].0 == c && cnots[len - 1].1 == t {
        let ghost before = cnots@;
        cnots.pop();
        proof {
            assert(before.drop_last() =~= cnots@);
            lemma_apply_op_involution(apply_ops(m0, cnots@), (c, t));
            assert forall|k: int| 0 <= k < cnots@.len() implies (#[trigger] cnots@[k]).0 < n && cnots@[k].1 < n && cnots@[k].0 != cnots@[k].1 by {
                assert(cnots@[k] == before[k]);
            }
        }
    } else {
        let ghost before = cnots@;
        cnots.push((c, t));
        proof {
            lemma_apply_ops_push(m0, before, (c, t));
            assert forall|k: int| 0 <= k < cnots@.len() implies (#[trigger] cnots@[k]).0 < n && cnots@[k].1 < n && cnots@[k].0 != cnots@[k].1 by {
                if k < before.len() { assert(cnots@[k] == before[k]); }
            }
        }
    }
}

/// One-pass Gauss–Jordan over GF(2), the fallback of PMH. Row swaps cost
/// three CNOTs and singular columns are skipped, so this always succeeds:
/// the returned list rebuilds the `n x n` block of the matrix from the
/// row-reduced form that the elimination reached, which is the identity
/// when the matrix is invertible.
pub fn synthesize_cnot_matrix_ge(matrix: Vec<u128>, num_qubits: usize) -> (r: Result<Vec<(usize, usize)>, String>)
    requires
        num_qubits <= 128,
        matrix@.len() >= num_qubits,
    ensures
        r is Ok,
        r matches Ok(c) ==> ops_in_range(c@, num_qubits as nat) && ops_distinct(c@),
        r matches Ok(c) ==> exists|f: Seq<u128>| f.len() == num_qubits
            && #[trigger] apply_ops(f, c@) == masked_rows(matrix@, num_qubits as nat),
        r matches Ok(c) ==> (cx_realizable(matrix@, num_qubits as nat)
            ==> apply_ops(identity_rows(num_qubits as nat), c@) == masked_rows(matrix@, num_qubits as nat)),
        r matches Ok(c) ==> c@.len() <= num_qubits * (num_qubits + 3),
        realizable_or_killed(matrix@, num_qubits as nat),
{
    let n = num_qubits;
    let ghost input = matrix@;
    let ghost mut wit: u128 = 0;
    let ghost mut wcol: int = 0;
    let mut matrix = masked_copy(&matrix, n);
    let ghost m0 = matrix@;
    let ghost mut clean = true;
    proof {
        assert forall|i: int, j: int| 0 <= i < n && n <= j < 128 implies !#[trigger] bit(matrix@[i], j) by {
            crate::combination::lemma_bit_mask(input[i], n as nat, j);
        }
    }
    let mut cnots: Vec<(usize, usize)> = Vec::new();
    let mut c: usize = 0;
    while c < n
        invariant
            n <= 128,
            c <= n,
            matrix@.len() == n,
            m0 == masked_rows(input, n as nat),
            matrix@ == apply_ops(m0, cnots@),
            ops_in_range(cnots@, n as nat),
            ops_distinct(cnots@),
            forall|i: int, j: int| 0 <= i < n && n <= j < 128 ==> !#[trigger] bit(matrix@[i], j),
            clean ==> echelon_upto(matrix@, n as nat, c as int),
            cx_realizable(input, n as nat) ==> clean,
            !clean ==> 0 <= wcol < n && bit(wit, wcol) && kills(m0, wit, n as nat),
            cnots@.len() <= c * (n + 3),
        decreases n - c,
    {
        let ghost lenc = cnots@.len() as int;
        let bitc: u128 = 1u128 << c;
        let mut pivot: usize = c;
        while pivot < n && (matrix[pivot] & bitc) == 0
            invariant
                c <= pivot <= n,
                c < n <= 128,
                matrix@.len() == n,
                bitc == 1u128 << (c as u128),
                forall|k: int| c <= k < pivot ==> !#[trigger] bit(matrix@[k], c as int),
            decreases n - pivot,
        {
            proof { crate::pathsum::lemma_bit_and(matrix@[pivot as int], c as u128); }
            pivot = pivot + 1;
        }
        let mut skip = false;
        if pivot == n {
            proof {
                if clean {
                    lemma_killed_at_gap(matrix@, n as nat, c as int);
                    lemma_not_realizable(input, n as nat, matrix@, cnots@, fix_word(matrix@, c as int, c as int), c as int);
                    wit = fix_word(matrix@, c as int, c as int);
                    wcol = c as int;
                    lemma_reverse_tape_undoes(m0, cnots@);
                    lemma_kills_ops(matrix@, wit, n as nat, cnots@.reverse());
                }
                clean = false;
            }
            pivot = 0;
            while pivot < c && (matrix[pivot] & bitc) == 0
                invariant
                    pivot <= c < n,
                    matrix@.len() == n,
                decreases c - pivot,
            {
                pivot = pivot + 1;
            }
            if pivot == c {
                skip = true;
            }
        } else {
            proof { crate::pathsum::lemma_bit_and(matrix@[pivot as int], c as u128); }
        }
        if !skip {
            let ghost before_swap = matrix@;
            if pivot != c {
                let ghost mm = matrix@;
                ge_push(&mut cnots, pivot, c, Ghost(m0), Ghost(n as nat));
                ge_push(&mut cnots, c, pivot, Ghost(m0), Ghost(n as nat));
                ge_push(&mut cnots, pivot, c, Ghost(m0), Ghost(n as nat));
                let a = matrix[pivot];
                let b = matrix[c];
                matrix.set(pivot, b);
                matrix.set(c, a);
                proof {
                    lemma_three_cx_swap(mm, pivot, c);
                    assert(matrix@ =~= mm.update(pivot as int, mm[c as int]).update(c as int, mm[pivot as int]));
                }
            }
            proof {
                if clean {
                    assert(bit(matrix@[c as int], c as int));
                    assert forall|i: int, j: int| 0 <= i < n && 0 <= j < c implies #[trigger] bit(matrix@[i], j) == (i == j) by {
                        if i == c as int {
                            assert(matrix@[i] == before_swap[pivot as int]);
                            assert(bit(before_swap[pivot as int], j) == (pivot as int == j));
                        } else if i == pivot as int {
                            assert(matrix@[i] == before_swap[c as int]);
                            assert(bit(before_swap[c as int], j) == (c as int == j));
                        } else {
                            assert(matrix@[i] == before_swap[i]);
                        }
                    }
                }
            }
            let ghost after_swap = matrix@;
            let mut rr: usize = 0;
            while rr < n
                invariant
                    n <= 128,
                    c < n,
                    rr <= n,
                    matrix@.len() == n,
                    m0.len() == n,
                    matrix@ == apply_ops(m0, cnots@),
                    ops_in_range(cnots@, n as nat),
                    ops_distinct(cnots@),
                    matrix@[c as int] == after_swap[c as int],
                    bitc == 1u128 << (c as u128),
                    after_swap.len() == n,
                    forall|i: int, j: int| 0 <= i < n && n <= j < 128 ==> !#[trigger] bit(after_swap[i], j),
                    forall|i: int, j: int| 0 <= i < n && n <= j < 128 ==> !#[trigger] bit(matrix@[i], j),
                    clean ==> echelon_upto(after_swap, n as nat, c as int) && bit(after_swap[c as int], c as int),
                    clean ==> forall|i: int, j: int| 0 <= i < n && 0 <= j < c ==> #[trigger] bit(matrix@[i], j) == (i == j),
                    clean ==> forall|i: int| 0 <= i < rr && i != c ==> !#[trigger] bit(matrix@[i], c as int),
                    forall|i: int| rr <= i < n ==> #[trigger] matrix@[i] == after_swap[i],
                    cnots@.len() <= lenc + 3 + rr,
                decreases n - rr,
            {
                proof { crate::pathsum::lemma_bit_and(matrix@[rr as int], c as u128); }
                if rr != c && (matrix[rr] & bitc) != 0 {
                    let ghost mm = matrix@;
                    let v = matrix[rr] ^ matrix[c];
                    matrix.set(rr, v);
                    ge_push(&mut cnots, c, rr, Ghost(m0), Ghost(n as nat));
                    assert(matrix@ =~= apply_op(mm, (c, rr)));
                    proof {
                        assert forall|j: int| 0 <= j < 128 implies #[trigger] bit(matrix@[rr as int], j)
                            == (bit(mm[rr as int], j) != bit(mm[c as int], j)) by {
                            crate::combination::lemma_bit_xor(mm[rr as int], mm[c as int], j as u128);
                        }
                    }
                }
                rr = rr + 1;
            }
            proof {
                if clean {
                    assert forall|i: int, j: int| 0 <= i < n && 0 <= j < c + 1 implies #[trigger] bit(matrix@[i], j) == (i == j) by {
                        if j == c as int && i != c as int {
                            assert(!bit(matrix@[i], c as int));
                        }
                    }
                }
            }
        }
        proof {
            assert(cnots@.len() <= lenc + 3 + n);
            assert((c + 1) * (n + 3) == c * (n + 3) + (n + 3)) by (nonlinear_arith);
        }
        c = c + 1;
    }
    let mut out: Vec<(usize, usize)> = Vec::new();
    let mut k: usize = cnots.len();
    while k > 0
        invariant
            k <= cnots@.len(),
            out@ == cnots@.subrange(k as int, cnots@.len() as int).reverse(),
        decreases k,
    {
        k = k - 1;
        out.push(cnots[k]);
        assert(out@ =~= cnots@.subrange(k as int, cnots@.len() as int).reverse());
    }
    proof {
        assert(cnots@.subrange(0, cnots@.len() as int) =~= cnots@);
        lemma_reverse_tape_undoes(m0, cnots@);
        assert(apply_ops(matrix@, out@) == m0);
        assert forall|q: int| 0 <= q < out@.len() implies (#[trigger] out@[q]).0 < n && out@[q].1 < n && out@[q].0 != out@[q].1 by {
            assert(out@[q] == cnots@[cnots@.len() - 1 - q]);
        }
        assert(matrix@.len() == n && apply_ops(matrix@, out@) == masked_rows(input, n as nat));
        assert(exists|f: Seq<u128>| f.len() == n && #[trigger] apply_ops(f, out@) == masked_rows(input, n as nat));
        if clean {
            let id = identity_rows(n as nat);
            assert forall|i: int| 0 <= i < n implies #[trigger] matrix@[i] == id[i] by {
                assert forall|j: int| 0 <= j < 128 implies #[trigger] bit(matrix@[i], j) == bit(id[i], j) by {
                    crate::parity_network::lemma_bit_single(i as u128, j as u128);
                }
                lemma_bits_equal(matrix@[i], id[i]);
            }
            assert(matrix@ =~= id);
            assert(cx_realizable(input, n as nat));
        } else {
            assert(kills(masked_rows(input, n as nat), wit, n as nat) && bit(wit, wcol));
        }
        if cx_realizable(input, n as nat) {
            let id = identity_rows(n as nat);
            assert forall|i: int| 0 <= i < n implies #[trigger] matrix@[i] == id[i] by {
                assert forall|j: int| 0 <= j < 128 implies #[trigger] bit(matrix@[i], j) == bit(id[i], j) by {
                    crate::parity_network::lemma_bit_single(i as u128, j as u128);
                }
                lemma_bits_equal(matrix@[i], id[i]);
            }
            assert(matrix@ =~= id);
        }
    }
    let ghost fin = matrix@;
    let res: Result<Vec<(usize, usize)>, String> = Ok(out);
    assert(res matches Ok(c) ==> apply_ops(fin, c@) == masked_rows(input, n as nat) && fin.len() == n);
    res
}

/// A copy of a word vector.
fn copy_rows(v: &Vec<u128>) -> (r: Vec<u128>)
    ensures
        r@ == v@,
{
    let mut out: Vec<u128> = Vec::new();
    let mut i: usize = 0;
    while i < v.len()
        invariant
            i <= v@.len(),
            out@ == v@.subrange(0, i as int),
        decreases v@.len() - i,
    {
        out.push(v[i]);
        assert(out@ =~= v@.subrange(0, i + 1));
        i = i + 1;
    }
    assert(out@ =~= v@);
    out
}

/// CNOT network for an `n x n` matrix over GF(2): Patel–Markov–Hayes,
/// with Gauss–Jordan when PMH cannot invert the matrix. Pairs are
/// `(control, target)`.
pub fn synthesize_cnot_matrix(matrix: Vec<u128>, num_qubits: usize) -> (r: Result<Vec<(usize, usize)>, String>)
    requires
        num_qubits <= 128,
        matrix@.len() >= num_qubits,
    ensures
        r is Ok,
        r matches Ok(c) ==> ops_in_range(c@, num_qubits as nat) && ops_distinct(c@),
        r matches Ok(c) ==> apply_ops(identity_rows(num_qubits as nat), c@) == masked_rows(matrix@, num_qubits as nat)
            || exists|f: Seq<u128>| f.len() == num_qubits
                && #[trigger] apply_ops(f, c@) == masked_rows(matrix@, num_qubits as nat),
        r matches Ok(c) ==> (cx_realizable(matrix@, num_qubits as nat)
            ==> apply_ops(identity_rows(num_qubits as nat), c@) == masked_rows(matrix@, num_qubits as nat)),
        r matches Ok(c) ==> c@.len() <= 4 * num_qubits * num_qubits,
        realizable_or_killed(matrix@, num_qubits as nat),
{
    assert(num_qubits * (num_qubits + 3) <= 4 * num_qubits * num_qubits) by (nonlinear_arith);
    let copy = copy_rows(&matrix);
    match synthesize_cnot_matrix_pmh(copy, num_qubits, None) {
        Ok(c) => {
            assert(apply_ops(identity_rows(num_qubits as nat), c@) == masked_rows(matrix@, num_qubits as nat));
            Ok(c)
        },
        Err(_) => synthesize_cnot_matrix_ge(matrix, num_qubits),
    }
}

} // verus!
