//! CX+RZ circuits as parity networks: what each wire carries as a GF(2)
//! parity of the inputs, and which parity every rotation acts on.
use vstd::prelude::*;
use vstd::multiset::Multiset;
use crate::gf2::{apply_op, bit, identity_rows};
use crate::bits::low_mask_spec;
use crate::pathsum::cx_text;
use crate::render::dec;

verus! {

/// A gate of a parity network: `Cx(c, t)` adds wire `c` into wire `t`;
/// `Rz(q, bits)` rotates wire `q` by the angle whose bit pattern is `bits`.
#[derive(Clone, Copy, Debug, PartialEq, Eq)]
pub enum NetGate {
    Cx(usize, usize),
    Rz(u32, u64),
}

/// Text of the instruction `rz q,bits`.
pub open spec fn rz_text(q: nat, bits: nat) -> Seq<char> {
    "rz "@ + dec(q) + ","@ + dec(bits)
}

/// The instruction text of a gate.
pub open spec fn gate_text(g: NetGate) -> Seq<char> {
    match g {
        NetGate::Cx(c, t) => cx_text((c, t)),
        NetGate::Rz(q, b) => rz_text(q as nat, b as nat),
    }
}

/// The instruction texts of a gate list.
pub open spec fn gate_texts(gs: Seq<NetGate>) -> Seq<Seq<char>> {
    gs.map_values(|g: NetGate| gate_text(g))
}

/// What the wires carry after `gs`, starting from `rows`.
pub open spec fn run_rows(rows: Seq<u128>, gs: Seq<NetGate>) -> Seq<u128>
    decreases gs.len(),
{
    if gs.len() == 0 {
        rows
    } else {
        let r = run_rows(rows, gs.drop_last());
        match gs.last() {
            NetGate::Cx(c, t) => apply_op(r, (c, t)),
            NetGate::Rz(_, _) => r,
        }
    }
}

/// The parity a wire carries (`0` off the end of the wires).
pub open spec fn wire(rows: Seq<u128>, q: int) -> u128 {
    if 0 <= q < rows.len() { rows[q] } else { 0 }
}

/// The rotations of `gs` in order: the parity of the rotated wire at that
/// point, with the angle bits.
pub open spec fn rotations(rows: Seq<u128>, gs: Seq<NetGate>) -> Seq<(u128, u64)>
    decreases gs.len(),
{
    if gs.len() == 0 {
        Seq::empty()
    } else {
        let prev = rotations(rows, gs.drop_last());
        match gs.last() {
            NetGate::Cx(_, _) => prev,
            NetGate::Rz(q, b) => prev.push((wire(run_rows(rows, gs.drop_last()), q as int), b)),
        }
    }
}

/// Number of CX gates.
pub open spec fn cx_count(gs: Seq<NetGate>) -> nat
    decreases gs.len(),
{
    if gs.len() == 0 {
        0
    } else {
        cx_count(gs.drop_last()) + if gs.last() is Cx { 1nat } else { 0nat }
    }
}

/// Every CX acts on two different wires below `n`.
pub open spec fn cx_in_range(gs: Seq<NetGate>, n: nat) -> bool {
    forall|i: int| 0 <= i < gs.len() ==> (#[trigger] gs[i] matches NetGate::Cx(c, t) ==> c < n && t < n && c != t)
}

/// Every gate is a rotation.
pub open spec fn all_rz(gs: Seq<NetGate>) -> bool {
    forall|i: int| 0 <= i < gs.len() ==> #[trigger] gs[i] is Rz
}

/// Every gate is a CX.
pub open spec fn all_cx(gs: Seq<NetGate>) -> bool {
    forall|i: int| 0 <= i < gs.len() ==> #[trigger] gs[i] is Cx
}

/// The rotations of an all-`RZ` list on fixed wires.
pub open spec fn rz_pairs(rows: Seq<u128>, gs: Seq<NetGate>) -> Seq<(u128, u64)>
    decreases gs.len(),
{
    if gs.len() == 0 {
        Seq::empty()
    } else {
        let prev = rz_pairs(rows, gs.drop_last());
        match gs.last() {
            NetGate::Rz(q, b) => prev.push((wire(rows, q as int), b)),
            NetGate::Cx(_, _) => prev,
        }
    }
}

/// `XOR` of the wires `i < k` that `y` selects.
pub open spec fn xor_rows_upto(rows: Seq<u128>, y: u128, k: int) -> u128
    decreases k,
{
    if k <= 0 {
        0
    } else {
        xor_rows_upto(rows, y, k - 1) ^ (if bit(y, k - 1) { rows[k - 1] } else { 0u128 })
    }
}

/// The parity that the wire combination `y` carries.
pub open spec fn xor_rows(rows: Seq<u128>, y: u128) -> u128 {
    xor_rows_upto(rows, y, rows.len() as int)
}

/// The parities and angles that dual terms stand for on the wires `rows`.
pub open spec fn originals(rows: Seq<u128>, s: Seq<(u128, u64)>) -> Multiset<(u128, u64)>
    decreases s.len(),
{
    if s.len() == 0 {
        Multiset::empty()
    } else {
        originals(rows, s.drop_last()).insert((xor_rows(rows, s.last().0), s.last().1))
    }
}

/// The dual update of `CX(c, t)`: bit `c` flips where bit `t` is set.
pub open spec fn dual_cx_spec(y: u128, c: usize, t: usize) -> u128 {
    if bit(y, t as int) { y ^ (1u128 << (c as u128)) } else { y }
}

pub proof fn lemma_gate_texts_push(gs: Seq<NetGate>, g: NetGate)
    ensures
        gate_texts(gs.push(g)) == gate_texts(gs).push(gate_text(g)),
{
    assert(gate_texts(gs.push(g)) =~= gate_texts(gs).push(gate_text(g)));
}

pub proof fn lemma_gate_texts_concat(a: Seq<NetGate>, b: Seq<NetGate>)
    ensures
        gate_texts(a + b) == gate_texts(a) + gate_texts(b),
{
    assert(gate_texts(a + b) =~= gate_texts(a) + gate_texts(b));
}

/// Appending rotations leaves the wires alone and adds their pairs.
pub proof fn lemma_append_rz(rows: Seq<u128>, a: Seq<NetGate>, b: Seq<NetGate>)
    requires
        all_rz(b),
    ensures
        run_rows(rows, a + b) == run_rows(rows, a),
        rotations(rows, a + b) == rotations(rows, a) + rz_pairs(run_rows(rows, a), b),
        cx_count(a + b) == cx_count(a),
    decreases b.len(),
{
    if b.len() == 0 {
        assert(a + b =~= a);
    } else {
        assert((a + b).drop_last() =~= a + b.drop_last());
        assert(all_rz(b.drop_last())) by {
            assert forall|i: int| 0 <= i < b.drop_last().len() implies #[trigger] b.drop_last()[i] is Rz by {
                assert(b.drop_last()[i] == b[i]);
            }
        }
        lemma_append_rz(rows, a, b.drop_last());
        assert(b[b.len() - 1] is Rz);
        assert((a + b).last() == b.last());
    }
}

/// Appending CX gates leaves the rotations alone.
pub proof fn lemma_append_cx(rows: Seq<u128>, a: Seq<NetGate>, b: Seq<NetGate>)
    requires
        all_cx(b),
    ensures
        rotations(rows, a + b) == rotations(rows, a),
        cx_count(a + b) == cx_count(a) + b.len(),
    decreases b.len(),
{
    if b.len() == 0 {
        assert(a + b =~= a);
    } else {
        assert((a + b).drop_last() =~= a + b.drop_last());
        assert(all_cx(b.drop_last())) by {
            assert forall|i: int| 0 <= i < b.drop_last().len() implies #[trigger] b.drop_last()[i] is Cx by {
                assert(b.drop_last()[i] == b[i]);
            }
        }
        lemma_append_cx(rows, a, b.drop_last());
        assert(b[b.len() - 1] is Cx);
        assert((a + b).last() == b.last());
    }
}

/// The multiset of a pushed pair list.
pub proof fn lemma_originals_concat(rows: Seq<u128>, a: Seq<(u128, u64)>, b: Seq<(u128, u64)>)
    ensures
        originals(rows, a + b) == originals(rows, a).add(originals(rows, b)),
    decreases b.len(),
{
    broadcast use vstd::multiset::group_multiset_axioms;
    if b.len() == 0 {
        assert(a + b =~= a);
        assert(originals(rows, a).add(Multiset::empty()) =~= originals(rows, a));
    } else {
        assert((a + b).drop_last() =~= a + b.drop_last());
        lemma_originals_concat(rows, a, b.drop_last());
        assert(originals(rows, a + b) =~= originals(rows, a).add(originals(rows, b)));
    }
}

proof fn lemma_bit_zero(j: int)
    requires
        0 <= j < 128,
    ensures
        !bit(0, j),
{
    crate::gf2::lemma_zero_bits(j as u128);
}

pub(crate) proof fn lemma_bit_single(q: u128, j: u128)
    requires
        q < 128,
        j < 128,
    ensures
        bit(1u128 << q, j as int) <==> j == q,
{
    assert((((1u128 << q) >> j) & 1 == 1) <==> j == q) by (bit_vector)
        requires q < 128, j < 128;
}

pub(crate) proof fn lemma_bit_toggle(y: u128, c: u128, j: u128)
    requires
        c < 128,
        j < 128,
    ensures
        bit(y ^ (1u128 << c), j as int) <==> (bit(y, j as int) != (j == c)),
{
    assert((((y ^ (1u128 << c)) >> j) & 1 == 1) <==> (((y >> j) & 1 == 1) != (j == c))) by (bit_vector)
        requires c < 128, j < 128;
}

/// XOR algebra on words.
pub(crate) proof fn lemma_xor_algebra()
    by (bit_vector)
    ensures
        forall|a: u128| #[trigger] (a ^ 0u128) == a,
        forall|a: u128| #[trigger] (0u128 ^ a) == a,
        forall|a: u128| #[trigger] (a ^ a) == 0u128,
        forall|a: u128, b: u128| #[trigger] ((a ^ b) ^ a) == b,
        forall|a: u128, b: u128| #[trigger] ((a ^ b) ^ b) == a,
        forall|a: u128, b: u128| #[trigger] (a ^ b) == (b ^ a),
        forall|a: u128, b: u128, x: u128, y: u128| #[trigger] ((a ^ x) ^ (b ^ y)) == ((a ^ b) ^ (x ^ y)),
        forall|a: u128, b: u128| (a ^ b) == 0u128 ==> a == b,
{
}

/// The empty combination carries nothing.
pub proof fn lemma_xor_rows_zero(rows: Seq<u128>, k: int)
    requires
        rows.len() <= 128,
        k <= rows.len(),
    ensures
        xor_rows_upto(rows, 0, k) == 0,
    decreases k,
{
    if k > 0 {
        lemma_xor_rows_zero(rows, k - 1);
        lemma_bit_zero(k - 1);
        lemma_xor_algebra();
    }
}

/// A single wire carries its own parity.
pub proof fn lemma_xor_rows_single(rows: Seq<u128>, q: u128, k: int)
    requires
        rows.len() <= 128,
        k <= rows.len(),
        q < 128,
    ensures
        xor_rows_upto(rows, 1u128 << q, k) == if q < k { rows[q as int] } else { 0u128 },
    decreases k,
{
    if k > 0 {
        lemma_xor_rows_single(rows, q, k - 1);
        lemma_bit_single(q, (k - 1) as u128);
        lemma_xor_algebra();
    }
}

/// The term that wire `i` adds to a combination before and after
/// `CX(c, t)` and its dual update differ by `d` exactly on the wires `c` and
/// `t`.
proof fn lemma_xor_rows_cx_term(rows: Seq<u128>, y: u128, c: usize, t: usize, i: int)
    requires
        rows.len() <= 128,
        c < rows.len(),
        t < rows.len(),
        c != t,
        0 <= i < rows.len(),
    ensures
        ({
            let d = if bit(y, t as int) { rows[c as int] } else { 0u128 };
            let r2 = apply_op(rows, (c, t));
            let y2 = dual_cx_spec(y, c, t);
            let x2 = if bit(y2, i) { r2[i] } else { 0u128 };
            let x1 = if bit(y, i) { rows[i] } else { 0u128 };
            (x2 ^ x1) == (if i == t as int || i == c as int { d } else { 0u128 })
        }),
{
    let r2 = apply_op(rows, (c, t));
    let y2 = dual_cx_spec(y, c, t);
    lemma_bit_toggle(y, c as u128, i as u128);
    lemma_bit_toggle(y, c as u128, t as u128);
    let x2 = if bit(y2, i) { r2[i] } else { 0u128 };
    let x1 = if bit(y, i) { rows[i] } else { 0u128 };
    if i == t as int {
        assert(bit(y2, i) == bit(y, i));
        if bit(y, t as int) {
            let u = rows[t as int];
            let v = rows[c as int];
            assert(x2 == u ^ v && x1 == u);
            assert((u ^ v) ^ u == v) by { lemma_xor_algebra(); }
        } else {
            assert(0u128 ^ 0u128 == 0u128) by { lemma_xor_algebra(); }
        }
    } else if i == c as int {
        let v = rows[c as int];
        assert(r2[i] == v);
        assert(v ^ 0u128 == v && 0u128 ^ v == v && v ^ v == 0u128 && 0u128 ^ 0u128 == 0u128) by {
            lemma_xor_algebra();
        }
    } else {
        assert(bit(y2, i) == bit(y, i));
        assert(r2[i] == rows[i]);
        assert(x1 ^ x1 == 0u128) by { lemma_xor_algebra(); }
    }
}

#[verifier::spinoff_prover]
proof fn lemma_xor_rows_cx_upto(rows: Seq<u128>, y: u128, c: usize, t: usize, k: int)
    requires
        rows.len() <= 128,
        c < rows.len(),
        t < rows.len(),
        c != t,
        0 <= k <= rows.len(),
    ensures
        ({
            let d = if bit(y, t as int) { rows[c as int] } else { 0u128 };
            xor_rows_upto(apply_op(rows, (c, t)), dual_cx_spec(y, c, t), k) ^ xor_rows_upto(rows, y, k)
                == (if k > t { d } else { 0u128 }) ^ (if k > c { d } else { 0u128 })
        }),
    decreases k,
{
    let d = if bit(y, t as int) { rows[c as int] } else { 0u128 };
    let r2 = apply_op(rows, (c, t));
    let y2 = dual_cx_spec(y, c, t);
    if k == 0 {
        assert(0u128 ^ 0u128 == 0u128) by { lemma_xor_algebra(); }
    } else {
        lemma_xor_rows_cx_upto(rows, y, c, t, k - 1);
        let i = k - 1;
        let a2 = xor_rows_upto(r2, y2, k - 1);
        let a1 = xor_rows_upto(rows, y, k - 1);
        let x2 = if bit(y2, i) { r2[i] } else { 0u128 };
        let x1 = if bit(y, i) { rows[i] } else { 0u128 };
        let p = if k - 1 > t { d } else { 0u128 };
        let q = if k - 1 > c { d } else { 0u128 };
        let e = if i == t as int || i == c as int { d } else { 0u128 };
        assert(a2 ^ a1 == p ^ q);
        assert(xor_rows_upto(r2, y2, k) == a2 ^ x2);
        assert(xor_rows_upto(rows, y, k) == a1 ^ x1);
        lemma_xor_rows_cx_term(rows, y, c, t, i);
        assert(x2 ^ x1 == e);
        assert((a2 ^ x2) ^ (a1 ^ x1) == (a2 ^ a1) ^ (x2 ^ x1)) by { lemma_xor_algebra(); }
        let target = (if k > t { d } else { 0u128 }) ^ (if k > c { d } else { 0u128 });
        assert((p ^ q) ^ e == target) by {
            lemma_xor_algebra();
            if i == t as int {
                assert(p == 0u128);
                assert(0u128 ^ q == q);
                assert(q ^ d == d ^ q);
            } else if i == c as int {
                assert(q == 0u128);
                assert(p ^ 0u128 == p);
            } else {
                assert((p ^ q) ^ 0u128 == p ^ q);
            }
        }
    }
}

/// A CX on the wires and the matching dual update keep the parity that a
/// combination carries.
pub proof fn lemma_xor_rows_cx(rows: Seq<u128>, y: u128, c: usize, t: usize)
    requires
        rows.len() <= 128,
        c < rows.len(),
        t < rows.len(),
        c != t,
    ensures
        xor_rows(apply_op(rows, (c, t)), dual_cx_spec(y, c, t)) == xor_rows(rows, y),
{
    lemma_xor_rows_cx_upto(rows, y, c, t, rows.len() as int);
    let d = if bit(y, t as int) { rows[c as int] } else { 0u128 };
    let a = xor_rows(apply_op(rows, (c, t)), dual_cx_spec(y, c, t));
    let b = xor_rows(rows, y);
    lemma_xor_algebra();
    assert(d ^ d == 0u128);
    assert(a ^ b == 0u128);
}

/// On the identity wires a combination within the first `n` wires carries
/// itself.
pub proof fn lemma_xor_rows_identity(n: nat, y: u128, k: int)
    requires
        n <= 128,
        0 <= k <= n,
    ensures
        xor_rows_upto(identity_rows(n), y, k) == y & low_mask_spec(k as nat),
    decreases k,
{
    let id = identity_rows(n);
    if k == 0 {
        assert(1u128 << 0u128 == 1u128 && y & 0u128 == 0u128) by (bit_vector);
        assert(low_mask_spec(0) == 0);
    } else {
        lemma_xor_rows_identity(n, y, k - 1);
        let j = (k - 1) as u128;
        assert(id[k - 1] == 1u128 << j);
        let lo = low_mask_spec((k - 1) as nat);
        let hi = low_mask_spec(k as nat);
        assert(j == ((k - 1) as nat) as u128);
        assert(1u128 << j >= 1u128) by (bit_vector) requires j < 128;
        assert(lo == ((1u128 << j) - 1) as u128);
        if k >= 128 {
            assert(hi == !0u128);
            assert((y & lo) ^ (if (y >> j) & 1 == 1 { 1u128 << j } else { 0u128 }) == y & hi) by (bit_vector)
                requires j == 127, lo == ((1u128 << j) - 1) as u128, hi == !0u128;
        } else {
            assert((j + 1) as u128 == (k as nat) as u128);
            assert(1u128 << ((j + 1) as u128) >= 1u128) by (bit_vector) requires j < 127;
            assert(hi == ((1u128 << ((j + 1) as u128)) - 1) as u128);
            assert((y & lo) ^ (if (y >> j) & 1 == 1 { 1u128 << j } else { 0u128 }) == y & hi) by (bit_vector)
                requires j < 127, lo == ((1u128 << j) - 1) as u128, hi == ((1u128 << ((j + 1) as u128)) - 1) as u128;
        }
    }
}

/// The rotations of two all-`RZ` lists one after the other.
pub proof fn lemma_rz_pairs_concat(rows: Seq<u128>, a: Seq<NetGate>, b: Seq<NetGate>)
    ensures
        rz_pairs(rows, a + b) == rz_pairs(rows, a) + rz_pairs(rows, b),
    decreases b.len(),
{
    if b.len() == 0 {
        assert(a + b =~= a);
        assert(rz_pairs(rows, a) + rz_pairs(rows, b) =~= rz_pairs(rows, a));
    } else {
        assert((a + b).drop_last() =~= a + b.drop_last());
        assert((a + b).last() == b.last());
        lemma_rz_pairs_concat(rows, a, b.drop_last());
        match b.last() {
            NetGate::Rz(q, bb) => {
                assert(rz_pairs(rows, a + b) =~= rz_pairs(rows, a) + rz_pairs(rows, b));
            },
            NetGate::Cx(_, _) => {},
        }
    }
}

/// Dual updates of a whole list keep what it stands for.
pub proof fn lemma_originals_dual_cx(rows: Seq<u128>, a: Seq<(u128, u64)>, b: Seq<(u128, u64)>, c: usize, t: usize)
    requires
        rows.len() <= 128,
        c < rows.len(),
        t < rows.len(),
        c != t,
        a.len() == b.len(),
        forall|i: int| 0 <= i < a.len() ==> (#[trigger] b[i]).0 == dual_cx_spec(a[i].0, c, t) && b[i].1 == a[i].1,
    ensures
        originals(apply_op(rows, (c, t)), b) == originals(rows, a),
    decreases a.len(),
{
    if a.len() > 0 {
        let n = a.len() - 1;
        assert forall|i: int| 0 <= i < a.drop_last().len() implies (#[trigger] b.drop_last()[i]).0
            == dual_cx_spec(a.drop_last()[i].0, c, t) && b.drop_last()[i].1 == a.drop_last()[i].1 by {
            assert(b.drop_last()[i] == b[i] && a.drop_last()[i] == a[i]);
        }
        lemma_originals_dual_cx(rows, a.drop_last(), b.drop_last(), c, t);
        assert(b[n] == b.last() && a[n] == a.last());
        lemma_xor_rows_cx(rows, a.last().0, c, t);
    }
}

/// On the identity wires, combinations of the first `n` wires stand for
/// themselves.
pub proof fn lemma_originals_identity(n: nat, s: Seq<(u128, u64)>)
    requires
        n <= 128,
        forall|i: int| 0 <= i < s.len() ==> (#[trigger] s[i]).0 & !low_mask_spec(n) == 0,
    ensures
        originals(identity_rows(n), s) == s.to_multiset(),
    decreases s.len(),
{
    broadcast use vstd::seq_lib::group_to_multiset_ensures;
    if s.len() == 0 {
        vstd::multiset::lemma_multiset_empty_len(s.to_multiset());
        assert(s.to_multiset() =~= Multiset::<(u128, u64)>::empty());
    } else {
        assert forall|i: int| 0 <= i < s.drop_last().len() implies (#[trigger] s.drop_last()[i]).0 & !low_mask_spec(n) == 0 by {
            assert(s.drop_last()[i] == s[i]);
        }
        lemma_originals_identity(n, s.drop_last());
        let y = s.last().0;
        assert(s[s.len() - 1] == s.last());
        lemma_xor_rows_identity(n, y, n as int);
        let m = low_mask_spec(n);
        assert(y & !m == 0 ==> y & m == y) by (bit_vector);
        assert(identity_rows(n).len() == n);
        assert(s.drop_last().push(s.last()) =~= s);
    }
}

} // verus!
