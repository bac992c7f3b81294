//! Parity-network resynthesis (Amy–Azimzadeh–Mosca GraySynth) on parity
//! masks whose rotation angles are carried as opaque bit patterns, with a
//! Patel–Markov–Hayes residual to the target linear map.
use vstd::prelude::*;
use vstd::string::StringExecFns;
use crate::bits::{lowest_bit, bit_at};
use vstd::multiset::Multiset;
use crate::gf2::{bit, synthesize_cnot_matrix, apply_op, identity_rows, ops_in_range, ops_distinct};
use crate::pathsum::cx_text;
use crate::render::push_decimal;
use crate::steiner::{texts, saturated, lemma_texts_push};
use crate::parity_network::{NetGate, rz_text, gate_text, gate_texts, run_rows, rotations, cx_count, cx_in_range,
    all_rz, all_cx, rz_pairs, wire, xor_rows, originals, dual_cx_spec, lemma_gate_texts_push, lemma_gate_texts_concat,
    lemma_append_rz, lemma_append_cx, lemma_originals_concat, lemma_xor_rows_zero, lemma_xor_rows_single,
    lemma_xor_rows_cx, lemma_originals_dual_cx, lemma_rz_pairs_concat, lemma_originals_identity, lemma_xor_algebra};
use crate::bits::low_mask_spec;
use crate::combination::{lemma_xor_rows_linear, lemma_xor_rows_same_bits, lemma_xor_rows_masked, cx_pairs,
    lemma_run_rows_cx, lemma_run_rows_concat, lemma_apply_ops_combines};
use crate::gf2::{lemma_zero_bits, lemma_set_bit, masked_rows, row_mask_spec, cx_realizable, realizable_or_killed};

verus! {

fn rz_string(q: u32, bits: u64) -> (r: String)
    ensures
        r@ == rz_text(q as nat, bits as nat),
{
    let mut s = String::from_str("rz ");
    push_decimal(&mut s, q as u128);
    s.append(",");
    push_decimal(&mut s, bits as u128);
    s
}

fn cx_instruction(c: usize, t: usize) -> (r: String)
    ensures
        r@ == cx_text((c, t)),
{
    let mut s = String::from_str("cx ");
    push_decimal(&mut s, c as u128);
    s.append(",");
    push_decimal(&mut s, t as u128);
    s
}

/// Number of set bits among the lowest `k`.
pub open spec fn pop_upto(x: u128, k: nat) -> nat
    decreases k,
{
    if k == 0 {
        0
    } else {
        pop_upto(x, (k - 1) as nat) + if bit(x, k - 1) { 1nat } else { 0nat }
    }
}

/// Total weight of a list of dual parities.
pub open spec fn dual_weight(s: Seq<(u128, u64)>) -> nat
    decreases s.len(),
{
    if s.len() == 0 {
        0
    } else {
        dual_weight(s.drop_last()) + pop_upto(s.last().0, 128)
    }
}

proof fn lemma_toggle_bit(x: u128, j: u128, b: u128)
    requires
        j < 128,
        b < 128,
    ensures
        ((x ^ (1u128 << j)) >> b) & 1 == 1 <==> (((x >> b) & 1 == 1) != (b == j)),
{
    crate::parity_network::lemma_bit_toggle(x, j, b);
}

proof fn lemma_pop_toggle(x: u128, j: nat, k: nat)
    requires
        j < 128,
        k <= 128,
        bit(x, j as int),
    ensures
        pop_upto(x ^ (1u128 << (j as u128)), k) + (if j < k { 1nat } else { 0nat }) == pop_upto(x, k),
    decreases k,
{
    if k > 0 {
        lemma_pop_toggle(x, j, (k - 1) as nat);
        lemma_toggle_bit(x, j as u128, (k - 1) as u128);
    }
}

proof fn lemma_dual_weight_concat(a: Seq<(u128, u64)>, b: Seq<(u128, u64)>)
    ensures
        dual_weight(a + b) == dual_weight(a) + dual_weight(b),
    decreases b.len(),
{
    if b.len() == 0 {
        assert(a + b =~= a);
    } else {
        assert((a + b).drop_last() =~= a + b.drop_last());
        lemma_dual_weight_concat(a, b.drop_last());
    }
}

/// Stack weight of a frame with `u` unused wires: `2^(u+1) - 1`.
pub open spec fn frame_weight(u: nat) -> nat
    decreases u,
{
    if u == 0 { 1 } else { 2 * frame_weight((u - 1) as nat) + 1 }
}

proof fn lemma_frame_weight_mono(a: nat, b: nat)
    requires
        a <= b,
    ensures
        frame_weight(a) <= frame_weight(b),
    decreases b,
{
    if a < b {
        lemma_frame_weight_mono(a, (b - 1) as nat);
    }
}

/// One pending frame of the GraySynth stack: dual parities with their
/// angle bits, the wires not yet expanded, and the designated target.
pub struct GrayFrame {
    pub s: Vec<(u128, u64)>,
    pub unused: Vec<usize>,
    pub target: Option<usize>,
}

/// Sum of the frame weights of a stack.
pub open spec fn stack_weight(st: Seq<GrayFrame>) -> nat
    decreases st.len(),
{
    if st.len() == 0 {
        0
    } else {
        stack_weight(st.drop_last()) + frame_weight(st.last().unused@.len())
    }
}

proof fn lemma_stack_weight_same(a: Seq<GrayFrame>, b: Seq<GrayFrame>)
    requires
        a.len() == b.len(),
        forall|i: int| 0 <= i < a.len() ==> (#[trigger] a[i]).unused@.len() == b[i].unused@.len(),
    ensures
        stack_weight(a) == stack_weight(b),
    decreases a.len(),
{
    if a.len() > 0 {
        lemma_stack_weight_same(a.drop_last(), b.drop_last());
    }
}

/// A single nonzero bit below 128 is that bit.
proof fn lemma_single_bit(y: u128, q: u32)
    requires
        y != 0,
        y & ((y - 1) as u128) == 0,
        q < 128,
        y & (1u128 << (q as u128)) == 1u128 << (q as u128),
    ensures
        y == 1u128 << (q as u128),
{
    let qq = q as u128;
    assert(y == 1u128 << qq) by (bit_vector)
        requires y != 0, y & ((y - 1) as u128) == 0, qq < 128, y & (1u128 << qq) == 1u128 << qq;
}

/// Place an `RZ` on every dual parity of weight 1 (that wire currently holds
/// it) and drop those, together with zero parities. On the wires `rows`,
/// the parities the duals stood for are the kept ones, the rotations placed
/// and the dropped zero parities.
fn gray_place_ready(s: &mut Vec<(u128, u64)>, instructions: &mut Vec<String>, Ghost(rows): Ghost<Seq<u128>>)
    -> (r: Ghost<(Seq<NetGate>, Multiset<(u128, u64)>)>)
    requires
        rows.len() <= 128,
    ensures
        dual_weight(final(s)@) <= dual_weight(old(s)@),
        forall|k: int| 0 <= k < final(s)@.len() ==> old(s)@.contains(#[trigger] final(s)@[k]),
        forall|k: int| 0 <= k < final(s)@.len() ==> (#[trigger] final(s)@[k]).0 != 0,
        forall|k: int| 0 <= k < final(s)@.len() ==> !crate::bits::zero_or_pow2((#[trigger] final(s)@[k]).0),
        all_rz(r@.0),
        texts(final(instructions)@) == texts(old(instructions)@) + gate_texts(r@.0),
        forall|x: (u128, u64)| r@.1.count(x) > 0 ==> x.0 == 0,
        originals(rows, old(s)@) == originals(rows, final(s)@).add(rz_pairs(rows, r@.0).to_multiset()).add(r@.1),
{
    broadcast use vstd::multiset::group_multiset_axioms, vstd::seq_lib::group_to_multiset_ensures;
    let ghost s0 = s@;
    let ghost ins0 = texts(instructions@);
    let ghost mut placed: Seq<NetGate> = Seq::empty();
    let ghost mut dropped: Multiset<(u128, u64)> = Multiset::empty();
    let mut kept: Vec<(u128, u64)> = Vec::new();
    let mut i: usize = 0;
    proof {
        assert(s0.subrange(0, 0) =~= Seq::<(u128, u64)>::empty());
        assert(rz_pairs(rows, placed).to_multiset() =~= Multiset::<(u128, u64)>::empty());
        assert(originals(rows, kept@).add(Multiset::empty()).add(Multiset::empty()) =~= Multiset::<(u128, u64)>::empty());
        assert(gate_texts(placed) =~= Seq::<Seq<char>>::empty());
        assert(ins0 + gate_texts(placed) =~= ins0);
    }
    while i < s.len()
        invariant
            rows.len() <= 128,
            s@ == s0,
            i <= s0.len(),
            dual_weight(kept@) <= dual_weight(s0.subrange(0, i as int)),
            forall|k: int| 0 <= k < kept@.len() ==> s0.contains(#[trigger] kept@[k]),
            forall|k: int| 0 <= k < kept@.len() ==> (#[trigger] kept@[k]).0 != 0,
            forall|k: int| 0 <= k < kept@.len() ==> !crate::bits::zero_or_pow2((#[trigger] kept@[k]).0),
            all_rz(placed),
            texts(instructions@) == ins0 + gate_texts(placed),
            forall|x: (u128, u64)| dropped.count(x) > 0 ==> x.0 == 0,
            originals(rows, s0.subrange(0, i as int)) == originals(rows, kept@).add(rz_pairs(rows, placed).to_multiset()).add(dropped),
        decreases s0.len() - i,
    {
        let (y, angle) = s[i];
        let ghost orig = (xor_rows(rows, y), angle);
        proof {
            assert(s0.subrange(0, i + 1).drop_last() =~= s0.subrange(0, i as int));
            assert(s0.subrange(0, i + 1).last() == s0[i as int]);
            assert(originals(rows, s0.subrange(0, i + 1)) == originals(rows, s0.subrange(0, i as int)).insert(orig));
        }
        if y == 0 {
            proof {
                lemma_xor_rows_zero(rows, rows.len() as int);
                let d2 = dropped.insert(orig);
                assert(originals(rows, s0.subrange(0, i + 1)) =~= originals(rows, kept@).add(rz_pairs(rows, placed).to_multiset()).add(d2));
                dropped = d2;
            }
        } else if crate::bits::is_zero_or_pow2(y) {
            let q = lowest_bit(y);
            let t = rz_string(q, angle);
            proof {
                lemma_single_bit(y, q);
                lemma_xor_rows_single(rows, q as u128, rows.len() as int);
                assert(orig == (wire(rows, q as int), angle));
                let p2 = placed.push(NetGate::Rz(q, angle));
                assert(p2.drop_last() =~= placed);
                assert(rz_pairs(rows, p2) == rz_pairs(rows, placed).push(orig));
                vstd::seq_lib::to_multiset_build(rz_pairs(rows, placed), orig);
                assert(rz_pairs(rows, p2).to_multiset() =~= rz_pairs(rows, placed).to_multiset().insert(orig));
                lemma_gate_texts_push(placed, NetGate::Rz(q, angle));
                lemma_texts_push(instructions@, t);
                assert(all_rz(p2)) by {
                    assert forall|k: int| 0 <= k < p2.len() implies #[trigger] p2[k] is Rz by {
                        if k < placed.len() { assert(p2[k] == placed[k]); }
                    }
                }
                assert(originals(rows, s0.subrange(0, i + 1)) =~= originals(rows, kept@).add(rz_pairs(rows, p2).to_multiset()).add(dropped));
                placed = p2;
            }
            instructions.push(t);
        } else {
            let ghost before = kept@;
            kept.push((y, angle));
            proof {
                assert(kept@.drop_last() =~= before);
                assert forall|k: int| 0 <= k < kept@.len() implies s0.contains(#[trigger] kept@[k]) by {
                    if k < before.len() { assert(kept@[k] == before[k]); } else { assert(s0[i as int] == kept@[k]); }
                }
                assert(originals(rows, kept@) == originals(rows, before).insert(orig));
                assert(originals(rows, s0.subrange(0, i + 1)) =~= originals(rows, kept@).add(rz_pairs(rows, placed).to_multiset()).add(dropped));
            }
        }
        i = i + 1;
    }
    assert(s0.subrange(0, s0.len() as int) =~= s0);
    *s = kept;
    Ghost((placed, dropped))
}

/// Dual update for `CX(c, t)`: `y_c ^= y_t` on every parity, i.e. bit `c`
/// flips in each parity holding bit `t`.
fn gray_dual_cx(s: &mut Vec<(u128, u64)>, c: usize, t: usize)
    requires
        c < 128,
        t < 128,
    ensures
        final(s)@.len() == old(s)@.len(),
        forall|i: int| 0 <= i < old(s)@.len() ==> (#[trigger] final(s)@[i]).0 == if bit(old(s)@[i].0, t as int) {
            old(s)@[i].0 ^ (1u128 << (c as u128))
        } else {
            old(s)@[i].0
        },
        forall|i: int| 0 <= i < old(s)@.len() ==> (#[trigger] final(s)@[i]).1 == old(s)@[i].1,
{
    let tmask = bit_at(t as u32);
    let cmask = bit_at(c as u32);
    let mut i: usize = 0;
    while i < s.len()
        invariant
            c < 128,
            t < 128,
            tmask == 1u128 << (t as u128),
            cmask == 1u128 << (c as u128),
            s@.len() == old(s)@.len(),
            forall|k: int| 0 <= k < i ==> (#[trigger] s@[k]).0 == if bit(old(s)@[k].0, t as int) {
                old(s)@[k].0 ^ (1u128 << (c as u128))
            } else {
                old(s)@[k].0
            },
            forall|k: int| 0 <= k < i ==> (#[trigger] s@[k]).1 == old(s)@[k].1,
            forall|k: int| i <= k < s@.len() ==> #[trigger] s@[k] == old(s)@[k],
        decreases s@.len() - i,
    {
        let (y, a) = s[i];
        proof { lemma_and_bit(y, t as u128); }
        if (y & tmask) != 0 {
            s.set(i, (y ^ cmask, a));
        }
        i = i + 1;
    }
}

proof fn lemma_and_bit(x: u128, c: u128)
    requires
        c < 128,
    ensures
        ((x & (1u128 << c)) != 0) == ((x >> c) & 1 == 1),
{
    crate::pathsum::lemma_bit_and(x, c);
}

/// A dual update on parities that all hold bit `j` never raises the total
/// weight, and lowers it when some parity holds bit `t`.
proof fn lemma_dual_cx_weight(a: Seq<(u128, u64)>, b: Seq<(u128, u64)>, j: nat, t: nat)
    requires
        j < 128,
        t < 128,
        a.len() == b.len(),
        forall|i: int| 0 <= i < a.len() ==> bit((#[trigger] a[i]).0, j as int),
        forall|i: int| 0 <= i < a.len() ==> (#[trigger] b[i]).0 == if bit(a[i].0, t as int) {
            a[i].0 ^ (1u128 << (j as u128))
        } else {
            a[i].0
        },
    ensures
        dual_weight(b) <= dual_weight(a),
        (exists|i: int| 0 <= i < a.len() && bit((#[trigger] a[i]).0, t as int)) ==> dual_weight(b) < dual_weight(a),
    decreases a.len(),
{
    if a.len() > 0 {
        let a0 = a.drop_last();
        let b0 = b.drop_last();
        assert forall|i: int| 0 <= i < a0.len() implies bit((#[trigger] a0[i]).0, j as int) by {
            assert(a0[i] == a[i]);
        }
        assert forall|i: int| 0 <= i < a0.len() implies (#[trigger] b0[i]).0 == if bit(a0[i].0, t as int) {
            a0[i].0 ^ (1u128 << (j as u128))
        } else {
            a0[i].0
        } by {
            assert(a0[i] == a[i] && b0[i] == b[i]);
        }
        lemma_dual_cx_weight(a0, b0, j, t);
        let x = a.last().0;
        assert(bit(a[a.len() - 1].0, j as int));
        if bit(x, t as int) {
            lemma_pop_toggle(x, j, 128);
        }
        if exists|i: int| 0 <= i < a.len() && bit((#[trigger] a[i]).0, t as int) {
            let w = choose|i: int| 0 <= i < a.len() && bit((#[trigger] a[i]).0, t as int);
            if w < a.len() - 1 {
                assert(a0[w] == a[w]);
                assert(bit(a0[w].0, t as int));
            }
        }
    }
}

/// A copy of a list of dual parities.
fn copy_duals(v: &Vec<(u128, u64)>) -> (r: Vec<(u128, u64)>)
    ensures
        r@ == v@,
{
    let mut out: Vec<(u128, u64)> = Vec::new();
    let mut i: usize = 0;
    while i < v.len()
        invariant
            i <= v@.len(),
            out@ == v@.subrange(0, i as int),
        decreases v@.len() - i,
    {
        out.push(v[i]);
        assert(out@ =~= v@.subrange(0, i + 1));
        i = i + 1;
    }
    assert(out@ =~= v@);
    out
}

/// A copy of a list of wire indices.
fn copy_wires(v: &Vec<usize>) -> (r: Vec<usize>)
    ensures
        r@ == v@,
{
    let mut out: Vec<usize> = Vec::new();
    let mut i: usize = 0;
    while i < v.len()
        invariant
            i <= v@.len(),
            out@ == v@.subrange(0, i as int),
        decreases v@.len() - i,
    {
        out.push(v[i]);
        assert(out@ =~= v@.subrange(0, i + 1));
        i = i + 1;
    }
    assert(out@ =~= v@);
    out
}

/// Solve `XOR_{i in combo} rows[i] == m` over GF(2); the combination is a
/// mask over wire indices.
fn gray_solve(rows: &Vec<u128>, m: u128, n: usize) -> (r: Option<u128>)
    requires
        n <= 128,
        rows@.len() >= n,
    ensures
        r matches Some(c) ==> xor_rows(rows@.subrange(0, n as int), c) == m,
        rows@.subrange(0, n as int) == identity_rows(n as nat) && m & !low_mask_spec(n as nat) == 0 ==> r is Some,
{
    let ghost big = rows@.subrange(0, n as int);
    let ghost idr = big == identity_rows(n as nat);
    let mut work: Vec<(u128, u128)> = Vec::new();
    let mut i: usize = 0;
    while i < n
        invariant
            i <= n <= 128,
            rows@.len() >= n,
            big == rows@.subrange(0, n as int),
            idr == (big == identity_rows(n as nat)),
            work@.len() == i,
            forall|k: int| 0 <= k < i ==> xor_rows(big, (#[trigger] work@[k]).1) == work@[k].0,
            idr ==> forall|k: int| 0 <= k < i ==> #[trigger] work@[k] == (1u128 << (k as u128), 1u128 << (k as u128)),
        decreases n - i,
    {
        let unit = bit_at(i as u32);
        proof {
            lemma_xor_rows_single(big, i as u128, n as int);
            assert(big[i as int] == rows@[i as int]);
        }
        let ghost w0 = work@;
        work.push((rows[i], unit));
        proof {
            assert forall|k: int| 0 <= k < i + 1 implies xor_rows(big, (#[trigger] work@[k]).1) == work@[k].0 by {
                if k < i { assert(work@[k] == w0[k]); }
            }
            if idr {
                assert forall|k: int| 0 <= k < i + 1 implies #[trigger] work@[k] == (1u128 << (k as u128), 1u128 << (k as u128)) by {
                    if k < i { assert(work@[k] == w0[k]); } else { assert(big[k] == rows@[k]); }
                }
            }
        }
        i = i + 1;
    }
    let mut rhs = m;
    let mut rhs_combo: u128 = 0;
    proof {
        lemma_xor_rows_zero(big, n as int);
        assert(m ^ m == 0u128) by { lemma_xor_algebra(); }
    }
    let mut used: Vec<bool> = Vec::new();
    let mut k: usize = 0;
    while k < n
        invariant
            k <= n,
            used@.len() == k,
            forall|q: int| 0 <= q < k ==> !#[trigger] used@[q],
        decreases n - k,
    {
        used.push(false);
        k = k + 1;
    }
    proof {
        crate::bits::lemma_word_ids(m);
        crate::bits::lemma_unit_bits(m, 0, 0, 0, 1);
        assert(low_mask_spec(0) == 0u128);
    }
    let mut b: usize = 0;
    while b < n
        invariant
            n <= 128,
            b <= n,
            work@.len() == n,
            used@.len() == n,
            big.len() == n,
            forall|k: int| 0 <= k < n ==> xor_rows(big, (#[trigger] work@[k]).1) == work@[k].0,
            xor_rows(big, rhs_combo) == m ^ rhs,
            idr ==> forall|k: int| 0 <= k < n ==> #[trigger] work@[k] == (1u128 << (k as u128), 1u128 << (k as u128)),
            idr ==> forall|k: int| 0 <= k < n ==> #[trigger] used@[k] == (k < b),
            idr ==> rhs == m & !low_mask_spec(b as nat),
        decreases n - b,
    {
        let bmask = bit_at(b as u32);
        let mut pivot: Option<usize> = None;
        let mut i: usize = 0;
        while i < n
            invariant_except_break
                idr ==> pivot is None && i <= b,
            invariant
                i <= n <= 128,
                b < n,
                bmask == 1u128 << (b as u128),
                work@.len() == n,
                used@.len() == n,
                pivot matches Some(p) ==> p < n,
                idr ==> forall|k: int| 0 <= k < n ==> #[trigger] work@[k] == (1u128 << (k as u128), 1u128 << (k as u128)),
                idr ==> forall|k: int| 0 <= k < n ==> #[trigger] used@[k] == (k < b),
            ensures
                idr ==> pivot == Some(b),
            decreases n - i,
        {
            proof {
                if idr {
                    crate::bits::lemma_unit_bits(m, i as u128, b as u128, low_mask_spec(b as nat), low_mask_spec((b + 1) as nat));
                }
            }
            if !used[i] && (work[i].0 & bmask) != 0 {
                pivot = Some(i);
                break;
            }
            i = i + 1;
        }
        match pivot {
            None => {},
            Some(p) => {
                used.set(p, true);
                let (pr, pc) = work[p];
                assert(xor_rows(big, pc) == pr);
                let mut i: usize = 0;
                while i < n
                    invariant
                        i <= n <= 128,
                        p < n,
                        b < n,
                        bmask == 1u128 << (b as u128),
                        work@.len() == n,
                        used@.len() == n,
                        big.len() == n,
                        xor_rows(big, pc) == pr,
                        forall|k: int| 0 <= k < n ==> xor_rows(big, (#[trigger] work@[k]).1) == work@[k].0,
                        idr ==> p == b,
                        idr ==> forall|k: int| 0 <= k < n ==> #[trigger] work@[k] == (1u128 << (k as u128), 1u128 << (k as u128)),
                    decreases n - i,
                {
                    proof {
                        if idr {
                            crate::bits::lemma_unit_bits(m, i as u128, b as u128, low_mask_spec(b as nat), low_mask_spec((b + 1) as nat));
                        }
                    }
                    if i != p && !used[i] && (work[i].0 & bmask) != 0 {
                        let (w0, w1) = work[i];
                        proof {
                            lemma_xor_rows_linear(big, w1, pc, n as int);
                        }
                        let ghost before = work@;
                        work.set(i, (w0 ^ pr, w1 ^ pc));
                        proof {
                            assert forall|k: int| 0 <= k < n implies xor_rows(big, (#[trigger] work@[k]).1) == work@[k].0 by {
                                if k != i { assert(work@[k] == before[k]); }
                            }
                        }
                    }
                    i = i + 1;
                }
                proof {
                    if idr {
                        assert(pr == 1u128 << (b as u128));
                        crate::bits::lemma_unit_bits(m, 0, b as u128, low_mask_spec(b as nat), low_mask_spec((b + 1) as nat));
                        assert forall|k: int| 0 <= k < n implies #[trigger] used@[k] == (k < b + 1) by {}
                    }
                }
                if (rhs & bmask) != 0 {
                    proof {
                        lemma_xor_rows_linear(big, rhs_combo, pc, n as int);
                        assert((m ^ rhs) ^ pr == m ^ (rhs ^ pr)) by {
                            lemma_xor_algebra();
                            assert(((m ^ rhs) ^ (0u128 ^ pr)) == ((m ^ 0u128) ^ (rhs ^ pr)));
                        }
                    }
                    rhs = rhs ^ pr;
                    rhs_combo = rhs_combo ^ pc;
                }
            },
        }
        proof {
            if idr {
                assert(pivot is Some);
            }
        }
        b = b + 1;
    }
    if rhs == 0 {
        assert(m ^ 0u128 == m) by { lemma_xor_algebra(); }
        Some(rhs_combo)
    } else {
        None
    }
}

/// The network ends on the target wire map whenever the target is an
/// invertible matrix, and in any case wherever its closing CX tail realises
/// the combinations it solved for: `gs` splits into a first part
/// and an all-CX tail that [`tail_solves`] for `target` from what the wires
/// carry after the first part, and then the whole network carries the unit
/// rows to `target`.
pub open spec fn reaches_target(n: nat, gs: Seq<NetGate>, target: Seq<u128>) -> bool {
    exists|k: int, res: Seq<u128>| #![trigger tail_solves(n, run_rows(identity_rows(n), gs.take(k)), gs.skip(k), res, target)]
        0 <= k <= gs.len() && all_cx(gs.skip(k))
        && tail_solves(n, run_rows(identity_rows(n), gs.take(k)), gs.skip(k), res, target)
        && (run_rows(identity_rows(n), gs.skip(k)) == masked_rows(res, n) ==> run_rows(identity_rows(n), gs) == target.subrange(0, n as int))
        && (cx_realizable(target, n) ==> run_rows(identity_rows(n), gs) == target.subrange(0, n as int))
}

/// The CX tail `cxs` solves for `target` from the wire map `rows`: each
/// target row is the combination `res[q]` of the wires, the tail realises
/// `res` on the unit rows whenever `res` is invertible, and where it does it
/// carries `rows` to the target.
pub open spec fn tail_solves(n: nat, rows: Seq<u128>, cxs: Seq<NetGate>, res: Seq<u128>, target: Seq<u128>) -> bool {
    &&& res.len() == n
    &&& forall|q: int| 0 <= q < n ==> xor_rows(rows, #[trigger] res[q]) == target[q]
    &&& realizable_or_killed(res, n)
    &&& cx_realizable(res, n) ==> run_rows(identity_rows(n), cxs) == masked_rows(res, n)
    &&& run_rows(identity_rows(n), cxs) == masked_rows(res, n) ==> run_rows(rows, cxs) == target.subrange(0, n as int)
}

/// Append the CX list that maps the current wire functions `rows` to
/// `target`; `None` when a target row is not in their span.
fn gray_residual_pmh(rows: &Vec<u128>, target: &Vec<u128>, n: usize, instructions: &mut Vec<String>, total_cnots: &mut i64)
    -> (r: Option<()>)
    requires
        n <= 128,
        *old(total_cnots) >= 0,
        rows@.len() >= n,
        target@.len() >= n,
    ensures
        *final(total_cnots) >= *old(total_cnots),
        rows@.subrange(0, n as int) == identity_rows(n as nat)
            && (forall|q: int| 0 <= q < n ==> #[trigger] target@[q] & !low_mask_spec(n as nat) == 0) ==> r is Some,
        r is Some ==> exists|cxs: Seq<NetGate>, res: Seq<u128>|
            #![trigger gate_texts(cxs), tail_solves(n as nat, rows@.subrange(0, n as int), cxs, res, target@)]
            all_cx(cxs) && cx_in_range(cxs, n as nat)
            && texts(final(instructions)@) == texts(old(instructions)@) + gate_texts(cxs)
            && *final(total_cnots) == saturated(*old(total_cnots) + cxs.len())
            && tail_solves(n as nat, rows@.subrange(0, n as int), cxs, res, target@),
{
    let ghost ins0 = texts(instructions@);
    let ghost tot0 = *total_cnots;
    let ghost wires = rows@.subrange(0, n as int);
    let mut residual: Vec<u128> = Vec::new();
    let mut q: usize = 0;
    while q < n
        invariant
            q <= n <= 128,
            rows@.len() >= n,
            target@.len() >= n,
            wires == rows@.subrange(0, n as int),
            residual@.len() == q,
            forall|j: int| 0 <= j < q ==> xor_rows(wires, #[trigger] residual@[j]) == target@[j],
        decreases n - q,
    {
        let combo = match gray_solve(rows, target[q], n) {
            Some(c) => c,
            None => { return None; },
        };
        let mut row: u128 = 0;
        proof {
            assert forall|j: int| 0 <= j < 128 implies !#[trigger] bit(row, j) by {
                lemma_zero_bits(j as u128);
            }
        }
        let mut i: usize = 0;
        while i < n
            invariant
                i <= n <= 128,
                forall|j: int| 0 <= j < i ==> #[trigger] bit(row, j) == bit(combo, j),
                forall|j: int| i <= j < 128 ==> !#[trigger] bit(row, j),
            decreases n - i,
        {
            if (combo >> (i as u128)) & 1 == 1 {
                let ghost r0 = row;
                row = row | bit_at(i as u32);
                proof {
                    assert forall|j: int| 0 <= j < 128 implies #[trigger] bit(row, j) == (j == i || bit(r0, j)) by {
                        lemma_set_bit(r0, i as u128, j as u128);
                    }
                }
            }
            i = i + 1;
        }
        proof {
            lemma_xor_rows_same_bits(wires, row, combo, n as int);
        }
        let ghost res0 = residual@;
        residual.push(row);
        proof {
            assert forall|j: int| 0 <= j < q + 1 implies xor_rows(wires, #[trigger] residual@[j]) == target@[j] by {
                if j < q { assert(residual@[j] == res0[j]); }
            }
        }
        q = q + 1;
    }
    let ghost res = residual@;
    match synthesize_cnot_matrix(residual, n) {
        Ok(cnots) => {
            let ghost mut cxs: Seq<NetGate> = Seq::empty();
            proof {
                assert(gate_texts(cxs) =~= Seq::<Seq<char>>::empty());
                assert(ins0 + gate_texts(cxs) =~= ins0);
                assert(cx_pairs(cxs) =~= cnots@.subrange(0, 0));
            }
            let mut k: usize = 0;
            while k < cnots.len()
                invariant
                    k <= cnots@.len(),
                    n <= 128,
                    ops_in_range(cnots@, n as nat),
                    ops_distinct(cnots@),
                    *total_cnots >= *old(total_cnots),
                    tot0 == *old(total_cnots),
                    ins0 == texts(old(instructions)@),
                    cxs.len() == k,
                    all_cx(cxs),
                    cx_in_range(cxs, n as nat),
                    cx_pairs(cxs) == cnots@.subrange(0, k as int),
                    texts(instructions@) == ins0 + gate_texts(cxs),
                    *total_cnots == saturated(tot0 + k),
                decreases cnots@.len() - k,
            {
                let (c, t) = cnots[k];
                let text = cx_instruction(c, t);
                proof {
                    assert(cnots@[k as int].0 < n && cnots@[k as int].1 < n && cnots@[k as int].0 != cnots@[k as int].1);
                    let c2 = cxs.push(NetGate::Cx(c, t));
                    lemma_texts_push(instructions@, text);
                    lemma_gate_texts_push(cxs, NetGate::Cx(c, t));
                    assert(all_cx(c2) && cx_in_range(c2, n as nat)) by {
                        assert forall|q: int| 0 <= q < c2.len() implies #[trigger] c2[q] is Cx by {
                            if q < cxs.len() { assert(c2[q] == cxs[q]); }
                        }
                        assert forall|q: int| 0 <= q < c2.len() implies (#[trigger] c2[q] matches NetGate::Cx(a, b) ==> a < n && b < n && a != b) by {
                            if q < cxs.len() { assert(c2[q] == cxs[q]); }
                        }
                    }
                    assert(cx_pairs(c2) =~= cnots@.subrange(0, k + 1));
                    cxs = c2;
                }
                instructions.push(text);
                if *total_cnots < i64::MAX {
                    *total_cnots = *total_cnots + 1;
                }
                k = k + 1;
            }
            proof {
                assert(cnots@.subrange(0, cnots@.len() as int) =~= cnots@);
                let id = identity_rows(n as nat);
                if cx_realizable(res, n as nat) {
                    lemma_run_rows_cx(id, cxs);
                }
                if run_rows(id, cxs) == masked_rows(res, n as nat) {
                    lemma_run_rows_cx(id, cxs);
                    lemma_run_rows_cx(wires, cxs);
                    lemma_apply_ops_combines(wires, cnots@);
                    assert forall|q: int| 0 <= q < n implies run_rows(wires, cxs)[q] == target@[q] by {
                        lemma_xor_rows_masked(wires, res[q]);
                        assert(masked_rows(res, n as nat)[q] == res[q] & row_mask_spec(n as nat));
                    }
                    assert(run_rows(wires, cxs) =~= target@.subrange(0, n as int));
                }
                assert(tail_solves(n as nat, wires, cxs, res, target@));
            }
            Some(())
        },
        Err(_) => None,
    }
}


/// Frames whose wires are all below `n`.
pub open spec fn frames_in_range(st: Seq<GrayFrame>, n: nat) -> bool {
    forall|i: int| 0 <= i < st.len() ==> {
        &&& (forall|k: int| 0 <= k < (#[trigger] st[i]).unused@.len() ==> #[trigger] st[i].unused@[k] < n)
        &&& (st[i].target matches Some(t) ==> t < n)
    }
}

/// What the duals of a whole stack stand for on the wires `rows`.
pub open spec fn stack_originals(rows: Seq<u128>, st: Seq<GrayFrame>) -> Multiset<(u128, u64)>
    decreases st.len(),
{
    if st.len() == 0 {
        Multiset::empty()
    } else {
        stack_originals(rows, st.drop_last()).add(originals(rows, st.last().s@))
    }
}

proof fn lemma_stack_originals_pointwise(r1: Seq<u128>, a: Seq<GrayFrame>, r2: Seq<u128>, b: Seq<GrayFrame>)
    requires
        a.len() == b.len(),
        forall|i: int| 0 <= i < a.len() ==> originals(r2, (#[trigger] b[i]).s@) == originals(r1, a[i].s@),
    ensures
        stack_originals(r2, b) == stack_originals(r1, a),
    decreases a.len(),
{
    if a.len() > 0 {
        assert forall|i: int| 0 <= i < a.drop_last().len() implies originals(r2, (#[trigger] b.drop_last()[i]).s@)
            == originals(r1, a.drop_last()[i].s@) by {
            assert(b.drop_last()[i] == b[i] && a.drop_last()[i] == a[i]);
        }
        lemma_stack_originals_pointwise(r1, a.drop_last(), r2, b.drop_last());
        assert(a[a.len() - 1] == a.last() && b[b.len() - 1] == b.last());
    }
}

proof fn lemma_stack_originals_update(rows: Seq<u128>, st: Seq<GrayFrame>, i: int, f: GrayFrame)
    requires
        0 <= i < st.len(),
    ensures
        stack_originals(rows, st.update(i, f)).add(originals(rows, st[i].s@))
            == stack_originals(rows, st).add(originals(rows, f.s@)),
    decreases st.len(),
{
    broadcast use vstd::multiset::group_multiset_axioms;
    let u = st.update(i, f);
    assert(stack_originals(rows, u) == stack_originals(rows, u.drop_last()).add(originals(rows, u.last().s@)));
    assert(stack_originals(rows, st) == stack_originals(rows, st.drop_last()).add(originals(rows, st.last().s@)));
    if i == st.len() - 1 {
        assert(u.drop_last() =~= st.drop_last());
        assert(u.last() == f);
        assert(st.last() == st[i]);
        assert(stack_originals(rows, u).add(originals(rows, st[i].s@))
            =~= stack_originals(rows, st).add(originals(rows, f.s@)));
    } else {
        assert(u.drop_last() =~= st.drop_last().update(i, f));
        assert(u.last() == st.last());
        assert(st.drop_last()[i] == st[i]);
        lemma_stack_originals_update(rows, st.drop_last(), i, f);
        let a = stack_originals(rows, st.drop_last().update(i, f));
        let b = stack_originals(rows, st.drop_last());
        let oi = originals(rows, st[i].s@);
        let of = originals(rows, f.s@);
        let ol = originals(rows, st.last().s@);
        assert(stack_originals(rows, u) == a.add(ol));
        assert forall|x: (u128, u64)| #[trigger] a.add(ol).add(oi).count(x) == b.add(ol).add(of).count(x) by {
            assert(a.add(oi).count(x) == b.add(of).count(x));
        }
        assert(stack_originals(rows, u).add(originals(rows, st[i].s@))
            =~= stack_originals(rows, st).add(originals(rows, f.s@)));
    }
}

proof fn lemma_stack_originals_push(rows: Seq<u128>, st: Seq<GrayFrame>, f: GrayFrame)
    ensures
        stack_originals(rows, st.push(f)) == stack_originals(rows, st).add(originals(rows, f.s@)),
{
    assert(st.push(f).drop_last() =~= st);
}

/// The dual update of `CX(c, t)` on every frame of the stack.
fn stack_dual_cx(stack: &mut Vec<GrayFrame>, c: usize, t: usize, Ghost(rows): Ghost<Seq<u128>>, Ghost(n): Ghost<nat>)
    requires
        rows.len() <= 128,
        c < rows.len(),
        t < rows.len(),
        c != t,
        frames_in_range(old(stack)@, n),
    ensures
        final(stack)@.len() == old(stack)@.len(),
        forall|i: int| 0 <= i < old(stack)@.len() ==> (#[trigger] final(stack)@[i]).unused@ == old(stack)@[i].unused@
            && final(stack)@[i].target == old(stack)@[i].target,
        frames_in_range(final(stack)@, n),
        stack_originals(apply_op(rows, (c, t)), final(stack)@) == stack_originals(rows, old(stack)@),
{
    let ghost r2 = apply_op(rows, (c, t));
    let mut i: usize = 0;
    while i < stack.len()
        invariant
            rows.len() <= 128,
            c < rows.len(),
            t < rows.len(),
            c != t,
            r2 == apply_op(rows, (c, t)),
            stack@.len() == old(stack)@.len(),
            forall|k: int| 0 <= k < old(stack)@.len() ==> (#[trigger] stack@[k]).unused@ == old(stack)@[k].unused@
                && stack@[k].target == old(stack)@[k].target,
            forall|k: int| 0 <= k < i ==> originals(r2, (#[trigger] stack@[k]).s@) == originals(rows, old(stack)@[k].s@),
            forall|k: int| i <= k < stack@.len() ==> (#[trigger] stack@[k]) == old(stack)@[k],
            frames_in_range(old(stack)@, n),
        decreases stack@.len() - i,
    {
        let mut s = copy_duals(&stack[i].s);
        let ghost s_before = s@;
        gray_dual_cx(&mut s, c, t);
        proof {
            assert forall|k: int| 0 <= k < s_before.len() implies (#[trigger] s@[k]).0 == dual_cx_spec(s_before[k].0, c, t)
                && s@[k].1 == s_before[k].1 by {}
            lemma_originals_dual_cx(rows, s_before, s@, c, t);
        }
        let unused = copy_wires(&stack[i].unused);
        let target = stack[i].target;
        stack.set(i, GrayFrame { s, unused, target });
        i = i + 1;
    }
    proof {
        lemma_stack_originals_pointwise(rows, old(stack)@, r2, stack@);
        assert forall|i: int| 0 <= i < stack@.len() implies {
            &&& (forall|k: int| 0 <= k < (#[trigger] stack@[i]).unused@.len() ==> #[trigger] stack@[i].unused@[k] < n)
            &&& (stack@[i].target matches Some(tt) ==> tt < n)
        } by {
            assert(stack@[i].unused@ == old(stack)@[i].unused@);
        }
    }
}

/// The ready placement on every frame of the stack.
fn stack_place_ready(stack: &mut Vec<GrayFrame>, instructions: &mut Vec<String>, Ghost(rows): Ghost<Seq<u128>>, Ghost(n): Ghost<nat>)
    -> (r: Ghost<(Seq<NetGate>, Multiset<(u128, u64)>)>)
    requires
        rows.len() <= 128,
        frames_in_range(old(stack)@, n),
    ensures
        final(stack)@.len() == old(stack)@.len(),
        forall|i: int| 0 <= i < old(stack)@.len() ==> (#[trigger] final(stack)@[i]).unused@ == old(stack)@[i].unused@
            && final(stack)@[i].target == old(stack)@[i].target,
        frames_in_range(final(stack)@, n),
        all_rz(r@.0),
        texts(final(instructions)@) == texts(old(instructions)@) + gate_texts(r@.0),
        forall|x: (u128, u64)| r@.1.count(x) > 0 ==> x.0 == 0,
        stack_originals(rows, old(stack)@) == stack_originals(rows, final(stack)@).add(rz_pairs(rows, r@.0).to_multiset()).add(r@.1),
{
    broadcast use vstd::multiset::group_multiset_axioms;
    let ghost ins0 = texts(instructions@);
    let ghost mut placed: Seq<NetGate> = Seq::empty();
    let ghost mut dropped: Multiset<(u128, u64)> = Multiset::empty();
    proof {
        assert(gate_texts(placed) =~= Seq::<Seq<char>>::empty());
        assert(ins0 + gate_texts(placed) =~= ins0);
        assert(rz_pairs(rows, placed).to_multiset() =~= Multiset::<(u128, u64)>::empty()) by {
            vstd::multiset::lemma_multiset_empty_len(rz_pairs(rows, placed).to_multiset());
            broadcast use vstd::seq_lib::group_to_multiset_ensures;
        }
        assert(stack_originals(rows, stack@).add(rz_pairs(rows, placed).to_multiset()).add(dropped) =~= stack_originals(rows, stack@));
    }
    let mut i: usize = 0;
    while i < stack.len()
        invariant
            rows.len() <= 128,
            stack@.len() == old(stack)@.len(),
            forall|k: int| 0 <= k < old(stack)@.len() ==> (#[trigger] stack@[k]).unused@ == old(stack)@[k].unused@
                && stack@[k].target == old(stack)@[k].target,
            frames_in_range(old(stack)@, n),
            all_rz(placed),
            texts(instructions@) == ins0 + gate_texts(placed),
            forall|x: (u128, u64)| dropped.count(x) > 0 ==> x.0 == 0,
            stack_originals(rows, old(stack)@) == stack_originals(rows, stack@).add(rz_pairs(rows, placed).to_multiset()).add(dropped),
        decreases stack@.len() - i,
    {
        let ghost st = stack@;
        let mut s = copy_duals(&stack[i].s);
        let placed_p = gray_place_ready(&mut s, instructions, Ghost(rows));
        let ghost p = placed_p@.0;
        let ghost d = placed_p@.1;
        let unused = copy_wires(&stack[i].unused);
        let target = stack[i].target;
        let f = GrayFrame { s, unused, target };
        proof {
            lemma_stack_originals_update(rows, st, i as int, f);
        }
        stack.set(i, f);
        proof {
            assert(stack@ == st.update(i as int, f));
            let o_old = originals(rows, st[i as int].s@);
            let o_new = originals(rows, f.s@);
            assert(o_old == o_new.add(rz_pairs(rows, p).to_multiset()).add(d));
            assert(stack_originals(rows, stack@).add(o_old) == stack_originals(rows, st).add(o_new));
            let sn = stack_originals(rows, stack@);
            let ss = stack_originals(rows, st);
            let rp = rz_pairs(rows, p).to_multiset();
            assert forall|x: (u128, u64)| #[trigger] ss.count(x) == sn.add(rp).add(d).count(x) by {
                assert(sn.add(o_old).count(x) == ss.add(o_new).count(x));
                assert(o_old.count(x) == o_new.add(rp).add(d).count(x));
            }
            assert(ss =~= sn.add(rp).add(d));
            let p2 = placed + p;
            lemma_rz_pairs_concat(rows, placed, p);
            vstd::seq_lib::lemma_multiset_commutative(rz_pairs(rows, placed), rz_pairs(rows, p));
            lemma_gate_texts_concat(placed, p);
            assert(all_rz(p2)) by {
                assert forall|k: int| 0 <= k < p2.len() implies #[trigger] p2[k] is Rz by {
                    if k < placed.len() { assert(p2[k] == placed[k]); } else { assert(p2[k] == p[k - placed.len()]); }
                }
            }
            let d2 = dropped.add(d);
            assert(stack_originals(rows, old(stack)@)
                =~= stack_originals(rows, stack@).add(rz_pairs(rows, p2).to_multiset()).add(d2));
            placed = p2;
            dropped = d2;
        }
        i = i + 1;
    }
    proof {
        assert forall|i: int| 0 <= i < stack@.len() implies {
            &&& (forall|k: int| 0 <= k < (#[trigger] stack@[i]).unused@.len() ==> #[trigger] stack@[i].unused@[k] < n)
            &&& (stack@[i].target matches Some(tt) ==> tt < n)
        } by {
            assert(stack@[i].unused@ == old(stack)@[i].unused@);
        }
    }
    Ghost((placed, dropped))
}

/// Whether every parity holds bit `j`.
fn all_have_bit(s: &Vec<(u128, u64)>, j: usize) -> (r: bool)
    requires
        j < 128,
    ensures
        r == forall|i: int| 0 <= i < s@.len() ==> bit((#[trigger] s@[i]).0, j as int),
{
    let mut i: usize = 0;
    while i < s.len()
        invariant
            j < 128,
            i <= s@.len(),
            forall|k: int| 0 <= k < i ==> bit((#[trigger] s@[k]).0, j as int),
        decreases s@.len() - i,
    {
        if (s[i].0 >> (j as u128)) & 1 != 1 {
            return false;
        }
        i = i + 1;
    }
    true
}

/// Whether some parity holds bit `j`.
fn some_has_bit(s: &Vec<(u128, u64)>, j: usize) -> (r: bool)
    requires
        j < 128,
    ensures
        r == exists|i: int| 0 <= i < s@.len() && bit((#[trigger] s@[i]).0, j as int),
{
    let mut i: usize = 0;
    while i < s.len()
        invariant
            j < 128,
            i <= s@.len(),
            forall|k: int| 0 <= k < i ==> !bit((#[trigger] s@[k]).0, j as int),
        decreases s@.len() - i,
    {
        if (s[i].0 >> (j as u128)) & 1 == 1 {
            return true;
        }
        i = i + 1;
    }
    false
}

/// The rotations that a Gray network places and the parities it drops: the
/// network's rotations, together with dropped zero parities, are exactly
/// the given terms seen on the first `n` wires.
pub open spec fn places_all_terms(n: nat, terms: Seq<(u128, u64)>, gs: Seq<NetGate>, dropped: Multiset<(u128, u64)>) -> bool {
    &&& forall|x: (u128, u64)| dropped.count(x) > 0 ==> x.0 == 0
    &&& originals(identity_rows(n), terms) == rotations(identity_rows(n), gs).to_multiset().add(dropped)
}

/// Every term is a single wire or empty, and every target row lies on the
/// `n` wires: nothing is left for a Gray frame to split.
#[verifier::opaque]
pub open spec fn gray_terms_ready(terms: Seq<(u128, u64)>, target: Seq<u128>, n: nat) -> bool {
    &&& forall|i: int| 0 <= i < terms.len() ==> crate::bits::zero_or_pow2((#[trigger] terms[i]).0)
    &&& forall|q: int| 0 <= q < n ==> #[trigger] target[q] & !low_mask_spec(n) == 0
}

/// Amy–Azimzadeh–Mosca GraySynth (arXiv:1712.01859, Algorithm 1) over
/// merged parity terms `(mask, angle bits)`, followed by a
/// Patel–Markov–Hayes residual to the `target` linear map. Returns the
/// `cx c,t` / `rz q,bits` instructions and the number of CX gates; `None`
/// when a frame runs out of wires or the target is out of reach. The
/// instructions are a gate list whose CX gates act on distinct wires below
/// `n` and whose rotations, read as parities of the inputs, place every
/// term once (terms with no wire below `n` are dropped). Terms that are each
/// a single wire or empty, with target rows on the `n` wires
/// ([`gray_terms_ready`]), always get a network.
pub fn synthesize_gray_network(terms: Vec<(u128, u64)>, target: &Vec<u128>, n: usize) -> (r: Option<(Vec<String>, i64)>)
    requires
        n <= 128,
        target@.len() >= n,
    ensures
        r matches Some(p) ==> p.1 >= 0 && exists|gs: Seq<NetGate>, dropped: Multiset<(u128, u64)>|
            #![trigger gate_texts(gs), places_all_terms(n as nat, terms@, gs, dropped)]
            texts(p.0@) == gate_texts(gs)
            && cx_in_range(gs, n as nat)
            && p.1 == saturated(cx_count(gs) as int)
            && places_all_terms(n as nat, terms@, gs, dropped)
            && ((forall|i: int| 0 <= i < terms@.len() ==> (#[trigger] terms@[i]).0 & !low_mask_spec(n as nat) == 0)
                ==> terms@.to_multiset() == rotations(identity_rows(n as nat), gs).to_multiset().add(dropped))
            && reaches_target(n as nat, gs, target@),
        gray_terms_ready(terms@, target@, n as nat) ==> r is Some,
{
    broadcast use vstd::multiset::group_multiset_axioms;
    let ghost id = identity_rows(n as nat);
    let ghost terms0 = terms@;
    let ghost ready0 = gray_terms_ready(terms@, target@, n as nat);
    proof {
        reveal(gray_terms_ready);
    }
    let mut instructions: Vec<String> = Vec::new();
    let mut total_cnots: i64 = 0;
    let mut pending = terms;
    let mut rows: Vec<u128> = Vec::new();
    let mut i: usize = 0;
    while i < n
        invariant
            i <= n <= 128,
            rows@ == identity_rows(i as nat),
        decreases n - i,
    {
        rows.push(bit_at(i as u32));
        proof {
            assert(rows@ =~= identity_rows((i + 1) as nat));
        }
        i = i + 1;
    }
    let placed_p0 = gray_place_ready(&mut pending, &mut instructions, Ghost(rows@));
    let ghost p0 = placed_p0@.0;
    let ghost d0 = placed_p0@.1;
    let ghost mut gs: Seq<NetGate> = p0;
    let ghost mut dropped: Multiset<(u128, u64)> = d0;
    proof {
        assert(instructions@ =~= Seq::<String>::empty().add(instructions@));
        assert(texts(Seq::<String>::empty()) =~= Seq::<Seq<char>>::empty());
        assert(texts(instructions@) =~= gate_texts(gs));
        lemma_append_rz(id, Seq::empty(), p0);
        assert(Seq::<NetGate>::empty() + p0 =~= p0);
        assert(run_rows(id, p0) == id);
        assert(rotations(id, Seq::<NetGate>::empty()) =~= Seq::<(u128, u64)>::empty());
        assert(Seq::<(u128, u64)>::empty() + rz_pairs(id, p0) =~= rz_pairs(id, p0));
        assert(cx_count(Seq::<NetGate>::empty()) == 0);
        assert(cx_in_range(gs, n as nat)) by {
            assert forall|q: int| 0 <= q < gs.len() implies (#[trigger] gs[q] matches NetGate::Cx(a, b) ==> a < n && b < n && a != b) by {
                assert(gs[q] is Rz);
            }
        }
    }
    proof {
        if ready0 && pending@.len() > 0 {
            assert(terms0.contains(pending@[0]));
            let w = choose|w: int| 0 <= w < terms0.len() && terms0[w] == pending@[0];
            assert(crate::bits::zero_or_pow2(terms0[w].0));
        }
    }
    let mut stack: Vec<GrayFrame> = Vec::new();
    if pending.len() > 0 {
        let mut all: Vec<usize> = Vec::new();
        let mut k: usize = 0;
        while k < n
            invariant
                k <= n,
                all@.len() == k,
                forall|q: int| 0 <= q < k ==> #[trigger] all@[q] < n,
            decreases n - k,
        {
            all.push(k);
            k = k + 1;
        }
        let ghost st0 = stack@;
        stack.push(GrayFrame { s: pending, unused: all, target: None });
        proof {
            lemma_stack_originals_push(rows@, st0, stack@.last());
            assert(stack_originals(rows@, st0) =~= Multiset::<(u128, u64)>::empty());
        }
    } else {
        proof {
            assert(originals(rows@, pending@) =~= Multiset::<(u128, u64)>::empty());
        }
    }
    proof {
        assert(originals(id, terms0) =~= rotations(id, gs).to_multiset().add(dropped).add(stack_originals(rows@, stack@)));
    }
    while stack.len() > 0
        invariant
            n <= 128,
            rows@.len() == n,
            target@.len() >= n,
            id == identity_rows(n as nat),
            rows@ == run_rows(id, gs),
            texts(instructions@) == gate_texts(gs),
            total_cnots == saturated(cx_count(gs) as int),
            total_cnots >= 0,
            cx_in_range(gs, n as nat),
            forall|x: (u128, u64)| dropped.count(x) > 0 ==> x.0 == 0,
            originals(id, terms0) == rotations(id, gs).to_multiset().add(dropped).add(stack_originals(rows@, stack@)),
            frames_in_range(stack@, n as nat),
            ready0 ==> stack@.len() == 0 && rows@ == id,
            ready0 == gray_terms_ready(terms0, target@, n as nat),
            terms0 == terms@,
        decreases stack_weight(stack@),
    {
        assert(!ready0);
        let ghost st0 = stack@;
        let mut frame = match stack.pop() {
            Some(f) => f,
            None => { return None; },
        };
        proof {
            assert(st0.drop_last() =~= stack@);
            assert(frame == st0.last());
            assert forall|q: int| 0 <= q < stack@.len() implies {
                &&& (forall|k: int| 0 <= k < (#[trigger] stack@[q]).unused@.len() ==> #[trigger] stack@[q].unused@[k] < n)
                &&& (stack@[q].target matches Some(tt) ==> tt < n)
            } by {
                assert(stack@[q] == st0[q]);
            }
            assert(st0[st0.len() - 1] == frame);
            assert(forall|k: int| 0 <= k < frame.unused@.len() ==> #[trigger] frame.unused@[k] < n);
            assert(frame.target matches Some(tt) ==> tt < n);
            assert(stack_weight(st0) == stack_weight(stack@) + frame_weight(frame.unused@.len()));
            assert(frame_weight(frame.unused@.len()) >= 1);
            assert(stack_originals(rows@, st0) == stack_originals(rows@, stack@).add(originals(rows@, frame.s@)));
            assert(originals(id, terms0) =~= rotations(id, gs).to_multiset().add(dropped)
                .add(stack_originals(rows@, stack@)).add(originals(rows@, frame.s@)));
        }
        let ghost budget = stack_weight(stack@) + frame_weight(frame.unused@.len());
        let ghost fs0 = frame.s@;
        let placed_p1 = gray_place_ready(&mut frame.s, &mut instructions, Ghost(rows@));
        let ghost p1 = placed_p1@.0;
        let ghost d1 = placed_p1@.1;
        proof {
            lemma_append_rz(id, gs, p1);
            lemma_gate_texts_concat(gs, p1);
            vstd::seq_lib::lemma_multiset_commutative(rotations(id, gs), rz_pairs(rows@, p1));
            let g2 = gs + p1;
            assert(cx_in_range(g2, n as nat)) by {
                assert forall|q: int| 0 <= q < g2.len() implies (#[trigger] g2[q] matches NetGate::Cx(a, b) ==> a < n && b < n && a != b) by {
                    if q < gs.len() { assert(g2[q] == gs[q]); } else { assert(g2[q] == p1[q - gs.len()]); assert(p1[q - gs.len()] is Rz); }
                }
            }
            let dd = dropped.add(d1);
            assert(originals(id, terms0) =~= rotations(id, g2).to_multiset().add(dd)
                .add(stack_originals(rows@, stack@)).add(originals(rows@, frame.s@)));
            gs = g2;
            dropped = dd;
        }
        if frame.s.len() == 0 {
            proof {
                assert(originals(rows@, frame.s@) =~= Multiset::<(u128, u64)>::empty());
                assert(originals(id, terms0) =~= rotations(id, gs).to_multiset().add(dropped).add(stack_originals(rows@, stack@)));
            }
            continue;
        }
        match frame.target {
            None => {},
            Some(tgt) => {
                loop
                    invariant
                        n <= 128,
                        tgt < n,
                        rows@.len() == n,
                        id == identity_rows(n as nat),
                        rows@ == run_rows(id, gs),
                        texts(instructions@) == gate_texts(gs),
                        total_cnots == saturated(cx_count(gs) as int),
                        total_cnots >= 0,
                        cx_in_range(gs, n as nat),
                        forall|x: (u128, u64)| dropped.count(x) > 0 ==> x.0 == 0,
                        originals(id, terms0) == rotations(id, gs).to_multiset().add(dropped)
                            .add(stack_originals(rows@, stack@)).add(originals(rows@, frame.s@)),
                        frames_in_range(stack@, n as nat),
                        stack_weight(stack@) + frame_weight(frame.unused@.len()) == budget,
                        forall|k: int| 0 <= k < frame.unused@.len() ==> #[trigger] frame.unused@[k] < n,
                        frame.target == Some(tgt),
                    decreases dual_weight(frame.s@),
                {
                    let mut found: Option<usize> = None;
                    let some_tgt = some_has_bit(&frame.s, tgt);
                    let mut j: usize = 0;
                    while j < n
                        invariant
                            j <= n <= 128,
                            tgt < n,
                            found matches Some(f) ==> f < n && f != tgt
                                && (forall|i: int| 0 <= i < frame.s@.len() ==> bit((#[trigger] frame.s@[i]).0, f as int))
                                && some_tgt,
                            some_tgt == exists|i: int| 0 <= i < frame.s@.len() && bit((#[trigger] frame.s@[i]).0, tgt as int),
                        decreases n - j,
                    {
                        if j != tgt && all_have_bit(&frame.s, j) && some_tgt {
                            found = Some(j);
                            break;
                        }
                        j = j + 1;
                    }
                    let jj = match found {
                        Some(f) => f,
                        None => { break; },
                    };
                    let text = cx_instruction(jj, tgt);
                    let ghost rows0 = rows@;
                    let ghost g2 = gs.push(NetGate::Cx(jj, tgt));
                    proof {
                        lemma_texts_push(instructions@, text);
                        lemma_gate_texts_push(gs, NetGate::Cx(jj, tgt));
                    }
                    instructions.push(text);
                    let v = rows[tgt] ^ rows[jj];
                    rows.set(tgt, v);
                    if total_cnots < i64::MAX {
                        total_cnots = total_cnots + 1;
                    }
                    proof {
                        assert(g2.drop_last() =~= gs);
                        assert(rows@ =~= apply_op(rows0, (jj, tgt)));
                        assert(run_rows(id, g2) == apply_op(run_rows(id, gs), (jj, tgt)));
                        assert(rotations(id, g2) == rotations(id, gs));
                        assert(cx_count(g2) == cx_count(gs) + 1);
                        assert(cx_in_range(g2, n as nat)) by {
                            assert forall|q: int| 0 <= q < g2.len() implies (#[trigger] g2[q] matches NetGate::Cx(a, b) ==> a < n && b < n && a != b) by {
                                if q < gs.len() { assert(g2[q] == gs[q]); }
                            }
                        }
                        gs = g2;
                    }
                    let ghost before = frame.s@;
                    gray_dual_cx(&mut frame.s, jj, tgt);
                    proof {
                        lemma_dual_cx_weight(before, frame.s@, jj as nat, tgt as nat);
                        assert forall|k: int| 0 <= k < before.len() implies (#[trigger] frame.s@[k]).0 == dual_cx_spec(before[k].0, jj, tgt)
                            && frame.s@[k].1 == before[k].1 by {}
                        lemma_originals_dual_cx(rows0, before, frame.s@, jj, tgt);
                    }
                    let ghost stb = stack@;
                    stack_dual_cx(&mut stack, jj, tgt, Ghost(rows0), Ghost(n as nat));
                    proof {
                        lemma_stack_weight_same(stb, stack@);
                        assert(originals(id, terms0) == rotations(id, gs).to_multiset().add(dropped)
                            .add(stack_originals(rows@, stack@)).add(originals(rows@, frame.s@)));
                    }
                    let placed_p2 = gray_place_ready(&mut frame.s, &mut instructions, Ghost(rows@));
                    let ghost p2 = placed_p2@.0;
                    let ghost d2 = placed_p2@.1;
                    let ghost stc = stack@;
                    let placed_p3 = stack_place_ready(&mut stack, &mut instructions, Ghost(rows@), Ghost(n as nat));
                    let ghost p3 = placed_p3@.0;
                    let ghost d3 = placed_p3@.1;
                    proof {
                        lemma_stack_weight_same(stc, stack@);
                        lemma_append_rz(id, gs, p2);
                        lemma_append_rz(id, gs + p2, p3);
                        lemma_gate_texts_concat(gs, p2);
                        lemma_gate_texts_concat(gs + p2, p3);
                        vstd::seq_lib::lemma_multiset_commutative(rotations(id, gs), rz_pairs(rows@, p2));
                        vstd::seq_lib::lemma_multiset_commutative(rotations(id, gs + p2), rz_pairs(rows@, p3));
                        let g3 = gs + p2 + p3;
                        assert(cx_in_range(g3, n as nat)) by {
                            assert forall|q: int| 0 <= q < g3.len() implies (#[trigger] g3[q] matches NetGate::Cx(a, b) ==> a < n && b < n && a != b) by {
                                if q < gs.len() {
                                    assert(g3[q] == gs[q]);
                                } else if q < gs.len() + p2.len() {
                                    assert(g3[q] == p2[q - gs.len()]);
                                    assert(p2[q - gs.len()] is Rz);
                                } else {
                                    assert(g3[q] == p3[q - gs.len() - p2.len()]);
                                    assert(p3[q - gs.len() - p2.len()] is Rz);
                                }
                            }
                        }
                        let dd = dropped.add(d2).add(d3);
                        assert(originals(id, terms0) =~= rotations(id, g3).to_multiset().add(dd)
                            .add(stack_originals(rows@, stack@)).add(originals(rows@, frame.s@)));
                        gs = g3;
                        dropped = dd;
                    }
                    if frame.s.len() == 0 {
                        break;
                    }
                }
            },
        }
        if frame.s.len() == 0 {
            proof {
                assert(originals(rows@, frame.s@) =~= Multiset::<(u128, u64)>::empty());
                assert(originals(id, terms0) =~= rotations(id, gs).to_multiset().add(dropped).add(stack_originals(rows@, stack@)));
            }
            continue;
        }
        if frame.unused.len() == 0 {
            return None;
        }
        let mut best_j = frame.unused[0];
        let mut best_score: usize = 0;
        let mut q: usize = 0;
        while q < frame.unused.len()
            invariant
                q <= frame.unused@.len(),
                frame.unused@.contains(best_j),
            decreases frame.unused@.len() - q,
        {
            let j = frame.unused[q];
            proof { assert(frame.unused@[q as int] == j); }
            let mut ones: usize = 0;
            let mut k: usize = 0;
            while k < frame.s.len()
                invariant
                    k <= frame.s@.len(),
                    ones <= k,
                decreases frame.s@.len() - k,
            {
                if j < 128 && (frame.s[k].0 >> (j as u128)) & 1 == 1 {
                    ones = ones + 1;
                }
                k = k + 1;
            }
            let zeros = frame.s.len() - ones;
            let score = if ones > zeros { ones } else { zeros };
            if score > best_score || (score == best_score && j < best_j) {
                best_score = score;
                best_j = j;
            }
            q = q + 1;
        }
        proof {
            let w = choose|w: int| 0 <= w < frame.unused@.len() && frame.unused@[w] == best_j;
            assert(best_j < n);
        }
        let mut s0: Vec<(u128, u64)> = Vec::new();
        let mut s1: Vec<(u128, u64)> = Vec::new();
        let mut k: usize = 0;
        while k < frame.s.len()
            invariant
                k <= frame.s@.len(),
                best_j < 128,
                originals(rows@, frame.s@.subrange(0, k as int)) == originals(rows@, s0@).add(originals(rows@, s1@)),
            decreases frame.s@.len() - k,
        {
            let e = frame.s[k];
            proof {
                assert(frame.s@.subrange(0, k + 1).drop_last() =~= frame.s@.subrange(0, k as int));
                assert(frame.s@.subrange(0, k + 1).last() == e);
            }
            if (e.0 >> (best_j as u128)) & 1 == 1 {
                let ghost b1 = s1@;
                s1.push(e);
                proof {
                    assert(s1@.drop_last() =~= b1);
                    assert(originals(rows@, frame.s@.subrange(0, k + 1)) =~= originals(rows@, s0@).add(originals(rows@, s1@)));
                }
            } else {
                let ghost b0 = s0@;
                s0.push(e);
                proof {
                    assert(s0@.drop_last() =~= b0);
                    assert(originals(rows@, frame.s@.subrange(0, k + 1)) =~= originals(rows@, s0@).add(originals(rows@, s1@)));
                }
            }
            k = k + 1;
        }
        proof {
            assert(frame.s@.subrange(0, frame.s@.len() as int) =~= frame.s@);
        }
        let mut unused: Vec<usize> = Vec::new();
        let mut seen = false;
        let mut k: usize = 0;
        while k < frame.unused.len()
            invariant
                k <= frame.unused@.len(),
                unused@.len() + (if seen { 1int } else { 0int }) <= k,
                seen <==> exists|w: int| 0 <= w < k && frame.unused@[w] == best_j,
                forall|q: int| 0 <= q < unused@.len() ==> #[trigger] unused@[q] < n,
                forall|q: int| 0 <= q < frame.unused@.len() ==> #[trigger] frame.unused@[q] < n,
            decreases frame.unused@.len() - k,
        {
            let u = frame.unused[k];
            if u != best_j {
                unused.push(u);
            } else {
                seen = true;
            }
            k = k + 1;
        }
        proof {
            assert(seen);
            assert(unused@.len() + 1 <= frame.unused@.len());
            lemma_frame_weight_mono(unused@.len(), (frame.unused@.len() - 1) as nat);
            assert(frame_weight(frame.unused@.len()) == 2 * frame_weight((frame.unused@.len() - 1) as nat) + 1);
        }
        let t1 = match frame.target {
            None => Some(best_j),
            Some(t) => Some(t),
        };
        let ghost base = stack@;
        let ghost ul = unused@.len();
        let ghost uv = unused@;
        let ghost o0 = originals(rows@, s0@);
        let ghost o1 = originals(rows@, s1@);
        assert(stack_weight(base) + frame_weight(frame.unused@.len()) == budget);
        if s1.len() > 0 {
            let unused1 = copy_wires(&unused);
            let ghost pre = stack@;
            stack.push(GrayFrame { s: s1, unused: unused1, target: t1 });
            proof {
                assert(stack@.drop_last() =~= pre);
                assert(stack_weight(stack@) == stack_weight(pre) + frame_weight(unused@.len()));
                lemma_stack_originals_push(rows@, pre, stack@.last());
                assert forall|q: int| 0 <= q < stack@.len() implies {
                    &&& (forall|k: int| 0 <= k < (#[trigger] stack@[q]).unused@.len() ==> #[trigger] stack@[q].unused@[k] < n)
                    &&& (stack@[q].target matches Some(tt) ==> tt < n)
                } by {
                    if q < pre.len() {
                        assert(stack@[q] == pre[q]);
                    } else {
                        assert(stack@[q].unused@ == uv);
                        assert(stack@[q].target == t1);
                    }
                }
            }
        } else {
            proof {
                assert(o1 =~= Multiset::<(u128, u64)>::empty());
            }
        }
        let ghost mid = stack@;
        assert(stack_originals(rows@, mid) == stack_originals(rows@, base).add(o1));
        if s0.len() > 0 {
            let ghost pre = stack@;
            let ghost ulen = unused@.len();
            stack.push(GrayFrame { s: s0, unused, target: frame.target });
            proof {
                assert(stack@.drop_last() =~= pre);
                assert(stack_weight(stack@) == stack_weight(pre) + frame_weight(ulen));
                lemma_stack_originals_push(rows@, pre, stack@.last());
                assert forall|q: int| 0 <= q < stack@.len() implies {
                    &&& (forall|k: int| 0 <= k < (#[trigger] stack@[q]).unused@.len() ==> #[trigger] stack@[q].unused@[k] < n)
                    &&& (stack@[q].target matches Some(tt) ==> tt < n)
                } by {
                    if q < pre.len() {
                        assert(stack@[q] == pre[q]);
                    } else {
                        assert(stack@[q].unused@ == uv);
                        assert(stack@[q].target == frame.target);
                    }
                }
            }
        } else {
            proof {
                assert(o0 =~= Multiset::<(u128, u64)>::empty());
            }
        }
        proof {
            assert(stack_weight(stack@) <= stack_weight(base) + 2 * frame_weight(ul));
            assert(stack_originals(rows@, stack@) == stack_originals(rows@, base).add(o1).add(o0));
            assert(originals(id, terms0) =~= rotations(id, gs).to_multiset().add(dropped).add(stack_originals(rows@, stack@)));
        }
    }
    let ghost g_before = gs;
    proof {
        if ready0 {
            assert(rows@.subrange(0, n as int) =~= rows@);
            reveal(gray_terms_ready);
        }
    }
    match gray_residual_pmh(&rows, target, n, &mut instructions, &mut total_cnots) {
        Some(_) => {
            proof {
                assert(stack@.len() == 0);
                assert(stack_originals(rows@, stack@) =~= Multiset::<(u128, u64)>::empty());
                let (cxs, res) = choose|cxs: Seq<NetGate>, res: Seq<u128>| all_cx(cxs) && cx_in_range(cxs, n as nat)
                    && texts(instructions@) == gate_texts(g_before) + gate_texts(cxs)
                    && total_cnots == saturated(saturated(cx_count(g_before) as int) + cxs.len())
                    && tail_solves(n as nat, rows@.subrange(0, n as int), cxs, res, target@);
                lemma_append_cx(id, g_before, cxs);
                lemma_gate_texts_concat(g_before, cxs);
                let g = g_before + cxs;
                assert(cx_in_range(g, n as nat)) by {
                    assert forall|q: int| 0 <= q < g.len() implies (#[trigger] g[q] matches NetGate::Cx(a, b) ==> a < n && b < n && a != b) by {
                        if q < g_before.len() { assert(g[q] == g_before[q]); } else { assert(g[q] == cxs[q - g_before.len()]); }
                    }
                }
                assert(total_cnots == saturated(cx_count(g) as int));
                assert(originals(id, terms0) =~= rotations(id, g).to_multiset().add(dropped));
                assert(places_all_terms(n as nat, terms0, g, dropped));
                if forall|i: int| 0 <= i < terms0.len() ==> (#[trigger] terms0[i]).0 & !low_mask_spec(n as nat) == 0 {
                    lemma_originals_identity(n as nat, terms0);
                }
                let k = g_before.len() as int;
                assert(g.take(k) =~= g_before);
                assert(g.skip(k) =~= cxs);
                assert(rows@.subrange(0, n as int) =~= rows@);
                lemma_run_rows_concat(id, g_before, cxs);
                assert(tail_solves(n as nat, run_rows(id, g.take(k)), g.skip(k), res, target@));
                if cx_realizable(target@, n as nat) {
                    crate::combination::lemma_combination_realizable(n as nat, g_before, res, target@);
                    assert(run_rows(id, g.skip(k)) == masked_rows(res, n as nat));
                }
                assert(reaches_target(n as nat, g, target@));
            }
            Some((instructions, total_cnots))
        },
        None => None,
    }
}

} // verus!
