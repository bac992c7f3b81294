//! Linear combinations of wires over GF(2): how CNOT networks combine rows.
use vstd::prelude::*;
use crate::gf2::{apply_ops, apply_op, bit, identity_rows, ops_in_range, lemma_apply_ops_len, row_mask_spec, masked_rows,
    dot_upto, kills, cx_realizable, realizable_or_killed, lemma_dot_xor, lemma_dot_single, lemma_not_realizable};
use crate::parity_network::{xor_rows_upto, xor_rows, lemma_xor_algebra, lemma_xor_rows_single, NetGate, run_rows, cx_in_range};

verus! {

pub(crate) proof fn lemma_bit_xor(a: u128, b: u128, j: u128)
    requires
        j < 128,
    ensures
        bit(a ^ b, j as int) <==> (bit(a, j as int) != bit(b, j as int)),
{
    assert((((a ^ b) >> j) & 1 == 1) <==> ((((a >> j) & 1) == 1) != (((b >> j) & 1) == 1))) by (bit_vector)
        requires j < 128;
}

/// Combining wires is linear in the combination.
pub proof fn lemma_xor_rows_linear(rows: Seq<u128>, a: u128, b: u128, k: int)
    requires
        k <= 128,
    ensures
        xor_rows_upto(rows, a ^ b, k) == xor_rows_upto(rows, a, k) ^ xor_rows_upto(rows, b, k),
    decreases k,
{
    lemma_xor_algebra();
    if k > 0 {
        lemma_xor_rows_linear(rows, a, b, k - 1);
        let j = (k - 1) as u128;
        lemma_bit_xor(a, b, j);
        let x = xor_rows_upto(rows, a, k - 1);
        let y = xor_rows_upto(rows, b, k - 1);
        let r = rows[k - 1];
        if bit(a, k - 1) && bit(b, k - 1) {
            assert(((x ^ r) ^ (y ^ r)) == ((x ^ y) ^ (r ^ r)));
            assert((x ^ y) ^ 0u128 == x ^ y);
        } else if bit(a, k - 1) {
            assert(((x ^ r) ^ (y ^ 0u128)) == ((x ^ y) ^ (r ^ 0u128)));
            assert(y ^ 0u128 == y && r ^ 0u128 == r);
        } else if bit(b, k - 1) {
            assert(((x ^ 0u128) ^ (y ^ r)) == ((x ^ y) ^ (0u128 ^ r)));
            assert(x ^ 0u128 == x && 0u128 ^ r == r);
        } else {
            assert(((x ^ 0u128) ^ (y ^ 0u128)) == ((x ^ y) ^ (0u128 ^ 0u128)));
            assert(x ^ 0u128 == x && y ^ 0u128 == y && (x ^ y) ^ 0u128 == x ^ y);
        }
    }
}

/// CNOTs applied to any wires combine them just as they combine the unit
/// rows: wire `q` ends up carrying the combination of the starting wires
/// that row `q` of the CNOTs applied to `I_n` selects.
pub proof fn lemma_apply_ops_combines(rows: Seq<u128>, ops: Seq<(usize, usize)>)
    requires
        rows.len() <= 128,
        ops_in_range(ops, rows.len()),
    ensures
        apply_ops(rows, ops).len() == rows.len(),
        apply_ops(identity_rows(rows.len()), ops).len() == rows.len(),
        forall|q: int| 0 <= q < rows.len() ==>
            #[trigger] apply_ops(rows, ops)[q] == xor_rows(rows, apply_ops(identity_rows(rows.len()), ops)[q]),
    decreases ops.len(),
{
    let n = rows.len();
    let id = identity_rows(n);
    lemma_apply_ops_len(rows, ops);
    lemma_apply_ops_len(id, ops);
    if ops.len() == 0 {
        assert forall|q: int| 0 <= q < n implies #[trigger] apply_ops(rows, ops)[q] == xor_rows(rows, apply_ops(id, ops)[q]) by {
            lemma_xor_rows_single(rows, q as u128, n as int);
        }
    } else {
        let pre = ops.drop_last();
        assert(ops_in_range(pre, n)) by {
            assert forall|k: int| 0 <= k < pre.len() implies (#[trigger] pre[k]).0 < n && pre[k].1 < n by {
                assert(pre[k] == ops[k]);
            }
        }
        lemma_apply_ops_combines(rows, pre);
        let (c, t) = ops.last();
        assert(ops[ops.len() - 1] == ops.last());
        let m = apply_ops(rows, pre);
        let e = apply_ops(id, pre);
        assert forall|q: int| 0 <= q < n implies #[trigger] apply_ops(rows, ops)[q] == xor_rows(rows, apply_ops(id, ops)[q]) by {
            if q == t {
                lemma_xor_rows_linear(rows, e[t as int], e[c as int], n as int);
                assert(m[t as int] == xor_rows(rows, e[t as int]));
                assert(m[c as int] == xor_rows(rows, e[c as int]));
            } else {
                assert(m[q] == xor_rows(rows, e[q]));
            }
        }
    }
}


/// Masking to the first `n` columns keeps the bits below `n` and clears
/// the others.
pub(crate) proof fn lemma_bit_mask(y: u128, n: nat, j: int)
    requires
        0 <= j < 128,
        n <= 128,
    ensures
        bit(y & row_mask_spec(n), j) == (bit(y, j) && j < n),
{
    let jj = j as u128;
    let nn = n as u128;
    let m = row_mask_spec(n);
    assert(m == (if nn >= 128 { !0u128 } else { ((1u128 << nn) - 1) as u128 }));
    assert(((y & m) >> jj) & 1 == (if jj < nn { (y >> jj) & 1 } else { 0u128 })) by (bit_vector)
        requires jj < 128, nn <= 128, m == (if nn >= 128 { !0u128 } else { ((1u128 << nn) - 1) as u128 });
}

/// A combination only reads the bits of the wires it runs over.
pub proof fn lemma_xor_rows_same_bits(rows: Seq<u128>, y: u128, z: u128, k: int)
    requires
        forall|j: int| 0 <= j < k ==> #[trigger] bit(y, j) == bit(z, j),
    ensures
        xor_rows_upto(rows, y, k) == xor_rows_upto(rows, z, k),
    decreases k,
{
    if k > 0 {
        lemma_xor_rows_same_bits(rows, y, z, k - 1);
        assert(bit(y, k - 1) == bit(z, k - 1));
    }
}

/// A combination of `n` wires ignores bits from `n` on.
pub proof fn lemma_xor_rows_masked(rows: Seq<u128>, y: u128)
    requires
        rows.len() <= 128,
    ensures
        xor_rows(rows, y & row_mask_spec(rows.len())) == xor_rows(rows, y),
{
    assert forall|j: int| 0 <= j < rows.len() implies #[trigger] bit(y & row_mask_spec(rows.len()), j) == bit(y, j) by {
        lemma_bit_mask(y, rows.len(), j);
    }
    lemma_xor_rows_same_bits(rows, y & row_mask_spec(rows.len()), y, rows.len() as int);
}

/// The CX gates of a network act as the list of their wire pairs.
pub open spec fn cx_pairs(gs: Seq<NetGate>) -> Seq<(usize, usize)> {
    gs.map_values(|g: NetGate| match g { NetGate::Cx(c, t) => (c, t), NetGate::Rz(q, _) => (q as usize, q as usize) })
}

/// Running CX gates applies their pairs.
pub proof fn lemma_run_rows_cx(rows: Seq<u128>, gs: Seq<NetGate>)
    requires
        forall|i: int| 0 <= i < gs.len() ==> #[trigger] gs[i] is Cx,
    ensures
        run_rows(rows, gs) == apply_ops(rows, cx_pairs(gs)),
    decreases gs.len(),
{
    if gs.len() > 0 {
        let pre = gs.drop_last();
        assert forall|i: int| 0 <= i < pre.len() implies #[trigger] pre[i] is Cx by {
            assert(pre[i] == gs[i]);
        }
        lemma_run_rows_cx(rows, pre);
        assert(cx_pairs(gs).drop_last() =~= cx_pairs(pre));
        assert(gs[gs.len() - 1] is Cx);
    }
}

/// Running one network after another.
pub proof fn lemma_run_rows_concat(rows: Seq<u128>, a: Seq<NetGate>, b: Seq<NetGate>)
    ensures
        run_rows(rows, a + b) == run_rows(run_rows(rows, a), b),
    decreases b.len(),
{
    if b.len() == 0 {
        assert(a + b =~= a);
    } else {
        assert((a + b).drop_last() =~= a + b.drop_last());
        assert((a + b).last() == b.last());
        lemma_run_rows_concat(rows, a, b.drop_last());
    }
}

/// Running gates keeps the number of wires.
pub proof fn lemma_run_rows_len(rows: Seq<u128>, gs: Seq<NetGate>)
    ensures
        run_rows(rows, gs).len() == rows.len(),
    decreases gs.len(),
{
    if gs.len() > 0 {
        lemma_run_rows_len(rows, gs.drop_last());
    }
}

/// The empty word meets nothing.
proof fn lemma_dot_zero(u: u128, k: int)
    ensures
        !dot_upto(0u128, u, k),
    decreases k,
{
    if k > 0 {
        lemma_dot_zero(u, k - 1);
        crate::gf2::lemma_zero_bits((k - 1) as u128);
    }
}

/// Masking to the first `n` columns does not change what a word meets there.
proof fn lemma_dot_masked(x: u128, w: u128, n: nat, k: int)
    requires
        k <= n <= 128,
    ensures
        dot_upto(x & row_mask_spec(n), w, k) == dot_upto(x, w, k),
    decreases k,
{
    if k > 0 {
        lemma_dot_masked(x, w, n, k - 1);
        lemma_bit_mask(x, n, k - 1);
    }
}

/// A word that meets something holds a column below the bound.
proof fn lemma_dot_some_bit(x: u128, u: u128, k: int)
    requires
        dot_upto(x, u, k),
    ensures
        exists|c: int| 0 <= c < k && #[trigger] bit(u, c),
    decreases k,
{
    if k > 0 {
        if dot_upto(x, u, k - 1) {
            lemma_dot_some_bit(x, u, k - 1);
            let c = choose|c: int| 0 <= c < k - 1 && #[trigger] bit(u, c);
            assert(bit(u, c));
        } else {
            assert(bit(u, k - 1));
        }
    } else {
        assert(!dot_upto(x, u, k));
    }
}

/// Word `u` meets row `j` exactly where `z` holds bit `j`.
pub open spec fn reads_as(rows: Seq<u128>, u: u128, z: u128, n: nat) -> bool {
    forall|j: int| 0 <= j < n ==> #[trigger] dot_upto(rows[j], u, n as int) == bit(z, j)
}

/// For the wires that a CX network leaves on the unit rows, any pattern of
/// meets is reached by some word: the network is invertible.
pub proof fn lemma_dual_exists(n: nat, gs: Seq<NetGate>, z: u128)
    requires
        n <= 128,
        cx_in_range(gs, n),
    ensures
        exists|u: u128| #[trigger] reads_as(run_rows(identity_rows(n), gs), u, z, n),
    decreases gs.len(),
{
    let id = identity_rows(n);
    if gs.len() == 0 {
        assert forall|j: int| 0 <= j < n implies #[trigger] dot_upto(run_rows(id, gs)[j], z, n as int) == bit(z, j) by {
            lemma_dot_single(j as u128, z, n as int);
        }
        assert(reads_as(run_rows(id, gs), z, z, n));
    } else {
        let pre = gs.drop_last();
        assert(cx_in_range(pre, n)) by {
            assert forall|i: int| 0 <= i < pre.len() implies (#[trigger] pre[i] matches NetGate::Cx(c, t) ==> c < n && t < n && c != t) by {
                assert(pre[i] == gs[i]);
            }
        }
        lemma_run_rows_len(id, pre);
        let w0 = run_rows(id, pre);
        match gs.last() {
            NetGate::Rz(_, _) => {
                lemma_dual_exists(n, pre, z);
                let u = choose|u: u128| #[trigger] reads_as(w0, u, z, n);
                assert forall|j: int| 0 <= j < n implies #[trigger] dot_upto(run_rows(id, gs)[j], u, n as int) == bit(z, j) by {
                    assert(run_rows(id, gs) == w0);
                }
                assert(reads_as(run_rows(id, gs), u, z, n));
            },
            NetGate::Cx(a, t) => {
                assert(gs[gs.len() - 1] == gs.last());
                assert(a < n && t < n && a != t);
                let z0 = if bit(z, a as int) { z ^ (1u128 << (t as u128)) } else { z };
                lemma_dual_exists(n, pre, z0);
                let u = choose|u: u128| #[trigger] reads_as(w0, u, z0, n);
                let w1 = run_rows(id, gs);
                assert(w1 == apply_op(w0, (a, t)));
                assert forall|j: int| 0 <= j < n implies #[trigger] dot_upto(w1[j], u, n as int) == bit(z, j) by {
                    crate::parity_network::lemma_bit_toggle(z, t as u128, j as u128);
                    crate::parity_network::lemma_bit_toggle(z, t as u128, a as u128);
                    assert(dot_upto(w0[j], u, n as int) == bit(z0, j));
                    if j == t as int {
                        assert(w1[j] == w0[t as int] ^ w0[a as int]);
                        lemma_dot_xor(w0[t as int], w0[a as int], u, n as int);
                        assert(dot_upto(w0[a as int], u, n as int) == bit(z0, a as int));
                    } else {
                        assert(w1[j] == w0[j]);
                    }
                }
                assert(reads_as(w1, u, z, n));
            },
        }
    }
}

/// What a combination of wires meets, through words that read the wires as
/// the columns of `w`.
proof fn lemma_dot_xor_rows(rows: Seq<u128>, y: u128, u: u128, w: u128, n: nat, k: int)
    requires
        rows.len() == n,
        n <= 128,
        0 <= k <= n,
        forall|j: int| 0 <= j < n ==> #[trigger] dot_upto(rows[j], u, n as int) == bit(w, j),
    ensures
        dot_upto(xor_rows_upto(rows, y, k), u, n as int) == dot_upto(y, w, k),
    decreases k,
{
    if k > 0 {
        lemma_dot_xor_rows(rows, y, u, w, n, k - 1);
        let sel = if bit(y, k - 1) { rows[k - 1] } else { 0u128 };
        lemma_dot_xor(xor_rows_upto(rows, y, k - 1), sel, u, n as int);
        lemma_dot_zero(u, n as int);
        assert(dot_upto(rows[k - 1], u, n as int) == bit(w, k - 1));
        assert(xor_rows_upto(rows, y, k) == xor_rows_upto(rows, y, k - 1) ^ sel);
        assert(dot_upto(sel, u, n as int) == (bit(y, k - 1) && bit(w, k - 1)));
        assert(dot_upto(y, w, k) == (dot_upto(y, w, k - 1) != (bit(y, k - 1) && bit(w, k - 1))));
    } else {
        lemma_dot_zero(u, n as int);
    }
}

/// If a CX network's wires combine by `res` into an invertible `target`,
/// then `res` is invertible too.
pub proof fn lemma_combination_realizable(n: nat, pre: Seq<NetGate>, res: Seq<u128>, target: Seq<u128>)
    requires
        n <= 128,
        cx_in_range(pre, n),
        res.len() == n,
        target.len() >= n,
        forall|q: int| 0 <= q < n ==> xor_rows(run_rows(identity_rows(n), pre), #[trigger] res[q]) == target[q],
        cx_realizable(target, n),
        realizable_or_killed(res, n),
    ensures
        cx_realizable(res, n),
{
    if !cx_realizable(res, n) {
        let (w, c) = choose|w: u128, c: int| #![trigger kills(masked_rows(res, n), w, n), bit(w, c)]
            0 <= c < n && bit(w, c) && kills(masked_rows(res, n), w, n);
        let id = identity_rows(n);
        let wires = run_rows(id, pre);
        lemma_run_rows_len(id, pre);
        lemma_dual_exists(n, pre, w);
        let u = choose|u: u128| #[trigger] reads_as(wires, u, w, n);
        let mt = masked_rows(target, n);
        assert forall|q: int| 0 <= q < mt.len() implies !#[trigger] dot_upto(mt[q], u, n as int) by {
            lemma_dot_masked(target[q], u, n, n as int);
            lemma_dot_xor_rows(wires, res[q], u, w, n, n as int);
            lemma_dot_masked(res[q], w, n, n as int);
            assert(masked_rows(res, n)[q] == res[q] & row_mask_spec(n));
            assert(!dot_upto(masked_rows(res, n)[q], w, n as int));
        }
        assert(dot_upto(wires[c], u, n as int));
        lemma_dot_some_bit(wires[c], u, n as int);
        let c2 = choose|c2: int| 0 <= c2 < n && #[trigger] bit(u, c2);
        assert(mt == apply_ops(masked_rows(target, n), Seq::<(usize, usize)>::empty()));
        lemma_not_realizable(target, n, mt, Seq::<(usize, usize)>::empty(), u, c2);
    }
}

} // verus!

