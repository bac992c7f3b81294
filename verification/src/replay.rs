//! Replaying a linear circuit through the engine: what the CX and `X`
//! entry points make of the identity, row by row.
use vstd::prelude::*;
use crate::evaluator::EvaluatedPathSum;
use crate::gf2::{apply_op, apply_ops, identity_rows, ops_in_range, ops_distinct, masked_rows};
use crate::pathsum::{cx_outcome, is_identity_state, gate_outcome, Gate, x_offsets_upto, row_masks, rows_affine};
use crate::sorted::{toggle, toggle_all, strictly_sorted};
use crate::bits::{zero_or_pow2, low_mask_spec};
use crate::boolean_poly::{BooleanPoly, or_fold};

verus! {

/// The row whose monomials are the single variables named by the bits of
/// `m`, with no constant term.
pub open spec fn linear_row(m: u128) -> Set<u128> {
    Set::new(|x: u128| x != 0 && zero_or_pow2(x) && x & m != 0)
}

/// The monomials in exactly one of `a` and `b` (their GF(2) sum).
pub open spec fn sym_diff(a: Set<u128>, b: Set<u128>) -> Set<u128> {
    a.difference(b).union(b.difference(a))
}

/// Toggling the monomials of a list without repeats adds their set.
proof fn lemma_toggle_all_sym_diff(s: Set<u128>, ts: Seq<u128>)
    requires
        strictly_sorted(ts),
    ensures
        toggle_all(s, ts) == sym_diff(s, ts.to_set()),
    decreases ts.len(),
{
    if ts.len() == 0 {
        assert(ts.to_set() =~= Set::<u128>::empty());
        assert(sym_diff(s, Set::<u128>::empty()) =~= s);
    } else {
        let init = ts.drop_last();
        let x = ts.last();
        lemma_toggle_all_sym_diff(s, init);
        assert(!init.contains(x)) by {
            if init.contains(x) {
                let k = choose|k: int| 0 <= k < init.len() && init[k] == x;
                assert(ts[k] < ts[ts.len() - 1]);
            }
        }
        assert(ts.to_set() =~= init.to_set().insert(x)) by {
            assert forall|y: u128| ts.contains(y) <==> init.contains(y) || y == x by {
                if ts.contains(y) {
                    let k = choose|k: int| 0 <= k < ts.len() && ts[k] == y;
                    if k < ts.len() - 1 {
                        assert(init[k] == y);
                    }
                }
                if init.contains(y) {
                    let k = choose|k: int| 0 <= k < init.len() && init[k] == y;
                    assert(ts[k] == y);
                }
                if y == x {
                    assert(ts[ts.len() - 1] == y);
                }
            }
        }
        assert(toggle_all(s, ts) =~= sym_diff(s, ts.to_set()));
    }
}

/// The GF(2) sum of two linear rows is the row of the XOR of their masks.
proof fn lemma_linear_xor(a: u128, b: u128)
    ensures
        sym_diff(linear_row(a), linear_row(b)) == linear_row(a ^ b),
{
    assert forall|x: u128| #[trigger] linear_row(a ^ b).contains(x) <==> sym_diff(linear_row(a), linear_row(b)).contains(x) by {
        if x != 0 && zero_or_pow2(x) {
            crate::bits::lemma_single_bit_meets(x, a, b, 0);
        }
    }
    assert(sym_diff(linear_row(a), linear_row(b)) =~= linear_row(a ^ b));
}

/// The row of a single bit is that variable alone.
proof fn lemma_linear_unit(i: u128)
    requires
        i < 128,
    ensures
        linear_row(1u128 << i) == Set::<u128>::empty().insert(1u128 << i),
{
    assert forall|x: u128| #[trigger] linear_row(1u128 << i).contains(x) <==> x == 1u128 << i by {
        if x != 0 && zero_or_pow2(x) {
            crate::bits::lemma_single_bit_meets(x, 0, 0, i);
        }
        assert(zero_or_pow2(1u128 << i) && 1u128 << i != 0) by {
            crate::bits::lemma_bit_ops(0, 0, i);
            crate::parity_network::lemma_bit_single(i, i);
            crate::gf2::lemma_zero_bits(i);
        }
        crate::bits::lemma_and_absorb(1u128 << i, 0);
    }
    assert(linear_row(1u128 << i) =~= Set::<u128>::empty().insert(1u128 << i));
}

/// Replaying a CX list (distinct wires below `n`) from the identity through
/// the CX entry point adds no path variable and no phase, and leaves as row
/// `i` exactly the variables that row `i` of the list's GF(2) matrix names.
pub proof fn law_cx_replay_rows(n: nat, width: u32, ops: Seq<(usize, usize)>, steps: Seq<EvaluatedPathSum>)
    requires
        steps.len() == ops.len() + 1,
        is_identity_state(steps[0], width, n),
        ops_in_range(ops, n),
        ops_distinct(ops),
        forall|k: int| 0 <= k < ops.len() ==> cx_outcome(#[trigger] steps[k], ops[k].0 as i64, ops[k].1 as i64, steps[k + 1]),
    ensures
        steps.last().wf(),
        steps.last().width == width,
        steps.last().num_qubits == n,
        steps.last().num_path_vars == 0,
        steps.last().overflow_id == 0,
        steps.last().phase_poly == steps[0].phase_poly,
        steps.last().continuous_poly == steps[0].continuous_poly,
        forall|i: int| 0 <= i < n ==> #[trigger] steps.last().row(i) == linear_row(apply_ops(identity_rows(n), ops)[i]),
    decreases ops.len(),
{
    let m = apply_ops(identity_rows(n), ops);
    if ops.len() == 0 {
        assert forall|i: int| 0 <= i < n implies #[trigger] steps.last().row(i) == linear_row(m[i]) by {
            lemma_linear_unit(i as u128);
        }
    } else {
        let k = ops.len() - 1;
        let pre_ops = ops.drop_last();
        let pre_steps = steps.drop_last();
        assert forall|j: int| 0 <= j < pre_ops.len() implies cx_outcome(#[trigger] pre_steps[j], pre_ops[j].0 as i64, pre_ops[j].1 as i64, pre_steps[j + 1]) by {
            assert(pre_steps[j] == steps[j] && pre_steps[j + 1] == steps[j + 1] && pre_ops[j] == ops[j]);
            assert(cx_outcome(steps[j], ops[j].0 as i64, ops[j].1 as i64, steps[j + 1]));
        }
        law_cx_replay_rows(n, width, pre_ops, pre_steps);
        let prev = steps[k];
        assert(prev == pre_steps.last());
        let last = steps[k + 1];
        assert(last == steps.last());
        let (c, t) = ops[k];
        assert(cx_outcome(prev, c as i64, t as i64, last));
        let m0 = apply_ops(identity_rows(n), pre_ops);
        assert(m == apply_op(m0, (c, t)));
        assert(m0.len() == n) by {
            crate::gf2::lemma_apply_ops_len(identity_rows(n), pre_ops);
        }
        assert(prev.row(t as int) == linear_row(m0[t as int]));
        assert(prev.row(c as int) == linear_row(m0[c as int]));
        let tc = prev.out_state@[c as int].terms@;
        assert(prev.out_state@[c as int].wf());
        lemma_toggle_all_sym_diff(prev.row(t as int), tc);
        lemma_linear_xor(m0[t as int], m0[c as int]);
        assert(prev.num_path_vars == 0 && prev.num_qubits == n);
        assert(c != t && c < n && t < n);
        assert(last.row(t as int) == toggle_all(prev.row(t as int), tc));
        assert(tc.to_set() == prev.row(c as int));
        assert(m[t as int] == m0[t as int] ^ m0[c as int]);
        assert(last.row(t as int) == linear_row(m[t as int]));
        assert forall|i: int| 0 <= i < n implies #[trigger] last.row(i) == linear_row(m[i]) by {
            if i != t {
                assert(pre_steps.last().row(i) == linear_row(m0[i]));
                assert(last.out_state@[i] == prev.out_state@[i]);
                assert(m[i] == m0[i]);
            }
        }
    }
}

/// A single-bit monomial meets the OR of a list of zero-or-single-bit
/// monomials exactly when it is one of them.
proof fn lemma_or_fold_bits(ts: Seq<u128>, x: u128)
    requires
        x != 0,
        zero_or_pow2(x),
        forall|k: int| 0 <= k < ts.len() ==> zero_or_pow2(#[trigger] ts[k]),
    ensures
        (x & or_fold(ts) != 0) <==> ts.contains(x),
    decreases ts.len(),
{
    if ts.len() == 0 {
        crate::bits::lemma_xor_algebra(x, 0, 0);
    } else {
        let init = ts.drop_last();
        let l = ts.last();
        lemma_or_fold_bits(init, x);
        let a = or_fold(init);
        assert(zero_or_pow2(l));
        crate::bits::lemma_single_bit_meets(x, a, l, 0);
        assert(ts.contains(x) <==> init.contains(x) || x == l) by {
            if ts.contains(x) {
                let k = choose|k: int| 0 <= k < ts.len() && ts[k] == x;
                if k < ts.len() - 1 {
                    assert(init[k] == x);
                }
            }
            if init.contains(x) {
                let k = choose|k: int| 0 <= k < init.len() && init[k] == x;
                assert(ts[k] == x);
            }
            if x == l {
                assert(ts[ts.len() - 1] == x);
            }
        }
    }
}

/// An affine row is the linear row of its variable mask, plus the constant
/// when it has one.
proof fn lemma_affine_row(p: BooleanPoly)
    requires
        p.wf(),
        forall|k: int| 0 <= k < p.terms@.len() ==> zero_or_pow2(#[trigger] p.terms@[k]),
    ensures
        p.monomials() == if p.terms@.contains(0) { linear_row(p.variable_mask).insert(0) } else { linear_row(p.variable_mask) },
{
    let ts = p.terms@;
    assert forall|x: u128| #[trigger] p.monomials().contains(x) <==> (if ts.contains(0) { linear_row(p.variable_mask).insert(0) } else { linear_row(p.variable_mask) }).contains(x) by {
        if x != 0 && zero_or_pow2(x) {
            lemma_or_fold_bits(ts, x);
        }
        if ts.contains(x) {
            let k = choose|k: int| 0 <= k < ts.len() && ts[k] == x;
            assert(zero_or_pow2(ts[k]));
        }
    }
    assert(p.monomials() =~= if ts.contains(0) { linear_row(p.variable_mask).insert(0) } else { linear_row(p.variable_mask) });
}

/// The wires listed by the `X` layer are in increasing order, below `k`,
/// and are the rows before `k` that carry the constant.
proof fn lemma_x_offsets(s: EvaluatedPathSum, k: int)
    requires
        0 <= k <= s.out_state@.len(),
        s.out_state@.len() <= 128,
    ensures
        forall|a: int, b: int| 0 <= a < b < x_offsets_upto(s, k).len() ==> x_offsets_upto(s, k)[a] < x_offsets_upto(s, k)[b],
        forall|a: int| 0 <= a < x_offsets_upto(s, k).len() ==> #[trigger] x_offsets_upto(s, k)[a] < k,
        forall|i: int| 0 <= i < k ==> (x_offsets_upto(s, k).contains(i as usize) <==> #[trigger] s.out_state@[i].terms@.contains(0)),
    decreases k,
{
    if k > 0 {
        lemma_x_offsets(s, k - 1);
        let prev = x_offsets_upto(s, k - 1);
        let cur = x_offsets_upto(s, k);
        let has = s.out_state@[k - 1].terms@.contains(0);
        if has {
            assert(cur == prev.push((k - 1) as usize));
        } else {
            assert(cur == prev);
        }
        assert forall|a: int, b: int| 0 <= a < b < cur.len() implies cur[a] < cur[b] by {
            if has && b == cur.len() - 1 {
                assert(cur[a] == prev[a]);
            } else {
                assert(cur[a] == prev[a] && cur[b] == prev[b]);
            }
        }
        assert forall|a: int| 0 <= a < cur.len() implies #[trigger] cur[a] < k by {
            if a < prev.len() {
                assert(cur[a] == prev[a]);
            }
        }
        assert forall|i: int| 0 <= i < k implies (cur.contains(i as usize) <==> #[trigger] s.out_state@[i].terms@.contains(0)) by {
            if i < k - 1 {
                if cur.contains(i as usize) {
                    let a = choose|a: int| 0 <= a < cur.len() && cur[a] == i as usize;
                    if a < prev.len() {
                        assert(prev[a] == i as usize);
                        assert(prev.contains(i as usize));
                    } else {
                        assert(cur[a] == (k - 1) as usize);
                    }
                }
                if prev.contains(i as usize) {
                    let a = choose|a: int| 0 <= a < prev.len() && prev[a] == i as usize;
                    assert(cur[a] == i as usize);
                }
            } else {
                if has {
                    assert(cur[cur.len() - 1] == i as usize);
                } else if cur.contains(i as usize) {
                    let a = choose|a: int| 0 <= a < cur.len() && cur[a] == i as usize;
                    assert(prev[a] < k - 1);
                }
            }
        }
    }
}

/// Replaying `X` on the listed wires (in increasing order) through the single-qubit
/// entry point, on a path sum without path variables, flips the constant
/// term of exactly those rows.
proof fn lemma_x_layer(xs: Seq<usize>, steps: Seq<EvaluatedPathSum>)
    requires
        steps.len() == xs.len() + 1,
        steps[0].wf(),
        steps[0].num_path_vars == 0,
        forall|a: int, b: int| 0 <= a < b < xs.len() ==> xs[a] < xs[b],
        forall|a: int| 0 <= a < xs.len() ==> #[trigger] xs[a] < steps[0].num_qubits,
        forall|k: int| 0 <= k < xs.len() ==> gate_outcome(#[trigger] steps[k], xs[k] as i64, Gate::X, steps[k + 1]),
    ensures
        steps.last().wf(),
        steps.last().num_qubits == steps[0].num_qubits,
        steps.last().num_path_vars == 0,
        forall|i: int| 0 <= i < steps[0].num_qubits ==> #[trigger] steps.last().row(i)
            == if xs.contains(i as usize) { toggle(steps[0].row(i), 0) } else { steps[0].row(i) },
    decreases xs.len(),
{
    if xs.len() > 0 {
        let k = xs.len() - 1;
        let pre = xs.drop_last();
        let ps = steps.drop_last();
        assert forall|j: int| 0 <= j < pre.len() implies gate_outcome(#[trigger] ps[j], pre[j] as i64, Gate::X, ps[j + 1]) by {
            assert(ps[j] == steps[j] && ps[j + 1] == steps[j + 1] && pre[j] == xs[j]);
            assert(gate_outcome(steps[j], xs[j] as i64, Gate::X, steps[j + 1]));
        }
        lemma_x_layer(pre, ps);
        let prev = steps[k];
        assert(prev == ps.last());
        let last = steps[k + 1];
        assert(last == steps.last());
        let q = xs[k];
        assert(gate_outcome(prev, q as i64, Gate::X, last));
        assert forall|i: int| 0 <= i < steps[0].num_qubits implies #[trigger] steps.last().row(i)
            == if xs.contains(i as usize) { toggle(steps[0].row(i), 0) } else { steps[0].row(i) } by {
            assert(ps.last().row(i) == if pre.contains(i as usize) { toggle(steps[0].row(i), 0) } else { steps[0].row(i) });
            assert(xs.contains(i as usize) <==> pre.contains(i as usize) || i == q) by {
                if xs.contains(i as usize) {
                    let a = choose|a: int| 0 <= a < xs.len() && xs[a] == i as usize;
                    if a < xs.len() - 1 {
                        assert(pre[a] == i as usize);
                    }
                }
                if pre.contains(i as usize) {
                    let a = choose|a: int| 0 <= a < pre.len() && pre[a] == i as usize;
                    assert(xs[a] == i as usize);
                }
                if i == q {
                    assert(xs[xs.len() - 1] == i as usize);
                }
            }
            if i == q {
                assert(!pre.contains(i as usize)) by {
                    if pre.contains(i as usize) {
                        let a = choose|a: int| 0 <= a < pre.len() && pre[a] == i as usize;
                        assert(xs[a] < xs[k]);
                    }
                }
            }
        }
    }
}

/// A linear resynthesis replays to the block it came from: on a path sum
/// whose rows are affine in its qubits, a CX list (distinct wires below `n`)
/// that builds the matrix of the rows, replayed from the identity through
/// the CX entry point and followed by `X` on the wires whose rows carry the
/// constant (in increasing order, through the single-qubit entry point), gives back
/// every row of the path sum, with no path variable.
pub proof fn law_linear_round_trip(state: EvaluatedPathSum, ops: Seq<(usize, usize)>,
    cx_steps: Seq<EvaluatedPathSum>, x_steps: Seq<EvaluatedPathSum>)
    requires
        state.wf(),
        rows_affine(state),
        forall|i: int| 0 <= i < state.num_qubits
            ==> #[trigger] state.out_state@[i].variable_mask & !low_mask_spec(state.num_qubits as nat) == 0,
        ops_in_range(ops, state.num_qubits as nat),
        ops_distinct(ops),
        apply_ops(identity_rows(state.num_qubits as nat), ops) == masked_rows(row_masks(state), state.num_qubits as nat),
        cx_steps.len() == ops.len() + 1,
        is_identity_state(cx_steps[0], state.width, state.num_qubits as nat),
        forall|k: int| 0 <= k < ops.len() ==> cx_outcome(#[trigger] cx_steps[k], ops[k].0 as i64, ops[k].1 as i64, cx_steps[k + 1]),
        x_steps.len() == x_offsets_upto(state, state.num_qubits as int).len() + 1,
        x_steps[0] == cx_steps.last(),
        forall|k: int| 0 <= k < x_offsets_upto(state, state.num_qubits as int).len() ==>
            gate_outcome(#[trigger] x_steps[k], x_offsets_upto(state, state.num_qubits as int)[k] as i64, Gate::X, x_steps[k + 1]),
    ensures
        x_steps.last().wf(),
        x_steps.last().num_qubits == state.num_qubits,
        x_steps.last().num_path_vars == 0,
        forall|i: int| 0 <= i < state.num_qubits ==> #[trigger] x_steps.last().row(i) == state.row(i),
{
    let n = state.num_qubits as nat;
    let xs = x_offsets_upto(state, n as int);
    law_cx_replay_rows(n, state.width, ops, cx_steps);
    lemma_x_offsets(state, n as int);
    lemma_x_layer(xs, x_steps);
    let m = apply_ops(identity_rows(n), ops);
    assert forall|i: int| 0 <= i < n implies #[trigger] x_steps.last().row(i) == state.row(i) by {
        let p = state.out_state@[i];
        let vm = p.variable_mask;
        let lo = low_mask_spec(n);
        assert(vm & !lo == 0);
        crate::bits::lemma_xor_algebra(vm, lo, 0);
        assert(m[i] == vm);
        assert(cx_steps.last().row(i) == linear_row(m[i]));
        assert(x_steps[0].row(i) == linear_row(vm));
        assert forall|k: int| 0 <= k < p.terms@.len() implies zero_or_pow2(#[trigger] p.terms@[k]) by {
            assert(zero_or_pow2(state.out_state@[i].terms@[k]));
        }
        lemma_affine_row(p);
        assert(!linear_row(vm).contains(0));
        if p.terms@.contains(0) {
            assert(xs.contains(i as usize));
            assert(toggle(linear_row(vm), 0) =~= linear_row(vm).insert(0));
        } else {
            assert(!xs.contains(i as usize));
        }
    }
}

} // verus!
