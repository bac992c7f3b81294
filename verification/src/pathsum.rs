//! Gate-level entry points on path sums: gate application with the
//! out-of-range shields, linear-block resynthesis, and canonical fingerprints.
use vstd::prelude::*;
use vstd::string::{StringExecFns, StrSliceExecFns};
use crate::boolean_poly::BooleanPoly;
use crate::evaluator::{EvaluatedPathSum, phase_added, rz_added, promoted, lemma_promoted_idle, h_added};
use crate::reduction::{pivot_scan, path_mask_of, gauge_settled, rows_gauge_settled, reduced, gauge_followed};
use crate::gf2::lemma_zero_bits;
use crate::ticks::TICKS_PER_PI_4;
use crate::sorted::{toggle, toggle_all};
use crate::bits::{low_mask, low_mask_spec, is_zero_or_pow2, zero_or_pow2};
use vstd::wrapping::i64_specs;
use crate::gf2::{apply_ops, bit, identity_rows, masked_rows, ops_in_range, synthesize_cnot_matrix, cx_realizable, gf2_rank_is, echelon_with,
    lemma_three_cx_swap, lemma_apply_ops_push, apply_op, ops_distinct};
use crate::render::{dec, joined, push_decimal, join_with, list_text, bracket_list, decimals,
    self_delimiting, delimited, starts_off_digit, lemma_dec_self_delimiting, lemma_list_text_unique,
    lemma_dec_prefix_unique, lemma_strip_prefix};
use crate::phase_poly::PackedPhaseTerm;
use crate::gray::{synthesize_gray_network, places_all_terms, reaches_target};
use crate::parity_network::{NetGate, gate_texts, cx_in_range, cx_count, rotations};
use vstd::multiset::Multiset;
use crate::steiner::{Topology, steiner_phase_blocks, steiner_linear_tail, rotation_blocks, concat_blocks,
    saturated, saturated_sum, texts, linear_tail, lemma_relink_rotation_blocks, lemma_relink_linear_tail};
use crate::edges::coupling_of;

verus! {

/// A single-qubit gate of the engine.
#[derive(Clone, Copy, Debug, PartialEq, Eq)]
pub enum Gate {
    X,
    Z,
    S,
    Sdg,
    T,
    Tdg,
    H,
    Sx,
}

/// The gates that only add a phase.
pub open spec fn is_phase_gate(g: Gate) -> bool {
    g is Z || g is S || g is Sdg || g is T || g is Tdg
}

/// Units of π/4 that `Z`, `S` and `S†` add to the parity of their row.
pub open spec fn gate_units(g: Gate) -> u8 {
    match g {
        Gate::Z => 4u8,
        Gate::S => 2u8,
        Gate::Sdg => 6u8,
        _ => 0u8,
    }
}

/// Ticks that `T` and `T†` add to the parity of their row.
pub open spec fn gate_ticks(g: Gate) -> u32 {
    match g {
        Gate::T => TICKS_PER_PI_4 as u32,
        Gate::Tdg => (7 * TICKS_PER_PI_4) as u32,
        _ => 0u32,
    }
}

/// `Z`, `S` or `S†`: a Clifford phase in units of π/4.
pub open spec fn is_unit_phase_gate(g: Gate) -> bool {
    g is Z || g is S || g is Sdg
}

/// The identity operator on `n` qubits in an engine of the given width.
pub open spec fn is_identity_state(s: EvaluatedPathSum, width: u32, n: nat) -> bool {
    &&& s.wf()
    &&& s.width == width
    &&& s.num_qubits == n
    &&& s.num_path_vars == 0
    &&& s.overflow_id == 0
    &&& forall|i: int| 0 <= i < n ==> #[trigger] s.row(i) == Set::<u128>::empty().insert(1u128 << (i as u128))
    &&& s.phase_poly.terms@.len() == 0
    &&& s.continuous_poly.parities@.len() == 0
}

/// What one gate on wire `q` makes of `a` before any reduction: the frame
/// of widths stays and at most one path variable is added; an overflowed
/// state takes no `H` or `SX`; phase gates keep the rows and add their phase
/// on the parity of row `q`; `X` flips the constant term of row `q` and
/// nothing else; `H` and `SX` take a fresh path variable (`H` as
/// [`h_added`] states), or mark the state overflowed when none is left.
pub open spec fn raw_applied(a: EvaluatedPathSum, q: int, gate: Gate, b: EvaluatedPathSum) -> bool {
    &&& b.wf()
    &&& b.width == a.width
    &&& b.num_qubits == a.num_qubits
    &&& b.num_path_vars <= a.num_path_vars + 1
    &&& (a.overflow_id != 0 ==> b.overflow_id == a.overflow_id)
    &&& (a.overflow_id != 0 && (gate is H || gate is Sx) ==> b == a)
    &&& (is_phase_gate(gate) ==> b.out_state == a.out_state && b.num_path_vars == a.num_path_vars)
    &&& (gate is X ==> b.row(q) == toggle(a.row(q), 0)
        && (forall|i: int| 0 <= i < a.num_qubits && i != q ==> #[trigger] b.row(i) == a.row(i))
        && b.num_path_vars == a.num_path_vars
        && b.overflow_id == a.overflow_id
        && b.phase_poly == a.phase_poly
        && b.continuous_poly == a.continuous_poly)
    &&& (is_unit_phase_gate(gate) ==> phase_added(a, q, gate_units(gate), b))
    &&& (gate is T || gate is Tdg ==> rz_added(a, q, gate_ticks(gate), b))
    &&& ((gate is H || gate is Sx) && a.overflow_id == 0 && a.has_capacity() ==>
        b.overflow_id == 0 && b.num_path_vars == a.num_path_vars + 1)
    &&& ((gate is H || gate is Sx) && a.overflow_id == 0 && !a.has_capacity() ==>
        b.overflow_id != 0 && b.out_state == a.out_state && b.phase_poly == a.phase_poly
        && b.num_path_vars == a.num_path_vars)
    &&& (gate is H && a.overflow_id == 0 && a.has_capacity() ==> h_added(a, q, b))
}

/// What a single-qubit gate through the reducing entry point makes of
/// `state`: an out-of-range qubit leaves it unchanged; otherwise `gate`
/// acts on `state` as [`raw_applied`] states and the outcome is then
/// reduced as [`reduced`] states. An overflowed state takes no further `H` or `SX`, and
/// an `H` or `SX` without a free path variable marks the state overflowed.
/// On a path sum without path variables a phase gate keeps the rows, `Z`,
/// `S` and `S†` add their units on the parity of row `q` (after which the
/// continuous angles are promoted), `T` and `T†` add their ticks exactly as
/// `RZ` does, `X` flips the constant term of row `q`, and `H` (rows on the
/// qubits) leaves its new variable as row `q` in the settled gauge. With one
/// path variable in the settled gauge the phase gates act as they do
/// without one.
pub open spec fn gate_outcome(state: EvaluatedPathSum, q: i64, gate: Gate, r: EvaluatedPathSum) -> bool {
    &&& r.wf()
    &&& r.width == state.width
    &&& r.num_qubits == state.num_qubits
    &&& r.num_path_vars <= state.num_path_vars + 1
    &&& (q < 0 || q >= state.num_qubits ==> r == state)
    &&& (0 <= q < state.num_qubits ==> exists|mid: EvaluatedPathSum| #![trigger raw_applied(state, q as int, gate, mid)]
        raw_applied(state, q as int, gate, mid) && reduced(mid, r))
    &&& (state.overflow_id != 0 ==> r.overflow_id == state.overflow_id)
    &&& (state.overflow_id != 0 && (gate is H || gate is Sx) ==> r == state)
    &&& (0 <= q < state.num_qubits && state.num_path_vars == 0 && is_phase_gate(gate) ==>
        r.out_state == state.out_state && r.num_path_vars == 0)
    &&& (0 <= q < state.num_qubits && state.num_path_vars == 0 && is_unit_phase_gate(gate) ==>
        exists|mid: EvaluatedPathSum| #![trigger phase_added(state, q as int, gate_units(gate), mid)]
            phase_added(state, q as int, gate_units(gate), mid)
            && (state.overflow_id == 0 ==> promoted(mid, r))
            && (state.overflow_id != 0 ==> r == mid))
    &&& (0 <= q < state.num_qubits && state.num_path_vars == 0 && (gate is T || gate is Tdg) ==>
        rz_added(state, q as int, gate_ticks(gate), r))
    &&& (0 <= q < state.num_qubits && (gate is H || gate is Sx) && state.overflow_id == 0 && !state.has_capacity() ==>
        r.overflow_id != 0 && r.out_state == state.out_state && r.phase_poly == state.phase_poly)
    &&& (0 <= q < state.num_qubits && gate is H && state.num_path_vars == 0 && state.overflow_id == 0
        && state.has_capacity() && rows_in_qubits(state) ==>
        r.num_path_vars == 1 && r.overflow_id == 0 && gauge_settled(r)
        && exists|mid: EvaluatedPathSum| #![trigger h_added(state, q as int, mid)]
            h_added(state, q as int, mid) && r.out_state == mid.out_state && promoted(mid, r))
    &&& (0 <= q < state.num_qubits && state.num_path_vars == 1 && gauge_settled(state) && state.overflow_id == 0
        && is_unit_phase_gate(gate) ==>
        r.out_state == state.out_state && r.num_path_vars == 1
        && exists|mid: EvaluatedPathSum| #![trigger phase_added(state, q as int, gate_units(gate), mid)]
            phase_added(state, q as int, gate_units(gate), mid) && promoted(mid, r))
    &&& (0 <= q < state.num_qubits && state.num_path_vars == 1 && gauge_settled(state) && state.overflow_id == 0
        && (gate is T || gate is Tdg) ==> rz_added(state, q as int, gate_ticks(gate), r))
    &&& (0 <= q < state.num_qubits && state.num_path_vars == 0 && gate is X ==> {
        &&& r.row(q as int) == toggle(state.row(q as int), 0)
        &&& forall|i: int| 0 <= i < state.num_qubits && i != q ==> #[trigger] r.row(i) == state.row(i)
        &&& r.num_path_vars == 0
    })
}

/// What `RZ` by `ticks` through the reducing entry point makes of `state`:
/// an out-of-range qubit leaves it unchanged; otherwise the result is a
/// reduction of the rotated state ([`rz_added`]), the frame stays and,
/// without path variables, so do the rows, and the ticks land on the parity
/// of row `q` (the continuous angles modulo π/2, their even π/4 quotients
/// moved into the discrete polynomial).
pub open spec fn rz_outcome(state: EvaluatedPathSum, q: i64, ticks: u32, r: EvaluatedPathSum) -> bool {
    &&& r.wf()
    &&& r.width == state.width
    &&& r.num_qubits == state.num_qubits
    &&& r.overflow_id == state.overflow_id
    &&& r.num_path_vars <= state.num_path_vars
    &&& (q < 0 || q >= state.num_qubits ==> r == state)
    &&& (0 <= q < state.num_qubits ==> exists|mid: EvaluatedPathSum| #![trigger rz_added(state, q as int, ticks, mid)]
        rz_added(state, q as int, ticks, mid) && reduced(mid, r))
    &&& (0 <= q < state.num_qubits && state.num_path_vars == 0 ==> r.out_state == state.out_state && r.num_path_vars == 0)
    &&& (0 <= q < state.num_qubits && state.num_path_vars == 0 ==> rz_added(state, q as int, ticks, r))
    &&& (0 <= q < state.num_qubits && state.num_path_vars == 1 && gauge_settled(state) && state.overflow_id == 0 ==>
        rz_added(state, q as int, ticks, r))
}

/// `b` is `a` with the constant term of row `q` flipped and nothing else
/// moved.
pub open spec fn x_applied(a: EvaluatedPathSum, q: int, b: EvaluatedPathSum) -> bool {
    &&& b.wf()
    &&& b.same_frame(&a)
    &&& b.row(q) == toggle(a.row(q), 0)
    &&& forall|i: int| 0 <= i < a.num_qubits && i != q ==> #[trigger] b.row(i) == a.row(i)
    &&& b.phase_poly == a.phase_poly
    &&& b.continuous_poly == a.continuous_poly
}

/// `b` is `a` with row `qt` gaining row `qc` and nothing else moved.
pub open spec fn cx_applied(a: EvaluatedPathSum, qc: int, qt: int, b: EvaluatedPathSum) -> bool {
    &&& b.wf()
    &&& b.same_frame(&a)
    &&& b.row(qt) == toggle_all(a.row(qt), a.out_state@[qc].terms@)
    &&& forall|i: int| 0 <= i < a.num_qubits && i != qt ==> #[trigger] b.out_state@[i] == a.out_state@[i]
    &&& b.phase_poly == a.phase_poly
    &&& b.continuous_poly == a.continuous_poly
}

/// What `CX(qc, qt)` through the shielded entry point makes of `state`:
/// equal or out-of-range wires leave it unchanged; otherwise row `qt` gains
/// row `qc` and the gauge follow-up (which keeps the frame) runs on the
/// result; with no path variable the follow-up changes nothing.
pub open spec fn cx_outcome(state: EvaluatedPathSum, qc: i64, qt: i64, r: EvaluatedPathSum) -> bool {
    &&& (qc != qt && 0 <= qc < state.num_qubits && 0 <= qt < state.num_qubits ==>
        exists|mid: EvaluatedPathSum| #![trigger cx_applied(state, qc as int, qt as int, mid)]
            cx_applied(state, qc as int, qt as int, mid) && gauge_followed(mid, r))
    &&& r.wf()
    &&& r.same_frame(&state)
    &&& (qc == qt || qc < 0 || qt < 0 || qc >= state.num_qubits || qt >= state.num_qubits ==> r == state)
    &&& (qc != qt && 0 <= qc < state.num_qubits && 0 <= qt < state.num_qubits && state.num_path_vars == 0 ==> {
        &&& r.row(qt as int) == toggle_all(state.row(qt as int), state.out_state@[qc as int].terms@)
        &&& forall|i: int| 0 <= i < state.num_qubits && i != qt ==> #[trigger] r.out_state@[i] == state.out_state@[i]
        &&& r.phase_poly == state.phase_poly
        &&& r.continuous_poly == state.continuous_poly
    })
}

/// What a gate through the entry point without reduction makes of `state`:
/// an out-of-range qubit leaves it unchanged; otherwise `gate` acts on
/// `state` as [`raw_applied`] states and the gauge follow-up then runs as
/// [`gauge_followed`] states; `H` and `SX` take a fresh path
/// variable (or mark the state overflowed when none is left); on a path sum
/// with no path variable the phase gates add their phase on the parity of
/// row `q` and `X` flips the constant term of row `q` and nothing else.
pub open spec fn no_reduce_outcome(state: EvaluatedPathSum, q: i64, gate: Gate, r: EvaluatedPathSum) -> bool {
    &&& r.wf()
    &&& r.width == state.width
    &&& r.num_qubits == state.num_qubits
    &&& r.num_path_vars <= state.num_path_vars + 1
    &&& (q < 0 || q >= state.num_qubits ==> r == state)
    &&& (0 <= q < state.num_qubits ==> exists|mid: EvaluatedPathSum| #![trigger raw_applied(state, q as int, gate, mid)]
        raw_applied(state, q as int, gate, mid) && gauge_followed(mid, r))
    &&& (state.overflow_id != 0 ==> r.overflow_id == state.overflow_id)
    &&& (0 <= q < state.num_qubits && state.num_path_vars == 0 && gate is X ==> {
        &&& r.row(q as int) == toggle(state.row(q as int), 0)
        &&& forall|i: int| 0 <= i < state.num_qubits && i != q ==> #[trigger] r.row(i) == state.row(i)
        &&& r.same_frame(&state)
        &&& r.phase_poly == state.phase_poly
        &&& r.continuous_poly == state.continuous_poly
    })
    &&& (0 <= q < state.num_qubits && state.num_path_vars == 0 && is_unit_phase_gate(gate) ==>
        phase_added(state, q as int, gate_units(gate), r))
    &&& (0 <= q < state.num_qubits && state.num_path_vars == 0 && (gate is T || gate is Tdg) ==>
        rz_added(state, q as int, gate_ticks(gate), r))
    &&& (0 <= q < state.num_qubits && (gate is H || gate is Sx) && state.overflow_id == 0 && state.has_capacity() ==>
        r.overflow_id == 0 && r.num_path_vars == state.num_path_vars + 1)
    &&& (0 <= q < state.num_qubits && gate is X ==>
        exists|mid: EvaluatedPathSum| #![trigger x_applied(state, q as int, mid)]
            x_applied(state, q as int, mid) && r.wf() && r.same_frame(&mid) && (rows_gauge_settled(mid) ==> r == mid))
    &&& (0 <= q < state.num_qubits && gate is H && state.overflow_id == 0 && state.has_capacity() ==>
        exists|mid: EvaluatedPathSum| #![trigger h_added(state, q as int, mid)]
            h_added(state, q as int, mid) && r.wf() && r.same_frame(&mid) && (rows_gauge_settled(mid) ==> r == mid))
    &&& (0 <= q < state.num_qubits && gate is H && state.num_path_vars == 0 && state.overflow_id == 0
        && state.has_capacity() && rows_in_qubits(state) ==> h_added(state, q as int, r))
    &&& (0 <= q < state.num_qubits && (gate is H || gate is Sx) && state.overflow_id == 0 && !state.has_capacity() ==>
        r.overflow_id != 0 && r.out_state == state.out_state && r.phase_poly == state.phase_poly)
}

/// Rows without a path variable leave the gauge scan where it is.
proof fn lemma_scan_quiet(rows: Seq<BooleanPoly>, pm: u128, k: int, stop: int, piv: u128, next: u128)
    requires
        0 <= k <= stop <= rows.len(),
        forall|i: int| k <= i < stop ==> #[trigger] rows[i].variable_mask & pm == 0,
    ensures
        pivot_scan(rows, pm, k, piv, next) == pivot_scan(rows, pm, stop, piv, next),
    decreases stop - k,
{
    if k < stop {
        crate::bits::lemma_word_ids(!piv);
        assert(rows[k].variable_mask & pm == 0);
        lemma_scan_quiet(rows, pm, k + 1, stop, piv, next);
    }
}

/// A Hadamard on a path sum without path variables whose rows stay on the
/// qubits leaves the gauge settled: its variable is the pivot of row `q`.
proof fn lemma_h_settled(a: EvaluatedPathSum, q: int, b: EvaluatedPathSum)
    requires
        a.wf(),
        b.wf(),
        a.num_path_vars == 0,
        rows_in_qubits(a),
        0 <= q < a.num_qubits,
        b.num_qubits == a.num_qubits,
        b.num_path_vars == 1,
        b.row(q) == Set::<u128>::empty().insert(1u128 << (a.num_qubits as u128)),
        forall|i: int| 0 <= i < a.num_qubits && i != q ==> #[trigger] b.out_state@[i] == a.out_state@[i],
    ensures
        gauge_settled(b),
{
    let nq = a.num_qubits as int;
    assert(nq < 128);
    let v = 1u128 << (nq as u128);
    let pm = path_mask_of(b);
    let hi = low_mask_spec((nq + 1) as nat);
    let lo = low_mask_spec(nq as nat);
    assert forall|j: int| 0 <= j < 128 implies #[trigger] bit(pm, j) == bit(v, j) by {
        crate::bits::lemma_bit_ops(0u128, 0u128, j as u128);
        lemma_zero_bits(j as u128);
        crate::bits::lemma_bit_ops(!0u128, hi, j as u128);
        crate::bits::lemma_bit_ops(!0u128, lo, j as u128);
        crate::combination::lemma_bit_mask(!0u128, (nq + 1) as nat, j);
        crate::combination::lemma_bit_mask(!0u128, nq as nat, j);
        crate::bits::lemma_bit_ops(hi, !lo, j as u128);
        crate::bits::lemma_bit_ops(lo, 0u128, j as u128);
        crate::parity_network::lemma_bit_single(nq as u128, j as u128);
    }
    crate::gf2::lemma_bits_equal(pm, v);
    let rows = b.out_state@;
    assert forall|i: int| 0 <= i < rows.len() && i != q implies #[trigger] rows[i].variable_mask & pm == 0 by {
        let vm = rows[i].variable_mask;
        assert(vm == a.out_state@[i].variable_mask);
        assert(vm & !lo == 0);
        crate::bits::lemma_bit_ops(vm, !lo, nq as u128);
        crate::bits::lemma_bit_ops(lo, 0u128, nq as u128);
        crate::bits::lemma_bit_ops(0u128, 0u128, nq as u128);
        crate::bits::lemma_bit_ops(!0u128, lo, nq as u128);
        crate::combination::lemma_bit_mask(!0u128, nq as nat, nq);
        lemma_zero_bits(nq as u128);
        assert(!bit(vm, nq));
        assert forall|j: int| 0 <= j < 128 implies #[trigger] bit(vm & pm, j) == bit(0u128, j) by {
            crate::bits::lemma_bit_ops(vm, pm, j as u128);
            crate::parity_network::lemma_bit_single(nq as u128, j as u128);
            lemma_zero_bits(j as u128);
        }
        crate::gf2::lemma_bits_equal(vm & pm, 0u128);
    }
    let ts = rows[q].terms@;
    crate::sorted::lemma_sorted_singleton(ts, v);
    assert(rows[q].wf());
    assert(ts == seq![v]);
    assert(seq![v].drop_last() =~= Seq::<u128>::empty());
    crate::bits::lemma_word_ids(v);
    assert(crate::boolean_poly::or_fold(seq![v]) == crate::boolean_poly::or_fold(Seq::<u128>::empty()) | v);
    assert(rows[q].variable_mask == v);
    crate::bits::lemma_and_absorb(v, 0);
    assert(rows[q].variable_mask & pm & !0u128 == v);
    crate::parity_network::lemma_bit_single(nq as u128, nq as u128);
    lemma_zero_bits(nq as u128);
    assert(v != 0);
    assert(rows[q].terms@.len() == 1);
    lemma_scan_quiet(rows, pm, 0, q, 0, v);
    lemma_scan_quiet(rows, pm, q + 1, rows.len() as int, v, v << 1u128);
    assert(pivot_scan(rows, pm, q, 0, v) == pivot_scan(rows, pm, q + 1, 0u128 | v, v << 1u128));
}

/// Apply one gate to qubit `q`, without reduction.
fn apply_raw_gate(state: &mut EvaluatedPathSum, q: usize, gate: Gate)
    requires
        old(state).wf(),
        q < old(state).num_qubits,
    ensures
        raw_applied(*old(state), q as int, gate, *final(state)),
{
    match gate {
        Gate::X => state.apply_x(q),
        Gate::Z => state.apply_z(q),
        Gate::S => state.apply_s(q),
        Gate::Sdg => state.apply_sdg(q),
        Gate::T => state.apply_t(q),
        Gate::Tdg => state.apply_tdg(q),
        Gate::H => state.apply_h(q),
        Gate::Sx => state.apply_sx(q),
    }
}

/// The identity path sum on `num_qubits` qubits (none for `num_qubits <= 0`).
fn id_pathsum(width: u32, num_qubits: i64) -> (r: EvaluatedPathSum)
    requires
        width == 64 || width == 128,
        num_qubits <= width,
    ensures
        is_identity_state(r, width, if num_qubits <= 0 { 0 } else { num_qubits as nat }),
{
    let n: u32 = if num_qubits <= 0 { 0 } else { num_qubits as u32 };
    EvaluatedPathSum::new_id(width, n)
}

/// Apply a gate and reduce; out-of-range qubits leave the state unchanged.
fn apply_gate_logic(state: EvaluatedPathSum, q: i64, gate: Gate) -> (r: EvaluatedPathSum)
    requires
        state.wf(),
    ensures
        gate_outcome(state, q, gate, r),
{
    if q < 0 || q >= state.num_qubits as i64 {
        return state;
    }
    let mut s = state;
    apply_raw_gate(&mut s, q as usize, gate);
    let ghost s1 = s;
    proof {
        if gate is H && state.num_path_vars == 0 && state.overflow_id == 0 && state.has_capacity() && rows_in_qubits(state) {
            lemma_h_settled(state, q as int, s1);
        }
        if state.num_path_vars == 1 && gauge_settled(state) && state.overflow_id == 0
            && (is_unit_phase_gate(gate) || gate is T || gate is Tdg) {
            assert(s1.out_state == state.out_state && s1.num_path_vars == 1 && s1.num_qubits == state.num_qubits);
            assert(gauge_settled(s1));
        }
    }
    s.reduce();
    proof { assert(raw_applied(state, q as int, gate, s1) && reduced(s1, s)); }
    proof {
        if state.num_path_vars == 1 && gauge_settled(state) && state.overflow_id == 0 && (gate is T || gate is Tdg) {
            lemma_promoted_idle(s1, s);
        }
        if state.num_path_vars == 0 && is_unit_phase_gate(gate) {
            assert(phase_added(state, q as int, gate_units(gate), s1));
        }
        if state.num_path_vars == 0 && (gate is T || gate is Tdg) && state.overflow_id == 0 {
            lemma_promoted_idle(s1, s);
        }
        if state.num_path_vars == 0 && gate is X {
            assert forall|i: int| 0 <= i < state.num_qubits && i != q implies #[trigger] s.row(i) == state.row(i) by {
                assert(s1.row(i) == state.row(i));
            }
        }
    }
    s
}

/// Apply a gate and restore the canonical gauge without a full reduction
/// (for affine gates such as `X`).
fn apply_gate_no_reduce_logic(state: EvaluatedPathSum, q: i64, gate: Gate) -> (r: EvaluatedPathSum)
    requires
        state.wf(),
    ensures
        no_reduce_outcome(state, q, gate, r),
{
    if q < 0 || q >= state.num_qubits as i64 {
        return state;
    }
    let mut s = state;
    apply_raw_gate(&mut s, q as usize, gate);
    let ghost s1 = s;
    proof {
        if gate is H && state.num_path_vars == 0 && state.overflow_id == 0 && state.has_capacity() && rows_in_qubits(state) {
            lemma_h_settled(state, q as int, s1);
        }
        if gate is X {
            assert(x_applied(state, q as int, s1));
        }
    }
    s.canonicalize_gauge_after_row_op();
    proof { assert(raw_applied(state, q as int, gate, s1) && gauge_followed(s1, s)); }
    s
}

/// `CX(qc, qt)` followed by the gauge follow-up; equal or out-of-range
/// wires leave the state unchanged.
fn apply_cx_logic(state: EvaluatedPathSum, qc: i64, qt: i64) -> (r: EvaluatedPathSum)
    requires
        state.wf(),
    ensures
        cx_outcome(state, qc, qt, r),
{
    if qc == qt || qc < 0 || qt < 0 || qc >= state.num_qubits as i64 || qt >= state.num_qubits as i64 {
        return state;
    }
    let mut s = state;
    s.apply_cx(qc as usize, qt as usize);
    let ghost mid = s;
    s.canonicalize_gauge_after_row_op();
    proof {
        assert(cx_applied(state, qc as int, qt as int, mid));
    }
    s
}

/// `RZ` by an angle in lattice ticks, then reduce; an out-of-range qubit
/// leaves the state unchanged.
fn apply_rz_logic(state: EvaluatedPathSum, q: i64, ticks: u32) -> (r: EvaluatedPathSum)
    requires
        state.wf(),
    ensures
        rz_outcome(state, q, ticks, r),
{
    if q < 0 || q >= state.num_qubits as i64 {
        return state;
    }
    let mut s = state;
    s.apply_rz_ticks(q as usize, ticks);
    let ghost s1 = s;
    proof {
        if state.num_path_vars == 1 && gauge_settled(state) {
            assert(gauge_settled(s1));
        }
    }
    s.reduce();
    proof { assert(rz_added(state, q as int, ticks, s1) && reduced(s1, s)); }
    proof {
        if (state.num_path_vars == 0 || (state.num_path_vars == 1 && gauge_settled(state))) && state.overflow_id == 0 {
            lemma_promoted_idle(s1, s);
        }
    }
    s
}

/// The identity on `num_qubits` qubits in the 64-bit engine.
pub fn id_pathsum_logic_64(num_qubits: i64) -> (r: EvaluatedPathSum)
    requires
        num_qubits <= 64,
    ensures
        is_identity_state(r, 64, if num_qubits <= 0 { 0 } else { num_qubits as nat }),
{
    id_pathsum(64, num_qubits)
}

/// The identity on `num_qubits` qubits in the 128-bit engine.
pub fn id_pathsum_logic_128(num_qubits: i64) -> (r: EvaluatedPathSum)
    requires
        num_qubits <= 128,
    ensures
        is_identity_state(r, 128, if num_qubits <= 0 { 0 } else { num_qubits as nat }),
{
    id_pathsum(128, num_qubits)
}

/// Gate then reduction (64-bit engine); an out-of-range qubit leaves the
/// state unchanged.
pub fn apply_gate_logic_64(state: EvaluatedPathSum, q: i64, gate: Gate) -> (r: EvaluatedPathSum)
    requires
        state.wf(),
        state.width == 64,
    ensures
        r.width == 64,
        gate_outcome(state, q, gate, r),
{
    apply_gate_logic(state, q, gate)
}

/// Gate then reduction (128-bit engine).
pub fn apply_gate_logic_128(state: EvaluatedPathSum, q: i64, gate: Gate) -> (r: EvaluatedPathSum)
    requires
        state.wf(),
        state.width == 128,
    ensures
        r.width == 128,
        gate_outcome(state, q, gate, r),
{
    apply_gate_logic(state, q, gate)
}

/// Gate then gauge follow-up, no reduction (64-bit engine).
pub fn apply_gate_no_reduce_logic_64(state: EvaluatedPathSum, q: i64, gate: Gate) -> (r: EvaluatedPathSum)
    requires
        state.wf(),
        state.width == 64,
    ensures
        r.width == 64,
        no_reduce_outcome(state, q, gate, r),
{
    apply_gate_no_reduce_logic(state, q, gate)
}

/// Gate then gauge follow-up, no reduction (128-bit engine).
pub fn apply_gate_no_reduce_logic_128(state: EvaluatedPathSum, q: i64, gate: Gate) -> (r: EvaluatedPathSum)
    requires
        state.wf(),
        state.width == 128,
    ensures
        r.width == 128,
        no_reduce_outcome(state, q, gate, r),
{
    apply_gate_no_reduce_logic(state, q, gate)
}

/// `CX(qc, qt)` (64-bit engine); equal or out-of-range wires leave the
/// state unchanged.
pub fn apply_cx_logic_64(state: EvaluatedPathSum, qc: i64, qt: i64) -> (r: EvaluatedPathSum)
    requires
        state.wf(),
        state.width == 64,
    ensures
        cx_outcome(state, qc, qt, r),
{
    apply_cx_logic(state, qc, qt)
}

/// `CX(qc, qt)` (128-bit engine).
pub fn apply_cx_logic_128(state: EvaluatedPathSum, qc: i64, qt: i64) -> (r: EvaluatedPathSum)
    requires
        state.wf(),
        state.width == 128,
    ensures
        cx_outcome(state, qc, qt, r),
{
    apply_cx_logic(state, qc, qt)
}

/// `RZ` by `ticks` lattice ticks (64-bit engine), then reduction.
pub fn apply_rz_logic_64(state: EvaluatedPathSum, q: i64, ticks: u32) -> (r: EvaluatedPathSum)
    requires
        state.wf(),
        state.width == 64,
    ensures
        r.width == 64,
        rz_outcome(state, q, ticks, r),
{
    apply_rz_logic(state, q, ticks)
}

/// `RZ` by `ticks` lattice ticks (128-bit engine), then reduction.
pub fn apply_rz_logic_128(state: EvaluatedPathSum, q: i64, ticks: u32) -> (r: EvaluatedPathSum)
    requires
        state.wf(),
        state.width == 128,
    ensures
        r.width == 128,
        rz_outcome(state, q, ticks, r),
{
    apply_rz_logic(state, q, ticks)
}


/// Row `i` of `M - I`, where row `i` of `M` is the variable mask of output `i`.
pub open spec fn shifted_row(s: EvaluatedPathSum, i: int) -> u128 {
    s.out_state@[i].variable_mask ^ (1u128 << (i as u128))
}

/// The rows of `M - I` on the qubit columns.
pub open spec fn shifted_rows(s: EvaluatedPathSum) -> Seq<u128> {
    Seq::new(s.num_qubits as nat, |i: int| shifted_row(s, i))
}

/// The variable masks of the output rows: the linear map of a CX block.
pub open spec fn row_masks(s: EvaluatedPathSum) -> Seq<u128> {
    Seq::new(s.num_qubits as nat, |i: int| s.out_state@[i].variable_mask)
}

pub(crate) proof fn lemma_bit_and(x: u128, c: u128)
    requires
        c < 128,
    ensures
        ((x & (1u128 << c)) == 0) == !((x >> c) & 1 == 1),
{
    assert(((x & (1u128 << c)) == 0) == !((x >> c) & 1 == 1)) by (bit_vector)
        requires c < 128;
}

/// GF(2) rank of `M - I` by Gauss–Jordan elimination; zero exactly when
/// `M` is the identity on the qubit columns.
fn rank_m_minus_i(state: &EvaluatedPathSum) -> (r: i64)
    requires
        state.wf(),
    ensures
        0 <= r <= state.num_qubits,
        (r == 0) == (forall|i: int, c: int| 0 <= i < state.num_qubits && 0 <= c < state.num_qubits
            ==> !#[trigger] bit(shifted_row(*state, i), c)),
        gf2_rank_is(shifted_rows(*state), state.num_qubits as nat, r as nat),
{
    let n = state.num_qubits as usize;
    let mut m: Vec<u128> = Vec::new();
    let mut i: usize = 0;
    while i < n
        invariant
            i <= n,
            n == state.num_qubits,
            state.wf(),
            m@.len() == i,
            forall|k: int| 0 <= k < i ==> m@[k] == #[trigger] shifted_row(*state, k),
        decreases n - i,
    {
        m.push(state.out_state[i].variable_mask ^ (1u128 << (i as u128)));
        i = i + 1;
    }
    let ghost m0 = m@;
    assert(m0 =~= shifted_rows(*state));
    let ghost mut ops: Seq<(usize, usize)> = Seq::empty();
    let ghost mut piv: Seq<int> = Seq::empty();
    let mut rank: usize = 0;
    let mut c: usize = 0;
    while c < n
        invariant
            n == state.num_qubits,
            n <= 128,
            c <= n,
            rank <= c,
            m@.len() == n,
            m0.len() == n,
            forall|k: int| 0 <= k < n ==> m0[k] == #[trigger] shifted_row(*state, k),
            rank == 0 ==> m@ == m0 && forall|k: int, cc: int| 0 <= k < n && 0 <= cc < c ==> !#[trigger] bit(m0[k], cc),
            rank > 0 ==> exists|k: int, cc: int| 0 <= k < n && 0 <= cc < n && #[trigger] bit(m0[k], cc),
            m@ == apply_ops(m0, ops),
            ops_in_range(ops, n as nat),
            ops_distinct(ops),
            piv.len() == rank,
            forall|a: int, b: int| 0 <= a < b < rank ==> piv[a] < piv[b],
            forall|a: int| 0 <= a < rank ==> 0 <= #[trigger] piv[a] < c,
            forall|a: int, k: int| 0 <= a < rank && 0 <= k < n ==> (#[trigger] bit(m@[k], piv[a]) <==> k == a),
            forall|k: int, j: int| rank <= k < n && 0 <= j < c ==> !#[trigger] bit(m@[k], j),
        decreases n - c,
    {
        let bc: u128 = 1u128 << (c as u128);
        let mut pivot = rank;
        while pivot < n && (m[pivot] & bc) == 0
            invariant
                rank <= pivot <= n,
                m@.len() == n,
                c < n <= 128,
                bc == 1u128 << (c as u128),
                forall|k: int| rank <= k < pivot ==> !#[trigger] bit(m@[k], c as int),
            decreases n - pivot,
        {
            proof { lemma_bit_and(m@[pivot as int], c as u128); }
            pivot = pivot + 1;
        }
        if pivot == n {
            proof {
                assert forall|k: int, j: int| rank <= k < n && 0 <= j < c + 1 implies !#[trigger] bit(m@[k], j) by {
                    if j == c as int { assert(!bit(m@[k], c as int)); }
                }
            }
            c = c + 1;
            continue;
        }
        proof {
            lemma_bit_and(m@[pivot as int], c as u128);
            if rank == 0 {
                assert(bit(m0[pivot as int], c as int));
            }
        }
        let ghost mm = m@;
        let a = m[rank];
        let b = m[pivot];
        m.set(rank, b);
        m.set(pivot, a);
        proof {
            if pivot != rank {
                lemma_three_cx_swap(mm, pivot, rank);
                let o3 = ops.push((pivot, rank)).push((rank, pivot)).push((pivot, rank));
                lemma_apply_ops_push(m0, ops, (pivot, rank));
                lemma_apply_ops_push(m0, ops.push((pivot, rank)), (rank, pivot));
                lemma_apply_ops_push(m0, ops.push((pivot, rank)).push((rank, pivot)), (pivot, rank));
                assert(m@ =~= mm.update(pivot as int, mm[rank as int]).update(rank as int, mm[pivot as int]));
                assert forall|q: int| 0 <= q < o3.len() implies (#[trigger] o3[q]).0 < n && o3[q].1 < n && o3[q].0 != o3[q].1 by {
                    if q < ops.len() { assert(o3[q] == ops[q]); }
                }
                ops = o3;
            } else {
                assert(m@ =~= mm);
            }
            assert forall|a: int, k: int| 0 <= a < rank && 0 <= k < n implies (#[trigger] bit(m@[k], piv[a]) <==> k == a) by {
                if k == rank as int {
                    assert(m@[k] == mm[pivot as int]);
                } else if k == pivot as int {
                    assert(m@[k] == mm[rank as int]);
                } else {
                    assert(m@[k] == mm[k]);
                }
            }
            assert forall|k: int, j: int| rank <= k < n && 0 <= j < c implies !#[trigger] bit(m@[k], j) by {
                if k == rank as int {
                    assert(m@[k] == mm[pivot as int]);
                } else if k == pivot as int {
                    assert(m@[k] == mm[rank as int]);
                } else {
                    assert(m@[k] == mm[k]);
                }
            }
            assert(bit(m@[rank as int], c as int));
        }
        let ghost after_swap = m@;
        let mut r: usize = 0;
        while r < n
            invariant
                rank < n,
                n <= 128,
                c < n,
                m@.len() == n,
                r <= n,
                bc == 1u128 << (c as u128),
                m@ == apply_ops(m0, ops),
                ops_in_range(ops, n as nat),
                ops_distinct(ops),
                piv.len() == rank,
                forall|a: int| 0 <= a < rank ==> 0 <= #[trigger] piv[a] < c,
                after_swap.len() == n,
                m@[rank as int] == after_swap[rank as int],
                bit(after_swap[rank as int], c as int),
                forall|a: int| 0 <= a < rank ==> !#[trigger] bit(after_swap[rank as int], piv[a]),
                forall|j: int| 0 <= j < c ==> !#[trigger] bit(after_swap[rank as int], j),
                forall|a: int, k: int| 0 <= a < rank && 0 <= k < n ==> (#[trigger] bit(m@[k], piv[a]) <==> k == a),
                forall|k: int, j: int| rank <= k < n && 0 <= j < c ==> !#[trigger] bit(m@[k], j),
                forall|k: int| 0 <= k < r && k != rank ==> !#[trigger] bit(m@[k], c as int),
                forall|k: int| r <= k < n ==> #[trigger] m@[k] == after_swap[k],
            decreases n - r,
        {
            proof { lemma_bit_and(m@[r as int], c as u128); }
            if r != rank && (m[r] & bc) != 0 {
                let ghost mr = m@;
                let v = m[r] ^ m[rank];
                m.set(r, v);
                proof {
                    lemma_apply_ops_push(m0, ops, (rank, r));
                    assert(m@ =~= apply_op(mr, (rank, r)));
                    let o1 = ops.push((rank, r));
                    assert forall|q: int| 0 <= q < o1.len() implies (#[trigger] o1[q]).0 < n && o1[q].1 < n && o1[q].0 != o1[q].1 by {
                        if q < ops.len() { assert(o1[q] == ops[q]); }
                    }
                    ops = o1;
                    assert forall|j: int| 0 <= j < 128 implies #[trigger] bit(m@[r as int], j)
                        == (bit(mr[r as int], j) != bit(mr[rank as int], j)) by {
                        crate::combination::lemma_bit_xor(mr[r as int], mr[rank as int], j as u128);
                    }
                    assert forall|a: int, k: int| 0 <= a < rank && 0 <= k < n implies (#[trigger] bit(m@[k], piv[a]) <==> k == a) by {
                        if k != r as int { assert(m@[k] == mr[k]); }
                        else { assert(bit(m@[k], piv[a]) == (bit(mr[k], piv[a]) != bit(mr[rank as int], piv[a]))); }
                    }
                    assert forall|k: int, j: int| rank <= k < n && 0 <= j < c implies !#[trigger] bit(m@[k], j) by {
                        if k != r as int { assert(m@[k] == mr[k]); }
                        else { assert(bit(m@[k], j) == (bit(mr[k], j) != bit(mr[rank as int], j))); }
                    }
                    assert forall|k: int| 0 <= k < r + 1 && k != rank implies !#[trigger] bit(m@[k], c as int) by {
                        if k != r as int { assert(m@[k] == mr[k]); }
                        else { assert(bit(m@[k], c as int) == (bit(mr[k], c as int) != bit(mr[rank as int], c as int))); }
                    }
                }
            }
            r = r + 1;
        }
        proof {
            let p2 = piv.push(c as int);
            assert forall|a: int, k: int| 0 <= a < rank + 1 && 0 <= k < n implies (#[trigger] bit(m@[k], p2[a]) <==> k == a) by {
                if a == rank as int {
                    if k == rank as int { assert(m@[k] == after_swap[k]); }
                } else {
                    assert(p2[a] == piv[a]);
                }
            }
            assert forall|k: int, j: int| rank + 1 <= k < n && 0 <= j < c + 1 implies !#[trigger] bit(m@[k], j) by {
                if j == c as int { assert(k != rank as int); }
            }
            piv = p2;
        }
        rank = rank + 1;
        c = c + 1;
    }
    proof {
        if rank == 0 {
            assert forall|i: int, cc: int| 0 <= i < n && 0 <= cc < n implies !#[trigger] bit(shifted_row(*state, i), cc) by {
                assert(m0[i] == shifted_row(*state, i));
                assert(!bit(m0[i], cc));
            }
        } else {
            let (k, cc) = choose|k: int, cc: int| 0 <= k < n && 0 <= cc < n && #[trigger] bit(m0[k], cc);
            assert(m0[k] == shifted_row(*state, k));
            assert(bit(shifted_row(*state, k), cc));
        }
        assert(echelon_with(apply_ops(m0, ops), n as nat, rank as nat, piv));
    }
    rank as i64
}

/// Whether every continuous parity is a nonzero XOR of input qubits only.
pub fn continuous_parities_are_qubit_linear(state: &EvaluatedPathSum) -> (r: bool)
    requires
        state.wf(),
    ensures
        r == forall|k: int| 0 <= k < state.continuous_poly.parities@.len() ==>
            #[trigger] state.continuous_poly.parities@[k] != 0
            && state.continuous_poly.parities@[k] & !low_mask_spec(state.num_qubits as nat) == 0,
{
    let valid_mask = low_mask(state.num_qubits);
    let mut k: usize = 0;
    while k < state.continuous_poly.parities.len()
        invariant
            k <= state.continuous_poly.parities@.len(),
            valid_mask == low_mask_spec(state.num_qubits as nat),
            forall|j: int| 0 <= j < k ==> #[trigger] state.continuous_poly.parities@[j] != 0
                && state.continuous_poly.parities@[j] & !valid_mask == 0,
        decreases state.continuous_poly.parities@.len() - k,
    {
        let p = state.continuous_poly.parities[k];
        if p == 0 || (p & !valid_mask) != 0 {
            return false;
        }
        k = k + 1;
    }
    true
}

/// The qubits `0..k` whose row carries the constant term, in order.
pub open spec fn x_offsets_upto(s: EvaluatedPathSum, k: int) -> Seq<usize>
    decreases k,
{
    if k <= 0 {
        Seq::empty()
    } else if s.out_state@[k - 1].terms@.contains(0) {
        x_offsets_upto(s, k - 1).push((k - 1) as usize)
    } else {
        x_offsets_upto(s, k - 1)
    }
}

/// Qubits whose output row carries a constant 1 (a net `X`).
pub fn affine_x_offsets(state: &EvaluatedPathSum) -> (r: Vec<usize>)
    requires
        state.wf(),
    ensures
        r@ == x_offsets_upto(*state, state.num_qubits as int),
{
    let mut out: Vec<usize> = Vec::new();
    let mut q: usize = 0;
    while q < state.out_state.len()
        invariant
            state.wf(),
            q <= state.out_state@.len(),
            out@ == x_offsets_upto(*state, q as int),
        decreases state.out_state@.len() - q,
    {
        if state.out_state[q].contains(0) {
            out.push(q);
        }
        q = q + 1;
    }
    out
}

/// Text of the instruction `cx c,t`.
pub open spec fn cx_text(g: (usize, usize)) -> Seq<char> {
    "cx "@ + dec(g.0 as nat) + ","@ + dec(g.1 as nat)
}

/// Text of a bare pair `c,t`.
pub open spec fn pair_text(g: (usize, usize)) -> Seq<char> {
    dec(g.0 as nat) + ","@ + dec(g.1 as nat)
}

/// Text of the instruction `x q`.
pub open spec fn x_text(q: usize) -> Seq<char> {
    "x "@ + dec(q as nat)
}

/// The answer of the linear resynthesis for a CX list and a trailing X
/// layer: `None` unless it beats `gate_count`, `empty` for no gate, the bare
/// `c,t;c,t` form without X gates, named instructions otherwise.
pub open spec fn pmh_answer(cnots: Seq<(usize, usize)>, offsets: Seq<usize>, gate_count: int) -> Seq<char> {
    let total = cnots.len() + offsets.len();
    if total < gate_count {
        if total == 0 {
            "empty"@
        } else if offsets.len() == 0 {
            joined(cnots.map_values(|g: (usize, usize)| pair_text(g)), ";"@)
        } else {
            joined(cnots.map_values(|g: (usize, usize)| cx_text(g)) + offsets.map_values(|q: usize| x_text(q)), ";"@)
        }
    } else {
        "None"@
    }
}

/// The text of `cx c,t`.
pub fn cx_string(g: (usize, usize)) -> (r: String)
    ensures
        r@ == cx_text(g),
{
    let mut s = String::from_str("cx ");
    push_decimal(&mut s, g.0 as u128);
    s.append(",");
    push_decimal(&mut s, g.1 as u128);
    s
}

fn pair_string(g: (usize, usize)) -> (r: String)
    ensures
        r@ == pair_text(g),
{
    let mut s = String::new();
    push_decimal(&mut s, g.0 as u128);
    s.append(",");
    push_decimal(&mut s, g.1 as u128);
    proof { assert(Seq::<char>::empty() + dec(g.0 as nat) == dec(g.0 as nat)); }
    s
}

fn x_string(q: usize) -> (r: String)
    ensures
        r@ == x_text(q),
{
    let mut s = String::from_str("x ");
    push_decimal(&mut s, q as u128);
    s
}

/// Append an `x q` instruction for each offset.
fn append_x_layer(instructions: &mut Vec<String>, offsets: &Vec<usize>)
    ensures
        final(instructions)@.map_values(|p: String| p@)
            == old(instructions)@.map_values(|p: String| p@) + offsets@.map_values(|q: usize| x_text(q)),
{
    let ghost start = instructions@.map_values(|p: String| p@);
    let mut k: usize = 0;
    while k < offsets.len()
        invariant
            k <= offsets@.len(),
            instructions@.map_values(|p: String| p@) == start + offsets@.subrange(0, k as int).map_values(|q: usize| x_text(q)),
        decreases offsets@.len() - k,
    {
        let ghost before = instructions@;
        let sx = x_string(offsets[k]);
        instructions.push(sx);
        proof {
            let lhs = instructions@.map_values(|p: String| p@);
            let rhs = start + offsets@.subrange(0, k + 1).map_values(|q: usize| x_text(q));
            let prev = before.map_values(|p: String| p@);
            assert(prev == start + offsets@.subrange(0, k as int).map_values(|q: usize| x_text(q)));
            assert forall|j: int| 0 <= j < lhs.len() implies lhs[j] == rhs[j] by {
                if j < before.len() {
                    assert(instructions@[j] == before[j]);
                    assert(lhs[j] == prev[j]);
                } else {
                    assert(instructions@[j] == sx);
                }
            }
            assert(lhs =~= rhs);
        }
        k = k + 1;
    }
    assert(offsets@.subrange(0, offsets@.len() as int) =~= offsets@);
}

/// Render the answer of the linear resynthesis for a given CX list and X
/// layer (see [`pmh_answer`]).
pub fn pmh_instructions(cnots: &Vec<(usize, usize)>, offsets: &Vec<usize>, gate_count: i64) -> (r: String)
    ensures
        r@ == pmh_answer(cnots@, offsets@, gate_count as int),
{
    let mut instructions: Vec<String> = Vec::new();
    let mut k: usize = 0;
    while k < cnots.len()
        invariant
            k <= cnots@.len(),
            instructions@.map_values(|p: String| p@) == cnots@.subrange(0, k as int).map_values(|g: (usize, usize)| cx_text(g)),
        decreases cnots@.len() - k,
    {
        let ghost before = instructions@;
        let sx = cx_string(cnots[k]);
        instructions.push(sx);
        proof {
            let lhs = instructions@.map_values(|p: String| p@);
            let rhs = cnots@.subrange(0, k + 1).map_values(|g: (usize, usize)| cx_text(g));
            let prev = before.map_values(|p: String| p@);
            assert(prev == cnots@.subrange(0, k as int).map_values(|g: (usize, usize)| cx_text(g)));
            assert(prev.len() == before.len());
            assert(cnots@.subrange(0, k as int).map_values(|g: (usize, usize)| cx_text(g)).len() == k);
            assert(instructions@.len() == before.len() + 1);
            assert(lhs.len() == rhs.len());
            assert forall|j: int| 0 <= j < lhs.len() implies lhs[j] == rhs[j] by {
                if j < before.len() {
                    assert(instructions@[j] == before[j]);
                    assert(lhs[j] == prev[j]);
                } else {
                    assert(instructions@[j] == sx);
                    assert(cnots@.subrange(0, k + 1)[j] == cnots@[k as int]);
                }
            }
            assert(lhs =~= rhs);
        }
        k = k + 1;
    }
    assert(cnots@.subrange(0, cnots@.len() as int) =~= cnots@);
    append_x_layer(&mut instructions, offsets);
    let total = instructions.len();
    assert(total == cnots@.len() + offsets@.len()) by {
        assert(instructions@.map_values(|p: String| p@).len() == instructions@.len());
    }
    if (total as i128) < (gate_count as i128) {
        if total == 0 {
            return String::from_str("empty");
        }
        if offsets.len() == 0 {
            let mut pairs: Vec<String> = Vec::new();
            let mut k: usize = 0;
            while k < cnots.len()
                invariant
                    k <= cnots@.len(),
                    pairs@.map_values(|p: String| p@) == cnots@.subrange(0, k as int).map_values(|g: (usize, usize)| pair_text(g)),
                decreases cnots@.len() - k,
            {
                let ghost before = pairs@;
                let sx = pair_string(cnots[k]);
                pairs.push(sx);
                proof {
                    let lhs = pairs@.map_values(|p: String| p@);
                    let rhs = cnots@.subrange(0, k + 1).map_values(|g: (usize, usize)| pair_text(g));
                    let prev = before.map_values(|p: String| p@);
                    assert(prev == cnots@.subrange(0, k as int).map_values(|g: (usize, usize)| pair_text(g)));
                    assert(prev.len() == before.len());
                    assert(cnots@.subrange(0, k as int).map_values(|g: (usize, usize)| pair_text(g)).len() == k);
                    assert(pairs@.len() == before.len() + 1);
                    assert(lhs.len() == rhs.len());
                    assert forall|j: int| 0 <= j < lhs.len() implies lhs[j] == rhs[j] by {
                        if j < before.len() {
                            assert(pairs@[j] == before[j]);
                            assert(lhs[j] == prev[j]);
                        } else {
                            assert(pairs@[j] == sx);
                            assert(cnots@.subrange(0, k + 1)[j] == cnots@[k as int]);
                        }
                    }
                    assert(lhs =~= rhs);
                }
                k = k + 1;
            }
            assert(cnots@.subrange(0, cnots@.len() as int) =~= cnots@);
            return join_with(&pairs, ";");
        }
        return join_with(&instructions, ";");
    }
    String::from_str("None")
}

/// The `X` layer has at most one gate per wire.
proof fn lemma_x_offsets_len(s: EvaluatedPathSum, k: int)
    requires
        k >= 0,
    ensures
        x_offsets_upto(s, k).len() <= k,
    decreases k,
{
    if k > 0 {
        lemma_x_offsets_len(s, k - 1);
    }
}

/// The CX-block resynthesis shared by both engines.
fn synthesize_pmh_logic(state: EvaluatedPathSum, gate_count: i64) -> (r: String)
    requires
        state.wf(),
        state.num_qubits < state.width,
    ensures
        pmh_result(state, gate_count, r@),
{
    if gate_count <= 2 {
        return String::from_str("None");
    }
    if state.overflow_id != 0 {
        return String::from_str("None");
    }
    if state.phase_poly.terms.len() > 0 || state.continuous_poly.parities.len() > 0 {
        return String::from_str("None");
    }
    let n = state.num_qubits as usize;
    let valid_mask = low_mask(state.num_qubits);
    let mut q: usize = 0;
    while q < n
        invariant
            n == state.num_qubits,
            state.wf(),
            valid_mask == low_mask_spec(state.num_qubits as nat),
            forall|i: int| 0 <= i < q ==> #[trigger] state.out_state@[i].variable_mask & !valid_mask == 0,
        decreases n - q,
    {
        if (state.out_state[q].variable_mask & !valid_mask) != 0 {
            return String::from_str("None");
        }
        q = q + 1;
    }
    let x_offsets = affine_x_offsets(&state);
    let rank = rank_m_minus_i(&state);
    proof {
        assert(gf2_rank_is(shifted_rows(state), state.num_qubits as nat, rank as nat));
    }
    if rank == 0 && x_offsets.len() == 0 {
        return String::from_str("None");
    }
    if rank > 0 && gate_count <= rank {
        return String::from_str("None");
    }
    let mut matrix: Vec<u128> = Vec::new();
    let mut i: usize = 0;
    while i < n
        invariant
            n == state.num_qubits,
            state.wf(),
            i <= n,
            matrix@ == row_masks(state).subrange(0, i as int),
        decreases n - i,
    {
        matrix.push(state.out_state[i].variable_mask);
        assert(matrix@ =~= row_masks(state).subrange(0, i + 1));
        i = i + 1;
    }
    assert(matrix@ =~= row_masks(state));
    match synthesize_cnot_matrix(matrix, n) {
        Ok(cnots) => {
            let r = pmh_instructions(&cnots, &x_offsets, gate_count);
            assert(ops_in_range(cnots@, state.num_qubits as nat));
            assert(r@ == pmh_answer(cnots@, x_offsets_upto(state, state.num_qubits as int), gate_count as int));
            proof {
                lemma_x_offsets_len(state, state.num_qubits as int);
            }
            r
        },
        Err(_) => String::from_str("None"),
    }
}


/// Refusals and answer of the CX-block resynthesis (see
/// [`synthesize_pmh_logic_64`]): any answer comes from a CX list that
/// rebuilds the block (exactly when its matrix is invertible) and from a
/// count above the rank of `M - I`; on a ready block with an invertible
/// matrix and a count above that rank the answer is owed, built from an
/// exact CX list. Every list has at most `4n²` gates, so on such a block a
/// count above `4n² + n` is always answered with that circuit (the list and
/// the `X` layer stay under the count). Such a list, replayed through the
/// engine with its `X` layer, gives back the block's rows
/// ([`crate::replay::law_linear_round_trip`]).
pub open spec fn pmh_result(state: EvaluatedPathSum, gate_count: i64, r: Seq<char>) -> bool {
    &&& gate_count <= 2 ==> r == "None"@
    &&& state.overflow_id != 0 ==> r == "None"@
    &&& state.phase_poly.terms@.len() > 0 || state.continuous_poly.parities@.len() > 0 ==> r == "None"@
    &&& (exists|i: int| 0 <= i < state.num_qubits
            && #[trigger] state.out_state@[i].variable_mask & !low_mask_spec(state.num_qubits as nat) != 0) ==> r == "None"@
    &&& (forall|i: int, c: int| 0 <= i < state.num_qubits && 0 <= c < state.num_qubits ==> !#[trigger] bit(shifted_row(state, i), c))
            && x_offsets_upto(state, state.num_qubits as int).len() == 0 ==> r == "None"@
    &&& r == "None"@ || exists|c: Seq<(usize, usize)>| {
            &&& ops_in_range(c, state.num_qubits as nat)
            &&& ops_distinct(c)
            &&& c.len() <= 4 * state.num_qubits * state.num_qubits
            &&& (apply_ops(identity_rows(state.num_qubits as nat), c) == masked_rows(row_masks(state), state.num_qubits as nat)
                || exists|f: Seq<u128>| f.len() == state.num_qubits
                    && #[trigger] apply_ops(f, c) == masked_rows(row_masks(state), state.num_qubits as nat))
            &&& r == pmh_answer(c, x_offsets_upto(state, state.num_qubits as int), gate_count as int)
        }
    &&& r != "None"@ ==> exists|rk: nat| #[trigger] gf2_rank_is(shifted_rows(state), state.num_qubits as nat, rk)
            && (rk > 0 ==> gate_count > rk)
    &&& pmh_ready(state, gate_count)
        && (forall|rk: nat| #[trigger] gf2_rank_is(shifted_rows(state), state.num_qubits as nat, rk) ==> rk == 0 || gate_count > rk)
        && cx_realizable(row_masks(state), state.num_qubits as nat) ==> exists|c: Seq<(usize, usize)>| {
            &&& ops_in_range(c, state.num_qubits as nat)
            &&& ops_distinct(c)
            &&& c.len() <= 4 * state.num_qubits * state.num_qubits
            &&& apply_ops(identity_rows(state.num_qubits as nat), c) == masked_rows(row_masks(state), state.num_qubits as nat)
            &&& r == pmh_answer(c, x_offsets_upto(state, state.num_qubits as int), gate_count as int)
        }
    &&& pmh_ready(state, gate_count)
        && (forall|rk: nat| #[trigger] gf2_rank_is(shifted_rows(state), state.num_qubits as nat, rk) ==> rk == 0 || gate_count > rk)
        && cx_realizable(row_masks(state), state.num_qubits as nat)
        && gate_count > 4 * state.num_qubits * state.num_qubits + state.num_qubits ==> exists|c: Seq<(usize, usize)>| {
            &&& ops_in_range(c, state.num_qubits as nat)
            &&& ops_distinct(c)
            &&& apply_ops(identity_rows(state.num_qubits as nat), c) == masked_rows(row_masks(state), state.num_qubits as nat)
            &&& c.len() + x_offsets_upto(state, state.num_qubits as int).len() < gate_count
            &&& r == pmh_answer(c, x_offsets_upto(state, state.num_qubits as int), gate_count as int)
        }
}

/// A block that the CX resynthesis does not refuse outright: a count above
/// two, no overflow, no phase, no path variable, and not the identity.
pub open spec fn pmh_ready(state: EvaluatedPathSum, gate_count: i64) -> bool {
    &&& gate_count > 2
    &&& state.overflow_id == 0
    &&& state.phase_poly.terms@.len() == 0
    &&& state.continuous_poly.parities@.len() == 0
    &&& forall|i: int| 0 <= i < state.num_qubits
            ==> #[trigger] state.out_state@[i].variable_mask & !low_mask_spec(state.num_qubits as nat) == 0
    &&& ((exists|i: int, c: int| 0 <= i < state.num_qubits && 0 <= c < state.num_qubits && #[trigger] bit(shifted_row(state, i), c))
        || x_offsets_upto(state, state.num_qubits as int).len() > 0)
}

/// Resynthesis of a pure CX(+X) block (64-bit engine) by Patel–Markov–Hayes
/// (Gauss–Jordan fallback): `None` for tiny counts, overflowed states, any
/// phase or path variable, the identity, or when `rank(M - I)` already
/// reaches `gate_count`; otherwise the CX list implementing `M` followed by
/// an `X` layer on the affine offsets, when it is shorter than `gate_count`.
pub fn synthesize_pmh_logic_64(state: EvaluatedPathSum, gate_count: i64) -> (r: String)
    requires
        state.wf(),
        state.width == 64,
        state.num_qubits < 64,
    ensures
        pmh_result(state, gate_count, r@),
{
    synthesize_pmh_logic(state, gate_count)
}

/// Resynthesis of a pure CX(+X) block (128-bit engine).
pub fn synthesize_pmh_logic_128(state: EvaluatedPathSum, gate_count: i64) -> (r: String)
    requires
        state.wf(),
        state.width == 128,
        state.num_qubits < 128,
    ensures
        pmh_result(state, gate_count, r@),
{
    synthesize_pmh_logic(state, gate_count)
}

/// Decimal list `[a, b, ...]` of words.
pub open spec fn dec_list(v: Seq<u128>) -> Seq<char> {
    list_text(v.map_values(|x: u128| dec(x as nat)))
}

/// Text of a phase term `(monomial, units)`.
pub open spec fn term_text(t: PackedPhaseTerm) -> Seq<char> {
    "("@ + dec(t.mono as nat) + ", "@ + dec(t.ph as nat) + ")"@
}

/// The canonical fingerprint of a path sum: every field of the equality key,
/// continuous angles as lattice ticks.
pub open spec fn fingerprint_text(s: EvaluatedPathSum) -> Seq<char> {
    "EvaluatedPathSum { num_qubits: "@ + dec(s.num_qubits as nat)
        + ", num_path_vars: "@ + dec(s.num_path_vars as nat)
        + ", out_state: "@ + list_text(s.out_state@.map_values(|p: BooleanPoly| dec_list(p.terms@)))
        + ", phase_poly: "@ + list_text(s.phase_poly.terms@.map_values(|t: PackedPhaseTerm| term_text(t)))
        + ", parities: "@ + dec_list(s.continuous_poly.parities@)
        + ", phases: "@ + dec_list(s.continuous_poly.phases@.map_values(|x: u32| x as u128))
        + ", overflow_id: "@ + dec(s.overflow_id as nat) + " }"@
}

/// Lists of decimals can be read back out of an enclosing list.
pub proof fn lemma_dec_list_self_delimiting()
    ensures
        self_delimiting(|v: Seq<u128>| dec_list(v)),
{
    let f = |v: Seq<u128>| dec_list(v);
    reveal_strlit("[");
    assert forall|v: Seq<u128>| #[trigger] f(v).len() > 0 && f(v)[0] != ',' && f(v)[0] != ']' by {
        assert(f(v)[0] == '[');
    }
    assert forall|x: Seq<u128>, y: Seq<u128>, t1: Seq<char>, t2: Seq<char>|
        #![trigger f(x) + t1, f(y) + t2]
        f(x) + t1 == f(y) + t2 && delimited(t1) && delimited(t2) implies x == y && t1 == t2 by {
        lemma_dec_self_delimiting();
        lemma_list_text_unique(|x: u128| dec(x as nat), x, y, t1, t2);
    }
}

/// Phase terms can be read back out of a list.
pub proof fn lemma_term_self_delimiting()
    ensures
        self_delimiting(|t: PackedPhaseTerm| term_text(t)),
{
    let f = |t: PackedPhaseTerm| term_text(t);
    reveal_strlit("(");
    reveal_strlit(", ");
    reveal_strlit(")");
    assert forall|t: PackedPhaseTerm| #[trigger] f(t).len() > 0 && f(t)[0] != ',' && f(t)[0] != ']' by {
        assert(f(t)[0] == '(');
    }
    assert forall|x: PackedPhaseTerm, y: PackedPhaseTerm, t1: Seq<char>, t2: Seq<char>|
        #![trigger f(x) + t1, f(y) + t2]
        f(x) + t1 == f(y) + t2 && delimited(t1) && delimited(t2) implies x == y && t1 == t2 by {
        let rx = ")"@ + t1;
        let ry = ")"@ + t2;
        let mx = ", "@ + (dec(x.ph as nat) + rx);
        let my = ", "@ + (dec(y.ph as nat) + ry);
        assert(f(x) + t1 =~= "("@ + (dec(x.mono as nat) + mx));
        assert(f(y) + t2 =~= "("@ + (dec(y.mono as nat) + my));
        lemma_strip_prefix("("@, dec(x.mono as nat) + mx, dec(y.mono as nat) + my);
        assert(mx[0] == ',' && my[0] == ',');
        lemma_dec_prefix_unique(x.mono as nat, y.mono as nat, mx, my);
        lemma_strip_prefix(", "@, dec(x.ph as nat) + rx, dec(y.ph as nat) + ry);
        assert(rx[0] == ')' && ry[0] == ')');
        lemma_dec_prefix_unique(x.ph as nat, y.ph as nat, rx, ry);
        lemma_strip_prefix(")"@, t1, t2);
    }
}

/// The fields of a path sum that its fingerprint shows: everything but the
/// engine width.
pub open spec fn fingerprint_fields_agree(a: EvaluatedPathSum, b: EvaluatedPathSum) -> bool {
    &&& a.num_qubits == b.num_qubits
    &&& a.num_path_vars == b.num_path_vars
    &&& a.out_state@.len() == b.out_state@.len()
    &&& forall|i: int| 0 <= i < a.out_state@.len() ==> #[trigger] a.out_state@[i].terms@ == b.out_state@[i].terms@
    &&& a.phase_poly.terms@ == b.phase_poly.terms@
    &&& a.continuous_poly.parities@ == b.continuous_poly.parities@
    &&& a.continuous_poly.phases@ == b.continuous_poly.phases@
    &&& a.overflow_id == b.overflow_id
}

/// Output rows as monomial lists.
pub open spec fn row_terms(s: EvaluatedPathSum) -> Seq<Seq<u128>> {
    s.out_state@.map_values(|p: BooleanPoly| p.terms@)
}

/// Continuous angles widened for rendering.
pub open spec fn wide_phases(s: EvaluatedPathSum) -> Seq<u128> {
    s.continuous_poly.phases@.map_values(|x: u32| x as u128)
}

/// The fingerprint read from the left: the same text nested to the right.
pub open spec fn fingerprint_nested(s: EvaluatedPathSum) -> Seq<char> {
    "EvaluatedPathSum { num_qubits: "@ + (dec(s.num_qubits as nat)
    + (", num_path_vars: "@ + (dec(s.num_path_vars as nat)
    + (", out_state: "@ + (list_text(row_terms(s).map_values(|v: Seq<u128>| dec_list(v)))
    + (", phase_poly: "@ + (list_text(s.phase_poly.terms@.map_values(|t: PackedPhaseTerm| term_text(t)))
    + (", parities: "@ + (dec_list(s.continuous_poly.parities@)
    + (", phases: "@ + (dec_list(wide_phases(s))
    + (", overflow_id: "@ + (dec(s.overflow_id as nat) + " }"@)))))))))))))
}

proof fn lemma_assoc(a: Seq<char>, b: Seq<char>, c: Seq<char>)
    ensures
        (a + b) + c == a + (b + c),
{
    assert((a + b) + c =~= a + (b + c));
}

proof fn lemma_fingerprint_nested(s: EvaluatedPathSum)
    ensures
        fingerprint_text(s) == fingerprint_nested(s),
{
    let x0 = "EvaluatedPathSum { num_qubits: "@;
    let x1 = dec(s.num_qubits as nat);
    let x2 = ", num_path_vars: "@;
    let x3 = dec(s.num_path_vars as nat);
    let x4 = ", out_state: "@;
    let x5 = list_text(s.out_state@.map_values(|p: BooleanPoly| dec_list(p.terms@)));
    let x6 = ", phase_poly: "@;
    let x7 = list_text(s.phase_poly.terms@.map_values(|t: PackedPhaseTerm| term_text(t)));
    let x8 = ", parities: "@;
    let x9 = dec_list(s.continuous_poly.parities@);
    let x10 = ", phases: "@;
    let x11 = dec_list(s.continuous_poly.phases@.map_values(|x: u32| x as u128));
    let x12 = ", overflow_id: "@;
    let x13 = dec(s.overflow_id as nat);
    let x14 = " }"@;
    let l1 = x0 + x1;
    let l2 = l1 + x2;
    let l3 = l2 + x3;
    let l4 = l3 + x4;
    let l5 = l4 + x5;
    let l6 = l5 + x6;
    let l7 = l6 + x7;
    let l8 = l7 + x8;
    let l9 = l8 + x9;
    let l10 = l9 + x10;
    let l11 = l10 + x11;
    let l12 = l11 + x12;
    let r13 = x13 + x14;
    let r12 = x12 + r13;
    let r11 = x11 + r12;
    let r10 = x10 + r11;
    let r9 = x9 + r10;
    let r8 = x8 + r9;
    let r7 = x7 + r8;
    let r6 = x6 + r7;
    let r5 = x5 + r6;
    let r4 = x4 + r5;
    let r3 = x3 + r4;
    let r2 = x2 + r3;
    let r1 = x1 + r2;
    assert(fingerprint_text(s) == (l12 + x13) + x14);
    lemma_assoc(l12, x13, x14);
    lemma_assoc(l11, x12, r13);
    lemma_assoc(l10, x11, r12);
    lemma_assoc(l9, x10, r11);
    lemma_assoc(l8, x9, r10);
    lemma_assoc(l7, x8, r9);
    lemma_assoc(l6, x7, r8);
    lemma_assoc(l5, x6, r7);
    lemma_assoc(l4, x5, r6);
    lemma_assoc(l3, x4, r5);
    lemma_assoc(l2, x3, r4);
    lemma_assoc(l1, x2, r3);
    lemma_assoc(x0, x1, r2);
    assert(s.out_state@.map_values(|p: BooleanPoly| dec_list(p.terms@))
        =~= row_terms(s).map_values(|v: Seq<u128>| dec_list(v)));
    assert(fingerprint_text(s) == x0 + r1);
}

/// Equal fingerprints come from path sums that agree on every field the
/// fingerprint shows.
pub proof fn lemma_fingerprint_determines_fields(a: EvaluatedPathSum, b: EvaluatedPathSum)
    requires
        fingerprint_text(a) == fingerprint_text(b),
    ensures
        fingerprint_fields_agree(a, b),
{
    lemma_fingerprint_nested(a);
    lemma_fingerprint_nested(b);
    reveal_strlit(", num_path_vars: ");
    reveal_strlit(", out_state: ");
    reveal_strlit(", phase_poly: ");
    reveal_strlit(", parities: ");
    reveal_strlit(", phases: ");
    reveal_strlit(", overflow_id: ");
    reveal_strlit(" }");
    let fd = |x: u128| dec(x as nat);
    let fl = |v: Seq<u128>| dec_list(v);
    let ft = |t: PackedPhaseTerm| term_text(t);
    lemma_dec_self_delimiting();
    lemma_dec_list_self_delimiting();
    lemma_term_self_delimiting();
    // the overflow id and the closing brace
    let a13 = dec(a.overflow_id as nat) + " }"@;
    let b13 = dec(b.overflow_id as nat) + " }"@;
    let a12 = ", overflow_id: "@ + a13;
    let b12 = ", overflow_id: "@ + b13;
    let a11 = dec_list(wide_phases(a)) + a12;
    let b11 = dec_list(wide_phases(b)) + b12;
    let a10 = ", phases: "@ + a11;
    let b10 = ", phases: "@ + b11;
    let a9 = dec_list(a.continuous_poly.parities@) + a10;
    let b9 = dec_list(b.continuous_poly.parities@) + b10;
    let a8 = ", parities: "@ + a9;
    let b8 = ", parities: "@ + b9;
    let a7 = list_text(a.phase_poly.terms@.map_values(ft)) + a8;
    let b7 = list_text(b.phase_poly.terms@.map_values(ft)) + b8;
    let a6 = ", phase_poly: "@ + a7;
    let b6 = ", phase_poly: "@ + b7;
    let a5 = list_text(row_terms(a).map_values(fl)) + a6;
    let b5 = list_text(row_terms(b).map_values(fl)) + b6;
    let a4 = ", out_state: "@ + a5;
    let b4 = ", out_state: "@ + b5;
    let a3 = dec(a.num_path_vars as nat) + a4;
    let b3 = dec(b.num_path_vars as nat) + b4;
    let a2 = ", num_path_vars: "@ + a3;
    let b2 = ", num_path_vars: "@ + b3;
    let a1 = dec(a.num_qubits as nat) + a2;
    let b1 = dec(b.num_qubits as nat) + b2;
    assert(fingerprint_nested(a) == "EvaluatedPathSum { num_qubits: "@ + a1);
    assert(fingerprint_nested(b) == "EvaluatedPathSum { num_qubits: "@ + b1);
    lemma_strip_prefix("EvaluatedPathSum { num_qubits: "@, a1, b1);
    assert(a2[0] == ',' && b2[0] == ',');
    lemma_dec_prefix_unique(a.num_qubits as nat, b.num_qubits as nat, a2, b2);
    lemma_strip_prefix(", num_path_vars: "@, a3, b3);
    assert(a4[0] == ',' && b4[0] == ',');
    lemma_dec_prefix_unique(a.num_path_vars as nat, b.num_path_vars as nat, a4, b4);
    lemma_strip_prefix(", out_state: "@, a5, b5);
    lemma_list_text_unique(fl, row_terms(a), row_terms(b), a6, b6);
    lemma_strip_prefix(", phase_poly: "@, a7, b7);
    lemma_list_text_unique(ft, a.phase_poly.terms@, b.phase_poly.terms@, a8, b8);
    lemma_strip_prefix(", parities: "@, a9, b9);
    lemma_list_text_unique(fd, a.continuous_poly.parities@, b.continuous_poly.parities@, a10, b10);
    lemma_strip_prefix(", phases: "@, a11, b11);
    lemma_list_text_unique(fd, wide_phases(a), wide_phases(b), a12, b12);
    lemma_strip_prefix(", overflow_id: "@, a13, b13);
    assert(" }"@[0] == ' ');
    lemma_dec_prefix_unique(a.overflow_id as nat, b.overflow_id as nat, " }"@, " }"@);
    assert forall|i: int| 0 <= i < a.out_state@.len() implies #[trigger] a.out_state@[i].terms@ == b.out_state@[i].terms@ by {
        assert(row_terms(a)[i] == a.out_state@[i].terms@);
        assert(row_terms(b)[i] == b.out_state@[i].terms@);
    }
    assert forall|i: int| 0 <= i < a.continuous_poly.phases@.len()
        implies a.continuous_poly.phases@[i] == #[trigger] b.continuous_poly.phases@[i] by {
        assert(wide_phases(a)[i] == wide_phases(b)[i]);
    }
    assert(a.continuous_poly.phases@ =~= b.continuous_poly.phases@);
}

fn dec_list_string(v: &Vec<u128>) -> (r: String)
    ensures
        r@ == dec_list(v@),
{
    let items = decimals(v);
    bracket_list(&items)
}

fn term_string(t: PackedPhaseTerm) -> (r: String)
    ensures
        r@ == term_text(t),
{
    let mut s = String::from_str("(");
    push_decimal(&mut s, t.mono);
    s.append(", ");
    push_decimal(&mut s, t.ph as u128);
    s.append(")");
    s
}

/// Render a path sum as [`fingerprint_text`].
fn fingerprint_string(state: &EvaluatedPathSum) -> (r: String)
    ensures
        r@ == fingerprint_text(*state),
{
    let mut rows: Vec<String> = Vec::new();
    let mut q: usize = 0;
    while q < state.out_state.len()
        invariant
            q <= state.out_state@.len(),
            rows@.map_values(|p: String| p@) == state.out_state@.subrange(0, q as int).map_values(|p: BooleanPoly| dec_list(p.terms@)),
        decreases state.out_state@.len() - q,
    {
        let ghost before = rows@;
        let d = dec_list_string(&state.out_state[q].terms);
        rows.push(d);
        proof {
            let lhs = rows@.map_values(|p: String| p@);
            let rhs = state.out_state@.subrange(0, q + 1).map_values(|p: BooleanPoly| dec_list(p.terms@));
            let prev = before.map_values(|p: String| p@);
            assert(prev.len() == before.len());
            assert(state.out_state@.subrange(0, q as int).map_values(|p: BooleanPoly| dec_list(p.terms@)).len() == q);
            assert(lhs.len() == rhs.len());
            assert forall|j: int| 0 <= j < lhs.len() implies lhs[j] == rhs[j] by {
                if j < before.len() {
                    assert(rows@[j] == before[j]);
                    assert(lhs[j] == prev[j]);
                } else {
                    assert(rows@[j] == d);
                    assert(state.out_state@.subrange(0, q + 1)[j] == state.out_state@[q as int]);
                }
            }
            assert(lhs =~= rhs);
        }
        q = q + 1;
    }
    assert(state.out_state@.subrange(0, state.out_state@.len() as int) =~= state.out_state@);
    let mut terms: Vec<String> = Vec::new();
    let mut k: usize = 0;
    while k < state.phase_poly.terms.len()
        invariant
            k <= state.phase_poly.terms@.len(),
            terms@.map_values(|p: String| p@) == state.phase_poly.terms@.subrange(0, k as int).map_values(|t: PackedPhaseTerm| term_text(t)),
        decreases state.phase_poly.terms@.len() - k,
    {
        let ghost before = terms@;
        let d = term_string(state.phase_poly.terms[k]);
        terms.push(d);
        proof {
            let lhs = terms@.map_values(|p: String| p@);
            let rhs = state.phase_poly.terms@.subrange(0, k + 1).map_values(|t: PackedPhaseTerm| term_text(t));
            let prev = before.map_values(|p: String| p@);
            assert(prev.len() == before.len());
            assert(state.phase_poly.terms@.subrange(0, k as int).map_values(|t: PackedPhaseTerm| term_text(t)).len() == k);
            assert(lhs.len() == rhs.len());
            assert forall|j: int| 0 <= j < lhs.len() implies lhs[j] == rhs[j] by {
                if j < before.len() {
                    assert(terms@[j] == before[j]);
                    assert(lhs[j] == prev[j]);
                } else {
                    assert(terms@[j] == d);
                    assert(state.phase_poly.terms@.subrange(0, k + 1)[j] == state.phase_poly.terms@[k as int]);
                }
            }
            assert(lhs =~= rhs);
        }
        k = k + 1;
    }
    assert(state.phase_poly.terms@.subrange(0, state.phase_poly.terms@.len() as int) =~= state.phase_poly.terms@);
    let mut phases: Vec<u128> = Vec::new();
    let mut k: usize = 0;
    while k < state.continuous_poly.phases.len()
        invariant
            k <= state.continuous_poly.phases@.len(),
            phases@ == state.continuous_poly.phases@.subrange(0, k as int).map_values(|x: u32| x as u128),
        decreases state.continuous_poly.phases@.len() - k,
    {
        phases.push(state.continuous_poly.phases[k] as u128);
        assert(phases@ =~= state.continuous_poly.phases@.subrange(0, k + 1).map_values(|x: u32| x as u128));
        k = k + 1;
    }
    assert(state.continuous_poly.phases@.subrange(0, state.continuous_poly.phases@.len() as int) =~= state.continuous_poly.phases@);
    let rows_s = bracket_list(&rows);
    let terms_s = bracket_list(&terms);
    let parities_s = dec_list_string(&state.continuous_poly.parities);
    let phases_s = dec_list_string(&phases);
    let mut out = String::from_str("EvaluatedPathSum { num_qubits: ");
    push_decimal(&mut out, state.num_qubits as u128);
    out.append(", num_path_vars: ");
    push_decimal(&mut out, state.num_path_vars as u128);
    out.append(", out_state: ");
    out.append(rows_s.as_str());
    out.append(", phase_poly: ");
    out.append(terms_s.as_str());
    out.append(", parities: ");
    out.append(parities_s.as_str());
    out.append(", phases: ");
    out.append(phases_s.as_str());
    out.append(", overflow_id: ");
    push_decimal(&mut out, state.overflow_id as u128);
    out.append(" }");
    out
}

/// Complete canonical fingerprint (64-bit engine): two fingerprints are
/// equal exactly when the states are.
pub fn state_fingerprint_logic_64(state: EvaluatedPathSum) -> (r: String)
    requires
        state.width == 64,
    ensures
        r@ == fingerprint_text(state),
{
    fingerprint_string(&state)
}

/// Complete canonical fingerprint (128-bit engine).
pub fn state_fingerprint_logic_128(state: EvaluatedPathSum) -> (r: String)
    requires
        state.width == 128,
    ensures
        r@ == fingerprint_text(state),
{
    fingerprint_string(&state)
}


/// Whether two strings hold the same characters.
fn str_equal(a: &str, b: &str) -> (r: bool)
    ensures
        r == (a@ == b@),
{
    let n = a.unicode_len();
    if n != b.unicode_len() {
        return false;
    }
    let mut i: usize = 0;
    while i < n
        invariant
            n == a@.len(),
            n == b@.len(),
            i <= n,
            forall|k: int| 0 <= k < i ==> a@[k] == b@[k],
        decreases n - i,
    {
        if a.get_char(i) != b.get_char(i) {
            return false;
        }
        i = i + 1;
    }
    assert(a@ =~= b@);
    true
}

/// A host-side gate for [`fingerprint_ops_logic_64`] and
/// [`fingerprint_ops_logic_128`].
#[derive(Clone, Copy, Debug, PartialEq, Eq)]
pub enum FingerprintOp {
    X(i64),
    Z(i64),
    S(i64),
    Sdg(i64),
    T(i64),
    Tdg(i64),
    H(i64),
    Sx(i64),
    /// `RZ` on a qubit by the angle whose `f64` bit pattern is given.
    RzBits(i64, i64),
    Cx(i64, i64),
}

impl FingerprintOp {
    /// Meaning of a gate name and its argument list: `Some` gate for a
    /// known name with enough arguments, `None` otherwise.
    pub open spec fn parse_spec(name: Seq<char>, args: Seq<i64>) -> Option<FingerprintOp> {
        if name == "x"@ && args.len() >= 1 { Some(FingerprintOp::X(args[0])) }
        else if name == "z"@ && args.len() >= 1 { Some(FingerprintOp::Z(args[0])) }
        else if name == "s"@ && args.len() >= 1 { Some(FingerprintOp::S(args[0])) }
        else if name == "sdg"@ && args.len() >= 1 { Some(FingerprintOp::Sdg(args[0])) }
        else if name == "t"@ && args.len() >= 1 { Some(FingerprintOp::T(args[0])) }
        else if name == "tdg"@ && args.len() >= 1 { Some(FingerprintOp::Tdg(args[0])) }
        else if name == "h"@ && args.len() >= 1 { Some(FingerprintOp::H(args[0])) }
        else if name == "sx"@ && args.len() >= 1 { Some(FingerprintOp::Sx(args[0])) }
        else if name == "rz_bits"@ && args.len() >= 2 { Some(FingerprintOp::RzBits(args[0], args[1])) }
        else if name == "cx"@ && args.len() >= 2 { Some(FingerprintOp::Cx(args[0], args[1])) }
        else { None }
    }

    /// Parse a gate name and its arguments.
    pub fn parse(name: &str, args: &[i64]) -> (r: Option<FingerprintOp>)
        ensures
            r == Self::parse_spec(name@, args@),
    {
        let n = args.len();
        if str_equal(name, "x") && n >= 1 { Some(FingerprintOp::X(args[0])) }
        else if str_equal(name, "z") && n >= 1 { Some(FingerprintOp::Z(args[0])) }
        else if str_equal(name, "s") && n >= 1 { Some(FingerprintOp::S(args[0])) }
        else if str_equal(name, "sdg") && n >= 1 { Some(FingerprintOp::Sdg(args[0])) }
        else if str_equal(name, "t") && n >= 1 { Some(FingerprintOp::T(args[0])) }
        else if str_equal(name, "tdg") && n >= 1 { Some(FingerprintOp::Tdg(args[0])) }
        else if str_equal(name, "h") && n >= 1 { Some(FingerprintOp::H(args[0])) }
        else if str_equal(name, "sx") && n >= 1 { Some(FingerprintOp::Sx(args[0])) }
        else if str_equal(name, "rz_bits") && n >= 2 { Some(FingerprintOp::RzBits(args[0], args[1])) }
        else if str_equal(name, "cx") && n >= 2 { Some(FingerprintOp::Cx(args[0], args[1])) }
        else { None }
    }
}

/// What one host-side gate does, through the entry point that applies it
/// (`ticks` is the lattice angle of an `RzBits`).
pub open spec fn op_outcome(state: EvaluatedPathSum, op: FingerprintOp, ticks: u32, r: EvaluatedPathSum) -> bool {
    match op {
        FingerprintOp::X(q) => gate_outcome(state, q, Gate::X, r),
        FingerprintOp::Z(q) => gate_outcome(state, q, Gate::Z, r),
        FingerprintOp::S(q) => gate_outcome(state, q, Gate::S, r),
        FingerprintOp::Sdg(q) => gate_outcome(state, q, Gate::Sdg, r),
        FingerprintOp::T(q) => gate_outcome(state, q, Gate::T, r),
        FingerprintOp::Tdg(q) => gate_outcome(state, q, Gate::Tdg, r),
        FingerprintOp::H(q) => gate_outcome(state, q, Gate::H, r),
        FingerprintOp::Sx(q) => gate_outcome(state, q, Gate::Sx, r),
        FingerprintOp::RzBits(q, _) => rz_outcome(state, q, ticks, r),
        FingerprintOp::Cx(c, t) => cx_outcome(state, c, t, r),
    }
}

/// `states` runs through `ops` one gate at a time: each state is what the
/// gate's entry point makes of the one before.
pub open spec fn ops_trace(states: Seq<EvaluatedPathSum>, ops: Seq<FingerprintOp>, ticks: Seq<u32>) -> bool {
    &&& states.len() == ops.len() + 1
    &&& forall|k: int| 0 <= k < ops.len() ==> op_outcome(#[trigger] states[k], ops[k], ticks[k], states[k + 1])
}

/// Apply `ops` in order, starting at the identity, exactly as the single-gate
/// entry points do. `rz_ticks[k]` holds the lattice angle of `ops[k]` when
/// that is an `RzBits`.
fn fold_ops(width: u32, n: i64, ops: &[FingerprintOp], rz_ticks: &[u32]) -> (r: EvaluatedPathSum)
    requires
        width == 64 || width == 128,
        n <= width,
        rz_ticks@.len() == ops@.len(),
    ensures
        r.wf(),
        r.width == width,
        exists|states: Seq<EvaluatedPathSum>| #![trigger ops_trace(states, ops@, rz_ticks@)]
            ops_trace(states, ops@, rz_ticks@)
            && is_identity_state(states[0], width, if n <= 0 { 0 } else { n as nat })
            && states.last() == r,
{
    let mut ps = id_pathsum(width, n);
    let ghost mut states: Seq<EvaluatedPathSum> = seq![ps];
    let mut k: usize = 0;
    while k < ops.len()
        invariant
            ps.wf(),
            ps.width == width,
            k <= ops@.len(),
            rz_ticks@.len() == ops@.len(),
            states.len() == k + 1,
            states.last() == ps,
            is_identity_state(states[0], width, if n <= 0 { 0 } else { n as nat }),
            forall|j: int| 0 <= j < k ==> op_outcome(#[trigger] states[j], ops@[j], rz_ticks@[j], states[j + 1]),
        decreases ops@.len() - k,
    {
        let ghost prev = ps;
        ps = match ops[k] {
            FingerprintOp::X(q) => apply_gate_logic(ps, q, Gate::X),
            FingerprintOp::Z(q) => apply_gate_logic(ps, q, Gate::Z),
            FingerprintOp::S(q) => apply_gate_logic(ps, q, Gate::S),
            FingerprintOp::Sdg(q) => apply_gate_logic(ps, q, Gate::Sdg),
            FingerprintOp::T(q) => apply_gate_logic(ps, q, Gate::T),
            FingerprintOp::Tdg(q) => apply_gate_logic(ps, q, Gate::Tdg),
            FingerprintOp::H(q) => apply_gate_logic(ps, q, Gate::H),
            FingerprintOp::Sx(q) => apply_gate_logic(ps, q, Gate::Sx),
            FingerprintOp::RzBits(q, _bits) => apply_rz_logic(ps, q, rz_ticks[k]),
            FingerprintOp::Cx(c, t) => apply_cx_logic(ps, c, t),
        };
        proof {
            let st2 = states.push(ps);
            assert(op_outcome(prev, ops@[k as int], rz_ticks@[k as int], ps));
            assert forall|j: int| 0 <= j < k + 1 implies op_outcome(#[trigger] st2[j], ops@[j], rz_ticks@[j], st2[j + 1]) by {
                if j < k {
                    assert(st2[j] == states[j] && st2[j + 1] == states[j + 1]);
                } else {
                    assert(st2[j] == prev && st2[j + 1] == ps);
                }
            }
            states = st2;
        }
        k = k + 1;
    }
    proof {
        assert(ops_trace(states, ops@, rz_ticks@));
    }
    ps
}

/// Fingerprint of the circuit `ops` on `n` qubits (64-bit engine), folded
/// through the same gate wrappers as single applications. An overflowed
/// state yields its overflow fingerprint, never `None`.
pub fn fingerprint_ops_logic_64(n: i64, ops: &[FingerprintOp], rz_ticks: &[u32]) -> (r: Option<String>)
    requires
        n <= 64,
        rz_ticks@.len() == ops@.len(),
    ensures
        r matches Some(s) && exists|states: Seq<EvaluatedPathSum>| #![trigger ops_trace(states, ops@, rz_ticks@)]
            ops_trace(states, ops@, rz_ticks@)
            && is_identity_state(states[0], 64, if n <= 0 { 0 } else { n as nat })
            && s@ == fingerprint_text(states.last()),
{
    let ps = fold_ops(64, n, ops, rz_ticks);
    let s = fingerprint_string(&ps);
    Some(s)
}

/// Fingerprint of the circuit `ops` on `n` qubits (128-bit engine).
pub fn fingerprint_ops_logic_128(n: i64, ops: &[FingerprintOp], rz_ticks: &[u32]) -> (r: Option<String>)
    requires
        n <= 128,
        rz_ticks@.len() == ops@.len(),
    ensures
        r matches Some(s) && exists|states: Seq<EvaluatedPathSum>| #![trigger ops_trace(states, ops@, rz_ticks@)]
            ops_trace(states, ops@, rz_ticks@)
            && is_identity_state(states[0], 128, if n <= 0 { 0 } else { n as nat })
            && s@ == fingerprint_text(states.last()),
{
    let ps = fold_ops(128, n, ops, rz_ticks);
    let s = fingerprint_string(&ps);
    Some(s)
}

/// The path-sum sort of the 64-bit engine.
#[derive(Debug)]
pub struct PathSumSort64;

impl PathSumSort64 {
    /// Name of the sort.
    pub fn name(&self) -> (r: &'static str)
        ensures
            r@ == "PathSum64"@,
    {
        "PathSum64"
    }
}

/// The path-sum sort of the 128-bit engine.
#[derive(Debug)]
pub struct PathSumSort128;

impl PathSumSort128 {
    /// Name of the sort.
    pub fn name(&self) -> (r: &'static str)
        ensures
            r@ == "PathSum128"@,
    {
        "PathSum128"
    }
}


/// Every output row mentions input qubits only.
pub open spec fn rows_in_qubits(s: EvaluatedPathSum) -> bool {
    forall|i: int| 0 <= i < s.num_qubits ==> #[trigger] s.out_state@[i].variable_mask & !low_mask_spec(s.num_qubits as nat) == 0
}

/// Every output row is affine: each monomial is the constant or one variable.
pub open spec fn rows_affine(s: EvaluatedPathSum) -> bool {
    forall|i: int, k: int| 0 <= i < s.num_qubits && 0 <= k < s.out_state@[i].terms@.len()
        ==> zero_or_pow2(#[trigger] s.out_state@[i].terms@[k])
}

/// Every discrete phase monomial mentions input qubits only.
pub open spec fn monomials_in_qubits(s: EvaluatedPathSum) -> bool {
    forall|k: int| 0 <= k < s.phase_poly.terms@.len() ==> (#[trigger] s.phase_poly.terms@[k]).mono & !low_mask_spec(s.num_qubits as nat) == 0
}

/// Every continuous parity is a nonzero XOR of input qubits.
pub open spec fn parities_in_qubits(s: EvaluatedPathSum) -> bool {
    forall|k: int| 0 <= k < s.continuous_poly.parities@.len() ==>
        #[trigger] s.continuous_poly.parities@[k] != 0
        && s.continuous_poly.parities@[k] & !low_mask_spec(s.num_qubits as nat) == 0
}

fn monomials_within(state: &EvaluatedPathSum, valid_mask: u128) -> (r: bool)
    ensures
        r == forall|k: int| 0 <= k < state.phase_poly.terms@.len() ==> (#[trigger] state.phase_poly.terms@[k]).mono & !valid_mask == 0,
{
    let mut k: usize = 0;
    while k < state.phase_poly.terms.len()
        invariant
            k <= state.phase_poly.terms@.len(),
            forall|j: int| 0 <= j < k ==> (#[trigger] state.phase_poly.terms@[j]).mono & !valid_mask == 0,
        decreases state.phase_poly.terms@.len() - k,
    {
        if (state.phase_poly.terms[k].mono & !valid_mask) != 0 {
            return false;
        }
        k = k + 1;
    }
    true
}

fn rows_within(state: &EvaluatedPathSum, valid_mask: u128) -> (r: bool)
    requires
        state.wf(),
    ensures
        r == forall|i: int| 0 <= i < state.num_qubits ==> #[trigger] state.out_state@[i].variable_mask & !valid_mask == 0,
{
    let mut q: usize = 0;
    while q < state.out_state.len()
        invariant
            state.wf(),
            q <= state.out_state@.len(),
            forall|i: int| 0 <= i < q ==> #[trigger] state.out_state@[i].variable_mask & !valid_mask == 0,
        decreases state.out_state@.len() - q,
    {
        if (state.out_state[q].variable_mask & !valid_mask) != 0 {
            return false;
        }
        q = q + 1;
    }
    true
}

fn rows_are_affine(state: &EvaluatedPathSum) -> (r: bool)
    requires
        state.wf(),
    ensures
        r == rows_affine(*state),
{
    let mut q: usize = 0;
    while q < state.out_state.len()
        invariant
            state.wf(),
            q <= state.out_state@.len(),
            forall|i: int, k: int| 0 <= i < q && 0 <= k < state.out_state@[i].terms@.len()
                ==> zero_or_pow2(#[trigger] state.out_state@[i].terms@[k]),
        decreases state.out_state@.len() - q,
    {
        let mut t: usize = 0;
        while t < state.out_state[q].terms.len()
            invariant
                state.wf(),
                q < state.out_state@.len(),
                t <= state.out_state@[q as int].terms@.len(),
                forall|i: int, k: int| 0 <= i < q && 0 <= k < state.out_state@[i].terms@.len()
                    ==> zero_or_pow2(#[trigger] state.out_state@[i].terms@[k]),
                forall|k: int| 0 <= k < t ==> zero_or_pow2(#[trigger] state.out_state@[q as int].terms@[k]),
            decreases state.out_state@[q as int].terms@.len() - t,
        {
            if !is_zero_or_pow2(state.out_state[q].terms[t]) {
                return false;
            }
            t = t + 1;
        }
        q = q + 1;
    }
    true
}

/// Refusals shared by the parity-network resyntheses: `None` for tiny
/// counts, overflowed states, a continuous parity on a path variable or the
/// empty parity, an output row on a path variable or not affine, or a
/// phase monomial on a path variable; otherwise the qubits of the trailing
/// `X` layer.
pub fn gray_precheck(state: &EvaluatedPathSum, gate_count: i64) -> (r: Option<Vec<usize>>)
    requires
        state.wf(),
    ensures
        r is Some <==> gate_count > 2 && state.overflow_id == 0 && parities_in_qubits(*state)
            && rows_in_qubits(*state) && rows_affine(*state) && monomials_in_qubits(*state),
        r matches Some(v) ==> v@ == x_offsets_upto(*state, state.num_qubits as int),
{
    if gate_count <= 2 || state.overflow_id != 0 {
        return None;
    }
    if !continuous_parities_are_qubit_linear(state) {
        return None;
    }
    let valid_mask = low_mask(state.num_qubits);
    if !rows_within(state, valid_mask) || !rows_are_affine(state) || !monomials_within(state, valid_mask) {
        return None;
    }
    Some(affine_x_offsets(state))
}

/// Refusals of the Steiner resynthesis (rows need not be affine).
pub fn steiner_precheck(state: &EvaluatedPathSum, gate_count: i64) -> (r: Option<Vec<usize>>)
    requires
        state.wf(),
    ensures
        r is Some <==> gate_count > 2 && state.overflow_id == 0 && parities_in_qubits(*state)
            && rows_in_qubits(*state) && monomials_in_qubits(*state),
        r matches Some(v) ==> v@ == x_offsets_upto(*state, state.num_qubits as int),
{
    if gate_count <= 2 || state.overflow_id != 0 {
        return None;
    }
    if !continuous_parities_are_qubit_linear(state) {
        return None;
    }
    let valid_mask = low_mask(state.num_qubits);
    if !rows_within(state, valid_mask) || !monomials_within(state, valid_mask) {
        return None;
    }
    Some(affine_x_offsets(state))
}

/// Cost of a resynthesised circuit with `len` instructions of which
/// `total_cnots` are CX, in 64-bit two's-complement arithmetic.
pub open spec fn synthesis_cost(len: int, total_cnots: i64, cnot_weight: i64, rz_weight: i64) -> i64 {
    let rz_count = i64_specs::wrapping_sub(len as i64, total_cnots);
    i64_specs::wrapping_add(i64_specs::wrapping_mul(rz_count, rz_weight), i64_specs::wrapping_mul(total_cnots, cnot_weight))
}

/// The answer of a resynthesis: `None` when it does not beat `hw_cost`,
/// `empty` for no instruction, the joined instructions otherwise.
pub open spec fn synthesis_answer(parts: Seq<Seq<char>>, total_cnots: i64, hw_cost: i64, cnot_weight: i64, rz_weight: i64) -> Seq<char> {
    if synthesis_cost(parts.len() as int, total_cnots, cnot_weight, rz_weight) >= hw_cost {
        "None"@
    } else if parts.len() == 0 {
        "empty"@
    } else {
        joined(parts, ";"@)
    }
}

/// Append the `X` layer, then price the circuit against `hw_cost`.
pub fn finish_synthesis(instructions: Vec<String>, total_cnots: i64, x_offsets: &Vec<usize>, hw_cost: i64,
    cnot_weight: i64, rz_weight: i64) -> (r: String)
    ensures
        r@ == synthesis_answer(instructions@.map_values(|p: String| p@) + x_offsets@.map_values(|q: usize| x_text(q)),
            total_cnots, hw_cost, cnot_weight, rz_weight),
{
    let mut instructions = instructions;
    append_x_layer(&mut instructions, x_offsets);
    let len = instructions.len();
    assert(instructions@.map_values(|p: String| p@).len() == len);
    let len_i: i64 = #[verifier::truncate] (len as i64);
    let rz_count = len_i.wrapping_sub(total_cnots);
    let cost = rz_count.wrapping_mul(rz_weight).wrapping_add(total_cnots.wrapping_mul(cnot_weight));
    if cost >= hw_cost {
        return String::from_str("None");
    }
    if len == 0 {
        return String::from_str("empty");
    }
    join_with(&instructions, ";")
}

/// The conditions under which the Steiner resynthesis goes to work.
pub open spec fn steiner_ready(s: EvaluatedPathSum, gate_count: i64) -> bool {
    &&& gate_count > 2
    &&& s.overflow_id == 0
    &&& parities_in_qubits(s)
    &&& rows_in_qubits(s)
    &&& monomials_in_qubits(s)
}

/// Steiner-tree CX+RZ resynthesis on the coupling graph `topology_str`, once
/// the phases are parity rotations: `terms` holds each parity mask with its
/// angle as a signed bit pattern, in the order of placement. The answer
/// joins one rotation block per term, the routed CNOT network of the output
/// rows and the `X` layer, priced against `hw_cost`; every CNOT in it joins
/// two wires that `topology_str` couples. `None` when the path sum is
/// refused or the circuit does not beat `hw_cost`.
pub fn synthesize_steiner_with_terms(state: &EvaluatedPathSum, gate_count: i64, hw_cost: i64, topology_str: &str,
    terms: &Vec<(u128, i64)>, cnot_weight: i64, rz_weight: i64) -> (r: String)
    requires
        state.wf(),
    ensures
        !steiner_ready(*state, gate_count) ==> r@ == "None"@,
        steiner_ready(*state, gate_count) ==> exists|blocks: Seq<Seq<Seq<char>>>, counts: Seq<i64>, tail: Seq<Seq<char>>, tail_count: i64|
            #![trigger rotation_blocks(state.num_qubits as nat, coupling_of(topology_str@, state.num_qubits as nat), terms@, blocks, counts),
                linear_tail(*state, state.num_qubits as nat, coupling_of(topology_str@, state.num_qubits as nat), tail, tail_count)]
            rotation_blocks(state.num_qubits as nat, coupling_of(topology_str@, state.num_qubits as nat), terms@, blocks, counts)
            && linear_tail(*state, state.num_qubits as nat, coupling_of(topology_str@, state.num_qubits as nat), tail, tail_count)
            && r@ == synthesis_answer(concat_blocks(blocks) + tail
                    + x_offsets_upto(*state, state.num_qubits as int).map_values(|q: usize| x_text(q)),
                saturated(saturated_sum(counts) + tail_count), hw_cost, cnot_weight, rz_weight),
{
    let x_offsets = match steiner_precheck(state, gate_count) {
        Some(v) => v,
        None => { return String::from_str("None"); },
    };
    let n = state.num_qubits as usize;
    let topo = Topology::new(n, topology_str);
    let mut instructions: Vec<String> = Vec::new();
    let blocks_cx = steiner_phase_blocks(&topo, terms, &mut instructions);
    let ghost mid = texts(instructions@);
    let ghost mid_len = instructions@.len();
    let tail_cx = match steiner_linear_tail(state, &topo, &mut instructions) {
        Some(c) => c,
        None => { return String::from_str("None"); },
    };
    let total: i64 = if blocks_cx <= i64::MAX - tail_cx { blocks_cx + tail_cx } else { i64::MAX };
    let ghost ins = texts(instructions@);
    let r = finish_synthesis(instructions, total, &x_offsets, hw_cost, cnot_weight, rz_weight);
    proof {
        let (blocks, counts) = choose|blocks: Seq<Seq<Seq<char>>>, counts: Seq<i64>|
            rotation_blocks(topo.n as nat, topo.link(), terms@, blocks, counts)
            && mid == Seq::<Seq<char>>::empty() + concat_blocks(blocks)
            && blocks_cx == saturated_sum(counts);
        let tail = ins.skip(mid_len as int);
        assert(ins =~= ins.take(mid_len as int) + tail);
        assert(Seq::<Seq<char>>::empty() + concat_blocks(blocks) =~= concat_blocks(blocks));
        let link = coupling_of(topology_str@, n as nat);
        assert forall|a: int, b: int| 0 <= a < n && 0 <= b < n && #[trigger] (topo.link())(a, b) implies link(a, b) by {
            assert(topo.coupled(a, b));
        }
        lemma_relink_rotation_blocks(n as nat, topo.link(), link, terms@, blocks, counts);
        lemma_relink_linear_tail(*state, n as nat, topo.link(), link, tail, tail_cx);
        assert(rotation_blocks(state.num_qubits as nat, link, terms@, blocks, counts));
        assert(linear_tail(*state, state.num_qubits as nat, link, tail, tail_cx));
    }
    r
}

/// The conditions under which the GraySynth resynthesis goes to work.
pub open spec fn gray_ready(s: EvaluatedPathSum, gate_count: i64) -> bool {
    &&& gate_count > 2
    &&& s.overflow_id == 0
    &&& parities_in_qubits(s)
    &&& rows_in_qubits(s)
    &&& rows_affine(s)
    &&& monomials_in_qubits(s)
}

/// GraySynth-style CX+RZ resynthesis on all-to-all connectivity, once the
/// phases are parity rotations: `terms` holds each parity mask with its
/// angle's bit pattern. The answer joins a Gray network that places every
/// term and then maps the wires to the output rows (as [`reaches_target`]
/// states), and the `X` layer, priced against `hw_cost`; `None` when the
/// path sum is refused, the network cannot be built, or the circuit does not
/// beat `hw_cost`. On a path sum that is not refused and whose terms are
/// each a single wire or empty, the network is always built and the answer
/// is the priced circuit.
pub fn synthesize_gray_with_terms(state: &EvaluatedPathSum, gate_count: i64, terms: Vec<(u128, u64)>, hw_cost: i64,
    cnot_weight: i64, rz_weight: i64) -> (r: String)
    requires
        state.wf(),
    ensures
        !gray_ready(*state, gate_count) ==> r@ == "None"@,
        gray_ready(*state, gate_count) ==> r@ == "None"@ || exists|gs: Seq<NetGate>, dropped: Multiset<(u128, u64)>|
            #![trigger places_all_terms(state.num_qubits as nat, terms@, gs, dropped)]
            cx_in_range(gs, state.num_qubits as nat)
            && places_all_terms(state.num_qubits as nat, terms@, gs, dropped)
            && reaches_target(state.num_qubits as nat, gs, row_masks(*state))
            && r@ == synthesis_answer(gate_texts(gs)
                    + x_offsets_upto(*state, state.num_qubits as int).map_values(|q: usize| x_text(q)),
                saturated(cx_count(gs) as int), hw_cost, cnot_weight, rz_weight),
        gray_ready(*state, gate_count) && (forall|i: int| 0 <= i < terms@.len() ==> zero_or_pow2((#[trigger] terms@[i]).0))
            ==> exists|gs: Seq<NetGate>, dropped: Multiset<(u128, u64)>|
            #![trigger places_all_terms(state.num_qubits as nat, terms@, gs, dropped)]
            cx_in_range(gs, state.num_qubits as nat)
            && places_all_terms(state.num_qubits as nat, terms@, gs, dropped)
            && reaches_target(state.num_qubits as nat, gs, row_masks(*state))
            && r@ == synthesis_answer(gate_texts(gs)
                    + x_offsets_upto(*state, state.num_qubits as int).map_values(|q: usize| x_text(q)),
                saturated(cx_count(gs) as int), hw_cost, cnot_weight, rz_weight),
{
    let x_offsets = match gray_precheck(state, gate_count) {
        Some(v) => v,
        None => { return String::from_str("None"); },
    };
    let n = state.num_qubits as usize;
    let mut target: Vec<u128> = Vec::new();
    let mut i: usize = 0;
    while i < n
        invariant
            i <= n,
            n == state.num_qubits,
            state.wf(),
            target@ == Seq::new(i as nat, |k: int| state.out_state@[k].variable_mask),
        decreases n - i,
    {
        target.push(state.out_state[i].variable_mask);
        proof {
            assert(target@ =~= Seq::new((i + 1) as nat, |k: int| state.out_state@[k].variable_mask));
        }
        i = i + 1;
    }
    assert(target@ =~= row_masks(*state));
    let ghost terms0 = terms@;
    proof {
        reveal(crate::gray::gray_terms_ready);
    }
    match synthesize_gray_network(terms, &target, n) {
        Some((instructions, total_cnots)) => {
            let ghost ins = texts(instructions@);
            let r = finish_synthesis(instructions, total_cnots, &x_offsets, hw_cost, cnot_weight, rz_weight);
            proof {
                let (gs, dropped) = choose|gs: Seq<NetGate>, dropped: Multiset<(u128, u64)>|
                    texts(instructions@) == gate_texts(gs)
                    && cx_in_range(gs, n as nat)
                    && total_cnots == saturated(cx_count(gs) as int)
                    && places_all_terms(n as nat, terms0, gs, dropped)
                    && ((forall|i: int| 0 <= i < terms0.len() ==> (#[trigger] terms0[i]).0 & !low_mask_spec(n as nat) == 0)
                        ==> terms0.to_multiset() == rotations(identity_rows(n as nat), gs).to_multiset().add(dropped))
                    && reaches_target(n as nat, gs, target@);
                assert(places_all_terms(state.num_qubits as nat, terms0, gs, dropped));
            }
            r
        },
        None => String::from_str("None"),
    }
}

} // verus!
