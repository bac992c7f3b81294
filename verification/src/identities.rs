//! Self-inverse gates, cancelling and composing rotations, and fingerprints as
//! equality keys.
use vstd::prelude::*;
use crate::evaluator::{EvaluatedPathSum, phase_added, rz_added, rz_total, cliffords_after_rz, promotion_batch, mask_bit_seq};
use crate::continuous_poly::affine_ticks;
use crate::ticks::{TICKS_PER_TURN, TICKS_PER_PI_2};
use crate::expansion::{xor_expansion, lemma_expansion_cancel, lemma_cancelling_sum, lemma_expansion_add};
use crate::phase_poly::{batch_sum, lemma_phase_of_range};
use crate::pathsum::{Gate, cx_outcome, no_reduce_outcome, fingerprint_text, fingerprint_fields_agree,
    lemma_fingerprint_determines_fields, dec_list};
use crate::boolean_poly::BooleanPoly;
use crate::sorted::toggle;
use crate::boolean_poly::lemma_toggle_all_twice;

verus! {

/// Adding `u` and then `v` units of π/4 on the parity of the same row, with
/// `u + v ≡ 0 (mod 8)`, gives back every phase coefficient and leaves the
/// rest of the path sum as it was: `S` then `S†`, and `Z` twice, act as
/// the identity.
pub proof fn phase_units_cancel(a: EvaluatedPathSum, b: EvaluatedPathSum, c: EvaluatedPathSum, q: int, u: u8, v: u8)
    requires
        a.wf(),
        (u + v) % 8 == 0,
        phase_added(a, q, u, b),
        phase_added(b, q, v, c),
    ensures
        forall|x: u128| #[trigger] c.phase_poly.coeff(x) == a.phase_poly.coeff(x),
        c.out_state == a.out_state,
        c.continuous_poly == a.continuous_poly,
        c.same_frame(&a),
{
    let ts = a.out_state@[q].terms@;
    assert forall|x: u128| #[trigger] c.phase_poly.coeff(x) == a.phase_poly.coeff(x) by {
        if x != 0 {
            lemma_expansion_cancel(0, ts, ts.len() as int, u, v);
            lemma_cancelling_sum(xor_expansion(0, ts, u), xor_expansion(0, ts, v), x);
            lemma_phase_of_range(a.phase_poly.terms@, x);
            let p = a.phase_poly.coeff(x);
            let b1 = batch_sum(xor_expansion(0, ts, u), x);
            let b2 = batch_sum(xor_expansion(0, ts, v), x);
            assert(((p + b1) % 8 + b2) % 8 == p) by (nonlinear_arith)
                requires 0 <= p < 8, (b1 + b2) % 8 == 0;
        }
    }
}

/// `X` twice on the same qubit through the entry point without reduction
/// gives back every output row, both phase polynomials and the frame of a
/// path sum without path variables (an out-of-range qubit changes nothing).
pub proof fn x_twice_restores(s: EvaluatedPathSum, q: i64, r1: EvaluatedPathSum, r2: EvaluatedPathSum)
    requires
        s.wf(),
        s.num_path_vars == 0,
        no_reduce_outcome(s, q, Gate::X, r1),
        no_reduce_outcome(r1, q, Gate::X, r2),
    ensures
        forall|i: int| 0 <= i < s.num_qubits ==> #[trigger] r2.row(i) == s.row(i),
        r2.phase_poly == s.phase_poly,
        r2.continuous_poly == s.continuous_poly,
        r2.same_frame(&s),
{
    if 0 <= q < s.num_qubits {
        let r = s.row(q as int);
        assert(toggle(toggle(r, 0), 0) =~= r);
        assert forall|i: int| 0 <= i < s.num_qubits implies #[trigger] r2.row(i) == s.row(i) by {
            if i != q {
                assert(r1.row(i) == s.row(i));
            }
        }
    }
}

/// `CX(qc, qt)` twice through the shielded entry point gives back every
/// output row, both phase polynomials and the frame of a path sum without
/// path variables (equal or out-of-range wires change nothing).
pub proof fn cx_twice_restores(s: EvaluatedPathSum, qc: i64, qt: i64, r1: EvaluatedPathSum, r2: EvaluatedPathSum)
    requires
        s.wf(),
        s.num_path_vars == 0,
        cx_outcome(s, qc, qt, r1),
        cx_outcome(r1, qc, qt, r2),
    ensures
        forall|i: int| 0 <= i < s.num_qubits ==> #[trigger] r2.row(i) == s.row(i),
        r2.phase_poly == s.phase_poly,
        r2.continuous_poly == s.continuous_poly,
        r2.same_frame(&s),
{
    if qc != qt && 0 <= qc < s.num_qubits && 0 <= qt < s.num_qubits {
        let ctrl = s.out_state@[qc as int].terms@;
        assert(r1.out_state@[qc as int] == s.out_state@[qc as int]);
        lemma_toggle_all_twice(s.row(qt as int), ctrl);
        assert forall|i: int| 0 <= i < s.num_qubits implies #[trigger] r2.row(i) == s.row(i) by {
            if i != qt {
                assert(r2.out_state@[i] == r1.out_state@[i]);
                assert(r1.out_state@[i] == s.out_state@[i]);
            }
        }
    }
}

/// The fingerprint is an equality key: two path sums have the same
/// fingerprint exactly when they agree on the qubit and path-variable
/// counts, every output row, both phase polynomials and the overflow id.
pub proof fn fingerprint_is_equality_key(a: EvaluatedPathSum, b: EvaluatedPathSum)
    ensures
        fingerprint_text(a) == fingerprint_text(b) <==> fingerprint_fields_agree(a, b),
{
    if fingerprint_text(a) == fingerprint_text(b) {
        lemma_fingerprint_determines_fields(a, b);
    }
    if fingerprint_fields_agree(a, b) {
        assert(a.out_state@.map_values(|p: BooleanPoly| dec_list(p.terms@))
            =~= b.out_state@.map_values(|p: BooleanPoly| dec_list(p.terms@)));
        assert(a.continuous_poly.phases@.map_values(|x: u32| x as u128)
            =~= b.continuous_poly.phases@.map_values(|x: u32| x as u128));
        assert(fingerprint_text(a) == fingerprint_text(b));
    }
}

/// The arithmetic of two rotations that add up to a full turn on an angle
/// below π/2: the angle comes back and the promoted quarter turns add up
/// to whole turns.
proof fn lemma_rz_turn_arith(a: int, e1: int, e2: int)
    requires
        0 <= a < TICKS_PER_PI_2,
        0 <= e1 < TICKS_PER_TURN,
        0 <= e2 < TICKS_PER_TURN,
        (e1 + e2) % (TICKS_PER_TURN as int) == 0,
    ensures
        ({
            let s1 = (a + e1) % (TICKS_PER_TURN as int);
            let b = s1 % (TICKS_PER_PI_2 as int);
            let s2 = (b + e2) % (TICKS_PER_TURN as int);
            &&& s2 % (TICKS_PER_PI_2 as int) == a
            &&& (s1 / (TICKS_PER_PI_2 as int) + s2 / (TICKS_PER_PI_2 as int)) % 4 == 0
            &&& 0 <= s1 / (TICKS_PER_PI_2 as int) < 4
            &&& 0 <= s2 / (TICKS_PER_PI_2 as int) < 4
        }),
{
    let t = TICKS_PER_TURN as int;
    let h = TICKS_PER_PI_2 as int;
    assert(t == 4 * h);
    assert(e1 + e2 == 0 || e1 + e2 == t);
    let s1 = (a + e1) % t;
    let b = s1 % h;
    let s2 = (b + e2) % t;
    assert(s1 == a + e1 || s1 == a + e1 - t);
    assert(0 <= s1 < t);
    assert(s1 == h * (s1 / h) + b && 0 <= b < h);
    assert(s2 == b + e2 || s2 == b + e2 - t);
    assert(0 <= s2 < t);
    assert(s2 == h * (s2 / h) + s2 % h && 0 <= s2 % h < h);
    assert(s2 % h == a && (s1 / h + s2 / h) % 4 == 0) by (nonlinear_arith)
        requires
            t == 4 * h, h > 0,
            0 <= a < h, 0 <= b < h, 0 <= s2 % h < h,
            e1 + e2 == 0 || e1 + e2 == t,
            s1 == a + e1 || s1 == a + e1 - t,
            s1 == h * (s1 / h) + b,
            s2 == b + e2 || s2 == b + e2 - t,
            s2 == h * (s2 / h) + s2 % h,
            0 <= s1 / h < 4, 0 <= s2 / h < 4;
}

/// What a rotation promotes when the angles were below π/2: at most one
/// quotient, on the rotated row's parity.
proof fn lemma_single_promotion(a: EvaluatedPathSum, q: int, t: u32, ext: Seq<(u128, u8)>)
    requires
        a.wf(),
        0 <= q < a.num_qubits,
        forall|x: u128| #[trigger] a.continuous_poly.angle(x) < TICKS_PER_PI_2,
        cliffords_after_rz(a, q, t, ext),
    ensures
        ({
            let x0 = a.out_state@[q].variable_mask;
            let units = 2 * (rz_total(a, q, t, x0) / (TICKS_PER_PI_2 as int));
            &&& x0 != 0 && units != 0 ==> ext == seq![(x0, units as u8)]
            &&& !(x0 != 0 && units != 0) ==> ext.len() == 0
        }),
{
    let x0 = a.out_state@[q].variable_mask;
    let h = TICKS_PER_PI_2 as int;
    assert forall|k: int| 0 <= k < ext.len() implies (#[trigger] ext[k]).0 == x0 by {
        let y = ext[k].0;
        if y != x0 {
            assert(rz_total(a, q, t, y) == a.continuous_poly.angle(y));
            assert(a.continuous_poly.angle(y) < h);
            assert(rz_total(a, q, t, y) / h == 0);
        }
    }
    if ext.len() >= 2 {
        assert(ext[0].0 < ext[1].0);
    }
    let units = 2 * (rz_total(a, q, t, x0) / h);
    if x0 != 0 && units != 0 {
        assert(rz_total(a, q, t, x0) >= h);
        let k = choose|k: int| 0 <= k < ext.len() && #[trigger] ext[k].0 == x0;
        assert(ext.len() == 1);
        assert(ext[0] == (x0, units as u8));
        assert(ext =~= seq![(x0, units as u8)]);
    } else if ext.len() > 0 {
        assert(ext[0].0 == x0);
        assert(ext[0].1 as int == units);
    }
}

/// The terms one promoted quotient adds.
proof fn lemma_promotion_single(x0: u128, u: u8)
    ensures
        promotion_batch(seq![(x0, u)]) == xor_expansion(0, mask_bit_seq(x0, 128), u),
{
    let e = seq![(x0, u)];
    assert(e.drop_last() =~= Seq::<(u128, u8)>::empty());
    assert(promotion_batch(e.drop_last()) =~= Seq::<crate::phase_poly::PackedPhaseTerm>::empty());
    assert(promotion_batch(e) =~= xor_expansion(0, mask_bit_seq(x0, 128), u));
}

/// The two tick amounts, as they land on the row, add up to whole turns.
proof fn lemma_affine_pair(row: BooleanPoly, t1: u32, t2: u32)
    requires
        ((t1 as int) + (t2 as int)) % (TICKS_PER_TURN as int) == 0,
    ensures
        (affine_ticks(&row, t1) + affine_ticks(&row, t2)) % (TICKS_PER_TURN as int) == 0,
        0 <= affine_ticks(&row, t1) < TICKS_PER_TURN,
        0 <= affine_ticks(&row, t2) < TICKS_PER_TURN,
{
    let t = TICKS_PER_TURN as int;
    let e1 = affine_ticks(&row, t1);
    let e2 = affine_ticks(&row, t2);
    assert((e1 + e2) % t == 0 && 0 <= e1 < t && 0 <= e2 < t) by (nonlinear_arith)
        requires
            t == 536870912,
            ((t1 as int) + (t2 as int)) % t == 0,
            e1 == (if row.terms@.len() > 0 && row.terms@[0] == 0 { (t - (t1 as int) % t) % t } else { (t1 as int) % t }),
            e2 == (if row.terms@.len() > 0 && row.terms@[0] == 0 { (t - (t2 as int) % t) % t } else { (t2 as int) % t });
}

/// The continuous half of [`rz_full_turn_restores`], with the promoted
/// quotients: on the row's parity they add up to whole turns, elsewhere
/// there are none.
proof fn lemma_rz_angles_restored(a: EvaluatedPathSum, b: EvaluatedPathSum, c: EvaluatedPathSum, q: int, t1: u32, t2: u32)
    requires
        a.wf(),
        0 <= q < a.num_qubits,
        ((t1 as int) + (t2 as int)) % (TICKS_PER_TURN as int) == 0,
        forall|x: u128| #[trigger] a.continuous_poly.angle(x) < TICKS_PER_PI_2,
        rz_added(a, q, t1, b),
        rz_added(b, q, t2, c),
    ensures
        forall|x: u128| #[trigger] c.continuous_poly.angle(x) == a.continuous_poly.angle(x),
        forall|x: u128| #[trigger] b.continuous_poly.angle(x) < TICKS_PER_PI_2,
        ({
            let x0 = a.out_state@[q].variable_mask;
            let u1 = 2 * (rz_total(a, q, t1, x0) / (TICKS_PER_PI_2 as int));
            let u2 = 2 * (rz_total(b, q, t2, x0) / (TICKS_PER_PI_2 as int));
            &&& 0 <= u1 < 8 && 0 <= u2 < 8 && (u1 + u2) % 8 == 0
            &&& (u1 == 0) == (u2 == 0)
        }),
{
    let t = TICKS_PER_TURN as int;
    let h = TICKS_PER_PI_2 as int;
    let row = a.out_state@[q];
    let x0 = row.variable_mask;
    let e1 = affine_ticks(&row, t1);
    let e2 = affine_ticks(&row, t2);
    assert(b.out_state@[q] == row);
    lemma_affine_pair(row, t1, t2);
    let active = row.terms@.len() > 0 && x0 != 0;
    let a0 = a.continuous_poly.angle(x0);
    assert(0 <= a0 < h);
    if active {
        lemma_rz_turn_arith(a0, e1, e2);
    }
    assert forall|x: u128| #[trigger] b.continuous_poly.angle(x) < h by {
        assert(b.continuous_poly.angle(x) == rz_total(a, q, t1, x) % h);
    }
    assert forall|x: u128| #[trigger] c.continuous_poly.angle(x) == a.continuous_poly.angle(x) by {
        assert(c.continuous_poly.angle(x) == rz_total(b, q, t2, x) % h);
        assert(b.continuous_poly.angle(x) == rz_total(a, q, t1, x) % h);
        if !(active && x == x0) {
            assert(0 <= a.continuous_poly.angle(x) < h);
        }
    }
    if active {
        assert(rz_total(a, q, t1, x0) == (a0 + e1) % t);
        assert(b.continuous_poly.angle(x0) == ((a0 + e1) % t) % h);
        assert(rz_total(b, q, t2, x0) == (b.continuous_poly.angle(x0) + e2) % t);
    } else {
        assert(rz_total(a, q, t1, x0) == a0);
        assert(rz_total(b, q, t2, x0) == b.continuous_poly.angle(x0));
    }
}

/// `RZ` by `t1` and then by `t2` on the same qubit, with `t1 + t2` a whole
/// number of turns (`T` then `T†`), gives back every continuous angle and
/// every phase coefficient of a path sum whose angles are below π/2, as
/// they are once promoted, and leaves rows and frame as they were.
pub proof fn rz_full_turn_restores(a: EvaluatedPathSum, b: EvaluatedPathSum, c: EvaluatedPathSum, q: int, t1: u32, t2: u32)
    requires
        a.wf(),
        0 <= q < a.num_qubits,
        ((t1 as int) + (t2 as int)) % (TICKS_PER_TURN as int) == 0,
        forall|x: u128| #[trigger] a.continuous_poly.angle(x) < TICKS_PER_PI_2,
        rz_added(a, q, t1, b),
        rz_added(b, q, t2, c),
    ensures
        forall|x: u128| #[trigger] c.continuous_poly.angle(x) == a.continuous_poly.angle(x),
        forall|x: u128| #[trigger] c.phase_poly.coeff(x) == a.phase_poly.coeff(x),
        c.out_state == a.out_state,
        c.same_frame(&a),
{
    let h = TICKS_PER_PI_2 as int;
    lemma_rz_angles_restored(a, b, c, q, t1, t2);
    let x0 = a.out_state@[q].variable_mask;
    let ext1 = choose|ext: Seq<(u128, u8)>| #![trigger cliffords_after_rz(a, q, t1, ext)]
        cliffords_after_rz(a, q, t1, ext)
        && forall|x: u128| #[trigger] b.phase_poly.coeff(x) == if x != 0 {
            (a.phase_poly.coeff(x) + crate::phase_poly::batch_sum(promotion_batch(ext), x)) % 8
        } else {
            a.phase_poly.coeff(x)
        };
    let ext2 = choose|ext: Seq<(u128, u8)>| #![trigger cliffords_after_rz(b, q, t2, ext)]
        cliffords_after_rz(b, q, t2, ext)
        && forall|x: u128| #[trigger] c.phase_poly.coeff(x) == if x != 0 {
            (b.phase_poly.coeff(x) + crate::phase_poly::batch_sum(promotion_batch(ext), x)) % 8
        } else {
            b.phase_poly.coeff(x)
        };
    assert(b.out_state@[q].variable_mask == x0);
    lemma_single_promotion(a, q, t1, ext1);
    lemma_single_promotion(b, q, t2, ext2);
    let u1 = 2 * (rz_total(a, q, t1, x0) / h);
    let u2 = 2 * (rz_total(b, q, t2, x0) / h);
    let ts = mask_bit_seq(x0, 128);
    let pb1 = promotion_batch(ext1);
    let pb2 = promotion_batch(ext2);
    if x0 != 0 && u1 != 0 {
        lemma_promotion_single(x0, u1 as u8);
        lemma_promotion_single(x0, u2 as u8);
        assert(pb1 == xor_expansion(0, ts, u1 as u8));
        assert(pb2 == xor_expansion(0, ts, u2 as u8));
        lemma_expansion_cancel(0, ts, ts.len() as int, u1 as u8, u2 as u8);
    } else {
        assert(pb1 =~= Seq::<crate::phase_poly::PackedPhaseTerm>::empty());
        assert(pb2 =~= Seq::<crate::phase_poly::PackedPhaseTerm>::empty());
    }
    assert forall|x: u128| #[trigger] c.phase_poly.coeff(x) == a.phase_poly.coeff(x) by {
        if x != 0 {
            lemma_phase_of_range(a.phase_poly.terms@, x);
            let p = a.phase_poly.coeff(x);
            let b1 = crate::phase_poly::batch_sum(pb1, x);
            let b2 = crate::phase_poly::batch_sum(pb2, x);
            if x0 != 0 && u1 != 0 {
                lemma_cancelling_sum(pb1, pb2, x);
            } else {
                assert(b1 == 0 && b2 == 0);
            }
            assert(b.phase_poly.coeff(x) == (p + b1) % 8);
            assert(((p + b1) % 8 + b2) % 8 == p) by (nonlinear_arith)
                requires 0 <= p < 8, (b1 + b2) % 8 == 0;
        }
    }
}

/// The arithmetic of two rotations against their sum, on an angle below
/// π/2: the angles agree and the promoted quarter turns agree modulo a
/// whole turn.
proof fn lemma_rz_compose_arith(a: int, e1: int, e2: int, e3: int)
    requires
        0 <= a < TICKS_PER_PI_2,
        0 <= e1 < TICKS_PER_TURN,
        0 <= e2 < TICKS_PER_TURN,
        0 <= e3 < TICKS_PER_TURN,
        (e1 + e2 - e3) % (TICKS_PER_TURN as int) == 0,
    ensures
        ({
            let s1 = (a + e1) % (TICKS_PER_TURN as int);
            let b = s1 % (TICKS_PER_PI_2 as int);
            let s2 = (b + e2) % (TICKS_PER_TURN as int);
            let s3 = (a + e3) % (TICKS_PER_TURN as int);
            &&& s2 % (TICKS_PER_PI_2 as int) == s3 % (TICKS_PER_PI_2 as int)
            &&& (s1 / (TICKS_PER_PI_2 as int) + s2 / (TICKS_PER_PI_2 as int) - s3 / (TICKS_PER_PI_2 as int)) % 4 == 0
            &&& 0 <= s1 / (TICKS_PER_PI_2 as int) < 4
            &&& 0 <= s2 / (TICKS_PER_PI_2 as int) < 4
            &&& 0 <= s3 / (TICKS_PER_PI_2 as int) < 4
        }),
{
    let t = TICKS_PER_TURN as int;
    let h = TICKS_PER_PI_2 as int;
    assert(t == 4 * h);
    assert(e1 + e2 - e3 == 0 || e1 + e2 - e3 == t);
    let s1 = (a + e1) % t;
    let b = s1 % h;
    let s2 = (b + e2) % t;
    let s3 = (a + e3) % t;
    assert(s1 == a + e1 || s1 == a + e1 - t);
    assert(0 <= s1 < t);
    assert(s1 == h * (s1 / h) + b && 0 <= b < h);
    assert(s2 == b + e2 || s2 == b + e2 - t);
    assert(0 <= s2 < t);
    assert(s3 == a + e3 || s3 == a + e3 - t);
    assert(0 <= s3 < t);
    assert(s2 == h * (s2 / h) + s2 % h && 0 <= s2 % h < h);
    assert(s3 == h * (s3 / h) + s3 % h && 0 <= s3 % h < h);
    assert(s2 % h == s3 % h && (s1 / h + s2 / h - s3 / h) % 4 == 0) by (nonlinear_arith)
        requires
            t == 4 * h, h > 0,
            0 <= a < h, 0 <= b < h, 0 <= s2 % h < h, 0 <= s3 % h < h,
            e1 + e2 - e3 == 0 || e1 + e2 - e3 == t,
            s1 == a + e1 || s1 == a + e1 - t,
            s1 == h * (s1 / h) + b,
            s2 == b + e2 || s2 == b + e2 - t,
            s2 == h * (s2 / h) + s2 % h,
            s3 == a + e3 || s3 == a + e3 - t,
            s3 == h * (s3 / h) + s3 % h,
            0 <= s1 / h < 4, 0 <= s2 / h < 4, 0 <= s3 / h < 4;
}

/// Two tick amounts and their sum, as they land on a row.
proof fn lemma_affine_sum(row: BooleanPoly, t1: u32, t2: u32, t3: u32)
    requires
        t3 as int == ((t1 as int) + (t2 as int)) % (TICKS_PER_TURN as int),
    ensures
        (affine_ticks(&row, t1) + affine_ticks(&row, t2) - affine_ticks(&row, t3)) % (TICKS_PER_TURN as int) == 0,
        0 <= affine_ticks(&row, t1) < TICKS_PER_TURN,
        0 <= affine_ticks(&row, t2) < TICKS_PER_TURN,
        0 <= affine_ticks(&row, t3) < TICKS_PER_TURN,
{
    let t = TICKS_PER_TURN as int;
    let e1 = affine_ticks(&row, t1);
    let e2 = affine_ticks(&row, t2);
    let e3 = affine_ticks(&row, t3);
    assert((e1 + e2 - e3) % t == 0 && 0 <= e1 < t && 0 <= e2 < t && 0 <= e3 < t) by (nonlinear_arith)
        requires
            t == 536870912,
            t3 as int == ((t1 as int) + (t2 as int)) % t,
            e1 == (if row.terms@.len() > 0 && row.terms@[0] == 0 { (t - (t1 as int) % t) % t } else { (t1 as int) % t }),
            e2 == (if row.terms@.len() > 0 && row.terms@[0] == 0 { (t - (t2 as int) % t) % t } else { (t2 as int) % t }),
            e3 == (if row.terms@.len() > 0 && row.terms@[0] == 0 { (t - (t3 as int) % t) % t } else { (t3 as int) % t });
}

/// Quarter turns that agree modulo a whole turn give even units that agree
/// modulo 8.
proof fn lemma_quarters(q1: int, q2: int, q3: int)
    requires
        0 <= q1 < 4,
        0 <= q2 < 4,
        0 <= q3 < 4,
        (q1 + q2 - q3) % 4 == 0,
    ensures
        2 * q3 == (2 * q1 + 2 * q2) % 8,
{
}

/// The promoted units of [`rz_composes`] on the row's parity.
proof fn lemma_rz_compose_units(a: EvaluatedPathSum, b: EvaluatedPathSum, q: int, t1: u32, t2: u32, t3: u32)
    requires
        a.wf(),
        0 <= q < a.num_qubits,
        t3 as int == ((t1 as int) + (t2 as int)) % (TICKS_PER_TURN as int),
        forall|x: u128| #[trigger] a.continuous_poly.angle(x) < TICKS_PER_PI_2,
        rz_added(a, q, t1, b),
    ensures
        ({
            let x0 = a.out_state@[q].variable_mask;
            let u1 = 2 * (rz_total(a, q, t1, x0) / (TICKS_PER_PI_2 as int));
            let u2 = 2 * (rz_total(b, q, t2, x0) / (TICKS_PER_PI_2 as int));
            let u3 = 2 * (rz_total(a, q, t3, x0) / (TICKS_PER_PI_2 as int));
            &&& 0 <= u1 < 8 && 0 <= u2 < 8 && 0 <= u3 < 8
            &&& u3 == (u1 + u2) % 8
        }),
{
    let t = TICKS_PER_TURN as int;
    let h = TICKS_PER_PI_2 as int;
    let row = a.out_state@[q];
    let x0 = row.variable_mask;
    let e1 = affine_ticks(&row, t1);
    let e2 = affine_ticks(&row, t2);
    let e3 = affine_ticks(&row, t3);
    assert(b.out_state@[q] == row);
    lemma_affine_sum(row, t1, t2, t3);
    let a0 = a.continuous_poly.angle(x0);
    assert(0 <= a0 < h);
    if row.terms@.len() > 0 && x0 != 0 {
        lemma_rz_compose_arith(a0, e1, e2, e3);
        let s1 = (a0 + e1) % t;
        let s2 = (s1 % h + e2) % t;
        let s3 = (a0 + e3) % t;
        assert(rz_total(a, q, t1, x0) == s1);
        assert(b.continuous_poly.angle(x0) == rz_total(a, q, t1, x0) % h);
        assert(rz_total(b, q, t2, x0) == s2);
        assert(rz_total(a, q, t3, x0) == s3);
        lemma_quarters(s1 / h, s2 / h, s3 / h);
    } else {
        assert(rz_total(a, q, t1, x0) == a0);
        assert(b.continuous_poly.angle(x0) == rz_total(a, q, t1, x0) % h);
        assert(rz_total(b, q, t2, x0) == b.continuous_poly.angle(x0));
        assert(rz_total(a, q, t3, x0) == a0);
    }
}

/// The continuous half of [`rz_composes`].
proof fn lemma_rz_compose_angles(a: EvaluatedPathSum, b: EvaluatedPathSum, c: EvaluatedPathSum, d: EvaluatedPathSum,
    q: int, t1: u32, t2: u32, t3: u32)
    requires
        a.wf(),
        0 <= q < a.num_qubits,
        t3 as int == ((t1 as int) + (t2 as int)) % (TICKS_PER_TURN as int),
        forall|x: u128| #[trigger] a.continuous_poly.angle(x) < TICKS_PER_PI_2,
        rz_added(a, q, t1, b),
        rz_added(b, q, t2, c),
        rz_added(a, q, t3, d),
    ensures
        forall|x: u128| #[trigger] c.continuous_poly.angle(x) == d.continuous_poly.angle(x),
        forall|x: u128| #[trigger] b.continuous_poly.angle(x) < TICKS_PER_PI_2,
{
    let t = TICKS_PER_TURN as int;
    let h = TICKS_PER_PI_2 as int;
    let row = a.out_state@[q];
    let x0 = row.variable_mask;
    let e1 = affine_ticks(&row, t1);
    let e2 = affine_ticks(&row, t2);
    let e3 = affine_ticks(&row, t3);
    assert(b.out_state@[q] == row);
    lemma_affine_sum(row, t1, t2, t3);
    let active = row.terms@.len() > 0 && x0 != 0;
    let a0 = a.continuous_poly.angle(x0);
    assert(0 <= a0 < h);
    if active {
        lemma_rz_compose_arith(a0, e1, e2, e3);
    }
    assert forall|x: u128| #[trigger] b.continuous_poly.angle(x) < h by {
        assert(b.continuous_poly.angle(x) == rz_total(a, q, t1, x) % h);
    }
    assert forall|x: u128| #[trigger] c.continuous_poly.angle(x) == d.continuous_poly.angle(x) by {
        assert(c.continuous_poly.angle(x) == rz_total(b, q, t2, x) % h);
        assert(b.continuous_poly.angle(x) == rz_total(a, q, t1, x) % h);
        assert(d.continuous_poly.angle(x) == rz_total(a, q, t3, x) % h);
        if !(active && x == x0) {
            assert(0 <= a.continuous_poly.angle(x) < h);
        }
    }
}

/// `RZ` by `t1` and then by `t2` on the same qubit acts as one `RZ` by
/// `t1 + t2` (so `RZ(θ)` then `T` is `RZ(θ + π/4)`) on a path sum whose
/// angles are below π/2, as they are once promoted: the continuous angles
/// and the phase coefficients agree, and so do rows and frame.
pub proof fn rz_composes(a: EvaluatedPathSum, b: EvaluatedPathSum, c: EvaluatedPathSum, d: EvaluatedPathSum,
    q: int, t1: u32, t2: u32, t3: u32)
    requires
        a.wf(),
        0 <= q < a.num_qubits,
        t3 as int == ((t1 as int) + (t2 as int)) % (TICKS_PER_TURN as int),
        forall|x: u128| #[trigger] a.continuous_poly.angle(x) < TICKS_PER_PI_2,
        rz_added(a, q, t1, b),
        rz_added(b, q, t2, c),
        rz_added(a, q, t3, d),
    ensures
        forall|x: u128| #[trigger] c.continuous_poly.angle(x) == d.continuous_poly.angle(x),
        forall|x: u128| #[trigger] c.phase_poly.coeff(x) == d.phase_poly.coeff(x),
        c.out_state == d.out_state,
        c.same_frame(&d),
{
    let h = TICKS_PER_PI_2 as int;
    lemma_rz_compose_angles(a, b, c, d, q, t1, t2, t3);
    lemma_rz_compose_units(a, b, q, t1, t2, t3);
    let x0 = a.out_state@[q].variable_mask;
    let ext1 = choose|ext: Seq<(u128, u8)>| #![trigger cliffords_after_rz(a, q, t1, ext)]
        cliffords_after_rz(a, q, t1, ext)
        && forall|x: u128| #[trigger] b.phase_poly.coeff(x) == if x != 0 {
            (a.phase_poly.coeff(x) + crate::phase_poly::batch_sum(promotion_batch(ext), x)) % 8
        } else {
            a.phase_poly.coeff(x)
        };
    let ext2 = choose|ext: Seq<(u128, u8)>| #![trigger cliffords_after_rz(b, q, t2, ext)]
        cliffords_after_rz(b, q, t2, ext)
        && forall|x: u128| #[trigger] c.phase_poly.coeff(x) == if x != 0 {
            (b.phase_poly.coeff(x) + crate::phase_poly::batch_sum(promotion_batch(ext), x)) % 8
        } else {
            b.phase_poly.coeff(x)
        };
    let ext3 = choose|ext: Seq<(u128, u8)>| #![trigger cliffords_after_rz(a, q, t3, ext)]
        cliffords_after_rz(a, q, t3, ext)
        && forall|x: u128| #[trigger] d.phase_poly.coeff(x) == if x != 0 {
            (a.phase_poly.coeff(x) + crate::phase_poly::batch_sum(promotion_batch(ext), x)) % 8
        } else {
            a.phase_poly.coeff(x)
        };
    assert(b.out_state@[q].variable_mask == x0);
    lemma_single_promotion(a, q, t1, ext1);
    lemma_single_promotion(b, q, t2, ext2);
    lemma_single_promotion(a, q, t3, ext3);
    let u1 = 2 * (rz_total(a, q, t1, x0) / h);
    let u2 = 2 * (rz_total(b, q, t2, x0) / h);
    let u3 = 2 * (rz_total(a, q, t3, x0) / h);
    let ts = mask_bit_seq(x0, 128);
    let pb1 = promotion_batch(ext1);
    let pb2 = promotion_batch(ext2);
    let pb3 = promotion_batch(ext3);
    if x0 != 0 {
        assert(pb1 == xor_expansion(0, ts, u1 as u8)) by {
            if u1 != 0 { lemma_promotion_single(x0, u1 as u8); } else {
                assert(pb1 =~= Seq::<crate::phase_poly::PackedPhaseTerm>::empty());
                assert(xor_expansion(0, ts, u1 as u8) =~= Seq::<crate::phase_poly::PackedPhaseTerm>::empty());
            }
        }
        assert(pb2 == xor_expansion(0, ts, u2 as u8)) by {
            if u2 != 0 { lemma_promotion_single(x0, u2 as u8); } else {
                assert(pb2 =~= Seq::<crate::phase_poly::PackedPhaseTerm>::empty());
                assert(xor_expansion(0, ts, u2 as u8) =~= Seq::<crate::phase_poly::PackedPhaseTerm>::empty());
            }
        }
        assert(pb3 == xor_expansion(0, ts, u3 as u8)) by {
            if u3 != 0 { lemma_promotion_single(x0, u3 as u8); } else {
                assert(pb3 =~= Seq::<crate::phase_poly::PackedPhaseTerm>::empty());
                assert(xor_expansion(0, ts, u3 as u8) =~= Seq::<crate::phase_poly::PackedPhaseTerm>::empty());
            }
        }
    } else {
        assert(pb1 =~= Seq::<crate::phase_poly::PackedPhaseTerm>::empty());
        assert(pb2 =~= Seq::<crate::phase_poly::PackedPhaseTerm>::empty());
        assert(pb3 =~= Seq::<crate::phase_poly::PackedPhaseTerm>::empty());
    }
    assert forall|x: u128| #[trigger] c.phase_poly.coeff(x) == d.phase_poly.coeff(x) by {
        if x != 0 {
            lemma_phase_of_range(a.phase_poly.terms@, x);
            let p = a.phase_poly.coeff(x);
            let b1 = crate::phase_poly::batch_sum(pb1, x);
            let b2 = crate::phase_poly::batch_sum(pb2, x);
            let b3 = crate::phase_poly::batch_sum(pb3, x);
            if x0 != 0 {
                lemma_expansion_add(0, ts, u1 as u8, u2 as u8, x);
                assert(((u1 as u8) as int + (u2 as u8) as int) % 8 == u3);
            } else {
                assert(b1 == 0 && b2 == 0 && b3 == 0);
            }
            assert((b1 + b2) % 8 == b3 % 8);
            assert(b.phase_poly.coeff(x) == (p + b1) % 8);
            assert(((p + b1) % 8 + b2) % 8 == (p + b3) % 8) by (nonlinear_arith)
                requires 0 <= p < 8, (b1 + b2) % 8 == b3 % 8;
        }
    }
}

} // verus!
