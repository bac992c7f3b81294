//! Self-inverse gates, cancelling phases and fingerprint keys on concrete path sums.

use phase_engine::evaluator::EvaluatedPathSum;
use phase_engine::pathsum::{
    apply_cx_logic_64, apply_gate_logic_64, apply_gate_no_reduce_logic_64, id_pathsum_logic_64,
    state_fingerprint_logic_64, Gate,
};

fn linear_state() -> EvaluatedPathSum {
    let mut s = id_pathsum_logic_64(3);
    s = apply_cx_logic_64(s, 0, 1);
    s = apply_gate_logic_64(s, 1, Gate::T);
    s = apply_cx_logic_64(s, 2, 0);
    s = apply_gate_no_reduce_logic_64(s, 2, Gate::X);
    s = apply_gate_logic_64(s, 0, Gate::S);
    s
}

#[test]
fn x_twice_restores_a_linear_state() {
    let s = linear_state();
    for q in 0..3 {
        let r1 = apply_gate_no_reduce_logic_64(s.clone(), q, Gate::X);
        assert_ne!(state_fingerprint_logic_64(r1.clone()), state_fingerprint_logic_64(s.clone()));
        let r2 = apply_gate_no_reduce_logic_64(r1, q, Gate::X);
        assert_eq!(state_fingerprint_logic_64(r2), state_fingerprint_logic_64(s.clone()));
    }
}

#[test]
fn cx_twice_restores_a_linear_state() {
    let s = linear_state();
    for (qc, qt) in [(0, 1), (1, 0), (2, 1), (0, 2)] {
        let r1 = apply_cx_logic_64(s.clone(), qc, qt);
        let r2 = apply_cx_logic_64(r1, qc, qt);
        assert_eq!(state_fingerprint_logic_64(r2), state_fingerprint_logic_64(s.clone()));
    }
}

#[test]
fn cancelling_phase_units_restore_the_phases() {
    let s = linear_state();
    let before = state_fingerprint_logic_64(s.clone());
    let mut a = s.clone();
    a.apply_t(1);
    assert_ne!(state_fingerprint_logic_64(a.clone()), before);
    a.apply_tdg(1);
    assert_eq!(state_fingerprint_logic_64(a), before);
    let mut b = s.clone();
    b.apply_s(0);
    b.apply_sdg(0);
    assert_eq!(state_fingerprint_logic_64(b), before);
    let mut c = s.clone();
    c.apply_z(2);
    c.apply_z(2);
    assert_eq!(state_fingerprint_logic_64(c), before);
    let mut d = s.clone();
    d.apply_phase_units(0, 3);
    d.apply_phase_units(0, 5);
    assert_eq!(state_fingerprint_logic_64(d), before);
}

#[test]
fn fingerprints_agree_exactly_on_equal_fields() {
    let a = linear_state();
    let b = linear_state();
    assert_eq!(state_fingerprint_logic_64(a.clone()), state_fingerprint_logic_64(b));
    let mut c = a.clone();
    c.overflow_id = 7;
    assert_ne!(state_fingerprint_logic_64(c), state_fingerprint_logic_64(a.clone()));
    let d = apply_gate_logic_64(a.clone(), 0, Gate::T);
    assert_ne!(state_fingerprint_logic_64(d), state_fingerprint_logic_64(a));
}

#[test]
fn t_then_tdg_restores_the_phases() {
    let mut start = EvaluatedPathSum::new_id(64, 2);
    start.apply_cx(0, 1);
    for _ in 0..3 {
        start.apply_t(1);
    }
    start.apply_x(1);
    let mut s = start.clone();
    s.apply_t(1);
    s.apply_tdg(1);
    assert_eq!(s, start);
    let mut fresh = EvaluatedPathSum::new_id(64, 2);
    let before = fresh.clone();
    fresh.apply_t(0);
    fresh.apply_tdg(0);
    assert_eq!(fresh, before);
}

#[test]
fn rz_then_t_is_one_rotation() {
    let mut start = EvaluatedPathSum::new_id(64, 3);
    start.apply_cx(0, 2);
    start.apply_t(2);
    start.apply_x(2);
    let theta: u32 = 123_456_789;
    let quarter: u32 = 67_108_864;
    let mut two = start.clone();
    two.apply_rz_ticks(2, theta);
    two.apply_t(2);
    let mut one = start.clone();
    one.apply_rz_ticks(2, theta + quarter);
    assert_eq!(two, one);
    let mut wrap = start.clone();
    wrap.apply_rz_ticks(2, 500_000_000);
    wrap.apply_rz_ticks(2, 100_000_000);
    let mut single = start.clone();
    single.apply_rz_ticks(2, (500_000_000 + 100_000_000) % 536_870_912);
    assert_eq!(wrap, single);
}
