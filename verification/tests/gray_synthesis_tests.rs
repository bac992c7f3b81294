//! GraySynth, Steiner and PMH resynthesis of path sums, replayed through the
//! engine.
//!
//! The floating-point half (lifting monomials to parities, merging and
//! normalising angles) is written out here as the host does it; the verified
//! halves are `synthesize_gray_with_terms` and `synthesize_steiner_with_terms`.

use std::collections::{BTreeMap, HashMap};
use std::f64::consts::{PI, TAU};

use phase_engine::boolean_poly::BooleanPoly;
use phase_engine::evaluator::EvaluatedPathSum;
use phase_engine::pathsum::{
    apply_cx_logic_64, apply_gate_logic_64, apply_rz_logic_64, id_pathsum_logic_128,
    id_pathsum_logic_64, state_fingerprint_logic_64, synthesize_gray_with_terms,
    synthesize_pmh_logic_64, synthesize_steiner_with_terms, Gate,
};

const TICKS_PER_TURN: u64 = 1 << 29;

fn angle_to_ticks(theta: f64) -> u32 {
    let t = (theta / TAU * TICKS_PER_TURN as f64).round();
    if !t.is_finite() {
        return 0;
    }
    (t as i64).rem_euclid(TICKS_PER_TURN as i64) as u32
}

fn ticks_to_angle(ticks: u32) -> f64 {
    ticks as f64 * (TAU / TICKS_PER_TURN as f64)
}

fn bits(theta: f64) -> i64 {
    let snapped = (theta * 100_000_000.0).round() / 100_000_000.0;
    snapped.to_bits() as i64
}

fn rz(ps: EvaluatedPathSum, q: i64, bits: i64) -> EvaluatedPathSum {
    apply_rz_logic_64(ps, q, angle_to_ticks(f64::from_bits(bits as u64)))
}

fn phase_monomials_to_parities(monomials: &[(u128, f64)]) -> Option<Vec<(u128, f64)>> {
    let mut coeff: HashMap<u128, f64> = HashMap::new();
    for &(m, c) in monomials {
        if m != 0 {
            *coeff.entry(m).or_insert(0.0) += c;
        }
    }
    let mut parities: Vec<(u128, f64)> = Vec::new();
    const EPS: f64 = 1e-9;
    loop {
        let top = coeff
            .iter()
            .filter(|&(_, &c)| c.abs() > EPS)
            .max_by_key(|&(&m, _)| (m.count_ones(), m));
        let (&m, &c) = match top {
            Some(t) => t,
            None => break,
        };
        let k = m.count_ones();
        if k == 1 {
            parities.push((m, c));
            coeff.remove(&m);
            continue;
        }
        if k > 16 {
            return None;
        }
        let theta = c / (-2.0f64).powi(k as i32 - 1);
        parities.push((m, theta));
        let mut s = m;
        loop {
            let sk = s.count_ones();
            let contrib = theta * (-2.0f64).powi(sk as i32 - 1);
            let e = coeff.entry(s).or_insert(0.0);
            *e -= contrib;
            if e.abs() < EPS {
                coeff.remove(&s);
            }
            if s == 0 || (s - 1) & m == 0 {
                break;
            }
            s = (s - 1) & m;
        }
    }
    Some(parities)
}

fn gray_merge_terms(parities: &[(u128, f64)]) -> Vec<(u128, u64)> {
    let mut merged: HashMap<u128, f64> = HashMap::new();
    for &(mask, angle) in parities {
        if mask == 0 {
            continue;
        }
        *merged.entry(mask).or_insert(0.0) += angle;
    }
    let mut out: Vec<(u128, f64)> = merged
        .into_iter()
        .filter_map(|(m, a)| {
            let mut a = a % TAU;
            if a < 0.0 {
                a += TAU;
            }
            if a.abs() < 1e-12 || (TAU - a).abs() < 1e-12 {
                None
            } else {
                Some((m, a))
            }
        })
        .collect();
    out.sort_by_key(|&(m, _)| m);
    out.into_iter().map(|(m, a)| (m, a.to_bits())).collect()
}

fn gray_64(state: EvaluatedPathSum, gate_count: i64, hw_cost: i64, cnot_weight: i64, rz_weight: i64) -> String {
    let mut parities: Vec<(u128, f64)> = Vec::new();
    for (i, &mask) in state.continuous_poly.parities.iter().enumerate() {
        parities.push((mask, ticks_to_angle(state.continuous_poly.phases[i])));
    }
    let mut monomials: Vec<(u128, f64)> = Vec::new();
    for term in &state.phase_poly.terms {
        monomials.push((term.mono, (term.ph as f64) * PI / 4.0));
    }
    let disc = match phase_monomials_to_parities(&monomials) {
        Some(d) => d,
        None => return "None".to_string(),
    };
    parities.extend(disc);
    let terms = gray_merge_terms(&parities);
    synthesize_gray_with_terms(&state, gate_count, terms, hw_cost, cnot_weight, rz_weight)
}

fn normalized_rz_bits(angle: f64) -> Option<u64> {
    let mut a = angle % TAU;
    if a < 0.0 {
        a += TAU;
    }
    if a.abs() < 1e-12 || (TAU - a).abs() < 1e-12 {
        None
    } else {
        Some(a.to_bits())
    }
}

fn steiner_terms(state: &EvaluatedPathSum) -> Option<Vec<(u128, i64)>> {
    let mut monomials: Vec<(u128, f64)> = Vec::new();
    for term in &state.phase_poly.terms {
        monomials.push((term.mono, (term.ph as f64) * PI / 4.0));
    }
    let mut parities = phase_monomials_to_parities(&monomials)?;
    for (i, &mask) in state.continuous_poly.parities.iter().enumerate() {
        parities.push((mask, ticks_to_angle(state.continuous_poly.phases[i])));
    }
    let mut merged: BTreeMap<u128, f64> = BTreeMap::new();
    for (mask, angle) in parities {
        if mask != 0 {
            *merged.entry(mask).or_insert(0.0) += angle;
        }
    }
    let mut terms: Vec<(u128, i64)> = Vec::new();
    for (mask, angle) in merged {
        if let Some(rz_bits) = normalized_rz_bits(angle) {
            terms.push((mask, rz_bits as i64));
        }
    }
    Some(terms)
}

fn steiner_64(state: EvaluatedPathSum, gate_count: i64, hw_cost: i64, topology: &str, cnot_weight: i64, rz_weight: i64) -> String {
    assert!(state.num_qubits < state.width);
    let terms = match steiner_terms(&state) {
        Some(t) => t,
        None => return "None".to_string(),
    };
    synthesize_steiner_with_terms(&state, gate_count, hw_cost, topology, &terms, cnot_weight, rz_weight)
}

fn replay(instructions: &str, n: i64) -> EvaluatedPathSum {
    let mut ps = id_pathsum_logic_64(n);
    for instr in instructions.split(';') {
        let instr = instr.trim();
        if instr.is_empty() {
            continue;
        }
        let (gate, args) = instr.split_once(' ').expect("gate args");
        let parts: Vec<i64> = args.split(',').map(|v| v.trim().parse::<i64>().unwrap()).collect();
        ps = match gate {
            "cx" => apply_cx_logic_64(ps, parts[0], parts[1]),
            "rz" => rz(ps, parts[0], parts[1]),
            "x" => apply_gate_logic_64(ps, parts[0], Gate::X),
            other => panic!("unexpected gate from gray synthesis: {other}"),
        };
    }
    ps
}

fn build(gates: &[(&str, i64, i64)], n: i64) -> EvaluatedPathSum {
    let mut ps = id_pathsum_logic_64(n);
    for &(g, a, b) in gates {
        ps = match g {
            "cx" => apply_cx_logic_64(ps, a, b),
            "rz" => rz(ps, a, b),
            "t" => apply_gate_logic_64(ps, a, Gate::T),
            "s" => apply_gate_logic_64(ps, a, Gate::S),
            "z" => apply_gate_logic_64(ps, a, Gate::Z),
            other => panic!("unexpected test gate {other}"),
        };
    }
    ps
}

fn assert_gray_equal(gates: &[(&str, i64, i64)], n: i64) -> String {
    let ps = build(gates, n);
    let orig = ps.clone();
    let fp_orig = state_fingerprint_logic_64(ps.clone());
    let out = gray_64(ps, 1_000, i64::MAX, 50, 1);
    assert_ne!(out, "None", "gray refused a synthesizable state");
    let replayed = if out == "empty" { id_pathsum_logic_64(n) } else { replay(&out, n) };
    assert_eq!(
        state_fingerprint_logic_64(replayed.clone()),
        fp_orig,
        "resynthesized circuit is not engine-equal (instructions: {out})"
    );
    assert_eq!(orig, replayed, "PathSum PartialEq failed; instructions: {out}");
    out
}

#[test]
fn continuous_parity_ladder_round_trips() {
    let g = [
        ("cx", 0, 1),
        ("cx", 1, 2),
        ("cx", 2, 3),
        ("rz", 3, bits(0.37)),
        ("cx", 2, 3),
        ("cx", 1, 2),
        ("cx", 0, 1),
    ];
    let out = assert_gray_equal(&g, 4);
    let cx_count = out.matches("cx").count();
    assert!(cx_count <= 6, "no CX saving over per-term trees: {out}");
}

#[test]
fn discrete_monomials_convert_and_round_trip() {
    let g = [("cx", 0, 1), ("t", 1, 0), ("cx", 0, 1), ("s", 0, 0), ("z", 2, 0)];
    assert_gray_equal(&g, 3);
}

#[test]
fn shared_prefixes_beat_per_term_trees() {
    let g = [
        ("cx", 0, 1),
        ("rz", 1, bits(0.25)),
        ("cx", 2, 1),
        ("rz", 1, bits(0.5)),
        ("cx", 3, 1),
        ("rz", 1, bits(1.25)),
    ];
    assert_gray_equal(&g, 4);
}

#[test]
fn pure_linear_block_round_trips() {
    let g = [("cx", 0, 1), ("cx", 1, 2), ("cx", 2, 0)];
    assert_gray_equal(&g, 3);
}

#[test]
fn rejects_states_with_path_variables() {
    let mut ps = id_pathsum_logic_64(2);
    ps = apply_gate_logic_64(ps, 0, Gate::H);
    ps = apply_cx_logic_64(ps, 0, 1);
    let out = gray_64(ps, 1_000, i64::MAX, 50, 1);
    assert_eq!(out, "None");
}

#[test]
fn cost_gate_rejects_expensive_synthesis() {
    let g = [("cx", 0, 1), ("rz", 1, bits(0.37)), ("cx", 0, 1)];
    let ps = build(&g, 2);
    let out = gray_64(ps, 1_000, 0, 50, 1);
    assert_eq!(out, "None");
}

#[test]
fn affine_x_offset_round_trips_gray() {
    let mut ps = id_pathsum_logic_64(2);
    ps = apply_cx_logic_64(ps, 0, 1);
    ps = apply_gate_logic_64(ps, 1, Gate::X);
    let orig = ps.clone();
    let fp_orig = state_fingerprint_logic_64(ps.clone());
    let out = gray_64(ps, 1_000, i64::MAX, 50, 1);
    assert_ne!(out, "None", "gray should accept affine/X offsets");
    assert!(out.contains("x 1"), "expected trailing X layer: {out}");
    let replayed = replay(&out, 2);
    assert_eq!(
        state_fingerprint_logic_64(replayed.clone()),
        fp_orig,
        "affine resynthesis not engine-equal (instructions: {out})"
    );
    assert_eq!(orig, replayed, "affine PathSum PartialEq failed (instructions: {out})");
}

fn assert_steiner_equal(gates: &[(&str, i64, i64)], n: i64) -> String {
    let ps = build(gates, n);
    let fp_orig = state_fingerprint_logic_64(ps.clone());
    let out = steiner_64(ps, 1_000, i64::MAX, "", 50, 1);
    assert_ne!(out, "None", "steiner refused a synthesizable state");
    let replayed = if out == "empty" { id_pathsum_logic_64(n) } else { replay(&out, n) };
    assert_eq!(
        state_fingerprint_logic_64(replayed),
        fp_orig,
        "steiner resynthesized circuit is not engine-equal (instructions: {out})"
    );
    out
}

fn assert_synth_sound_64(state: EvaluatedPathSum) {
    let n = state.num_qubits as i64;
    let gray = gray_64(state.clone(), 1_000, i64::MAX, 1, 1);
    let steiner = steiner_64(state.clone(), 1_000, i64::MAX, "", 1, 1);
    let pmh = synthesize_pmh_logic_64(state.clone(), 1_000);
    for (kind, out) in [("gray", gray), ("steiner", steiner), ("pmh", pmh)] {
        if out == "None" {
            continue;
        }
        let replayed = if out == "empty" { id_pathsum_logic_64(n) } else { replay(&out, n) };
        assert_eq!(state.clone(), replayed.clone(), "{kind} replay interned Eq failed (instructions: {out})");
        assert_eq!(
            state_fingerprint_logic_64(state.clone()),
            state_fingerprint_logic_64(replayed),
            "{kind} replay fingerprint failed (instructions: {out})"
        );
    }
}

#[test]
fn refuses_h_then_rz_path_var_continuous() {
    let mut ps = id_pathsum_logic_64(2);
    ps = apply_gate_logic_64(ps, 0, Gate::H);
    ps = rz(ps, 0, bits(0.37));
    assert_eq!(gray_64(ps.clone(), 1_000, i64::MAX, 50, 1), "None");
    assert_eq!(steiner_64(ps, 1_000, i64::MAX, "", 50, 1), "None");
}

#[test]
fn refuses_path_var_bits_on_continuous_parity_with_clean_out_state() {
    let mut state = id_pathsum_logic_64(2);
    state.num_path_vars = 1;
    let v = 1u128 << 2;
    state
        .continuous_poly
        .apply_ticks(&BooleanPoly::from_terms(vec![1u128 << 0, v]), angle_to_ticks(0.37));
    assert_eq!(gray_64(state.clone(), 1_000, i64::MAX, 50, 1), "None");
    assert_eq!(steiner_64(state.clone(), 1_000, i64::MAX, "", 50, 1), "None");

    let mut state128 = id_pathsum_logic_128(2);
    state128.num_path_vars = 1;
    state128
        .continuous_poly
        .apply_ticks(&BooleanPoly::from_terms(vec![1u128 << 0, v]), angle_to_ticks(0.37));
    assert_eq!(gray_64(state128.clone(), 1_000, i64::MAX, 50, 1), "None");
    assert_eq!(steiner_64(state128, 1_000, i64::MAX, "", 50, 1), "None");
}

#[test]
fn overflowed_state_refuses_synthesis() {
    let mut state = EvaluatedPathSum::new_id(64, 1);
    state.num_path_vars = 60;
    state.apply_h(0);
    assert!(state.is_overflowed());
    assert_eq!(gray_64(state.clone(), 1_000, i64::MAX, 50, 1), "None");
    assert_eq!(steiner_64(state.clone(), 1_000, i64::MAX, "", 50, 1), "None");
    assert_eq!(synthesize_pmh_logic_64(state, 1_000), "None");
}

#[test]
fn hfree_synth_is_sound() {
    let mut rng = 0xA11C_E555_0000_0006u64;
    let mut lcg = || {
        rng = rng.wrapping_mul(6364136223846793005).wrapping_add(1442695040888963407);
        rng
    };
    for n in [2i64, 3, 4] {
        for _ in 0..16 {
            let mut ps = id_pathsum_logic_64(n);
            for _ in 0..8 {
                let q = (lcg() % n as u64) as i64;
                match lcg() % 3 {
                    0 => ps = apply_gate_logic_64(ps, q, Gate::X),
                    1 if n > 1 => {
                        let mut t = (lcg() % n as u64) as i64;
                        if t == q {
                            t = (t + 1) % n;
                        }
                        ps = apply_cx_logic_64(ps, q, t);
                    }
                    _ => ps = rz(ps, q, bits(0.37 + (lcg() % 7) as f64 * 0.11)),
                }
            }
            assert_synth_sound_64(ps);
        }
    }
}

#[test]
fn steiner_discrete_monomials_mobius_round_trip() {
    let g = [("cx", 0, 1), ("t", 1, 0), ("cx", 0, 1), ("s", 0, 0), ("z", 2, 0)];
    assert_steiner_equal(&g, 3);
}

#[test]
fn steiner_agrees_with_gray_on_all_to_all() {
    let g = [("cx", 0, 1), ("t", 1, 0), ("cx", 0, 1), ("s", 0, 0), ("z", 2, 0)];
    let ps = build(&g, 3);
    let fp_orig = state_fingerprint_logic_64(ps.clone());
    let gray = gray_64(ps.clone(), 1_000, i64::MAX, 50, 1);
    let steiner = steiner_64(ps, 1_000, i64::MAX, "", 50, 1);
    assert_ne!(gray, "None");
    assert_ne!(steiner, "None");
    assert_eq!(state_fingerprint_logic_64(replay(&gray, 3)), fp_orig, "gray replay drifted");
    assert_eq!(
        state_fingerprint_logic_64(replay(&steiner, 3)),
        fp_orig,
        "steiner replay drifted (instructions: {steiner})"
    );
}

#[test]
fn fingerprint_matches_snapped_eq_not_raw_debug() {
    let tick = TAU / TICKS_PER_TURN as f64;
    let base = ticks_to_angle(31_615_000) + 0.3 * tick;

    let mut a = EvaluatedPathSum::new_id(64, 1);
    a.apply_rz_ticks(0, angle_to_ticks(base));
    assert!(
        !a.continuous_poly.phases.is_empty(),
        "the angle is not a π/4 multiple; it must stay in the continuous poly"
    );

    let mut b = EvaluatedPathSum::new_id(64, 1);
    b.apply_rz_ticks(0, angle_to_ticks(base + 0.15 * tick));
    assert_eq!(a, b, "perturbation inside the same lattice tick must be PartialEq");

    let fp_a = state_fingerprint_logic_64(a.clone());
    let fp_b = state_fingerprint_logic_64(b);
    assert_eq!(fp_a, fp_b, "tick-equal states must share the host fingerprint");
    assert!(fp_a.contains("num_qubits: 1"), "AGES still matches this Debug-shaped field; got {fp_a}");
    assert!(!fp_a.contains("phases: [0."), "fingerprint must emit lattice ticks, not raw f64 angles: {fp_a}");

    let mut c = EvaluatedPathSum::new_id(64, 1);
    c.apply_rz_ticks(0, angle_to_ticks(base + 0.4 * tick));
    assert_ne!(a, c, "crossing a lattice tick must change PartialEq");
    assert_ne!(
        state_fingerprint_logic_64(a),
        state_fingerprint_logic_64(c),
        "crossing a lattice tick must change the host fingerprint"
    );
}

#[test]
fn test_t_tdg_canonicalization() {
    let p1 = EvaluatedPathSum::new_id(64, 1);
    let mut p2 = EvaluatedPathSum::new_id(64, 1);
    println!("p1 initial: {:?}", p1);
    p2.apply_t(0);
    p2.reduce();
    println!("p2 after T: {:?}", p2);
    p2.apply_tdg(0);
    p2.reduce();
    println!("p2 after Tdg: {:?}", p2);
    assert_eq!(p1, p2, "p1: {:?}\np2: {:?}", p1, p2);
}

#[test]
fn test_debug_pathsum() {
    let mut state1 = EvaluatedPathSum::new_id(64, 2);
    state1.apply_cx(0, 1);
    state1.apply_rz_ticks(1, angle_to_ticks(PI / 4.0));
    state1.apply_cx(0, 1);
    println!("Circuit 1 (cx; rz; cx):");
    println!("  Continuous Parities: {:?}", state1.continuous_poly.parities);
    println!("  Continuous Phases: {:?}", state1.continuous_poly.phases);
    println!("  Phase Poly Terms: {:?}", state1.phase_poly.terms);
    println!("  Synthesized Steiner: {}", steiner_64(state1.clone(), 10, 0, "", 1, 1));
    println!("  Synthesized PMH: {}", synthesize_pmh_logic_64(state1.clone(), 10));

    let mut state2 = EvaluatedPathSum::new_id(64, 2);
    state2.apply_rz_ticks(0, angle_to_ticks(3.0 * PI / 4.0));
    state2.apply_rz_ticks(1, angle_to_ticks(3.0 * PI / 4.0));
    println!("Circuit 2 (rz 0; rz 1):");
    println!("  Continuous Parities: {:?}", state2.continuous_poly.parities);
    println!("  Continuous Phases: {:?}", state2.continuous_poly.phases);
    println!("  Phase Poly Terms: {:?}", state2.phase_poly.terms);
    println!("  Synthesized Steiner: {}", steiner_64(state2.clone(), 10, 0, "", 1, 1));
    println!("  Synthesized PMH: {}", synthesize_pmh_logic_64(state2.clone(), 10));
    println!("Are they equal? {}", state1 == state2);
    assert_ne!(state1, state2);
}

#[test]
fn debug_pathsum() {
    let mut state = EvaluatedPathSum::new_id(64, 2);
    state.apply_cx(0, 1);
    state.apply_rz_ticks(1, angle_to_ticks(PI / 4.0));
    state.apply_cx(0, 1);
    println!("Continuous Parities: {:?}", state.continuous_poly.parities);
    println!("Continuous Phases: {:?}", state.continuous_poly.phases);
    for term in &state.phase_poly.terms {
        println!("Phase Poly: mask={}, phase_unit={}", term.mono, term.ph);
    }
}

#[test]
fn steiner_blocks_follow_the_parity_shapes() {
    // A single-wire parity is its rotation alone; a two-wire parity on a
    // line folds, rotates and unfolds.
    let mut ps = id_pathsum_logic_64(2);
    ps = rz(ps, 0, bits(0.3));
    let out = steiner_64(ps.clone(), 1_000, i64::MAX, "0-1", 50, 1);
    assert!(out.starts_with("rz 0,") && !out.contains(';'), "{out}");
    assert_eq!(state_fingerprint_logic_64(replay(&out, 2)), state_fingerprint_logic_64(ps));
    let mut ps = id_pathsum_logic_64(2);
    ps = apply_cx_logic_64(ps, 0, 1);
    ps = rz(ps, 1, bits(0.3));
    ps = apply_cx_logic_64(ps, 0, 1);
    let out = steiner_64(ps.clone(), 1_000, i64::MAX, "0-1", 50, 1);
    let parts: Vec<&str> = out.split(';').collect();
    assert_eq!(parts.len(), 3, "{out}");
    assert_eq!(parts[0], parts[2]);
    assert!(parts[0].starts_with("cx "));
    assert!(parts[1].starts_with("rz 0,"));
    assert_eq!(state_fingerprint_logic_64(replay(&out, 2)), state_fingerprint_logic_64(ps));
}
