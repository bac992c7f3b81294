//! Gate wrappers, fingerprints and CX-block resynthesis on path sums.

use phase_engine::boolean_poly::BooleanPoly;
use phase_engine::evaluator::EvaluatedPathSum;
use phase_engine::gf2::{apply_cnots_to_identity, synthesize_cnot_matrix};
use phase_engine::pathsum::{
    apply_cx_logic_128, apply_cx_logic_64, apply_gate_logic_128, apply_gate_logic_64,
    apply_gate_no_reduce_logic_64, apply_rz_logic_64, fingerprint_ops_logic_64,
    id_pathsum_logic_128, id_pathsum_logic_64, state_fingerprint_logic_128,
    state_fingerprint_logic_64, synthesize_pmh_logic_128, synthesize_pmh_logic_64,
    FingerprintOp, Gate,
};

const TICKS_PER_TURN: f64 = (1u64 << 29) as f64;

/// Round an angle in radians onto the tick lattice (mod 2π).
fn angle_to_ticks(theta: f64) -> u32 {
    let t = (theta / std::f64::consts::TAU * TICKS_PER_TURN).round();
    if !t.is_finite() {
        return 0;
    }
    (t as i64).rem_euclid(1i64 << 29) as u32
}

fn ticks_of_bits(bits: i64) -> u32 {
    angle_to_ticks(f64::from_bits(bits as u64))
}

fn rz_ticks(ops: &[FingerprintOp]) -> Vec<u32> {
    ops.iter()
        .map(|op| match *op {
            FingerprintOp::RzBits(_, bits) => ticks_of_bits(bits),
            _ => 0,
        })
        .collect()
}

fn fingerprint_ops(n: i64, ops: &[FingerprintOp]) -> Option<String> {
    fingerprint_ops_logic_64(n, ops, &rz_ticks(ops))
}

#[test]
fn cx_and_x_wrappers_keep_the_gauge_canonical() {
    // H0 H1 CX01 == CX10 H0 H1
    let mut a = id_pathsum_logic_64(2);
    a = apply_gate_logic_64(a, 0, Gate::H);
    a = apply_gate_logic_64(a, 1, Gate::H);
    a = apply_cx_logic_64(a, 0, 1);
    let mut b = id_pathsum_logic_64(2);
    b = apply_cx_logic_64(b, 1, 0);
    b = apply_gate_logic_64(b, 0, Gate::H);
    b = apply_gate_logic_64(b, 1, Gate::H);
    assert_eq!(a, b, "CX-terminated state must be canonical");
    assert_eq!(
        state_fingerprint_logic_64(a.clone()),
        state_fingerprint_logic_64(b.clone())
    );

    // H0 X0 == Z0 H0
    let mut c = id_pathsum_logic_64(1);
    c = apply_gate_logic_64(c, 0, Gate::H);
    c = apply_gate_no_reduce_logic_64(c, 0, Gate::X);
    let mut d = id_pathsum_logic_64(1);
    d = apply_gate_logic_64(d, 0, Gate::Z);
    d = apply_gate_logic_64(d, 0, Gate::H);
    assert_eq!(c, d, "X-terminated state must be canonical");

    let mut a = id_pathsum_logic_128(2);
    a = apply_gate_logic_128(a, 0, Gate::H);
    a = apply_gate_logic_128(a, 1, Gate::H);
    a = apply_cx_logic_128(a, 0, 1);
    let mut b = id_pathsum_logic_128(2);
    b = apply_cx_logic_128(b, 1, 0);
    b = apply_gate_logic_128(b, 0, Gate::H);
    b = apply_gate_logic_128(b, 1, Gate::H);
    assert_eq!(a, b);

    // Negative control: H0 H1 CX10 is a different operator.
    let mut e = id_pathsum_logic_64(2);
    e = apply_gate_logic_64(e, 0, Gate::H);
    e = apply_gate_logic_64(e, 1, Gate::H);
    e = apply_cx_logic_64(e, 1, 0);
    assert_ne!(e, c);
    assert_ne!(state_fingerprint_logic_64(e), state_fingerprint_logic_64(d));
}

fn fold_ops_64(n: i64, ops: &[FingerprintOp]) -> EvaluatedPathSum {
    let mut ps = id_pathsum_logic_64(n);
    for op in ops {
        ps = match *op {
            FingerprintOp::X(q) => apply_gate_logic_64(ps, q, Gate::X),
            FingerprintOp::Z(q) => apply_gate_logic_64(ps, q, Gate::Z),
            FingerprintOp::S(q) => apply_gate_logic_64(ps, q, Gate::S),
            FingerprintOp::Sdg(q) => apply_gate_logic_64(ps, q, Gate::Sdg),
            FingerprintOp::T(q) => apply_gate_logic_64(ps, q, Gate::T),
            FingerprintOp::Tdg(q) => apply_gate_logic_64(ps, q, Gate::Tdg),
            FingerprintOp::H(q) => apply_gate_logic_64(ps, q, Gate::H),
            FingerprintOp::Sx(q) => apply_gate_logic_64(ps, q, Gate::Sx),
            FingerprintOp::RzBits(q, bits) => apply_rz_logic_64(ps, q, ticks_of_bits(bits)),
            FingerprintOp::Cx(c, t) => apply_cx_logic_64(ps, c, t),
        };
    }
    ps
}

#[test]
fn fingerprint_ops_matches_ffi_eq_fingerprint() {
    let bits = |theta: f64| theta.to_bits() as i64;
    let h01 = [FingerprintOp::H(0), FingerprintOp::H(1)];
    let h10 = [FingerprintOp::H(1), FingerprintOp::H(0)];
    let nam_h = [FingerprintOp::H(0)];
    let ibm_h = [
        FingerprintOp::RzBits(0, bits(std::f64::consts::FRAC_PI_2)),
        FingerprintOp::Sx(0),
        FingerprintOp::RzBits(0, bits(std::f64::consts::FRAC_PI_2)),
    ];
    for (n, ops) in [
        (2i64, h01.as_slice()),
        (2, h10.as_slice()),
        (1, nam_h.as_slice()),
        (1, ibm_h.as_slice()),
    ] {
        let folded = fold_ops_64(n, ops);
        let via_ops = fingerprint_ops(n, ops).expect("supported ops");
        assert_eq!(
            via_ops,
            state_fingerprint_logic_64(folded),
            "fingerprint_ops must match the folded fingerprint for {ops:?}"
        );
    }
    assert_eq!(
        fingerprint_ops(2, &h01),
        fingerprint_ops(2, &h10),
        "commuting H order must share a fingerprint"
    );
    assert_eq!(
        fingerprint_ops(1, &nam_h),
        fingerprint_ops(1, &ibm_h),
        "nam H and ibm RZ SX RZ must share a fingerprint"
    );
    assert_eq!(FingerprintOp::parse("ry", &[0]), None, "unsupported gates must refuse");
    assert_eq!(fingerprint_ops(1, &[]).unwrap().contains("num_qubits: 1"), true);
}

#[test]
fn fingerprint_ops_overflow_returns_string_not_none() {
    let mut ops = vec![FingerprintOp::H(0); 61];
    let mut state = EvaluatedPathSum::new_id(64, 1);
    state.num_path_vars = 60;
    state.apply_h(0);
    assert!(state.is_overflowed());
    let overflow_fp = state_fingerprint_logic_64(state);
    let id_fp = fingerprint_ops(1, &[]).unwrap();
    assert_ne!(overflow_fp, id_fp);
    assert!(fingerprint_ops(1, &ops).is_some());
    let _ = ops.pop();
}

fn overflow_id_in(fp: &str) -> u64 {
    let key = "overflow_id: ";
    let start = fp.find(key).unwrap_or_else(|| panic!("{fp}")) + key.len();
    let digits = fp[start..]
        .find(|c: char| !c.is_ascii_digit())
        .unwrap_or(fp.len() - start);
    fp[start..start + digits].parse().unwrap()
}

#[test]
fn fingerprint_ops_sixty_qubit_second_h_overflows() {
    let ops = [FingerprintOp::H(0), FingerprintOp::H(1)];
    let overflowed = fingerprint_ops(60, &ops).expect("supported ops");
    let again = fingerprint_ops(60, &ops).expect("supported ops");
    let well = fingerprint_ops(2, &ops).expect("supported ops");
    let identity = fingerprint_ops(60, &[]).expect("empty ops");
    assert_ne!(overflowed, well);
    assert_ne!(overflowed, identity);
    assert_ne!(overflowed, again, "overflow tokens must be unique across calls");
    assert_ne!(
        overflow_id_in(&overflowed),
        0,
        "overflow fingerprint must carry a nonzero token: {overflowed}"
    );
    assert_eq!(overflow_id_in(&well), 0, "below-cap H H must stay well-formed: {well}");
}

/// Replays `cx c,t`, `x q` and bare `c,t` instructions on a fresh identity.
fn replay_pmh_64(instructions: &str, n: i64) -> EvaluatedPathSum {
    if instructions == "empty" {
        return id_pathsum_logic_64(n);
    }
    let mut ps = id_pathsum_logic_64(n);
    for instr in instructions.split(';') {
        let instr = instr.trim();
        if instr.is_empty() {
            continue;
        }
        if let Some(args) = instr.strip_prefix("cx ") {
            let parts: Vec<i64> = args.split(',').map(|v| v.trim().parse().unwrap()).collect();
            ps = apply_cx_logic_64(ps, parts[0], parts[1]);
        } else if let Some(args) = instr.strip_prefix("x ") {
            let q: i64 = args.trim().parse().unwrap();
            ps = apply_gate_logic_64(ps, q, Gate::X);
        } else {
            let parts: Vec<i64> = instr.split(',').map(|v| v.trim().parse().unwrap()).collect();
            ps = apply_cx_logic_64(ps, parts[0], parts[1]);
        }
    }
    ps
}

fn replay_pmh_128(instructions: &str, n: i64) -> EvaluatedPathSum {
    if instructions == "empty" {
        return id_pathsum_logic_128(n);
    }
    let mut ps = id_pathsum_logic_128(n);
    for instr in instructions.split(';') {
        let instr = instr.trim();
        if instr.is_empty() {
            continue;
        }
        if let Some(args) = instr.strip_prefix("cx ") {
            let parts: Vec<i64> = args.split(',').map(|v| v.trim().parse().unwrap()).collect();
            ps = apply_cx_logic_128(ps, parts[0], parts[1]);
        } else if let Some(args) = instr.strip_prefix("x ") {
            let q: i64 = args.trim().parse().unwrap();
            ps = apply_gate_logic_128(ps, q, Gate::X);
        } else {
            let parts: Vec<i64> = instr.split(',').map(|v| v.trim().parse().unwrap()).collect();
            ps = apply_cx_logic_128(ps, parts[0], parts[1]);
        }
    }
    ps
}

#[test]
fn affine_x_offset_round_trips_pmh() {
    let mut ps = id_pathsum_logic_64(2);
    ps = apply_cx_logic_64(ps, 0, 1);
    ps = apply_gate_logic_64(ps, 0, Gate::X);
    let fp_orig = state_fingerprint_logic_64(ps.clone());
    let out = synthesize_pmh_logic_64(ps, 1_000);
    assert_ne!(out, "None", "pmh should accept affine/X offsets");
    assert!(out.contains("x 0"), "expected trailing X layer: {out}");
    let replayed = replay_pmh_64(&out, 2);
    assert_eq!(
        state_fingerprint_logic_64(replayed),
        fp_orig,
        "pmh affine resynthesis not engine-equal (instructions: {out})"
    );
}

#[test]
fn rejects_identity_and_tiny_count() {
    let id = id_pathsum_logic_64(3);
    assert_eq!(synthesize_pmh_logic_64(id.clone(), 8), "None");
    let mut ps = id_pathsum_logic_64(2);
    ps = apply_cx_logic_64(ps, 0, 1);
    assert_eq!(synthesize_pmh_logic_64(ps, 2), "None");
}

#[test]
fn rejects_phase_and_path_vars() {
    let mut phase = id_pathsum_logic_64(2);
    phase = apply_gate_logic_64(phase, 0, Gate::Z);
    assert_eq!(synthesize_pmh_logic_64(phase, 8), "None");

    let mut h = id_pathsum_logic_64(2);
    h = apply_gate_logic_64(h, 0, Gate::H);
    h = apply_cx_logic_64(h, 0, 1);
    assert_eq!(synthesize_pmh_logic_64(h, 8), "None");
}

#[test]
fn cx_ladder_round_trips() {
    let mut ps = id_pathsum_logic_64(3);
    ps = apply_cx_logic_64(ps, 0, 1);
    ps = apply_cx_logic_64(ps, 1, 2);
    ps = apply_cx_logic_64(ps, 2, 0);
    let fp = state_fingerprint_logic_64(ps.clone());
    let out = synthesize_pmh_logic_64(ps, 1_000);
    assert_ne!(out, "None", "pmh refused a linear CX block");
    assert_eq!(
        state_fingerprint_logic_64(replay_pmh_64(&out, 3)),
        fp,
        "pmh replay drifted (instructions: {out})"
    );
}

fn lcg(state: &mut u64) -> u64 {
    *state = state
        .wrapping_mul(6364136223846793005)
        .wrapping_add(1442695040888963407);
    *state
}

fn rand_qubit(rng: &mut u64, n: i64) -> i64 {
    ((lcg(rng) >> 32) as i64).rem_euclid(n)
}

fn random_cx_64(n: i64, n_ops: usize, seed: u64) -> EvaluatedPathSum {
    let mut rng = seed;
    let mut ps = id_pathsum_logic_64(n);
    for _ in 0..n_ops {
        let c = rand_qubit(&mut rng, n);
        let t = rand_qubit(&mut rng, n);
        if c != t {
            ps = apply_cx_logic_64(ps, c, t);
        }
    }
    if state_fingerprint_logic_64(ps.clone()) == state_fingerprint_logic_64(id_pathsum_logic_64(n)) {
        ps = apply_cx_logic_64(ps, 0, 1.min(n - 1));
    }
    ps
}

fn random_cx_128(n: i64, n_ops: usize, seed: u64) -> EvaluatedPathSum {
    let mut rng = seed;
    let mut ps = id_pathsum_logic_128(n);
    for _ in 0..n_ops {
        let c = rand_qubit(&mut rng, n);
        let t = rand_qubit(&mut rng, n);
        if c != t {
            ps = apply_cx_logic_128(ps, c, t);
        }
    }
    if state_fingerprint_logic_128(ps.clone()) == state_fingerprint_logic_128(id_pathsum_logic_128(n)) {
        ps = apply_cx_logic_128(ps, 0, 1.min(n - 1));
    }
    ps
}

#[test]
fn extended_pathsum_random_cx_affine_and_compose() {
    let mut accepted = 0usize;
    for n in [6i64, 8, 12, 16] {
        let id_fp = state_fingerprint_logic_64(id_pathsum_logic_64(n));
        for k in 0..32 {
            let ps = random_cx_64(n, (n as usize) * 4, 0xF00D + (n as u64) * 97 + k);
            let fp = state_fingerprint_logic_64(ps.clone());
            assert_ne!(fp, id_fp, "random CX product was identity n={n} k={k}");
            let out = synthesize_pmh_logic_64(ps, 1_000);
            assert_ne!(out, "None", "PMH refused a non-identity linear CX product n={n} k={k}");
            accepted += 1;
            assert_eq!(
                state_fingerprint_logic_64(replay_pmh_64(&out, n)),
                fp,
                "64-bit random CX replay drifted n={n} k={k}: {out}"
            );
        }
    }
    assert_eq!(accepted, 128);

    let mut affine_ok = 0usize;
    for k in 0..24 {
        let mut rng = 0xAFFE + k;
        let n = 8i64;
        let mut ps = random_cx_64(n, 24, 0xA11E + k);
        for _ in 0..3 {
            let q = rand_qubit(&mut rng, n);
            ps = apply_gate_logic_64(ps, q, Gate::X);
        }
        let fp = state_fingerprint_logic_64(ps.clone());
        let out = synthesize_pmh_logic_64(ps, 1_000);
        assert_ne!(out, "None", "PMH refused an affine CX+X state k={k}");
        affine_ok += 1;
        assert!(
            out.contains("x ") || out.contains("cx ") || out.contains(','),
            "affine n=8 k={k} produced unexpected AST: {out}"
        );
        assert_eq!(
            state_fingerprint_logic_64(replay_pmh_64(&out, n)),
            fp,
            "affine replay drifted k={k}: {out}"
        );
    }
    assert_eq!(affine_ok, 24);

    for k in 0..16 {
        let n = 8i64;
        let a = random_cx_64(n, 16, 0xC0DE + k);
        let b = random_cx_64(n, 16, 0xC0DF + k);
        let out_a = synthesize_pmh_logic_64(a, 1_000);
        let out_b = synthesize_pmh_logic_64(b, 1_000);
        if out_a == "None" || out_b == "None" {
            continue;
        }
        let mut composed = replay_pmh_64(&out_a, n);
        for instr in out_b.split(';') {
            let instr = instr.trim();
            if instr.is_empty() {
                continue;
            }
            if let Some(args) = instr.strip_prefix("cx ") {
                let parts: Vec<i64> = args.split(',').map(|v| v.trim().parse().unwrap()).collect();
                composed = apply_cx_logic_64(composed, parts[0], parts[1]);
            } else {
                let parts: Vec<i64> = instr.split(',').map(|v| v.trim().parse().unwrap()).collect();
                composed = apply_cx_logic_64(composed, parts[0], parts[1]);
            }
        }
        let fp = state_fingerprint_logic_64(composed.clone());
        let out = synthesize_pmh_logic_64(composed, 1_000);
        if out == "None" {
            continue;
        }
        assert_eq!(
            state_fingerprint_logic_64(replay_pmh_64(&out, n)),
            fp,
            "composed PathSum replay drifted k={k}: {out}"
        );
    }

    for &(n, samples, ops) in &[(40i64, 8, 80), (64, 4, 96)] {
        let id_fp = state_fingerprint_logic_128(id_pathsum_logic_128(n));
        for k in 0..samples {
            let ps = random_cx_128(n, ops, 0x4040 + (n as u64) * 11 + k);
            let fp = state_fingerprint_logic_128(ps.clone());
            assert_ne!(fp, id_fp, "128-bit random CX product was identity n={n} k={k}");
            let out = synthesize_pmh_logic_128(ps, 1_000);
            assert_ne!(out, "None", "PMH 128 refused a non-identity linear block n={n} k={k}");
            assert_eq!(
                state_fingerprint_logic_128(replay_pmh_128(&out, n)),
                fp,
                "128-bit PathSum replay drifted n={n} k={k}: {out}"
            );
        }
    }
}

/// Linear path sum whose `out_state[i].variable_mask` is row `i` of `M`.
fn pathsum_from_matrix(width: u32, matrix: &[u128], n: usize) -> EvaluatedPathSum {
    let mut st = EvaluatedPathSum::new_id(width, n as u32);
    for i in 0..n {
        st.out_state[i] = BooleanPoly::from_mask(matrix[i]);
    }
    st
}

fn apply_cnots_pathsum_64(cnots: &[(usize, usize)], n: i64) -> EvaluatedPathSum {
    let mut ps = id_pathsum_logic_64(n);
    for &(c, t) in cnots {
        ps = apply_cx_logic_64(ps, c as i64, t as i64);
    }
    ps
}

fn apply_cnots_pathsum_128(cnots: &[(usize, usize)], n: i64) -> EvaluatedPathSum {
    let mut ps = id_pathsum_logic_128(n);
    for &(c, t) in cnots {
        ps = apply_cx_logic_128(ps, c as i64, t as i64);
    }
    ps
}

fn masks(ps: &EvaluatedPathSum) -> Vec<u128> {
    (0..ps.num_qubits as usize)
        .map(|i| ps.out_state[i].variable_mask)
        .collect()
}

fn dense_gl(n: usize, seed: u64) -> Vec<u128> {
    let mut rng = seed;
    let mut rand_bit = || lcg(&mut rng) & 1 == 1;
    let mut l = vec![0u128; n];
    let mut u = vec![0u128; n];
    for i in 0..n {
        l[i] |= 1u128 << i;
        u[i] |= 1u128 << i;
        for j in 0..i {
            if rand_bit() {
                l[i] |= 1u128 << j;
            }
        }
        for j in (i + 1)..n {
            if rand_bit() {
                u[i] |= 1u128 << j;
            }
        }
    }
    let mut m = vec![0u128; n];
    for i in 0..n {
        for j in 0..n {
            if ((l[i] >> j) & 1) == 1 {
                m[i] ^= u[j];
            }
        }
    }
    m
}

fn permutation_gl(n: usize, seed: u64) -> Vec<u128> {
    let mut rng = seed;
    let mut perm: Vec<usize> = (0..n).collect();
    for i in (1..n).rev() {
        let j = (lcg(&mut rng) as usize) % (i + 1);
        perm.swap(i, j);
    }
    perm.into_iter().map(|src| 1u128 << src).collect()
}

fn assert_matrix_pathsum_eq_64(matrix: &[u128], n: usize, label: &str) {
    let id: Vec<u128> = (0..n).map(|i| 1u128 << i).collect();
    if matrix == id.as_slice() {
        let ps = pathsum_from_matrix(64, matrix, n);
        assert_eq!(
            synthesize_pmh_logic_64(ps, i64::MAX),
            "None",
            "{label}: identity PathSum must be refused"
        );
        return;
    }
    let cnots = synthesize_cnot_matrix(matrix.to_vec(), n)
        .unwrap_or_else(|e| panic!("{label}: matrix PMH failed: {e}"));
    assert_eq!(apply_cnots_to_identity(&cnots, n), matrix, "{label}: CX list does not implement M");

    let from_mask = pathsum_from_matrix(64, matrix, n);
    assert_eq!(masks(&from_mask), matrix, "{label}: from_mask drifted from M");

    let from_tape = apply_cnots_pathsum_64(&cnots, n as i64);
    assert_eq!(masks(&from_tape), matrix, "{label}: PathSum tape masks drifted from M");
    assert_eq!(from_mask, from_tape, "{label}: mask-built PathSum is not Eq to tape-built PathSum");

    let src = pathsum_from_matrix(64, matrix, n);
    let fp = state_fingerprint_logic_64(src.clone());
    let out = synthesize_pmh_logic_64(src.clone(), i64::MAX);
    assert_ne!(out, "None", "{label}: PathSum PMH refused a non-identity linear state");
    let replayed = replay_pmh_64(&out, n as i64);
    assert_eq!(
        state_fingerprint_logic_64(replayed.clone()),
        fp,
        "{label}: PathSum fingerprint drifted (instructions: {out})"
    );
    assert_eq!(src, replayed, "{label}: PathSum PartialEq failed");
    let replayed = replay_pmh_64(&out, n as i64);
    assert_eq!(masks(&replayed), matrix, "{label}: replayed PathSum masks drifted from M");
}

fn assert_matrix_pathsum_eq_128(matrix: &[u128], n: usize, label: &str) {
    let cnots = synthesize_cnot_matrix(matrix.to_vec(), n)
        .unwrap_or_else(|e| panic!("{label}: matrix PMH failed: {e}"));
    assert_eq!(apply_cnots_to_identity(&cnots, n), matrix, "{label}: CX list does not implement M");

    let from_mask = pathsum_from_matrix(128, matrix, n);
    assert_eq!(masks(&from_mask), matrix, "{label}: from_mask drifted from M");
    let from_tape = apply_cnots_pathsum_128(&cnots, n as i64);
    assert_eq!(from_mask, from_tape, "{label}: mask-built PathSum is not Eq to tape-built PathSum");

    let src = pathsum_from_matrix(128, matrix, n);
    let fp = state_fingerprint_logic_128(src.clone());
    let out = synthesize_pmh_logic_128(src.clone(), i64::MAX);
    assert_ne!(out, "None", "{label}: PathSum PMH 128 refused a linear state");
    let replayed = replay_pmh_128(&out, n as i64);
    assert_eq!(
        state_fingerprint_logic_128(replayed.clone()),
        fp,
        "{label}: 128-bit fingerprint drifted (instructions: {out})"
    );
    assert_eq!(src, replayed, "{label}: 128-bit PathSum PartialEq failed");
    let replayed = replay_pmh_128(&out, n as i64);
    assert_eq!(masks(&replayed), matrix, "{label}: replayed 128-bit masks drifted from M");
}

#[test]
fn matrix_suites_merge_with_pathsum_eq() {
    for &(n, samples) in &[(8usize, 64), (12, 64), (16, 64), (20, 32), (24, 32)] {
        for k in 0..samples {
            let m = dense_gl(n, 0xE7E7 + (n as u64) * 100_003 + k);
            assert_matrix_pathsum_eq_64(&m, n, &format!("dense n={n} k={k}"));
        }
    }

    for n in [8usize, 12, 16] {
        for k in 0..16 {
            let m = permutation_gl(n, 0xA0A0 + (n as u64) * 31 + k);
            assert_matrix_pathsum_eq_64(&m, n, &format!("perm n={n} k={k}"));
        }
    }

    for k in 0..24 {
        let n = 8usize;
        let m = dense_gl(n, 0xA11E + k);
        let cnots = synthesize_cnot_matrix(m.clone(), n).unwrap();
        let mut ps = apply_cnots_pathsum_64(&cnots, n as i64);
        ps = apply_gate_logic_64(ps, (k % n as u64) as i64, Gate::X);
        let fp = state_fingerprint_logic_64(ps.clone());
        let out = synthesize_pmh_logic_64(ps.clone(), i64::MAX);
        assert_ne!(out, "None", "affine n=8 k={k} refused");
        assert!(out.contains("x "), "affine n=8 k={k} missing trailing X: {out}");
        let replayed = replay_pmh_64(&out, n as i64);
        assert_eq!(
            state_fingerprint_logic_64(replayed.clone()),
            fp,
            "affine fingerprint drifted k={k}: {out}"
        );
        assert_eq!(ps, replayed, "affine PathSum PartialEq failed k={k}");
        let replayed = replay_pmh_64(&out, n as i64);
        assert_eq!(masks(&replayed), m, "affine linear masks drifted k={k}");
    }

    for &(n, samples) in &[(16usize, 16), (40, 8), (70, 4)] {
        for k in 0..samples {
            let m = dense_gl(n, 0x7070 + (n as u64) * 1009 + k);
            assert_matrix_pathsum_eq_128(&m, n, &format!("dense128 n={n} k={k}"));
        }
    }
}

#[test]
fn wide_n70_pathsum_round_trips() {
    let mut ps = id_pathsum_logic_128(70);
    ps = apply_cx_logic_128(ps, 0, 65);
    ps = apply_cx_logic_128(ps, 65, 69);
    ps = apply_cx_logic_128(ps, 69, 0);
    let fp = state_fingerprint_logic_128(ps.clone());
    let out = synthesize_pmh_logic_128(ps, 1_000);
    assert_ne!(out, "None", "pmh 128 refused a high-wire linear block");
    assert_eq!(
        state_fingerprint_logic_128(replay_pmh_128(&out, 70)),
        fp,
        "pmh 128 replay drifted (instructions: {out})"
    );
}
