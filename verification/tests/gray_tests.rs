//! GraySynth network checked against the engine.

use phase_engine::evaluator::EvaluatedPathSum;
use phase_engine::gray::synthesize_gray_network;
use phase_engine::pathsum::{apply_cx_logic_64, apply_gate_logic_64, apply_rz_logic_64, id_pathsum_logic_64, Gate};

fn angle_to_ticks(theta: f64) -> u32 {
    let t = (theta / std::f64::consts::TAU * (1u64 << 29) as f64).round();
    if !t.is_finite() {
        return 0;
    }
    (t as i64).rem_euclid(1i64 << 29) as u32
}

/// Merge equal masks, reduce angles to (0, 2π), drop zeros, sort by mask.
fn merge_terms(parities: &[(u128, f64)]) -> Vec<(u128, u64)> {
    let tau = std::f64::consts::TAU;
    let mut merged: std::collections::BTreeMap<u128, f64> = std::collections::BTreeMap::new();
    for &(m, a) in parities {
        if m != 0 {
            *merged.entry(m).or_insert(0.0) += a;
        }
    }
    merged
        .into_iter()
        .filter_map(|(m, a)| {
            let mut a = a % tau;
            if a < 0.0 {
                a += tau;
            }
            if a.abs() < 1e-12 || (tau - a).abs() < 1e-12 {
                None
            } else {
                Some((m, a.to_bits()))
            }
        })
        .collect()
}

/// Applies `cx c,t` / `rz q,bits` / `x q` instructions to a fresh identity.
fn replay(instructions: &str, n: i64) -> EvaluatedPathSum {
    let mut ps = id_pathsum_logic_64(n);
    for instr in instructions.split(';') {
        let instr = instr.trim();
        if instr.is_empty() {
            continue;
        }
        let (gate, args) = instr.split_once(' ').expect("gate args");
        let parts: Vec<i64> = args.split(',').map(|v| v.trim().parse::<i64>().unwrap()).collect();
        ps = match gate {
            "cx" => apply_cx_logic_64(ps, parts[0], parts[1]),
            "rz" => apply_rz_logic_64(ps, parts[0], angle_to_ticks(f64::from_bits(parts[1] as u64))),
            "x" => apply_gate_logic_64(ps, parts[0], Gate::X),
            other => panic!("unexpected gate from gray synthesis: {other}"),
        };
    }
    ps
}

#[test]
fn paper_example_4_2_identity_pointed() {
    // arXiv:1712.01859 Example 4.2 columns (x1..x4 = bits 0..3), all T = π/8,
    // pointed at the identity.
    let pi8 = std::f64::consts::PI / 8.0;
    let parities: Vec<(u128, f64)> = vec![
        (0b0110, pi8),
        (0b0001, pi8),
        (0b1001, pi8),
        (0b0111, pi8),
        (0b1011, pi8),
        (0b0011, pi8),
    ];
    let n = 4usize;
    let target: Vec<u128> = (0..n).map(|i| 1u128 << i).collect();
    let (instr, _) = synthesize_gray_network(merge_terms(&parities), &target, n)
        .expect("paper Example 4.2 must synthesize");
    let ast = instr.join(";");
    let replayed = replay(&ast, n as i64);

    let mut orig = id_pathsum_logic_64(n as i64);
    for &(mask, ang) in &parities {
        let members: Vec<i64> = (0..n as i64).filter(|&i| (mask >> i) & 1 == 1).collect();
        let t = *members.last().unwrap();
        for &s in &members[..members.len() - 1] {
            orig = apply_cx_logic_64(orig, s, t);
        }
        orig = apply_rz_logic_64(orig, t, angle_to_ticks(ang));
        for &s in members[..members.len() - 1].iter().rev() {
            orig = apply_cx_logic_64(orig, s, t);
        }
    }
    assert_eq!(orig, replayed, "Example 4.2 PathSum Eq failed (instructions: {ast})");
}

#[test]
fn gray_network_counts_its_cnots() {
    let pi4 = std::f64::consts::PI / 4.0 + 0.1;
    let parities: Vec<(u128, f64)> = vec![(0b011, pi4), (0b110, pi4)];
    let n = 3usize;
    let target: Vec<u128> = (0..n).map(|i| 1u128 << i).collect();
    let (instr, total) = synthesize_gray_network(merge_terms(&parities), &target, n).unwrap();
    let cx = instr.iter().filter(|s| s.starts_with("cx ")).count() as i64;
    assert_eq!(cx, total);
    assert_eq!(instr.iter().filter(|s| s.starts_with("rz ")).count(), 2);
}

#[test]
fn gray_network_single_wire_terms_need_no_cnot() {
    let a = 0.3f64;
    let parities: Vec<(u128, f64)> = vec![(0b01, a), (0b10, a)];
    let target: Vec<u128> = vec![1, 2];
    let (instr, total) = synthesize_gray_network(merge_terms(&parities), &target, 2).unwrap();
    assert_eq!(total, 0);
    assert_eq!(
        instr,
        vec![format!("rz 0,{}", a.to_bits()), format!("rz 1,{}", a.to_bits())]
    );
}

#[test]
fn gray_network_ends_on_the_target_map() {
    let a = 0.7f64;
    let parities: Vec<(u128, f64)> = vec![(0b011, a), (0b110, a), (0b111, a)];
    let n = 3usize;
    let target: Vec<u128> = vec![0b011, 0b010, 0b111];
    let (instr, _) = synthesize_gray_network(merge_terms(&parities), &target, n).unwrap();
    let mut rows: Vec<u128> = (0..n).map(|i| 1u128 << i).collect();
    let mut rotated: Vec<u128> = Vec::new();
    for s in &instr {
        let (gate, args) = s.split_once(' ').unwrap();
        let parts: Vec<usize> = args.split(',').map(|v| v.parse::<usize>().unwrap()).collect();
        match gate {
            "cx" => rows[parts[1]] ^= rows[parts[0]],
            "rz" => rotated.push(rows[parts[0]]),
            other => panic!("unexpected gate {other}"),
        }
    }
    assert_eq!(rows, target);
    rotated.sort();
    assert_eq!(rotated, vec![0b011, 0b110, 0b111]);
}

/// Each parity rotation as a plain ladder: fold the mask's wires onto its
/// lowest wire, rotate there, unfold.
fn ladder_reference(parities: &[(u128, f64)], n: usize) -> EvaluatedPathSum {
    let mut ps = id_pathsum_logic_64(n as i64);
    for &(mask, ang) in parities {
        let wires: Vec<i64> = (0..n as i64).filter(|&i| (mask >> i) & 1 == 1).collect();
        let root = wires[0];
        for &w in &wires[1..] {
            ps = apply_cx_logic_64(ps, w, root);
        }
        ps = apply_rz_logic_64(ps, root, angle_to_ticks(ang));
        for &w in wires[1..].iter().rev() {
            ps = apply_cx_logic_64(ps, w, root);
        }
    }
    ps
}

#[test]
fn paper_gray_eq_and_not_worse_than_nn_mean_cx() {
    // Random H-free CX+RZ maps: the GraySynth network must replay to the
    // same path sum as the rotations applied one by one.
    let mut rng = 0xC0FFEE_u64;
    let mut lcg = || {
        rng = rng
            .wrapping_mul(6364136223846793005)
            .wrapping_add(1442695040888963407);
        rng
    };
    let mut cases = 0i64;
    for n in [3usize, 4, 6, 8] {
        for _ in 0..32 {
            let n_terms = 2 + (lcg() as usize % (n + 2));
            let mut parities: Vec<(u128, f64)> = Vec::new();
            for _ in 0..n_terms {
                let mask = lcg() & ((1u64 << n) - 1);
                if mask == 0 {
                    continue;
                }
                let ang = ((lcg() % 7) as f64 + 1.0) * std::f64::consts::PI / 8.0;
                parities.push((mask as u128, ang));
            }
            if parities.is_empty() {
                continue;
            }
            let target: Vec<u128> = (0..n).map(|i| 1u128 << i).collect();
            let paper = synthesize_gray_network(merge_terms(&parities), &target, n);
            let (p_instr, _) = paper.expect("paper GraySynth refused a linear H-free set");
            cases += 1;
            let p_ast = p_instr.join(";");
            let p_ps = if p_ast.is_empty() { id_pathsum_logic_64(n as i64) } else { replay(&p_ast, n as i64) };
            let reference = ladder_reference(&parities, n);
            assert_eq!(p_ps, reference, "paper vs ladder PathSum Eq failed n={n} paper={p_ast}");
        }
    }
    assert!(cases > 0);
}
