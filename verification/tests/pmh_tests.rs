//! Matrix-level Patel–Markov–Hayes tests: soundness is "the CX list applied
//! to the identity gives the source matrix".

use phase_engine::gf2::{
    apply_cnots_to_identity, default_pmh_section_size, synthesize_cnot_matrix,
    synthesize_cnot_matrix_ge, synthesize_cnot_matrix_pmh,
};

fn lcg(state: &mut u64) -> u64 {
    *state = state
        .wrapping_mul(6364136223846793005)
        .wrapping_add(1442695040888963407);
    *state
}

/// Dense invertible matrix: random unit-diagonal L and U, then `M = L U` over F2.
fn dense_gl(n: usize, seed: u64) -> Vec<u128> {
    let mut rng = seed;
    let mut rand_bit = || lcg(&mut rng) & 1 == 1;
    let mut l = vec![0u128; n];
    let mut u = vec![0u128; n];
    for i in 0..n {
        l[i] |= 1u128 << i;
        u[i] |= 1u128 << i;
        for j in 0..i {
            if rand_bit() {
                l[i] |= 1u128 << j;
            }
        }
        for j in (i + 1)..n {
            if rand_bit() {
                u[i] |= 1u128 << j;
            }
        }
    }
    let mut m = vec![0u128; n];
    for i in 0..n {
        for j in 0..n {
            if ((l[i] >> j) & 1) == 1 {
                m[i] ^= u[j];
            }
        }
    }
    m
}

fn assert_implements(matrix: &[u128], n: usize, cnots: &[(usize, usize)]) {
    let got = apply_cnots_to_identity(&cnots.to_vec(), n);
    assert_eq!(got, matrix, "CX list does not implement the source matrix");
}

#[test]
fn identity_is_empty() {
    let n = 4;
    let m: Vec<u128> = (0..n).map(|i| 1u128 << i).collect();
    let cnots = synthesize_cnot_matrix(m, n).unwrap();
    assert!(cnots.is_empty(), "identity should emit no CXs: {cnots:?}");
}

#[test]
fn swap_matrix_round_trips() {
    let n = 3;
    let m = vec![1u128 << 1, 1u128 << 0, 1u128 << 2];
    let cnots = synthesize_cnot_matrix(m.clone(), n).unwrap();
    assert_implements(&m, n, &cnots);
}

#[test]
fn three_cycle_and_cx_ladder_round_trip() {
    let n = 3;
    let mut m: Vec<u128> = (0..n).map(|i| 1u128 << i).collect();
    m[1] ^= m[0];
    m[2] ^= m[1];
    m[0] ^= m[2];
    let cnots = synthesize_cnot_matrix(m.clone(), n).unwrap();
    assert_implements(&m, n, &cnots);

    let mut ladder: Vec<u128> = (0..n).map(|i| 1u128 << i).collect();
    ladder[1] ^= ladder[0];
    ladder[2] ^= ladder[1];
    let cnots = synthesize_cnot_matrix(ladder.clone(), n).unwrap();
    assert_implements(&ladder, n, &cnots);
}

#[test]
fn random_gl_n2_to_16_and_wide_64() {
    let mut ns: Vec<usize> = (2..=16).collect();
    ns.extend([20, 32, 40]);
    for n in ns {
        for k in 0..8 {
            let m = dense_gl(n, 0xC0FFEE + (n as u64) * 1000 + k);
            let cnots = synthesize_cnot_matrix(m.clone(), n)
                .unwrap_or_else(|e| panic!("n={n} k={k}: {e}"));
            assert_implements(&m, n, &cnots);
        }
    }
}

#[test]
fn section_sizes_2_3_4_all_implement() {
    let n = 8;
    let m = dense_gl(n, 42);
    for sec in [2usize, 3, 4] {
        let cnots = synthesize_cnot_matrix_pmh(m.clone(), n, Some(sec))
            .unwrap_or_else(|e| panic!("m={sec}: {e}"));
        assert_implements(&m, n, &cnots);
    }
}

#[test]
fn dense_suite_mean_cx_below_ge() {
    for n in [8usize, 12, 16] {
        let mut pmh_total = 0usize;
        let mut ge_total = 0usize;
        let samples = 64;
        for k in 0..samples {
            let m = dense_gl(n, 0xA11CE + (n as u64) * 10_000 + k);
            let pmh = synthesize_cnot_matrix_pmh(m.clone(), n, None)
                .unwrap_or_else(|e| panic!("pmh n={n} k={k}: {e}"));
            let ge = synthesize_cnot_matrix_ge(m.clone(), n).unwrap();
            assert_implements(&m, n, &pmh);
            assert_implements(&m, n, &ge);
            pmh_total += pmh.len();
            ge_total += ge.len();
        }
        assert!(
            pmh_total < ge_total,
            "n={n}: mean PMH CX {} not below GE {}",
            pmh_total as f64 / samples as f64,
            ge_total as f64 / samples as f64
        );
    }
}

/// Sparse invertible matrix: identity plus a random CX product.
fn sparse_cx_product(n: usize, n_ops: usize, seed: u64) -> Vec<u128> {
    let mut rng = seed;
    let mut m: Vec<u128> = (0..n).map(|i| 1u128 << i).collect();
    for _ in 0..n_ops {
        let c = (lcg(&mut rng) as usize) % n;
        let t = (lcg(&mut rng) as usize) % n;
        if c != t {
            m[t] ^= m[c];
        }
    }
    m
}

#[test]
fn extended_dense_sparse_and_wide_suite() {
    for &(n, samples) in &[
        (8usize, 256),
        (12, 256),
        (16, 256),
        (20, 128),
        (24, 128),
        (32, 64),
    ] {
        let mut pmh_total = 0usize;
        let mut ge_total = 0usize;
        let first = dense_gl(n, 0xE7E7 + (n as u64) * 100_003);
        let mut saw_distinct = false;
        for k in 0..samples {
            let m = dense_gl(n, 0xE7E7 + (n as u64) * 100_003 + k);
            if k > 0 && m != first {
                saw_distinct = true;
            }
            let pmh = synthesize_cnot_matrix_pmh(m.clone(), n, None)
                .unwrap_or_else(|e| panic!("pmh failed on dense GL n={n} k={k}: {e}"));
            assert_implements(&m, n, &pmh);
            pmh_total += pmh.len();

            let ge = synthesize_cnot_matrix_ge(m.clone(), n).unwrap();
            assert_implements(&m, n, &ge);
            ge_total += ge.len();

            let prod = synthesize_cnot_matrix(m.clone(), n).unwrap();
            assert_implements(&m, n, &prod);
        }
        if !saw_distinct {
            panic!("n={n}: all dense samples were identical");
        }
        if n >= 12 {
            assert!(
                pmh_total < ge_total,
                "n={n}: mean PMH {pmh_total} not below GE {ge_total}"
            );
        }
    }

    for n in [4usize, 8, 12, 16, 24] {
        for k in 0..64 {
            let m = sparse_cx_product(n, n * 3, 0x5A5A + (n as u64) * 17 + k);
            let pmh = synthesize_cnot_matrix_pmh(m.clone(), n, None)
                .unwrap_or_else(|e| panic!("sparse n={n} k={k}: {e}"));
            assert_implements(&m, n, &pmh);
            let prod = synthesize_cnot_matrix(m.clone(), n).unwrap();
            assert_implements(&m, n, &prod);
        }
    }

    for &(n, samples) in &[(16usize, 32), (40, 16), (70, 8)] {
        for k in 0..samples {
            let m = dense_gl(n, 0x7070 + (n as u64) * 1009 + k);
            let cnots = synthesize_cnot_matrix_pmh(m.clone(), n, None)
                .unwrap_or_else(|e| panic!("128 n={n} k={k}: {e}"));
            assert_implements(&m, n, &cnots);
            let prod = synthesize_cnot_matrix(m.clone(), n).unwrap();
            assert_implements(&m, n, &prod);
        }
    }
}

fn identity(n: usize) -> Vec<u128> {
    (0..n).map(|i| 1u128 << i).collect()
}

fn mul_f2(a: &[u128], b: &[u128], n: usize) -> Vec<u128> {
    let mut out = vec![0u128; n];
    for i in 0..n {
        for j in 0..n {
            if ((a[i] >> j) & 1) == 1 {
                out[i] ^= b[j];
            }
        }
    }
    out
}

fn invert_cnots(cnots: &[(usize, usize)]) -> Vec<(usize, usize)> {
    cnots.iter().rev().copied().collect()
}

fn permutation_gl(n: usize, seed: u64) -> Vec<u128> {
    let mut rng = seed;
    let mut perm: Vec<usize> = (0..n).collect();
    for i in (1..n).rev() {
        let j = (lcg(&mut rng) as usize) % (i + 1);
        perm.swap(i, j);
    }
    perm.into_iter().map(|src| 1u128 << src).collect()
}

fn involution_perm(n: usize, seed: u64) -> Vec<u128> {
    let mut rng = seed;
    let mut leftover: Vec<usize> = (0..n).collect();
    let mut dest = vec![0usize; n];
    while leftover.len() >= 2 {
        let i = (lcg(&mut rng) as usize) % leftover.len();
        let a = leftover.swap_remove(i);
        if (lcg(&mut rng) & 1) == 0 {
            dest[a] = a;
            continue;
        }
        let j = (lcg(&mut rng) as usize) % leftover.len();
        let b = leftover.swap_remove(j);
        dest[a] = b;
        dest[b] = a;
    }
    for a in leftover {
        dest[a] = a;
    }
    dest.into_iter().map(|src| 1u128 << src).collect()
}

fn block_diag(left: &[u128], n_left: usize, right: &[u128], n_right: usize) -> Vec<u128> {
    let n = n_left + n_right;
    let mut m = vec![0u128; n];
    m[..n_left].copy_from_slice(&left[..n_left]);
    for i in 0..n_right {
        m[n_left + i] = right[i] << n_left;
    }
    m
}

#[test]
fn default_section_size_matches_spec() {
    assert_eq!(default_pmh_section_size(0), 1);
    assert_eq!(default_pmh_section_size(1), 1);
    assert_eq!(default_pmh_section_size(2), 2);
    assert_eq!(default_pmh_section_size(3), 2);
    assert_eq!(default_pmh_section_size(4), 2);
    assert_eq!(default_pmh_section_size(8), 3);
    assert_eq!(default_pmh_section_size(16), 4);
    assert_eq!(default_pmh_section_size(32), 4);
    assert_eq!(default_pmh_section_size(7), 2);
    assert_eq!(default_pmh_section_size(16), default_pmh_section_size(16));
}

#[test]
fn pre_merge_inverse_section_and_ensemble_suite() {
    for &(n, samples) in &[(8usize, 96), (12, 64), (16, 64), (24, 32)] {
        let mut default_total = 0usize;
        let mut ge_total = 0usize;
        let sections = [2usize, 3, 4, 5];
        let id = identity(n);

        for k in 0..samples {
            let m = dense_gl(n, 0xBEE5 + (n as u64) * 90_011 + k);
            let pmh = synthesize_cnot_matrix_pmh(m.clone(), n, None)
                .unwrap_or_else(|e| panic!("default pmh n={n} k={k}: {e}"));
            assert_implements(&m, n, &pmh);
            default_total += pmh.len();

            let inv = invert_cnots(&pmh);
            let recovered = apply_cnots_to_identity(&inv, n);
            let product = mul_f2(&m, &recovered, n);
            assert_eq!(product, id, "n={n} k={k}: M * M^{{-1}} != I");
            let undone = {
                let mut work = m.clone();
                for &(c, t) in &inv {
                    work[t] ^= work[c];
                }
                work
            };
            assert_eq!(undone, id, "n={n} k={k}: inverse tape did not undo M");

            let ge = synthesize_cnot_matrix_ge(m.clone(), n).unwrap();
            assert_implements(&m, n, &ge);
            ge_total += ge.len();

            for &sec in sections.iter() {
                if sec > n {
                    continue;
                }
                let tape = synthesize_cnot_matrix_pmh(m.clone(), n, Some(sec))
                    .unwrap_or_else(|e| panic!("section {sec} n={n} k={k}: {e}"));
                assert_implements(&m, n, &tape);
            }
        }
        if n >= 12 {
            assert!(
                default_total < ge_total,
                "n={n}: default PMH {default_total} not below GE {ge_total}"
            );
        }
    }

    for n in [6usize, 8, 12, 16, 24] {
        for k in 0..48 {
            for (label, m) in [
                ("perm", permutation_gl(n, 0xA0A0 + (n as u64) * 31 + k)),
                ("involution", involution_perm(n, 0x0B0B + (n as u64) * 37 + k)),
            ] {
                let pmh = synthesize_cnot_matrix_pmh(m.clone(), n, None)
                    .unwrap_or_else(|e| panic!("{label} n={n} k={k}: {e}"));
                assert_implements(&m, n, &pmh);
                let inv = invert_cnots(&pmh);
                assert_eq!(
                    mul_f2(&m, &apply_cnots_to_identity(&inv, n), n),
                    identity(n),
                    "{label} n={n} k={k}: inverse failed"
                );
            }
        }
        if n % 2 == 0 {
            let half = n / 2;
            for k in 0..24 {
                let left = dense_gl(half, 0x1111 + (n as u64) * 13 + k);
                let right = dense_gl(half, 0x2222 + (n as u64) * 17 + k);
                let m = block_diag(&left, half, &right, half);
                let pmh = synthesize_cnot_matrix_pmh(m.clone(), n, None)
                    .unwrap_or_else(|e| panic!("block-diag n={n} k={k}: {e}"));
                assert_implements(&m, n, &pmh);
            }
        }
    }

    for n in [8usize, 12, 16] {
        for k in 0..32 {
            let a = dense_gl(n, 0xCA11 + (n as u64) * 101 + k);
            let b = dense_gl(n, 0xCA12 + (n as u64) * 103 + k);
            let ba = mul_f2(&b, &a, n);
            let ca = synthesize_cnot_matrix_pmh(a.clone(), n, None).unwrap();
            let cb = synthesize_cnot_matrix_pmh(b.clone(), n, None).unwrap();
            let mut composed = ca;
            composed.extend(cb);
            assert_implements(&ba, n, &composed);
            let direct = synthesize_cnot_matrix_pmh(ba.clone(), n, None)
                .unwrap_or_else(|e| panic!("compose n={n} k={k}: {e}"));
            assert_implements(&ba, n, &direct);
        }
    }

    for &(n, samples) in &[(40usize, 12), (80, 6), (96, 4), (120, 3)] {
        for k in 0..samples {
            let m = dense_gl(n, 0x8080 + (n as u64) * 401 + k);
            let cnots = synthesize_cnot_matrix_pmh(m.clone(), n, None)
                .unwrap_or_else(|e| panic!("wide128 n={n} k={k}: {e}"));
            assert_implements(&m, n, &cnots);
            let inv = invert_cnots(&cnots);
            let mut work = m.clone();
            for &(c, t) in &inv {
                work[t] ^= work[c];
            }
            assert_eq!(work, identity(n), "wide128 n={n} k={k}: inverse tape did not undo M");
            let prod = synthesize_cnot_matrix(m.clone(), n).unwrap();
            assert_implements(&m, n, &prod);
        }
    }
}

#[test]
fn wide_n70_no_u64_truncation() {
    let n = 70;
    let mut m: Vec<u128> = (0..n).map(|i| 1u128 << i).collect();
    m[65] ^= m[0];
    m[69] ^= m[65];
    m[0] ^= m[69];
    let cnots = synthesize_cnot_matrix(m.clone(), n).unwrap_or_else(|e| panic!("n=70: {e}"));
    assert_implements(&m, n, &cnots);
    assert!(
        cnots.iter().any(|&(c, t)| c >= 64 || t >= 64),
        "expected at least one CX on a wire >= 64: {cnots:?}"
    );
}

#[test]
fn cnot_lists_stay_within_four_n_squared() {
    for n in [1usize, 2, 3, 5, 8, 13, 20] {
        for seed in 0..4u64 {
            let m = dense_gl(n, 0x5eed + seed * 31 + n as u64);
            let c = synthesize_cnot_matrix(m.clone(), n).unwrap();
            assert!(c.len() <= 4 * n * n, "n={n}: {} gates", c.len());
            assert_eq!(apply_cnots_to_identity(&c, n), m);
            let g = synthesize_cnot_matrix_ge(m.clone(), n).unwrap();
            assert!(g.len() <= n * (n + 3), "n={n}: {} gates", g.len());
        }
    }
}
