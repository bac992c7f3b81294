//! Concrete values for the engine's rules, refusals and renderings.

use phase_engine::evaluator::{next_overflow_id, EvaluatedPathSum};
use phase_engine::gf2::{
    apply_cnots_to_identity, default_pmh_section_size, synthesize_cnot_matrix,
    synthesize_cnot_matrix_ge, synthesize_cnot_matrix_pmh,
};
use phase_engine::pathsum::{
    apply_cx_logic_128, apply_cx_logic_64, apply_gate_logic_64, apply_gate_no_reduce_logic_64,
    apply_rz_logic_64, finish_synthesis, gray_precheck, id_pathsum_logic_128, id_pathsum_logic_64,
    pmh_instructions, state_fingerprint_logic_64, steiner_precheck, synthesize_pmh_logic_64,
    FingerprintOp, Gate, PathSumSort128, PathSumSort64,
};
use phase_engine::steiner::{apply_remote_cnot, steiner_parity_instructions, Topology};
use phase_engine::ticks::{add_ticks, negate_ticks, TICKS_PER_TURN};

const PI_4_TICKS: u32 = 1 << 26;

#[test]
fn overflow_tokens_are_nonzero_and_fresh() {
    let a = next_overflow_id();
    let b = next_overflow_id();
    assert_ne!(a, 0);
    assert_ne!(b, 0);
    assert_ne!(a, b);
}

#[test]
fn tick_arithmetic_wraps_the_turn() {
    let t = TICKS_PER_TURN as u32;
    assert_eq!(add_ticks(t - 1, 2), 1);
    assert_eq!(add_ticks(5, 7), 12);
    assert_eq!(negate_ticks(0), 0);
    assert_eq!(negate_ticks(1), t - 1);
    for a in [0u32, 1, 12345, t / 2, t - 1] {
        assert_eq!(add_ticks(a, negate_ticks(a)), 0);
        assert_eq!(negate_ticks(negate_ticks(a)), a);
    }
}

#[test]
fn identity_fingerprint_text() {
    let id = id_pathsum_logic_64(1);
    assert_eq!(
        state_fingerprint_logic_64(id),
        "EvaluatedPathSum { num_qubits: 1, num_path_vars: 0, out_state: [[1]], phase_poly: [], \
         parities: [], phases: [], overflow_id: 0 }"
    );
    let two = id_pathsum_logic_64(2);
    assert!(state_fingerprint_logic_64(two).contains("out_state: [[1], [2]]"));
    assert_eq!(id_pathsum_logic_64(-3).num_qubits, 0);
}

#[test]
fn shields_leave_the_state_unchanged() {
    let s = id_pathsum_logic_64(2);
    assert_eq!(apply_gate_logic_64(s.clone(), 2, Gate::H), s);
    assert_eq!(apply_gate_logic_64(s.clone(), -1, Gate::T), s);
    assert_eq!(apply_cx_logic_64(s.clone(), 1, 1), s);
    assert_eq!(apply_cx_logic_64(s.clone(), 0, 5), s);
    assert_eq!(apply_rz_logic_64(s.clone(), 7, 123), s);
}

#[test]
fn self_inverse_gates_cancel() {
    let id = id_pathsum_logic_64(2);
    let mut s = id.clone();
    s = apply_cx_logic_64(s, 0, 1);
    s = apply_cx_logic_64(s, 0, 1);
    assert_eq!(s, id);
    let mut s = id.clone();
    s = apply_gate_no_reduce_logic_64(s, 1, Gate::X);
    s = apply_gate_no_reduce_logic_64(s, 1, Gate::X);
    assert_eq!(s, id);
    let mut s = id.clone();
    s = apply_gate_logic_64(s, 0, Gate::Z);
    s = apply_gate_logic_64(s, 0, Gate::Z);
    assert_eq!(s, id);
    let mut s = id.clone();
    s = apply_gate_logic_64(s, 0, Gate::S);
    s = apply_gate_logic_64(s, 0, Gate::Sdg);
    assert_eq!(s, id);
    let mut s = id.clone();
    s = apply_gate_logic_64(s, 1, Gate::H);
    s = apply_gate_logic_64(s, 1, Gate::H);
    assert_eq!(s, id);
}

#[test]
fn eight_t_gates_are_the_identity() {
    let id = id_pathsum_logic_64(1);
    let mut s = id.clone();
    for _ in 0..8 {
        s = apply_gate_logic_64(s, 0, Gate::T);
    }
    assert_eq!(s, id);
    let mut s = id.clone();
    for _ in 0..4 {
        s = apply_gate_logic_64(s, 0, Gate::T);
    }
    let mut z = id.clone();
    z = apply_gate_logic_64(z, 0, Gate::Z);
    assert_eq!(s, z);
}

#[test]
fn rz_by_a_quarter_turn_is_an_s_gate() {
    let id = id_pathsum_logic_64(1);
    let rz = apply_rz_logic_64(id.clone(), 0, 2 * PI_4_TICKS);
    let s = apply_gate_logic_64(id.clone(), 0, Gate::S);
    assert_eq!(rz, s);
    let back = apply_rz_logic_64(rz, 0, (TICKS_PER_TURN as u32) - 2 * PI_4_TICKS);
    assert_eq!(back, id);
    let odd = apply_rz_logic_64(id, 0, 12345);
    assert_eq!(odd.continuous_poly.parities, vec![1u128]);
    assert_eq!(odd.continuous_poly.phases, vec![12345u32]);
}

#[test]
fn hadamard_allocates_one_path_variable() {
    let s = apply_gate_logic_64(id_pathsum_logic_64(1), 0, Gate::H);
    assert_eq!(s.num_path_vars, 1);
    assert_eq!(s.out_state[0].terms, vec![2u128]);
    assert_eq!(s.phase_poly.terms.len(), 1);
    assert_eq!((s.phase_poly.terms[0].mono, s.phase_poly.terms[0].ph), (3u128, 4u8));
}

#[test]
fn overflow_freezes_further_hadamards() {
    let mut state = EvaluatedPathSum::new_id(64, 1);
    state.num_path_vars = 60;
    state.apply_h(0);
    assert!(state.is_overflowed());
    let again = apply_gate_logic_64(state.clone(), 0, Gate::H);
    assert_eq!(again, state);
}

#[test]
fn section_size_edges() {
    assert_eq!(default_pmh_section_size(5), 2);
    assert_eq!(default_pmh_section_size(15), 3);
    assert_eq!(default_pmh_section_size(1000), 4);
}

#[test]
fn pmh_errors_and_fallback() {
    assert_eq!(synthesize_cnot_matrix_pmh(vec![], 0, None), Ok(vec![]));
    assert_eq!(
        synthesize_cnot_matrix_pmh(vec![1], 2, None),
        Err("matrix shorter than num_qubits".to_string())
    );
    // Singular: the second row repeats the first.
    let singular = vec![0b01u128, 0b01];
    assert_eq!(
        synthesize_cnot_matrix_pmh(singular.clone(), 2, None),
        Err("pmh failed invertibility check".to_string())
    );
    assert!(synthesize_cnot_matrix_ge(singular.clone(), 2).is_ok());
    assert!(synthesize_cnot_matrix(singular, 2).is_ok());
    let swap = vec![2u128, 1];
    let c = synthesize_cnot_matrix_ge(swap.clone(), 2).unwrap();
    assert_eq!(apply_cnots_to_identity(&c, 2), swap);
}

#[test]
fn fingerprint_op_parsing() {
    assert_eq!(FingerprintOp::parse("x", &[3]), Some(FingerprintOp::X(3)));
    assert_eq!(FingerprintOp::parse("z", &[1]), Some(FingerprintOp::Z(1)));
    assert_eq!(FingerprintOp::parse("s", &[1]), Some(FingerprintOp::S(1)));
    assert_eq!(FingerprintOp::parse("sdg", &[1]), Some(FingerprintOp::Sdg(1)));
    assert_eq!(FingerprintOp::parse("t", &[1]), Some(FingerprintOp::T(1)));
    assert_eq!(FingerprintOp::parse("tdg", &[1]), Some(FingerprintOp::Tdg(1)));
    assert_eq!(FingerprintOp::parse("h", &[0]), Some(FingerprintOp::H(0)));
    assert_eq!(FingerprintOp::parse("sx", &[2]), Some(FingerprintOp::Sx(2)));
    assert_eq!(FingerprintOp::parse("rz_bits", &[0, 42]), Some(FingerprintOp::RzBits(0, 42)));
    assert_eq!(FingerprintOp::parse("cx", &[0, 1]), Some(FingerprintOp::Cx(0, 1)));
    assert_eq!(FingerprintOp::parse("cx", &[0]), None);
    assert_eq!(FingerprintOp::parse("h", &[]), None);
    assert_eq!(FingerprintOp::parse("rz_bits", &[1]), None);
    assert_eq!(FingerprintOp::parse("X", &[1]), None);
}

#[test]
fn pmh_answer_forms() {
    let cnots = vec![(0usize, 1usize), (1, 2)];
    assert_eq!(pmh_instructions(&cnots, &vec![], 10), "0,1;1,2");
    assert_eq!(pmh_instructions(&cnots, &vec![2], 10), "cx 0,1;cx 1,2;x 2");
    assert_eq!(pmh_instructions(&vec![], &vec![], 10), "empty");
    assert_eq!(pmh_instructions(&cnots, &vec![2], 3), "None");
    assert_eq!(pmh_instructions(&vec![], &vec![0, 1], 3), "x 0;x 1");
}

#[test]
fn pmh_refuses_when_rank_reaches_the_count() {
    let mut ps = id_pathsum_logic_64(3);
    ps = apply_cx_logic_64(ps, 0, 1);
    ps = apply_cx_logic_64(ps, 1, 2);
    // rank(M - I) = 2, so a budget of 2 gates cannot be beaten.
    assert_eq!(synthesize_pmh_logic_64(ps.clone(), 2), "None");
    let out = synthesize_pmh_logic_64(ps, 3);
    assert_eq!(out, "0,1;1,2");
}

#[test]
fn pmh_emits_a_pure_x_layer() {
    let mut ps = id_pathsum_logic_64(2);
    ps = apply_gate_logic_64(ps, 1, Gate::X);
    assert_eq!(synthesize_pmh_logic_64(ps, 5), "x 1");
}

#[test]
fn synthesis_pricing() {
    let instr = vec!["cx 0,1".to_string(), "rz 1,7".to_string(), "cx 0,1".to_string()];
    // 2 CX at weight 10 plus 1 RZ at weight 1 = 21.
    assert_eq!(finish_synthesis(instr.clone(), 2, &vec![], 21, 10, 1), "None");
    assert_eq!(finish_synthesis(instr.clone(), 2, &vec![], 22, 10, 1), "cx 0,1;rz 1,7;cx 0,1");
    assert_eq!(finish_synthesis(instr, 2, &vec![0], 100, 10, 1), "cx 0,1;rz 1,7;cx 0,1;x 0");
    assert_eq!(finish_synthesis(vec![], 0, &vec![], 1, 10, 1), "empty");
}

#[test]
fn prechecks_refuse_path_variables_and_tiny_counts() {
    let id = id_pathsum_logic_64(2);
    assert_eq!(gray_precheck(&id, 2), None);
    assert_eq!(gray_precheck(&id, 3), Some(vec![]));
    let x = apply_gate_logic_64(id.clone(), 1, Gate::X);
    assert_eq!(gray_precheck(&x, 3), Some(vec![1]));
    assert_eq!(steiner_precheck(&x, 3), Some(vec![1]));
    let h = apply_gate_logic_64(id, 0, Gate::H);
    assert_eq!(gray_precheck(&h, 10), None);
    assert_eq!(steiner_precheck(&h, 10), None);
}

#[test]
fn line_topology_routes_remote_cnots() {
    let topo = Topology::new(3, "0-1;1-2");
    assert_eq!(topo.path(0, 2), vec![0, 1, 2]);
    assert_eq!(topo.path(2, 0), vec![2, 1, 0]);
    let mut cnots = Vec::new();
    apply_remote_cnot(0, 1, &topo, &mut cnots);
    assert_eq!(cnots, vec![(0, 1)]);
    let mut cnots = Vec::new();
    apply_remote_cnot(0, 2, &topo, &mut cnots);
    assert_eq!(cnots, vec![(0, 1), (1, 0), (0, 1), (1, 2), (0, 1), (1, 0), (0, 1)]);
    let quoted = Topology::new(3, "\"0-1;1-2\"");
    assert_eq!(quoted.path(0, 2), vec![0, 1, 2]);
    let broken = Topology::new(3, "0-1;x-2;1-7;1-2-0");
    assert_eq!(broken.path(0, 2), Vec::<usize>::new());
    let full = Topology::new(3, "");
    assert_eq!(full.path(0, 2), vec![0, 2]);
}

#[test]
fn coupling_text_lists_pairs_and_skips_the_rest() {
    let topo = Topology::new(4, "+0-1;2-3;1-9;a-b;;0-;2-1-0");
    let d = |a: usize, b: usize| topo.dist[a * 4 + b];
    assert_eq!((d(0, 1), d(1, 0), d(2, 3), d(3, 2)), (1, 1, 1, 1));
    assert_eq!(d(0, 2), usize::MAX);
    assert_eq!(d(1, 3), usize::MAX);
    assert_eq!(topo.path(0, 3), Vec::<usize>::new());
    assert_eq!(topo.path(3, 3), vec![3]);
}

#[test]
fn routed_cnots_only_join_neighbours() {
    let topo = Topology::new(5, "0-1;1-2;2-3;3-4");
    let mut cnots = Vec::new();
    apply_remote_cnot(0, 4, &topo, &mut cnots);
    assert_eq!(cnots.len(), 3 * 3 * 2 + 1);
    for (a, b) in cnots {
        assert!(a + 1 == b || b + 1 == a, "({a},{b}) are not neighbours");
    }
    let path = topo.path(4, 0);
    assert_eq!(path, vec![4, 3, 2, 1, 0]);
}

#[test]
fn routed_cnot_acts_as_the_remote_cnot() {
    let topo = Topology::new(5, "0-1;1-2;2-3;3-4");
    for (c, t) in [(0usize, 4usize), (4, 1), (2, 0)] {
        let mut cnots = Vec::new();
        apply_remote_cnot(c, t, &topo, &mut cnots);
        let mut rows: Vec<u128> = (0..5).map(|i| 1u128 << i).collect();
        for (a, b) in cnots {
            rows[b] ^= rows[a];
        }
        let mut expected: Vec<u128> = (0..5).map(|i| 1u128 << i).collect();
        expected[t] ^= expected[c];
        assert_eq!(rows, expected, "CX({c},{t})");
    }
}

#[test]
fn steiner_tree_folds_a_parity_onto_its_first_wire() {
    let topo = Topology::new(3, "0-1;1-2");
    let mut instr = Vec::new();
    let cx = steiner_parity_instructions(&topo, 0b101, 77, &mut instr);
    assert_eq!(cx, 4);
    assert_eq!(instr, vec!["cx 2,1", "cx 1,0", "rz 0,77", "cx 1,0", "cx 2,1"]);
    let mut single = Vec::new();
    assert_eq!(steiner_parity_instructions(&topo, 0b010, -5, &mut single), 0);
    assert_eq!(single, vec!["rz 1,-5"]);
}

#[test]
fn wide_engine_keeps_high_wires() {
    let mut s = id_pathsum_logic_128(100);
    s = apply_cx_logic_128(s, 99, 0);
    assert_eq!(s.out_state[0].terms, vec![1u128, 1u128 << 99]);
}

#[test]
fn sort_names() {
    assert_eq!(PathSumSort64.name(), "PathSum64");
    assert_eq!(PathSumSort128.name(), "PathSum128");
}

#[test]
fn steiner_tree_edges_join_neighbours_once() {
    let topo = Topology::new(5, "0-1;1-2;2-3;3-4;1-4");
    let edges = topo.steiner_tree_edges(&vec![0, 3, 4]);
    for (i, &(a, b)) in edges.iter().enumerate() {
        assert!(a < b);
        assert_eq!(topo.dist[a * 5 + b], 1, "({a},{b}) are not neighbours");
        assert!(!edges[..i].contains(&(a, b)));
    }
    assert!(!edges.is_empty());
}
