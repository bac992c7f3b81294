//! The evaluated path sum of a circuit and its gate rules.
//!
//! An operator on `n` qubits is `|x⟩ ↦ Σ_v ω^{P(x,v)} e^{iΘ(x,v)} |f(x,v)⟩`
//! with input variables `x` (bits `0..n`), path variables `v` (the following
//! bits), output rows `f` (`out_state`, GF(2) polynomials), a discrete phase
//! polynomial `P` over Z_8 and continuous parity phases `Θ`.
use vstd::prelude::*;
use std::collections::hash_map::RandomState;
use crate::boolean_poly::{BooleanPoly, occurrences};
use crate::sorted::{toggle, toggle_all, lemma_toggle_all_single, lemma_sorted_singleton};
use crate::phase_poly::{CanonicalPhasePoly, PackedPhaseTerm, batch_sum, lemma_batch_sum_concat, lemma_phase_of_range,
    lemma_batch_sum_nonneg};
use crate::continuous_poly::{ContinuousPhasePoly, ticks_of, affine_ticks};
use crate::expansion::{xor_expansion, push_xor_phase_expansion};
use crate::ticks::{TICKS_PER_PI_2, TICKS_PER_PI_4, TICKS_PER_TURN};

verus! {

/// `RandomState::new`: a hasher state with fresh keys.
#[verifier::external_body]
fn fresh_hasher_state() -> RandomState {
    RandomState::new()
}

/// `BuildHasher::hash_one` of the word 0 under a given hasher state.
#[verifier::external_body]
fn hash_of_zero(state: &RandomState) -> u64 {
    std::hash::BuildHasher::hash_one(state, 0u64)
}

/// A nonzero token that marks a state whose path-variable capacity ran out.
pub fn next_overflow_id() -> (r: u64)
    ensures
        r != 0,
{
    let h = hash_of_zero(&fresh_hasher_state());
    if h == 0 { 1 } else { h }
}

/// The single-bit monomials of `mask` below bit `n`, in increasing order.
pub open spec fn mask_bit_seq(mask: u128, n: int) -> Seq<u128>
    decreases n,
{
    if n <= 0 {
        Seq::empty()
    } else {
        mask_bit_seq(mask, n - 1) + if (mask >> ((n - 1) as u128)) & 1 == 1 {
            seq![1u128 << ((n - 1) as u128)]
        } else {
            Seq::empty()
        }
    }
}

/// The single-bit monomials of `mask`, in increasing order.
pub fn mask_bits(mask: u128) -> (r: Vec<u128>)
    ensures
        r@ == mask_bit_seq(mask, 128),
{
    let mut out: Vec<u128> = Vec::new();
    let mut b: u128 = 0;
    while b < 128
        invariant
            b <= 128,
            out@ == mask_bit_seq(mask, b as int),
        decreases 128 - b,
    {
        if (mask >> b) & 1 == 1 {
            out.push(1u128 << b);
        }
        b = b + 1;
    }
    out
}

/// The discrete terms that the even π/4 quotients `(parity, units)` promote.
pub open spec fn promotion_batch(ext: Seq<(u128, u8)>) -> Seq<PackedPhaseTerm>
    decreases ext.len(),
{
    if ext.len() == 0 {
        Seq::empty()
    } else {
        promotion_batch(ext.drop_last()) + xor_expansion(0, mask_bit_seq(ext.last().0, 128), ext.last().1)
    }
}

/// The even π/4 quotients taken out of the continuous polynomial `c`: one
/// entry per nonzero parity whose angle reaches π/2, in increasing mask
/// order, with `2 · ⌊angle / (π/2)⌋` units.
pub open spec fn cliffords_of(c: ContinuousPhasePoly, ext: Seq<(u128, u8)>) -> bool {
    &&& forall|i: int, j: int| 0 <= i < j < ext.len() ==> ext[i].0 < ext[j].0
    &&& forall|k: int| 0 <= k < ext.len() ==> (#[trigger] ext[k]).0 != 0 && ext[k].1 != 0
        && ext[k].1 as int == 2 * (c.angle(ext[k].0) / (TICKS_PER_PI_2 as int))
    &&& forall|x: u128| x != 0 && #[trigger] c.angle(x) >= TICKS_PER_PI_2 ==> exists|k: int| 0 <= k < ext.len() && #[trigger] ext[k].0 == x
}

/// `b` is `a` with the even π/4 quotients of its continuous angles moved
/// into the discrete polynomial: every angle is taken modulo π/2 and the
/// quotients land as expansions of their parities.
pub open spec fn promoted(a: EvaluatedPathSum, b: EvaluatedPathSum) -> bool {
    &&& forall|x: u128| #[trigger] b.continuous_poly.angle(x) == a.continuous_poly.angle(x) % (TICKS_PER_PI_2 as int)
    &&& exists|ext: Seq<(u128, u8)>| #![trigger cliffords_of(a.continuous_poly, ext)]
        cliffords_of(a.continuous_poly, ext)
        && forall|x: u128| #[trigger] b.phase_poly.coeff(x) == if x != 0 {
            (a.phase_poly.coeff(x) + batch_sum(promotion_batch(ext), x)) % 8
        } else {
            a.phase_poly.coeff(x)
        }
}

/// Promoting a path sum whose angles are all below π/2 moves nothing.
pub proof fn lemma_promoted_idle(a: EvaluatedPathSum, b: EvaluatedPathSum)
    requires
        a.wf(),
        promoted(a, b),
        forall|x: u128| #[trigger] a.continuous_poly.angle(x) < TICKS_PER_PI_2,
    ensures
        forall|x: u128| #[trigger] b.continuous_poly.angle(x) == a.continuous_poly.angle(x),
        forall|x: u128| #[trigger] b.phase_poly.coeff(x) == a.phase_poly.coeff(x),
{
    let ext = choose|ext: Seq<(u128, u8)>| #![trigger cliffords_of(a.continuous_poly, ext)]
        cliffords_of(a.continuous_poly, ext)
        && forall|x: u128| #[trigger] b.phase_poly.coeff(x) == if x != 0 {
            (a.phase_poly.coeff(x) + batch_sum(promotion_batch(ext), x)) % 8
        } else {
            a.phase_poly.coeff(x)
        };
    if ext.len() > 0 {
        let y = ext[0].0;
        crate::continuous_poly::lemma_angle_canonical(a.continuous_poly, y);
        assert(a.continuous_poly.angle(y) < TICKS_PER_PI_2);
        assert(false);
    }
    assert(promotion_batch(ext) =~= Seq::<PackedPhaseTerm>::empty());
    assert forall|x: u128| #[trigger] b.continuous_poly.angle(x) == a.continuous_poly.angle(x) by {
        crate::continuous_poly::lemma_angle_canonical(a.continuous_poly, x);
    }
    assert forall|x: u128| #[trigger] b.phase_poly.coeff(x) == a.phase_poly.coeff(x) by {
        lemma_phase_of_range(a.phase_poly.terms@, x);
        assert(batch_sum(promotion_batch(ext), x) == 0);
    }
}

/// `b` is `a` after a Hadamard on qubit `q` that found a free variable
/// `v`: row `q` becomes `v`, the other rows stay, and the discrete phase
/// gains `π · t · v` for every monomial `t` of the old row `q`.
pub open spec fn h_added(a: EvaluatedPathSum, q: int, b: EvaluatedPathSum) -> bool {
    let v = 1u128 << ((a.num_qubits + a.num_path_vars) as u128);
    &&& b.wf()
    &&& b.width == a.width
    &&& b.num_qubits == a.num_qubits
    &&& b.overflow_id == 0
    &&& b.num_path_vars == a.num_path_vars + 1
    &&& b.row(q) == Set::<u128>::empty().insert(v)
    &&& forall|i: int| 0 <= i < a.num_qubits && i != q ==> #[trigger] b.out_state@[i] == a.out_state@[i]
    &&& b.continuous_poly == a.continuous_poly
    &&& forall|x: u128| x != 0 ==> #[trigger] b.phase_poly.coeff(x)
        == (a.phase_poly.coeff(x) + batch_sum(hadamard_batch(a.out_state@[q].terms@, v), x)) % 8
}

/// The same quotients for the angles of `a` once `ticks` land on the parity
/// of output row `q`.
pub open spec fn cliffords_after_rz(a: EvaluatedPathSum, q: int, ticks: u32, ext: Seq<(u128, u8)>) -> bool {
    &&& forall|i: int, j: int| 0 <= i < j < ext.len() ==> ext[i].0 < ext[j].0
    &&& forall|k: int| 0 <= k < ext.len() ==> (#[trigger] ext[k]).0 != 0 && ext[k].1 != 0
        && ext[k].1 as int == 2 * (rz_total(a, q, ticks, ext[k].0) / (TICKS_PER_PI_2 as int))
    &&& forall|x: u128| x != 0 && #[trigger] rz_total(a, q, ticks, x) >= TICKS_PER_PI_2
        ==> exists|k: int| 0 <= k < ext.len() && #[trigger] ext[k].0 == x
}

/// The terms a Hadamard on a row with monomials `ts` adds: `π · t · v`.
pub open spec fn hadamard_batch(ts: Seq<u128>, v: u128) -> Seq<PackedPhaseTerm> {
    Seq::new(ts.len(), |i: int| PackedPhaseTerm { mono: ts[i] | v, ph: 4 })
}

/// Path sum of an operator (the identity to start with).
#[derive(Debug, Clone, PartialEq, Eq, Hash)]
pub struct EvaluatedPathSum {
    /// Word width of the engine (64 or 128): path variables live below
    /// bit `width - 3`.
    pub width: u32,
    /// Number of qubits `n`; inputs are the variables `0..n`.
    pub num_qubits: u32,
    /// Number of path variables, the variables `n..n + num_path_vars`.
    pub num_path_vars: u32,
    /// Output row of each qubit.
    pub out_state: Vec<BooleanPoly>,
    /// Discrete phase polynomial over Z_8.
    pub phase_poly: CanonicalPhasePoly,
    /// Continuous parity phases.
    pub continuous_poly: ContinuousPhasePoly,
    /// Nonzero once a Hadamard or SX found no free path variable: such a
    /// state is unique and never equal to another.
    pub overflow_id: u64,
}

/// `b` is `a` with `units · π/4` added on the parity of output row `q`:
/// every nonconstant monomial's coefficient grows by what the expansion of
/// that parity carries on it, modulo 8; rows, continuous phases and the
/// frame stay as they were.
pub open spec fn phase_added(a: EvaluatedPathSum, q: int, units: u8, b: EvaluatedPathSum) -> bool {
    &&& b.wf()
    &&& b.same_frame(&a)
    &&& b.out_state == a.out_state
    &&& b.continuous_poly == a.continuous_poly
    &&& forall|x: u128| #[trigger] b.phase_poly.coeff(x) == if x != 0 {
            (a.phase_poly.coeff(x) + batch_sum(xor_expansion(0, a.out_state@[q].terms@, units), x)) % 8
        } else {
            a.phase_poly.coeff(x)
        }
}

/// The angle on parity `x` once `ticks` land on the parity of output row
/// `q` of `a` (a constant term of the row flips the sign).
pub open spec fn rz_total(a: EvaluatedPathSum, q: int, ticks: u32, x: u128) -> int {
    if a.out_state@[q].terms@.len() > 0 && x == a.out_state@[q].variable_mask && x != 0 {
        (a.continuous_poly.angle(x) + affine_ticks(&a.out_state@[q], ticks)) % (TICKS_PER_TURN as int)
    } else {
        a.continuous_poly.angle(x)
    }
}

/// `b` is `a` with `ticks` added on the parity of output row `q` and the
/// even π/4 quotients of every angle promoted: the continuous angles are
/// the new totals modulo π/2, the quotients land in the discrete polynomial
/// as expansions of their parities, and rows and frame stay as they were.
pub open spec fn rz_added(a: EvaluatedPathSum, q: int, ticks: u32, b: EvaluatedPathSum) -> bool {
    &&& b.wf()
    &&& b.same_frame(&a)
    &&& b.out_state == a.out_state
    &&& forall|x: u128| #[trigger] b.continuous_poly.angle(x) == rz_total(a, q, ticks, x) % (TICKS_PER_PI_2 as int)
    &&& exists|ext: Seq<(u128, u8)>| #![trigger cliffords_after_rz(a, q, ticks, ext)]
        cliffords_after_rz(a, q, ticks, ext)
        && forall|x: u128| #[trigger] b.phase_poly.coeff(x) == if x != 0 {
            (a.phase_poly.coeff(x) + batch_sum(promotion_batch(ext), x)) % 8
        } else {
            a.phase_poly.coeff(x)
        }
}

impl EvaluatedPathSum {
    /// Internal consistency of a path sum.
    pub open spec fn wf(&self) -> bool {
        &&& self.width == 64 || self.width == 128
        &&& self.num_qubits <= self.width
        &&& self.num_qubits + self.num_path_vars <= self.width
        &&& self.out_state@.len() == self.num_qubits
        &&& forall|i: int| 0 <= i < self.out_state@.len() ==> (#[trigger] self.out_state@[i]).wf()
        &&& self.phase_poly.wf()
        &&& self.continuous_poly.wf()
    }

    /// Monomials of output row `q`.
    pub open spec fn row(&self, q: int) -> Set<u128> {
        self.out_state@[q].monomials()
    }

    /// Whether a Hadamard or SX ran out of path variables.
    pub fn is_overflowed(&self) -> (r: bool)
        ensures
            r == (self.overflow_id != 0),
    {
        self.overflow_id != 0
    }

    /// The identity operator `I_n`: `out_state[i] = x_i`, no phases.
    pub fn new_id(width: u32, num_qubits: u32) -> (r: Self)
        requires
            width == 64 || width == 128,
            num_qubits <= width,
        ensures
            r.wf(),
            r.width == width,
            r.num_qubits == num_qubits,
            r.num_path_vars == 0,
            r.overflow_id == 0,
            forall|i: int| 0 <= i < num_qubits ==> #[trigger] r.row(i) == Set::<u128>::empty().insert(1u128 << (i as u128)),
            r.phase_poly.terms@.len() == 0,
            r.continuous_poly.parities@.len() == 0,
    {
        let mut out_state: Vec<BooleanPoly> = Vec::new();
        let mut i: u32 = 0;
        while i < num_qubits
            invariant
                i <= num_qubits <= 128,
                out_state@.len() == i,
                forall|k: int| 0 <= k < i ==> (#[trigger] out_state@[k]).wf()
                    && out_state@[k].monomials() == Set::<u128>::empty().insert(1u128 << (k as u128)),
            decreases num_qubits - i,
        {
            let mut terms: Vec<u128> = Vec::new();
            terms.push(1u128 << i);
            let row = BooleanPoly::from_terms(terms);
            assert(terms@ == seq![1u128 << i]);
            proof {
                lemma_toggle_all_single(Set::empty(), 1u128 << i);
                assert(toggle(Set::<u128>::empty(), 1u128 << i) =~= Set::<u128>::empty().insert(1u128 << i));
            }
            out_state.push(row);
            i = i + 1;
        }
        EvaluatedPathSum {
            width,
            num_qubits,
            num_path_vars: 0,
            out_state,
            phase_poly: CanonicalPhasePoly::new(),
            continuous_poly: ContinuousPhasePoly::new(),
            overflow_id: 0,
        }
    }

    /// `X` on qubit `q`: the row gains (or loses) the constant term.
    pub fn apply_x(&mut self, q: usize)
        requires
            old(self).wf(),
            q < old(self).num_qubits,
        ensures
            final(self).wf(),
            final(self).row(q as int) == toggle(old(self).row(q as int), 0),
            forall|i: int| 0 <= i < old(self).num_qubits && i != q ==> #[trigger] final(self).row(i) == old(self).row(i),
            final(self).phase_poly == old(self).phase_poly,
            final(self).continuous_poly == old(self).continuous_poly,
            final(self).num_qubits == old(self).num_qubits,
            final(self).num_path_vars == old(self).num_path_vars,
            final(self).width == old(self).width,
            final(self).overflow_id == old(self).overflow_id,
    {
        let mut row = self.out_state[q].copy();
        let mut one: Vec<u128> = Vec::new();
        one.push(0);
        let c = BooleanPoly::from_terms(one);
        assert(one@ == seq![0u128]);
        proof {
            lemma_toggle_all_single(Set::empty(), 0);
            assert(toggle(Set::<u128>::empty(), 0) =~= Set::<u128>::empty().insert(0));
            lemma_sorted_singleton(c.terms@, 0);
            lemma_toggle_all_single(row.terms@.to_set(), 0);
        }
        row.add_assign(&c);
        self.out_state.set(q, row);
    }

    /// `CX` with control `qc` and target `qt`: row `qt` += row `qc`.
    pub fn apply_cx(&mut self, qc: usize, qt: usize)
        requires
            old(self).wf(),
            qc < old(self).num_qubits,
            qt < old(self).num_qubits,
            qc != qt,
        ensures
            final(self).wf(),
            final(self).row(qt as int) == toggle_all(old(self).row(qt as int), old(self).out_state@[qc as int].terms@),
            forall|i: int| 0 <= i < old(self).num_qubits && i != qt ==> #[trigger] final(self).row(i) == old(self).row(i),
            forall|i: int| 0 <= i < old(self).num_qubits && i != qt ==> #[trigger] final(self).out_state@[i] == old(self).out_state@[i],
            final(self).phase_poly == old(self).phase_poly,
            final(self).continuous_poly == old(self).continuous_poly,
            final(self).num_qubits == old(self).num_qubits,
            final(self).num_path_vars == old(self).num_path_vars,
            final(self).width == old(self).width,
            final(self).overflow_id == old(self).overflow_id,
    {
        let ctrl = self.out_state[qc].copy();
        let mut tgt = self.out_state[qt].copy();
        tgt.add_assign(&ctrl);
        self.out_state.set(qt, tgt);
    }

    /// Merge `c · (t_1 ⊕ … ⊕ t_n)` into the discrete phase polynomial.
    pub fn push_phase_expansion(&mut self, terms: &Vec<u128>, phase_units: u8)
        requires
            old(self).wf(),
        ensures
            final(self).wf(),
            forall|x: u128| #[trigger] final(self).phase_poly.coeff(x) == if x != 0 {
                (old(self).phase_poly.coeff(x) + batch_sum(xor_expansion(0, terms@, phase_units), x)) % 8
            } else {
                old(self).phase_poly.coeff(x)
            },
            final(self).out_state == old(self).out_state,
            final(self).continuous_poly == old(self).continuous_poly,
            final(self).num_qubits == old(self).num_qubits,
            final(self).num_path_vars == old(self).num_path_vars,
            final(self).width == old(self).width,
            final(self).overflow_id == old(self).overflow_id,
    {
        let mut batch: Vec<PackedPhaseTerm> = Vec::new();
        push_xor_phase_expansion(&mut batch, 0, terms, phase_units);
        assert(batch@ == xor_expansion(0, terms@, phase_units));
        self.phase_poly.merge_unsorted_batch(batch);
    }

    /// `Z` (π), `S` (π/2), `S†`, `T` (π/4) and `T†` on qubit `q`: the phase
    /// `units · π/4` on the row's parity.
    pub fn apply_phase_units(&mut self, q: usize, units: u8)
        requires
            old(self).wf(),
            q < old(self).num_qubits,
        ensures
            phase_added(*old(self), q as int, units, *final(self)),
    {
        let terms = self.out_state[q].terms.clone();
        self.push_phase_expansion(&terms, units);
    }

    /// `Z` on qubit `q` (4 units of π/4).
    pub fn apply_z(&mut self, q: usize)
        requires old(self).wf(), q < old(self).num_qubits,
        ensures phase_added(*old(self), q as int, 4, *final(self)),
    {
        self.apply_phase_units(q, 4);
    }

    /// `S` on qubit `q` (2 units).
    pub fn apply_s(&mut self, q: usize)
        requires old(self).wf(), q < old(self).num_qubits,
        ensures phase_added(*old(self), q as int, 2, *final(self)),
    {
        self.apply_phase_units(q, 2);
    }

    /// `S†` on qubit `q` (6 units).
    pub fn apply_sdg(&mut self, q: usize)
        requires old(self).wf(), q < old(self).num_qubits,
        ensures phase_added(*old(self), q as int, 6, *final(self)),
    {
        self.apply_phase_units(q, 6);
    }

    /// Whether a fresh path variable is still available.
    pub open spec fn has_capacity(&self) -> bool {
        self.num_qubits + self.num_path_vars < self.width - 3
    }

    /// `H` on qubit `q`: a fresh path variable `v` replaces the row `f`,
    /// and the phase gains `π · f · v`. Without a free variable the state
    /// is marked overflowed instead.
    pub fn apply_h(&mut self, q: usize)
        requires
            old(self).wf(),
            q < old(self).num_qubits,
        ensures
            final(self).wf(),
            final(self).num_qubits == old(self).num_qubits,
            final(self).width == old(self).width,
            old(self).overflow_id != 0 ==> *final(self) == *old(self),
            old(self).overflow_id == 0 && !old(self).has_capacity() ==> final(self).overflow_id != 0
                && final(self).out_state == old(self).out_state
                && final(self).phase_poly == old(self).phase_poly
                && final(self).num_path_vars == old(self).num_path_vars,
            old(self).overflow_id == 0 && old(self).has_capacity() ==> ({
                let v = 1u128 << ((old(self).num_qubits + old(self).num_path_vars) as u128);
                &&& final(self).overflow_id == 0
                &&& final(self).num_path_vars == old(self).num_path_vars + 1
                &&& final(self).row(q as int) == Set::<u128>::empty().insert(v)
                &&& forall|i: int| 0 <= i < old(self).num_qubits && i != q ==> #[trigger] final(self).out_state@[i] == old(self).out_state@[i]
                &&& final(self).continuous_poly == old(self).continuous_poly
                &&& forall|x: u128| x != 0 ==> #[trigger] final(self).phase_poly.coeff(x)
                    == (old(self).phase_poly.coeff(x) + batch_sum(hadamard_batch(old(self).out_state@[q as int].terms@, v), x)) % 8
            }),
    {
        if self.overflow_id != 0 {
            return;
        }
        let var_index = self.num_qubits + self.num_path_vars;
        if var_index >= self.width - 3 {
            self.overflow_id = next_overflow_id();
            return;
        }
        let v: u128 = 1u128 << var_index;
        self.num_path_vars = self.num_path_vars + 1;
        let old_row = self.out_state[q].copy();
        let mut vt: Vec<u128> = Vec::new();
        vt.push(v);
        assert(vt@ == seq![v]);
        let fresh = BooleanPoly::from_terms(vt);
        proof {
            lemma_toggle_all_single(Set::empty(), v);
            assert(toggle(Set::<u128>::empty(), v) =~= Set::<u128>::empty().insert(v));
        }
        self.out_state.set(q, fresh);
        let mut batch: Vec<PackedPhaseTerm> = Vec::new();
        let mut i: usize = 0;
        while i < old_row.terms.len()
            invariant
                i <= old_row.terms@.len(),
                batch@ == hadamard_batch(old_row.terms@.subrange(0, i as int), v),
            decreases old_row.terms@.len() - i,
        {
            batch.push(PackedPhaseTerm::create(old_row.terms[i] | v, 4));
            assert(batch@ =~= hadamard_batch(old_row.terms@.subrange(0, i + 1), v));
            i = i + 1;
        }
        assert(old_row.terms@.subrange(0, old_row.terms@.len() as int) == old_row.terms@);
        self.phase_poly.merge_unsorted_batch(batch);
    }

    /// `SX` on qubit `q`: a fresh path variable `v` is XORed into the row and
    /// the phase gains `3π/2 · v`. Without a free variable the state is
    /// marked overflowed instead.
    pub fn apply_sx(&mut self, q: usize)
        requires
            old(self).wf(),
            q < old(self).num_qubits,
        ensures
            final(self).wf(),
            final(self).num_qubits == old(self).num_qubits,
            final(self).width == old(self).width,
            old(self).overflow_id != 0 ==> *final(self) == *old(self),
            old(self).overflow_id == 0 && !old(self).has_capacity() ==> final(self).overflow_id != 0
                && final(self).out_state == old(self).out_state
                && final(self).phase_poly == old(self).phase_poly
                && final(self).num_path_vars == old(self).num_path_vars,
            old(self).overflow_id == 0 && old(self).has_capacity() ==> ({
                let v = 1u128 << ((old(self).num_qubits + old(self).num_path_vars) as u128);
                &&& final(self).overflow_id == 0
                &&& final(self).num_path_vars == old(self).num_path_vars + 1
                &&& final(self).row(q as int) == toggle(old(self).row(q as int), v)
                &&& forall|i: int| 0 <= i < old(self).num_qubits && i != q ==> #[trigger] final(self).out_state@[i] == old(self).out_state@[i]
                &&& final(self).continuous_poly == old(self).continuous_poly
                &&& forall|x: u128| x != 0 ==> #[trigger] final(self).phase_poly.coeff(x)
                    == (old(self).phase_poly.coeff(x) + if x == v { 6int } else { 0int }) % 8
            }),
    {
        if self.overflow_id != 0 {
            return;
        }
        let var_index = self.num_qubits + self.num_path_vars;
        if var_index >= self.width - 3 {
            self.overflow_id = next_overflow_id();
            return;
        }
        let v: u128 = 1u128 << var_index;
        self.num_path_vars = self.num_path_vars + 1;
        let mut row = self.out_state[q].copy();
        let mut vt: Vec<u128> = Vec::new();
        vt.push(v);
        assert(vt@ == seq![v]);
        let vp = BooleanPoly::from_terms(vt);
        proof {
            lemma_toggle_all_single(Set::empty(), v);
            assert(toggle(Set::<u128>::empty(), v) =~= Set::<u128>::empty().insert(v));
            lemma_sorted_singleton(vp.terms@, v);
            lemma_toggle_all_single(row.terms@.to_set(), v);
        }
        row.add_assign(&vp);
        self.out_state.set(q, row);
        let mut batch: Vec<PackedPhaseTerm> = Vec::new();
        batch.push(PackedPhaseTerm::create(v, 6));
        proof {
            reveal_with_fuel(batch_sum, 2);
            assert(batch@.drop_last() == Seq::<PackedPhaseTerm>::empty());
            assert forall|x: u128| batch_sum(batch@, x) == if x == v { 6int } else { 0int } by {}
        }
        self.phase_poly.merge_unsorted_batch(batch);
    }

    /// Move the even π/4 quotients of the continuous angles into the
    /// discrete polynomial; true when anything moved.
    pub fn promote_cliffords(&mut self) -> (r: bool)
        requires
            old(self).wf(),
        ensures
            final(self).wf(),
            forall|x: u128| #[trigger] final(self).continuous_poly.angle(x)
                == old(self).continuous_poly.angle(x) % (TICKS_PER_PI_2 as int),
            final(self).out_state == old(self).out_state,
            final(self).num_qubits == old(self).num_qubits,
            final(self).num_path_vars == old(self).num_path_vars,
            final(self).width == old(self).width,
            final(self).overflow_id == old(self).overflow_id,
            exists|ext: Seq<(u128, u8)>| #![trigger cliffords_of(old(self).continuous_poly, ext)]
                cliffords_of(old(self).continuous_poly, ext)
                && (r <==> ext.len() > 0)
                && forall|x: u128| #[trigger] final(self).phase_poly.coeff(x) == if x != 0 {
                    (old(self).phase_poly.coeff(x) + batch_sum(promotion_batch(ext), x)) % 8
                } else {
                    old(self).phase_poly.coeff(x)
                },
            promoted(*old(self), *final(self)),
    {
        let ghost c0 = self.continuous_poly;
        let ext = self.continuous_poly.extract_cliffords();
        proof {
            assert(cliffords_of(c0, ext@));
        }
        let mut i: usize = 0;
        while i < ext.len()
            invariant
                i <= ext@.len(),
                self.wf(),
                old(self).wf(),
                self.out_state == old(self).out_state,
                self.num_qubits == old(self).num_qubits,
                self.num_path_vars == old(self).num_path_vars,
                self.width == old(self).width,
                self.overflow_id == old(self).overflow_id,
                forall|x: u128| #[trigger] self.continuous_poly.angle(x)
                    == old(self).continuous_poly.angle(x) % (TICKS_PER_PI_2 as int),
                forall|x: u128| #[trigger] self.phase_poly.coeff(x) == if x != 0 {
                    (old(self).phase_poly.coeff(x) + batch_sum(promotion_batch(ext@.subrange(0, i as int)), x)) % 8
                } else {
                    old(self).phase_poly.coeff(x)
                },
            decreases ext@.len() - i,
        {
            let (mask, units) = ext[i];
            let bits = mask_bits(mask);
            let ghost before = *self;
            self.push_phase_expansion(&bits, units);
            proof {
                let pre = ext@.subrange(0, i as int);
                let nxt = ext@.subrange(0, i + 1);
                assert(nxt.drop_last() =~= pre);
                assert(nxt.last() == (mask, units));
                lemma_batch_sum_concat(promotion_batch(pre), xor_expansion(0, mask_bit_seq(mask, 128), units), 0);
                assert forall|x: u128| #[trigger] self.phase_poly.coeff(x) == if x != 0 {
                    (old(self).phase_poly.coeff(x) + batch_sum(promotion_batch(nxt), x)) % 8
                } else {
                    old(self).phase_poly.coeff(x)
                } by {
                    if x != 0 {
                        lemma_batch_sum_concat(promotion_batch(pre), xor_expansion(0, mask_bit_seq(mask, 128), units), x);
                        let o = old(self).phase_poly.coeff(x);
                        let p = batch_sum(promotion_batch(pre), x);
                        let b = batch_sum(xor_expansion(0, mask_bit_seq(mask, 128), units), x);
                        lemma_phase_of_range(old(self).phase_poly.terms@, x);
                        lemma_batch_sum_nonneg(promotion_batch(pre), x);
                        lemma_batch_sum_nonneg(xor_expansion(0, mask_bit_seq(mask, 128), units), x);
                        assert(((o + p) % 8 + b) % 8 == (o + (p + b)) % 8) by (nonlinear_arith)
                            requires o >= 0, p >= 0, b >= 0;
                    }
                }
            }
            i = i + 1;
        }
        proof {
            assert(ext@.subrange(0, ext@.len() as int) =~= ext@);
            assert(cliffords_of(old(self).continuous_poly, ext@));
            assert(forall|x: u128| #[trigger] self.phase_poly.coeff(x) == if x != 0 {
                (old(self).phase_poly.coeff(x) + batch_sum(promotion_batch(ext@), x)) % 8
            } else {
                old(self).phase_poly.coeff(x)
            });
        }
        ext.len() > 0
    }

    /// `RZ` by `ticks` on qubit `q`: the angle lands on the row's parity, then
    /// even π/4 quotients are promoted.
    pub fn apply_rz_ticks(&mut self, q: usize, ticks: u32)
        requires
            old(self).wf(),
            q < old(self).num_qubits,
        ensures
            rz_added(*old(self), q as int, ticks, *final(self)),
    {
        let ghost a = *self;
        let row = self.out_state[q].copy();
        assert(affine_ticks(&row, ticks) == affine_ticks(&self.out_state@[q as int], ticks));
        self.continuous_poly.apply_ticks(&row, ticks);
        let ghost s1 = *self;
        proof {
            assert forall|x: u128| #[trigger] s1.continuous_poly.angle(x) == rz_total(a, q as int, ticks, x) by {}
            assert(s1.phase_poly == a.phase_poly);
        }
        self.promote_cliffords();
        proof {
            let ext = choose|ext: Seq<(u128, u8)>| #![trigger cliffords_of(s1.continuous_poly, ext)]
                cliffords_of(s1.continuous_poly, ext)
                && forall|x: u128| #[trigger] self.phase_poly.coeff(x) == if x != 0 {
                    (s1.phase_poly.coeff(x) + batch_sum(promotion_batch(ext), x)) % 8
                } else {
                    s1.phase_poly.coeff(x)
                };
            assert forall|k: int| 0 <= k < ext.len() implies (#[trigger] ext[k]).0 != 0 && ext[k].1 != 0
                && ext[k].1 as int == 2 * (rz_total(a, q as int, ticks, ext[k].0) / (TICKS_PER_PI_2 as int)) by {
                assert(s1.continuous_poly.angle(ext[k].0) == rz_total(a, q as int, ticks, ext[k].0));
            }
            assert forall|x: u128| x != 0 && #[trigger] rz_total(a, q as int, ticks, x) >= TICKS_PER_PI_2
                implies exists|k: int| 0 <= k < ext.len() && #[trigger] ext[k].0 == x by {
                assert(s1.continuous_poly.angle(x) == rz_total(a, q as int, ticks, x));
            }
            assert(cliffords_after_rz(a, q as int, ticks, ext));
        }
    }

    /// `T` on qubit `q`: π/4 on the row's parity. The angle joins the
    /// continuous polynomial, so `RZ(θ)·T`, `T·RZ(θ)` and `RZ(θ + π/4)` on
    /// one parity give the same path sum.
    pub fn apply_t(&mut self, q: usize)
        requires
            old(self).wf(),
            q < old(self).num_qubits,
        ensures
            rz_added(*old(self), q as int, TICKS_PER_PI_4 as u32, *final(self)),
    {
        self.apply_rz_ticks(q, TICKS_PER_PI_4 as u32);
    }

    /// `T†` on qubit `q`: 7π/4 on the row's parity (its `S†` part is
    /// promoted, π/4 stays continuous).
    pub fn apply_tdg(&mut self, q: usize)
        requires
            old(self).wf(),
            q < old(self).num_qubits,
        ensures
            rz_added(*old(self), q as int, (7 * TICKS_PER_PI_4) as u32, *final(self)),
    {
        self.apply_rz_ticks(q, (7 * TICKS_PER_PI_4) as u32);
    }
}

} // verus!
