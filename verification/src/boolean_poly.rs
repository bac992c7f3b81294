//! Polynomials over GF(2) in algebraic normal form.
//!
//! A polynomial is a set of monomials; a monomial is a bitmask of variables
//! (`0` is the constant 1). Addition is symmetric difference.
use vstd::prelude::*;
use crate::sorted::{strictly_sorted, toggle, toggle_all, toggle_sorted, contains_sorted};

verus! {

/// Bitwise OR of every word of `s`.
pub open spec fn or_fold(s: Seq<u128>) -> u128
    decreases s.len(),
{
    if s.len() == 0 {
        0
    } else {
        or_fold(s.drop_last()) | s.last()
    }
}

/// How often `x` occurs in `s`.
pub open spec fn occurrences(s: Seq<u128>, x: u128) -> nat
    decreases s.len(),
{
    if s.len() == 0 {
        0
    } else {
        occurrences(s.drop_last(), x) + if s.last() == x { 1nat } else { 0nat }
    }
}

/// Toggling the monomials of `ts` into `s` keeps exactly the monomials whose
/// membership in `s` differs from the parity of their count in `ts`.
pub proof fn lemma_toggle_all_parity(s: Set<u128>, ts: Seq<u128>, x: u128)
    ensures
        toggle_all(s, ts).contains(x) == (s.contains(x) != (occurrences(ts, x) % 2 == 1)),
    decreases ts.len(),
{
    if ts.len() > 0 {
        lemma_toggle_all_parity(s, ts.drop_last(), x);
    }
}

/// Adding the same monomial list twice is the identity (characteristic 2).
pub proof fn lemma_toggle_all_twice(s: Set<u128>, ts: Seq<u128>)
    ensures
        toggle_all(toggle_all(s, ts), ts) == s,
{
    assert forall|x: u128| toggle_all(toggle_all(s, ts), ts).contains(x) == s.contains(x) by {
        lemma_toggle_all_parity(toggle_all(s, ts), ts, x);
        lemma_toggle_all_parity(s, ts, x);
    }
    assert(toggle_all(toggle_all(s, ts), ts) =~= s);
}

/// Whether the affine polynomial encoded by `mask` has monomial `t`: bit 127
/// stands for the constant term, bit `b < 127` for the variable `x_b`.
pub open spec fn mask_has_monomial(mask: u128, t: u128) -> bool {
    (t == 0 && (mask >> 127u128) & 1 == 1)
    || exists|b: u128| b < 127 && t == 1u128 << b && (mask >> b) & 1 == 1
}

/// A multilinear polynomial over GF(2): the XOR of its monomials.
#[derive(Debug, Clone, PartialEq, Eq, Hash, PartialOrd, Ord)]
pub struct BooleanPoly {
    /// Monomials, strictly increasing.
    pub terms: Vec<u128>,
    /// OR of all monomials: every variable that occurs.
    pub variable_mask: u128,
}

/// OR of the words of `v`.
pub fn or_of(v: &Vec<u128>) -> (r: u128)
    ensures
        r == or_fold(v@),
{
    let mut acc: u128 = 0;
    let mut i: usize = 0;
    while i < v.len()
        invariant
            i <= v.len(),
            acc == or_fold(v@.subrange(0, i as int)),
        decreases v.len() - i,
    {
        assert(v@.subrange(0, i + 1).drop_last() == v@.subrange(0, i as int));
        acc = acc | v[i];
        i = i + 1;
    }
    assert(v@.subrange(0, v.len() as int) == v@);
    acc
}

impl BooleanPoly {
    /// Terms strictly sorted and the variable mask up to date.
    pub open spec fn wf(&self) -> bool {
        &&& strictly_sorted(self.terms@)
        &&& self.variable_mask == or_fold(self.terms@)
    }

    /// The set of monomials.
    pub open spec fn monomials(&self) -> Set<u128> {
        self.terms@.to_set()
    }

    /// The zero polynomial.
    pub fn zero() -> (r: Self)
        ensures
            r.wf(),
            r.terms@ == Seq::<u128>::empty(),
    {
        BooleanPoly { terms: Vec::new(), variable_mask: 0 }
    }

    /// GF(2) sum of the given monomials: repeated monomials cancel in pairs.
    pub fn from_terms(terms: Vec<u128>) -> (r: Self)
        ensures
            r.wf(),
            r.monomials() == toggle_all(Set::empty(), terms@),
    {
        let mut out: Vec<u128> = Vec::new();
        let mut i: usize = 0;
        while i < terms.len()
            invariant
                i <= terms.len(),
                strictly_sorted(out@),
                out@.to_set() == toggle_all(Set::empty(), terms@.subrange(0, i as int)),
            decreases terms.len() - i,
        {
            toggle_sorted(&mut out, terms[i]);
            assert(terms@.subrange(0, i + 1).drop_last() == terms@.subrange(0, i as int));
            i = i + 1;
        }
        assert(terms@.subrange(0, terms.len() as int) == terms@);
        let m = or_of(&out);
        BooleanPoly { terms: out, variable_mask: m }
    }

    /// `self += other` over GF(2).
    pub fn add_assign(&mut self, other: &Self)
        requires
            old(self).wf(),
        ensures
            final(self).wf(),
            final(self).monomials() == toggle_all(old(self).monomials(), other.terms@),
    {
        let ghost s0 = self.monomials();
        let mut i: usize = 0;
        while i < other.terms.len()
            invariant
                i <= other.terms.len(),
                strictly_sorted(self.terms@),
                self.terms@.to_set() == toggle_all(s0, other.terms@.subrange(0, i as int)),
            decreases other.terms.len() - i,
        {
            toggle_sorted(&mut self.terms, other.terms[i]);
            assert(other.terms@.subrange(0, i + 1).drop_last() == other.terms@.subrange(0, i as int));
            i = i + 1;
        }
        assert(other.terms@.subrange(0, other.terms.len() as int) == other.terms@);
        self.variable_mask = or_of(&self.terms);
    }

    /// The affine polynomial encoded by a mask: bit 127 is the constant term,
    /// every other set bit `b` is the linear monomial `x_b`.
    pub fn from_mask(mask: u128) -> (r: Self)
        ensures
            r.wf(),
            forall|t: u128| #[trigger] r.monomials().contains(t) <==> mask_has_monomial(mask, t),
    {
        let mut out: Vec<u128> = Vec::new();
        if (mask >> 127u128) & 1 == 1 {
            out.push(0);
        }
        let mut i: u128 = 0;
        assert(0u128 < (1u128 << 0u128)) by (bit_vector);
        assert forall|t: u128| #[trigger] out@.contains(t) <==> (
            (t == 0 && (mask >> 127u128) & 1 == 1)
            || exists|b: u128| b < 0 && t == 1u128 << b && (mask >> b) & 1 == 1) by {
            if out@.contains(t) { assert(out@[0] == t); }
            if t == 0 && (mask >> 127u128) & 1 == 1 { assert(out@[0] == 0); }
        }
        while i < 127
            invariant
                i <= 127,
                strictly_sorted(out@),
                forall|k: int| 0 <= k < out@.len() ==> out@[k] < (1u128 << i),
                forall|t: u128| #[trigger] out@.contains(t) <==> (
                    (t == 0 && (mask >> 127u128) & 1 == 1)
                    || exists|b: u128| b < i && t == 1u128 << b && (mask >> b) & 1 == 1),
            decreases 127 - i,
        {
            let bit: u128 = 1u128 << i;
            assert(bit > 0 && bit < (1u128 << ((i + 1) as u128))) by (bit_vector)
                requires i < 127, bit == 1u128 << i;
            if (mask >> i) & 1 == 1 {
                let ghost o = out@;
                out.push(bit);
                assert forall|t: u128| #[trigger] out@.contains(t) <==> (
                    (t == 0 && (mask >> 127u128) & 1 == 1)
                    || exists|b: u128| b < i + 1 && t == 1u128 << b && (mask >> b) & 1 == 1) by {
                    if out@.contains(t) {
                        let k = choose|k: int| 0 <= k < out@.len() && out@[k] == t;
                        if k < o.len() { assert(o.contains(t)); }
                    }
                    if exists|b: u128| b < i + 1 && t == 1u128 << b && (mask >> b) & 1 == 1 {
                        let b = choose|b: u128| b < i + 1 && t == 1u128 << b && (mask >> b) & 1 == 1;
                        if b < i { assert(o.contains(t)); assert(out@[o.index_of(t)] == t); }
                        else { assert(out@[o.len() as int] == t); }
                    }
                    if t == 0 && (mask >> 127u128) & 1 == 1 { assert(o.contains(t)); assert(out@[o.index_of(t)] == t); }
                }
            } else {
                assert forall|t: u128| #[trigger] out@.contains(t) <==> (
                    (t == 0 && (mask >> 127u128) & 1 == 1)
                    || exists|b: u128| b < i + 1 && t == 1u128 << b && (mask >> b) & 1 == 1) by {
                    if exists|b: u128| b < i + 1 && t == 1u128 << b && (mask >> b) & 1 == 1 {
                        let b = choose|b: u128| b < i + 1 && t == 1u128 << b && (mask >> b) & 1 == 1;
                        assert(b != i);
                    }
                }
            }
            assert forall|k: int| 0 <= k < out@.len() implies out@[k] < (1u128 << ((i + 1) as u128)) by {
            }
            i = i + 1;
        }
        let m = or_of(&out);
        let r = BooleanPoly { terms: out, variable_mask: m };
        assert forall|t: u128| #[trigger] r.monomials().contains(t) <==> mask_has_monomial(mask, t) by {
            assert(r.monomials().contains(t) == r.terms@.contains(t));
        }
        r
    }

    /// A copy of this polynomial.
    pub fn copy(&self) -> (r: Self)
        ensures
            r.terms@ == self.terms@,
            r.variable_mask == self.variable_mask,
    {
        BooleanPoly { terms: self.terms.clone(), variable_mask: self.variable_mask }
    }

    /// Whether monomial `t` occurs.
    pub fn contains(&self, t: u128) -> (r: bool)
        requires
            self.wf(),
        ensures
            r == self.monomials().contains(t),
    {
        contains_sorted(&self.terms, t)
    }
}

} // verus!
