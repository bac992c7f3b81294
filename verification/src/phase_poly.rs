//! Discrete phase polynomials with coefficients in Z_8 (units of π/4).
use vstd::prelude::*;

verus! {

/// One term `phase · π/4 · monomial` of a discrete phase polynomial.
#[derive(Debug, Clone, Copy, PartialEq, Eq, Hash)]
pub struct PackedPhaseTerm {
    /// Variable bitmask of the monomial (`0` is the constant 1).
    pub mono: u128,
    /// Coefficient in units of π/4, in `0..8`.
    pub ph: u8,
}

impl PackedPhaseTerm {
    /// A term with the phase reduced modulo 8.
    pub fn create(monomial: u128, phase: u8) -> (r: Self)
        ensures
            r.mono == monomial,
            r.ph == phase % 8,
    {
        PackedPhaseTerm { mono: monomial, ph: phase % 8 }
    }

    /// The monomial of this term.
    pub fn monomial(&self) -> (r: u128)
        ensures
            r == self.mono,
    {
        self.mono
    }

    /// The coefficient of this term in units of π/4.
    pub fn phase(&self) -> (r: u8)
        ensures
            r == self.ph,
    {
        self.ph
    }
}

/// Coefficient of monomial `m` in a term list whose monomials are distinct
/// (`0` when absent).
pub open spec fn phase_of(s: Seq<PackedPhaseTerm>, m: u128) -> int {
    if exists|i: int| 0 <= i < s.len() && s[i].mono == m {
        s[choose|i: int| 0 <= i < s.len() && s[i].mono == m].ph as int
    } else {
        0
    }
}

/// Sum of the coefficients that `batch` carries on monomial `m`.
pub open spec fn batch_sum(batch: Seq<PackedPhaseTerm>, m: u128) -> int
    decreases batch.len(),
{
    if batch.len() == 0 {
        0
    } else {
        batch_sum(batch.drop_last(), m) + if batch.last().mono == m { batch.last().ph as int } else { 0 }
    }
}

/// The coefficients of a concatenation add up.
pub proof fn lemma_batch_sum_concat(a: Seq<PackedPhaseTerm>, b: Seq<PackedPhaseTerm>, m: u128)
    ensures
        batch_sum(a + b, m) == batch_sum(a, m) + batch_sum(b, m),
    decreases b.len(),
{
    if b.len() == 0 {
        assert(a + b == a);
    } else {
        assert((a + b).drop_last() == a + b.drop_last());
        lemma_batch_sum_concat(a, b.drop_last(), m);
    }
}

/// Coefficient totals are never negative.
pub proof fn lemma_batch_sum_nonneg(batch: Seq<PackedPhaseTerm>, m: u128)
    ensures
        batch_sum(batch, m) >= 0,
    decreases batch.len(),
{
    if batch.len() > 0 {
        lemma_batch_sum_nonneg(batch.drop_last(), m);
    }
}

/// Every coefficient is a residue in `0..8`.
pub proof fn lemma_phase_of_range(s: Seq<PackedPhaseTerm>, m: u128)
    requires
        canonical_terms(s),
    ensures
        0 <= phase_of(s, m) < 8,
{
    if exists|i: int| 0 <= i < s.len() && s[i].mono == m {
        let k = choose|i: int| 0 <= i < s.len() && s[i].mono == m;
        assert(1 <= s[k].ph < 8);
    }
}

/// In a canonical list each monomial occurs at most once, so the total on
/// a monomial is its coefficient.
pub proof fn lemma_batch_sum_canonical(s: Seq<PackedPhaseTerm>, m: u128)
    requires
        canonical_terms(s),
    ensures
        batch_sum(s, m) == phase_of(s, m),
    decreases s.len(),
{
    if s.len() > 0 {
        let init = s.drop_last();
        assert(canonical_terms(init)) by {
            assert forall|i: int, j: int| 0 <= i < j < init.len() implies init[i].mono < init[j].mono by {
                assert(init[i] == s[i] && init[j] == s[j]);
            }
            assert forall|i: int| 0 <= i < init.len() implies 1 <= #[trigger] init[i].ph < 8 && init[i].mono != 0 by {
                assert(init[i] == s[i]);
            }
        }
        lemma_batch_sum_canonical(init, m);
        let l = s.len() - 1;
        if s[l].mono == m {
            assert(!(exists|i: int| 0 <= i < init.len() && init[i].mono == m)) by {
                if exists|i: int| 0 <= i < init.len() && init[i].mono == m {
                    let i = choose|i: int| 0 <= i < init.len() && init[i].mono == m;
                    assert(s[i].mono < s[l].mono);
                }
            }
            let k = choose|i: int| 0 <= i < s.len() && s[i].mono == m;
            if k != l {
                if k < l { assert(s[k].mono < s[l].mono); }
            }
        } else {
            if exists|i: int| 0 <= i < s.len() && s[i].mono == m {
                let k = choose|i: int| 0 <= i < s.len() && s[i].mono == m;
                assert(k < l);
                assert(init[k].mono == m);
                let k2 = choose|i: int| 0 <= i < init.len() && init[i].mono == m;
                if k2 != k {
                    if k2 < k { assert(s[k2].mono < s[k].mono); } else { assert(s[k].mono < s[k2].mono); }
                }
            } else {
                assert(!(exists|i: int| 0 <= i < init.len() && init[i].mono == m)) by {
                    if exists|i: int| 0 <= i < init.len() && init[i].mono == m {
                        let i = choose|i: int| 0 <= i < init.len() && init[i].mono == m;
                        assert(s[i].mono == m);
                    }
                }
            }
        }
    }
}

/// Canonical form: monomials strictly increasing, none of them the constant
/// (global phase is dropped), every coefficient in `1..8`.
pub open spec fn canonical_terms(s: Seq<PackedPhaseTerm>) -> bool {
    &&& forall|i: int, j: int| 0 <= i < j < s.len() ==> s[i].mono < s[j].mono
    &&& forall|i: int| 0 <= i < s.len() ==> 1 <= #[trigger] s[i].ph < 8 && s[i].mono != 0
}

/// Discrete phase polynomial `Σ c_M · M` over Z_8, kept canonical.
#[derive(Debug, Clone, PartialEq, Eq, Hash)]
pub struct CanonicalPhasePoly {
    /// Terms in canonical form.
    pub terms: Vec<PackedPhaseTerm>,
}

impl CanonicalPhasePoly {
    /// The terms are canonical.
    pub open spec fn wf(&self) -> bool {
        canonical_terms(self.terms@)
    }

    /// Coefficient of monomial `m`.
    pub open spec fn coeff(&self, m: u128) -> int {
        phase_of(self.terms@, m)
    }

    /// The zero polynomial.
    pub fn new() -> (r: Self)
        ensures
            r.wf(),
            r.terms@.len() == 0,
    {
        CanonicalPhasePoly { terms: Vec::new() }
    }

    /// Binary search by monomial.
    fn search(&self, m: u128) -> (r: (bool, usize))
        requires
            self.wf(),
        ensures
            r.1 <= self.terms.len(),
            r.0 ==> r.1 < self.terms.len() && self.terms@[r.1 as int].mono == m,
            !r.0 ==> forall|i: int| 0 <= i < self.terms.len() ==> self.terms@[i].mono != m,
            forall|i: int| 0 <= i < r.1 ==> self.terms@[i].mono < m,
            forall|i: int| r.1 < i < self.terms.len() ==> m < self.terms@[i].mono,
            !r.0 ==> forall|i: int| r.1 <= i < self.terms.len() ==> m < self.terms@[i].mono,
    {
        let mut lo: usize = 0;
        let mut hi: usize = self.terms.len();
        while lo < hi
            invariant
                self.wf(),
                lo <= hi <= self.terms.len(),
                forall|i: int| 0 <= i < lo ==> self.terms@[i].mono < m,
                forall|i: int| hi <= i < self.terms.len() ==> m < self.terms@[i].mono,
            decreases hi - lo,
        {
            let mid = lo + (hi - lo) / 2;
            let mm = self.terms[mid].mono;
            if mm < m {
                lo = mid + 1;
            } else if mm > m {
                hi = mid;
            } else {
                return (true, mid);
            }
        }
        (false, lo)
    }

    /// Add `phase · π/4` on monomial `m` (a constant monomial is a global
    /// phase and is dropped).
    pub fn add_term(&mut self, m: u128, phase: u8)
        requires
            old(self).wf(),
        ensures
            final(self).wf(),
            forall|x: u128| #[trigger] final(self).coeff(x) == if x == m && m != 0 {
                (old(self).coeff(x) + phase) % 8
            } else {
                old(self).coeff(x)
            },
    {
        let ghost s0 = self.terms@;
        if m == 0 {
            return;
        }
        let (found, pos) = self.search(m);
        if found {
            let cur = self.terms[pos].ph;
            let sum: u8 = ((cur as u16 + phase as u16) % 8) as u8;
            assert(phase_of(s0, m) == cur) by {
                let k = choose|i: int| 0 <= i < s0.len() && s0[i].mono == m;
                assert(k == pos);
            }
            if sum == 0 {
                self.terms.remove(pos);
                assert(self.terms@ == s0.remove(pos as int));
                assert forall|x: u128| #[trigger] phase_of(self.terms@, x) == if x == m && m != 0 {
                    (phase_of(s0, x) + phase) % 8
                } else {
                    phase_of(s0, x)
                } by {
                    let t = self.terms@;
                    if x != m {
                        if exists|i: int| 0 <= i < s0.len() && s0[i].mono == x {
                            let k = choose|i: int| 0 <= i < s0.len() && s0[i].mono == x;
                            let k2: int = if k < pos { k } else { k - 1 };
                            assert(t[k2].mono == x);
                            let c = choose|i: int| 0 <= i < t.len() && t[i].mono == x;
                            assert(c == k2);
                        } else {
                            assert forall|i: int| 0 <= i < t.len() implies t[i].mono != x by {
                                if i < pos { assert(t[i] == s0[i]); } else { assert(t[i] == s0[i + 1]); }
                            }
                        }
                    } else {
                        assert forall|i: int| 0 <= i < t.len() implies t[i].mono != x by {
                            if i < pos { assert(t[i] == s0[i]); } else { assert(t[i] == s0[i + 1]); }
                        }
                    }
                }
            } else {
                self.terms.set(pos, PackedPhaseTerm { mono: m, ph: sum });
                assert forall|x: u128| #[trigger] phase_of(self.terms@, x) == if x == m && m != 0 {
                    (phase_of(s0, x) + phase) % 8
                } else {
                    phase_of(s0, x)
                } by {
                    let t = self.terms@;
                    if exists|i: int| 0 <= i < s0.len() && s0[i].mono == x {
                        let k = choose|i: int| 0 <= i < s0.len() && s0[i].mono == x;
                        assert(t[k].mono == x);
                        let c = choose|i: int| 0 <= i < t.len() && t[i].mono == x;
                        assert(c == k);
                    } else {
                        assert(x != m);
                        assert forall|i: int| 0 <= i < t.len() implies t[i].mono != x by {
                            assert(i == pos || t[i] == s0[i]);
                        }
                    }
                }
            }
        } else {
            let p: u8 = phase % 8;
            if p != 0 {
                self.terms.insert(pos, PackedPhaseTerm { mono: m, ph: p });
                assert(self.terms@ == s0.insert(pos as int, PackedPhaseTerm { mono: m, ph: p }));
                assert forall|x: u128| #[trigger] phase_of(self.terms@, x) == if x == m && m != 0 {
                    (phase_of(s0, x) + phase) % 8
                } else {
                    phase_of(s0, x)
                } by {
                    let t = self.terms@;
                    if x == m {
                        assert(t[pos as int].mono == x);
                        let c = choose|i: int| 0 <= i < t.len() && t[i].mono == x;
                        assert(c == pos);
                    } else if exists|i: int| 0 <= i < s0.len() && s0[i].mono == x {
                        let k = choose|i: int| 0 <= i < s0.len() && s0[i].mono == x;
                        let k2: int = if k < pos { k } else { k + 1 };
                        assert(t[k2].mono == x);
                        let c = choose|i: int| 0 <= i < t.len() && t[i].mono == x;
                        assert(c == k2);
                    } else {
                        assert forall|i: int| 0 <= i < t.len() implies t[i].mono != x by {
                            if i < pos { assert(t[i] == s0[i]); } else if i > pos { assert(t[i] == s0[i - 1]); }
                        }
                    }
                }
            } else {
                assert(phase_of(s0, m) == 0);
            }
        }
    }

    /// Add every term of `batch` (in any order, monomials may repeat).
    pub fn merge_unsorted_batch(&mut self, batch: Vec<PackedPhaseTerm>)
        requires
            old(self).wf(),
        ensures
            final(self).wf(),
            forall|x: u128| #[trigger] final(self).coeff(x) == if x != 0 {
                (old(self).coeff(x) + batch_sum(batch@, x)) % 8
            } else {
                old(self).coeff(x)
            },
    {
        let ghost s0 = *self;
        let mut i: usize = 0;
        while i < batch.len()
            invariant
                i <= batch.len(),
                self.wf(),
                s0.wf(),
                forall|x: u128| #[trigger] self.coeff(x) == if x != 0 {
                    (s0.coeff(x) + batch_sum(batch@.subrange(0, i as int), x)) % 8
                } else {
                    s0.coeff(x)
                },
            decreases batch.len() - i,
        {
            let t = batch[i];
            let ghost before = *self;
            self.add_term(t.mono, t.ph);
            assert(batch@.subrange(0, i + 1).drop_last() == batch@.subrange(0, i as int));
            assert forall|x: u128| #[trigger] self.coeff(x) == if x != 0 {
                (s0.coeff(x) + batch_sum(batch@.subrange(0, i + 1), x)) % 8
            } else {
                s0.coeff(x)
            } by {
                if x != 0 {
                    let a = s0.coeff(x) + batch_sum(batch@.subrange(0, i as int), x);
                    if x == t.mono {
                        assert((a % 8 + t.ph) % 8 == (a + t.ph) % 8) by (nonlinear_arith);
                    }
                }
            }
            i = i + 1;
        }
        assert(batch@.subrange(0, batch.len() as int) == batch@);
    }

    /// `self += other`.
    pub fn add_assign(&mut self, other: &Self)
        requires
            old(self).wf(),
        ensures
            final(self).wf(),
            forall|x: u128| #[trigger] final(self).coeff(x) == if x != 0 {
                (old(self).coeff(x) + batch_sum(other.terms@, x)) % 8
            } else {
                old(self).coeff(x)
            },
    {
        let batch = other.terms.clone();
        assert(batch@ == other.terms@);
        self.merge_unsorted_batch(batch);
    }
}

} // verus!
