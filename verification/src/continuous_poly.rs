//! Non-Clifford phase content in the parity basis, on the tick lattice.
use vstd::prelude::*;
use crate::ticks::{TICKS_PER_TURN, TICKS_PER_PI_2, add_ticks, negate_ticks};
use crate::boolean_poly::BooleanPoly;

verus! {

/// Ticks carried by parity `p` in aligned vectors whose parities are
/// distinct (`0` when absent).
pub open spec fn ticks_of(parities: Seq<u128>, phases: Seq<u32>, p: u128) -> int {
    if exists|i: int| 0 <= i < parities.len() && parities[i] == p {
        phases[choose|i: int| 0 <= i < parities.len() && parities[i] == p] as int
    } else {
        0
    }
}

/// Sum of the ticks that aligned vectors carry on parity `p` (repeats allowed).
pub open spec fn ticks_sum(parities: Seq<u128>, phases: Seq<u32>, p: u128) -> int
    decreases parities.len(),
{
    if parities.len() == 0 || phases.len() < parities.len() {
        0
    } else {
        let n = parities.len() - 1;
        ticks_sum(parities.drop_last(), phases.subrange(0, n), p)
            + if parities[n] == p { phases[n] as int } else { 0 }
    }
}

/// With distinct parities the summed and the looked-up ticks agree.
pub proof fn lemma_ticks_sum_distinct(q: Seq<u128>, h: Seq<u32>, x: u128)
    requires
        q.len() == h.len(),
        forall|i: int, j: int| 0 <= i < j < q.len() ==> q[i] != q[j],
    ensures
        ticks_sum(q, h, x) == ticks_of(q, h, x),
    decreases q.len(),
{
    if q.len() > 0 {
        let n = q.len() - 1;
        let q0 = q.drop_last();
        let h0 = h.subrange(0, n);
        lemma_ticks_sum_distinct(q0, h0, x);
        if q0.contains(q[n]) {
            let i = choose|i: int| 0 <= i < q0.len() && q0[i] == q[n];
            assert(q[i] == q0[i]);
        }
        lemma_ticks_of_push(q0, h0, q[n], h[n], x);
        assert(q0.push(q[n]) =~= q);
        assert(h0.push(h[n]) =~= h);
    }
}

/// Appending a fresh parity only defines its own angle.
pub proof fn lemma_ticks_of_push(q: Seq<u128>, h: Seq<u32>, p: u128, t: u32, x: u128)
    requires
        q.len() == h.len(),
        !q.contains(p),
        forall|i: int, j: int| 0 <= i < j < q.len() ==> q[i] != q[j],
    ensures
        ticks_of(q.push(p), h.push(t), x) == if x == p { t as int } else { ticks_of(q, h, x) },
{
    let q2 = q.push(p);
    let h2 = h.push(t);
    if x == p {
        assert(q2[q.len() as int] == x);
        let c = choose|i: int| 0 <= i < q2.len() && q2[i] == x;
        if c < q.len() { assert(q.contains(p)); }
    } else if exists|i: int| 0 <= i < q.len() && q[i] == x {
        let k = choose|i: int| 0 <= i < q.len() && q[i] == x;
        assert(q2[k] == x);
        let c = choose|i: int| 0 <= i < q2.len() && q2[i] == x;
        if c == q.len() { assert(x == p); }
        assert(q2[c] == q[c]);
        assert(c == k);
        assert(h2[c] == h[c]);
    } else {
        assert forall|i: int| 0 <= i < q2.len() implies q2[i] != x by {
            if i < q.len() { assert(q2[i] == q[i]); }
        }
    }
}

/// `Σ θ_p · (XOR of the variables in p)` with each `θ_p` in ticks.
#[derive(Debug, Clone, Default, PartialEq, Eq, Hash)]
pub struct ContinuousPhasePoly {
    /// Parity masks, strictly increasing and nonzero.
    pub parities: Vec<u128>,
    /// `phases[i]` is the angle on `parities[i]`, in `1..TICKS_PER_TURN`.
    pub phases: Vec<u32>,
}

impl ContinuousPhasePoly {
    /// Aligned, sorted, nonzero parities with nonzero reduced angles.
    pub open spec fn wf(&self) -> bool {
        &&& self.parities@.len() == self.phases@.len()
        &&& forall|i: int, j: int| 0 <= i < j < self.parities@.len() ==> self.parities@[i] < self.parities@[j]
        &&& forall|i: int| 0 <= i < self.parities@.len() ==> #[trigger] self.parities@[i] != 0
        &&& forall|i: int| 0 <= i < self.phases@.len() ==> 1 <= #[trigger] self.phases@[i] < TICKS_PER_TURN
    }

    /// Angle (ticks) on parity `p`.
    pub open spec fn angle(&self, p: u128) -> int {
        ticks_of(self.parities@, self.phases@, p)
    }

    /// No continuous phase.
    pub fn new() -> (r: Self)
        ensures
            r.wf(),
            r.parities@.len() == 0,
    {
        ContinuousPhasePoly { parities: Vec::new(), phases: Vec::new() }
    }

    /// Binary search by parity.
    fn search(&self, p: u128) -> (r: (bool, usize))
        requires
            self.wf(),
        ensures
            r.1 <= self.parities.len(),
            r.0 ==> r.1 < self.parities.len() && self.parities@[r.1 as int] == p,
            !r.0 ==> forall|i: int| 0 <= i < self.parities.len() ==> self.parities@[i] != p,
            forall|i: int| 0 <= i < r.1 ==> self.parities@[i] < p,
            !r.0 ==> forall|i: int| r.1 <= i < self.parities.len() ==> p < self.parities@[i],
    {
        let mut lo: usize = 0;
        let mut hi: usize = self.parities.len();
        while lo < hi
            invariant
                self.wf(),
                lo <= hi <= self.parities.len(),
                forall|i: int| 0 <= i < lo ==> self.parities@[i] < p,
                forall|i: int| hi <= i < self.parities.len() ==> p < self.parities@[i],
            decreases hi - lo,
        {
            let mid = lo + (hi - lo) / 2;
            let mm = self.parities[mid];
            if mm < p {
                lo = mid + 1;
            } else if mm > p {
                hi = mid;
            } else {
                return (true, mid);
            }
        }
        (false, lo)
    }

    /// Add `ticks` on parity `p` (the zero parity is a global phase and is dropped).
    pub fn add_parity(&mut self, p: u128, ticks: u32)
        requires
            old(self).wf(),
        ensures
            final(self).wf(),
            forall|x: u128| #[trigger] final(self).angle(x) == if x == p && p != 0 {
                (old(self).angle(x) + ticks) % (TICKS_PER_TURN as int)
            } else {
                old(self).angle(x)
            },
    {
        let ghost q0 = self.parities@;
        let ghost h0 = self.phases@;
        if p == 0 {
            return;
        }
        let (found, pos) = self.search(p);
        if found {
            let cur = self.phases[pos];
            let sum = add_ticks(cur, ticks);
            assert(ticks_of(q0, h0, p) == cur) by {
                let k = choose|i: int| 0 <= i < q0.len() && q0[i] == p;
                assert(k == pos);
            }
            if sum == 0 {
                self.parities.remove(pos);
                self.phases.remove(pos);
                assert(self.parities@ == q0.remove(pos as int));
                assert(self.phases@ == h0.remove(pos as int));
                assert forall|x: u128| #[trigger] ticks_of(self.parities@, self.phases@, x) == if x == p && p != 0 {
                    (ticks_of(q0, h0, x) + ticks) % (TICKS_PER_TURN as int)
                } else {
                    ticks_of(q0, h0, x)
                } by {
                    let q = self.parities@;
                    if x != p && exists|i: int| 0 <= i < q0.len() && q0[i] == x {
                        let k = choose|i: int| 0 <= i < q0.len() && q0[i] == x;
                        let k2: int = if k < pos { k } else { k - 1 };
                        assert(q[k2] == x);
                        let c = choose|i: int| 0 <= i < q.len() && q[i] == x;
                        assert(c == k2);
                    } else {
                        assert forall|i: int| 0 <= i < q.len() implies q[i] != x by {
                            if i < pos { assert(q[i] == q0[i]); } else { assert(q[i] == q0[i + 1]); }
                        }
                    }
                }
            } else {
                self.phases.set(pos, sum);
                assert forall|x: u128| #[trigger] ticks_of(self.parities@, self.phases@, x) == if x == p && p != 0 {
                    (ticks_of(q0, h0, x) + ticks) % (TICKS_PER_TURN as int)
                } else {
                    ticks_of(q0, h0, x)
                } by {
                    if exists|i: int| 0 <= i < q0.len() && q0[i] == x {
                        let k = choose|i: int| 0 <= i < q0.len() && q0[i] == x;
                        let c = choose|i: int| 0 <= i < self.parities@.len() && self.parities@[i] == x;
                        assert(c == k);
                    }
                }
            }
        } else {
            let t = add_ticks(ticks, 0);
            if t != 0 {
                self.parities.insert(pos, p);
                self.phases.insert(pos, t);
                assert(self.parities@ == q0.insert(pos as int, p));
                assert(self.phases@ == h0.insert(pos as int, t));
                assert forall|x: u128| #[trigger] ticks_of(self.parities@, self.phases@, x) == if x == p && p != 0 {
                    (ticks_of(q0, h0, x) + ticks) % (TICKS_PER_TURN as int)
                } else {
                    ticks_of(q0, h0, x)
                } by {
                    let q = self.parities@;
                    if x == p {
                        assert(q[pos as int] == x);
                        let c = choose|i: int| 0 <= i < q.len() && q[i] == x;
                        assert(c == pos);
                    } else if exists|i: int| 0 <= i < q0.len() && q0[i] == x {
                        let k = choose|i: int| 0 <= i < q0.len() && q0[i] == x;
                        let k2: int = if k < pos { k } else { k + 1 };
                        assert(q[k2] == x);
                        let c = choose|i: int| 0 <= i < q.len() && q[i] == x;
                        assert(c == k2);
                    } else {
                        assert forall|i: int| 0 <= i < q.len() implies q[i] != x by {
                            if i < pos { assert(q[i] == q0[i]); } else if i > pos { assert(q[i] == q0[i - 1]); }
                        }
                    }
                }
            }
        }
    }

    /// Add `ticks` on an affine parity: a constant term folds into the sign
    /// (`e^{iθ(1⊕p)} = e^{iθ} e^{-iθp}`, global phase dropped) and the angle
    /// lands on the XOR of the variables of `parity`.
    pub fn apply_ticks(&mut self, parity: &BooleanPoly, ticks: u32)
        requires
            old(self).wf(),
            parity.wf(),
        ensures
            final(self).wf(),
            forall|x: u128| #[trigger] final(self).angle(x) == if parity.terms@.len() > 0 && x == parity.variable_mask && x != 0 {
                (old(self).angle(x) + affine_ticks(parity, ticks)) % (TICKS_PER_TURN as int)
            } else {
                old(self).angle(x)
            },
    {
        if parity.terms.len() == 0 {
            return;
        }
        let has_const = parity.terms[0] == 0;
        let signed = if has_const { negate_ticks(ticks) } else { add_ticks(ticks, 0) };
        self.add_parity(parity.variable_mask, signed);
    }

    /// Split every angle `θ` into its even π/4 quotient `k·π/4`,
    /// `k ∈ {2, 4, 6}` (returned for promotion into the discrete
    /// polynomial), and the remainder `θ mod π/2` (kept here).
    pub fn extract_cliffords(&mut self) -> (r: Vec<(u128, u8)>)
        requires
            old(self).wf(),
        ensures
            final(self).wf(),
            forall|x: u128| #[trigger] final(self).angle(x) == old(self).angle(x) % (TICKS_PER_PI_2 as int),
            forall|i: int, j: int| 0 <= i < j < r@.len() ==> r@[i].0 < r@[j].0,
            forall|k: int| 0 <= k < r@.len() ==> #[trigger] r@[k].1 as int
                == 2 * (old(self).angle(r@[k].0) / (TICKS_PER_PI_2 as int)) && r@[k].1 != 0,
            forall|x: u128| x != 0 && old(self).angle(x) >= TICKS_PER_PI_2 ==>
                exists|k: int| 0 <= k < r@.len() && #[trigger] r@[k].0 == x,
            forall|k: int| 0 <= k < r@.len() ==> #[trigger] r@[k].0 != 0,
    {
        let ghost q0 = self.parities@;
        let ghost h0 = self.phases@;
        let mut np: Vec<u128> = Vec::new();
        let mut nh: Vec<u32> = Vec::new();
        let mut ext: Vec<(u128, u8)> = Vec::new();
        let mut i: usize = 0;
        let n = self.parities.len();
        assert forall|x: u128| ticks_of(q0.subrange(0, 0), h0.subrange(0, 0), x) == 0 by {}
        while i < n
            invariant
                self.parities@ == q0,
                self.phases@ == h0,
                n == q0.len(),
                self.wf(),
                i <= n,
                np@.len() == nh@.len(),
                forall|a: int, b: int| 0 <= a < b < np@.len() ==> np@[a] < np@[b],
                forall|a: int| 0 <= a < np@.len() ==> #[trigger] np@[a] != 0,
                forall|a: int| 0 <= a < np@.len() ==> exists|c: int| 0 <= c < i && q0[c] == #[trigger] np@[a],
                forall|a: int| 0 <= a < nh@.len() ==> 1 <= #[trigger] nh@[a] < TICKS_PER_TURN,
                forall|x: u128| #[trigger] ticks_of(np@, nh@, x)
                    == ticks_of(q0.subrange(0, i as int), h0.subrange(0, i as int), x) % (TICKS_PER_PI_2 as int),
                forall|a: int, b: int| 0 <= a < b < ext@.len() ==> ext@[a].0 < ext@[b].0,
                forall|a: int| 0 <= a < ext@.len() ==> exists|c: int| 0 <= c < i && q0[c] == #[trigger] ext@[a].0,
                forall|k: int| 0 <= k < ext@.len() ==> #[trigger] ext@[k].1 as int
                    == 2 * (ticks_of(q0, h0, ext@[k].0) / (TICKS_PER_PI_2 as int)) && ext@[k].1 != 0 && ext@[k].0 != 0,
                forall|c: int| 0 <= c < i && h0[c] >= TICKS_PER_PI_2 ==>
                    exists|k: int| 0 <= k < ext@.len() && #[trigger] ext@[k].0 == q0[c],
            decreases n - i,
        {
            let p = self.parities[i];
            let t = self.phases[i];
            let units: u8 = (2 * (t as u64 / TICKS_PER_PI_2)) as u8;
            let rem: u32 = (t as u64 % TICKS_PER_PI_2) as u32;
            assert(ticks_of(q0, h0, p) == t) by {
                let c = choose|c: int| 0 <= c < q0.len() && q0[c] == p;
                assert(c == i);
            }
            assert forall|a: int| 0 <= a < np@.len() implies np@[a] < p by {
                let c = choose|c: int| 0 <= c < i && q0[c] == np@[a];
            }
            assert forall|a: int| 0 <= a < ext@.len() implies ext@[a].0 < p by {
                let c = choose|c: int| 0 <= c < i && q0[c] == ext@[a].0;
            }
            let ghost pre_q = q0.subrange(0, i as int);
            let ghost pre_h = h0.subrange(0, i as int);
            assert(q0.subrange(0, i + 1) == pre_q.push(p));
            assert(h0.subrange(0, i + 1) == pre_h.push(t));
            assert(!pre_q.contains(p)) by {
                if pre_q.contains(p) {
                    let c = choose|c: int| 0 <= c < pre_q.len() && pre_q[c] == p;
                    assert(q0[c] < q0[i as int]);
                }
            }
            let ghost onp = np@;
            let ghost onh = nh@;
            let ghost oext = ext@;
            if rem != 0 {
                np.push(p);
                nh.push(rem);
            }
            if units != 0 {
                ext.push((p, units));
            }
            assert forall|x: u128| #[trigger] ticks_of(np@, nh@, x)
                == ticks_of(q0.subrange(0, i + 1), h0.subrange(0, i + 1), x) % (TICKS_PER_PI_2 as int) by {
                lemma_ticks_of_push(pre_q, pre_h, p, t, x);
                if rem != 0 {
                    assert(!onp.contains(p)) by {
                        if onp.contains(p) {
                            let a = choose|a: int| 0 <= a < onp.len() && onp[a] == p;
                        }
                    }
                    lemma_ticks_of_push(onp, onh, p, rem, x);
                } else if x == p {
                    assert forall|a: int| 0 <= a < np@.len() implies np@[a] != x by {}
                }
            }
            assert forall|a: int| 0 <= a < np@.len() implies exists|c: int| 0 <= c < i + 1 && q0[c] == #[trigger] np@[a] by {
                if a < onp.len() {
                    let c = choose|c: int| 0 <= c < i && q0[c] == onp[a];
                } else {
                    assert(q0[i as int] == np@[a]);
                }
            }
            assert forall|a: int| 0 <= a < ext@.len() implies exists|c: int| 0 <= c < i + 1 && q0[c] == #[trigger] ext@[a].0 by {
                if a < ext@.len() - 1 || units == 0 {
                    let c = choose|c: int| 0 <= c < i && q0[c] == ext@[a].0;
                } else {
                    assert(q0[i as int] == ext@[a].0);
                }
            }
            assert forall|c: int| 0 <= c < i + 1 && h0[c] >= TICKS_PER_PI_2 implies
                exists|k: int| 0 <= k < ext@.len() && #[trigger] ext@[k].0 == q0[c] by {
                if c == i {
                    assert(units != 0);
                    assert(ext@[ext@.len() - 1].0 == q0[c]);
                } else {
                    let k = choose|k: int| 0 <= k < oext.len() && #[trigger] oext[k].0 == q0[c];
                    assert(ext@[k] == oext[k]);
                }
            }
            i = i + 1;
        }
        assert(q0.subrange(0, n as int) == q0);
        assert(h0.subrange(0, n as int) == h0);
        self.parities = np;
        self.phases = nh;
        assert forall|x: u128| x != 0 && ticks_of(q0, h0, x) >= TICKS_PER_PI_2 implies
            exists|k: int| 0 <= k < ext@.len() && #[trigger] ext@[k].0 == x by {
            let c = choose|c: int| 0 <= c < q0.len() && q0[c] == x;
        }
        ext
    }

    /// Rebuild canonical form from possibly unsorted, repeated or zero parities.
    pub fn compact(&mut self)
        requires
            old(self).parities@.len() == old(self).phases@.len(),
        ensures
            final(self).wf(),
            forall|x: u128| #[trigger] final(self).angle(x) == if x != 0 {
                ticks_sum(old(self).parities@, old(self).phases@, x) % (TICKS_PER_TURN as int)
            } else {
                0
            },
    {
        let ghost q0 = self.parities@;
        let ghost h0 = self.phases@;
        let mut out = ContinuousPhasePoly::new();
        let mut i: usize = 0;
        while i < self.parities.len()
            invariant
                self.parities@ == q0,
                self.phases@ == h0,
                q0.len() == h0.len(),
                i <= q0.len(),
                out.wf(),
                forall|x: u128| #[trigger] out.angle(x) == if x != 0 {
                    ticks_sum(q0.subrange(0, i as int), h0.subrange(0, i as int), x) % (TICKS_PER_TURN as int)
                } else {
                    0
                },
            decreases q0.len() - i,
        {
            let p = self.parities[i];
            let t = self.phases[i];
            let ghost before = out;
            out.add_parity(p, t);
            assert(q0.subrange(0, i + 1).drop_last() == q0.subrange(0, i as int));
            assert(h0.subrange(0, i + 1).subrange(0, i as int) == h0.subrange(0, i as int));
            assert forall|x: u128| #[trigger] out.angle(x) == if x != 0 {
                ticks_sum(q0.subrange(0, i + 1), h0.subrange(0, i + 1), x) % (TICKS_PER_TURN as int)
            } else {
                0
            } by {
                if x != 0 {
                    let a = ticks_sum(q0.subrange(0, i as int), h0.subrange(0, i as int), x);
                    let tt = TICKS_PER_TURN as int;
                    if x == p {
                        vstd::arithmetic::div_mod::lemma_add_mod_noop_right(t as int, a, tt);
                    }
                }
            }
            i = i + 1;
        }
        assert(q0.subrange(0, q0.len() as int) == q0);
        assert(h0.subrange(0, h0.len() as int) == h0);
        *self = out;
    }
}

/// The signed tick count an affine parity receives: negated when the
/// parity carries the constant term.
pub open spec fn affine_ticks(parity: &BooleanPoly, ticks: u32) -> int {
    let t = TICKS_PER_TURN as int;
    if parity.terms@.len() > 0 && parity.terms@[0] == 0 {
        (t - (ticks as int) % t) % t
    } else {
        (ticks as int) % t
    }
}

/// A canonical polynomial is its own compaction: its angles are the summed
/// ticks of its parities (and nothing on the empty parity).
pub proof fn lemma_angle_canonical(c: ContinuousPhasePoly, x: u128)
    requires
        c.wf(),
    ensures
        c.angle(x) == if x != 0 { ticks_sum(c.parities@, c.phases@, x) % (TICKS_PER_TURN as int) } else { 0 },
        0 <= c.angle(x) < TICKS_PER_TURN,
{
    lemma_ticks_sum_distinct(c.parities@, c.phases@, x);
    if exists|i: int| 0 <= i < c.parities@.len() && c.parities@[i] == x {
        let i = choose|i: int| 0 <= i < c.parities@.len() && c.parities@[i] == x;
        assert(c.phases@[i] < TICKS_PER_TURN);
        assert(c.parities@[i] != 0);
    }
}

} // verus!

