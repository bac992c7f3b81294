//! Phase expansion of `c · (t_1 ⊕ … ⊕ t_n) · base` into monomials over Z_8.
//!
//! Over {0,1}, `t_1 ⊕ … ⊕ t_n = Σ_{∅≠S} (-2)^{|S|-1} Π_S t_i`; subsets of
//! four or more terms carry a factor `(-2)^3 = -8 ≡ 0 (mod 8)`, so singles
//! (coefficient `c`), pairs (`-2c`) and triples (`4c`) are exact.
use vstd::prelude::*;
use crate::phase_poly::{PackedPhaseTerm, batch_sum, lemma_batch_sum_concat};

verus! {

/// Coefficient of a pair product: `-2c mod 8`.
pub open spec fn pair_units(c: u8) -> u8 {
    ((16 - 2 * (c % 8)) % 8) as u8
}

/// Coefficient of a triple product: `4c mod 8`.
pub open spec fn triple_units(c: u8) -> u8 {
    ((4 * (c % 8)) % 8) as u8
}

/// Triple terms `base·t_i·t_j·t_k` for `j < k < kend`.
pub open spec fn triples(base: u128, ts: Seq<u128>, i: int, j: int, kend: int, tp: u8) -> Seq<PackedPhaseTerm>
    decreases kend - j,
{
    if kend <= j + 1 {
        Seq::empty()
    } else {
        triples(base, ts, i, j, kend - 1, tp).push(
            PackedPhaseTerm { mono: base | ts[i] | ts[j] | ts[kend - 1], ph: tp })
    }
}

/// For `i < j < jend`: the pair term `base·t_i·t_j` (when its coefficient
/// is nonzero) followed by the triples extending it.
pub open spec fn pairs(base: u128, ts: Seq<u128>, i: int, jend: int, p: u8, tp: u8) -> Seq<PackedPhaseTerm>
    decreases jend - i,
{
    if jend <= i + 1 {
        Seq::empty()
    } else {
        let j = jend - 1;
        pairs(base, ts, i, jend - 1, p, tp)
            + (if p != 0 { seq![PackedPhaseTerm { mono: base | ts[i] | ts[j], ph: p }] } else { Seq::empty() })
            + (if tp != 0 { triples(base, ts, i, j, ts.len() as int, tp) } else { Seq::empty() })
    }
}

/// The expansion restricted to first factors `t_i` with `i < iend`.
pub open spec fn expansion_upto(base: u128, ts: Seq<u128>, iend: int, c: u8) -> Seq<PackedPhaseTerm>
    decreases iend,
{
    let ph = (c % 8) as u8;
    let p = pair_units(c);
    let tp = triple_units(c);
    if ph == 0 || iend <= 0 {
        Seq::empty()
    } else {
        let i = iend - 1;
        expansion_upto(base, ts, iend - 1, c)
            + seq![PackedPhaseTerm { mono: base | ts[i], ph: ph }]
            + (if p == 0 && tp == 0 { Seq::empty() } else { pairs(base, ts, i, ts.len() as int, p, tp) })
    }
}

/// All monomial terms of `c · (t_1 ⊕ … ⊕ t_n) · base`.
pub open spec fn xor_expansion(base: u128, ts: Seq<u128>, c: u8) -> Seq<PackedPhaseTerm> {
    expansion_upto(base, ts, ts.len() as int, c)
}

/// Two term lists with the same monomial in every place and coefficients
/// that cancel modulo 8 place by place.
pub open spec fn cancelling(a: Seq<PackedPhaseTerm>, b: Seq<PackedPhaseTerm>) -> bool {
    &&& a.len() == b.len()
    &&& forall|i: int| 0 <= i < a.len() ==> (#[trigger] a[i]).mono == b[i].mono && (a[i].ph + b[i].ph) % 8 == 0
}

proof fn lemma_cancelling_concat(a1: Seq<PackedPhaseTerm>, b1: Seq<PackedPhaseTerm>, a2: Seq<PackedPhaseTerm>, b2: Seq<PackedPhaseTerm>)
    requires
        cancelling(a1, b1),
        cancelling(a2, b2),
    ensures
        cancelling(a1 + a2, b1 + b2),
{
    assert forall|i: int| 0 <= i < (a1 + a2).len() implies (#[trigger] (a1 + a2)[i]).mono == (b1 + b2)[i].mono
        && ((a1 + a2)[i].ph + (b1 + b2)[i].ph) % 8 == 0 by {
        if i < a1.len() {
            assert(a1[i] == (a1 + a2)[i]);
        } else {
            assert(a2[i - a1.len()] == (a1 + a2)[i]);
        }
    }
}

/// Cancelling lists carry cancelling totals on every monomial.
pub proof fn lemma_cancelling_sum(a: Seq<PackedPhaseTerm>, b: Seq<PackedPhaseTerm>, m: u128)
    requires
        cancelling(a, b),
    ensures
        (batch_sum(a, m) + batch_sum(b, m)) % 8 == 0,
    decreases a.len(),
{
    if a.len() > 0 {
        let n = a.len() - 1;
        assert(a[n] == a.last());
        assert(cancelling(a.drop_last(), b.drop_last()));
        lemma_cancelling_sum(a.drop_last(), b.drop_last(), m);
        let x = batch_sum(a.drop_last(), m) + batch_sum(b.drop_last(), m);
        let y = if a.last().mono == m { a.last().ph + b.last().ph } else { 0int };
        assert(batch_sum(a, m) + batch_sum(b, m) == x + y);
        assert((x + y) % 8 == 0) by (nonlinear_arith)
            requires x % 8 == 0, y % 8 == 0;
    }
}

proof fn lemma_triples_cancel(base: u128, ts: Seq<u128>, i: int, j: int, kend: int, tc: u8, td: u8)
    requires
        (tc + td) % 8 == 0,
    ensures
        cancelling(triples(base, ts, i, j, kend, tc), triples(base, ts, i, j, kend, td)),
    decreases kend - j,
{
    if kend > j + 1 {
        lemma_triples_cancel(base, ts, i, j, kend - 1, tc, td);
        let a = triples(base, ts, i, j, kend - 1, tc);
        let b = triples(base, ts, i, j, kend - 1, td);
        let t = PackedPhaseTerm { mono: base | ts[i] | ts[j] | ts[kend - 1], ph: tc };
        let u = PackedPhaseTerm { mono: base | ts[i] | ts[j] | ts[kend - 1], ph: td };
        assert(a.push(t) == a + seq![t]);
        assert(b.push(u) == b + seq![u]);
        lemma_cancelling_concat(a, b, seq![t], seq![u]);
    }
}

proof fn lemma_pairs_cancel(base: u128, ts: Seq<u128>, i: int, jend: int, pc: u8, tc: u8, pd: u8, td: u8)
    requires
        (pc + pd) % 8 == 0,
        (tc + td) % 8 == 0,
        (pc != 0) == (pd != 0),
        (tc != 0) == (td != 0),
    ensures
        cancelling(pairs(base, ts, i, jend, pc, tc), pairs(base, ts, i, jend, pd, td)),
    decreases jend - i,
{
    if jend > i + 1 {
        let j = jend - 1;
        lemma_pairs_cancel(base, ts, i, jend - 1, pc, tc, pd, td);
        let pa = if pc != 0 { seq![PackedPhaseTerm { mono: base | ts[i] | ts[j], ph: pc }] } else { Seq::empty() };
        let pb = if pd != 0 { seq![PackedPhaseTerm { mono: base | ts[i] | ts[j], ph: pd }] } else { Seq::empty() };
        let ta = if tc != 0 { triples(base, ts, i, j, ts.len() as int, tc) } else { Seq::empty() };
        let tb = if td != 0 { triples(base, ts, i, j, ts.len() as int, td) } else { Seq::empty() };
        assert(cancelling(pa, pb));
        lemma_triples_cancel(base, ts, i, j, ts.len() as int, tc, td);
        assert(cancelling(ta, tb));
        lemma_cancelling_concat(pairs(base, ts, i, jend - 1, pc, tc), pairs(base, ts, i, jend - 1, pd, td), pa, pb);
        lemma_cancelling_concat(pairs(base, ts, i, jend - 1, pc, tc) + pa, pairs(base, ts, i, jend - 1, pd, td) + pb, ta, tb);
    }
}

/// The expansions of `c` and `d` units with `c + d ≡ 0 (mod 8)` cancel
/// term by term.
pub proof fn lemma_expansion_cancel(base: u128, ts: Seq<u128>, iend: int, c: u8, d: u8)
    requires
        (c + d) % 8 == 0,
    ensures
        cancelling(expansion_upto(base, ts, iend, c), expansion_upto(base, ts, iend, d)),
    decreases iend,
{
    let rc = c % 8;
    let rd = d % 8;
    assert(rc == 0 <==> rd == 0);
    assert(rc != 0 ==> rc + rd == 8);
    let pc = pair_units(c);
    let pd = pair_units(d);
    let tc = triple_units(c);
    let td = triple_units(d);
    assert((pc + pd) % 8 == 0 && (pc != 0) == (pd != 0)) by {
        assert(rc < 8 && rd < 8);
        if rc != 0 {
            assert(pc == (16 - 2 * rc) % 8);
            assert(pd == (16 - 2 * rd) % 8);
        }
    }
    assert((tc + td) % 8 == 0 && (tc != 0) == (td != 0)) by {
        assert(tc == (4 * rc) % 8);
        assert(td == (4 * rd) % 8);
    }
    if rc != 0 && iend > 0 {
        let i = iend - 1;
        lemma_expansion_cancel(base, ts, iend - 1, c, d);
        let sa = seq![PackedPhaseTerm { mono: base | ts[i], ph: rc as u8 }];
        let sb = seq![PackedPhaseTerm { mono: base | ts[i], ph: rd as u8 }];
        assert(cancelling(sa, sb));
        lemma_cancelling_concat(expansion_upto(base, ts, iend - 1, c), expansion_upto(base, ts, iend - 1, d), sa, sb);
        let qa = if pc == 0 && tc == 0 { Seq::empty() } else { pairs(base, ts, i, ts.len() as int, pc, tc) };
        let qb = if pd == 0 && td == 0 { Seq::empty() } else { pairs(base, ts, i, ts.len() as int, pd, td) };
        lemma_pairs_cancel(base, ts, i, ts.len() as int, pc, tc, pd, td);
        assert(cancelling(qa, qb));
        lemma_cancelling_concat(expansion_upto(base, ts, iend - 1, c) + sa, expansion_upto(base, ts, iend - 1, d) + sb, qa, qb);
    }
}

/// Append the terms of `phase_units · (t_1 ⊕ … ⊕ t_n) · base` to `batch`.
pub fn push_xor_phase_expansion(batch: &mut Vec<PackedPhaseTerm>, base: u128, terms: &Vec<u128>, phase_units: u8)
    ensures
        final(batch)@ == old(batch)@ + xor_expansion(base, terms@, phase_units),
{
    let ghost b0 = batch@;
    let ghost ts = terms@;
    let phase: u8 = phase_units % 8;
    if phase == 0 {
        assert(xor_expansion(base, ts, phase_units) == Seq::<PackedPhaseTerm>::empty());
        assert(batch@ == b0 + Seq::<PackedPhaseTerm>::empty());
        return;
    }
    let p: u8 = (16 - 2 * phase) % 8;
    let tp: u8 = (4 * phase) % 8;
    assert(p == pair_units(phase_units) && tp == triple_units(phase_units));
    let n = terms.len();
    let mut i: usize = 0;
    while i < n
        invariant
            n == ts.len(),
            terms@ == ts,
            i <= n,
            phase == phase_units % 8,
            phase != 0,
            p == pair_units(phase_units),
            tp == triple_units(phase_units),
            p < 8,
            tp < 8,
            batch@ == b0 + expansion_upto(base, ts, i as int, phase_units),
        decreases n - i,
    {
        let ti = terms[i];
        batch.push(PackedPhaseTerm::create(base | ti, phase));
        let ghost after_single = batch@;
        if p == 0 && tp == 0 {
            assert(batch@ == b0 + expansion_upto(base, ts, i + 1, phase_units));
        } else {
            let mut j: usize = i + 1;
            while j < n
                invariant
                    n == ts.len(),
                    terms@ == ts,
                    i < n,
                    i + 1 <= j <= n,
                    !(p == 0 && tp == 0),
                    p < 8,
                    tp < 8,
                    ti == ts[i as int],
                    batch@ == after_single + pairs(base, ts, i as int, j as int, p, tp),
                decreases n - j,
            {
                let tj = terms[j];
                let ghost before_j = batch@;
                if p != 0 {
                    batch.push(PackedPhaseTerm::create(base | ti | tj, p));
                }
                let ghost after_pair = batch@;
                if tp != 0 {
                    let mut k: usize = j + 1;
                    while k < n
                        invariant
                            n == ts.len(),
                            terms@ == ts,
                            i < j < n,
                            j + 1 <= k <= n,
                            ti == ts[i as int],
                            tj == ts[j as int],
                            tp < 8,
                            batch@ == after_pair + triples(base, ts, i as int, j as int, k as int, tp),
                        decreases n - k,
                    {
                        batch.push(PackedPhaseTerm::create(base | ti | tj | terms[k], tp));
                        k = k + 1;
                    }
                }
                assert(batch@ == before_j
                    + (if p != 0 { seq![PackedPhaseTerm { mono: base | ts[i as int] | ts[j as int], ph: p }] } else { Seq::empty() })
                    + (if tp != 0 { triples(base, ts, i as int, j as int, ts.len() as int, tp) } else { Seq::empty() }));
                j = j + 1;
            }
            assert(batch@ == b0 + expansion_upto(base, ts, i + 1, phase_units));
        }
        i = i + 1;
    }
}

/// How many triple monomials `base·t_i·t_j·t_k` (`j < k < kend`) equal `m`.
pub open spec fn triples_at(base: u128, ts: Seq<u128>, i: int, j: int, kend: int, m: u128) -> int
    decreases kend - j,
{
    if kend <= j + 1 {
        0
    } else {
        triples_at(base, ts, i, j, kend - 1, m) + if (base | ts[i] | ts[j] | ts[kend - 1]) == m { 1int } else { 0int }
    }
}

/// How many pair monomials `base·t_i·t_j` (`i < j < jend`) equal `m`.
pub open spec fn pairs_at(base: u128, ts: Seq<u128>, i: int, jend: int, m: u128) -> int
    decreases jend - i,
{
    if jend <= i + 1 {
        0
    } else {
        pairs_at(base, ts, i, jend - 1, m) + if (base | ts[i] | ts[jend - 1]) == m { 1int } else { 0int }
    }
}

/// How many triple monomials with first factor `t_i` and second below
/// `jend` equal `m`.
pub open spec fn pair_triples_at(base: u128, ts: Seq<u128>, i: int, jend: int, m: u128) -> int
    decreases jend - i,
{
    if jend <= i + 1 {
        0
    } else {
        pair_triples_at(base, ts, i, jend - 1, m) + triples_at(base, ts, i, jend - 1, ts.len() as int, m)
    }
}

/// Counts of single, pair and triple monomials equal to `m` among first
/// factors below `iend`.
pub open spec fn shape_at(base: u128, ts: Seq<u128>, iend: int, m: u128) -> (int, int, int)
    decreases iend,
{
    if iend <= 0 {
        (0, 0, 0)
    } else {
        let i = iend - 1;
        let r = shape_at(base, ts, iend - 1, m);
        (r.0 + if (base | ts[i]) == m { 1int } else { 0int },
            r.1 + pairs_at(base, ts, i, ts.len() as int, m),
            r.2 + pair_triples_at(base, ts, i, ts.len() as int, m))
    }
}

proof fn lemma_triples_sum(base: u128, ts: Seq<u128>, i: int, j: int, kend: int, tp: u8, m: u128)
    ensures
        batch_sum(triples(base, ts, i, j, kend, tp), m) == tp * triples_at(base, ts, i, j, kend, m),
    decreases kend - j,
{
    if kend > j + 1 {
        lemma_triples_sum(base, ts, i, j, kend - 1, tp, m);
        let a = triples(base, ts, i, j, kend - 1, tp);
        let t = PackedPhaseTerm { mono: base | ts[i] | ts[j] | ts[kend - 1], ph: tp };
        assert(a.push(t).drop_last() =~= a);
        let x = triples_at(base, ts, i, j, kend - 1, m);
        let t8 = tp as int;
        if (base | ts[i] | ts[j] | ts[kend - 1]) == m {
            assert(triples_at(base, ts, i, j, kend, m) == x + 1);
            assert(t8 * (x + 1) == t8 * x + t8) by (nonlinear_arith);
        } else {
            assert(triples_at(base, ts, i, j, kend, m) == x);
        }
    }
}

proof fn lemma_pairs_sum(base: u128, ts: Seq<u128>, i: int, jend: int, p: u8, tp: u8, m: u128)
    ensures
        batch_sum(pairs(base, ts, i, jend, p, tp), m) == p * pairs_at(base, ts, i, jend, m) + tp * pair_triples_at(base, ts, i, jend, m),
    decreases jend - i,
{
    if jend > i + 1 {
        let j = jend - 1;
        lemma_pairs_sum(base, ts, i, jend - 1, p, tp, m);
        let pre = pairs(base, ts, i, jend - 1, p, tp);
        let pa = if p != 0 { seq![PackedPhaseTerm { mono: base | ts[i] | ts[j], ph: p }] } else { Seq::empty() };
        let ta = if tp != 0 { triples(base, ts, i, j, ts.len() as int, tp) } else { Seq::empty() };
        lemma_batch_sum_concat(pre, pa, m);
        lemma_batch_sum_concat(pre + pa, ta, m);
        lemma_triples_sum(base, ts, i, j, ts.len() as int, tp, m);
        let ind = if (base | ts[i] | ts[j]) == m { 1int } else { 0int };
        assert(batch_sum(pa, m) == p * ind) by {
            if p != 0 {
                assert(pa.drop_last() =~= Seq::<PackedPhaseTerm>::empty());
                assert(batch_sum(pa.drop_last(), m) == 0);
            }
            if ind == 1 {
                assert(p * ind == p);
            } else {
                assert(p * ind == 0);
            }
        }
        assert(batch_sum(ta, m) == tp * triples_at(base, ts, i, j, ts.len() as int, m));
        let pc = pairs_at(base, ts, i, jend - 1, m);
        let tc = pair_triples_at(base, ts, i, jend - 1, m);
        let tt = triples_at(base, ts, i, j, ts.len() as int, m);
        let p8 = p as int;
        let t8 = tp as int;
        assert(pairs_at(base, ts, i, jend, m) == pc + ind);
        assert(pair_triples_at(base, ts, i, jend, m) == tc + tt);
        assert(p8 * (pc + ind) + t8 * (tc + tt) == p8 * pc + t8 * tc + p8 * ind + t8 * tt) by (nonlinear_arith);
    }
}

/// The expansion carries `c` on every single monomial, `-2c` on every pair
/// and `4c` on every triple.
pub proof fn lemma_expansion_sum(base: u128, ts: Seq<u128>, iend: int, c: u8, m: u128)
    ensures
        batch_sum(expansion_upto(base, ts, iend, c), m) == (c % 8) * shape_at(base, ts, iend, m).0
            + pair_units(c) * shape_at(base, ts, iend, m).1 + triple_units(c) * shape_at(base, ts, iend, m).2,
    decreases iend,
{
    let ph = (c % 8) as u8;
    let p = pair_units(c);
    let tp = triple_units(c);
    let sh = shape_at(base, ts, iend, m);
    if iend <= 0 {
        assert(sh == (0int, 0int, 0int));
        let (x, y, z) = ((c % 8) as int, pair_units(c) as int, triple_units(c) as int);
        assert(x * 0 + y * 0 + z * 0 == 0) by (nonlinear_arith);
    } else if ph == 0 {
        assert(p == 0 && tp == 0);
        assert(expansion_upto(base, ts, iend, c) =~= Seq::<PackedPhaseTerm>::empty());
        assert((c % 8) as int == 0);
        let (x, y, z) = (sh.0, sh.1, sh.2);
        assert(0 * x + 0 * y + 0 * z == 0) by (nonlinear_arith);
    } else {
        let i = iend - 1;
        lemma_expansion_sum(base, ts, iend - 1, c, m);
        let pre = expansion_upto(base, ts, iend - 1, c);
        let single = seq![PackedPhaseTerm { mono: base | ts[i], ph: ph }];
        let rest = if p == 0 && tp == 0 { Seq::empty() } else { pairs(base, ts, i, ts.len() as int, p, tp) };
        assert(expansion_upto(base, ts, iend, c) == pre + single + rest);
        lemma_batch_sum_concat(pre, single, m);
        lemma_batch_sum_concat(pre + single, rest, m);
        assert(single.drop_last() =~= Seq::<PackedPhaseTerm>::empty());
        assert(batch_sum(single.drop_last(), m) == 0);
        lemma_pairs_sum(base, ts, i, ts.len() as int, p, tp, m);
        let r = shape_at(base, ts, iend - 1, m);
        let ind = if (base | ts[i]) == m { 1int } else { 0int };
        let pc = pairs_at(base, ts, i, ts.len() as int, m);
        let tc = pair_triples_at(base, ts, i, ts.len() as int, m);
        let h8 = ph as int;
        let p8 = p as int;
        let t8 = tp as int;
        assert(batch_sum(single, m) == h8 * ind) by {
            if ind == 1 { assert(h8 * ind == h8); } else { assert(h8 * ind == 0); }
        }
        assert(batch_sum(rest, m) == p8 * pc + t8 * tc) by {
            if p == 0 && tp == 0 {
                assert(p8 * pc == 0 && t8 * tc == 0) by (nonlinear_arith)
                    requires p8 == 0, t8 == 0;
            }
        }
        assert(sh == (r.0 + ind, r.1 + pc, r.2 + tc));
        assert(h8 == (c % 8) as int);
        let (r0, r1, r2) = (r.0, r.1, r.2);
        assert(h8 * (r0 + ind) + p8 * (r1 + pc) + t8 * (r2 + tc)
            == h8 * r0 + p8 * r1 + t8 * r2 + h8 * ind + p8 * pc + t8 * tc) by (nonlinear_arith);
    }
}

/// Expansions add up modulo 8: `c` units and then `d` units on the same
/// parity carry what `c + d` units carry.
/// The single, pair and triple coefficients of `c` and `d` units add up to
/// those of `c + d` units, modulo 8.
proof fn lemma_units_add(c: u8, d: u8)
    ensures
        ({
            let e = ((c as int + d as int) % 8) as u8;
            &&& ((c % 8) as int + (d % 8) as int - (e % 8) as int) % 8 == 0
            &&& (pair_units(c) as int + pair_units(d) as int - pair_units(e) as int) % 8 == 0
            &&& (triple_units(c) as int + triple_units(d) as int - triple_units(e) as int) % 8 == 0
        }),
{
    let e = ((c as int + d as int) % 8) as u8;
    assert(e as int == (c as int + d as int) % 8);
    assert(
        ((c % 8) as int + (d % 8) as int - (((c as int + d as int) % 8) % 8)) % 8 == 0
        && (((16 - 2 * (c % 8) as int) % 8) + ((16 - 2 * (d % 8) as int) % 8)
            - ((16 - 2 * (((c as int + d as int) % 8) % 8)) % 8)) % 8 == 0
        && (((4 * (c % 8) as int) % 8) + ((4 * (d % 8) as int) % 8)
            - ((4 * (((c as int + d as int) % 8) % 8)) % 8)) % 8 == 0) by (bit_vector);
}

/// Coefficients that agree modulo 8 give sums that agree modulo 8.
proof fn lemma_combination_mod(a1: int, a2: int, a3: int, b1: int, b2: int, b3: int, e1: int, e2: int, e3: int,
    n1: int, n2: int, n3: int)
    requires
        (a1 + b1 - e1) % 8 == 0,
        (a2 + b2 - e2) % 8 == 0,
        (a3 + b3 - e3) % 8 == 0,
    ensures
        (a1 * n1 + a2 * n2 + a3 * n3 + (b1 * n1 + b2 * n2 + b3 * n3)) % 8 == (e1 * n1 + e2 * n2 + e3 * n3) % 8,
{
    let k1 = (a1 + b1 - e1) / 8;
    let k2 = (a2 + b2 - e2) / 8;
    let k3 = (a3 + b3 - e3) / 8;
    vstd::arithmetic::div_mod::lemma_fundamental_div_mod(a1 + b1 - e1, 8);
    vstd::arithmetic::div_mod::lemma_fundamental_div_mod(a2 + b2 - e2, 8);
    vstd::arithmetic::div_mod::lemma_fundamental_div_mod(a3 + b3 - e3, 8);
    let rhs = e1 * n1 + e2 * n2 + e3 * n3;
    let dd = k1 * n1 + k2 * n2 + k3 * n3;
    assert(a1 * n1 + a2 * n2 + a3 * n3 + (b1 * n1 + b2 * n2 + b3 * n3) == 8 * dd + rhs) by (nonlinear_arith)
        requires
            a1 + b1 - e1 == 8 * k1,
            a2 + b2 - e2 == 8 * k2,
            a3 + b3 - e3 == 8 * k3,
            rhs == e1 * n1 + e2 * n2 + e3 * n3,
            dd == k1 * n1 + k2 * n2 + k3 * n3;
    vstd::arithmetic::div_mod::lemma_mod_multiples_vanish(dd, rhs, 8);
}

/// Expansions add up modulo 8: `c` units and then `d` units on the same
/// parity carry what `c + d` units carry.
pub proof fn lemma_expansion_add(base: u128, ts: Seq<u128>, c: u8, d: u8, m: u128)
    ensures
        (batch_sum(xor_expansion(base, ts, c), m) + batch_sum(xor_expansion(base, ts, d), m)) % 8
            == batch_sum(xor_expansion(base, ts, ((c as int + d as int) % 8) as u8), m) % 8,
{
    let e = ((c as int + d as int) % 8) as u8;
    let n = ts.len() as int;
    lemma_expansion_sum(base, ts, n, c, m);
    lemma_expansion_sum(base, ts, n, d, m);
    lemma_expansion_sum(base, ts, n, e, m);
    lemma_units_add(c, d);
    let sh = shape_at(base, ts, n, m);
    lemma_combination_mod((c % 8) as int, pair_units(c) as int, triple_units(c) as int,
        (d % 8) as int, pair_units(d) as int, triple_units(d) as int,
        (e % 8) as int, pair_units(e) as int, triple_units(e) as int, sh.0, sh.1, sh.2);
}

} // verus!
