//! Reduction of path sums: the canonical path-variable gauge and the
//! elimination of summed-out path variables.
use vstd::prelude::*;
use crate::bits::{lowest_bit, lemma_clear_lowest, lemma_clear_lowest_subset, lemma_remove_bits, popcount,
    low_mask, low_mask_spec, is_zero_or_pow2, zero_or_pow2, bit_at};
use crate::boolean_poly::{BooleanPoly, lemma_toggle_all_parity};
use crate::sorted::toggle_all;
use crate::phase_poly::{CanonicalPhasePoly, PackedPhaseTerm, batch_sum};
use crate::continuous_poly::{ContinuousPhasePoly, ticks_sum};
use crate::expansion::{push_xor_phase_expansion, xor_expansion};
use crate::evaluator::{EvaluatedPathSum, mask_bit_seq, promoted, promotion_batch, cliffords_of};
use crate::gf2::{bit, lemma_set_bit, lemma_zero_bits};
use crate::parity_network::lemma_bit_toggle;
use crate::ticks::{negate_ticks, TICKS_PER_PI_2, TICKS_PER_PI_4};

verus! {

/// A vector of `n` copies of `x`.
fn filled_u32(n: usize, x: u32) -> (r: Vec<u32>)
    ensures
        r@.len() == n,
        forall|i: int| 0 <= i < n ==> r@[i] == x,
{
    let mut v: Vec<u32> = Vec::new();
    let mut i: usize = 0;
    while i < n
        invariant
            i <= n,
            v@.len() == i,
            forall|k: int| 0 <= k < i ==> v@[k] == x,
        decreases n - i,
    {
        v.push(x);
        i = i + 1;
    }
    v
}

/// A vector of `n` copies of `x`.
fn filled_u64(n: usize, x: u64) -> (r: Vec<u64>)
    ensures
        r@.len() == n,
        forall|i: int| 0 <= i < n ==> r@[i] == x,
{
    let mut v: Vec<u64> = Vec::new();
    let mut i: usize = 0;
    while i < n
        invariant
            i <= n,
            v@.len() == i,
            forall|k: int| 0 <= k < i ==> v@[k] == x,
        decreases n - i,
    {
        v.push(x);
        i = i + 1;
    }
    v
}

/// A vector of `n` copies of `x`.
fn filled_u128(n: usize, x: u128) -> (r: Vec<u128>)
    ensures
        r@.len() == n,
        forall|i: int| 0 <= i < n ==> r@[i] == x,
{
    let mut v: Vec<u128> = Vec::new();
    let mut i: usize = 0;
    while i < n
        invariant
            i <= n,
            v@.len() == i,
            forall|k: int| 0 <= k < i ==> v@[k] == x,
        decreases n - i,
    {
        v.push(x);
        i = i + 1;
    }
    v
}

/// Clearing the lowest set bit `r` of `x` toggles exactly that bit, and `x`
/// has no set bit below `r`.
proof fn lemma_drop_lowest(x: u128, r: u32, j: u128)
    requires
        x != 0,
        r < 128,
        j < 128,
        x & (1u128 << (r as u128)) == 1u128 << (r as u128),
        x & low_mask_spec(r as nat) == 0,
    ensures
        x & ((x - 1) as u128) == x ^ (1u128 << (r as u128)),
        (j as int) < (r as int) ==> !bit(x, j as int),
        bit(x, r as int),
{
    let rr = r as u128;
    assert(low_mask_spec(r as nat) == ((1u128 << rr) - 1) as u128);
    let lo = ((1u128 << rr) - 1) as u128;
    assert(x & ((x - 1) as u128) == x ^ (1u128 << rr) && (j < rr ==> (x >> j) & 1 != 1) && (x >> rr) & 1 == 1) by (bit_vector)
        requires x != 0, rr < 128, x & (1u128 << rr) == 1u128 << rr, x & lo == 0, lo == ((1u128 << rr) - 1) as u128;
}

/// The bits of `x` once its lowest set bit `r` is cleared.
proof fn lemma_bits_after_drop(x: u128, r: u32)
    requires
        x != 0,
        r < 128,
        x & (1u128 << (r as u128)) == 1u128 << (r as u128),
        x & low_mask_spec(r as nat) == 0,
    ensures
        forall|j: int| 0 <= j < 128 ==> #[trigger] bit(x & ((x - 1) as u128), j) == (bit(x, j) && j != r),
        forall|j: int| 0 <= j < r ==> !#[trigger] bit(x, j),
        bit(x, r as int),
{
    lemma_drop_lowest(x, r, 0);
    assert forall|j: int| 0 <= j < 128 implies #[trigger] bit(x & ((x - 1) as u128), j) == (bit(x, j) && j != r) by {
        lemma_bit_toggle(x, r as u128, j as u128);
        assert((j as u128) as int == j);
    }
    assert forall|j: int| 0 <= j < r implies !#[trigger] bit(x, j) by {
        lemma_drop_lowest(x, r, j as u128);
        assert((j as u128) as int == j);
    }
}

/// Every set bit `b` of `mono` sent to bit `remapping[b]`.
pub open spec fn remapped(mono: u128, remapping: Seq<u32>, j: int) -> bool {
    exists|b: int| 0 <= b < 128 && #[trigger] bit(mono, b) && remapping[b] == j
}

/// Map every set bit `b` of `mono` to bit `remapping[b]`.
fn remap_mono(mono: u128, remapping: &Vec<u32>) -> (r: u128)
    requires
        remapping@.len() == 128,
        forall|i: int| 0 <= i < 128 ==> #[trigger] remapping@[i] < 128,
    ensures
        forall|j: int| 0 <= j < 128 ==> (#[trigger] bit(r, j) <==> remapped(mono, remapping@, j)),
{
    let mut out: u128 = 0;
    let mut temp: u128 = mono;
    proof {
        assert forall|j: int| 0 <= j < 128 implies !#[trigger] bit(out, j) by { lemma_zero_bits(j as u128); }
    }
    while temp != 0
        invariant
            remapping@.len() == 128,
            forall|i: int| 0 <= i < 128 ==> #[trigger] remapping@[i] < 128,
            forall|b: int| 0 <= b < 128 && #[trigger] bit(temp, b) ==> bit(mono, b),
            forall|j: int| 0 <= j < 128 ==> (#[trigger] bit(out, j) <==>
                exists|b: int| 0 <= b < 128 && #[trigger] bit(mono, b) && !bit(temp, b) && remapping@[b] == j),
        decreases temp,
    {
        let idx = lowest_bit(temp);
        let target = remapping[idx as usize];
        let ghost out0 = out;
        let ghost t0 = temp;
        let unit = bit_at(target);
        out = out | unit;
        proof {
            lemma_clear_lowest(temp);
            lemma_bits_after_drop(t0, idx);
            assert forall|j: int| 0 <= j < 128 implies #[trigger] bit(out, j) == (bit(out0, j) || j == target) by {
                lemma_set_bit(out0, target as u128, j as u128);
            }
        }
        temp = temp & (temp - 1);
        proof {
            assert forall|b: int| 0 <= b < 128 && #[trigger] bit(temp, b) implies bit(mono, b) by {}
            assert forall|j: int| 0 <= j < 128 implies (#[trigger] bit(out, j) <==>
                exists|b: int| 0 <= b < 128 && #[trigger] bit(mono, b) && !bit(temp, b) && remapping@[b] == j) by {
                if bit(out, j) {
                    if bit(out0, j) {
                        let b = choose|b: int| 0 <= b < 128 && #[trigger] bit(mono, b) && !bit(t0, b) && remapping@[b] == j;
                        assert(!bit(temp, b));
                    } else {
                        assert(j == target);
                        assert(bit(mono, idx as int) && !bit(temp, idx as int) && remapping@[idx as int] == j);
                    }
                }
                if exists|b: int| 0 <= b < 128 && #[trigger] bit(mono, b) && !bit(temp, b) && remapping@[b] == j {
                    let b = choose|b: int| 0 <= b < 128 && #[trigger] bit(mono, b) && !bit(temp, b) && remapping@[b] == j;
                    if b != idx {
                        assert(!bit(t0, b));
                    }
                }
            }
        }
    }
    proof {
        assert forall|j: int| 0 <= j < 128 implies (#[trigger] bit(out, j) <==> remapped(mono, remapping@, j)) by {
            assert forall|b: int| 0 <= b < 128 implies !#[trigger] bit(temp, b) by { lemma_zero_bits(b as u128); }
        }
    }
    out
}

/// `-a` on the tick lattice.
pub open spec fn neg_ticks(a: int) -> int {
    (crate::ticks::TICKS_PER_TURN - a % (crate::ticks::TICKS_PER_TURN as int)) % (crate::ticks::TICKS_PER_TURN as int)
}

/// `acc` XOR the non-constant monomials among the first `k` of `e`.
pub open spec fn subst_parity_upto(acc: u128, e: Seq<u128>, k: int) -> u128
    decreases k,
{
    if k <= 0 {
        acc
    } else {
        let a = subst_parity_upto(acc, e, k - 1);
        if e[k - 1] == 0 { a } else { a ^ e[k - 1] }
    }
}

/// The angle `t` negated once for each constant monomial among the first
/// `k` of `e`.
pub open spec fn subst_angle_upto(t: int, e: Seq<u128>, k: int) -> int
    decreases k,
{
    if k <= 0 {
        t
    } else {
        let a = subst_angle_upto(t, e, k - 1);
        if e[k - 1] == 0 { neg_ticks(a) } else { a }
    }
}

/// A parity after `u := u ⊕ e`: one holding `u` trades it for the
/// non-constant monomials of `e` (a constant monomial negates the angle
/// instead).
pub open spec fn substituted_parity(p: u128, u: u128, e: Seq<u128>) -> u128 {
    if p & u != 0 { subst_parity_upto(p ^ u, e, e.len() as int) } else { p }
}

/// The angle of a parity after `u := u ⊕ e`.
pub open spec fn substituted_angle(p: u128, t: u32, u: u128, e: Seq<u128>) -> int {
    if p & u != 0 { subst_angle_upto(t as int, e, e.len() as int) } else { t as int }
}

/// The terms among the first `k` of `ts` that do not hold `u`, in order.
pub open spec fn kept_terms(ts: Seq<u128>, u: u128, k: int) -> Seq<u128>
    decreases k,
{
    if k <= 0 {
        Seq::empty()
    } else {
        let a = kept_terms(ts, u, k - 1);
        if ts[k - 1] & u != 0 { a } else { a.push(ts[k - 1]) }
    }
}

/// `base` times each monomial of `e` (the constant monomial gives `base`).
pub open spec fn times_terms(base: u128, e: Seq<u128>) -> Seq<u128> {
    Seq::new(e.len(), |j: int| if e[j] == 0 { base } else { base | e[j] })
}

/// For each of the first `k` terms of `ts` that holds `u`, the term with `u`
/// replaced by each monomial of `e`, in order.
pub open spec fn distributed_terms(ts: Seq<u128>, u: u128, e: Seq<u128>, k: int) -> Seq<u128>
    decreases k,
{
    if k <= 0 {
        Seq::empty()
    } else {
        let a = distributed_terms(ts, u, e, k - 1);
        if ts[k - 1] & u != 0 { a + times_terms(ts[k - 1] & !u, e) } else { a }
    }
}

/// A row after `u := e`: a row that holds `u` has every term `u·m` replaced by
/// the products `m·f` for the monomials `f` of `e` (summed over GF(2)); any
/// other row is unchanged.
pub open spec fn row_after_substitution(row: BooleanPoly, u: u128, e: Seq<u128>) -> Set<u128> {
    if row.variable_mask & u != 0 {
        toggle_all(toggle_all(Set::empty(), kept_terms(row.terms@, u, row.terms@.len() as int)),
            distributed_terms(row.terms@, u, e, row.terms@.len() as int))
    } else {
        row.monomials()
    }
}

/// Toggling the distinct monomials of a strictly sorted list into the empty
/// set gives the list's set.
proof fn lemma_toggle_all_sorted(ts: Seq<u128>)
    requires
        crate::sorted::strictly_sorted(ts),
    ensures
        toggle_all(Set::empty(), ts) == ts.to_set(),
    decreases ts.len(),
{
    if ts.len() == 0 {
        assert(ts.to_set() =~= Set::<u128>::empty());
    } else {
        let p = ts.drop_last();
        let x = ts.last();
        assert(crate::sorted::strictly_sorted(p));
        lemma_toggle_all_sorted(p);
        if p.to_set().contains(x) {
            assert(p.contains(x));
            let i = choose|i: int| 0 <= i < p.len() && p[i] == x;
            assert(ts[i] < ts[ts.len() - 1]);
        }
        assert(ts == p.push(x));
        assert(ts.to_set() =~= p.to_set().insert(x));
    }
}

/// Two monomial lists with the same GF(2) sum toggle any set alike.
proof fn lemma_toggle_all_same_sum(s: Set<u128>, a: Seq<u128>, b: Seq<u128>)
    requires
        toggle_all(Set::empty(), a) == toggle_all(Set::empty(), b),
    ensures
        toggle_all(s, a) == toggle_all(s, b),
{
    assert forall|x: u128| toggle_all(s, a).contains(x) == toggle_all(s, b).contains(x) by {
        lemma_toggle_all_parity(s, a, x);
        lemma_toggle_all_parity(s, b, x);
        lemma_toggle_all_parity(Set::empty(), a, x);
        lemma_toggle_all_parity(Set::empty(), b, x);
    }
    assert(toggle_all(s, a) =~= toggle_all(s, b));
}

/// The parities with the bits of `v` cleared.
pub open spec fn cleared_parities(parities: Seq<u128>, v: u128) -> Seq<u128> {
    Seq::new(parities.len(), |i: int| parities[i] & !v)
}

/// The compacting relabel: labels below `nq` stay, the surviving variables
/// from `nq` on take the consecutive labels `nq, nq + 1, …` in order (while
/// they fit), and every other label maps to 0.
pub open spec fn compress_map(surviving: u128, nq: int) -> Seq<u32> {
    Seq::new(128, |b: int| {
        let packed = nq + crate::gray::pop_upto(surviving, b as nat) - crate::gray::pop_upto(surviving, nq as nat);
        if b < nq {
            b as u32
        } else if bit(surviving, b) && packed < 128 {
            packed as u32
        } else {
            0u32
        }
    })
}

/// `acc` XOR the single-variable monomials among the first `k` of `e`.
pub open spec fn gauge_parity_upto(acc: u128, e: Seq<u128>, k: int) -> u128
    decreases k,
{
    if k <= 0 {
        acc
    } else {
        let a = gauge_parity_upto(acc, e, k - 1);
        if e[k - 1] != 0 && crate::gray::pop_upto(e[k - 1], 128) == 1 { a ^ e[k - 1] } else { a }
    }
}

/// The parities after `v := v ⊕ e`: a parity holding `v` gains the
/// single-variable monomials of `e`.
pub open spec fn gauge_parities(parities: Seq<u128>, v: u128, e: Seq<u128>) -> Seq<u128> {
    Seq::new(parities.len(), |i: int|
        if parities[i] & v != 0 { gauge_parity_upto(parities[i], e, e.len() as int) } else { parities[i] })
}

/// The angles after `v := v ⊕ e`: the angle of a parity holding `v` is
/// negated once for each constant monomial of `e`.
pub open spec fn gauge_angles(parities: Seq<u128>, phases: Seq<u32>, v: u128, e: Seq<u128>) -> Seq<u32> {
    Seq::new(parities.len(), |i: int|
        if parities[i] & v != 0 { subst_angle_upto(phases[i] as int, e, e.len() as int) as u32 } else { phases[i] })
}

/// The terms that merging `v1` into `v2` makes of one discrete term.
pub open spec fn merge_term_expansion(t: PackedPhaseTerm, v1: u128, v2: u128) -> Seq<PackedPhaseTerm> {
    let mono = t.mono;
    let phase = t.ph % 8;
    if mono & v2 != 0 {
        let base = mono & !v2;
        if base & v1 != 0 {
            seq![
                PackedPhaseTerm { mono: v1 | (base & !v1), ph: phase % 8 },
                PackedPhaseTerm { mono: mono, ph: ((8 - phase) % 8) as u8 },
            ]
        } else {
            seq![
                PackedPhaseTerm { mono: mono, ph: phase % 8 },
                PackedPhaseTerm { mono: v1 | base, ph: phase % 8 },
                PackedPhaseTerm { mono: v1 | mono, ph: ((8 - (2 * phase) % 8) % 8) as u8 },
            ]
        }
    } else {
        seq![t]
    }
}

/// The expansions of the first `k` terms, in order.
pub open spec fn merge_batch(ts: Seq<PackedPhaseTerm>, v1: u128, v2: u128, k: int) -> Seq<PackedPhaseTerm>
    decreases k,
{
    if k <= 0 {
        Seq::empty()
    } else {
        merge_batch(ts, v1, v2, k - 1) + merge_term_expansion(ts[k - 1], v1, v2)
    }
}

/// The monomials of a list of discrete terms.
pub open spec fn term_monos(ts: Seq<PackedPhaseTerm>) -> Seq<u128> {
    Seq::new(ts.len(), |i: int| ts[i].mono)
}

/// What `v := ⊕ sub[1..]` (given as `sub = [v, …]`) makes of one discrete
/// term: a term holding `v` expands over the XOR, any other term stays.
pub open spec fn gauge_term_expansion(t: PackedPhaseTerm, v: u128, sub: Seq<u128>) -> Seq<PackedPhaseTerm> {
    if t.mono & v != 0 { xor_expansion(t.mono & !v, sub, t.ph) } else { seq![t] }
}

/// The expansions of the first `k` terms, in order.
pub open spec fn gauge_batch(ts: Seq<PackedPhaseTerm>, v: u128, sub: Seq<u128>, k: int) -> Seq<PackedPhaseTerm>
    decreases k,
{
    if k <= 0 {
        Seq::empty()
    } else {
        gauge_batch(ts, v, sub, k - 1) + gauge_term_expansion(ts[k - 1], v, sub)
    }
}

/// How many of the first `k` monomials meet `comp`.
pub open spec fn meeting_count(monos: Seq<u128>, comp: u128, k: int) -> nat
    decreases k,
{
    if k <= 0 {
        0
    } else {
        meeting_count(monos, comp, k - 1) + if monos[k - 1] & comp != 0 { 1nat } else { 0nat }
    }
}

/// One more promotion pass keeps a path sum promoted from `a`: the first
/// pass promotes `a` itself, and a later pass finds every angle below π/2
/// and so moves nothing.
proof fn lemma_promotion_step(a: EvaluatedPathSum, s0: EvaluatedPathSum, s1: EvaluatedPathSum, s2: EvaluatedPathSum, first: bool)
    requires
        s0.wf(),
        first ==> s0 == a,
        !first ==> promoted(a, s0),
        forall|x: u128| #[trigger] s1.continuous_poly.angle(x) == s0.continuous_poly.angle(x),
        s1.phase_poly == s0.phase_poly,
        promoted(s1, s2),
    ensures
        promoted(a, s2),
{
    let ext = choose|ext: Seq<(u128, u8)>| #![trigger cliffords_of(s1.continuous_poly, ext)]
        cliffords_of(s1.continuous_poly, ext)
        && forall|x: u128| #[trigger] s2.phase_poly.coeff(x) == if x != 0 {
            (s1.phase_poly.coeff(x) + batch_sum(promotion_batch(ext), x)) % 8
        } else {
            s1.phase_poly.coeff(x)
        };
    let p2 = TICKS_PER_PI_2 as int;
    if first {
        assert(cliffords_of(a.continuous_poly, ext)) by {
            assert forall|k: int| 0 <= k < ext.len() implies (#[trigger] ext[k]).0 != 0 && ext[k].1 != 0
                && ext[k].1 as int == 2 * (a.continuous_poly.angle(ext[k].0) / p2) by {
                assert(s1.continuous_poly.angle(ext[k].0) == a.continuous_poly.angle(ext[k].0));
            }
            assert forall|x: u128| x != 0 && #[trigger] a.continuous_poly.angle(x) >= p2
                implies exists|k: int| 0 <= k < ext.len() && #[trigger] ext[k].0 == x by {
                assert(s1.continuous_poly.angle(x) == a.continuous_poly.angle(x));
            }
        }
        assert forall|x: u128| #[trigger] s2.continuous_poly.angle(x) == a.continuous_poly.angle(x) % p2 by {
            assert(s1.continuous_poly.angle(x) == s0.continuous_poly.angle(x));
        }
    } else {
        let ext0 = choose|ext0: Seq<(u128, u8)>| #![trigger cliffords_of(a.continuous_poly, ext0)]
            cliffords_of(a.continuous_poly, ext0)
            && forall|x: u128| #[trigger] s0.phase_poly.coeff(x) == if x != 0 {
                (a.phase_poly.coeff(x) + batch_sum(promotion_batch(ext0), x)) % 8
            } else {
                a.phase_poly.coeff(x)
            };
        if ext.len() > 0 {
            let y = ext[0].0;
            assert(s1.continuous_poly.angle(y) == s0.continuous_poly.angle(y));
            assert(s0.continuous_poly.angle(y) == a.continuous_poly.angle(y) % p2);
            assert(ext[0].1 as int == 2 * (s1.continuous_poly.angle(y) / p2));
            assert(false);
        }
        assert(promotion_batch(ext) =~= Seq::<PackedPhaseTerm>::empty());
        assert forall|x: u128| #[trigger] s2.phase_poly.coeff(x) == if x != 0 {
            (a.phase_poly.coeff(x) + batch_sum(promotion_batch(ext0), x)) % 8
        } else {
            a.phase_poly.coeff(x)
        } by {
            crate::phase_poly::lemma_phase_of_range(s0.phase_poly.terms@, x);
            assert(batch_sum(promotion_batch(ext), x) == 0);
            assert(s0.phase_poly.coeff(x) == s1.phase_poly.coeff(x));
        }
        assert forall|x: u128| #[trigger] s2.continuous_poly.angle(x) == a.continuous_poly.angle(x) % p2 by {
            assert(s1.continuous_poly.angle(x) == s0.continuous_poly.angle(x));
            assert(s0.continuous_poly.angle(x) == a.continuous_poly.angle(x) % p2);
        }
    }
}

/// The bits of the path variables of `s`.
pub open spec fn path_mask_of(s: EvaluatedPathSum) -> u128 {
    low_mask_spec((s.num_qubits + s.num_path_vars) as nat) & !low_mask_spec(s.num_qubits as nat)
}

/// The rows from `q` on, read as the gauge follow-up reads them: a row with
/// a path variable that is not yet a pivot must be that single variable, and
/// the next one in label order. The result is the pivots found, or `None`
/// where a row breaks the pattern.
pub open spec fn pivot_scan(rows: Seq<BooleanPoly>, path_mask: u128, q: int, pivots: u128, next: u128) -> Option<u128>
    decreases rows.len() - q,
{
    if q < 0 || q >= rows.len() {
        Some(pivots)
    } else {
        let fresh = rows[q].variable_mask & path_mask & !pivots;
        if fresh == 0 {
            pivot_scan(rows, path_mask, q + 1, pivots, next)
        } else if rows[q].terms@.len() == 1 && fresh == next {
            pivot_scan(rows, path_mask, q + 1, pivots | fresh, next << 1u128)
        } else {
            None
        }
    }
}

/// The rows already follow the pivot pattern that the gauge follow-up after
/// a row operation leaves alone.
pub open spec fn rows_gauge_settled(s: EvaluatedPathSum) -> bool {
    pivot_scan(s.out_state@, path_mask_of(s), 0, 0, 1u128 << (s.num_qubits as u128)) is Some
}

/// The rows follow the pivot pattern and every path variable is one of
/// their pivots: the canonical gauge has nothing to do.
pub open spec fn gauge_settled(s: EvaluatedPathSum) -> bool {
    pivot_scan(s.out_state@, path_mask_of(s), 0, 0, 1u128 << (s.num_qubits as u128)) == Some(path_mask_of(s))
}

/// What the gauge follow-up after a row operation makes of `a`: the frame
/// stays, and an overflowed state, one without path variables, or one whose
/// rows already follow the pivot pattern is left as it is.
pub open spec fn gauge_followed(a: EvaluatedPathSum, b: EvaluatedPathSum) -> bool {
    &&& b.wf()
    &&& b.same_frame(&a)
    &&& (a.overflow_id != 0 || a.num_path_vars == 0 ==> b == a)
    &&& (rows_gauge_settled(a) ==> b == a)
}

/// What a reduction makes of `a`: width, qubit count and overflow mark stay
/// and no path variable is added; an overflowed state is left as it is; a
/// state without path variables keeps its rows and only has its angles
/// promoted; a state with one path variable in the settled gauge keeps that
/// variable and its rows and only has its angles promoted.
pub open spec fn reduced(a: EvaluatedPathSum, b: EvaluatedPathSum) -> bool {
    &&& b.wf()
    &&& b.width == a.width
    &&& b.num_qubits == a.num_qubits
    &&& b.overflow_id == a.overflow_id
    &&& b.num_path_vars <= a.num_path_vars
    &&& (a.overflow_id != 0 ==> b == a)
    &&& (a.num_path_vars == 0 ==> b.num_path_vars == 0 && b.out_state == a.out_state)
    &&& (a.num_path_vars == 0 && a.overflow_id == 0 ==> promoted(a, b))
    &&& (a.num_path_vars == 1 && gauge_settled(a) && a.overflow_id == 0 ==>
        b.num_path_vars == 1 && b.out_state == a.out_state && promoted(a, b))
}

/// `i^k` as a Gaussian integer `(re, im)`, so that `ω^(2k) = i^k` for the
/// eighth root of unity `ω` of the discrete phase.
pub open spec fn i_pow(k: int) -> (int, int) {
    let r = k % 4;
    if r == 0 { (1, 0) } else if r == 1 { (0, 1) } else if r == 2 { (-1, 0) } else { (0, -1) }
}

/// Product of Gaussian integers.
pub open spec fn g_mul(a: (int, int), b: (int, int)) -> (int, int) {
    (a.0 * b.0 - a.1 * b.1, a.0 * b.1 + a.1 * b.0)
}

/// Sum of Gaussian integers.
pub open spec fn g_add(a: (int, int), b: (int, int)) -> (int, int) {
    (a.0 + b.0, a.1 + b.1)
}

/// The ω-sum identity behind [`EvaluatedPathSum::sum_out_omega`]: for a
/// path variable `v` with phase `a·v + 4·v·E` (`a` 2 or 6, `E` ∈ {0, 1}),
/// `Σ_v ω^(a·v + 4·v·E) = (1 + ω^a) · ω^((8 − a)·E)`. The factor `1 + ω^a`
/// is nonzero and does not depend on `E`, so summing out `v` is, up to a
/// global phase, the phase `(8 − a)·E`.
pub proof fn law_omega_sum(a: int, e: int)
    requires
        a == 2 || a == 6,
        e == 0 || e == 1,
    ensures
        g_add(i_pow(0), i_pow((a + 4 * e) / 2)) == g_mul(g_add(i_pow(0), i_pow(a / 2)), i_pow(((8 - a) * e) / 2)),
        g_add(i_pow(0), i_pow(a / 2)) != (0int, 0int),
{
    let p = (a + 4 * e) / 2;
    let h = a / 2;
    let q = ((8 - a) * e) / 2;
    if a == 2 && e == 0 {
        assert(p == 1 && h == 1 && q == 0);
    } else if a == 2 {
        assert(p == 3 && h == 1 && q == 3);
    } else if e == 0 {
        assert(p == 3 && h == 3 && q == 0);
    } else {
        assert(p == 5 && h == 3 && q == 1);
    }
    assert(i_pow(0) == (1int, 0int));
    assert(i_pow(1) == (0int, 1int));
    assert(i_pow(3) == (0int, -1int));
    assert(i_pow(5) == (0int, 1int));
}

/// A word keeps no bit of a mask once the mask is taken out.
proof fn lemma_and_not_self(x: u128, m: u128)
    ensures
        x & m & !m == 0,
        m & !m == 0,
{
    assert forall|j: int| 0 <= j < 128 implies #[trigger] bit(x & m & !m, j) == bit(0u128, j) by {
        crate::bits::lemma_bit_ops(x & m, !m, j as u128);
        crate::bits::lemma_bit_ops(x, m, j as u128);
        crate::bits::lemma_bit_ops(m, 0, j as u128);
        lemma_zero_bits(j as u128);
    }
    crate::gf2::lemma_bits_equal(x & m & !m, 0u128);
    assert forall|j: int| 0 <= j < 128 implies #[trigger] bit(m & !m, j) == bit(0u128, j) by {
        crate::bits::lemma_bit_ops(m, !m, j as u128);
        crate::bits::lemma_bit_ops(m, 0, j as u128);
        lemma_zero_bits(j as u128);
    }
    crate::gf2::lemma_bits_equal(m & !m, 0u128);
}

/// A variable that the scan makes a pivot stands in some row it reads.
proof fn lemma_scan_has_row(rows: Seq<BooleanPoly>, path_mask: u128, q: int, pivots: u128, next: u128, res: u128, j: int)
    requires
        0 <= q,
        0 <= j < 128,
        pivot_scan(rows, path_mask, q, pivots, next) == Some(res),
        bit(res, j),
        !bit(pivots, j),
    ensures
        exists|k: int| q <= k < rows.len() && #[trigger] bit(rows[k].variable_mask, j),
    decreases rows.len() - q,
{
    if q >= rows.len() {
        assert(res == pivots);
    } else {
        let fresh = rows[q].variable_mask & path_mask & !pivots;
        if fresh == 0 {
            lemma_scan_has_row(rows, path_mask, q + 1, pivots, next, res, j);
            let k = choose|k: int| q + 1 <= k < rows.len() && #[trigger] bit(rows[k].variable_mask, j);
            assert(bit(rows[k].variable_mask, j));
        } else {
            crate::bits::lemma_bit_ops(pivots, fresh, j as u128);
            if bit(fresh, j) {
                crate::bits::lemma_bit_ops(rows[q].variable_mask & path_mask, !pivots, j as u128);
                crate::bits::lemma_bit_ops(rows[q].variable_mask, path_mask, j as u128);
                assert(bit(rows[q].variable_mask, j));
            } else {
                lemma_scan_has_row(rows, path_mask, q + 1, pivots | fresh, next << 1u128, res, j);
                let k = choose|k: int| q + 1 <= k < rows.len() && #[trigger] bit(rows[k].variable_mask, j);
                assert(bit(rows[k].variable_mask, j));
            }
        }
    }
}

/// A bit of one of the words stands in their union.
proof fn lemma_or_from_bit(base: u128, s: Seq<u128>, k: int, i: int, j: int)
    requires
        0 <= i < k <= s.len(),
        0 <= j < 128,
        bit(s[i], j),
    ensures
        bit(or_from(base, s, k), j),
    decreases k,
{
    crate::bits::lemma_bit_ops(or_from(base, s, k - 1), s[k - 1], j as u128);
    if i < k - 1 {
        lemma_or_from_bit(base, s, k - 1, i, j);
    }
}

/// A bit of the base stands in the union.
proof fn lemma_or_from_base(base: u128, s: Seq<u128>, k: int, j: int)
    requires
        0 <= k <= s.len(),
        0 <= j < 128,
        bit(base, j),
    ensures
        bit(or_from(base, s, k), j),
    decreases k,
{
    if k > 0 {
        lemma_or_from_base(base, s, k - 1, j);
        crate::bits::lemma_bit_ops(or_from(base, s, k - 1), s[k - 1], j as u128);
    }
}

/// A word with a bit below `k` counts at least one bit there.
proof fn lemma_pop_positive(x: u128, k: nat, j: int)
    requires
        0 <= j < k <= 128,
        bit(x, j),
    ensures
        crate::gray::pop_upto(x, k) >= 1,
    decreases k,
{
    if j < k - 1 {
        lemma_pop_positive(x, (k - 1) as nat, j);
    }
}

/// With one path variable, settled as a row pivot, that variable is live:
/// some row holds it, so the union of the row masks and any parities does.
proof fn lemma_settled_live(s: EvaluatedPathSum, parities: Seq<u128>)
    requires
        s.wf(),
        s.num_path_vars == 1,
        gauge_settled(s),
    ensures
        bit(or_from(or_from(0, row_var_masks(s.out_state@), s.out_state@.len() as int), parities, parities.len() as int),
            s.num_qubits as int),
        bit(path_mask_of(s), s.num_qubits as int),
{
    let nq = s.num_qubits as int;
    let pm = path_mask_of(s);
    assert(nq < 128);
    let hi = low_mask_spec((nq + 1) as nat);
    let lo = low_mask_spec(nq as nat);
    lemma_zero_bits(nq as u128);
    crate::bits::lemma_bit_ops(0u128, 0u128, nq as u128);
    crate::bits::lemma_bit_ops(!0u128, hi, nq as u128);
    crate::bits::lemma_bit_ops(!0u128, lo, nq as u128);
    crate::combination::lemma_bit_mask(!0u128, (nq + 1) as nat, nq);
    crate::combination::lemma_bit_mask(!0u128, nq as nat, nq);
    crate::bits::lemma_bit_ops(hi, !lo, nq as u128);
    crate::bits::lemma_bit_ops(lo, 0u128, nq as u128);
    assert(bit(pm, nq));
    lemma_scan_has_row(s.out_state@, pm, 0, 0, 1u128 << (s.num_qubits as u128), pm, nq);
    let k = choose|k: int| 0 <= k < s.out_state@.len() && #[trigger] bit(s.out_state@[k].variable_mask, nq);
    let rm = row_var_masks(s.out_state@);
    assert(rm[k] == s.out_state@[k].variable_mask);
    lemma_or_from_bit(0, rm, s.out_state@.len() as int, k, nq);
    lemma_or_from_base(or_from(0, rm, s.out_state@.len() as int), parities, parities.len() as int, nq);
}

/// A row after `v := v ⊕ e`: a row holding the monomial `v` gains the
/// monomials of `e` (over GF(2)); any other row is unchanged.
pub open spec fn substituted_row(row: BooleanPoly, v_mask: u128, e: Seq<u128>) -> Set<u128> {
    if e.len() > 0 && row.variable_mask & v_mask != 0 && row.monomials().contains(v_mask) {
        crate::sorted::toggle_all(row.monomials(), e)
    } else {
        row.monomials()
    }
}

/// Whether `order[k]` is already the single bit `lo + k` for every `k`.
pub open spec fn order_in_place(order: Seq<u128>, lo: u32) -> bool {
    forall|k: int| 0 <= k < order.len() ==> #[trigger] placed_at(order, lo, k)
}

/// Whether `order[k]` is the single bit `lo + k`.
pub open spec fn placed_at(order: Seq<u128>, lo: u32, k: int) -> bool {
    k < 128 - lo && order[k] == 1u128 << ((lo + k) as u128)
}

impl EvaluatedPathSum {
    /// Same engine width, qubits, path variables and overflow token.
    pub open spec fn same_frame(&self, other: &Self) -> bool {
        &&& self.width == other.width
        &&& self.num_qubits == other.num_qubits
        &&& self.num_path_vars == other.num_path_vars
        &&& self.overflow_id == other.overflow_id
    }

    /// Bits of the live path variables.
    pub fn path_var_mask(&self) -> (r: u128)
        requires
            self.wf(),
        ensures
            r == low_mask_spec((self.num_qubits + self.num_path_vars) as nat) & !low_mask_spec(self.num_qubits as nat),
    {
        low_mask(self.num_qubits + self.num_path_vars) & !low_mask(self.num_qubits)
    }

    /// Whether the variable occurs in an output row or a continuous parity
    /// (such a variable can never be summed out).
    fn is_var_live(&self, v_mask: u128) -> (r: bool)
        requires
            self.wf(),
        ensures
            r == ((exists|i: int| 0 <= i < self.out_state@.len() && #[trigger] self.out_state@[i].variable_mask & v_mask != 0)
                || (exists|j: int| 0 <= j < self.continuous_poly.parities@.len()
                    && #[trigger] self.continuous_poly.parities@[j] & v_mask != 0)),
    {
        let mut i: usize = 0;
        while i < self.out_state.len()
            invariant
                i <= self.out_state@.len(),
                forall|k: int| 0 <= k < i ==> #[trigger] self.out_state@[k].variable_mask & v_mask == 0,
            decreases self.out_state@.len() - i,
        {
            if (self.out_state[i].variable_mask & v_mask) != 0 {
                return true;
            }
            i = i + 1;
        }
        let mut j: usize = 0;
        while j < self.continuous_poly.parities.len()
            invariant
                j <= self.continuous_poly.parities@.len(),
                forall|k: int| 0 <= k < self.out_state@.len() ==> #[trigger] self.out_state@[k].variable_mask & v_mask == 0,
                forall|k: int| 0 <= k < j ==> #[trigger] self.continuous_poly.parities@[k] & v_mask == 0,
            decreases self.continuous_poly.parities@.len() - j,
        {
            if (self.continuous_poly.parities[j] & v_mask) != 0 {
                return true;
            }
            j = j + 1;
        }
        false
    }

    /// Sum out the path variable `v_mask` by the ω rule: when `v` occurs in
    /// the discrete phase only as `a·v` (`a` = `base_phase`, 2 or 6) and
    /// `4·v·E`, summing over `v` leaves `(8 − a)·E` (up to a global phase,
    /// [`law_omega_sum`]). Every term with `v` is dropped and `(8 − a)·E` is
    /// added, `E` given by `e_poly`.
    fn sum_out_omega(&mut self, v_mask: u128, e_poly: &BooleanPoly, base_phase: u8)
        requires
            old(self).wf(),
            base_phase == 2 || base_phase == 6,
        ensures
            final(self).wf(),
            final(self).same_frame(old(self)),
            final(self).out_state == old(self).out_state,
            final(self).continuous_poly == old(self).continuous_poly,
            forall|x: u128| x != 0 ==> #[trigger] final(self).phase_poly.coeff(x)
                == ((if x & v_mask == 0 { old(self).phase_poly.coeff(x) } else { 0 })
                    + batch_sum(xor_expansion(0, e_poly.terms@, (8 - base_phase) as u8), x)) % 8,
    {
        let ghost t0 = self.phase_poly.terms@;
        let mut next_gen: Vec<PackedPhaseTerm> = Vec::new();
        let mut j: usize = 0;
        while j < self.phase_poly.terms.len()
            invariant
                j <= self.phase_poly.terms@.len(),
                self.phase_poly.terms@ == t0,
                forall|x: u128| #[trigger] batch_sum(next_gen@, x)
                    == if x & v_mask == 0 { batch_sum(t0.take(j as int), x) } else { 0 },
            decreases self.phase_poly.terms@.len() - j,
        {
            let ghost g0 = next_gen@;
            assert(t0.take(j + 1).drop_last() =~= t0.take(j as int));
            let ghost t = t0[j as int];
            let keep = (self.phase_poly.terms[j].monomial() & v_mask) == 0;
            if keep {
                next_gen.push(self.phase_poly.terms[j]);
                assert(next_gen@.drop_last() =~= g0);
            }
            proof {
                assert forall|x: u128| #[trigger] batch_sum(next_gen@, x)
                    == if x & v_mask == 0 { batch_sum(t0.take(j + 1), x) } else { 0 } by {
                    assert(t0.take(j + 1).last() == t);
                    assert(batch_sum(g0, x) == if x & v_mask == 0 { batch_sum(t0.take(j as int), x) } else { 0 });
                    assert(batch_sum(t0.take(j + 1), x) == batch_sum(t0.take(j as int), x) + if t.mono == x { t.ph as int } else { 0 });
                    if keep {
                        assert(next_gen@.last() == t);
                        assert(batch_sum(next_gen@, x) == batch_sum(g0, x) + if t.mono == x { t.ph as int } else { 0 });
                    } else {
                        assert(next_gen@ == g0);
                    }
                }
            }
            j = j + 1;
        }
        assert(t0.take(t0.len() as int) =~= t0);
        let ghost s1 = *self;
        self.set_phase_terms(next_gen);
        proof {
            assert forall|x: u128| x != 0 implies #[trigger] self.phase_poly.coeff(x)
                == if x & v_mask == 0 { s1.phase_poly.coeff(x) } else { 0 } by {
                crate::phase_poly::lemma_batch_sum_canonical(t0, x);
                crate::phase_poly::lemma_phase_of_range(t0, x);
            }
        }
        let phase_to_add: u8 = if base_phase == 2 { 6 } else { 2 };
        let ghost s2 = *self;
        self.push_phase_expansion(&e_poly.terms, phase_to_add);
        proof {
            assert forall|x: u128| x != 0 implies #[trigger] self.phase_poly.coeff(x)
                == ((if x & v_mask == 0 { s1.phase_poly.coeff(x) } else { 0 })
                    + batch_sum(xor_expansion(0, e_poly.terms@, (8 - base_phase) as u8), x)) % 8 by {
                assert(s2.phase_poly.coeff(x) == if x & v_mask == 0 { s1.phase_poly.coeff(x) } else { 0 });
            }
        }
    }

    /// Replace the phase polynomial by the canonical sum of `batch`.
    fn set_phase_terms(&mut self, batch: Vec<PackedPhaseTerm>)
        requires
            old(self).wf(),
        ensures
            final(self).wf(),
            final(self).same_frame(old(self)),
            final(self).out_state == old(self).out_state,
            final(self).continuous_poly == old(self).continuous_poly,
            forall|x: u128| #[trigger] final(self).phase_poly.coeff(x) == if x != 0 { batch_sum(batch@, x) % 8 } else { 0 },
    {
        let mut pp = CanonicalPhasePoly::new();
        assert forall|x: u128| #[trigger] pp.coeff(x) == 0 by {}
        pp.merge_unsorted_batch(batch);
        self.phase_poly = pp;
    }

    /// Replace the continuous polynomial by the canonical form of the
    /// given parities and angles.
    fn set_continuous(&mut self, parities: Vec<u128>, phases: Vec<u32>)
        requires
            old(self).wf(),
            parities@.len() == phases@.len(),
        ensures
            final(self).wf(),
            final(self).same_frame(old(self)),
            final(self).out_state == old(self).out_state,
            final(self).phase_poly == old(self).phase_poly,
            forall|x: u128| #[trigger] final(self).continuous_poly.angle(x) == if x != 0 {
                ticks_sum(parities@, phases@, x) % (crate::ticks::TICKS_PER_TURN as int)
            } else {
                0
            },
    {
        let mut c = ContinuousPhasePoly { parities, phases };
        c.compact();
        self.continuous_poly = c;
    }

    /// Substitute `v := v ⊕ e` everywhere (an invertible affine change of one
    /// path variable, which leaves the denoted operator unchanged); `e` must
    /// not contain `v`.
    fn gauge_substitute(&mut self, v_mask: u128, e_poly: &BooleanPoly)
        requires
            old(self).wf(),
            e_poly.wf(),
        ensures
            final(self).wf(),
            final(self).same_frame(old(self)),
            e_poly.terms@.len() == 0 ==> *final(self) == *old(self),
            final(self).out_state@.len() == old(self).out_state@.len(),
            forall|q: int| 0 <= q < old(self).out_state@.len() ==> (#[trigger] final(self).out_state@[q]).monomials()
                == substituted_row(old(self).out_state@[q], v_mask, e_poly.terms@),
            e_poly.terms@.len() > 0 ==> forall|x: u128| #[trigger] final(self).continuous_poly.angle(x) == if x != 0 {
                ticks_sum(
                    gauge_parities(old(self).continuous_poly.parities@, v_mask, e_poly.terms@),
                    gauge_angles(old(self).continuous_poly.parities@, old(self).continuous_poly.phases@, v_mask, e_poly.terms@),
                    x,
                ) % (crate::ticks::TICKS_PER_TURN as int)
            } else {
                0
            },
            e_poly.terms@.len() > 0 ==> forall|x: u128| #[trigger] final(self).phase_poly.coeff(x) == if or_from(
                0,
                term_monos(old(self).phase_poly.terms@),
                old(self).phase_poly.terms@.len() as int,
            ) & v_mask == 0 {
                old(self).phase_poly.coeff(x)
            } else if x != 0 {
                batch_sum(gauge_batch(old(self).phase_poly.terms@, v_mask, seq![v_mask] + e_poly.terms@,
                    old(self).phase_poly.terms@.len() as int), x) % 8
            } else {
                0
            },
    {
        if e_poly.terms.len() == 0 {
            return;
        }
        let mut q: usize = 0;
        while q < self.out_state.len()
            invariant
                self.wf(),
                self.same_frame(old(self)),
                e_poly.wf(),
                e_poly.terms@.len() > 0,
                q <= self.out_state@.len(),
                self.continuous_poly == old(self).continuous_poly,
                self.phase_poly == old(self).phase_poly,
                self.out_state@.len() == old(self).out_state@.len(),
                forall|k: int| 0 <= k < q ==> (#[trigger] self.out_state@[k]).monomials()
                    == substituted_row(old(self).out_state@[k], v_mask, e_poly.terms@),
                forall|k: int| q <= k < self.out_state@.len() ==> #[trigger] self.out_state@[k] == old(self).out_state@[k],
            decreases self.out_state@.len() - q,
        {
            if (self.out_state[q].variable_mask & v_mask) != 0 && self.out_state[q].contains(v_mask) {
                let mut row = self.out_state[q].copy();
                assert(row.monomials() == self.out_state@[q as int].monomials());
                row.add_assign(e_poly);
                self.out_state.set(q, row);
            }
            q = q + 1;
        }
        let ghost c0 = self.continuous_poly;
        let ghost e = e_poly.terms@;
        assert(c0 == old(self).continuous_poly);
        let mut np: Vec<u128> = Vec::new();
        let mut nh: Vec<u32> = Vec::new();
        let mut i: usize = 0;
        while i < self.continuous_poly.parities.len()
            invariant
                self.wf(),
                self.continuous_poly == c0,
                e == e_poly.terms@,
                i <= self.continuous_poly.parities@.len(),
                np@.len() == i,
                nh@.len() == i,
                forall|k: int| 0 <= k < i ==> #[trigger] np@[k] == gauge_parities(c0.parities@, v_mask, e)[k],
                forall|k: int| 0 <= k < i ==> #[trigger] nh@[k] == gauge_angles(c0.parities@, c0.phases@, v_mask, e)[k],
            decreases self.continuous_poly.parities@.len() - i,
        {
            let mut p = self.continuous_poly.parities[i];
            let mut t = self.continuous_poly.phases[i];
            if (p & v_mask) != 0 {
                let mut k: usize = 0;
                while k < e_poly.terms.len()
                    invariant
                        k <= e_poly.terms@.len(),
                        e == e_poly.terms@,
                        p == gauge_parity_upto(c0.parities@[i as int], e, k as int),
                        t as int == subst_angle_upto(c0.phases@[i as int] as int, e, k as int),
                    decreases e_poly.terms@.len() - k,
                {
                    let et = e_poly.terms[k];
                    if et == 0 {
                        t = negate_ticks(t);
                    } else if popcount(et) == 1 {
                        p = p ^ et;
                    }
                    k = k + 1;
                }
            }
            np.push(p);
            nh.push(t);
            i = i + 1;
        }
        assert(np@ =~= gauge_parities(c0.parities@, v_mask, e));
        assert(nh@ =~= gauge_angles(c0.parities@, c0.phases@, v_mask, e));
        self.set_continuous(np, nh);
        let ghost p0 = self.phase_poly;
        assert(p0 == old(self).phase_poly);
        let mut or_all: u128 = 0;
        let mut j: usize = 0;
        while j < self.phase_poly.terms.len()
            invariant
                j <= self.phase_poly.terms@.len(),
                self.phase_poly == p0,
                or_all == or_from(0, term_monos(p0.terms@), j as int),
            decreases self.phase_poly.terms@.len() - j,
        {
            or_all = or_all | self.phase_poly.terms[j].monomial();
            j = j + 1;
        }
        if (or_all & v_mask) == 0 {
            return;
        }
        let mut sub_terms: Vec<u128> = Vec::new();
        sub_terms.push(v_mask);
        let mut k: usize = 0;
        while k < e_poly.terms.len()
            invariant
                k <= e_poly.terms@.len(),
                e == e_poly.terms@,
                sub_terms@ == seq![v_mask] + e.take(k as int),
            decreases e_poly.terms@.len() - k,
        {
            sub_terms.push(e_poly.terms[k]);
            assert(seq![v_mask] + e.take(k + 1) =~= (seq![v_mask] + e.take(k as int)).push(e[k as int]));
            k = k + 1;
        }
        assert(e.take(e.len() as int) =~= e);
        let ghost sub = sub_terms@;
        let mut new_terms: Vec<PackedPhaseTerm> = Vec::new();
        let mut j: usize = 0;
        while j < self.phase_poly.terms.len()
            invariant
                j <= self.phase_poly.terms@.len(),
                self.phase_poly == p0,
                sub == sub_terms@,
                new_terms@ == gauge_batch(p0.terms@, v_mask, sub, j as int),
            decreases self.phase_poly.terms@.len() - j,
        {
            let ghost b0 = new_terms@;
            let term = self.phase_poly.terms[j];
            let mono = term.monomial();
            if (mono & v_mask) != 0 {
                push_xor_phase_expansion(&mut new_terms, mono & !v_mask, &sub_terms, term.phase());
            } else {
                new_terms.push(term);
            }
            assert(new_terms@ =~= b0 + gauge_term_expansion(term, v_mask, sub));
            j = j + 1;
        }
        self.set_phase_terms(new_terms);
    }

    /// `v := 1 ⊕ v` for a path variable, then restore canonical parities
    /// and the canonical discrete/continuous split. Involutive.
    fn flip_constant_gauge(&mut self, v: u128)
        requires
            old(self).wf(),
        ensures
            final(self).wf(),
            final(self).same_frame(old(self)),
            final(self).out_state@.len() == old(self).out_state@.len(),
            forall|q: int| 0 <= q < old(self).out_state@.len() ==> (#[trigger] final(self).out_state@[q]).monomials()
                == substituted_row(old(self).out_state@[q], v, seq![0u128]),
            forall|x: u128| #[trigger] final(self).continuous_poly.angle(x) == (if x != 0 {
                ticks_sum(
                    gauge_parities(old(self).continuous_poly.parities@, v, seq![0u128]),
                    gauge_angles(old(self).continuous_poly.parities@, old(self).continuous_poly.phases@, v, seq![0u128]),
                    x,
                ) % (crate::ticks::TICKS_PER_TURN as int)
            } else {
                0
            }) % (TICKS_PER_PI_2 as int),
    {
        let mut one: Vec<u128> = Vec::new();
        one.push(0);
        assert(one@ == seq![0u128]);
        let e = BooleanPoly::from_terms(one);
        proof {
            crate::sorted::lemma_toggle_all_single(Set::empty(), 0u128);
            assert(Set::<u128>::empty().insert(0u128) == crate::sorted::toggle(Set::empty(), 0u128));
            crate::sorted::lemma_sorted_singleton(e.terms@, 0u128);
        }
        self.gauge_substitute(v, &e);
        self.promote_cliffords();
    }

    /// Relabel path variables so that `order[k]` becomes bit `lo + k`;
    /// false when the labels are already in that order.
    fn relabel_gauge(&mut self, order: &Vec<u128>, lo: u32) -> (r: bool)
        requires
            old(self).wf(),
            lo <= 128,
        ensures
            final(self).wf(),
            final(self).same_frame(old(self)),
            r == !order_in_place(order@, lo),
            !r ==> *final(self) == *old(self),
    {
        let mut identity = true;
        let ghost mut bad: int = 0;
        let mut k: usize = 0;
        while k < order.len()
            invariant
                k <= order@.len(),
                lo <= 128,
                identity ==> (forall|kk: int| 0 <= kk < k ==> #[trigger] placed_at(order@, lo, kk)),
                !identity ==> 0 <= bad < k && !placed_at(order@, lo, bad),
            decreases order@.len() - k,
        {
            let in_place = k < 128 - (lo as usize) && order[k] == bit_at(lo + k as u32);
            assert(in_place == placed_at(order@, lo, k as int));
            if !in_place {
                identity = false;
                proof { bad = k as int; }
            }
            k = k + 1;
        }
        assert(identity == order_in_place(order@, lo)) by {
            if !identity {
                assert(!placed_at(order@, lo, bad));
            }
        }
        if identity {
            return false;
        }
        let mut remapping = filled_u32(128, 0);
        let mut i: u32 = 0;
        while i < lo && i < 128
            invariant
                i <= 128,
                remapping@.len() == 128,
                forall|j: int| 0 <= j < 128 ==> #[trigger] remapping@[j] < 128,
            decreases 128 - i,
        {
            remapping.set(i as usize, i);
            i = i + 1;
        }
        let mut k: usize = 0;
        while k < order.len()
            invariant
                k <= order@.len(),
                lo <= 128,
                remapping@.len() == 128,
                forall|j: int| 0 <= j < 128 ==> #[trigger] remapping@[j] < 128,
            decreases order@.len() - k,
        {
            let v = order[k];
            if v != 0 && k < 128 - (lo as usize) {
                let idx = lowest_bit(v);
                remapping.set(idx as usize, lo + k as u32);
            }
            k = k + 1;
        }
        let mut q: usize = 0;
        while q < self.out_state.len()
            invariant
                self.wf(),
                self.same_frame(old(self)),
                remapping@.len() == 128,
                forall|j: int| 0 <= j < 128 ==> #[trigger] remapping@[j] < 128,
            decreases self.out_state@.len() - q,
        {
            let mut nt: Vec<u128> = Vec::new();
            let mut t: usize = 0;
            while t < self.out_state[q].terms.len()
                invariant
                    q < self.out_state@.len(),
                    t <= self.out_state@[q as int].terms@.len(),
                    remapping@.len() == 128,
                    forall|j: int| 0 <= j < 128 ==> #[trigger] remapping@[j] < 128,
                decreases self.out_state@[q as int].terms@.len() - t,
            {
                nt.push(remap_mono(self.out_state[q].terms[t], &remapping));
                t = t + 1;
            }
            self.out_state.set(q, BooleanPoly::from_terms(nt));
            q = q + 1;
        }
        let mut np: Vec<u128> = Vec::new();
        let mut j: usize = 0;
        while j < self.continuous_poly.parities.len()
            invariant
                j <= self.continuous_poly.parities@.len(),
                np@.len() == j,
                remapping@.len() == 128,
                forall|jj: int| 0 <= jj < 128 ==> #[trigger] remapping@[jj] < 128,
            decreases self.continuous_poly.parities@.len() - j,
        {
            np.push(remap_mono(self.continuous_poly.parities[j], &remapping));
            j = j + 1;
        }
        let nh = self.continuous_poly.phases.clone();
        self.set_continuous(np, nh);
        let mut batch: Vec<PackedPhaseTerm> = Vec::new();
        let mut j: usize = 0;
        while j < self.phase_poly.terms.len()
            invariant
                j <= self.phase_poly.terms@.len(),
                remapping@.len() == 128,
                forall|jj: int| 0 <= jj < 128 ==> #[trigger] remapping@[jj] < 128,
            decreases self.phase_poly.terms@.len() - j,
        {
            let term = self.phase_poly.terms[j];
            batch.push(PackedPhaseTerm::create(remap_mono(term.monomial(), &remapping), term.phase()));
            j = j + 1;
        }
        self.set_phase_terms(batch);
        true
    }

    /// Among several fresh variables, the one with the fewest phase-term
    /// occurrences (cheapest substitution), ties to the lowest bit.
    fn pick(&self, fresh: u128) -> (r: u128)
        requires
            fresh != 0,
        ensures
            r != 0,
            r & fresh == r,
            zero_or_pow2(fresh) ==> r == fresh,
    {
        if is_zero_or_pow2(fresh) {
            proof { crate::bits::lemma_and_absorb(fresh, 0); }
            return fresh;
        }
        let mut counts = filled_u32(128, 0);
        let mut j: usize = 0;
        while j < self.phase_poly.terms.len()
            invariant
                j <= self.phase_poly.terms@.len(),
                counts@.len() == 128,
            decreases self.phase_poly.terms@.len() - j,
        {
            let mut pv = self.phase_poly.terms[j].monomial() & fresh;
            while pv != 0
                invariant
                    counts@.len() == 128,
                decreases pv,
            {
                let idx = lowest_bit(pv) as usize;
                let c = counts[idx];
                counts.set(idx, c.wrapping_add(1));
                proof { lemma_clear_lowest(pv); }
                pv = pv & (pv - 1);
            }
            j = j + 1;
        }
        let first = lowest_bit(fresh);
        let mut best: u128 = bit_at(first);
        let mut best_c: u32 = u32::MAX;
        let mut f = fresh;
        proof { crate::bits::lemma_and_absorb(fresh, 0); }
        while f != 0
            invariant
                counts@.len() == 128,
                best != 0,
                fresh & best == best,
                fresh & f == f,
            decreases f,
        {
            let idx = lowest_bit(f);
            if counts[idx as usize] < best_c {
                best_c = counts[idx as usize];
                best = bit_at(idx);
                assert(fresh & best == best) by (bit_vector)
                    requires fresh & f == f, f & best == best;
            }
            proof { lemma_clear_lowest(f); lemma_clear_lowest_subset(f, fresh); }
            f = f & (f - 1);
        }
        assert(best & fresh == best) by (bit_vector)
            requires fresh & best == best;
        best
    }
}


/// Lexicographic order on key triples.
pub open spec fn key3_lt(a: (u128, u64, u64), b: (u128, u64, u64)) -> bool {
    a.0 < b.0 || (a.0 == b.0 && (a.1 < b.1 || (a.1 == b.1 && a.2 < b.2)))
}

fn key3_less(a: (u128, u64, u64), b: (u128, u64, u64)) -> (r: bool)
    ensures
        r == key3_lt(a, b),
{
    a.0 < b.0 || (a.0 == b.0 && (a.1 < b.1 || (a.1 == b.1 && a.2 < b.2)))
}

/// Stable insertion sort of key triples.
fn sort_keys(v: Vec<(u128, u64, u64)>) -> (r: Vec<(u128, u64, u64)>)
    ensures
        r@.len() == v@.len(),
        forall|k: int| 0 <= k < r@.len() ==> v@.contains(#[trigger] r@[k]),
        forall|i: int, j: int| 0 <= i < j < r@.len() ==> !key3_lt(#[trigger] r@[j], #[trigger] r@[i]),
        r@.to_multiset() == v@.to_multiset(),
{
    let mut out: Vec<(u128, u64, u64)> = Vec::new();
    let mut i: usize = 0;
    assert(out@ =~= v@.subrange(0, 0));
    while i < v.len()
        invariant
            i <= v@.len(),
            out@.len() == i,
            out@.to_multiset() == v@.subrange(0, i as int).to_multiset(),
            forall|k: int| 0 <= k < out@.len() ==> v@.contains(#[trigger] out@[k]),
            forall|a: int, b: int| 0 <= a < b < out@.len() ==> !key3_lt(#[trigger] out@[b], #[trigger] out@[a]),
        decreases v@.len() - i,
    {
        let x = v[i];
        let mut pos: usize = 0;
        while pos < out.len() && !key3_less(x, out[pos])
            invariant
                pos <= out@.len(),
                forall|k: int| 0 <= k < pos ==> !key3_lt(x, #[trigger] out@[k]),
            decreases out@.len() - pos,
        {
            pos = pos + 1;
        }
        let ghost before = out@;
        out.insert(pos, x);
        proof {
            assert(out@ == before.insert(pos as int, x));
            assert forall|k: int| 0 <= k < out@.len() implies v@.contains(#[trigger] out@[k]) by {
                if k < pos { assert(out@[k] == before[k]); }
                else if k == pos { assert(v@[i as int] == x); }
                else { assert(out@[k] == before[k - 1]); }
            }
            assert forall|a: int, b: int| 0 <= a < b < out@.len() implies !key3_lt(#[trigger] out@[b], #[trigger] out@[a]) by {
                if b < pos {
                    assert(out@[a] == before[a] && out@[b] == before[b]);
                } else if b == pos {
                    assert(out@[a] == before[a]);
                } else if a == pos {
                    assert(out@[b] == before[b - 1]);
                    if pos < before.len() {
                        assert(key3_lt(x, before[pos as int]));
                        if b - 1 > pos {
                            assert(!key3_lt(before[b - 1], before[pos as int]));
                        }
                    }
                } else if a < pos {
                    assert(out@[a] == before[a] && out@[b] == before[b - 1]);
                } else {
                    assert(out@[a] == before[a - 1] && out@[b] == before[b - 1]);
                }
            }
            broadcast use vstd::seq_lib::to_multiset_insert, vstd::seq_lib::group_to_multiset_ensures;
            assert(v@.subrange(0, i + 1) =~= v@.subrange(0, i as int).push(x));
        }
        i = i + 1;
    }
    assert(v@.subrange(0, v@.len() as int) =~= v@);
    out
}

/// Three-way lexicographic order of key lists under [`key3_lt`], a shorter
/// prefix first: -1, 0 or 1.
pub open spec fn lex_keys(a: Seq<(u128, u64, u64)>, b: Seq<(u128, u64, u64)>) -> int
    decreases a.len(),
{
    if a.len() == 0 || b.len() == 0 {
        if a.len() < b.len() { -1 } else if a.len() > b.len() { 1 } else { 0 }
    } else if key3_lt(a[0], b[0]) {
        -1
    } else if key3_lt(b[0], a[0]) {
        1
    } else {
        lex_keys(a.drop_first(), b.drop_first())
    }
}

/// Three-way lexicographic comparison of key lists: -1, 0 or 1.
fn compare_key_lists(a: &Vec<(u128, u64, u64)>, b: &Vec<(u128, u64, u64)>) -> (r: i8)
    ensures
        r == lex_keys(a@, b@),
{
    let mut i: usize = 0;
    assert(a@.skip(0) =~= a@ && b@.skip(0) =~= b@);
    while i < a.len() && i < b.len()
        invariant
            i <= a@.len(),
            i <= b@.len(),
            lex_keys(a@, b@) == lex_keys(a@.skip(i as int), b@.skip(i as int)),
        decreases a@.len() - i,
    {
        assert(a@.skip(i as int)[0] == a@[i as int] && b@.skip(i as int)[0] == b@[i as int]);
        if key3_less(a[i], b[i]) {
            return -1;
        }
        if key3_less(b[i], a[i]) {
            return 1;
        }
        assert(a@.skip(i as int).drop_first() =~= a@.skip(i + 1));
        assert(b@.skip(i as int).drop_first() =~= b@.skip(i + 1));
        i = i + 1;
    }
    if a.len() < b.len() {
        -1
    } else if a.len() > b.len() {
        1
    } else {
        0
    }
}

/// Strict lexicographic order on a pair of key lists.
fn component_key_less(a: &(Vec<(u128, u64, u64)>, Vec<(u128, u64, u64)>), b: &(Vec<(u128, u64, u64)>, Vec<(u128, u64, u64)>)) -> (r: bool)
    ensures
        r == if lex_keys(a.0@, b.0@) != 0 { lex_keys(a.0@, b.0@) < 0 } else { lex_keys(a.1@, b.1@) < 0 },
{
    let c = compare_key_lists(&a.0, &b.0);
    if c != 0 {
        c < 0
    } else {
        compare_key_lists(&a.1, &b.1) < 0
    }
}

/// The SplitMix64 finaliser of `x`.
pub open spec fn mix_spec(x: u64) -> u64 {
    let y1 = x ^ (x >> 30u64);
    let y2 = vstd::wrapping::u64_specs::wrapping_mul(y1, 0xbf58_476d_1ce4_e5b9u64);
    let y3 = y2 ^ (y2 >> 27u64);
    let y4 = vstd::wrapping::u64_specs::wrapping_mul(y3, 0x94d0_49bb_1331_11ebu64);
    y4 ^ (y4 >> 31u64)
}

/// A 128-bit word folded into 64 bits: the low half XOR the high half
/// times an odd constant (wrapping).
pub open spec fn fold_bits_spec(x: u128) -> u64 {
    (x as u64) ^ vstd::wrapping::u64_specs::wrapping_mul((x >> 64u128) as u64, 0x2545_f491_4f6c_dd1du64)
}

/// SplitMix64 finaliser.
fn mix(x: u64) -> (r: u64)
    ensures
        r == mix_spec(x),
{
    let mut y = x ^ (x >> 30u64);
    y = y.wrapping_mul(0xbf58_476d_1ce4_e5b9u64);
    y = y ^ (y >> 27u64);
    y = y.wrapping_mul(0x94d0_49bb_1331_11ebu64);
    y ^ (y >> 31u64)
}

/// Fold a 128-bit word into 64 bits.
fn fold_bits(x: u128) -> (r: u64)
    ensures
        r == fold_bits_spec(x),
{
    let lo: u64 = #[verifier::truncate] (x as u64);
    let hi: u64 = #[verifier::truncate] ((x >> 64u128) as u64);
    lo ^ hi.wrapping_mul(0x2545_f491_4f6c_dd1du64)
}

/// Valid canonical label map: 128 entries, each a bit index.
pub open spec fn label_map(m: Seq<u32>) -> bool {
    m.len() == 128 && forall|i: int| 0 <= i < 128 ==> #[trigger] m[i] < 128
}

/// Canonical view of a monomial: inputs kept, row pivots moved to their
/// canonical labels, every other variable dropped.
fn canon_anchor(mono: u128, qubit_mask: u128, row_pivots: u128, canon_map: &Vec<u32>) -> (r: u128)
    requires
        label_map(canon_map@),
    ensures
        forall|j: int| 0 <= j < 128 ==> (#[trigger] bit(r, j) <==>
            bit(mono & qubit_mask, j) || remapped(mono & row_pivots, canon_map@, j)),
{
    let mut out = mono & qubit_mask;
    let mut pv = mono & row_pivots;
    let ghost kept = mono & qubit_mask;
    let ghost pivots = mono & row_pivots;
    while pv != 0
        invariant
            label_map(canon_map@),
            forall|b: int| 0 <= b < 128 && #[trigger] bit(pv, b) ==> bit(pivots, b),
            forall|j: int| 0 <= j < 128 ==> (#[trigger] bit(out, j) <==> bit(kept, j)
                || exists|b: int| 0 <= b < 128 && #[trigger] bit(pivots, b) && !bit(pv, b) && canon_map@[b] == j),
        decreases pv,
    {
        let idx = lowest_bit(pv);
        let target = canon_map[idx as usize];
        let ghost out0 = out;
        let ghost p0 = pv;
        out = out | bit_at(target);
        proof {
            lemma_clear_lowest(pv);
            lemma_bits_after_drop(p0, idx);
            assert forall|j: int| 0 <= j < 128 implies #[trigger] bit(out, j) == (bit(out0, j) || j == target) by {
                lemma_set_bit(out0, target as u128, j as u128);
            }
        }
        pv = pv & (pv - 1);
        proof {
            assert forall|b: int| 0 <= b < 128 && #[trigger] bit(pv, b) implies bit(pivots, b) by {}
            assert forall|j: int| 0 <= j < 128 implies (#[trigger] bit(out, j) <==> bit(kept, j)
                || exists|b: int| 0 <= b < 128 && #[trigger] bit(pivots, b) && !bit(pv, b) && canon_map@[b] == j) by {
                if bit(out, j) && !bit(kept, j) {
                    if bit(out0, j) {
                        let b = choose|b: int| 0 <= b < 128 && #[trigger] bit(pivots, b) && !bit(p0, b) && canon_map@[b] == j;
                        assert(!bit(pv, b));
                    } else {
                        assert(j == target);
                        assert(bit(pivots, idx as int) && !bit(pv, idx as int) && canon_map@[idx as int] == j);
                    }
                }
                if exists|b: int| 0 <= b < 128 && #[trigger] bit(pivots, b) && !bit(pv, b) && canon_map@[b] == j {
                    let b = choose|b: int| 0 <= b < 128 && #[trigger] bit(pivots, b) && !bit(pv, b) && canon_map@[b] == j;
                    if b != idx {
                        assert(!bit(p0, b));
                    }
                }
            }
        }
    }
    proof {
        assert forall|j: int| 0 <= j < 128 implies (#[trigger] bit(out, j) <==>
            bit(kept, j) || remapped(pivots, canon_map@, j)) by {
            assert forall|b: int| 0 <= b < 128 implies !#[trigger] bit(pv, b) by { lemma_zero_bits(b as u128); }
        }
    }
    out
}

/// Lexicographic order on parity-pivot keys.
pub open spec fn pivot_key_lt(a: (u64, u128, u32, usize), b: (u64, u128, u32, usize)) -> bool {
    a.0 < b.0 || (a.0 == b.0 && (a.1 < b.1 || (a.1 == b.1 && (a.2 < b.2 || (a.2 == b.2 && a.3 < b.3)))))
}

/// Lexicographic order on parity-pivot keys.
fn pivot_key_less(a: (u64, u128, u32, usize), b: (u64, u128, u32, usize)) -> (r: bool)
    ensures
        r == pivot_key_lt(a, b),
{
    a.0 < b.0 || (a.0 == b.0 && (a.1 < b.1 || (a.1 == b.1 && (a.2 < b.2 || (a.2 == b.2 && a.3 < b.3)))))
}

impl EvaluatedPathSum {
    /// Multiset hash of the phase terms and parities each non-row variable
    /// occurs in, seen through canonical anchors only.
    fn signatures(&self, rest_mask: u128, qubit_mask: u128, row_pivots: u128, canon_map: &Vec<u32>) -> (r: Vec<u64>)
        requires
            label_map(canon_map@),
        ensures
            r@.len() == 128,
    {
        let mut sig = filled_u64(128, 0);
        let mut j: usize = 0;
        while j < self.phase_poly.terms.len()
            invariant
                j <= self.phase_poly.terms@.len(),
                sig@.len() == 128,
                label_map(canon_map@),
            decreases self.phase_poly.terms@.len() - j,
        {
            let t = self.phase_poly.terms[j];
            let mono = t.monomial();
            let mut pv = mono & rest_mask;
            if pv != 0 {
                let a = fold_bits(canon_anchor(mono, qubit_mask, row_pivots, canon_map));
                let h = mix(mix(a ^ 0x9e37_79b9_7f4a_7c15u64) ^ ((t.phase() as u64) << 56u64) ^ ((popcount(pv) as u64) << 48u64));
                while pv != 0
                    invariant
                        sig@.len() == 128,
                    decreases pv,
                {
                    let idx = lowest_bit(pv) as usize;
                    let cur = sig[idx];
                    sig.set(idx, cur.wrapping_add(h));
                    proof { lemma_clear_lowest(pv); }
                    pv = pv & (pv - 1);
                }
            }
            j = j + 1;
        }
        let mut i: usize = 0;
        while i < self.continuous_poly.parities.len() && i < self.continuous_poly.phases.len()
            invariant
                sig@.len() == 128,
                label_map(canon_map@),
            decreases self.continuous_poly.parities@.len() - i,
        {
            let parity = self.continuous_poly.parities[i];
            let ticks = self.continuous_poly.phases[i];
            let mut pv = parity & rest_mask;
            if pv != 0 {
                let a = fold_bits(canon_anchor(parity, qubit_mask, row_pivots, canon_map));
                let h = mix(mix(a ^ 0x7f4a_7c15_9e37_79b9u64) ^ ((ticks as u64) << 32u64) ^ (popcount(pv) as u64));
                while pv != 0
                    invariant
                        sig@.len() == 128,
                    decreases pv,
                {
                    let idx = lowest_bit(pv) as usize;
                    let cur = sig[idx];
                    sig.set(idx, cur.wrapping_add(h));
                    proof { lemma_clear_lowest(pv); }
                    pv = pv & (pv - 1);
                }
            }
            i = i + 1;
        }
        sig
    }
}

/// Variable `a` comes before variable `b` by `(signature, label)`.
pub open spec fn sig_label_lt(sig: Seq<u64>, a: int, b: int) -> bool {
    sig[a] < sig[b] || (sig[a] == sig[b] && a < b)
}

/// The variables of `mask` ordered by `(signature, label)`.
fn sorted_by_signature(sig: &Vec<u64>, mask: u128) -> (r: Vec<u128>)
    requires
        sig@.len() == 128,
    ensures
        forall|k: int| 0 <= k < r@.len() ==> #[trigger] r@[k] != 0,
        r@.len() == mask_bit_seq(mask, 128).len(),
        forall|k: int| 0 <= k < r@.len() ==> mask_bit_seq(mask, 128).contains(#[trigger] r@[k]),
        forall|w: u128| mask_bit_seq(mask, 128).contains(w) ==> #[trigger] r@.contains(w),
        forall|i: int, j: int, a: u128, b: u128|
            #![trigger r@[i], r@[j], 1u128 << a, 1u128 << b]
            0 <= i < j < r@.len() && a < 128 && b < 128 && r@[i] == 1u128 << a && r@[j] == 1u128 << b
                ==> !sig_label_lt(sig@, b as int, a as int),
{
    let mut keys: Vec<(u128, u64, u64)> = Vec::new();
    let ghost mut lbls: Seq<u128> = Seq::empty();
    let mut f = mask;
    assert(lbls + mask_bit_seq(f, 128) =~= mask_bit_seq(mask, 128));
    while f != 0
        invariant
            sig@.len() == 128,
            lbls + mask_bit_seq(f, 128) == mask_bit_seq(mask, 128),
            keys@.len() == lbls.len(),
            forall|k: int| 0 <= k < keys@.len() ==> (#[trigger] keys@[k]).1 < 128
                && keys@[k].0 == sig@[keys@[k].1 as int] as u128 && keys@[k].2 == 0
                && lbls[k] == 1u128 << (keys@[k].1 as u128),
        decreases f,
    {
        let idx = lowest_bit(f);
        keys.push((sig[idx as usize] as u128, idx as u64, 0));
        proof {
            let l0 = lbls;
            lemma_clear_lowest(f);
            lemma_bit_seq_drop(f, idx, 128);
            lbls = lbls.push(1u128 << (idx as u128));
            assert(lbls + mask_bit_seq(f & ((f - 1) as u128), 128) =~= l0 + mask_bit_seq(f, 128));
        }
        f = f & (f - 1);
    }
    proof {
        lemma_bit_seq_zero(128);
        assert(lbls =~= lbls + mask_bit_seq(f, 128));
    }
    let sorted = sort_keys(keys);
    let mut out: Vec<u128> = Vec::new();
    let mut k: usize = 0;
    while k < sorted.len()
        invariant
            k <= sorted@.len(),
            sorted@.len() == keys@.len(),
            forall|q: int| 0 <= q < sorted@.len() ==> keys@.contains(#[trigger] sorted@[q]),
            forall|q: int| 0 <= q < keys@.len() ==> (#[trigger] keys@[q]).1 < 128,
            out@.len() == k,
            forall|q: int| 0 <= q < k ==> #[trigger] out@[q] == 1u128 << (sorted@[q].1 as u128),
        decreases sorted@.len() - k,
    {
        let e = sorted[k];
        proof {
            assert(keys@.contains(sorted@[k as int]));
            let w = choose|w: int| 0 <= w < keys@.len() && keys@[w] == sorted@[k as int];
            assert(keys@[w].1 < 128);
        }
        out.push(bit_at(e.1 as u32));
        k = k + 1;
    }
    proof {
        broadcast use vstd::seq_lib::group_to_multiset_ensures;
        let bs = mask_bit_seq(mask, 128);
        assert forall|q: int| 0 <= q < out@.len() implies
            #[trigger] out@[q] != 0 && bs.contains(out@[q]) by {
            assert(keys@.contains(sorted@[q]));
            let w = choose|w: int| 0 <= w < keys@.len() && keys@[w] == sorted@[q];
            assert(lbls[w] == out@[q]);
            assert(bs[w] == out@[q]);
            crate::parity_network::lemma_bit_single(keys@[w].1 as u128, keys@[w].1 as u128);
            lemma_zero_bits(keys@[w].1 as u128);
        }
        assert forall|x: u128| bs.contains(x) implies #[trigger] out@.contains(x) by {
            let m = choose|m: int| 0 <= m < bs.len() && bs[m] == x;
            let key = keys@[m];
            assert(keys@.contains(key));
            assert(keys@.to_multiset().count(key) > 0);
            assert(sorted@.contains(key));
            let q = choose|q: int| 0 <= q < sorted@.len() && sorted@[q] == key;
            assert(out@[q] == x);
        }
        assert forall|i: int, j: int, a: u128, b: u128|
            0 <= i < j < out@.len() && a < 128 && b < 128 && #[trigger] out@[i] == #[trigger] (1u128 << a)
                && #[trigger] out@[j] == #[trigger] (1u128 << b)
            implies !sig_label_lt(sig@, b as int, a as int) by {
            let si = sorted@[i];
            let sj = sorted@[j];
            assert(keys@.contains(si));
            assert(keys@.contains(sj));
            let wi = choose|w: int| 0 <= w < keys@.len() && keys@[w] == si;
            let wj = choose|w: int| 0 <= w < keys@.len() && keys@[w] == sj;
            let ai = si.1 as u128;
            let bj = sj.1 as u128;
            assert(keys@[wi].1 < 128 && keys@[wj].1 < 128);
            crate::parity_network::lemma_bit_single(a, a);
            crate::parity_network::lemma_bit_single(ai, a);
            crate::parity_network::lemma_bit_single(b, b);
            crate::parity_network::lemma_bit_single(bj, b);
            assert(a == ai);
            assert(b == bj);
            assert(!key3_lt(sj, si));
        }
    }
    out
}


impl EvaluatedPathSum {
    /// Label-independent rendering of everything that touches the variables
    /// of `comp`: component variables relabelled by signature rank, other
    /// non-row variables erased to a count.
    fn component_key(&self, comp: u128, rest_mask: u128, qubit_mask: u128, row_pivots: u128, canon_map: &Vec<u32>)
        -> (r: (Vec<(u128, u64, u64)>, Vec<(u128, u64, u64)>))
        requires
            self.wf(),
            label_map(canon_map@),
        ensures
            r.0@.len() == meeting_count(term_monos(self.phase_poly.terms@), comp, self.phase_poly.terms@.len() as int),
            r.1@.len() == meeting_count(self.continuous_poly.parities@, comp, self.continuous_poly.parities@.len() as int),
            forall|i: int, j: int| 0 <= i < j < r.0@.len() ==> !key3_lt(#[trigger] r.0@[j], #[trigger] r.0@[i]),
            forall|i: int, j: int| 0 <= i < j < r.1@.len() ==> !key3_lt(#[trigger] r.1@[j], #[trigger] r.1@[i]),
    {
        let sig = self.signatures(rest_mask, qubit_mask, row_pivots, canon_map);
        let mut ranked: Vec<(u128, u64, u64)> = Vec::new();
        let mut c = comp;
        while c != 0
            invariant
                sig@.len() == 128,
                forall|k: int| 0 <= k < ranked@.len() ==> (#[trigger] ranked@[k]).1 < 128,
            decreases c,
        {
            let idx = lowest_bit(c);
            ranked.push((sig[idx as usize] as u128, idx as u64, 0));
            proof { lemma_clear_lowest(c); }
            c = c & (c - 1);
        }
        let ranked_sorted = sort_keys(ranked);
        let mut rank = filled_u32(128, 0);
        let mut k: usize = 0;
        while k < ranked_sorted.len()
            invariant
                rank@.len() == 128,
                forall|q: int| 0 <= q < ranked_sorted@.len() ==> ranked@.contains(#[trigger] ranked_sorted@[q]),
                forall|q: int| 0 <= q < ranked@.len() ==> (#[trigger] ranked@[q]).1 < 128,
            decreases ranked_sorted@.len() - k,
        {
            let e = ranked_sorted[k];
            proof {
                assert(ranked@.contains(ranked_sorted@[k as int]));
                let w = choose|w: int| 0 <= w < ranked@.len() && ranked@[w] == ranked_sorted@[k as int];
                assert(ranked@[w].1 < 128);
            }
            if k < 128 {
                rank.set(e.1 as usize, k as u32);
            }
            k = k + 1;
        }
        let lo = self.num_qubits;
        let mut terms: Vec<(u128, u64, u64)> = Vec::new();
        let mut j: usize = 0;
        while j < self.phase_poly.terms.len()
            invariant
                j <= self.phase_poly.terms@.len(),
                rank@.len() == 128,
                label_map(canon_map@),
                terms@.len() == meeting_count(term_monos(self.phase_poly.terms@), comp, j as int),
            decreases self.phase_poly.terms@.len() - j,
        {
            let t = self.phase_poly.terms[j];
            let mono = t.monomial();
            if (mono & comp) != 0 {
                let v = self.component_view(mono, comp, rest_mask, qubit_mask, row_pivots, canon_map, &rank, lo);
                terms.push((v.0, t.phase() as u64, v.1));
            }
            j = j + 1;
        }
        let mut parities: Vec<(u128, u64, u64)> = Vec::new();
        let mut i: usize = 0;
        while i < self.continuous_poly.parities.len() && i < self.continuous_poly.phases.len()
            invariant
                rank@.len() == 128,
                label_map(canon_map@),
                self.wf(),
                i <= self.continuous_poly.parities@.len(),
                parities@.len() == meeting_count(self.continuous_poly.parities@, comp, i as int),
            decreases self.continuous_poly.parities@.len() - i,
        {
            let p = self.continuous_poly.parities[i];
            if (p & comp) != 0 {
                let v = self.component_view(p, comp, rest_mask, qubit_mask, row_pivots, canon_map, &rank, lo);
                parities.push((v.0, self.continuous_poly.phases[i] as u64, v.1));
            }
            i = i + 1;
        }
        (sort_keys(terms), sort_keys(parities))
    }

    /// A monomial seen by [`Self::component_key`]: its canonical anchor with
    /// the component variables at their ranks, and the number of other
    /// non-row variables in it.
    fn component_view(&self, mono: u128, comp: u128, rest_mask: u128, qubit_mask: u128, row_pivots: u128,
        canon_map: &Vec<u32>, rank: &Vec<u32>, lo: u32) -> (r: (u128, u64))
        requires
            label_map(canon_map@),
            rank@.len() == 128,
        ensures
            forall|j: int| 0 <= j < 128 ==> (#[trigger] bit(r.0, j) <==>
                bit(mono & qubit_mask, j) || remapped(mono & row_pivots, canon_map@, j)
                || exists|b: int| 0 <= b < 128 && #[trigger] bit(mono & comp, b) && lo + rank@[b] == j),
            r.1 == crate::gray::pop_upto(mono & rest_mask & !comp, 128),
    {
        let mut out = canon_anchor(mono, qubit_mask, row_pivots, canon_map);
        let ghost anchor = out;
        let ghost cm = mono & comp;
        let mut cv = mono & comp;
        while cv != 0
            invariant
                rank@.len() == 128,
                forall|b: int| 0 <= b < 128 && #[trigger] bit(cv, b) ==> bit(cm, b),
                forall|j: int| 0 <= j < 128 ==> (#[trigger] bit(out, j) <==> bit(anchor, j)
                    || exists|b: int| 0 <= b < 128 && #[trigger] bit(cm, b) && !bit(cv, b) && lo + rank@[b] == j),
            decreases cv,
        {
            let idx = lowest_bit(cv);
            let rk = rank[idx as usize];
            let ghost out0 = out;
            let ghost c0 = cv;
            if (lo as u64) + (rk as u64) < 128 {
                out = out | bit_at(lo + rk);
                proof {
                    assert forall|j: int| 0 <= j < 128 implies #[trigger] bit(out, j) == (bit(out0, j) || j == lo + rk) by {
                        lemma_set_bit(out0, (lo + rk) as u128, j as u128);
                    }
                }
            }
            proof {
                lemma_clear_lowest(cv);
                lemma_bits_after_drop(c0, idx);
            }
            cv = cv & (cv - 1);
            proof {
                assert forall|b: int| 0 <= b < 128 && #[trigger] bit(cv, b) implies bit(cm, b) by {}
                assert forall|j: int| 0 <= j < 128 implies (#[trigger] bit(out, j) <==> bit(anchor, j)
                    || exists|b: int| 0 <= b < 128 && #[trigger] bit(cm, b) && !bit(cv, b) && lo + rank@[b] == j) by {
                    if bit(out, j) && !bit(anchor, j) {
                        if bit(out0, j) {
                            let b = choose|b: int| 0 <= b < 128 && #[trigger] bit(cm, b) && !bit(c0, b) && lo + rank@[b] == j;
                            assert(!bit(cv, b));
                        } else {
                            assert(bit(cm, idx as int) && !bit(cv, idx as int) && lo + rank@[idx as int] == j);
                        }
                    }
                    if exists|b: int| 0 <= b < 128 && #[trigger] bit(cm, b) && !bit(cv, b) && lo + rank@[b] == j {
                        let b = choose|b: int| 0 <= b < 128 && #[trigger] bit(cm, b) && !bit(cv, b) && lo + rank@[b] == j;
                        if b != idx {
                            assert(!bit(c0, b));
                        } else {
                            assert(lo + rk == j);
                        }
                    }
                }
            }
        }
        proof {
            assert forall|b: int| 0 <= b < 128 implies !#[trigger] bit(cv, b) by { lemma_zero_bits(b as u128); }
        }
        (out, popcount(mono & rest_mask & !comp) as u64)
    }

    /// Decide between `v` and `1 ⊕ v` for a variable that is not a row pivot.
    /// Flipping negates every phase on `v`: a parity remainder `r` becomes
    /// `π/2 - r`, and the discrete coefficients `c_M` of the terms `c_M·v·M`
    /// become `-c_M + δ_M` (`δ_∅ = 6·P`, `δ_w = 4·P_vw` for the parity counts
    /// `P`, `P_vw`). Keep the smaller value at the first coordinate where the
    /// two differ.
    fn constant_gauge_wants_flip(&self, v: u128) -> bool
        requires
            self.wf(),
    {
        let mut bare_remainder: Option<u64> = None;
        let mut parity_count: u64 = 0;
        let mut shared: Vec<(u128, u64)> = Vec::new();
        let mut i: usize = 0;
        while i < self.continuous_poly.parities.len() && i < self.continuous_poly.phases.len()
            decreases self.continuous_poly.parities@.len() - i,
        {
            let parity = self.continuous_poly.parities[i];
            if (parity & v) != 0 {
                parity_count = parity_count.wrapping_add(1);
                if is_zero_or_pow2(parity) {
                    bare_remainder = Some(self.continuous_poly.phases[i] as u64);
                }
                let mut others = parity & !v;
                while others != 0
                    decreases others,
                {
                    let w = bit_at(lowest_bit(others));
                    proof { lemma_clear_lowest(others); }
                    others = others & (others - 1);
                    let mut found = false;
                    let mut s: usize = 0;
                    while s < shared.len()
                        invariant
                            s <= shared@.len(),
                        decreases shared@.len() - s,
                    {
                        if shared[s].0 == w {
                            let e = shared[s];
                            shared.set(s, (e.0, e.1.wrapping_add(1)));
                            found = true;
                            break;
                        }
                        s = s + 1;
                    }
                    if !found {
                        shared.push((w, 1));
                    }
                }
            }
            i = i + 1;
        }
        if let Some(r) = bare_remainder {
            if r != TICKS_PER_PI_4 {
                return r > TICKS_PER_PI_4;
            }
        }
        let mut coords: Vec<(u128, u64, u64)> = Vec::new();
        let mut linear: u8 = 0;
        let mut j: usize = 0;
        while j < self.phase_poly.terms.len()
            invariant
                j <= self.phase_poly.terms@.len(),
            decreases self.phase_poly.terms@.len() - j,
        {
            let t = self.phase_poly.terms[j];
            let mono = t.monomial();
            if (mono & v) != 0 {
                let m = mono & !v;
                if m == 0 {
                    linear = t.phase();
                } else {
                    let mut delta: u64 = 0;
                    if is_zero_or_pow2(m) {
                        let mut s: usize = 0;
                        while s < shared.len()
                            invariant
                                s <= shared@.len(),
                            decreases shared@.len() - s,
                        {
                            if shared[s].0 == m {
                                delta = (shared[s].1 % 2) * 4;
                                break;
                            }
                            s = s + 1;
                        }
                    }
                    coords.push((m, t.phase() as u64, delta));
                }
            }
            j = j + 1;
        }
        let mut s: usize = 0;
        while s < shared.len()
            invariant
                s <= shared@.len(),
            decreases shared@.len() - s,
        {
            let (w, k) = shared[s];
            let mut present = false;
            let mut j: usize = 0;
            while j < self.phase_poly.terms.len()
                invariant
                    j <= self.phase_poly.terms@.len(),
                decreases self.phase_poly.terms@.len() - j,
            {
                if self.phase_poly.terms[j].monomial() == (v | w) {
                    present = true;
                }
                j = j + 1;
            }
            if !present {
                coords.push((w, 0, (k % 2) * 4));
            }
            s = s + 1;
        }
        coords.push((0, linear as u64, ((parity_count % 4) * 6) % 8));
        let sorted = sort_keys(coords);
        let mut k: usize = 0;
        while k < sorted.len()
            invariant
                k <= sorted@.len(),
            decreases sorted@.len() - k,
        {
            let c = sorted[k].1 % 8;
            let delta = sorted[k].2 % 8;
            let flipped = (delta + 8 - c) % 8;
            if flipped != c {
                return flipped < c;
            }
            k = k + 1;
        }
        false
    }
}


impl EvaluatedPathSum {
    /// Whether an output row holds a product involving a path variable.
    fn has_nonlinear_row(&self, path_mask: u128) -> (r: bool)
        requires
            self.wf(),
        ensures
            r == exists|q: int, t: int| 0 <= q < self.out_state@.len() && 0 <= t < self.out_state@[q].terms@.len()
                && #[trigger] self.out_state@[q].terms@[t] & path_mask != 0 && !zero_or_pow2(self.out_state@[q].terms@[t]),
    {
        let mut q: usize = 0;
        while q < self.out_state.len()
            invariant
                q <= self.out_state@.len(),
                forall|a: int, b: int| 0 <= a < q && 0 <= b < self.out_state@[a].terms@.len()
                    ==> !(#[trigger] self.out_state@[a].terms@[b] & path_mask != 0 && !zero_or_pow2(self.out_state@[a].terms@[b])),
            decreases self.out_state@.len() - q,
        {
            let mut t: usize = 0;
            while t < self.out_state[q].terms.len()
                invariant
                    q < self.out_state@.len(),
                    t <= self.out_state@[q as int].terms@.len(),
                    forall|a: int, b: int| 0 <= a < q && 0 <= b < self.out_state@[a].terms@.len()
                        ==> !(#[trigger] self.out_state@[a].terms@[b] & path_mask != 0 && !zero_or_pow2(self.out_state@[a].terms@[b])),
                    forall|b: int| 0 <= b < t
                        ==> !(#[trigger] self.out_state@[q as int].terms@[b] & path_mask != 0 && !zero_or_pow2(self.out_state@[q as int].terms@[b])),
                decreases self.out_state@[q as int].terms@.len() - t,
            {
                let term = self.out_state[q].terms[t];
                if (term & path_mask) != 0 && !is_zero_or_pow2(term) {
                    return true;
                }
                t = t + 1;
            }
            q = q + 1;
        }
        false
    }

    /// Canonical form of the path-variable gauge.
    ///
    /// Path variables are only defined up to invertible affine substitutions
    /// and relabelling. This pass picks one representative:
    /// 1. row echelon: scanning `out_state` in order, the first not yet
    ///    pivoted path variable of a row becomes its pivot and the row is
    ///    reduced to exactly that variable;
    /// 2. parity pivots: the same for continuous parities, visited in a
    ///    label-independent order (angle, then canonical content);
    /// 3. constant gauge: each remaining variable `v` or `1 ⊕ v`, decided by
    ///    its bare-parity remainder and then its discrete coefficients
    ///    (connected components jointly, by exhaustive search);
    /// 4. relabel: row pivots in row order, then the rest by signature.
    ///
    /// Every step is meant as a bijective change of summation variables;
    /// the contract states the frame, and that a state without path
    /// variables, an overflowed one, or one already in the settled gauge is
    /// left as it is.
    pub fn canonicalize_gauge(&mut self) -> (changed: bool)
        requires
            old(self).wf(),
        ensures
            final(self).wf(),
            final(self).same_frame(old(self)),
            old(self).overflow_id != 0 || old(self).num_path_vars == 0 ==> *final(self) == *old(self) && !changed,
            gauge_settled(*old(self)) ==> *final(self) == *old(self) && !changed,
    {
        if self.overflow_id != 0 {
            return false;
        }
        if self.num_path_vars == 0 {
            return false;
        }
        let lo = self.num_qubits;
        let path_mask = self.path_var_mask();
        let qubit_mask = low_mask(lo);
        if self.has_nonlinear_row(path_mask) {
            return false;
        }
        let ghost frame = *self;
        let ghost settled = gauge_settled(frame);
        let mut changed = false;
        let mut pivots: u128 = 0;
        let mut order: Vec<u128> = Vec::new();
        let ghost mut next_g: u128 = 1u128 << (lo as u128);
        let ghost mut idx: int = lo as int;
        proof {
            if lo < 128 {
                crate::bits::lemma_bit_ops(0, 0, lo as u128);
            }
        }

        // 1. Row echelon.
        let mut q: usize = 0;
        while q < self.out_state.len()
            invariant
                self.wf(),
                self.same_frame(&frame),
                lo == self.num_qubits,
                lo <= 128,
                frame == *old(self),
                settled == gauge_settled(frame),
                path_mask == path_mask_of(frame),
                settled ==> *self == frame && !changed,
                settled ==> pivot_scan(frame.out_state@, path_mask, q as int, pivots, next_g) == Some(path_mask),
                settled ==> idx == lo + order@.len() && idx <= 128,
                settled && idx < 128 ==> next_g == 1u128 << (idx as u128),
                settled && idx == 128 ==> next_g == 0,
                settled ==> order_in_place(order@, lo),
            decreases self.out_state@.len() - q,
        {
            let fresh = self.out_state[q].variable_mask & path_mask & !pivots;
            if fresh != 0 {
                let v = self.pick(fresh);
                proof {
                    if settled {
                        assert(self.out_state@[q as int].terms@.len() == 1 && fresh == next_g);
                        crate::bits::lemma_bit_ops(0, 0, idx as u128);
                        assert(v == fresh);
                    }
                }
                let ghost o0 = order@;
                pivots = pivots | v;
                order.push(v);
                proof {
                    if settled {
                        assert forall|k: int| 0 <= k < order@.len() implies k < 128 - lo
                            && #[trigger] placed_at(order@, lo, k) by {
                            if k < o0.len() {
                                assert(order@[k] == o0[k]);
                                assert(placed_at(o0, lo, k));
                            }
                        }
                        crate::bits::lemma_bit_ops(0, 0, idx as u128);
                        next_g = next_g << 1u128;
                        idx = idx + 1;
                    }
                }
                if self.out_state[q].terms.len() > 1 {
                    let mut residue: Vec<u128> = Vec::new();
                    let mut t: usize = 0;
                    while t < self.out_state[q].terms.len()
                        invariant
                            q < self.out_state@.len(),
                            t <= self.out_state@[q as int].terms@.len(),
                        decreases self.out_state@[q as int].terms@.len() - t,
                    {
                        let term = self.out_state[q].terms[t];
                        if term != v {
                            residue.push(term);
                        }
                        t = t + 1;
                    }
                    changed = true;
                    let e = BooleanPoly::from_terms(residue);
                    self.gauge_substitute(v, &e);
                }
            }
            q = q + 1;
        }
        let row_pivots = pivots;
        proof {
            if settled {
                assert(pivots == path_mask);
            }
        }
        if changed {
            self.promote_cliffords();
        }

        let mut canon_map = filled_u32(128, 0);
        let mut k: usize = 0;
        while k < order.len()
            invariant
                lo <= 128,
                label_map(canon_map@),
            decreases order@.len() - k,
        {
            let v = order[k];
            if v != 0 && k < 128 - (lo as usize) {
                canon_map.set(lowest_bit(v) as usize, lo + k as u32);
            }
            k = k + 1;
        }

        // 2. Parity pivots, smallest (angle, canonical content) first.
        loop
            invariant
                self.wf(),
                self.same_frame(&frame),
                lo == self.num_qubits,
                lo <= 128,
                label_map(canon_map@),
                frame == *old(self),
                settled ==> *self == frame && !changed && pivots == path_mask && row_pivots == path_mask,
                settled ==> order_in_place(order@, lo),
            decreases path_mask & !pivots,
        {
            let mut found = false;
            let mut best: (u64, u128, u32, usize) = (0, 0, 0, 0);
            let mut i: usize = 0;
            while i < self.continuous_poly.parities.len()
                invariant
                    self.wf(),
                    i <= self.continuous_poly.parities@.len(),
                    label_map(canon_map@),
                    found ==> best.3 < self.continuous_poly.parities@.len(),
                    settled ==> pivots == path_mask && !found,
                decreases self.continuous_poly.parities@.len() - i,
            {
                let parity = self.continuous_poly.parities[i];
                proof { lemma_and_not_self(parity, path_mask); }
                let fresh = parity & path_mask & !pivots;
                if fresh != 0 {
                    let r = self.continuous_poly.phases[i] as u64;
                    let rr = (TICKS_PER_PI_2 as u64).wrapping_sub(r);
                    let m = if r < rr { r } else { rr };
                    let key = (m, canon_anchor(parity, qubit_mask, row_pivots, &canon_map), popcount(fresh), i);
                    if !found || pivot_key_less(key, best) {
                        best = key;
                        found = true;
                    }
                }
                i = i + 1;
            }
            if !found {
                break;
            }
            let idx = best.3;
            let parity = self.continuous_poly.parities[idx];
            let fresh = parity & path_mask & !pivots;
            if fresh == 0 {
                break;
            }
            let v = self.pick(fresh);
            let ghost before = pivots;
            pivots = pivots | v;
            proof {
                let m0 = path_mask & !before;
                assert(m0 & v == v && (path_mask & !(before | v)) == m0 & !v) by (bit_vector)
                    requires fresh == parity & path_mask & !before, v & fresh == v, m0 == path_mask & !before;
                lemma_remove_bits(m0, v);
            }
            if parity != v {
                let residue = BooleanPoly::from_mask(parity ^ v);
                changed = true;
                self.gauge_substitute(v, &residue);
                self.promote_cliffords();
            }
        }

        let rest_mask = path_mask & !row_pivots;
        proof { lemma_and_not_self(path_mask, path_mask); }
        if rest_mask == 0 {
            let r = self.relabel_gauge(&order, lo);
            return r || changed;
        }

        // 3. Constant gauge.
        let mut bare = filled_u64(128, u64::MAX);
        let mut pcount = filled_u32(128, 0);
        let mut parity_adj: u128 = 0;
        let mut i: usize = 0;
        while i < self.continuous_poly.parities.len()
            invariant
                self.wf(),
                bare@.len() == 128,
                pcount@.len() == 128,
            decreases self.continuous_poly.parities@.len() - i,
        {
            let parity = self.continuous_poly.parities[i];
            let pv = parity & rest_mask;
            if pv != 0 {
                if !is_zero_or_pow2(pv) {
                    parity_adj = parity_adj | pv;
                }
                if is_zero_or_pow2(parity) {
                    bare.set(lowest_bit(pv) as usize, self.continuous_poly.phases[i] as u64);
                }
                let mut f = pv;
                while f != 0
                    invariant
                        pcount@.len() == 128,
                    decreases f,
                {
                    let idx = lowest_bit(f) as usize;
                    let c = pcount[idx];
                    pcount.set(idx, c.wrapping_add(1));
                    proof { lemma_clear_lowest(f); }
                    f = f & (f - 1);
                }
            }
            i = i + 1;
        }
        // (a) Variables with a bare parity remainder other than π/4.
        let mut tied: u128 = 0;
        let mut f = rest_mask;
        while f != 0
            invariant
                self.wf(),
                self.same_frame(&frame),
                bare@.len() == 128,
            decreases f,
        {
            let idx = lowest_bit(f);
            let v = bit_at(idx);
            proof { lemma_clear_lowest(f); }
            f = f & (f - 1);
            let r = bare[idx as usize];
            if r != u64::MAX && r != TICKS_PER_PI_4 as u64 {
                if r > TICKS_PER_PI_4 as u64 {
                    changed = true;
                    self.flip_constant_gauge(v);
                }
            } else {
                tied = tied | v;
            }
        }
        // (b) The remaining variables, by connected components.
        if tied != 0 {
            let mut adj = filled_u128(128, 0);
            let mut j: usize = 0;
            while j < self.phase_poly.terms.len()
                invariant
                    adj@.len() == 128,
                decreases self.phase_poly.terms@.len() - j,
            {
                let tv = self.phase_poly.terms[j].monomial() & tied;
                if !is_zero_or_pow2(tv) {
                    let mut g = tv;
                    while g != 0
                        invariant
                            adj@.len() == 128,
                        decreases g,
                    {
                        let idx = lowest_bit(g) as usize;
                        let a = adj[idx];
                        adj.set(idx, a | tv);
                        proof { lemma_clear_lowest(g); }
                        g = g & (g - 1);
                    }
                }
                j = j + 1;
            }
            let mut i: usize = 0;
            while i < self.continuous_poly.parities.len()
                invariant
                    adj@.len() == 128,
                decreases self.continuous_poly.parities@.len() - i,
            {
                let tv = self.continuous_poly.parities[i] & tied;
                if !is_zero_or_pow2(tv) {
                    let mut g = tv;
                    while g != 0
                        invariant
                            adj@.len() == 128,
                        decreases g,
                    {
                        let idx = lowest_bit(g) as usize;
                        let a = adj[idx];
                        adj.set(idx, a | tv);
                        proof { lemma_clear_lowest(g); }
                        g = g & (g - 1);
                    }
                }
                i = i + 1;
            }
            // Isolated variables: one pass over the terms decides them all.
            let mut simple: u128 = 0;
            let mut g = tied;
            while g != 0
                invariant
                    adj@.len() == 128,
                decreases g,
            {
                let idx = lowest_bit(g);
                let v = bit_at(idx);
                proof { lemma_clear_lowest(g); }
                g = g & (g - 1);
                if (adj[idx as usize] & !v) == 0 && (parity_adj & v) == 0 {
                    simple = simple | v;
                }
            }
            let mut undecided = simple;
            let mut flips: u128 = 0;
            let mut j: usize = 0;
            while j < self.phase_poly.terms.len() && undecided != 0
                invariant
                    pcount@.len() == 128,
                decreases self.phase_poly.terms@.len() - j,
            {
                let t = self.phase_poly.terms[j];
                let mono = t.monomial();
                let c = t.phase() as u32;
                let mut pv = mono & undecided;
                while pv != 0
                    invariant
                        pcount@.len() == 128,
                    decreases pv,
                {
                    let idx = lowest_bit(pv);
                    let v = bit_at(idx);
                    proof { lemma_clear_lowest(pv); }
                    pv = pv & (pv - 1);
                    let pc = (pcount[idx as usize] % 8) as u32;
                    let mut decided = false;
                    if mono != v {
                        let f_lin = (6 * pc) % 8;
                        if f_lin != 0 {
                            undecided = undecided & !v;
                            decided = true;
                        }
                    }
                    if !decided {
                        let fc = if mono == v { (6 * pc + 8 - c % 8) % 8 } else { (8 - c % 8) % 8 };
                        if fc != c {
                            if fc < c {
                                flips = flips | v;
                            }
                            undecided = undecided & !v;
                        }
                    }
                }
                j = j + 1;
            }
            let mut g = flips;
            while g != 0
                invariant
                    self.wf(),
                    self.same_frame(&frame),
                decreases g,
            {
                let v = bit_at(lowest_bit(g));
                proof { lemma_clear_lowest(g); }
                g = g & (g - 1);
                changed = true;
                self.flip_constant_gauge(v);
            }
            // Connected components of the remaining tied variables.
            let mut remaining = tied & !simple;
            while remaining != 0
                invariant
                    self.wf(),
                    self.same_frame(&frame),
                    lo == self.num_qubits,
                    adj@.len() == 128,
                    label_map(canon_map@),
                decreases remaining,
            {
                let mut comp = bit_at(lowest_bit(remaining));
                assert(remaining & comp == comp);
                loop
                    invariant
                        adj@.len() == 128,
                        comp != 0,
                        remaining & comp == comp,
                    decreases remaining & !comp,
                {
                    let mut grown = comp;
                    let mut h = comp;
                    proof { crate::bits::lemma_and_absorb(comp, 0); }
                    while h != 0
                        invariant
                            adj@.len() == 128,
                            remaining & grown == grown,
                            grown & comp == comp,
                        decreases h,
                    {
                        let idx = lowest_bit(h) as usize;
                        let a = adj[idx];
                        assert(remaining & (grown | (a & remaining)) == (grown | (a & remaining))
                            && (grown | (a & remaining)) & comp == comp) by (bit_vector)
                            requires remaining & grown == grown, grown & comp == comp;
                        grown = grown | (a & remaining);
                        proof { lemma_clear_lowest(h); }
                        h = h & (h - 1);
                    }
                    if grown == comp {
                        break;
                    }
                    assert((remaining & !grown) < (remaining & !comp) && grown != 0) by (bit_vector)
                        requires remaining & grown == grown, grown & comp == comp, grown != comp, comp != 0;
                    comp = grown;
                }
                assert(remaining & !comp < remaining) by (bit_vector)
                    requires remaining & comp == comp, comp != 0;
                remaining = remaining & !comp;
                let mut vars: Vec<u128> = Vec::new();
                let mut h = comp;
                while h != 0
                    invariant
                        forall|q: int| 0 <= q < vars@.len() ==> #[trigger] vars@[q] != 0,
                    decreases h,
                {
                    vars.push(bit_at(lowest_bit(h)));
                    proof { lemma_clear_lowest(h); }
                    h = h & (h - 1);
                }
                let k = vars.len();
                if k <= 1 || k > 5 {
                    let sig = self.signatures(rest_mask, qubit_mask, row_pivots, &canon_map);
                    let ordered = sorted_by_signature(&sig, rest_mask & comp);
                    let mut q: usize = 0;
                    while q < ordered.len()
                        invariant
                            self.wf(),
                            self.same_frame(&frame),
                        decreases ordered@.len() - q,
                    {
                        let v = ordered[q];
                        if self.constant_gauge_wants_flip(v) {
                            changed = true;
                            self.flip_constant_gauge(v);
                        }
                        q = q + 1;
                    }
                } else {
                    // Gray-code walk over the 2^k flip patterns: one flip per step.
                    let mut best_key = self.component_key(comp, rest_mask, qubit_mask, row_pivots, &canon_map);
                    let mut best_pattern: u32 = 0;
                    let mut pattern: u32 = 0;
                    let limit: u32 = 1u32 << (k as u32);
                    let mut step: u32 = 1;
                    while step < limit
                        invariant
                            self.wf(),
                            self.same_frame(&frame),
                            2 <= k <= 5,
                            vars@.len() == k,
                            limit == 1u32 << (k as u32),
                            1 <= step,
                            label_map(canon_map@),
                        decreases limit - step,
                    {
                        let bit = lowest_bit(step as u128);
                        assert(bit < k) by (bit_vector)
                            requires (step as u128) & (1u128 << (bit as u128)) == 1u128 << (bit as u128),
                                step < limit, limit == 1u32 << (k as u32), 2 <= k <= 5, bit < 128;
                        pattern = pattern ^ (1u32 << bit);
                        self.flip_constant_gauge(vars[bit as usize]);
                        let key = self.component_key(comp, rest_mask, qubit_mask, row_pivots, &canon_map);
                        if component_key_less(&key, &best_key) {
                            best_key = key;
                            best_pattern = pattern;
                        }
                        step = step + 1;
                    }
                    let diff = pattern ^ best_pattern;
                    let mut b: usize = 0;
                    while b < k
                        invariant
                            self.wf(),
                            self.same_frame(&frame),
                            k <= 5,
                            vars@.len() == k,
                        decreases k - b,
                    {
                        if (diff >> (b as u32)) & 1 == 1 {
                            self.flip_constant_gauge(vars[b]);
                        }
                        b = b + 1;
                    }
                    if best_pattern != 0 {
                        changed = true;
                    }
                }
            }
        }

        // 4. Relabel.
        let sig = self.signatures(rest_mask, qubit_mask, row_pivots, &canon_map);
        let rest_order = sorted_by_signature(&sig, rest_mask);
        let mut q: usize = 0;
        while q < rest_order.len()
            decreases rest_order@.len() - q,
        {
            order.push(rest_order[q]);
            q = q + 1;
        }
        let r = self.relabel_gauge(&order, lo);
        r || changed
    }
}


/// Three-way lexicographic order of occurrence lists, a shorter prefix
/// first: -1, 0 or 1.
pub open spec fn lex_occ(a: Seq<u32>, b: Seq<u32>) -> int
    decreases a.len(),
{
    if a.len() == 0 || b.len() == 0 {
        if a.len() < b.len() { -1 } else if a.len() > b.len() { 1 } else { 0 }
    } else if a[0] < b[0] {
        -1
    } else if a[0] > b[0] {
        1
    } else {
        lex_occ(a.drop_first(), b.drop_first())
    }
}

/// Lexicographic comparison of occurrence lists: -1, 0 or 1.
fn compare_occ(a: &Vec<u32>, b: &Vec<u32>) -> (r: i8)
    ensures
        r == lex_occ(a@, b@),
{
    let mut i: usize = 0;
    assert(a@.skip(0) =~= a@ && b@.skip(0) =~= b@);
    while i < a.len() && i < b.len()
        invariant
            i <= a@.len(),
            i <= b@.len(),
            lex_occ(a@, b@) == lex_occ(a@.skip(i as int), b@.skip(i as int)),
        decreases a@.len() - i,
    {
        assert(a@.skip(i as int)[0] == a@[i as int] && b@.skip(i as int)[0] == b@[i as int]);
        if a[i] < b[i] {
            return -1;
        }
        if a[i] > b[i] {
            return 1;
        }
        assert(a@.skip(i as int).drop_first() =~= a@.skip(i + 1));
        assert(b@.skip(i as int).drop_first() =~= b@.skip(i + 1));
        i = i + 1;
    }
    if a.len() < b.len() {
        -1
    } else if a.len() > b.len() {
        1
    } else {
        0
    }
}

/// `base` OR the first `k` words of `s`.
pub open spec fn or_from(base: u128, s: Seq<u128>, k: int) -> u128
    decreases k,
{
    if k <= 0 { base } else { or_from(base, s, k - 1) | s[k - 1] }
}

/// The variable masks of the rows.
pub open spec fn row_var_masks(rows: Seq<BooleanPoly>) -> Seq<u128> {
    rows.map_values(|r: BooleanPoly| r.variable_mask)
}

/// A word whose path-variable part is one variable and nothing else.
pub open spec fn linear_word(t: u128, pvm: u128) -> bool {
    t & pvm != 0 && t & pvm == t && zero_or_pow2(t & pvm)
}

/// A word that touches path variable `b` without being that variable alone.
pub open spec fn marks_nonlinear(t: u128, pvm: u128, b: int) -> bool {
    !linear_word(t, pvm) && b < 128 && bit(t & pvm, b)
}

/// How many of the first `k` words are path variable `b` alone.
pub open spec fn linear_count(terms: Seq<u128>, pvm: u128, b: int, k: int) -> nat
    decreases k,
{
    if k <= 0 {
        0
    } else {
        linear_count(terms, pvm, b, k - 1)
            + if linear_word(terms[k - 1], pvm) && b < 128 && bit(terms[k - 1] & pvm, b) { 1nat } else { 0nat }
    }
}

/// Record the path variables of the words in `terms`: a word that is a single
/// path variable is a linear occurrence in structure `id`; any other word
/// touching a path variable makes it nonlinear.
fn scan_structure(terms: &Vec<u128>, path_var_mask: u128, lo: u32, m: usize, id: u32,
    nonlinear: &mut Vec<bool>, lin_occ: &mut Vec<Vec<u32>>)
    requires
        old(nonlinear)@.len() == m,
        old(lin_occ)@.len() == m,
    ensures
        final(nonlinear)@.len() == m,
        final(lin_occ)@.len() == m,
        forall|i: int| 0 <= i < m ==> #[trigger] final(nonlinear)@[i] == (old(nonlinear)@[i]
            || exists|q: int| 0 <= q < terms@.len() && marks_nonlinear(#[trigger] terms@[q], path_var_mask, lo + i)),
        forall|i: int| 0 <= i < m ==> #[trigger] final(lin_occ)@[i]@ == old(lin_occ)@[i]@
            + Seq::new(linear_count(terms@, path_var_mask, lo + i, terms@.len() as int), |_q: int| id),
{
    let ghost n_start = nonlinear@;
    let ghost l_start = lin_occ@;
    let mut k: usize = 0;
    proof {
        assert forall|i: int| 0 <= i < m implies #[trigger] lin_occ@[i]@ == l_start[i]@
            + Seq::new(linear_count(terms@, path_var_mask, lo + i, 0), |_q: int| id) by {
            assert(l_start[i]@ + Seq::new(0, |_q: int| id) =~= l_start[i]@);
        }
    }
    while k < terms.len()
        invariant
            k <= terms@.len(),
            nonlinear@.len() == m,
            lin_occ@.len() == m,
            forall|i: int| 0 <= i < m ==> #[trigger] nonlinear@[i] == (n_start[i]
                || exists|q: int| 0 <= q < k && marks_nonlinear(#[trigger] terms@[q], path_var_mask, lo + i)),
            forall|i: int| 0 <= i < m ==> #[trigger] lin_occ@[i]@ == l_start[i]@
                + Seq::new(linear_count(terms@, path_var_mask, lo + i, k as int), |_q: int| id),
        decreases terms@.len() - k,
    {
        let t = terms[k];
        let ghost tp = t & path_var_mask;
        let ghost n0 = nonlinear@;
        let ghost l0 = lin_occ@;
        let mut pv = t & path_var_mask;
        if pv != 0 {
            let linear = pv == t && is_zero_or_pow2(pv);
            assert(linear == linear_word(t, path_var_mask));
            while pv != 0
                invariant
                    nonlinear@.len() == m,
                    lin_occ@.len() == m,
                    tp == t & path_var_mask,
                    linear == linear_word(t, path_var_mask),
                    forall|b: int| 0 <= b < 128 && #[trigger] bit(pv, b) ==> bit(tp, b),
                    forall|i: int| 0 <= i < m ==> #[trigger] nonlinear@[i] == (n0[i]
                        || (!linear && lo + i < 128 && bit(tp, lo + i) && !bit(pv, lo + i))),
                    forall|i: int| 0 <= i < m ==> #[trigger] lin_occ@[i]@ == l0[i]@
                        + (if linear && lo + i < 128 && bit(tp, lo + i) && !bit(pv, lo + i) { seq![id] } else { Seq::empty() }),
                decreases pv,
            {
                let b = lowest_bit(pv);
                let ghost p0 = pv;
                let ghost nb = nonlinear@;
                let ghost lb = lin_occ@;
                proof {
                    lemma_clear_lowest(pv);
                    lemma_bits_after_drop(p0, b);
                }
                if b >= lo && ((b - lo) as usize) < m {
                    let idx = (b - lo) as usize;
                    if linear {
                        let mut occ = lin_occ[idx].clone();
                        assert(occ@ =~= lin_occ@[idx as int]@);
                        occ.push(id);
                        lin_occ.set(idx, occ);
                    } else {
                        nonlinear.set(idx, true);
                    }
                }
                pv = pv & (pv - 1);
                proof {
                    assert forall|x: int| 0 <= x < 128 && #[trigger] bit(pv, x) implies bit(tp, x) by {}
                    assert forall|i: int| 0 <= i < m implies #[trigger] nonlinear@[i] == (n0[i]
                        || (!linear && lo + i < 128 && bit(tp, lo + i) && !bit(pv, lo + i))) by {
                        if lo + i != b {
                            assert(nonlinear@[i] == nb[i]);
                        }
                    }
                    assert forall|i: int| 0 <= i < m implies #[trigger] lin_occ@[i]@ == l0[i]@
                        + (if linear && lo + i < 128 && bit(tp, lo + i) && !bit(pv, lo + i) { seq![id] } else { Seq::empty() }) by {
                        if lo + i != b {
                            assert(lin_occ@[i] == lb[i]);
                        } else {
                            assert(l0[i]@ + Seq::<u32>::empty() =~= l0[i]@);
                        }
                    }
                }
            }
        }
        proof {
            assert forall|x: int| 0 <= x < 128 implies !#[trigger] bit(pv, x) by { lemma_zero_bits(x as u128); }
            if tp == 0 {
                assert forall|x: int| 0 <= x < 128 implies !#[trigger] bit(tp, x) by { lemma_zero_bits(x as u128); }
            }
            assert forall|i: int| 0 <= i < m implies #[trigger] nonlinear@[i] == (n_start[i]
                || exists|q: int| 0 <= q < k + 1 && marks_nonlinear(#[trigger] terms@[q], path_var_mask, lo + i)) by {
                if marks_nonlinear(terms@[k as int], path_var_mask, lo + i) {
                    assert(nonlinear@[i]);
                }
                if exists|q: int| 0 <= q < k + 1 && marks_nonlinear(#[trigger] terms@[q], path_var_mask, lo + i) {
                    let q = choose|q: int| 0 <= q < k + 1 && marks_nonlinear(#[trigger] terms@[q], path_var_mask, lo + i);
                    if q == k {
                        assert(nonlinear@[i]);
                    }
                }
            }
            assert forall|i: int| 0 <= i < m implies #[trigger] lin_occ@[i]@ == l_start[i]@
                + Seq::new(linear_count(terms@, path_var_mask, lo + i, k + 1), |_q: int| id) by {
                let c = linear_count(terms@, path_var_mask, lo + i, k as int);
                if linear_word(t, path_var_mask) && lo + i < 128 && bit(tp, lo + i) {
                    assert(Seq::new(c + 1, |_q: int| id) =~= Seq::new(c, |_q: int| id) + seq![id]);
                } else {
                    assert(lin_occ@[i]@ =~= l0[i]@);
                }
            }
        }
        k = k + 1;
    }
}

/// The single-bit words of a word whose lowest set bit `r` is cleared.
proof fn lemma_bit_seq_drop(f: u128, r: u32, n: int)
    requires
        f != 0,
        r < 128,
        f & (1u128 << (r as u128)) == 1u128 << (r as u128),
        f & low_mask_spec(r as nat) == 0,
        0 <= n <= 128,
    ensures
        n <= r ==> mask_bit_seq(f, n) == Seq::<u128>::empty()
            && mask_bit_seq(f & ((f - 1) as u128), n) == Seq::<u128>::empty(),
        n > r ==> mask_bit_seq(f, n) == seq![1u128 << (r as u128)] + mask_bit_seq(f & ((f - 1) as u128), n),
    decreases n,
{
    let g = f & ((f - 1) as u128);
    lemma_bits_after_drop(f, r);
    if n > 0 {
        lemma_bit_seq_drop(f, r, n - 1);
        let j = n - 1;
        assert(bit(g, j) == (bit(f, j) && j != r));
        if j < r {
            assert(!bit(f, j));
            assert(mask_bit_seq(f, n) =~= Seq::<u128>::empty());
            assert(mask_bit_seq(g, n) =~= Seq::<u128>::empty());
        } else if j == r {
            assert(bit(f, j) && !bit(g, j));
            assert(mask_bit_seq(f, n) =~= seq![1u128 << (r as u128)]);
            assert(mask_bit_seq(g, n) =~= Seq::<u128>::empty());
        } else {
            assert(bit(f, j) == bit(g, j));
            assert(mask_bit_seq(f, n) =~= seq![1u128 << (r as u128)] + mask_bit_seq(g, n));
        }
    }
}

/// The zero word has no single-bit words.
proof fn lemma_bit_seq_zero(n: int)
    requires
        0 <= n <= 128,
    ensures
        mask_bit_seq(0, n) == Seq::<u128>::empty(),
    decreases n,
{
    if n > 0 {
        lemma_bit_seq_zero(n - 1);
        lemma_zero_bits((n - 1) as u128);
    }
}

/// The single-bit words of `mask`, lowest first.
fn bits_of(mask: u128) -> (r: Vec<u128>)
    ensures
        r@ == mask_bit_seq(mask, 128),
{
    let mut out: Vec<u128> = Vec::new();
    let mut f = mask;
    assert(out@ + mask_bit_seq(f, 128) =~= mask_bit_seq(mask, 128));
    while f != 0
        invariant
            out@ + mask_bit_seq(f, 128) == mask_bit_seq(mask, 128),
        decreases f,
    {
        let r = lowest_bit(f);
        let ghost out0 = out@;
        out.push(bit_at(r));
        proof {
            lemma_clear_lowest(f);
            lemma_bit_seq_drop(f, r, 128);
            assert(out@ + mask_bit_seq(f & ((f - 1) as u128), 128) =~= out0 + mask_bit_seq(f, 128));
        }
        f = f & (f - 1);
    }
    proof {
        lemma_bit_seq_zero(128);
        assert(out@ =~= out@ + mask_bit_seq(f, 128));
    }
    out
}

/// The monomial `m` is the single variable `x_i`.
pub open spec fn sole_var(m: u128, i: int) -> bool {
    forall|w: int| 0 <= w < 128 ==> (#[trigger] bit(m, w) <==> w == i)
}

/// The monomial `m` is the product `x_i · x_u` of two distinct variables.
pub open spec fn var_pair(m: u128, i: int, u: int) -> bool {
    &&& i != u
    &&& forall|w: int| 0 <= w < 128 ==> (#[trigger] bit(m, w) <==> w == i || w == u)
}

/// How the discrete phase `terms` meets the path variable `v = x_i`: it is
/// `b·v + 4·v·E + (terms without v)`, where `E` is the affine form `e` (bit
/// 127 its constant, every other bit `u` the variable `x_u`). So `v` occurs
/// alone with coefficient `b` (2, 4 or 6, or not at all), and otherwise only
/// in `4·x_i·x_u` for the variables `u` of `E`; a lone `4·v` is the constant
/// of `E`.
pub open spec fn pivot_form(terms: Seq<PackedPhaseTerm>, i: int, e: u128, b: u8) -> bool {
    &&& b == 0 || b == 2 || b == 4 || b == 6
    &&& (bit(e, 127) <==> b == 4)
    &&& !bit(e, i)
    &&& forall|k: int| 0 <= k < terms.len() && #[trigger] bit(terms[k].mono, i) ==>
        (sole_var(terms[k].mono, i) && terms[k].ph == b)
        || exists|u: int| 0 <= u < 127 && var_pair(terms[k].mono, i, u) && terms[k].ph == 4 && bit(e, u)
    &&& forall|u: int| 0 <= u < 127 && u != i && #[trigger] bit(e, u) ==>
        exists|k: int| 0 <= k < terms.len() && var_pair(terms[k].mono, i, u)
    &&& b != 0 ==> exists|k: int| 0 <= k < terms.len() && sole_var(terms[k].mono, i)
}

/// A word with no bit, or exactly one bit, below `k`, read off its count.
proof fn lemma_pop_small(x: u128, k: nat)
    requires
        k <= 128,
    ensures
        crate::gray::pop_upto(x, k) == 0 ==> forall|w: int| 0 <= w < k ==> !#[trigger] bit(x, w),
        crate::gray::pop_upto(x, k) == 1 ==> exists|u: int| 0 <= u < k && bit(x, u)
            && forall|w: int| 0 <= w < k && w != u ==> !#[trigger] bit(x, w),
    decreases k,
{
    if k > 0 {
        lemma_pop_small(x, (k - 1) as nat);
        if crate::gray::pop_upto(x, k) == 1 && !bit(x, k - 1) {
            let u = choose|u: int| 0 <= u < k - 1 && bit(x, u)
                && forall|w: int| 0 <= w < k - 1 && w != u ==> !#[trigger] bit(x, w);
            assert forall|w: int| 0 <= w < k && w != u implies !#[trigger] bit(x, w) by {}
        }
        if crate::gray::pop_upto(x, k) == 1 && bit(x, k - 1) {
            assert forall|w: int| 0 <= w < k && w != k - 1 implies !#[trigger] bit(x, w) by {}
        }
    }
}

/// Two monomials with the same bits are the same monomial.
proof fn lemma_same_bits(a: u128, b: u128)
    requires
        forall|w: int| 0 <= w < 128 ==> (#[trigger] bit(a, w) <==> bit(b, w)),
    ensures
        a == b,
{
    crate::gf2::lemma_bits_equal(a, b);
}

/// A term that does not hold `x_i` leaves the form of `x_i` as it is.
proof fn lemma_pivot_skip(p: Seq<PackedPhaseTerm>, t: PackedPhaseTerm, i: int, e: u128, b: u8)
    requires
        pivot_form(p, i, e, b),
        !bit(t.mono, i),
    ensures
        pivot_form(p.push(t), i, e, b),
{
    let q = p.push(t);
    assert forall|k: int| 0 <= k < q.len() && #[trigger] bit(q[k].mono, i) implies
        (sole_var(q[k].mono, i) && q[k].ph == b)
        || exists|u: int| 0 <= u < 127 && var_pair(q[k].mono, i, u) && q[k].ph == 4 && bit(e, u) by {
        assert(k < p.len());
        assert(q[k] == p[k]);
    }
    assert forall|u: int| 0 <= u < 127 && u != i && #[trigger] bit(e, u) implies
        exists|k: int| 0 <= k < q.len() && var_pair(q[k].mono, i, u) by {
        let k = choose|k: int| 0 <= k < p.len() && var_pair(p[k].mono, i, u);
        assert(q[k] == p[k]);
    }
    if b != 0 {
        let k = choose|k: int| 0 <= k < p.len() && sole_var(p[k].mono, i);
        assert(q[k] == p[k]);
    }
}

/// One more term holding `x_i`, taken in as the index does: a lone `4·v`
/// sets the constant of `E` and the base 4, a lone `2·v` or `6·v` sets the
/// base, and `4·x_i·x_u` adds `x_u` to `E`.
proof fn lemma_pivot_take(p: Seq<PackedPhaseTerm>, t: PackedPhaseTerm, i: int, e: u128, b: u8, e2: u128, b2: u8)
    requires
        0 <= i < 127,
        pivot_form(p, i, e, b),
        forall|k: int| 0 <= k < p.len() ==> #[trigger] p[k].mono != t.mono,
        ({
            ||| sole_var(t.mono, i) && t.ph == 4 && e2 == e ^ (1u128 << 127u128) && b2 == 4
            ||| sole_var(t.mono, i) && (t.ph == 2 || t.ph == 6) && e2 == e && b2 == t.ph
            ||| exists|u: int| 0 <= u < 127 && var_pair(t.mono, i, u) && t.ph == 4 && e2 == e ^ (1u128 << (u as u128)) && b2 == b
        }),
    ensures
        pivot_form(p.push(t), i, e2, b2),
{
    let q = p.push(t);
    assert(q[p.len() as int] == t);
    assert forall|k: int| 0 <= k < p.len() implies #[trigger] q[k] == p[k] by {}
    if sole_var(t.mono, i) {
        // No earlier lone term: it would be the same monomial.
        if b != 0 {
            let k = choose|k: int| 0 <= k < p.len() && sole_var(p[k].mono, i);
            assert forall|w: int| 0 <= w < 128 implies (#[trigger] bit(p[k].mono, w) <==> bit(t.mono, w)) by {}
            lemma_same_bits(p[k].mono, t.mono);
        }
        assert(b == 0);
        assert(!bit(e, 127));
        assert(!exists|u: int| 0 <= u < 127 && var_pair(t.mono, i, u) && t.ph == 4 && e2 == e ^ (1u128 << (u as u128)) && b2 == b) by {
            if exists|u: int| 0 <= u < 127 && var_pair(t.mono, i, u) && t.ph == 4 && e2 == e ^ (1u128 << (u as u128)) && b2 == b {
                let u = choose|u: int| 0 <= u < 127 && var_pair(t.mono, i, u) && t.ph == 4 && e2 == e ^ (1u128 << (u as u128)) && b2 == b;
                assert(bit(t.mono, u));
            }
        }
        if t.ph == 4 {
            assert(e2 == e ^ (1u128 << 127u128));
            assert forall|w: int| 0 <= w < 128 implies (#[trigger] bit(e2, w) <==> (bit(e, w) != (w == 127))) by {
                crate::combination::lemma_bit_xor(e, 1u128 << 127u128, w as u128);
                crate::parity_network::lemma_bit_single(127, w as u128);
            }
        }
        assert forall|w: int| 0 <= w < 127 implies (#[trigger] bit(e2, w) <==> bit(e, w)) by {
            if t.ph == 4 {
                assert(bit(e2, w) <==> (bit(e, w) != (w == 127)));
            }
        }
        assert(bit(e2, 127) <==> b2 == 4) by {
            if t.ph == 4 {
                assert(bit(e2, 127) <==> (bit(e, 127) != (127int == 127)));
            }
        }
        assert forall|k: int| 0 <= k < q.len() && #[trigger] bit(q[k].mono, i) implies
            (sole_var(q[k].mono, i) && q[k].ph == b2)
            || exists|u: int| 0 <= u < 127 && var_pair(q[k].mono, i, u) && q[k].ph == 4 && bit(e2, u) by {
            if k < p.len() {
                assert(q[k] == p[k]);
                if sole_var(p[k].mono, i) && p[k].ph == b {
                    assert forall|w: int| 0 <= w < 128 implies (#[trigger] bit(p[k].mono, w) <==> bit(t.mono, w)) by {}
                    lemma_same_bits(p[k].mono, t.mono);
                } else {
                    let u = choose|u: int| 0 <= u < 127 && var_pair(p[k].mono, i, u) && p[k].ph == 4 && bit(e, u);
                    assert(bit(e2, u));
                }
            }
        }
        assert forall|u: int| 0 <= u < 127 && u != i && #[trigger] bit(e2, u) implies
            exists|k: int| 0 <= k < q.len() && var_pair(q[k].mono, i, u) by {
            assert(bit(e, u));
            let k = choose|k: int| 0 <= k < p.len() && var_pair(p[k].mono, i, u);
            assert(q[k] == p[k]);
        }
        assert(sole_var(q[p.len() as int].mono, i));
    } else {
        let u = choose|u: int| 0 <= u < 127 && var_pair(t.mono, i, u) && t.ph == 4 && e2 == e ^ (1u128 << (u as u128)) && b2 == b;
        assert forall|w: int| 0 <= w < 128 implies (#[trigger] bit(e2, w) <==> (bit(e, w) != (w == u))) by {
            crate::combination::lemma_bit_xor(e, 1u128 << (u as u128), w as u128);
            crate::parity_network::lemma_bit_single(u as u128, w as u128);
        }
        // No earlier term is `x_i · x_u`: it would be the same monomial.
        if bit(e, u) {
            let k = choose|k: int| 0 <= k < p.len() && var_pair(p[k].mono, i, u);
            assert forall|w: int| 0 <= w < 128 implies (#[trigger] bit(p[k].mono, w) <==> bit(t.mono, w)) by {}
            lemma_same_bits(p[k].mono, t.mono);
        }
        assert(bit(e2, u));
        assert(bit(e2, 127) <==> bit(e, 127));
        assert(!bit(e2, i));
        assert forall|k: int| 0 <= k < q.len() && #[trigger] bit(q[k].mono, i) implies
            (sole_var(q[k].mono, i) && q[k].ph == b2)
            || exists|u2: int| 0 <= u2 < 127 && var_pair(q[k].mono, i, u2) && q[k].ph == 4 && bit(e2, u2) by {
            if k < p.len() {
                assert(q[k] == p[k]);
                if !(sole_var(p[k].mono, i) && p[k].ph == b) {
                    let u2 = choose|u2: int| 0 <= u2 < 127 && var_pair(p[k].mono, i, u2) && p[k].ph == 4 && bit(e, u2);
                    if u2 == u {
                        assert forall|w: int| 0 <= w < 128 implies (#[trigger] bit(p[k].mono, w) <==> bit(t.mono, w)) by {}
                        lemma_same_bits(p[k].mono, t.mono);
                    }
                    assert(bit(e2, u2));
                }
            } else {
                assert(q[k] == t);
            }
        }
        assert forall|u2: int| 0 <= u2 < 127 && u2 != i && #[trigger] bit(e2, u2) implies
            exists|k: int| 0 <= k < q.len() && var_pair(q[k].mono, i, u2) by {
            if u2 == u {
                assert(var_pair(q[p.len() as int].mono, i, u2));
            } else {
                assert(bit(e, u2));
                let k = choose|k: int| 0 <= k < p.len() && var_pair(p[k].mono, i, u2);
                assert(q[k] == p[k]);
            }
        }
        if b2 != 0 {
            let k = choose|k: int| 0 <= k < p.len() && sole_var(p[k].mono, i);
            assert(q[k] == p[k]);
        }
    }
}

/// For every path variable: the partner mask of its π terms (bit 127 marks
/// the constant), its base coefficient, and whether it has any term that the
/// elimination rules cannot handle.
fn build_pivot_index(terms: &Vec<PackedPhaseTerm>, path_var_mask: u128) -> (r: (Vec<u128>, Vec<u8>, Vec<bool>))
    requires
        crate::phase_poly::canonical_terms(terms@),
    ensures
        r.0@.len() == 128,
        r.1@.len() == 128,
        r.2@.len() == 128,
        (forall|k: int| 0 <= k < terms@.len() ==> !#[trigger] bit(terms@[k].mono, 127)) ==>
            forall|i: int| 0 <= i < 127 && bit(path_var_mask, i) && !#[trigger] r.2@[i]
                ==> pivot_form(terms@, i, r.0@[i], r.1@[i]),
{
    let ghost nb = forall|k: int| 0 <= k < terms@.len() ==> !#[trigger] bit(terms@[k].mono, 127);
    let mut partner = filled_u128(128, 0);
    let mut base: Vec<u8> = Vec::new();
    let mut invalid: Vec<bool> = Vec::new();
    let mut k: usize = 0;
    while k < 128
        invariant
            k <= 128,
            base@.len() == k,
            invalid@.len() == k,
            forall|q: int| 0 <= q < k ==> #[trigger] base@[q] == 0,
        decreases 128 - k,
    {
        base.push(0);
        invalid.push(false);
        k = k + 1;
    }
    proof {
        assert forall|w: int| 0 <= w < 128 implies !#[trigger] bit(0u128, w) by {
            lemma_zero_bits(w as u128);
        }
        assert forall|i: int| 0 <= i < 127 implies #[trigger] pivot_form(terms@.take(0), i, partner@[i], base@[i]) by {
            assert(partner@[i] == 0u128 && base@[i] == 0);
            assert(!bit(0u128, 127) && !bit(0u128, i));
            assert(terms@.take(0).len() == 0);
        }
    }
    let mut j: usize = 0;
    while j < terms.len()
        invariant
            j <= terms@.len(),
            crate::phase_poly::canonical_terms(terms@),
            partner@.len() == 128,
            base@.len() == 128,
            invalid@.len() == 128,
            nb == forall|k: int| 0 <= k < terms@.len() ==> !#[trigger] bit(terms@[k].mono, 127),
            nb ==> forall|i: int| 0 <= i < 127 && bit(path_var_mask, i) && !#[trigger] invalid@[i]
                ==> pivot_form(terms@.take(j as int), i, partner@[i], base@[i]),
        decreases terms@.len() - j,
    {
        let mono = terms[j].monomial();
        let phase = terms[j].phase();
        let ghost t = terms@[j as int];
        let ghost pre = terms@.take(j as int);
        let ghost post = terms@.take(j + 1);
        assert(post =~= pre.push(t));
        assert forall|q: int| 0 <= q < pre.len() implies #[trigger] pre[q].mono != t.mono by {
            assert(terms@[q].mono < terms@[j as int].mono);
        }
        let mut pv = mono & path_var_mask;
        proof {
            assert forall|w: int| 0 <= w < 128 implies (#[trigger] bit(pv, w) <==> bit(mono, w) && bit(path_var_mask, w)) by {
                crate::bits::lemma_bit_ops(mono, path_var_mask, w as u128);
            }
        }
        while pv != 0
            invariant
                partner@.len() == 128,
                base@.len() == 128,
                invalid@.len() == 128,
                mono == t.mono,
                phase == t.ph,
                post == pre.push(t),
                forall|q: int| 0 <= q < pre.len() ==> #[trigger] pre[q].mono != t.mono,
                nb ==> !bit(mono, 127),
                forall|w: int| 0 <= w < 128 && #[trigger] bit(pv, w) ==> bit(mono, w) && bit(path_var_mask, w),
                nb ==> forall|i: int| 0 <= i < 127 && bit(path_var_mask, i) && !#[trigger] invalid@[i]
                    ==> pivot_form(if bit(mono, i) && !bit(pv, i) { post } else { pre }, i, partner@[i], base@[i]),
            decreases pv,
        {
            let idx = lowest_bit(pv) as usize;
            let v = bit_at(idx as u32);
            let ghost pv0 = pv;
            let ghost part0 = partner@;
            let ghost base0 = base@;
            let ghost inv0 = invalid@;
            proof {
                lemma_clear_lowest(pv);
                crate::bits::lemma_bit_ops(pv, v, idx as u128);
                crate::parity_network::lemma_bit_single(idx as u128, idx as u128);
                assert(bit(pv, idx as int));
                assert forall|w: int| 0 <= w < 128 implies (#[trigger] bit(pv & ((pv - 1) as u128), w) <==> bit(pv, w) && w != idx) by {
                    crate::bits::lemma_clear_lowest_bits(pv, idx as u128, w as u128);
                }
            }
            pv = pv & (pv - 1);
            let remaining = mono & !v;
            proof {
                assert forall|w: int| 0 <= w < 128 implies (#[trigger] bit(remaining, w) <==> bit(mono, w) && w != idx) by {
                    crate::bits::lemma_bit_ops(mono, !v, w as u128);
                    crate::bits::lemma_bit_ops(v, 0, w as u128);
                    crate::parity_network::lemma_bit_single(idx as u128, w as u128);
                }
            }
            if remaining == 0 {
                proof {
                    assert forall|w: int| 0 <= w < 128 implies (#[trigger] bit(mono, w) <==> w == idx) by {
                        lemma_zero_bits(w as u128);
                        assert(!bit(remaining, w));
                    }
                    assert(sole_var(t.mono, idx as int));
                }
                if phase == 4 {
                    let p = partner[idx];
                    partner.set(idx, p ^ (1u128 << 127u128));
                    base.set(idx, 4);
                    proof {
                        if nb && idx < 127 && !inv0[idx as int] {
                            lemma_pivot_take(pre, t, idx as int, part0[idx as int], base0[idx as int], partner@[idx as int], 4);
                        }
                    }
                } else if phase == 2 || phase == 6 {
                    base.set(idx, phase);
                    proof {
                        if nb && idx < 127 && !inv0[idx as int] {
                            lemma_pivot_take(pre, t, idx as int, part0[idx as int], base0[idx as int], partner@[idx as int], phase);
                        }
                    }
                } else {
                    invalid.set(idx, true);
                }
            } else if popcount(remaining) == 1 {
                if phase == 4 {
                    let p = partner[idx];
                    partner.set(idx, p ^ remaining);
                    proof {
                        if nb && idx < 127 && !inv0[idx as int] {
                            lemma_pop_small(remaining, 128);
                            let u = choose|u: int| 0 <= u < 128 && bit(remaining, u)
                                && forall|w: int| 0 <= w < 128 && w != u ==> !#[trigger] bit(remaining, w);
                            assert(u != 127);
                            assert(var_pair(t.mono, idx as int, u)) by {
                                assert forall|w: int| 0 <= w < 128 implies (#[trigger] bit(t.mono, w) <==> w == idx || w == u) by {
                                    if w != idx && w != u {
                                        assert(!bit(remaining, w));
                                    }
                                }
                            }
                            assert(remaining == 1u128 << (u as u128)) by {
                                assert forall|w: int| 0 <= w < 128 implies (#[trigger] bit(remaining, w) <==> bit(1u128 << (u as u128), w)) by {
                                    crate::parity_network::lemma_bit_single(u as u128, w as u128);
                                }
                                lemma_same_bits(remaining, 1u128 << (u as u128));
                            }
                            lemma_pivot_take(pre, t, idx as int, part0[idx as int], base0[idx as int], partner@[idx as int], base0[idx as int]);
                        }
                    }
                } else {
                    invalid.set(idx, true);
                }
            } else {
                invalid.set(idx, true);
            }
            proof {
                if nb {
                    assert forall|i: int| 0 <= i < 127 && bit(path_var_mask, i) && !#[trigger] invalid@[i]
                        implies pivot_form(if bit(mono, i) && !bit(pv, i) { post } else { pre }, i, partner@[i], base@[i]) by {
                        if i != idx {
                            assert(invalid@[i] == inv0[i] && partner@[i] == part0[i] && base@[i] == base0[i]);
                            assert(bit(pv, i) == bit(pv0, i));
                        } else {
                            assert(!inv0[i]);
                            assert(bit(mono, i) && !bit(pv, i));
                        }
                    }
                }
            }
        }
        proof {
            if nb {
                assert(!bit(mono, 127));
                assert forall|i: int| 0 <= i < 127 && bit(path_var_mask, i) && !#[trigger] invalid@[i]
                    implies pivot_form(post, i, partner@[i], base@[i]) by {
                    lemma_zero_bits(i as u128);
                    if !bit(mono, i) {
                        lemma_pivot_skip(pre, t, i, partner@[i], base@[i]);
                    }
                }
            }
        }
        j = j + 1;
    }
    proof {
        assert(terms@.take(terms@.len() as int) =~= terms@);
    }
    (partner, base, invalid)
}

/// `u := E` on a list of parity masks (bit `u` replaced by the linear bits of
/// `E`, the angle negated by its constant), left uncompacted.
fn substitute_parities(parities: &mut Vec<u128>, phases: &mut Vec<u32>, u_mask: u128, e_poly: &BooleanPoly)
    requires
        old(parities)@.len() == old(phases)@.len(),
    ensures
        final(parities)@.len() == old(parities)@.len(),
        final(phases)@.len() == old(phases)@.len(),
        forall|i: int| 0 <= i < old(parities)@.len() ==> #[trigger] final(parities)@[i]
            == substituted_parity(old(parities)@[i], u_mask, e_poly.terms@),
        forall|i: int| 0 <= i < old(parities)@.len() ==> #[trigger] final(phases)@[i]
            == substituted_angle(old(parities)@[i], old(phases)@[i], u_mask, e_poly.terms@),
{
    let mut i: usize = 0;
    while i < parities.len()
        invariant
            parities@.len() == phases@.len(),
            parities@.len() == old(parities)@.len(),
            i <= parities@.len(),
            forall|j: int| 0 <= j < i ==> #[trigger] parities@[j]
                == substituted_parity(old(parities)@[j], u_mask, e_poly.terms@),
            forall|j: int| 0 <= j < i ==> #[trigger] phases@[j]
                == substituted_angle(old(parities)@[j], old(phases)@[j], u_mask, e_poly.terms@),
            forall|j: int| i <= j < parities@.len() ==> #[trigger] parities@[j] == old(parities)@[j],
            forall|j: int| i <= j < phases@.len() ==> #[trigger] phases@[j] == old(phases)@[j],
        decreases parities@.len() - i,
    {
        let p = parities[i];
        if (p & u_mask) != 0 {
            let mut np = p ^ u_mask;
            let mut t = phases[i];
            let mut k: usize = 0;
            while k < e_poly.terms.len()
                invariant
                    k <= e_poly.terms@.len(),
                    np == subst_parity_upto(p ^ u_mask, e_poly.terms@, k as int),
                    t as int == subst_angle_upto(old(phases)@[i as int] as int, e_poly.terms@, k as int),
                decreases e_poly.terms@.len() - k,
            {
                let et = e_poly.terms[k];
                if et == 0 {
                    t = negate_ticks(t);
                } else {
                    np = np ^ et;
                }
                k = k + 1;
            }
            parities.set(i, np);
            phases.set(i, t);
        }
        i = i + 1;
    }
}

impl EvaluatedPathSum {
    /// OR of the row variable masks and the given parities.
    fn live_mask(&self, parities: &Vec<u128>) -> (r: u128)
        ensures
            r == or_from(or_from(0, row_var_masks(self.out_state@), self.out_state@.len() as int), parities@, parities@.len() as int),
    {
        let mut acc: u128 = 0;
        let mut q: usize = 0;
        while q < self.out_state.len()
            invariant
                q <= self.out_state@.len(),
                acc == or_from(0, row_var_masks(self.out_state@), q as int),
            decreases self.out_state@.len() - q,
        {
            acc = acc | self.out_state[q].variable_mask;
            q = q + 1;
        }
        let ghost base = acc;
        let mut i: usize = 0;
        while i < parities.len()
            invariant
                i <= parities@.len(),
                acc == or_from(base, parities@, i as int),
            decreases parities@.len() - i,
        {
            acc = acc | parities[i];
            i = i + 1;
        }
        acc
    }

    /// Whether `v_mask` occurs in a row or in one of the given parities.
    fn is_live_in(&self, parities: &Vec<u128>, v_mask: u128) -> (r: bool)
        ensures
            r == (or_from(or_from(0, row_var_masks(self.out_state@), self.out_state@.len() as int), parities@, parities@.len() as int)
                & v_mask != 0),
    {
        (self.live_mask(parities) & v_mask) != 0
    }

    /// Merge path variables that occur only linearly, in exactly the same
    /// rows and parities: the lower one is summed out against the higher.
    /// True when a merge happened.
    fn merge_twin_variables(&mut self) -> (r: bool)
        requires
            old(self).wf(),
        ensures
            final(self).wf(),
            final(self).same_frame(old(self)),
            old(self).num_path_vars < 2 ==> *final(self) == *old(self) && !r,
            !r ==> *final(self) == *old(self),
    {
        let m = self.num_path_vars as usize;
        if m < 2 {
            return false;
        }
        let lo = self.num_qubits;
        let path_var_mask = self.path_var_mask();
        let mut nonlinear: Vec<bool> = Vec::new();
        let mut lin_occ: Vec<Vec<u32>> = Vec::new();
        let mut k: usize = 0;
        while k < m
            invariant
                k <= m,
                nonlinear@.len() == k,
                lin_occ@.len() == k,
            decreases m - k,
        {
            nonlinear.push(false);
            lin_occ.push(Vec::new());
            k = k + 1;
        }
        let mut structure_id: u32 = 0;
        let mut q: usize = 0;
        while q < self.out_state.len()
            invariant
                nonlinear@.len() == m,
                lin_occ@.len() == m,
            decreases self.out_state@.len() - q,
        {
            scan_structure(&self.out_state[q].terms, path_var_mask, lo, m, structure_id, &mut nonlinear, &mut lin_occ);
            structure_id = structure_id.wrapping_add(1);
            q = q + 1;
        }
        let mut i: usize = 0;
        while i < self.continuous_poly.parities.len()
            invariant
                nonlinear@.len() == m,
                lin_occ@.len() == m,
            decreases self.continuous_poly.parities@.len() - i,
        {
            let terms = bits_of(self.continuous_poly.parities[i]);
            scan_structure(&terms, path_var_mask, lo, m, structure_id, &mut nonlinear, &mut lin_occ);
            structure_id = structure_id.wrapping_add(1);
            i = i + 1;
        }
        // Eligible variables, sorted by (occurrence list, label).
        let mut eligible: Vec<usize> = Vec::new();
        let mut a: usize = 0;
        while a < m
            invariant
                a <= m,
                nonlinear@.len() == m,
                lin_occ@.len() == m,
                forall|k: int| 0 <= k < eligible@.len() ==> #[trigger] eligible@[k] < m,
            decreases m - a,
        {
            if !nonlinear[a] && lin_occ[a].len() > 0 {
                let mut pos: usize = 0;
                while pos < eligible.len()
                    invariant
                        pos <= eligible@.len(),
                        a < m,
                        lin_occ@.len() == m,
                        forall|k: int| 0 <= k < eligible@.len() ==> #[trigger] eligible@[k] < m,
                    decreases eligible@.len() - pos,
                {
                    let c = compare_occ(&lin_occ[a], &lin_occ[eligible[pos]]);
                    if c < 0 || (c == 0 && a < eligible[pos]) {
                        break;
                    }
                    pos = pos + 1;
                }
                let ghost before = eligible@;
                eligible.insert(pos, a);
                proof {
                    assert forall|k: int| 0 <= k < eligible@.len() implies #[trigger] eligible@[k] < m by {
                        if k < pos { assert(eligible@[k] == before[k]); }
                        else if k > pos { assert(eligible@[k] == before[k - 1]); }
                    }
                }
            }
            a = a + 1;
        }
        // Chained adjacent pairs within each group of equal lists.
        let mut pairs: Vec<(u128, u64, u64)> = Vec::new();
        let mut g: usize = 0;
        while g < eligible.len()
            invariant
                lin_occ@.len() == m,
                forall|k: int| 0 <= k < eligible@.len() ==> #[trigger] eligible@[k] < m,
                forall|k: int| 0 <= k < pairs@.len() ==> (#[trigger] pairs@[k]).0 < m && pairs@[k].1 < m,
            decreases eligible@.len() - g,
        {
            let mut h = g + 1;
            while h < eligible.len() && compare_occ(&lin_occ[eligible[h]], &lin_occ[eligible[g]]) == 0
                invariant
                    g < h <= eligible@.len(),
                    lin_occ@.len() == m,
                    forall|k: int| 0 <= k < eligible@.len() ==> #[trigger] eligible@[k] < m,
                    forall|k: int| 0 <= k < pairs@.len() ==> (#[trigger] pairs@[k]).0 < m && pairs@[k].1 < m,
                decreases eligible@.len() - h,
            {
                let ghost before = pairs@;
                pairs.push((eligible[h - 1] as u128, eligible[h] as u64, 0));
                proof {
                    assert forall|k: int| 0 <= k < pairs@.len() implies (#[trigger] pairs@[k]).0 < m && pairs@[k].1 < m by {
                        if k < before.len() { assert(pairs@[k] == before[k]); }
                    }
                }
                h = h + 1;
            }
            g = h;
        }
        let sorted_pairs = sort_keys(pairs);
        let mut changed = false;
        let ghost frame = *self;
        let mut pi: usize = 0;
        while pi < sorted_pairs.len()
            invariant
                self.wf(),
                self.same_frame(&frame),
                lo == self.num_qubits,
                m == self.num_path_vars,
                frame == *old(self),
                !changed ==> *self == frame,
                forall|q: int| 0 <= q < sorted_pairs@.len() ==> pairs@.contains(#[trigger] sorted_pairs@[q]),
                forall|k: int| 0 <= k < pairs@.len() ==> (#[trigger] pairs@[k]).0 < m && pairs@[k].1 < m,
            decreases sorted_pairs@.len() - pi,
        {
            let e = sorted_pairs[pi];
            proof {
                assert(pairs@.contains(sorted_pairs@[pi as int]));
                let w = choose|w: int| 0 <= w < pairs@.len() && pairs@[w] == sorted_pairs@[pi as int];
                assert(pairs@[w].0 < m && pairs@[w].1 < m);
            }
            let i1 = e.0 as u32;
            let i2 = e.1 as u32;
            let v1 = bit_at(lo + i1);
            let v2 = bit_at(lo + i2);
            changed = true;
            self.commit_merge(v1, v2);
            pi = pi + 1;
        }
        changed
    }

    /// Sum out `v1` against `v2`: `v1` leaves the rows and parities, and the
    /// phase terms on `v2` are rewritten exactly.
    fn commit_merge(&mut self, v1: u128, v2: u128)
        requires
            old(self).wf(),
        ensures
            final(self).wf(),
            final(self).same_frame(old(self)),
            final(self).out_state@.len() == old(self).out_state@.len(),
            forall|q: int| 0 <= q < old(self).out_state@.len() ==> (#[trigger] final(self).out_state@[q]).monomials()
                == old(self).out_state@[q].monomials().remove(v1),
            forall|x: u128| #[trigger] final(self).continuous_poly.angle(x) == if x != 0 {
                ticks_sum(cleared_parities(old(self).continuous_poly.parities@, v1), old(self).continuous_poly.phases@, x)
                    % (crate::ticks::TICKS_PER_TURN as int)
            } else {
                0
            },
            forall|x: u128| #[trigger] final(self).phase_poly.coeff(x) == if x != 0 {
                batch_sum(merge_batch(old(self).phase_poly.terms@, v1, v2, old(self).phase_poly.terms@.len() as int), x) % 8
            } else {
                0
            },
    {
        let ghost frame = *self;
        let mut q: usize = 0;
        while q < self.out_state.len()
            invariant
                self.wf(),
                self.same_frame(&frame),
                frame == *old(self),
                self.continuous_poly == frame.continuous_poly,
                self.phase_poly == frame.phase_poly,
                q <= self.out_state@.len(),
                self.out_state@.len() == frame.out_state@.len(),
                forall|k: int| 0 <= k < q ==> (#[trigger] self.out_state@[k]).monomials()
                    == frame.out_state@[k].monomials().remove(v1),
                forall|k: int| q <= k < self.out_state@.len() ==> #[trigger] self.out_state@[k] == frame.out_state@[k],
            decreases self.out_state@.len() - q,
        {
            if self.out_state[q].contains(v1) {
                let ghost ts = self.out_state@[q as int].terms@;
                let mut kept: Vec<u128> = Vec::new();
                let mut t: usize = 0;
                while t < self.out_state[q].terms.len()
                    invariant
                        q < self.out_state@.len(),
                        ts == self.out_state@[q as int].terms@,
                        crate::sorted::strictly_sorted(ts),
                        t <= ts.len(),
                        crate::sorted::strictly_sorted(kept@),
                        forall|a: int| 0 <= a < kept@.len() ==> t == ts.len() || #[trigger] kept@[a] < ts[t as int],
                        forall|a: int| 0 <= a < kept@.len() ==> ts.subrange(0, t as int).contains(#[trigger] kept@[a]),
                        kept@.to_set() == ts.subrange(0, t as int).to_set().remove(v1),
                    decreases self.out_state@[q as int].terms@.len() - t,
                {
                    let term = self.out_state[q].terms[t];
                    let ghost k0 = kept@;
                    if term != v1 {
                        kept.push(term);
                    }
                    proof {
                        assert(ts.subrange(0, t + 1) =~= ts.subrange(0, t as int).push(term));
                        ts.subrange(0, t as int).lemma_push_to_set_commute(term);
                        assert(kept@.to_set() =~= ts.subrange(0, t + 1).to_set().remove(v1)) by {
                            if term != v1 {
                                assert(kept@ =~= k0.push(term));
                                k0.lemma_push_to_set_commute(term);
                            }
                        }
                        assert forall|a: int| 0 <= a < kept@.len() implies ts.subrange(0, t + 1).contains(#[trigger] kept@[a]) by {
                            if a < k0.len() {
                                assert(ts.subrange(0, t as int).contains(k0[a]));
                                let w = choose|w: int| 0 <= w < t && #[trigger] ts.subrange(0, t as int)[w] == k0[a];
                                assert(ts.subrange(0, t + 1)[w] == k0[a]);
                            } else {
                                assert(ts.subrange(0, t + 1)[t as int] == term);
                            }
                        }
                        assert forall|a: int| 0 <= a < kept@.len() implies t + 1 == ts.len() || #[trigger] kept@[a] < ts[t + 1] by {
                            if t + 1 < ts.len() {
                                let w = choose|w: int| 0 <= w < t + 1 && #[trigger] ts.subrange(0, t + 1)[w] == kept@[a];
                                assert(ts[w] == kept@[a]);
                            }
                        }
                    }
                    t = t + 1;
                }
                proof {
                    assert(ts.subrange(0, ts.len() as int) =~= ts);
                }
                let nrow = BooleanPoly::from_terms(kept);
                proof {
                    lemma_toggle_all_sorted(kept@);
                }
                self.out_state.set(q, nrow);
            } else {
                proof {
                    assert(self.out_state@[q as int].monomials().remove(v1) =~= self.out_state@[q as int].monomials());
                }
            }
            q = q + 1;
        }
        let mut np: Vec<u128> = Vec::new();
        let mut i: usize = 0;
        while i < self.continuous_poly.parities.len()
            invariant
                self.continuous_poly == frame.continuous_poly,
                i <= self.continuous_poly.parities@.len(),
                np@.len() == i,
                forall|k: int| 0 <= k < i ==> #[trigger] np@[k] == self.continuous_poly.parities@[k] & !v1,
            decreases self.continuous_poly.parities@.len() - i,
        {
            np.push(self.continuous_poly.parities[i] & !v1);
            i = i + 1;
        }
        assert(np@ =~= cleared_parities(frame.continuous_poly.parities@, v1));
        let nh = self.continuous_poly.phases.clone();
        self.set_continuous(np, nh);
        let mut batch: Vec<PackedPhaseTerm> = Vec::new();
        let mut j: usize = 0;
        while j < self.phase_poly.terms.len()
            invariant
                j <= self.phase_poly.terms@.len(),
                self.phase_poly == frame.phase_poly,
                batch@ == merge_batch(frame.phase_poly.terms@, v1, v2, j as int),
            decreases self.phase_poly.terms@.len() - j,
        {
            let ghost b0 = batch@;
            let term = self.phase_poly.terms[j];
            let mono = term.monomial();
            let phase = term.phase() % 8;
            if (mono & v2) != 0 {
                let base = mono & !v2;
                if (base & v1) != 0 {
                    let real_base = base & !v1;
                    batch.push(PackedPhaseTerm::create(v1 | real_base, phase));
                    batch.push(PackedPhaseTerm::create(mono, (8 - phase) % 8));
                } else {
                    batch.push(PackedPhaseTerm::create(mono, phase));
                    batch.push(PackedPhaseTerm::create(v1 | base, phase));
                    let minus_2c = (8 - (2 * phase) % 8) % 8;
                    batch.push(PackedPhaseTerm::create(v1 | mono, minus_2c));
                }
            } else {
                batch.push(term);
            }
            assert(batch@ =~= b0 + merge_term_expansion(term, v1, v2));
            j = j + 1;
        }
        self.set_phase_terms(batch);
    }
}


impl EvaluatedPathSum {
    /// Follow-up for `X` and `CX` on an otherwise canonical state: they only
    /// edit `out_state`, so the gauge can only have drifted if a row that
    /// carries a path variable is no longer a bare pivot (or a pivot now
    /// appears in an earlier row). Runs the full pass only then.
    pub fn canonicalize_gauge_after_row_op(&mut self) -> (changed: bool)
        requires
            old(self).wf(),
        ensures
            gauge_followed(*old(self), *final(self)),
            old(self).overflow_id != 0 || old(self).num_path_vars == 0 ==> !changed,
            rows_gauge_settled(*old(self)) ==> !changed,
    {
        if self.overflow_id != 0 {
            return false;
        }
        if self.num_path_vars == 0 {
            return false;
        }
        let path_mask = self.path_var_mask();
        let mut pivots: u128 = 0;
        let mut next_pivot: u128 = bit_at(self.num_qubits);
        let mut dirty = false;
        let mut q: usize = 0;
        let ghost rows = self.out_state@;
        let ghost scan0 = pivot_scan(rows, path_mask, 0, 0, next_pivot);
        while q < self.out_state.len()
            invariant_except_break
                !dirty,
                scan0 == pivot_scan(rows, path_mask, q as int, pivots, next_pivot),
            invariant
                q <= self.out_state@.len(),
                self.out_state@ == rows,
            ensures
                dirty ==> scan0 is None,
                !dirty ==> scan0 is Some,
            decreases self.out_state@.len() - q,
        {
            let fresh = self.out_state[q].variable_mask & path_mask & !pivots;
            if fresh != 0 {
                if self.out_state[q].terms.len() != 1 || fresh != next_pivot {
                    dirty = true;
                    break;
                }
                pivots = pivots | fresh;
                next_pivot = next_pivot << 1u128;
            }
            q = q + 1;
        }
        if !dirty {
            return false;
        }
        self.canonicalize_gauge()
    }

    /// Rename the surviving path variables to consecutive labels after the
    /// inputs (the continuous parities are given uncompacted).
    fn compress_labels(&mut self, surviving: u128, parities: &mut Vec<u128>)
        requires
            old(self).wf(),
        ensures
            final(self).wf(),
            final(self).width == old(self).width,
            final(self).num_qubits == old(self).num_qubits,
            final(self).overflow_id == old(self).overflow_id,
            final(self).num_path_vars <= old(self).num_path_vars,
            final(self).num_path_vars == if crate::gray::pop_upto(surviving, 128) < old(self).num_path_vars {
                crate::gray::pop_upto(surviving, 128)
            } else {
                old(self).num_path_vars as nat
            },
            final(parities)@.len() == old(parities)@.len(),
            forall|j: int, b: int| 0 <= j < old(parities)@.len() && 0 <= b < 128 ==>
                (#[trigger] bit(final(parities)@[j], b)
                    <==> remapped(old(parities)@[j], compress_map(surviving, old(self).num_qubits as int), b)),
    {
        let nq = self.num_qubits;
        let ghost cm = compress_map(surviving, nq as int);
        let mut remapping = filled_u32(128, 0);
        let mut i: u32 = 0;
        while i < nq && i < 128
            invariant
                i <= 128,
                i <= nq,
                label_map(remapping@),
                forall|b: int| 0 <= b < 128 ==> #[trigger] remapping@[b] == if b < i { b as u32 } else { 0u32 },
            decreases 128 - i,
        {
            remapping.set(i as usize, i);
            i = i + 1;
        }
        assert forall|bb: int| 0 <= bb < 128 implies #[trigger] remapping@[bb] == if bb < nq { cm[bb] } else { 0u32 } by {
            if bb < nq {
                assert(bb < i);
            }
        }
        let mut cur: u32 = 0;
        let mut b: u32 = nq;
        while b < 128
            invariant
                label_map(remapping@),
                cur <= b,
                b >= nq,
                cur == crate::gray::pop_upto(surviving, b as nat) - crate::gray::pop_upto(surviving, nq as nat),
                cm == compress_map(surviving, nq as int),
                forall|bb: int| 0 <= bb < 128 ==> #[trigger] remapping@[bb] == if bb < b { cm[bb] } else { 0u32 },
            decreases 128 - b,
        {
            assert(((surviving >> (b as u128)) & 1 == 1) == bit(surviving, b as int));
            if (surviving >> (b as u128)) & 1 == 1 {
                if (nq as u64) + (cur as u64) < 128 {
                    remapping.set(b as usize, nq + cur);
                }
                cur = cur + 1;
            }
            b = b + 1;
        }
        assert(remapping@ =~= cm);
        let ghost frame = *self;
        let mut q: usize = 0;
        while q < self.out_state.len()
            invariant
                self.wf(),
                self.same_frame(&frame),
                label_map(remapping@),
            decreases self.out_state@.len() - q,
        {
            let mut nt: Vec<u128> = Vec::new();
            let mut t: usize = 0;
            while t < self.out_state[q].terms.len()
                invariant
                    q < self.out_state@.len(),
                    t <= self.out_state@[q as int].terms@.len(),
                    label_map(remapping@),
                decreases self.out_state@[q as int].terms@.len() - t,
            {
                nt.push(remap_mono(self.out_state[q].terms[t], &remapping));
                t = t + 1;
            }
            self.out_state.set(q, BooleanPoly::from_terms(nt));
            q = q + 1;
        }
        let mut j: usize = 0;
        while j < parities.len()
            invariant
                label_map(remapping@),
                remapping@ == cm,
                parities@.len() == old(parities)@.len(),
                forall|jj: int, bb: int| 0 <= jj < j && 0 <= bb < 128 ==>
                    (#[trigger] bit(parities@[jj], bb) <==> remapped(old(parities)@[jj], cm, bb)),
                forall|jj: int| j <= jj < parities@.len() ==> #[trigger] parities@[jj] == old(parities)@[jj],
            decreases parities@.len() - j,
        {
            let p = parities[j];
            parities.set(j, remap_mono(p, &remapping));
            j = j + 1;
        }
        let mut batch: Vec<PackedPhaseTerm> = Vec::new();
        let mut j: usize = 0;
        while j < self.phase_poly.terms.len()
            invariant
                j <= self.phase_poly.terms@.len(),
                label_map(remapping@),
            decreases self.phase_poly.terms@.len() - j,
        {
            let term = self.phase_poly.terms[j];
            batch.push(PackedPhaseTerm::create(remap_mono(term.monomial(), &remapping), term.phase()));
            j = j + 1;
        }
        self.set_phase_terms(batch);
        let count = popcount(surviving);
        if count < self.num_path_vars {
            self.num_path_vars = count;
        }
    }

    /// Bring the path sum to its reduced canonical form: canonical gauge,
    /// merging of twin variables, and summing out every path variable that
    /// occurs only in the discrete phase with a π or ±π/2 pattern (the
    /// Hadamard and `ω`-sum identities). An overflowed state is left as it is;
    /// a state without path variables only has its even π/4 angle quotients
    /// promoted.
    ///
    /// The passes repeat until one changes nothing. That this happens is not
    /// proved here, so the loop also stops after 65 536 passes; the
    /// postcondition holds either way.
    pub fn reduce(&mut self)
        requires
            old(self).wf(),
        ensures
            reduced(*old(self), *final(self)),
    {
        if self.overflow_id != 0 {
            return;
        }
        let mut overall_changed = true;
        let mut passes: u32 = 0;
        while overall_changed && passes < 65536
            invariant
                self.wf(),
                old(self).wf(),
                old(self).overflow_id == 0,
                self.width == old(self).width,
                self.num_qubits == old(self).num_qubits,
                self.overflow_id == old(self).overflow_id,
                self.num_path_vars <= old(self).num_path_vars,
                old(self).num_path_vars == 0 ==> self.num_path_vars == 0 && self.out_state == old(self).out_state,
                passes == 0 ==> overall_changed && *self == *old(self),
                old(self).num_path_vars == 0 && passes > 0 ==> promoted(*old(self), *self),
                old(self).num_path_vars == 1 && gauge_settled(*old(self)) ==> self.num_path_vars == 1
                    && self.out_state == old(self).out_state && gauge_settled(*self),
                old(self).num_path_vars == 1 && gauge_settled(*old(self)) && passes > 0 ==> promoted(*old(self), *self),
            decreases 65536 - passes,
        {
            let ghost first = passes == 0;
            let ghost s0 = *self;
            passes = passes + 1;
            overall_changed = false;
            self.canonicalize_gauge();
            if self.merge_twin_variables() {
                overall_changed = true;
                continue;
            }
            let original_npv = self.num_path_vars;
            let nq = self.num_qubits;
            let path_var_mask: u128 = if original_npv == 0 { 0 } else { self.path_var_mask() };
            let mut parities = self.continuous_poly.parities.clone();
            let mut phases = self.continuous_poly.phases.clone();
            let mut dead_vars: u128 = 0;
            let mut global_out_mask = self.live_mask(&parities);
            let (mut piv_partner, mut piv_base, mut piv_invalid) = build_pivot_index(&self.phase_poly.terms, path_var_mask);
            let ghost frame = *self;
            let ghost calm = old(self).num_path_vars == 1 && gauge_settled(*old(self));
            proof {
                if calm {
                    assert(frame == s0);
                    lemma_settled_live(frame, parities@);
                    assert(path_var_mask == path_mask_of(frame));
                }
            }
            let mut changed = true;
            while changed
                invariant
                    self.wf(),
                    self.same_frame(&frame),
                    nq == self.num_qubits,
                    original_npv == self.num_path_vars,
                    nq + original_npv <= 128,
                    parities@.len() == phases@.len(),
                    piv_partner@.len() == 128,
                    piv_base@.len() == 128,
                    piv_invalid@.len() == 128,
                    original_npv > 0 ==> path_var_mask == low_mask_spec((nq + original_npv) as nat) & !low_mask_spec(nq as nat),
                    old(self).num_path_vars == 0 ==> original_npv == 0 && self.out_state == old(self).out_state,
                    original_npv == 0 ==> *self == frame && dead_vars == 0
                        && parities@ == frame.continuous_poly.parities@ && phases@ == frame.continuous_poly.phases@,
                    calm ==> *self == frame && dead_vars == 0 && original_npv == 1
                        && parities@ == frame.continuous_poly.parities@ && phases@ == frame.continuous_poly.phases@
                        && bit(global_out_mask, nq as int) && bit(path_var_mask, nq as int),
                decreases path_var_mask & !dead_vars, if changed { 1int } else { 0int },
            {
                changed = false;
                let ghost d0 = dead_vars;
                let mut v_idx: u32 = nq;
                while v_idx < nq + original_npv
                    invariant
                        self.wf(),
                        self.same_frame(&frame),
                        nq == self.num_qubits,
                        original_npv == self.num_path_vars,
                        nq + original_npv <= 128,
                        nq <= v_idx <= nq + original_npv,
                        parities@.len() == phases@.len(),
                        piv_partner@.len() == 128,
                        piv_base@.len() == 128,
                        piv_invalid@.len() == 128,
                        old(self).num_path_vars == 0 ==> original_npv == 0 && self.out_state == old(self).out_state,
                        original_npv > 0 ==> path_var_mask == low_mask_spec((nq + original_npv) as nat) & !low_mask_spec(nq as nat),
                        !changed ==> dead_vars == d0,
                        changed ==> (path_var_mask & !dead_vars) < (path_var_mask & !d0),
                        original_npv == 0 ==> *self == frame && dead_vars == 0
                            && parities@ == frame.continuous_poly.parities@ && phases@ == frame.continuous_poly.phases@,
                        calm ==> *self == frame && dead_vars == 0 && original_npv == 1 && !changed
                            && parities@ == frame.continuous_poly.parities@ && phases@ == frame.continuous_poly.phases@
                            && bit(global_out_mask, nq as int) && bit(path_var_mask, nq as int),
                    decreases nq + original_npv - v_idx,
                {
                    let v_mask = bit_at(v_idx);
                    proof {
                        if calm {
                            assert(v_idx == nq);
                            crate::pathsum::lemma_bit_and(global_out_mask, nq as u128);
                        }
                    }
                    let vi = v_idx as usize;
                    v_idx = v_idx + 1;
                    if (dead_vars & v_mask) != 0 || (global_out_mask & v_mask) != 0 || piv_invalid[vi] {
                        continue;
                    }
                    let p_mask = piv_partner[vi];
                    let base_phase = piv_base[vi];
                    if base_phase == 2 || base_phase == 6 {
                        if self.is_live_in(&parities, v_mask) {
                            continue;
                        }
                        let e_poly = BooleanPoly::from_mask(p_mask);
                        self.sum_out_omega(v_mask, &e_poly, base_phase);
                        let ghost before = dead_vars;
                        dead_vars = dead_vars | v_mask;
                        proof {
                            crate::bits::lemma_and_absorb(v_mask, 0);
                            lemma_dead_grows(path_var_mask, d0, before, v_mask, nq, (nq + original_npv) as u32, vi as u32, changed);
                        }
                        changed = true;
                        let idx = build_pivot_index(&self.phase_poly.terms, path_var_mask);
                        piv_partner = idx.0;
                        piv_base = idx.1;
                        piv_invalid = idx.2;
                        continue;
                    }
                    let valid_pivots = p_mask & path_var_mask & !dead_vars;
                    if valid_pivots == 0 {
                        continue;
                    }
                    if self.is_live_in(&parities, v_mask) {
                        continue;
                    }
                    let u_mask = bit_at(lowest_bit(valid_pivots));
                    let e_mask = p_mask ^ u_mask;
                    let e_poly = BooleanPoly::from_mask(e_mask);
                    self.substitute_rows(u_mask, &e_poly);
                    substitute_parities(&mut parities, &mut phases, u_mask, &e_poly);
                    global_out_mask = self.live_mask(&parities);
                    let mut next_gen: Vec<PackedPhaseTerm> = Vec::new();
                    let mut j: usize = 0;
                    while j < self.phase_poly.terms.len()
                        invariant
                            j <= self.phase_poly.terms@.len(),
                        decreases self.phase_poly.terms@.len() - j,
                    {
                        let term = self.phase_poly.terms[j];
                        let mono = term.monomial();
                        if (mono & v_mask) == 0 {
                            if (mono & u_mask) != 0 {
                                push_xor_phase_expansion(&mut next_gen, mono & !u_mask, &e_poly.terms, term.phase());
                            } else {
                                next_gen.push(term);
                            }
                        }
                        j = j + 1;
                    }
                    self.set_phase_terms(next_gen);
                    let ghost before = dead_vars;
                    dead_vars = dead_vars | (v_mask | u_mask);
                    proof {
                        crate::bits::lemma_and_absorb(v_mask, u_mask);
                        lemma_dead_grows(path_var_mask, d0, before, v_mask | u_mask, nq, (nq + original_npv) as u32, vi as u32, changed);
                    }
                    changed = true;
                    let idx = build_pivot_index(&self.phase_poly.terms, path_var_mask);
                    piv_partner = idx.0;
                    piv_base = idx.1;
                    piv_invalid = idx.2;
                }
            }
            let surviving = path_var_mask & !dead_vars;
            proof {
                if calm {
                    lemma_zero_bits(nq as u128);
                    crate::bits::lemma_bit_ops(0u128, 0u128, nq as u128);
                    crate::bits::lemma_bit_ops(path_var_mask, !dead_vars, nq as u128);
                    lemma_pop_positive(surviving, 128, nq as int);
                }
            }
            if popcount(surviving) < self.num_path_vars {
                self.compress_labels(surviving, &mut parities);
            }
            let ghost before_set = *self;
            self.set_continuous(parities, phases);
            let ghost s1 = *self;
            if self.promote_cliffords() {
                overall_changed = true;
            }
            if dead_vars != 0 {
                overall_changed = true;
            }
            proof {
                if old(self).num_path_vars == 0 || calm {
                    assert(before_set == s0);
                    assert forall|x: u128| #[trigger] s1.continuous_poly.angle(x) == s0.continuous_poly.angle(x) by {
                        crate::continuous_poly::lemma_angle_canonical(s0.continuous_poly, x);
                    }
                    lemma_promotion_step(*old(self), s0, s1, *self, first);
                }
            }
        }
    }

    /// `u := E` in every output row that holds `u`.
    fn substitute_rows(&mut self, u_mask: u128, e_poly: &BooleanPoly)
        requires
            old(self).wf(),
        ensures
            final(self).wf(),
            final(self).same_frame(old(self)),
            final(self).phase_poly == old(self).phase_poly,
            final(self).continuous_poly == old(self).continuous_poly,
            final(self).out_state@.len() == old(self).out_state@.len(),
            forall|q: int| 0 <= q < old(self).out_state@.len() ==> (#[trigger] final(self).out_state@[q]).monomials()
                == row_after_substitution(old(self).out_state@[q], u_mask, e_poly.terms@),
    {
        let ghost frame = *self;
        let ghost e = e_poly.terms@;
        let mut q: usize = 0;
        while q < self.out_state.len()
            invariant
                self.wf(),
                self.same_frame(&frame),
                self.phase_poly == frame.phase_poly,
                self.continuous_poly == frame.continuous_poly,
                frame == *old(self),
                e == e_poly.terms@,
                q <= self.out_state@.len(),
                self.out_state@.len() == frame.out_state@.len(),
                forall|k: int| 0 <= k < q ==> (#[trigger] self.out_state@[k]).monomials()
                    == row_after_substitution(frame.out_state@[k], u_mask, e),
                forall|k: int| q <= k < self.out_state@.len() ==> #[trigger] self.out_state@[k] == frame.out_state@[k],
            decreases self.out_state@.len() - q,
        {
            if (self.out_state[q].variable_mask & u_mask) != 0 {
                let ghost ts = self.out_state@[q as int].terms@;
                let mut kept: Vec<u128> = Vec::new();
                let mut distributed: Vec<u128> = Vec::new();
                let mut t: usize = 0;
                while t < self.out_state[q].terms.len()
                    invariant
                        q < self.out_state@.len(),
                        ts == self.out_state@[q as int].terms@,
                        e == e_poly.terms@,
                        t <= ts.len(),
                        kept@ == kept_terms(ts, u_mask, t as int),
                        distributed@ == distributed_terms(ts, u_mask, e, t as int),
                    decreases self.out_state@[q as int].terms@.len() - t,
                {
                    let term = self.out_state[q].terms[t];
                    if (term & u_mask) != 0 {
                        let base = term & !u_mask;
                        let ghost before = distributed@;
                        let mut k: usize = 0;
                        while k < e_poly.terms.len()
                            invariant
                                e == e_poly.terms@,
                                k <= e.len(),
                                distributed@ == before + times_terms(base, e).take(k as int),
                            decreases e_poly.terms@.len() - k,
                        {
                            let et = e_poly.terms[k];
                            distributed.push(if et == 0 { base } else { base | et });
                            assert(before + times_terms(base, e).take(k + 1) =~= (before + times_terms(base, e).take(k as int)).push(
                                if et == 0 { base } else { base | et }));
                            k = k + 1;
                        }
                        assert(times_terms(base, e).take(e.len() as int) =~= times_terms(base, e));
                    } else {
                        kept.push(term);
                    }
                    t = t + 1;
                }
                let ghost kept_v = kept@;
                let ghost dist_v = distributed@;
                let mut row = BooleanPoly::from_terms(kept);
                let addition = BooleanPoly::from_terms(distributed);
                row.add_assign(&addition);
                proof {
                    lemma_toggle_all_sorted(addition.terms@);
                    lemma_toggle_all_same_sum(toggle_all(Set::empty(), kept_v), addition.terms@, dist_v);
                }
                self.out_state.set(q, row);
            }
            q = q + 1;
        }
    }
}


/// Bit `v` lies in the path-variable range `l..h`.
proof fn lemma_in_path_mask(l: u32, h: u32, v: u32)
    requires
        l <= v < h <= 128,
    ensures
        (low_mask_spec(h as nat) & !low_mask_spec(l as nat)) & (1u128 << (v as u128)) == 1u128 << (v as u128),
{
    let lu = l as u128;
    let hu = h as u128;
    let vu = v as u128;
    if h >= 128 {
        assert((!0u128 & !(((1u128 << lu) - 1) as u128)) & (1u128 << vu) == 1u128 << vu) by (bit_vector)
            requires lu <= vu, vu < 128;
    } else {
        assert(((((1u128 << hu) - 1) as u128) & !(((1u128 << lu) - 1) as u128)) & (1u128 << vu) == 1u128 << vu) by (bit_vector)
            requires lu <= vu, vu < hu, hu < 128;
    }
}

/// Marking a not yet dead variable of the range dead shrinks the set of
/// undecided variables.
proof fn lemma_dead_grows(pvm: u128, d0: u128, d: u128, add: u128, l: u32, h: u32, v: u32, was_changed: bool)
    requires
        l <= v < h <= 128,
        pvm == low_mask_spec(h as nat) & !low_mask_spec(l as nat),
        add & (1u128 << (v as u128)) == 1u128 << (v as u128),
        d & (1u128 << (v as u128)) == 0,
        !was_changed ==> d == d0,
        was_changed ==> (pvm & !d) < (pvm & !d0),
    ensures
        (pvm & !(d | add)) < (pvm & !d0),
{
    lemma_in_path_mask(l, h, v);
    let b = 1u128 << (v as u128);
    let vu = v as u128;
    assert(b != 0) by (bit_vector)
        requires b == 1u128 << vu, vu < 128;
    assert((pvm & !(d | add)) < (pvm & !d)) by (bit_vector)
        requires pvm & b == b, add & b == b, d & b == 0, b != 0;
}

} // verus!
