//! Strictly sorted vectors of words used as finite sets.
use vstd::prelude::*;

verus! {

/// Every element is strictly smaller than every later one.
pub open spec fn strictly_sorted(s: Seq<u128>) -> bool {
    forall|i: int, j: int| 0 <= i < j < s.len() ==> s[i] < s[j]
}

/// Flip the membership of `t`.
pub open spec fn toggle(s: Set<u128>, t: u128) -> Set<u128> {
    if s.contains(t) { s.remove(t) } else { s.insert(t) }
}

/// Flip the membership of every element of `ts`, left to right
/// (the GF(2) sum of `s` and the monomials of `ts`).
pub open spec fn toggle_all(s: Set<u128>, ts: Seq<u128>) -> Set<u128>
    decreases ts.len(),
{
    if ts.len() == 0 {
        s
    } else {
        toggle(toggle_all(s, ts.drop_last()), ts.last())
    }
}

/// Toggling a single monomial.
pub proof fn lemma_toggle_all_single(s: Set<u128>, x: u128)
    ensures
        toggle_all(s, seq![x]) == toggle(s, x),
{
    reveal_with_fuel(toggle_all, 2);
    assert(seq![x].drop_last() == Seq::<u128>::empty());
    assert(seq![x].last() == x);
}

/// A strictly sorted sequence whose set is `{x}` is `[x]`.
pub proof fn lemma_sorted_singleton(v: Seq<u128>, x: u128)
    requires
        strictly_sorted(v),
        v.to_set() == Set::<u128>::empty().insert(x),
    ensures
        v == seq![x],
{
    assert(v.to_set().contains(x));
    assert(v.contains(x));
    assert forall|k: int| 0 <= k < v.len() implies v[k] == x by {
        assert(v.to_set().contains(v[k]));
    }
    if v.len() > 1 {
        assert(v[0] < v[1]);
    }
    assert(v =~= seq![x]);
}

/// Binary search in a strictly sorted vector: whether `x` is present and the
/// index where it stands or would be inserted.
pub fn search_sorted(v: &Vec<u128>, x: u128) -> (r: (bool, usize))
    requires
        strictly_sorted(v@),
    ensures
        r.1 <= v.len(),
        r.0 ==> r.1 < v.len() && v@[r.1 as int] == x,
        !r.0 ==> forall|i: int| 0 <= i < v.len() ==> v@[i] != x,
        forall|i: int| 0 <= i < r.1 ==> v@[i] < x,
        forall|i: int| r.1 < i < v.len() ==> x < v@[i],
        !r.0 ==> forall|i: int| r.1 <= i < v.len() ==> x < v@[i],
{
    let mut lo: usize = 0;
    let mut hi: usize = v.len();
    while lo < hi
        invariant
            strictly_sorted(v@),
            lo <= hi <= v.len(),
            forall|i: int| 0 <= i < lo ==> v@[i] < x,
            forall|i: int| hi <= i < v.len() ==> x < v@[i],
        decreases hi - lo,
    {
        let mid = lo + (hi - lo) / 2;
        if v[mid] < x {
            lo = mid + 1;
        } else if v[mid] > x {
            hi = mid;
        } else {
            return (true, mid);
        }
    }
    (false, lo)
}

/// Membership test on a strictly sorted vector.
pub fn contains_sorted(v: &Vec<u128>, x: u128) -> (r: bool)
    requires
        strictly_sorted(v@),
    ensures
        r == v@.contains(x),
{
    let (found, pos) = search_sorted(v, x);
    if found {
        assert(v@[pos as int] == x);
    }
    found
}

/// Insert `x` if absent, remove it if present; the vector stays strictly sorted.
pub fn toggle_sorted(v: &mut Vec<u128>, x: u128)
    requires
        strictly_sorted(old(v)@),
    ensures
        strictly_sorted(final(v)@),
        final(v)@.to_set() == toggle(old(v)@.to_set(), x),
{
    let ghost s0 = v@;
    let (found, pos) = search_sorted(v, x);
    if found {
        v.remove(pos);
        assert(v@ == s0.remove(pos as int));
        assert forall|y: u128| v@.to_set().contains(y) <==> toggle(s0.to_set(), x).contains(y) by {
            if v@.contains(y) {
                let k = choose|k: int| 0 <= k < v@.len() && v@[k] == y;
                if k < pos { assert(s0[k] == y); } else { assert(s0[k + 1] == y); }
                assert(s0.contains(y));
            }
            if s0.contains(y) && y != x {
                let k = choose|k: int| 0 <= k < s0.len() && s0[k] == y;
                if k < pos { assert(v@[k] == y); } else { assert(k != pos); assert(v@[k - 1] == y); }
            }
        }
        assert(v@.to_set() =~= toggle(s0.to_set(), x));
    } else {
        v.insert(pos, x);
        assert(v@ == s0.insert(pos as int, x));
        assert forall|y: u128| v@.to_set().contains(y) <==> toggle(s0.to_set(), x).contains(y) by {
            if v@.contains(y) {
                let k = choose|k: int| 0 <= k < v@.len() && v@[k] == y;
                if k < pos { assert(s0[k] == y); } else if k > pos { assert(s0[k - 1] == y); }
            }
            if s0.contains(y) {
                let k = choose|k: int| 0 <= k < s0.len() && s0[k] == y;
                if k < pos { assert(v@[k] == y); } else { assert(v@[k + 1] == y); }
            }
            if y == x { assert(v@[pos as int] == x); }
        }
        assert(v@.to_set() =~= toggle(s0.to_set(), x));
    }
}

} // verus!
