//! A CNOT between remote wires, routed along a path of neighbouring wires
//! by SWAP ladders, and the proof that it acts as the CNOT itself.
use vstd::prelude::*;
use crate::gf2::{apply_op, apply_ops, lemma_apply_ops_concat, lemma_three_cx_swap};

verus! {

/// A SWAP of wires `a` and `b` as three CNOTs.
pub open spec fn swap3(a: usize, b: usize) -> Seq<(usize, usize)> {
    seq![(a, b), (b, a), (a, b)]
}

/// The SWAPs along `p[0] p[1] … p[j]`, first to last.
pub open spec fn ladder(p: Seq<usize>, j: int) -> Seq<(usize, usize)>
    decreases j,
{
    if j <= 0 {
        Seq::empty()
    } else {
        ladder(p, j - 1) + swap3(p[j - 1], p[j])
    }
}

/// The SWAPs of `ladder(p, k)` with index at least `i`, last to first.
pub open spec fn ladder_back(p: Seq<usize>, i: int, k: int) -> Seq<(usize, usize)>
    decreases k - i,
{
    if i >= k {
        Seq::empty()
    } else {
        ladder_back(p, i + 1, k) + swap3(p[i], p[i + 1])
    }
}

/// `CX(c, t)` routed along the path `p`: nothing without a path, the CNOT
/// itself between neighbours, and otherwise SWAPs that bring `c`'s wire
/// next to `t`, the CNOT there, and the SWAPs undone.
pub open spec fn route_ops(c: usize, t: usize, p: Seq<usize>) -> Seq<(usize, usize)> {
    if p.len() < 2 {
        Seq::empty()
    } else if p.len() == 2 {
        seq![(c, t)]
    } else {
        let k = p.len() - 1;
        ladder(p, k - 1) + seq![(p[k - 1], p[k])] + ladder_back(p, 0, k - 1)
    }
}

/// A path that visits no wire twice.
pub open spec fn simple_path(p: Seq<usize>) -> bool {
    forall|i: int, j: int| 0 <= i < j < p.len() ==> p[i] != p[j]
}

proof fn lemma_apply_swap3(x: Seq<u128>, a: usize, b: usize)
    requires
        a < x.len(),
        b < x.len(),
        a != b,
    ensures
        apply_ops(x, swap3(a, b)) == x.update(a as int, x[b as int]).update(b as int, x[a as int]),
{
    reveal_with_fuel(apply_ops, 4);
    let s = swap3(a, b);
    assert(s.drop_last() =~= seq![(a, b), (b, a)]);
    assert(s.drop_last().drop_last() =~= seq![(a, b)]);
    assert(s.drop_last().drop_last().drop_last() =~= Seq::<(usize, usize)>::empty());
    lemma_three_cx_swap(x, a, b);
}

/// Two SWAPs of the same wires cancel.
proof fn lemma_swap_twice(x: Seq<u128>, a: usize, b: usize)
    requires
        a < x.len(),
        b < x.len(),
        a != b,
    ensures
        apply_ops(apply_ops(x, swap3(a, b)), swap3(a, b)) == x,
{
    lemma_apply_swap3(x, a, b);
    let y = x.update(a as int, x[b as int]).update(b as int, x[a as int]);
    lemma_apply_swap3(y, a, b);
    assert(y.update(a as int, y[b as int]).update(b as int, y[a as int]) =~= x);
}

/// After the first `j` SWAPs the original row of `p[0]` sits on `p[j]`, and
/// wires off `p[0..=j]` keep their rows.
proof fn lemma_ladder_moves(m: Seq<u128>, p: Seq<usize>, j: int)
    requires
        0 <= j < p.len(),
        simple_path(p),
        forall|i: int| 0 <= i < p.len() ==> (#[trigger] p[i]) < m.len(),
    ensures
        apply_ops(m, ladder(p, j)).len() == m.len(),
        apply_ops(m, ladder(p, j))[p[j] as int] == m[p[0] as int],
        forall|w: int| 0 <= w < m.len() && (forall|i: int| 0 <= i <= j ==> p[i] != w)
            ==> #[trigger] apply_ops(m, ladder(p, j))[w] == m[w],
    decreases j,
{
    if j > 0 {
        lemma_ladder_moves(m, p, j - 1);
        let x = apply_ops(m, ladder(p, j - 1));
        lemma_apply_ops_concat(m, ladder(p, j - 1), swap3(p[j - 1], p[j]));
        assert(p[j - 1] != p[j]);
        lemma_apply_swap3(x, p[j - 1], p[j]);
        assert forall|w: int| 0 <= w < m.len() && (forall|i: int| 0 <= i <= j ==> p[i] != w)
            implies #[trigger] apply_ops(m, ladder(p, j))[w] == m[w] by {
            assert(p[j] != w && p[j - 1] != w);
            assert(forall|i: int| 0 <= i <= j - 1 ==> p[i] != w);
        }
    }
}

/// CNOTs that do not touch wire `t` commute with a change of row `t`.
proof fn lemma_ops_avoiding(m: Seq<u128>, ops: Seq<(usize, usize)>, t: usize, v: u128)
    requires
        t < m.len(),
        forall|k: int| 0 <= k < ops.len() ==> (#[trigger] ops[k]).0 != t && ops[k].1 != t,
    ensures
        apply_ops(m.update(t as int, v), ops) == apply_ops(m, ops).update(t as int, v),
        apply_ops(m, ops).len() == m.len(),
    decreases ops.len(),
{
    if ops.len() > 0 {
        let g = ops.last();
        assert(ops[ops.len() - 1] == g);
        assert forall|k: int| 0 <= k < ops.drop_last().len() implies (#[trigger] ops.drop_last()[k]).0 != t && ops.drop_last()[k].1 != t by {
            assert(ops.drop_last()[k] == ops[k]);
        }
        lemma_ops_avoiding(m, ops.drop_last(), t, v);
        let x = apply_ops(m, ops.drop_last());
        assert(apply_op(x.update(t as int, v), g) =~= apply_op(x, g).update(t as int, v));
    }
}

/// The SWAPs of `ladder(p, k)` from index `i` on, run backwards, take the
/// wires back to where the first `i` SWAPs left them.
proof fn lemma_ladder_back(y: Seq<u128>, p: Seq<usize>, i: int, k: int)
    requires
        0 <= i <= k < p.len(),
        simple_path(p),
        forall|q: int| 0 <= q < p.len() ==> (#[trigger] p[q]) < y.len(),
    ensures
        apply_ops(apply_ops(y, ladder(p, k)), ladder_back(p, i, k)) == apply_ops(y, ladder(p, i)),
    decreases k - i,
{
    if i < k {
        lemma_ladder_back(y, p, i + 1, k);
        let s = swap3(p[i], p[i + 1]);
        lemma_apply_ops_concat(apply_ops(y, ladder(p, k)), ladder_back(p, i + 1, k), s);
        assert(ladder(p, i + 1) == ladder(p, i) + s);
        lemma_apply_ops_concat(y, ladder(p, i), s);
        lemma_ops_len(y, ladder(p, i));
        assert(p[i] != p[i + 1]);
        lemma_swap_twice(apply_ops(y, ladder(p, i)), p[i], p[i + 1]);
    }
}

proof fn lemma_ops_len(m: Seq<u128>, ops: Seq<(usize, usize)>)
    ensures
        apply_ops(m, ops).len() == m.len(),
    decreases ops.len(),
{
    if ops.len() > 0 {
        lemma_ops_len(m, ops.drop_last());
    }
}

/// Wires of the SWAPs in `ladder(p, j)` are among `p[0..=j]`.
proof fn lemma_ladder_wires(p: Seq<usize>, j: int)
    requires
        0 <= j < p.len(),
    ensures
        forall|k: int| 0 <= k < ladder(p, j).len() ==> exists|i: int| 0 <= i <= j && #[trigger] ladder(p, j)[k].0 == p[i],
        forall|k: int| 0 <= k < ladder(p, j).len() ==> exists|i: int| 0 <= i <= j && #[trigger] ladder(p, j)[k].1 == p[i],
    decreases j,
{
    if j > 0 {
        lemma_ladder_wires(p, j - 1);
        let l = ladder(p, j - 1);
        let s = swap3(p[j - 1], p[j]);
        assert forall|k: int| 0 <= k < ladder(p, j).len() implies exists|i: int| 0 <= i <= j && #[trigger] ladder(p, j)[k].0 == p[i] by {
            if k < l.len() {
                assert(ladder(p, j)[k] == l[k]);
                let i = choose|i: int| 0 <= i <= j - 1 && #[trigger] l[k].0 == p[i];
                assert(ladder(p, j)[k].0 == p[i]);
            } else {
                assert(ladder(p, j)[k] == s[k - l.len()]);
                if s[k - l.len()].0 == p[j - 1] {
                    assert(ladder(p, j)[k].0 == p[j - 1]);
                } else {
                    assert(ladder(p, j)[k].0 == p[j]);
                }
            }
        }
        assert forall|k: int| 0 <= k < ladder(p, j).len() implies exists|i: int| 0 <= i <= j && #[trigger] ladder(p, j)[k].1 == p[i] by {
            if k < l.len() {
                assert(ladder(p, j)[k] == l[k]);
                let i = choose|i: int| 0 <= i <= j - 1 && #[trigger] l[k].1 == p[i];
                assert(ladder(p, j)[k].1 == p[i]);
            } else {
                assert(ladder(p, j)[k] == s[k - l.len()]);
                if s[k - l.len()].1 == p[j - 1] {
                    assert(ladder(p, j)[k].1 == p[j - 1]);
                } else {
                    assert(ladder(p, j)[k].1 == p[j]);
                }
            }
        }
    }
}

/// Routing `CX(c, t)` along a simple path of wires from `c` to `t` acts on
/// every matrix exactly as `CX(c, t)`: the SWAPs on the way there and back
/// cancel and never touch `t`.
pub proof fn lemma_route_acts_as_cx(m: Seq<u128>, c: usize, t: usize, p: Seq<usize>)
    requires
        p.len() >= 2,
        p[0] == c,
        p[p.len() - 1] == t,
        simple_path(p),
        forall|i: int| 0 <= i < p.len() ==> (#[trigger] p[i]) < m.len(),
    ensures
        apply_ops(m, route_ops(c, t, p)) == apply_op(m, (c, t)),
{
    if p.len() == 2 {
        reveal_with_fuel(apply_ops, 2);
        assert(seq![(c, t)].drop_last() =~= Seq::<(usize, usize)>::empty());
    } else {
        let k = p.len() - 1;
        let l = ladder(p, k - 1);
        let g = (p[k - 1], p[k]);
        let b = ladder_back(p, 0, k - 1);
        lemma_apply_ops_concat(m, l + seq![g], b);
        lemma_apply_ops_concat(m, l, seq![g]);
        reveal_with_fuel(apply_ops, 2);
        assert(seq![g].drop_last() =~= Seq::<(usize, usize)>::empty());
        lemma_ladder_moves(m, p, k - 1);
        let x = apply_ops(m, l);
        assert(forall|i: int| 0 <= i <= k - 1 ==> p[i] != t);
        assert(x[t as int] == m[t as int]);
        assert(x[p[k - 1] as int] == m[c as int]);
        let v = m[t as int] ^ m[c as int];
        assert(apply_op(x, g) == x.update(t as int, v));
        lemma_ladder_wires(p, k - 1);
        assert forall|q: int| 0 <= q < l.len() implies (#[trigger] l[q]).0 != t && l[q].1 != t by {
            let i0 = choose|i: int| 0 <= i <= k - 1 && #[trigger] l[q].0 == p[i];
            let i1 = choose|i: int| 0 <= i <= k - 1 && #[trigger] l[q].1 == p[i];
        }
        lemma_ops_avoiding(m, l, t, v);
        let mt = m.update(t as int, v);
        lemma_ladder_back(mt, p, 0, k - 1);
        assert(ladder(p, 0) =~= Seq::<(usize, usize)>::empty());
        assert(route_ops(c, t, p) == l + seq![g] + b);
    }
}

/// The CNOTs `cx[0..j]` routed one after another, `cx[i]` along `paths[i]`.
pub open spec fn routes(cx: Seq<(usize, usize)>, paths: Seq<Seq<usize>>, j: int) -> Seq<(usize, usize)>
    decreases j,
{
    if j <= 0 {
        Seq::empty()
    } else {
        routes(cx, paths, j - 1) + route_ops(cx[j - 1].0, cx[j - 1].1, paths[j - 1])
    }
}

/// Every path is simple and leads from its CNOT's control to its target.
pub open spec fn routes_direct(cx: Seq<(usize, usize)>, paths: Seq<Seq<usize>>) -> bool {
    &&& paths.len() == cx.len()
    &&& forall|i: int| 0 <= i < cx.len() ==> {
        &&& (#[trigger] paths[i]).len() >= 2
        &&& paths[i][0] == cx[i].0
        &&& paths[i][paths[i].len() - 1] == cx[i].1
        &&& simple_path(paths[i])
    }
}

/// CNOTs routed along simple paths that reach their targets act as the
/// CNOTs themselves.
pub proof fn lemma_routes_act(m: Seq<u128>, cx: Seq<(usize, usize)>, paths: Seq<Seq<usize>>, j: int)
    requires
        routes_direct(cx, paths),
        0 <= j <= cx.len(),
        forall|i: int, k: int| 0 <= i < paths.len() && 0 <= k < paths[i].len() ==> #[trigger] paths[i][k] < m.len(),
    ensures
        apply_ops(m, routes(cx, paths, j)) == apply_ops(m, cx.take(j)),
    decreases j,
{
    if j == 0 {
        assert(cx.take(0) =~= Seq::<(usize, usize)>::empty());
    } else {
        lemma_routes_act(m, cx, paths, j - 1);
        let r = routes(cx, paths, j - 1);
        let q = paths[j - 1];
        lemma_apply_ops_concat(m, r, route_ops(cx[j - 1].0, cx[j - 1].1, q));
        assert forall|k: int| 0 <= k < q.len() implies (#[trigger] q[k]) < apply_ops(m, r).len() by {
            lemma_ops_len(m, r);
            assert(paths[j - 1][k] < m.len());
        }
        lemma_route_acts_as_cx(apply_ops(m, r), cx[j - 1].0, cx[j - 1].1, q);
        assert(cx.take(j).drop_last() =~= cx.take(j - 1));
        assert(cx.take(j).last() == cx[j - 1]);
    }
}

} // verus!
