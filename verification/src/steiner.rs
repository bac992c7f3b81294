//! Connectivity-aware routing: coupling topologies, approximate Steiner
//! trees over terminal wires, and CNOT ladders between remote wires.
use vstd::prelude::*;
use vstd::string::StringExecFns;
use crate::bits::bit_at;
use crate::pathsum::{cx_text, cx_string};
use crate::render::{dec, push_decimal, push_signed_decimal, sdec};
use crate::gf2::{synthesize_cnot_matrix, ops_in_range, ops_distinct, apply_ops, apply_op, identity_rows, masked_rows, cx_realizable};
use crate::evaluator::EvaluatedPathSum;
use crate::routing::{route_ops, ladder, ladder_back, swap3, routes, simple_path, routes_direct, lemma_routes_act};
use crate::edges::{chars_of, unquoted_range, parse_edges, lists_pair, named_coupling};

verus! {

/// Distances and next hops between the wires of a coupling graph
/// (`usize::MAX` marks an unreachable pair), row-major `n x n`.
pub struct Topology {
    pub n: usize,
    pub dist: Vec<usize>,
    pub next: Vec<usize>,
}

/// Entry `(a, b)` of a row-major table with rows of length `n`.
pub open spec fn entry(t: Seq<usize>, n: nat, a: int, b: int) -> usize {
    t[a * n + b]
}

proof fn lemma_flat_index(a: usize, b: usize, n: usize)
    requires
        a < n,
        b < n,
        n <= 128,
    ensures
        a * n + b < n * n,
        n * n <= 16384,
{
    assert(a * n + b < n * n && n * n <= 16384) by (nonlinear_arith)
        requires a < n, b < n, n <= 128;
}

proof fn lemma_flat_bound(a: int, b: int, n: int)
    requires
        0 <= a < n,
        0 <= b < n,
    ensures
        0 <= a * n + b < n * n,
{
    assert(0 <= a * n + b < n * n) by (nonlinear_arith)
        requires 0 <= a < n, 0 <= b < n;
}

proof fn lemma_flat_inj(a: int, b: int, i: int, j: int, n: int)
    requires
        0 <= a < n,
        0 <= b < n,
        0 <= i < n,
        0 <= j < n,
        a * n + b == i * n + j,
    ensures
        a == i && b == j,
{
    if a < i {
        assert(a * n + n <= i * n) by (nonlinear_arith)
            requires a + 1 <= i, n >= 0;
    } else if a > i {
        assert(i * n + n <= a * n) by (nonlinear_arith)
            requires i + 1 <= a, n >= 0;
    }
}

/// Writing entry `(i, j)` leaves every other entry as it was.
proof fn lemma_set_entry(t: Seq<usize>, n: nat, i: int, j: int, v: usize)
    requires
        t.len() == n * n,
        0 <= i < n,
        0 <= j < n,
    ensures
        0 <= i * n + j < t.len(),
        forall|a: int, b: int| 0 <= a < n && 0 <= b < n ==>
            #[trigger] entry(t.update(i * n + j, v), n, a, b) == if a == i && b == j { v } else { entry(t, n, a, b) },
{
    lemma_flat_bound(i, j, n as int);
    assert forall|a: int, b: int| 0 <= a < n && 0 <= b < n implies
        #[trigger] entry(t.update(i * n + j, v), n, a, b) == if a == i && b == j { v } else { entry(t, n, a, b) } by {
        lemma_flat_bound(a, b, n as int);
        if !(a == i && b == j) {
            if a * n + b == i * n + j {
                lemma_flat_inj(a, b, i, j, n as int);
            }
        }
    }
}

/// The pair `{a, b}` among the first `e` edges, once edge `e` is counted too.
proof fn lemma_lists_pair_push(es: Seq<(usize, usize)>, e: int, a: int, b: int)
    requires
        0 <= e < es.len(),
    ensures
        lists_pair(es.subrange(0, e + 1), a, b) <==> lists_pair(es.subrange(0, e), a, b)
            || (es[e].0 == a && es[e].1 == b) || (es[e].0 == b && es[e].1 == a),
{
    let s0 = es.subrange(0, e);
    let s1 = es.subrange(0, e + 1);
    if lists_pair(s1, a, b) {
        let q = choose|q: int| 0 <= q < s1.len() && ((#[trigger] s1[q]).0 == a && s1[q].1 == b || s1[q].0 == b && s1[q].1 == a);
        if q < e {
            assert(s0[q] == s1[q]);
        }
    }
    if lists_pair(s0, a, b) {
        let q = choose|q: int| 0 <= q < s0.len() && ((#[trigger] s0[q]).0 == a && s0[q].1 == b || s0[q].0 == b && s0[q].1 == a);
        assert(s1[q] == s0[q]);
    }
    if (es[e].0 == a && es[e].1 == b) || (es[e].0 == b && es[e].1 == a) {
        assert(s1[e] == es[e]);
    }
}

/// The tables while shortest paths are relaxed: the diagonal is at most
/// one, other distances at least one and exactly one between the wires
/// the text couples, and each next hop is a neighbour.
pub open spec fn relaxing(dist: Seq<usize>, next: Seq<usize>, n: nat, text: Seq<char>) -> bool {
    &&& dist.len() == n * n
    &&& next.len() == n * n
    &&& forall|a: int| 0 <= a < n ==> #[trigger] entry(dist, n, a, a) <= 1
    &&& forall|a: int, b: int| 0 <= a < n && 0 <= b < n && a != b ==> #[trigger] entry(dist, n, a, b) >= 1
        && (entry(dist, n, a, b) == 1 <==> named_coupling(text, n, a, b))
    &&& forall|a: int, b: int| 0 <= a < n && 0 <= b < n && a != b && #[trigger] entry(next, n, a, b) < n
        ==> entry(next, n, a, b) != a && entry(dist, n, a, entry(next, n, a, b) as int) == 1
}

/// Every next hop toward a reachable wire is a wire, and either the
/// destination itself or strictly nearer to it: following next hops from
/// any wire reaches every wire at finite distance.
pub open spec fn descending_tables(dist: Seq<usize>, next: Seq<usize>, n: nat) -> bool {
    forall|a: int, b: int| 0 <= a < n && 0 <= b < n && a != b && entry(dist, n, a, b) != usize::MAX ==>
        #[trigger] entry(next, n, a, b) < n
        && (entry(next, n, a, b) == b || entry(dist, n, entry(next, n, a, b) as int, b) < entry(dist, n, a, b))
}

/// A path that visits no wire twice, over `n` wires, has at most `n` wires.
proof fn lemma_simple_path_len(p: Seq<usize>, n: nat)
    requires
        simple_path(p),
        forall|k: int| 0 <= k < p.len() ==> #[trigger] p[k] < n,
    ensures
        p.len() <= n,
{
    let q = p.map_values(|x: usize| x as int);
    assert(q.no_duplicates()) by {
        assert forall|i: int, j: int| 0 <= i < q.len() && 0 <= j < q.len() && i != j implies q[i] != q[j] by {
            if i < j { assert(p[i] != p[j]); } else { assert(p[j] != p[i]); }
        }
    }
    q.unique_seq_to_set();
    vstd::set_lib::lemma_int_range(0, n as int);
    assert(q.to_set().subset_of(vstd::set_lib::set_int_range(0, n as int))) by {
        assert forall|x: int| q.to_set().contains(x) implies vstd::set_lib::set_int_range(0, n as int).contains(x) by {
            let k = choose|k: int| 0 <= k < q.len() && q[k] == x;
            assert(p[k] < n);
        }
    }
    vstd::set_lib::lemma_len_subset(q.to_set(), vstd::set_lib::set_int_range(0, n as int));
}

/// One relaxation through `k` keeps the tables relaxing; it only happens
/// for three distinct wires.
proof fn lemma_relax_step(dist: Seq<usize>, next: Seq<usize>, n: nat, text: Seq<char>, i: int, j: int, k: int, through: int)
    requires
        relaxing(dist, next, n, text),
        0 <= i < n,
        0 <= j < n,
        0 <= k < n,
        through == entry(dist, n, i, k) + entry(dist, n, k, j),
        through < entry(dist, n, i, j),
    ensures
        i != j && i != k && j != k,
        relaxing(dist.update(i * n + j, through as usize), next.update(i * n + j, entry(next, n, i, k)), n, text),
{
    assert(i != k && j != k);
    assert(i != j);
    let d2 = dist.update(i * n + j, through as usize);
    let x2 = next.update(i * n + j, entry(next, n, i, k));
    lemma_set_entry(dist, n, i, j, through as usize);
    lemma_set_entry(next, n, i, j, entry(next, n, i, k));
    assert forall|a: int, b: int| 0 <= a < n && 0 <= b < n && a != b && #[trigger] entry(x2, n, a, b) < n
        implies entry(x2, n, a, b) != a && entry(d2, n, a, entry(x2, n, a, b) as int) == 1 by {
        let h = entry(x2, n, a, b) as int;
        if a == i && b == j {
            assert(entry(next, n, i, k) < n);
            assert(entry(dist, n, i, h) == 1);
        } else {
            assert(entry(next, n, a, b) < n);
            assert(entry(dist, n, a, h) == 1);
        }
    }
    assert forall|a: int| 0 <= a < n implies #[trigger] entry(d2, n, a, a) <= 1 by {
        assert(entry(dist, n, a, a) <= 1);
    }
    assert forall|a: int, b: int| 0 <= a < n && 0 <= b < n && a != b implies #[trigger] entry(d2, n, a, b) >= 1
        && (entry(d2, n, a, b) == 1 <==> named_coupling(text, n, a, b)) by {
        assert(entry(dist, n, a, b) >= 1);
    }
}

impl Topology {
    /// Distance entry `(a, b)`.
    pub open spec fn d(&self, a: int, b: int) -> usize {
        entry(self.dist@, self.n as nat, a, b)
    }

    /// Next hops lead toward their destination ([`descending_tables`]).
    pub open spec fn descending(&self) -> bool {
        descending_tables(self.dist@, self.next@, self.n as nat)
    }

    /// Every wire is at finite distance from every other, and next hops
    /// lead toward their destination.
    pub open spec fn connected(&self) -> bool {
        &&& self.descending()
        &&& forall|a: int, b: int| 0 <= a < self.n && 0 <= b < self.n ==> #[trigger] self.d(a, b) != usize::MAX
    }

    /// Next-hop entry `(a, b)`.
    pub open spec fn hop(&self, a: int, b: int) -> usize {
        entry(self.next@, self.n as nat, a, b)
    }

    /// Wires `a` and `b` are neighbours: distinct, at distance one.
    pub open spec fn coupled(&self, a: int, b: int) -> bool {
        a != b && self.d(a, b) == 1
    }

    /// A path whose consecutive wires are neighbours.
    pub open spec fn walks(&self, p: Seq<usize>) -> bool {
        forall|k: int| #![trigger p[k]] 0 <= k < p.len() - 1 ==> self.coupled(p[k] as int, p[k + 1] as int)
    }

    /// CNOTs that each act on two neighbouring wires.
    pub open spec fn on_neighbours(&self, ops: Seq<(usize, usize)>) -> bool {
        forall|q: int| 0 <= q < ops.len() ==> self.coupled((#[trigger] ops[q]).0 as int, ops[q].1 as int)
    }

    /// The neighbour relation.
    pub open spec fn link(&self) -> spec_fn(int, int) -> bool {
        |a: int, b: int| self.coupled(a, b)
    }

    /// Well-formed tables for `n` wires: neighbourhood is symmetric and
    /// every next hop off the diagonal is a neighbour.
    pub open spec fn wf(&self) -> bool {
        &&& self.n <= 128
        &&& self.dist@.len() == self.n * self.n
        &&& self.next@.len() == self.n * self.n
        &&& forall|a: int| 0 <= a < self.n ==> #[trigger] self.d(a, a) <= 1
        &&& forall|a: int, b: int| 0 <= a < self.n && 0 <= b < self.n && #[trigger] self.coupled(a, b)
            ==> self.coupled(b, a)
        &&& forall|a: int, b: int| 0 <= a < self.n && 0 <= b < self.n && a != b && #[trigger] self.hop(a, b) < self.n
            ==> self.coupled(a, self.hop(a, b) as int)
    }

    /// The coupling graph named by `edge_str` (`u-v;u-v;...`, quotes around
    /// it ignored; a blank text couples all wires) with its all-pairs
    /// shortest paths (Floyd–Warshall).
    #[verifier::spinoff_prover]
    #[verifier::rlimit(60)]
    pub fn new(n: usize, edge_str: &str) -> (r: Self)
        requires
            n <= 128,
        ensures
            r.wf(),
            r.n == n,
            forall|a: int, b: int| 0 <= a < n && 0 <= b < n ==>
                (#[trigger] r.coupled(a, b) <==> named_coupling(edge_str@, n as nat, a, b)),
            r.descending(),
    {
        assert(n * n <= 16384) by (nonlinear_arith) requires n <= 128;
        let ghost text = edge_str@;
        let ghost wires: nat = n as nat;
        let nn = n * n;
        let mut dist: Vec<usize> = Vec::new();
        let mut next: Vec<usize> = Vec::new();
        let mut k: usize = 0;
        while k < nn
            invariant
                k <= nn,
                dist@.len() == k,
                next@.len() == k,
                forall|q: int| 0 <= q < k ==> dist@[q] == usize::MAX && next@[q] == usize::MAX,
            decreases nn - k,
        {
            dist.push(usize::MAX);
            next.push(usize::MAX);
            k = k + 1;
        }
        proof {
            assert forall|a: int, b: int| 0 <= a < n && 0 <= b < n implies
                #[trigger] entry(dist@, n as nat, a, b) == (if a == b && a < 0 { 0 } else { usize::MAX })
                && entry(next@, n as nat, a, b) == (if a == b && a < 0 { a as usize } else { usize::MAX }) by {
                lemma_flat_bound(a, b, n as int);
            }
        }
        let mut i: usize = 0;
        while i < n
            invariant
                n <= 128,
                i <= n,
                nn == n * n,
                dist@.len() == nn,
                next@.len() == nn,
                forall|a: int, b: int| 0 <= a < n && 0 <= b < n ==>
                    #[trigger] entry(dist@, n as nat, a, b) == (if a == b && a < i { 0 } else { usize::MAX })
                    && entry(next@, n as nat, a, b) == (if a == b && a < i { a as usize } else { usize::MAX }),
            decreases n - i,
        {
            let ghost dd = dist@;
            let ghost xx = next@;
            proof {
                lemma_flat_index(i, i, n);
                lemma_set_entry(dist@, n as nat, i as int, i as int, 0);
                lemma_set_entry(next@, n as nat, i as int, i as int, i);
            }
            dist.set(i * n + i, 0);
            next.set(i * n + i, i);
            proof {
                assert(dist@ == dd.update(i * n + i, 0usize));
                assert(next@ == xx.update(i * n + i, i));
                assert forall|a: int, b: int| 0 <= a < n && 0 <= b < n implies
                    #[trigger] entry(dist@, n as nat, a, b) == (if a == b && a < i + 1 { 0 } else { usize::MAX })
                    && entry(next@, n as nat, a, b) == (if a == b && a < i + 1 { a as usize } else { usize::MAX }) by {
                    assert(entry(dist@, n as nat, a, b) == if a == i && b == i { 0usize } else { entry(dd, n as nat, a, b) });
                    assert(entry(next@, n as nat, a, b) == if a == i && b == i { i } else { entry(xx, n as nat, a, b) });
                }
            }
            i = i + 1;
        }
        proof {
            assert forall|a: int| 0 <= a < n implies #[trigger] entry(dist@, n as nat, a, a) <= 1
                && entry(next@, n as nat, a, a) == a by {
                assert(entry(dist@, n as nat, a, a) == (if a == a && a < i { 0 } else { usize::MAX }));
            }
        }
        let ghost dist_init = dist@;
        let ghost next_init = next@;
        let all = chars_of(edge_str);
        let (lo, hi) = unquoted_range(&all);
        let blank = lo == hi;
        let edges: Vec<(usize, usize)> = if blank {
            let mut every: Vec<(usize, usize)> = Vec::new();
            let mut a: usize = 0;
            while a < n
                invariant
                    a <= n,
                    forall|q: int| 0 <= q < every@.len() ==> (#[trigger] every@[q]).0 < n && every@[q].1 < n,
                    forall|x: int, y: int| 0 <= x < a && 0 <= y < n && x != y ==> #[trigger] lists_pair(every@, x, y),
                decreases n - a,
            {
                let mut b: usize = 0;
                while b < n
                    invariant
                        a < n,
                        b <= n,
                        forall|q: int| 0 <= q < every@.len() ==> (#[trigger] every@[q]).0 < n && every@[q].1 < n,
                        forall|x: int, y: int| 0 <= x < a && 0 <= y < n && x != y ==> #[trigger] lists_pair(every@, x, y),
                        forall|y: int| 0 <= y < b && a != y ==> #[trigger] lists_pair(every@, a as int, y),
                    decreases n - b,
                {
                    if a != b {
                        let ghost before = every@;
                        every.push((a, b));
                        proof {
                            assert(every@[before.len() as int] == (a, b));
                            assert forall|q: int| 0 <= q < every@.len() implies (#[trigger] every@[q]).0 < n && every@[q].1 < n by {
                                if q < before.len() { assert(every@[q] == before[q]); }
                            }
                            assert forall|x: int, y: int| 0 <= x < a && 0 <= y < n && x != y implies #[trigger] lists_pair(every@, x, y) by {
                                assert(lists_pair(before, x, y));
                                let q = choose|q: int| 0 <= q < before.len() && ((#[trigger] before[q]).0 == x && before[q].1 == y || before[q].0 == y && before[q].1 == x);
                                assert(every@[q] == before[q]);
                            }
                            assert forall|y: int| 0 <= y < b + 1 && a != y implies #[trigger] lists_pair(every@, a as int, y) by {
                                if y < b {
                                    assert(lists_pair(before, a as int, y));
                                    let q = choose|q: int| 0 <= q < before.len() && ((#[trigger] before[q]).0 == a && before[q].1 == y || before[q].0 == y && before[q].1 == a);
                                    assert(every@[q] == before[q]);
                                }
                            }
                        }
                    }
                    b = b + 1;
                }
                a = a + 1;
            }
            every
        } else {
            parse_edges(&all, lo, hi, n)
        };
        proof {
            assert forall|a: int, b: int| 0 <= a < n && 0 <= b < n && a != b implies
                (#[trigger] lists_pair(edges@, a, b) <==> named_coupling(text, wires, a, b)) by {
                if blank {
                    assert(lists_pair(edges@, a, b));
                }
            }
        }
        let mut e: usize = 0;
        assert(edges@.subrange(0, 0) =~= Seq::<(usize, usize)>::empty());
        assert(dist@ == dist_init && next@ == next_init);
        while e < edges.len()
            invariant
                n <= 128,
                nn == n * n,
                e <= edges@.len(),
                dist@.len() == nn,
                next@.len() == nn,
                forall|q: int| 0 <= q < edges@.len() ==> (#[trigger] edges@[q]).0 < n && edges@[q].1 < n,
                forall|a: int| 0 <= a < n ==> #[trigger] entry(dist@, n as nat, a, a) <= 1
                    && entry(next@, n as nat, a, a) == a,
                forall|a: int, b: int| 0 <= a < n && 0 <= b < n && a != b ==>
                    (#[trigger] entry(dist@, n as nat, a, b) == 1 <==> lists_pair(edges@.subrange(0, e as int), a, b))
                    && (entry(dist@, n as nat, a, b) == 1 || entry(dist@, n as nat, a, b) == usize::MAX)
                    && entry(next@, n as nat, a, b) == (if lists_pair(edges@.subrange(0, e as int), a, b) { b as usize } else { usize::MAX }),
            decreases edges@.len() - e,
        {
            let (u, v) = edges[e];
            assert(edges@[e as int].0 < n && edges@[e as int].1 < n);
            let ghost d0 = dist@;
            let ghost x0 = next@;
            proof {
                lemma_flat_index(u, v, n);
                lemma_flat_index(v, u, n);
                lemma_set_entry(dist@, n as nat, u as int, v as int, 1);
                lemma_set_entry(next@, n as nat, u as int, v as int, v);
            }
            dist.set(u * n + v, 1);
            next.set(u * n + v, v);
            let ghost d1 = dist@;
            let ghost x1 = next@;
            proof {
                lemma_set_entry(dist@, n as nat, v as int, u as int, 1);
                lemma_set_entry(next@, n as nat, v as int, u as int, u);
            }
            dist.set(v * n + u, 1);
            next.set(v * n + u, u);
            proof {
                assert forall|a: int, b: int| 0 <= a < n && 0 <= b < n implies
                    #[trigger] entry(dist@, n as nat, a, b) == (if (a == u && b == v) || (a == v && b == u) { 1usize } else { entry(d0, n as nat, a, b) })
                    && entry(next@, n as nat, a, b) == (if a == v && b == u { u } else if a == u && b == v { v } else { entry(x0, n as nat, a, b) }) by {
                    assert(entry(d1, n as nat, a, b) == (if a == u && b == v { 1usize } else { entry(d0, n as nat, a, b) }));
                    assert(entry(x1, n as nat, a, b) == (if a == u && b == v { v } else { entry(x0, n as nat, a, b) }));
                }
                assert forall|a: int, b: int| 0 <= a < n && 0 <= b < n && a != b implies
                    (#[trigger] entry(dist@, n as nat, a, b) == 1 <==> lists_pair(edges@.subrange(0, e + 1), a, b))
                    && (entry(dist@, n as nat, a, b) == 1 || entry(dist@, n as nat, a, b) == usize::MAX)
                    && entry(next@, n as nat, a, b) == (if lists_pair(edges@.subrange(0, e + 1), a, b) { b as usize } else { usize::MAX }) by {
                    assert(entry(d0, n as nat, a, b) == 1 <==> lists_pair(edges@.subrange(0, e as int), a, b));
                    assert(entry(d0, n as nat, a, b) == 1 || entry(d0, n as nat, a, b) == usize::MAX);
                    assert(entry(x0, n as nat, a, b) == (if lists_pair(edges@.subrange(0, e as int), a, b) { b as usize } else { usize::MAX }));
                    lemma_lists_pair_push(edges@, e as int, a, b);
                }
            }
            e = e + 1;
        }
        assert(edges@.subrange(0, edges@.len() as int) =~= edges@);
        proof {
            assert forall|a: int, b: int| 0 <= a < n && 0 <= b < n && a != b implies #[trigger] entry(dist@, n as nat, a, b) >= 1
                && (entry(dist@, n as nat, a, b) == 1 <==> named_coupling(text, n as nat, a, b)) by {
                assert(lists_pair(edges@, a, b) <==> named_coupling(text, wires, a, b));
            }
            assert forall|a: int, b: int| 0 <= a < n && 0 <= b < n && a != b && #[trigger] entry(next@, n as nat, a, b) < n
                implies entry(next@, n as nat, a, b) != a && entry(dist@, n as nat, a, entry(next@, n as nat, a, b) as int) == 1 by {
                assert(entry(dist@, n as nat, a, b) == 1 || entry(dist@, n as nat, a, b) == usize::MAX);
                assert(lists_pair(edges@.subrange(0, e as int), a, b));
                assert(entry(next@, n as nat, a, b) == b);
            }
        }
        assert(relaxing(dist@, next@, n as nat, text));
        proof {
            assert forall|a: int, b: int| 0 <= a < n && 0 <= b < n && a != b && entry(dist@, n as nat, a, b) != usize::MAX implies
                #[trigger] entry(next@, n as nat, a, b) < n
                && (entry(next@, n as nat, a, b) == b
                    || entry(dist@, n as nat, entry(next@, n as nat, a, b) as int, b) < entry(dist@, n as nat, a, b)) by {
                assert(entry(dist@, n as nat, a, b) == 1 || entry(dist@, n as nat, a, b) == usize::MAX);
                assert(lists_pair(edges@.subrange(0, e as int), a, b));
            }
        }
        let mut k: usize = 0;
        while k < n
            invariant
                n <= 128,
                nn == n * n,
                relaxing(dist@, next@, n as nat, text),
                descending_tables(dist@, next@, n as nat),
            decreases n - k,
        {
            let ghost d0 = dist@;
            let ghost x0 = next@;
            let mut i: usize = 0;
            while i < n
                invariant
                    k < n <= 128,
                    nn == n * n,
                    i <= n,
                    relaxing(dist@, next@, n as nat, text),
                    relaxing(d0, x0, n as nat, text),
                    descending_tables(d0, x0, n as nat),
                    forall|a: int, b: int| 0 <= a < n && 0 <= b < n ==>
                        (#[trigger] entry(dist@, n as nat, a, b) == entry(d0, n as nat, a, b) && entry(next@, n as nat, a, b) == entry(x0, n as nat, a, b))
                        || (a != k && b != k && a != b && entry(d0, n as nat, a, k as int) != usize::MAX && entry(d0, n as nat, k as int, b) != usize::MAX
                            && entry(dist@, n as nat, a, b) == entry(d0, n as nat, a, k as int) + entry(d0, n as nat, k as int, b)
                            && entry(next@, n as nat, a, b) == entry(x0, n as nat, a, k as int)
                            && entry(dist@, n as nat, a, b) < entry(d0, n as nat, a, b)),
                    forall|a: int, b: int| 0 <= a < i && 0 <= b < n && entry(d0, n as nat, a, k as int) != usize::MAX
                        && entry(d0, n as nat, k as int, b) != usize::MAX && entry(d0, n as nat, a, k as int) + entry(d0, n as nat, k as int, b) <= usize::MAX
                        ==> #[trigger] entry(dist@, n as nat, a, b) <= entry(d0, n as nat, a, k as int) + entry(d0, n as nat, k as int, b),
                decreases n - i,
            {
                let mut j: usize = 0;
                while j < n
                    invariant
                        k < n <= 128,
                        i < n,
                        j <= n,
                        nn == n * n,
                        relaxing(dist@, next@, n as nat, text),
                        relaxing(d0, x0, n as nat, text),
                        forall|a: int, b: int| 0 <= a < n && 0 <= b < n ==>
                            (#[trigger] entry(dist@, n as nat, a, b) == entry(d0, n as nat, a, b) && entry(next@, n as nat, a, b) == entry(x0, n as nat, a, b))
                            || (a != k && b != k && a != b && entry(d0, n as nat, a, k as int) != usize::MAX && entry(d0, n as nat, k as int, b) != usize::MAX
                                && entry(dist@, n as nat, a, b) == entry(d0, n as nat, a, k as int) + entry(d0, n as nat, k as int, b)
                                && entry(next@, n as nat, a, b) == entry(x0, n as nat, a, k as int)
                                && entry(dist@, n as nat, a, b) < entry(d0, n as nat, a, b)),
                        forall|a: int, b: int| 0 <= a < n && 0 <= b < n && (a < i || (a == i && b < j)) && entry(d0, n as nat, a, k as int) != usize::MAX
                            && entry(d0, n as nat, k as int, b) != usize::MAX && entry(d0, n as nat, a, k as int) + entry(d0, n as nat, k as int, b) <= usize::MAX
                            ==> #[trigger] entry(dist@, n as nat, a, b) <= entry(d0, n as nat, a, k as int) + entry(d0, n as nat, k as int, b),
                    decreases n - j,
                {
                    proof { lemma_flat_index(i, k, n); lemma_flat_index(k, j, n); lemma_flat_index(i, j, n); }
                    let ghost dd = dist@;
                    let ghost xx = next@;
                    let dik = dist[i * n + k];
                    let dkj = dist[k * n + j];
                    proof {
                        assert(dik == entry(dist@, n as nat, i as int, k as int));
                        assert(dkj == entry(dist@, n as nat, k as int, j as int));
                        assert(dik == entry(d0, n as nat, i as int, k as int));
                        assert(dkj == entry(d0, n as nat, k as int, j as int));
                    }
                    if dik != usize::MAX && dkj != usize::MAX {
                        match dik.checked_add(dkj) {
                            Some(via) => {
                                if via < dist[i * n + j] {
                                    proof {
                                        lemma_relax_step(dist@, next@, n as nat, text, i as int, j as int, k as int, via as int);
                                        lemma_set_entry(dist@, n as nat, i as int, j as int, via);
                                    }
                                    dist.set(i * n + j, via);
                                    let hop = next[i * n + k];
                                    proof {
                                        assert(hop == entry(xx, n as nat, i as int, k as int));
                                        assert(hop == entry(x0, n as nat, i as int, k as int));
                                        lemma_set_entry(next@, n as nat, i as int, j as int, hop);
                                    }
                                    next.set(i * n + j, hop);
                                    proof {
                                        assert(i != j && i != k && j != k);
                                        assert(entry(dd, n as nat, i as int, j as int) <= entry(d0, n as nat, i as int, j as int));
                                        assert forall|a: int, b: int| 0 <= a < n && 0 <= b < n implies
                                            (#[trigger] entry(dist@, n as nat, a, b) == entry(d0, n as nat, a, b) && entry(next@, n as nat, a, b) == entry(x0, n as nat, a, b))
                                            || (a != k && b != k && a != b && entry(d0, n as nat, a, k as int) != usize::MAX && entry(d0, n as nat, k as int, b) != usize::MAX
                                                && entry(dist@, n as nat, a, b) == entry(d0, n as nat, a, k as int) + entry(d0, n as nat, k as int, b)
                                                && entry(next@, n as nat, a, b) == entry(x0, n as nat, a, k as int)
                                                && entry(dist@, n as nat, a, b) < entry(d0, n as nat, a, b)) by {
                                            if a == i && b == j {
                                                assert(entry(dist@, n as nat, a, b) == via);
                                                assert(entry(next@, n as nat, a, b) == hop);
                                            } else {
                                                assert(entry(dist@, n as nat, a, b) == entry(dd, n as nat, a, b));
                                                assert(entry(next@, n as nat, a, b) == entry(xx, n as nat, a, b));
                                            }
                                        }
                                        assert forall|a: int, b: int| 0 <= a < n && 0 <= b < n && (a < i || (a == i && b < j + 1)) && entry(d0, n as nat, a, k as int) != usize::MAX
                                            && entry(d0, n as nat, k as int, b) != usize::MAX && entry(d0, n as nat, a, k as int) + entry(d0, n as nat, k as int, b) <= usize::MAX
                                            implies #[trigger] entry(dist@, n as nat, a, b) <= entry(d0, n as nat, a, k as int) + entry(d0, n as nat, k as int, b) by {
                                            if !(a == i && b == j) {
                                                assert(entry(dist@, n as nat, a, b) == entry(dd, n as nat, a, b));
                                            }
                                        }
                                    }
                                }
                            },
                            None => {},
                        }
                    }
                    j = j + 1;
                }
                i = i + 1;
            }
            proof {
                assert forall|a: int, b: int| 0 <= a < n && 0 <= b < n && a != b && entry(dist@, n as nat, a, b) != usize::MAX implies
                    #[trigger] entry(next@, n as nat, a, b) < n
                    && (entry(next@, n as nat, a, b) == b
                        || entry(dist@, n as nat, entry(next@, n as nat, a, b) as int, b) < entry(dist@, n as nat, a, b)) by {
                    let h = entry(next@, n as nat, a, b) as int;
                    if entry(dist@, n as nat, a, b) == entry(d0, n as nat, a, b) && entry(next@, n as nat, a, b) == entry(x0, n as nat, a, b) {
                        assert(entry(x0, n as nat, a, b) < n);
                        if h != b {
                            assert(entry(dist@, n as nat, h, b) <= entry(d0, n as nat, h, b));
                        }
                    } else {
                        assert(entry(x0, n as nat, a, k as int) < n);
                        assert(entry(d0, n as nat, a, k as int) >= 1);
                        if h == k {
                            assert(entry(dist@, n as nat, k as int, b) == entry(d0, n as nat, k as int, b));
                        } else if h != b {
                            assert(entry(d0, n as nat, h, k as int) < entry(d0, n as nat, a, k as int));
                            assert(entry(dist@, n as nat, h, b) <= entry(d0, n as nat, h, k as int) + entry(d0, n as nat, k as int, b));
                        }
                    }
                }
            }
            k = k + 1;
        }
        let r = Topology { n, dist, next };
        proof {
            assert forall|a: int, b: int| 0 <= a < n && 0 <= b < n && #[trigger] r.coupled(a, b) implies r.coupled(b, a) by {
                assert(r.d(a, b) == entry(dist@, n as nat, a, b));
                assert(r.d(b, a) == entry(dist@, n as nat, b, a));
            }
            assert forall|a: int, b: int| 0 <= a < n && 0 <= b < n implies
                (#[trigger] r.coupled(a, b) <==> named_coupling(text, n as nat, a, b)) by {
                assert(r.d(a, b) == entry(dist@, n as nat, a, b));
            }
        }
        r
    }

    /// Shortest path `u → v` as a wire list: it starts at `u`, ends at `v`,
    /// steps between neighbours and visits no wire twice (empty when `v` is
    /// unreachable).
    pub fn path(&self, u: usize, v: usize) -> (r: Vec<usize>)
        requires
            self.wf(),
            u < self.n,
            v < self.n,
        ensures
            forall|k: int| 0 <= k < r@.len() ==> #[trigger] r@[k] < self.n,
            r@.len() > 0 ==> r@[0] == u && r@.last() == v,
            self.walks(r@),
            simple_path(r@),
            r@.len() <= self.n + 1,
            self.d(u as int, v as int) == usize::MAX ==> r@.len() == 0,
            u == v ==> r@ == seq![u],
            self.descending() && self.d(u as int, v as int) != usize::MAX ==> r@.len() > 0,
    {
        let n = self.n;
        let mut p: Vec<usize> = Vec::new();
        proof {
            lemma_flat_index(u, v, n);
            assert(self.d(u as int, v as int) == self.dist@[u * n + v]);
            if u == v {
                assert(self.d(u as int, u as int) <= 1);
            }
        }
        if self.dist[u * n + v] == usize::MAX {
            return p;
        }
        let mut seen: Vec<bool> = Vec::new();
        let mut w: usize = 0;
        while w < n
            invariant
                w <= n,
                seen@.len() == w,
                forall|x: int| 0 <= x < w ==> seen@[x] == (x == u),
            decreases n - w,
        {
            seen.push(w == u);
            w = w + 1;
        }
        let mut curr = u;
        p.push(curr);
        proof {
            assert forall|x: int| 0 <= x < n implies (#[trigger] seen@[x] <==> exists|k: int| 0 <= k < p@.len() && p@[k] == x) by {
                if x == u { assert(p@[0] == u); }
            }
        }
        // A shortest path has fewer than n hops and visits no wire twice.
        let mut steps: usize = 0;
        while curr != v && steps < n
            invariant
                self.wf(),
                n == self.n,
                curr < n,
                v < n,
                p@.len() == steps + 1,
                p@[0] == u,
                p@.last() == curr,
                steps <= n,
                u == v ==> steps == 0,
                forall|k: int| 0 <= k < p@.len() ==> #[trigger] p@[k] < n,
                self.walks(p@),
                simple_path(p@),
                seen@.len() == n,
                forall|x: int| 0 <= x < n ==> (#[trigger] seen@[x] <==> exists|k: int| 0 <= k < p@.len() && p@[k] == x),
                self.descending() ==> self.d(curr as int, v as int) != usize::MAX,
                self.descending() ==> forall|m: int| 0 <= m < p@.len() - 1 ==> #[trigger] p@[m] != v
                    && (curr == v || self.d(p@[m] as int, v as int) > self.d(curr as int, v as int)),
            decreases n - steps,
        {
            proof { lemma_flat_index(curr, v, n); }
            let hop = self.next[curr * n + v];
            proof {
                assert(self.hop(curr as int, v as int) == hop);
                if self.descending() {
                    assert(hop < n);
                    if hop as int != v as int {
                        assert(self.d(hop as int, v as int) < self.d(curr as int, v as int));
                    }
                    assert forall|m: int| 0 <= m < p@.len() implies #[trigger] p@[m] != hop by {
                        if m < p@.len() - 1 {
                            assert(p@[m] != v);
                            assert(self.d(p@[m] as int, v as int) > self.d(curr as int, v as int));
                        }
                    }
                    assert(!seen@[hop as int]);
                }
            }
            if hop >= n || seen[hop] {
                return Vec::new();
            }
            proof {
                assert(self.hop(curr as int, v as int) == hop);
                assert(self.coupled(curr as int, hop as int));
            }
            let ghost before = p@;
            let ghost seen0 = seen@;
            curr = hop;
            p.push(curr);
            seen.set(hop, true);
            proof {
                assert forall|i: int, j: int| 0 <= i < j < p@.len() implies p@[i] != p@[j] by {
                    if j < before.len() {
                        assert(p@[i] == before[i] && p@[j] == before[j]);
                    } else {
                        assert(p@[i] == before[i]);
                        assert(!seen0[hop as int]);
                    }
                }
                assert forall|x: int| 0 <= x < n implies (#[trigger] seen@[x] <==> exists|k: int| 0 <= k < p@.len() && p@[k] == x) by {
                    if x == hop {
                        assert(p@[p@.len() - 1] == hop);
                    } else {
                        assert(seen@[x] == seen0[x]);
                        if seen0[x] {
                            let k = choose|k: int| 0 <= k < before.len() && before[k] == x;
                            assert(p@[k] == before[k]);
                        }
                        if exists|k: int| 0 <= k < p@.len() && p@[k] == x {
                            let k = choose|k: int| 0 <= k < p@.len() && p@[k] == x;
                            assert(k < before.len());
                            assert(before[k] == p@[k]);
                        }
                    }
                }
                assert forall|k: int| #![trigger p@[k]] 0 <= k < p@.len() - 1 implies self.coupled(p@[k] as int, p@[k + 1] as int) by {
                    if k < before.len() - 1 {
                        assert(p@[k] == before[k] && p@[k + 1] == before[k + 1]);
                        assert(self.coupled(before[k] as int, before[k + 1] as int));
                    } else {
                        assert(p@[k] == before.last());
                    }
                }
                if self.descending() {
                    if hop as int == v as int {
                        assert(self.d(v as int, v as int) <= 1);
                    }
                    assert forall|m: int| 0 <= m < p@.len() - 1 implies #[trigger] p@[m] != v
                        && (curr == v || self.d(p@[m] as int, v as int) > self.d(curr as int, v as int)) by {
                        assert(p@[m] == before[m]);
                        if m < before.len() - 1 {
                            assert(before[m] != v);
                        }
                    }
                }
            }
            steps = steps + 1;
        }
        proof {
            if self.descending() && curr != v {
                lemma_simple_path_len(p@, n as nat);
            }
        }
        if curr != v {
            return Vec::new();
        }
        p
    }

    /// Edges (smaller wire first, each once) of an approximate Steiner tree
    /// spanning the terminals: Prim's algorithm on the terminal metric
    /// closure, each chosen pair expanded to its shortest path; every edge
    /// joins two neighbours.
    pub fn steiner_tree_edges(&self, terminals: &Vec<usize>) -> (r: Vec<(usize, usize)>)
        requires
            self.wf(),
            forall|k: int| 0 <= k < terminals@.len() ==> #[trigger] terminals@[k] < self.n,
        ensures
            forall|k: int| 0 <= k < r@.len() ==> (#[trigger] r@[k]).0 < self.n && r@[k].1 < self.n,
            self.on_neighbours(r@),
            forall|k: int| 0 <= k < r@.len() ==> (#[trigger] r@[k]).0 < r@[k].1,
            forall|i: int, j: int| 0 <= i < j < r@.len() ==> r@[i] != r@[j],
    {
        let mut edges: Vec<(usize, usize)> = Vec::new();
        let m = terminals.len();
        if m <= 1 {
            return edges;
        }
        let n = self.n;
        let mut in_tree: Vec<bool> = Vec::new();
        let mut k: usize = 0;
        while k < m
            invariant
                k <= m,
                in_tree@.len() == k,
            decreases m - k,
        {
            in_tree.push(k == 0);
            k = k + 1;
        }
        let mut round: usize = 1;
        while round < m
            invariant
                self.wf(),
                n == self.n,
                m == terminals@.len(),
                in_tree@.len() == m,
                forall|k: int| 0 <= k < terminals@.len() ==> #[trigger] terminals@[k] < n,
                forall|q: int| 0 <= q < edges@.len() ==> (#[trigger] edges@[q]).0 < n && edges@[q].1 < n,
                self.on_neighbours(edges@),
                forall|q: int| 0 <= q < edges@.len() ==> (#[trigger] edges@[q]).0 < edges@[q].1,
                forall|i: int, j: int| 0 <= i < j < edges@.len() ==> edges@[i] != edges@[j],
            decreases m - round,
        {
            let mut min_dist = usize::MAX;
            let mut best_u: usize = 0;
            let mut best_v: usize = 0;
            let mut best_j: usize = 0;
            let mut i: usize = 0;
            while i < m
                invariant
                    self.wf(),
                    n == self.n,
                    m == terminals@.len(),
                    in_tree@.len() == m,
                    forall|k: int| 0 <= k < terminals@.len() ==> #[trigger] terminals@[k] < n,
                    best_j < m,
                    min_dist < usize::MAX ==> best_u < n && best_v < n,
                decreases m - i,
            {
                if in_tree[i] {
                    let mut j: usize = 0;
                    while j < m
                        invariant
                            self.wf(),
                            n == self.n,
                            i < m,
                            m == terminals@.len(),
                            in_tree@.len() == m,
                            forall|k: int| 0 <= k < terminals@.len() ==> #[trigger] terminals@[k] < n,
                            best_j < m,
                            min_dist < usize::MAX ==> best_u < n && best_v < n,
                        decreases m - j,
                    {
                        if !in_tree[j] {
                            let a = terminals[i];
                            let b = terminals[j];
                            proof { lemma_flat_index(a, b, n); }
                            let d = self.dist[a * n + b];
                            if d < min_dist {
                                min_dist = d;
                                best_u = a;
                                best_v = b;
                                best_j = j;
                            }
                        }
                        j = j + 1;
                    }
                }
                i = i + 1;
            }
            if min_dist == usize::MAX {
                break;
            }
            in_tree.set(best_j, true);
            let p = self.path(best_u, best_v);
            let mut k: usize = 0;
            while k + 1 < p.len()
                invariant
                    n == self.n,
                    p@.len() <= n + 1,
                    n <= 128,
                    k <= p@.len(),
                    forall|q: int| 0 <= q < p@.len() ==> #[trigger] p@[q] < n,
                    forall|q: int| 0 <= q < edges@.len() ==> (#[trigger] edges@[q]).0 < n && edges@[q].1 < n,
                    self.wf(),
                    self.walks(p@),
                    self.on_neighbours(edges@),
                    forall|q: int| 0 <= q < edges@.len() ==> (#[trigger] edges@[q]).0 < edges@[q].1,
                    forall|i: int, j: int| 0 <= i < j < edges@.len() ==> edges@[i] != edges@[j],
                decreases p@.len() - k,
            {
                let x = p[k];
                let y = p[k + 1];
                let a = if x < y { x } else { y };
                let b = if x < y { y } else { x };
                proof {
                    assert(self.coupled(p@[k as int] as int, p@[k + 1] as int));
                    assert(self.coupled(a as int, b as int));
                }
                let mut present = false;
                let mut q: usize = 0;
                while q < edges.len()
                    invariant
                        q <= edges@.len(),
                        present <==> exists|w: int| 0 <= w < q && edges@[w] == (a, b),
                    decreases edges@.len() - q,
                {
                    if edges[q].0 == a && edges[q].1 == b {
                        present = true;
                    }
                    q = q + 1;
                }
                if !present {
                    let ghost before = edges@;
                    edges.push((a, b));
                    proof {
                        assert forall|q: int| 0 <= q < edges@.len() implies (#[trigger] edges@[q]).0 < n && edges@[q].1 < n by {
                            if q < before.len() { assert(edges@[q] == before[q]); }
                        }
                        assert forall|q: int| 0 <= q < edges@.len() implies self.coupled((#[trigger] edges@[q]).0 as int, edges@[q].1 as int) by {
                            if q < before.len() { assert(edges@[q] == before[q]); }
                        }
                        assert forall|q: int| 0 <= q < edges@.len() implies (#[trigger] edges@[q]).0 < edges@[q].1 by {
                            if q < before.len() { assert(edges@[q] == before[q]); }
                        }
                        assert forall|i: int, j: int| 0 <= i < j < edges@.len() implies edges@[i] != edges@[j] by {
                            if j < before.len() {
                                assert(edges@[i] == before[i] && edges@[j] == before[j]);
                            } else {
                                assert(edges@[i] == before[i]);
                                assert(!(exists|w: int| 0 <= w < before.len() && before[w] == (a, b)));
                            }
                        }
                    }
                }
                k = k + 1;
            }
            round = round + 1;
        }
        edges
    }
}

/// The SWAPs of a ladder along a walk act on neighbours.
proof fn lemma_ladder_coupled(topo: &Topology, p: Seq<usize>, j: int)
    requires
        topo.wf(),
        topo.walks(p),
        forall|k: int| 0 <= k < p.len() ==> #[trigger] p[k] < topo.n,
        0 <= j < p.len(),
    ensures
        topo.on_neighbours(ladder(p, j)),
    decreases j,
{
    if j > 0 {
        lemma_ladder_coupled(topo, p, j - 1);
        lemma_swap_coupled(topo, p, j - 1);
        let l0 = ladder(p, j - 1);
        let sw = swap3(p[j - 1], p[j]);
        assert forall|q: int| 0 <= q < ladder(p, j).len() implies
            topo.coupled((#[trigger] ladder(p, j)[q]).0 as int, ladder(p, j)[q].1 as int) by {
            if q < l0.len() {
                assert(ladder(p, j)[q] == l0[q]);
            } else {
                assert(ladder(p, j)[q] == sw[q - l0.len()]);
            }
        }
    }
}

/// The SWAP of two consecutive wires of a walk acts on neighbours.
proof fn lemma_swap_coupled(topo: &Topology, p: Seq<usize>, i: int)
    requires
        topo.wf(),
        topo.walks(p),
        forall|k: int| 0 <= k < p.len() ==> #[trigger] p[k] < topo.n,
        0 <= i < p.len() - 1,
    ensures
        topo.on_neighbours(swap3(p[i], p[i + 1])),
{
    assert(topo.coupled(p[i] as int, p[i + 1] as int));
    assert(p[i] < topo.n && p[i + 1] < topo.n);
    assert(topo.coupled(p[i + 1] as int, p[i] as int));
    let sw = swap3(p[i], p[i + 1]);
    assert forall|q: int| 0 <= q < sw.len() implies topo.coupled((#[trigger] sw[q]).0 as int, sw[q].1 as int) by {
    }
}

/// The SWAPs of a backward ladder along a walk act on neighbours.
proof fn lemma_ladder_back_coupled(topo: &Topology, p: Seq<usize>, i: int, k: int)
    requires
        topo.wf(),
        topo.walks(p),
        forall|m: int| 0 <= m < p.len() ==> #[trigger] p[m] < topo.n,
        0 <= i,
        k < p.len(),
    ensures
        topo.on_neighbours(ladder_back(p, i, k)),
    decreases k - i,
{
    if i < k {
        lemma_ladder_back_coupled(topo, p, i + 1, k);
        lemma_swap_coupled(topo, p, i);
        let l0 = ladder_back(p, i + 1, k);
        let sw = swap3(p[i], p[i + 1]);
        assert forall|q: int| 0 <= q < ladder_back(p, i, k).len() implies
            topo.coupled((#[trigger] ladder_back(p, i, k)[q]).0 as int, ladder_back(p, i, k)[q].1 as int) by {
            if q < l0.len() {
                assert(ladder_back(p, i, k)[q] == l0[q]);
            } else {
                assert(ladder_back(p, i, k)[q] == sw[q - l0.len()]);
            }
        }
    }
}

/// A CX routed along a walk from `c` to `t` acts on neighbours only.
pub proof fn lemma_route_coupled(topo: &Topology, c: usize, t: usize, p: Seq<usize>)
    requires
        topo.wf(),
        topo.walks(p),
        forall|k: int| 0 <= k < p.len() ==> #[trigger] p[k] < topo.n,
        p.len() > 0 ==> p[0] == c && p.last() == t,
    ensures
        topo.on_neighbours(route_ops(c, t, p)),
{
    if p.len() == 2 {
        assert(topo.coupled(p[0] as int, p[1] as int));
        let r = route_ops(c, t, p);
        assert forall|q: int| 0 <= q < r.len() implies topo.coupled((#[trigger] r[q]).0 as int, r[q].1 as int) by {
            assert(r[q] == (c, t));
        }
    } else if p.len() > 2 {
        let k = p.len() - 1;
        lemma_ladder_coupled(topo, p, k - 1);
        lemma_ladder_back_coupled(topo, p, 0, k - 1);
        assert(topo.coupled(p[k - 1] as int, p[k] as int));
        let a = ladder(p, k - 1);
        let m = seq![(p[k - 1], p[k])];
        let b = ladder_back(p, 0, k - 1);
        let r = route_ops(c, t, p);
        assert(r == a + m + b);
        assert forall|q: int| 0 <= q < r.len() implies topo.coupled((#[trigger] r[q]).0 as int, r[q].1 as int) by {
            if q < a.len() {
                assert(r[q] == a[q]);
            } else if q < a.len() + 1 {
                assert(r[q] == m[q - a.len()]);
            } else {
                assert(r[q] == b[q - a.len() - 1]);
            }
        }
    }
}

/// The CNOTs appended after `start` act on neighbours.
proof fn lemma_appended_coupled(topo: &Topology, start: Seq<(usize, usize)>, ops: Seq<(usize, usize)>)
    requires
        topo.on_neighbours(ops),
    ensures
        forall|k: int| start.len() <= k < (start + ops).len() ==>
            topo.coupled((#[trigger] (start + ops)[k]).0 as int, (start + ops)[k].1 as int),
{
    assert forall|k: int| start.len() <= k < (start + ops).len() implies
        topo.coupled((#[trigger] (start + ops)[k]).0 as int, (start + ops)[k].1 as int) by {
        assert((start + ops)[k] == ops[k - start.len()]);
    }
}

/// Route `CX(c, t)` along the shortest path: a direct CX for neighbours,
/// otherwise SWAP ladders (three CXs each) that leave the intermediate wires
/// as they were. The CNOTs appended are [`route_ops`] along the topology's
/// simple path from `c` to `t`, so wherever a path exists they act as
/// `CX(c, t)` ([`crate::routing::lemma_route_acts_as_cx`]); each joins two
/// neighbouring wires.
pub fn apply_remote_cnot(c: usize, t: usize, topo: &Topology, cnots: &mut Vec<(usize, usize)>)
    requires
        topo.wf(),
        c < topo.n,
        t < topo.n,
        c != t,
        forall|k: int| 0 <= k < old(cnots)@.len() ==> (#[trigger] old(cnots)@[k]).0 < topo.n && old(cnots)@[k].1 < topo.n,
    ensures
        forall|k: int| 0 <= k < final(cnots)@.len() ==> (#[trigger] final(cnots)@[k]).0 < topo.n && final(cnots)@[k].1 < topo.n,
        final(cnots)@.subrange(0, old(cnots)@.len() as int) == old(cnots)@,
        exists|p: Seq<usize>| #![trigger route_ops(c, t, p)]
            (p.len() > 0 ==> p[0] == c && p.last() == t)
            && (topo.descending() && topo.d(c as int, t as int) != usize::MAX ==> p.len() >= 2)
            && topo.walks(p)
            && simple_path(p)
            && (forall|k: int| 0 <= k < p.len() ==> #[trigger] p[k] < topo.n)
            && final(cnots)@ == old(cnots)@ + route_ops(c, t, p),
        forall|k: int| old(cnots)@.len() <= k < final(cnots)@.len() ==>
            topo.coupled((#[trigger] final(cnots)@[k]).0 as int, final(cnots)@[k].1 as int),
{
    let ghost start = cnots@;
    let p = topo.path(c, t);
    proof {
        lemma_route_coupled(topo, c, t, p@);
    }
    if p.len() < 2 {
        assert(cnots@.subrange(0, start.len() as int) =~= start);
        assert(cnots@ =~= start + route_ops(c, t, p@));
        proof { lemma_appended_coupled(topo, start, route_ops(c, t, p@)); }
        return;
    }
    let k = p.len() - 1;
    if k == 1 {
        cnots.push((c, t));
        proof {
            assert(cnots@.subrange(0, start.len() as int) =~= start);
            assert forall|q: int| 0 <= q < cnots@.len() implies (#[trigger] cnots@[q]).0 < topo.n && cnots@[q].1 < topo.n by {
                if q < start.len() { assert(cnots@[q] == start[q]); }
            }
            assert(cnots@ =~= start + route_ops(c, t, p@));
            lemma_appended_coupled(topo, start, route_ops(c, t, p@));
        }
        return;
    }
    let mut i: usize = 0;
    proof {
        assert(cnots@ =~= start + ladder(p@, 0));
    }
    while i + 1 < k
        invariant
            k + 1 == p@.len(),
            i < k,
            forall|q: int| 0 <= q < p@.len() ==> #[trigger] p@[q] < topo.n,
            cnots@.len() >= start.len(),
            cnots@.subrange(0, start.len() as int) == start,
            forall|q: int| 0 <= q < cnots@.len() ==> (#[trigger] cnots@[q]).0 < topo.n && cnots@[q].1 < topo.n,
            cnots@ == start + ladder(p@, i as int),
        decreases k - i,
    {
        push_swap_ladder(cnots, p[i], p[i + 1], Ghost(start), Ghost(topo.n as nat));
        proof {
            assert(ladder(p@, i + 1) == ladder(p@, i as int) + swap3(p@[i as int], p@[i + 1]));
            assert(cnots@ =~= start + ladder(p@, i + 1));
        }
        i = i + 1;
    }
    let ghost before = cnots@;
    cnots.push((p[k - 1], p[k]));
    proof {
        assert(cnots@.subrange(0, start.len() as int) =~= before.subrange(0, start.len() as int));
        assert forall|q: int| 0 <= q < cnots@.len() implies (#[trigger] cnots@[q]).0 < topo.n && cnots@[q].1 < topo.n by {
            if q < before.len() { assert(cnots@[q] == before[q]); }
        }
    }
    let ghost mid = cnots@;
    let mut i: usize = k - 1;
    proof {
        assert(mid =~= start + ladder(p@, (k - 1) as int) + seq![(p@[k - 1], p@[k as int])]);
        assert(cnots@ =~= mid + ladder_back(p@, i as int, (k - 1) as int));
    }
    while i > 0
        invariant
            k + 1 == p@.len(),
            i < k,
            forall|q: int| 0 <= q < p@.len() ==> #[trigger] p@[q] < topo.n,
            cnots@.len() >= start.len(),
            cnots@.subrange(0, start.len() as int) == start,
            forall|q: int| 0 <= q < cnots@.len() ==> (#[trigger] cnots@[q]).0 < topo.n && cnots@[q].1 < topo.n,
            cnots@ == mid + ladder_back(p@, i as int, (k - 1) as int),
        decreases i,
    {
        i = i - 1;
        push_swap_ladder(cnots, p[i], p[i + 1], Ghost(start), Ghost(topo.n as nat));
        proof {
            assert(ladder_back(p@, i as int, (k - 1) as int)
                == ladder_back(p@, i + 1, (k - 1) as int) + swap3(p@[i as int], p@[i + 1]));
            assert(cnots@ =~= mid + ladder_back(p@, i as int, (k - 1) as int));
        }
    }
    proof {
        assert(cnots@ =~= start + route_ops(c, t, p@));
        lemma_appended_coupled(topo, start, route_ops(c, t, p@));
    }
}

/// Append `(a,b) (b,a) (a,b)`: a SWAP of two neighbouring wires.
fn push_swap_ladder(cnots: &mut Vec<(usize, usize)>, a: usize, b: usize, Ghost(start): Ghost<Seq<(usize, usize)>>, Ghost(n): Ghost<nat>)
    requires
        a < n,
        b < n,
        old(cnots)@.len() >= start.len(),
        old(cnots)@.subrange(0, start.len() as int) == start,
        forall|q: int| 0 <= q < old(cnots)@.len() ==> (#[trigger] old(cnots)@[q]).0 < n && old(cnots)@[q].1 < n,
    ensures
        final(cnots)@.len() >= start.len(),
        final(cnots)@.subrange(0, start.len() as int) == start,
        forall|q: int| 0 <= q < final(cnots)@.len() ==> (#[trigger] final(cnots)@[q]).0 < n && final(cnots)@[q].1 < n,
        final(cnots)@ == old(cnots)@ + swap3(a, b),
{
    let ghost before = cnots@;
    cnots.push((a, b));
    cnots.push((b, a));
    cnots.push((a, b));
    proof {
        assert(cnots@.subrange(0, start.len() as int) =~= before.subrange(0, start.len() as int));
        assert forall|q: int| 0 <= q < cnots@.len() implies (#[trigger] cnots@[q]).0 < n && cnots@[q].1 < n by {
            if q < before.len() { assert(cnots@[q] == before[q]); }
        }
        assert(cnots@ =~= before + swap3(a, b));
    }
}


/// Number of unvisited wires.
pub open spec fn unvisited(vis: Seq<bool>) -> nat
    decreases vis.len(),
{
    if vis.len() == 0 {
        0
    } else {
        unvisited(vis.drop_last()) + if vis.last() { 0nat } else { 1nat }
    }
}

proof fn lemma_visit(vis: Seq<bool>, i: int)
    requires
        0 <= i < vis.len(),
        !vis[i],
    ensures
        unvisited(vis.update(i, true)) + 1 == unvisited(vis),
    decreases vis.len(),
{
    let w = vis.update(i, true);
    if i == vis.len() - 1 {
        assert(w.drop_last() =~= vis.drop_last());
    } else {
        assert(w.drop_last() =~= vis.drop_last().update(i, true));
        lemma_visit(vis.drop_last(), i);
    }
}

/// Depth-first post-order of the tree `edges` from `root`, with the parent
/// of every visited wire (neighbours in edge order).
fn dfs_post_order(root: usize, edges: &Vec<(usize, usize)>, n: usize) -> (r: (Vec<usize>, Vec<usize>))
    requires
        root < n,
        n <= 128,
        forall|k: int| 0 <= k < edges@.len() ==> (#[trigger] edges@[k]).0 < n && edges@[k].1 < n,
    ensures
        r.1@.len() == n,
        forall|k: int| 0 <= k < r.0@.len() ==> #[trigger] r.0@[k] < n,
        forall|k: int| 0 <= k < r.0@.len() ==> #[trigger] r.0@[k] == root
            || r.1@[r.0@[k] as int] < n && lists_pair(edges@, r.0@[k] as int, r.1@[r.0@[k] as int] as int),
        forall|i: int, j: int| 0 <= i < j < r.0@.len() ==> r.0@[i] != r.0@[j],
        forall|j: int| 0 <= j < r.0@.len() && #[trigger] r.0@[j] != root ==>
            exists|j2: int| j < j2 < r.0@.len() && r.0@[j2] == r.1@[r.0@[j] as int],
{
    let mut vis: Vec<bool> = Vec::new();
    let mut par: Vec<usize> = Vec::new();
    let mut k: usize = 0;
    while k < n
        invariant
            k <= n,
            vis@.len() == k,
            par@.len() == k,
            forall|q: int| 0 <= q < k ==> !#[trigger] vis@[q],
        decreases n - k,
    {
        vis.push(false);
        par.push(usize::MAX);
        k = k + 1;
    }
    let mut po: Vec<usize> = Vec::new();
    let mut stack: Vec<(usize, usize, usize)> = Vec::new();
    proof { lemma_visit(vis@, root as int); }
    vis.set(root, true);
    stack.push((root, usize::MAX, 0));
    while stack.len() > 0
        invariant
            n <= 128,
            vis@.len() == n,
            par@.len() == n,
            forall|k: int| 0 <= k < edges@.len() ==> (#[trigger] edges@[k]).0 < n && edges@[k].1 < n,
            root < n,
            forall|k: int| 0 <= k < stack@.len() ==> (#[trigger] stack@[k]).0 < n,
            forall|k: int| 0 <= k < po@.len() ==> #[trigger] po@[k] < n,
            forall|q: int| 0 <= q < n && vis@[q] && q != root ==> #[trigger] par@[q] < n
                && lists_pair(edges@, q, par@[q] as int),
            forall|k: int| 0 <= k < stack@.len() ==> vis@[(#[trigger] stack@[k]).0 as int],
            forall|k: int| 0 <= k < po@.len() ==> vis@[#[trigger] po@[k] as int],
            forall|i: int, j: int| 0 <= i < j < stack@.len() ==> stack@[i].0 != stack@[j].0,
            forall|i: int, j: int| 0 <= i < j < po@.len() ==> po@[i] != po@[j],
            forall|i: int, j: int| 0 <= i < stack@.len() && 0 <= j < po@.len() ==> stack@[i].0 != po@[j],
            stack@.len() > 0 ==> stack@[0].0 == root,
            forall|k: int| 1 <= k < stack@.len() ==> par@[(#[trigger] stack@[k]).0 as int] == stack@[k - 1].0,
            forall|j: int| 0 <= j < po@.len() && #[trigger] po@[j] != root ==>
                (exists|i: int| 0 <= i < stack@.len() && stack@[i].0 == par@[po@[j] as int])
                || (exists|j2: int| j < j2 < po@.len() && po@[j2] == par@[po@[j] as int]),
        decreases unvisited(vis@), stack@.len(),
    {
        let top = stack.len() - 1;
        let (u, p, start) = stack[top];
        assert(stack@[top as int].0 < n);
        let mut found: Option<(usize, usize)> = None;
        let mut e: usize = start;
        while e < edges.len()
            invariant
                u < n,
                vis@.len() == n,
                forall|k: int| 0 <= k < edges@.len() ==> (#[trigger] edges@[k]).0 < n && edges@[k].1 < n,
                found matches Some(f) ==> f.0 < edges@.len() && f.1 < n && !vis@[f.1 as int]
                    && (edges@[f.0 as int] == (u, f.1) || edges@[f.0 as int] == (f.1, u)),
            decreases edges@.len() - e,
        {
            let (a, b) = edges[e];
            let v = if a == u { b } else if b == u { a } else { n };
            if v < n && v != p && !vis[v] {
                found = Some((e, v));
                break;
            }
            e = e + 1;
        }
        match found {
            Some((idx, v)) => {
                let elen = edges.len();
                assert(idx < elen);
                let ghost before = stack@;
                stack.set(top, (u, p, idx + 1));
                proof {
                    lemma_visit(vis@, v as int);
                    assert(edges@[idx as int] == (u, v) || edges@[idx as int] == (v, u));
                    assert(lists_pair(edges@, v as int, u as int));
                }
                let ghost par0 = par@;
                let ghost vis0 = vis@;
                let ghost mid = stack@;
                vis.set(v, true);
                par.set(v, u);
                proof {
                    assert forall|q: int| 0 <= q < n && vis@[q] && q != root implies #[trigger] par@[q] < n
                        && lists_pair(edges@, q, par@[q] as int) by {
                        if q != v { assert(vis0[q] && par@[q] == par0[q]); }
                    }
                    assert forall|k: int| 0 <= k < mid.len() implies (#[trigger] mid[k]).0 == before[k].0 by {}
                    assert forall|k: int| 0 <= k < mid.len() implies (#[trigger] mid[k]).0 != v by {
                        assert(vis0[before[k].0 as int]);
                    }
                    assert forall|j: int| 0 <= j < po@.len() implies #[trigger] po@[j] != v by {
                        assert(vis0[po@[j] as int]);
                    }
                }
                stack.push((v, u, 0));
                proof {
                    assert forall|k: int| 0 <= k < stack@.len() implies (#[trigger] stack@[k]).0 < n by {
                        if k < before.len() && k != top { assert(stack@[k] == before[k]); }
                    }
                    assert(stack@.drop_last() == mid);
                    assert forall|i: int, j: int| 0 <= i < j < stack@.len() implies stack@[i].0 != stack@[j].0 by {
                        assert(stack@[i] == mid[i]);
                        if j < mid.len() { assert(stack@[j] == mid[j]); }
                    }
                    assert forall|i: int, j: int| 0 <= i < stack@.len() && 0 <= j < po@.len() implies stack@[i].0 != po@[j] by {
                        if i < mid.len() { assert(stack@[i] == mid[i]); }
                    }
                    assert forall|k: int| 1 <= k < stack@.len() implies par@[(#[trigger] stack@[k]).0 as int] == stack@[k - 1].0 by {
                        if k < mid.len() {
                            assert(stack@[k] == mid[k] && stack@[k - 1] == mid[k - 1]);
                            assert(par@[mid[k].0 as int] == par0[before[k].0 as int]);
                        } else {
                            assert(stack@[k - 1] == mid[top as int]);
                        }
                    }
                    assert forall|j: int| 0 <= j < po@.len() && #[trigger] po@[j] != root implies
                        (exists|i: int| 0 <= i < stack@.len() && stack@[i].0 == par@[po@[j] as int])
                        || (exists|j2: int| j < j2 < po@.len() && po@[j2] == par@[po@[j] as int]) by {
                        assert(par@[po@[j] as int] == par0[po@[j] as int]);
                        if exists|i: int| 0 <= i < before.len() && before[i].0 == par0[po@[j] as int] {
                            let i = choose|i: int| 0 <= i < before.len() && before[i].0 == par0[po@[j] as int];
                            assert(stack@[i].0 == mid[i].0);
                        }
                    }
                }
            },
            None => {
                let ghost before = stack@;
                let ghost po0 = po@;
                stack.pop();
                po.push(u);
                proof {
                    assert forall|k: int| 0 <= k < stack@.len() implies (#[trigger] stack@[k]).0 < n by {
                        assert(stack@[k] == before[k]);
                    }
                    assert(u == before[top as int].0);
                    assert forall|i: int, j: int| 0 <= i < j < po@.len() implies po@[i] != po@[j] by {
                        assert(po@[i] == po0[i]);
                        if j < po0.len() { assert(po@[j] == po0[j]); }
                    }
                    assert forall|i: int, j: int| 0 <= i < stack@.len() && 0 <= j < po@.len() implies stack@[i].0 != po@[j] by {
                        assert(stack@[i] == before[i]);
                        if j < po0.len() { assert(po@[j] == po0[j]); }
                    }
                    assert forall|k: int| 1 <= k < stack@.len() implies par@[(#[trigger] stack@[k]).0 as int] == stack@[k - 1].0 by {
                        assert(stack@[k] == before[k] && stack@[k - 1] == before[k - 1]);
                    }
                    assert forall|j: int| 0 <= j < po@.len() && #[trigger] po@[j] != root implies
                        (exists|i: int| 0 <= i < stack@.len() && stack@[i].0 == par@[po@[j] as int])
                        || (exists|j2: int| j < j2 < po@.len() && po@[j2] == par@[po@[j] as int]) by {
                        let last = po@.len() - 1;
                        if j == last {
                            assert(u != root);
                            assert(top >= 1);
                            assert(par@[u as int] == before[top - 1].0);
                            assert(stack@[top - 1] == before[top - 1]);
                        } else {
                            assert(po@[j] == po0[j]);
                            if exists|i: int| 0 <= i < before.len() && before[i].0 == par@[po0[j] as int] {
                                let i = choose|i: int| 0 <= i < before.len() && before[i].0 == par@[po0[j] as int];
                                if i == top {
                                    assert(po@[last] == par@[po@[j] as int]);
                                } else {
                                    assert(stack@[i] == before[i]);
                                }
                            } else {
                                let j2 = choose|j2: int| j < j2 < po0.len() && po0[j2] == par@[po0[j] as int];
                                assert(po@[j2] == po0[j2]);
                            }
                        }
                    }
                }
            },
        }
    }
    (po, par)
}

/// The `rz q,bits` instruction text with a signed angle bit pattern.
pub open spec fn rz_signed_text(q: nat, bits: int) -> Seq<char> {
    "rz "@ + dec(q) + ","@ + sdec(bits)
}

fn rz_signed_string(q: usize, bits: i64) -> (r: String)
    ensures
        r@ == rz_signed_text(q as nat, bits as int),
{
    let mut s = String::from_str("rz ");
    push_decimal(&mut s, q as u128);
    s.append(",");
    push_signed_decimal(&mut s, bits);
    s
}

/// The wires below `k` that `mask` holds, in increasing order.
pub open spec fn mask_wires(mask: u128, k: nat) -> Seq<usize>
    decreases k,
{
    if k == 0 {
        Seq::empty()
    } else {
        mask_wires(mask, (k - 1) as nat) + if (mask >> ((k - 1) as u128)) & 1 == 1 {
            seq![(k - 1) as usize]
        } else {
            Seq::empty()
        }
    }
}

/// The texts of a list of instructions.
pub open spec fn texts(v: Seq<String>) -> Seq<Seq<char>> {
    v.map_values(|p: String| p@)
}

/// The instruction texts of a CX list.
pub open spec fn cx_texts(ops: Seq<(usize, usize)>) -> Seq<Seq<char>> {
    ops.map_values(|g: (usize, usize)| cx_text(g))
}

/// A count that stops at `i64::MAX`.
pub open spec fn saturated(x: int) -> i64 {
    if x < i64::MAX { x as i64 } else { i64::MAX }
}

/// The instructions of a parity rotation block: the CX network `fwd`, the
/// `RZ` on `root`, and the network run backwards.
pub open spec fn parity_block(fwd: Seq<(usize, usize)>, root: usize, bits: i64) -> Seq<Seq<char>> {
    cx_texts(fwd) + seq![rz_signed_text(root as nat, bits as int)] + cx_texts(fwd.reverse())
}

/// CNOTs that each join two wires related by `link`.
pub open spec fn linked(link: spec_fn(int, int) -> bool, ops: Seq<(usize, usize)>) -> bool {
    forall|q: int| 0 <= q < ops.len() ==> link((#[trigger] ops[q]).0 as int, ops[q].1 as int)
}

/// A CX ladder folding into `root` along a tree: every control is a wire
/// other than `root`, no wire is the control of two CNOTs, and each CNOT
/// targets `root` or a wire whose own CNOT comes later.
pub open spec fn ladder_into(fwd: Seq<(usize, usize)>, root: usize) -> bool {
    &&& forall|i: int, j: int| 0 <= i < j < fwd.len() ==> fwd[i].0 != fwd[j].0
    &&& forall|i: int| 0 <= i < fwd.len() ==> (#[trigger] fwd[i]).0 != root
    &&& forall|i: int| 0 <= i < fwd.len() ==> (#[trigger] fwd[i]).1 == root
        || exists|j: int| i < j < fwd.len() && fwd[j].0 == fwd[i].1
}

/// The control wires of a CX list, in order.
pub open spec fn controls(fwd: Seq<(usize, usize)>) -> Seq<usize> {
    fwd.map_values(|g: (usize, usize)| g.0)
}

/// The XOR of the rows `m[w]` over the wires `ws`.
pub open spec fn xor_over(m: Seq<u128>, ws: Seq<usize>) -> u128
    decreases ws.len(),
{
    if ws.len() == 0 {
        0
    } else {
        xor_over(m, ws.drop_last()) ^ m[ws.last() as int]
    }
}

proof fn lemma_xor_over_concat(m: Seq<u128>, a: Seq<usize>, b: Seq<usize>)
    ensures
        xor_over(m, a + b) == xor_over(m, a) ^ xor_over(m, b),
    decreases b.len(),
{
    if b.len() == 0 {
        assert(a + b =~= a);
        let x = xor_over(m, a);
        crate::bits::lemma_xor_algebra(x, 0, 0);
    } else {
        assert((a + b).drop_last() =~= a + b.drop_last());
        lemma_xor_over_concat(m, a, b.drop_last());
        let x = xor_over(m, a);
        let y = xor_over(m, b.drop_last());
        let z = m[b.last() as int];
        crate::bits::lemma_xor_algebra(x, y, z);
    }
}

proof fn lemma_xor_over_single(m: Seq<u128>, w: usize)
    ensures
        xor_over(m, seq![w]) == 0u128 ^ m[w as int],
{
    let ws = seq![w];
    assert(ws.len() == 1);
    assert(ws.drop_last() =~= Seq::<usize>::empty());
    assert(ws.last() == w);
    assert(xor_over(m, ws.drop_last()) == 0u128);
    assert(xor_over(m, ws) == xor_over(m, ws.drop_last()) ^ m[w as int]);
}

proof fn lemma_xor_over_same(m: Seq<u128>, m2: Seq<u128>, ws: Seq<usize>)
    requires
        forall|k: int| 0 <= k < ws.len() ==> m2[#[trigger] ws[k] as int] == m[ws[k] as int],
    ensures
        xor_over(m2, ws) == xor_over(m, ws),
    decreases ws.len(),
{
    if ws.len() > 0 {
        lemma_xor_over_same(m, m2, ws.drop_last());
        assert(m2[ws[ws.len() - 1] as int] == m[ws[ws.len() - 1] as int]);
    }
}

/// One step of a ladder keeps the XOR of the wires still to be folded:
/// the control leaves the list and its row joins the target's.
proof fn lemma_ladder_prefix(m: Seq<u128>, fwd: Seq<(usize, usize)>, root: usize, k: int)
    requires
        ladder_into(fwd, root),
        root < m.len(),
        ops_in_range(fwd, m.len()),
        0 <= k <= fwd.len(),
    ensures
        xor_over(apply_ops(m, fwd.take(k)), seq![root] + controls(fwd.skip(k))) == xor_over(m, seq![root] + controls(fwd)),
    decreases k,
{
    if k == 0 {
        assert(fwd.take(0) =~= Seq::<(usize, usize)>::empty());
        assert(fwd.skip(0) =~= fwd);
    } else {
        let j = k - 1;
        lemma_ladder_prefix(m, fwd, root, j);
        let rows = apply_ops(m, fwd.take(j));
        crate::gf2::lemma_apply_ops_len(m, fwd.take(j));
        assert(fwd.take(k).drop_last() =~= fwd.take(j));
        let (u, t) = fwd[j];
        assert(apply_ops(m, fwd.take(k)) == apply_op(rows, (u, t)));
        let rows2 = apply_op(rows, (u, t));
        let rest = controls(fwd.skip(k));
        assert(controls(fwd.skip(j)) =~= seq![u] + rest);
        let act_j = seq![root] + controls(fwd.skip(j));
        let act_k = seq![root] + rest;
        assert(act_j =~= seq![root] + seq![u] + rest);
        lemma_xor_over_concat(rows, seq![root] + seq![u], rest);
        lemma_xor_over_concat(rows, seq![root], seq![u]);
        lemma_xor_over_concat(rows, seq![root], rest);
        assert(u != root);
        assert(forall|q: int| 0 <= q < rest.len() ==> #[trigger] rest[q] == fwd[k + q].0);
        assert(forall|q: int| 0 <= q < rest.len() ==> #[trigger] rest[q] != u) by {
            assert forall|q: int| 0 <= q < rest.len() implies #[trigger] rest[q] != u by {
                assert(fwd[j].0 != fwd[k + q].0);
            }
        }
        let x = rows[u as int];
        if t == root {
            assert(act_k =~= seq![t] + rest);
            assert forall|q: int| 0 <= q < rest.len() implies rows2[#[trigger] rest[q] as int] == rows[rest[q] as int] by {
                assert(fwd[k + q].0 != root);
            }
            lemma_xor_over_same(rows, rows2, rest);
            lemma_xor_over_concat(rows2, seq![t], rest);
            lemma_xor_over_single(rows2, t);
            lemma_xor_over_single(rows, t);
            lemma_xor_over_single(rows, u);
            let a = rows[t as int];
            let b = xor_over(rows, rest);
            crate::bits::lemma_xor_algebra(a, 0, 0);
            crate::bits::lemma_xor_algebra(x, 0, 0);
            crate::bits::lemma_xor_algebra(a ^ x, 0, 0);
        } else {
            let jj = choose|jj: int| j < jj < fwd.len() && fwd[jj].0 == fwd[j].1;
            let p = jj - k;
            assert(rest[p] == t);
            let pre = seq![root] + rest.take(p);
            let post = rest.skip(p + 1);
            assert(act_k =~= pre + seq![t] + post);
            assert forall|q: int| 0 <= q < pre.len() implies rows2[#[trigger] pre[q] as int] == rows[pre[q] as int] by {
                if q > 0 {
                    assert(pre[q] == rest[q - 1]);
                    assert(fwd[k + q - 1].0 != fwd[jj].0);
                }
            }
            assert forall|q: int| 0 <= q < post.len() implies rows2[#[trigger] post[q] as int] == rows[post[q] as int] by {
                assert(post[q] == rest[p + 1 + q]);
                assert(fwd[k + p + 1 + q].0 != fwd[jj].0);
            }
            lemma_xor_over_same(rows, rows2, pre);
            lemma_xor_over_same(rows, rows2, post);
            lemma_xor_over_concat(rows2, pre + seq![t], post);
            lemma_xor_over_concat(rows2, pre, seq![t]);
            lemma_xor_over_concat(rows, pre + seq![t], post);
            lemma_xor_over_concat(rows, pre, seq![t]);
            lemma_xor_over_single(rows2, t);
            lemma_xor_over_single(rows, t);
            lemma_xor_over_single(rows, u);
            lemma_xor_over_single(rows, root);
            assert(seq![root] + rest =~= act_k);
            let a = rows[t as int];
            let e = xor_over(rows, pre);
            let f = xor_over(rows, post);
            let r0 = rows[root as int];
            assert(xor_over(rows, act_k) == (e ^ (0u128 ^ a)) ^ f);
            assert(xor_over(rows2, act_k) == (e ^ (0u128 ^ (a ^ x))) ^ f);
            crate::bits::lemma_xor_algebra(a, 0, 0);
            crate::bits::lemma_xor_algebra(x, 0, 0);
            crate::bits::lemma_xor_algebra(a ^ x, 0, 0);
            crate::bits::lemma_xor_algebra(e, a, x);
            crate::bits::lemma_xor_algebra(e ^ a, x, f);
            crate::bits::lemma_xor_algebra(x, f, 0);
            crate::bits::lemma_xor_algebra(e ^ a, f, x);
            assert(((e ^ (0u128 ^ (a ^ x))) ^ f) == ((e ^ (0u128 ^ a)) ^ f) ^ (0u128 ^ x));
            assert(xor_over(rows, act_j) == ((0u128 ^ r0) ^ (0u128 ^ x)) ^ xor_over(rows, rest));
            assert(xor_over(rows, act_k) == (0u128 ^ r0) ^ xor_over(rows, rest));
            let g = xor_over(rows, rest);
            crate::bits::lemma_xor_algebra(r0, 0, 0);
            crate::bits::lemma_xor_algebra(r0, x, g);
            crate::bits::lemma_xor_algebra(x, g, 0);
            crate::bits::lemma_xor_algebra(r0, g, x);
            assert(((0u128 ^ r0) ^ (0u128 ^ x)) ^ g == ((0u128 ^ r0) ^ g) ^ (0u128 ^ x));
        }
    }
}

/// A ladder folding into `root` along a tree ([`ladder_into`]) leaves on
/// `root` the XOR of the rows of `root` and of every control wire; run on
/// the identity, that is the parity of all the ladder's wires.
pub proof fn law_ladder_folds(m: Seq<u128>, fwd: Seq<(usize, usize)>, root: usize)
    requires
        ladder_into(fwd, root),
        root < m.len(),
        ops_in_range(fwd, m.len()),
    ensures
        apply_ops(m, fwd)[root as int] == xor_over(m, seq![root] + controls(fwd)),
{
    lemma_ladder_prefix(m, fwd, root, fwd.len() as int);
    assert(fwd.take(fwd.len() as int) =~= fwd);
    assert(controls(fwd.skip(fwd.len() as int)) =~= Seq::<usize>::empty());
    assert(seq![root] + Seq::<usize>::empty() =~= seq![root]);
    let r = apply_ops(m, fwd)[root as int];
    lemma_xor_over_single(apply_ops(m, fwd), root);
    crate::bits::lemma_xor_algebra(r, 0, 0);
}

/// What one parity rotation on `n` wires appends, with its CX count:
/// nothing for an empty parity, the `RZ` alone for one wire, and otherwise a
/// [`parity_block`] rooted at the parity's first wire, whose forward ladder
/// folds into that wire along a tree ([`ladder_into`]; the wire then holds
/// the parity of all the ladder's wires, [`law_ladder_folds`]) and whose CNOTs join
/// two distinct wires related by `link` (so the network run backwards undoes
/// it, [`crate::gf2::lemma_reverse_tape_undoes`]).
pub open spec fn rotation_block(n: nat, link: spec_fn(int, int) -> bool, mask: u128, bits: i64, block: Seq<Seq<char>>, cx: i64) -> bool {
    let w = mask_wires(mask, n);
    &&& w.len() == 0 ==> block.len() == 0 && cx == 0
    &&& w.len() == 1 ==> block == seq![rz_signed_text(w[0] as nat, bits as int)] && cx == 0
    &&& w.len() >= 2 ==> exists|fwd: Seq<(usize, usize)>| #![trigger parity_block(fwd, w[0], bits)]
        ops_in_range(fwd, n) && ops_distinct(fwd) && linked(link, fwd) && ladder_into(fwd, w[0])
        && block == parity_block(fwd, w[0], bits)
        && cx == saturated((2 * fwd.len()) as int)
}

/// Pushing an instruction adds its text.
pub proof fn lemma_texts_push(v: Seq<String>, x: String)
    ensures
        texts(v.push(x)) == texts(v).push(x@),
{
    assert(texts(v.push(x)) =~= texts(v).push(x@));
}

proof fn lemma_cx_texts_push(ops: Seq<(usize, usize)>, g: (usize, usize))
    ensures
        cx_texts(ops.push(g)) == cx_texts(ops).push(cx_text(g)),
{
    assert(cx_texts(ops.push(g)) =~= cx_texts(ops).push(cx_text(g)));
}

/// Instructions for one parity rotation on the topology: a CX ladder along
/// a Steiner tree of the parity's wires, each tree wire into its parent in
/// depth-first post-order towards the first wire, the `RZ` there, and the
/// ladder undone; a single wire takes the `RZ` alone. Returns the CX count.
pub fn steiner_parity_instructions(topo: &Topology, mask: u128, rz_bits: i64, instructions: &mut Vec<String>) -> (cx: i64)
    requires
        topo.wf(),
    ensures
        cx >= 0,
        final(instructions)@.len() >= old(instructions)@.len(),
        texts(final(instructions)@).take(old(instructions)@.len() as int) == texts(old(instructions)@),
        rotation_block(topo.n as nat, topo.link(), mask, rz_bits, texts(final(instructions)@).skip(old(instructions)@.len() as int), cx),
{
    let ghost before = texts(instructions@);
    let n = topo.n;
    let mut terminals: Vec<usize> = Vec::new();
    let mut i: usize = 0;
    while i < n
        invariant
            i <= n <= 128,
            terminals@ == mask_wires(mask, i as nat),
            forall|k: int| 0 <= k < terminals@.len() ==> #[trigger] terminals@[k] < n,
        decreases n - i,
    {
        let ghost t0 = terminals@;
        if (mask >> (i as u128)) & 1 == 1 {
            terminals.push(i);
        }
        proof {
            assert(terminals@ =~= mask_wires(mask, (i + 1) as nat));
            assert forall|k: int| 0 <= k < terminals@.len() implies #[trigger] terminals@[k] < n by {
                if k < t0.len() { assert(terminals@[k] == t0[k]); }
            }
        }
        i = i + 1;
    }
    if terminals.len() == 0 {
        assert(texts(instructions@).skip(instructions@.len() as int) =~= Seq::<Seq<char>>::empty());
        assert(texts(instructions@).take(instructions@.len() as int) =~= before);
        return 0;
    }
    if terminals.len() == 1 {
        let t = rz_signed_string(terminals[0], rz_bits);
        proof { lemma_texts_push(instructions@, t); }
        let ghost len0 = instructions@.len();
        instructions.push(t);
        assert(texts(instructions@).skip(len0 as int) =~= seq![t@]);
        assert(texts(instructions@).take(len0 as int) =~= before);
        return 0;
    }
    let edges = topo.steiner_tree_edges(&terminals);
    let root = terminals[0];
    let (post_order, parent) = dfs_post_order(root, &edges, n);
    let mut fwd: Vec<(usize, usize)> = Vec::new();
    let ghost mut idx: Seq<int> = Seq::empty();
    let mut k: usize = 0;
    while k < post_order.len()
        invariant
            k <= post_order@.len(),
            idx.len() == fwd@.len(),
            forall|a: int, b: int| 0 <= a < b < idx.len() ==> idx[a] < idx[b],
            forall|m: int| 0 <= m < idx.len() ==> 0 <= #[trigger] idx[m] < k
                && post_order@[idx[m]] != root
                && fwd@[m] == (post_order@[idx[m]], parent@[post_order@[idx[m]] as int]),
            forall|a: int| 0 <= a < k && #[trigger] post_order@[a] != root ==> exists|m: int| 0 <= m < idx.len() && idx[m] == a,
            parent@.len() == n,
            forall|q: int| 0 <= q < post_order@.len() ==> #[trigger] post_order@[q] < n,
            forall|q: int| 0 <= q < post_order@.len() ==> #[trigger] post_order@[q] == root
                || parent@[post_order@[q] as int] < n && lists_pair(edges@, post_order@[q] as int, parent@[post_order@[q] as int] as int),
            ops_in_range(fwd@, n as nat),
            topo.wf(),
            n == topo.n,
            topo.on_neighbours(edges@),
            topo.on_neighbours(fwd@),
        decreases post_order@.len() - k,
    {
        let u = post_order[k];
        if u != root {
            let ghost f0 = fwd@;
            proof {
                let w = parent@[u as int];
                assert(lists_pair(edges@, u as int, w as int));
                let q = choose|q: int| 0 <= q < edges@.len() && ((#[trigger] edges@[q]).0 == u && edges@[q].1 == w
                    || edges@[q].0 == w && edges@[q].1 == u);
                assert(topo.coupled(edges@[q].0 as int, edges@[q].1 as int));
                assert(topo.coupled(u as int, w as int));
            }
            fwd.push((u, parent[u]));
            proof {
                let i0 = idx;
                idx = idx.push(k as int);
                assert forall|m: int| 0 <= m < idx.len() implies 0 <= #[trigger] idx[m] < k + 1
                    && post_order@[idx[m]] != root
                    && fwd@[m] == (post_order@[idx[m]], parent@[post_order@[idx[m]] as int]) by {
                    if m < i0.len() { assert(idx[m] == i0[m] && fwd@[m] == f0[m]); }
                }
                assert forall|a: int| 0 <= a < k + 1 && #[trigger] post_order@[a] != root implies exists|m: int| 0 <= m < idx.len() && idx[m] == a by {
                    if a < k {
                        let m = choose|m: int| 0 <= m < i0.len() && i0[m] == a;
                        assert(idx[m] == a);
                    } else {
                        assert(idx[idx.len() - 1] == a);
                    }
                }
                assert forall|q: int| 0 <= q < fwd@.len() implies (#[trigger] fwd@[q]).0 < n && fwd@[q].1 < n by {
                    if q < f0.len() { assert(fwd@[q] == f0[q]); }
                }
                assert forall|q: int| 0 <= q < fwd@.len() implies topo.coupled((#[trigger] fwd@[q]).0 as int, fwd@[q].1 as int) by {
                    if q < f0.len() { assert(fwd@[q] == f0[q]); }
                }
            }
        }
        k = k + 1;
    }
    proof {
        let po = post_order@;
        assert forall|i: int, j: int| 0 <= i < j < fwd@.len() implies fwd@[i].0 != fwd@[j].0 by {
            assert(fwd@[i].0 == po[idx[i]] && fwd@[j].0 == po[idx[j]]);
            assert(idx[i] < idx[j]);
        }
        assert forall|i: int| 0 <= i < fwd@.len() implies (#[trigger] fwd@[i]).0 != root by {
            assert(fwd@[i].0 == po[idx[i]]);
        }
        assert forall|i: int| 0 <= i < fwd@.len() implies (#[trigger] fwd@[i]).1 == root
            || exists|j: int| i < j < fwd@.len() && fwd@[j].0 == fwd@[i].1 by {
            let a = idx[i];
            let u = po[a];
            assert(u != root);
            assert(fwd@[i].1 == parent@[u as int]);
            let a2 = choose|a2: int| a < a2 < po.len() && po[a2] == parent@[po[a] as int];
            if po[a2] != root {
                let m = choose|m: int| 0 <= m < idx.len() && idx[m] == a2;
                if m <= i {
                    if m < i { assert(idx[m] < idx[i]); }
                }
                assert(m > i);
                assert(fwd@[m].0 == po[a2]);
            }
        }
        assert(ladder_into(fwd@, root));
    }
    let mut cx: i64 = 0;
    let mut k: usize = 0;
    while k < fwd.len()
        invariant
            k <= fwd@.len(),
            texts(instructions@) == before + cx_texts(fwd@.subrange(0, k as int)),
            cx == saturated(k as int),
        decreases fwd@.len() - k,
    {
        let t = cx_string(fwd[k]);
        proof {
            lemma_texts_push(instructions@, t);
            assert(fwd@.subrange(0, k + 1) =~= fwd@.subrange(0, k as int).push(fwd@[k as int]));
            lemma_cx_texts_push(fwd@.subrange(0, k as int), fwd@[k as int]);
        }
        instructions.push(t);
        if cx < i64::MAX {
            cx = cx + 1;
        }
        k = k + 1;
    }
    assert(fwd@.subrange(0, fwd@.len() as int) =~= fwd@);
    let r = rz_signed_string(root, rz_bits);
    proof { lemma_texts_push(instructions@, r); }
    instructions.push(r);
    let ghost mid = texts(instructions@);
    let mut k: usize = fwd.len();
    while k > 0
        invariant
            k <= fwd@.len(),
            texts(instructions@) == mid + cx_texts(fwd@.reverse().subrange(0, (fwd@.len() - k) as int)),
            cx == saturated(2 * fwd@.len() - k),
        decreases k,
    {
        k = k - 1;
        let t = cx_string(fwd[k]);
        proof {
            let j = (fwd@.len() - k - 1) as int;
            assert(fwd@.reverse()[j] == fwd@[k as int]);
            lemma_texts_push(instructions@, t);
            assert(fwd@.reverse().subrange(0, j + 1) =~= fwd@.reverse().subrange(0, j).push(fwd@[k as int]));
            lemma_cx_texts_push(fwd@.reverse().subrange(0, j), fwd@[k as int]);
        }
        instructions.push(t);
        if cx < i64::MAX {
            cx = cx + 1;
        }
    }
    proof {
        assert(linked(topo.link(), fwd@));
        assert(ops_distinct(fwd@));
        assert(fwd@.reverse().subrange(0, fwd@.len() as int) =~= fwd@.reverse());
        assert(texts(instructions@) =~= before + parity_block(fwd@, root, rz_bits));
        assert(texts(instructions@).skip(before.len() as int) =~= parity_block(fwd@, root, rz_bits));
        assert(texts(instructions@).take(before.len() as int) =~= before);
    }
    cx
}

/// A sum of nonnegative counts that stops at `i64::MAX`.
pub open spec fn saturated_sum(counts: Seq<i64>) -> i64
    decreases counts.len(),
{
    if counts.len() == 0 {
        0
    } else {
        saturated(saturated_sum(counts.drop_last()) + counts.last())
    }
}

/// Blocks of instruction texts, one after another.
pub open spec fn concat_blocks(blocks: Seq<Seq<Seq<char>>>) -> Seq<Seq<char>>
    decreases blocks.len(),
{
    if blocks.len() == 0 {
        Seq::empty()
    } else {
        concat_blocks(blocks.drop_last()) + blocks.last()
    }
}

/// Blocks of parity rotations, one per term, each as [`rotation_block`]
/// describes, with their CX counts.
pub open spec fn rotation_blocks(n: nat, link: spec_fn(int, int) -> bool, terms: Seq<(u128, i64)>,
    blocks: Seq<Seq<Seq<char>>>, counts: Seq<i64>) -> bool {
    &&& blocks.len() == terms.len()
    &&& counts.len() == terms.len()
    &&& forall|i: int| 0 <= i < terms.len() ==> rotation_block(n, link, terms[i].0, terms[i].1, #[trigger] blocks[i], counts[i])
}

/// One parity rotation per term, in the order given; returns the total CX
/// count.
pub fn steiner_phase_blocks(topo: &Topology, terms: &Vec<(u128, i64)>, instructions: &mut Vec<String>) -> (cx: i64)
    requires
        topo.wf(),
    ensures
        exists|blocks: Seq<Seq<Seq<char>>>, counts: Seq<i64>| #![trigger rotation_blocks(topo.n as nat, topo.link(), terms@, blocks, counts)]
            rotation_blocks(topo.n as nat, topo.link(), terms@, blocks, counts)
            && texts(final(instructions)@) == texts(old(instructions)@) + concat_blocks(blocks)
            && cx == saturated_sum(counts),
{
    let ghost start = texts(instructions@);
    let ghost mut blocks: Seq<Seq<Seq<char>>> = Seq::empty();
    let ghost mut counts: Seq<i64> = Seq::empty();
    let mut cx: i64 = 0;
    let mut i: usize = 0;
    while i < terms.len()
        invariant
            topo.wf(),
            i <= terms@.len(),
            rotation_blocks(topo.n as nat, topo.link(), terms@.subrange(0, i as int), blocks, counts),
            texts(instructions@) == start + concat_blocks(blocks),
            cx == saturated_sum(counts),
            cx >= 0,
        decreases terms@.len() - i,
    {
        let (mask, bits) = terms[i];
        let ghost pre = texts(instructions@);
        let ghost len0 = instructions@.len();
        let c = steiner_parity_instructions(topo, mask, bits, instructions);
        let ghost block = texts(instructions@).skip(len0 as int);
        proof {
            assert(texts(instructions@) =~= texts(instructions@).take(len0 as int) + block);
            let nb = blocks.push(block);
            let nc = counts.push(c);
            assert(nb.drop_last() =~= blocks);
            assert(nc.drop_last() =~= counts);
            assert(concat_blocks(nb) == concat_blocks(blocks) + block);
            assert forall|k: int| 0 <= k < i + 1 implies rotation_block(topo.n as nat, topo.link(), terms@.subrange(0, i + 1)[k].0,
                terms@.subrange(0, i + 1)[k].1, #[trigger] nb[k], nc[k]) by {
                if k < i {
                    assert(terms@.subrange(0, i + 1)[k] == terms@.subrange(0, i as int)[k]);
                    assert(nb[k] == blocks[k]);
                    assert(nc[k] == counts[k]);
                } else {
                    assert(terms@.subrange(0, i + 1)[k] == terms@[i as int]);
                }
            }
            blocks = nb;
            counts = nc;
        }
        if cx <= i64::MAX - c {
            cx = cx + c;
        } else {
            cx = i64::MAX;
        }
        i = i + 1;
    }
    assert(terms@.subrange(0, terms@.len() as int) =~= terms@);
    cx
}

/// The linear part of a Steiner resynthesis: a CNOT network for the row
/// masks, each CNOT routed on the topology. Returns the CX count.
pub fn steiner_linear_tail(state: &EvaluatedPathSum, topo: &Topology, instructions: &mut Vec<String>) -> (r: Option<i64>)
    requires
        state.wf(),
        topo.wf(),
        topo.n == state.num_qubits,
    ensures
        final(instructions)@.len() >= old(instructions)@.len(),
        texts(final(instructions)@).take(old(instructions)@.len() as int) == texts(old(instructions)@),
        r matches Some(c) && linear_tail(*state, topo.n as nat, topo.link(), texts(final(instructions)@).skip(old(instructions)@.len() as int), c),
        topo.connected() ==> (r matches Some(c)
            && linear_tail_routed(*state, topo.n as nat, topo.link(), texts(final(instructions)@).skip(old(instructions)@.len() as int), c)),
{
    let ghost before = texts(instructions@);
    let n = topo.n;
    let mut matrix: Vec<u128> = Vec::new();
    let mut i: usize = 0;
    while i < n
        invariant
            i <= n,
            n == state.num_qubits,
            state.wf(),
            matrix@ == row_variable_masks(*state, i as nat),
        decreases n - i,
    {
        matrix.push(state.out_state[i].variable_mask);
        proof {
            assert(matrix@ =~= row_variable_masks(*state, (i + 1) as nat));
        }
        i = i + 1;
    }
    let ghost rows = matrix@;
    match synthesize_cnot_matrix(matrix, n) {
        Ok(cnots) => {
            let mut final_cnots: Vec<(usize, usize)> = Vec::new();
            let ghost mut paths: Seq<Seq<usize>> = Seq::empty();
            let mut k: usize = 0;
            proof {
                assert(final_cnots@ =~= routes(cnots@, paths, 0));
            }
            while k < cnots.len()
                invariant
                    topo.wf(),
                    n == topo.n,
                    k <= cnots@.len(),
                    ops_in_range(cnots@, n as nat),
                    ops_distinct(cnots@),
                    forall|q: int| 0 <= q < final_cnots@.len() ==> (#[trigger] final_cnots@[q]).0 < n && final_cnots@[q].1 < n,
                    paths.len() == k,
                    forall|q: int| 0 <= q < k ==> (#[trigger] paths[q]).len() > 0 ==> paths[q][0] == cnots@[q].0
                        && paths[q].last() == cnots@[q].1,
                    forall|q: int| 0 <= q < k ==> simple_path(#[trigger] paths[q]),
                    forall|q: int, w: int| 0 <= q < k && 0 <= w < paths[q].len() ==> #[trigger] paths[q][w] < n,
                    final_cnots@ == routes(cnots@, paths, k as int),
                    topo.on_neighbours(final_cnots@),
                    topo.connected() ==> forall|q: int| 0 <= q < k ==> (#[trigger] paths[q]).len() >= 2,
                decreases cnots@.len() - k,
            {
                let (c, t) = cnots[k];
                assert(cnots@[k as int].0 < n && cnots@[k as int].1 < n && cnots@[k as int].0 != cnots@[k as int].1);
                let ghost fc0 = final_cnots@;
                apply_remote_cnot(c, t, topo, &mut final_cnots);
                proof {
                    let p = choose|p: Seq<usize>| #![trigger route_ops(c, t, p)]
                        (p.len() > 0 ==> p[0] == c && p.last() == t)
                        && (topo.descending() && topo.d(c as int, t as int) != usize::MAX ==> p.len() >= 2)
                        && topo.walks(p)
                        && simple_path(p)
                        && (forall|w: int| 0 <= w < p.len() ==> #[trigger] p[w] < topo.n)
                        && final_cnots@ == fc0 + route_ops(c, t, p);
                    let ps2 = paths.push(p);
                    assert forall|q: int| 0 <= q < k + 1 implies (#[trigger] ps2[q]).len() > 0 ==> ps2[q][0] == cnots@[q].0
                        && ps2[q].last() == cnots@[q].1 by {
                        if q < k { assert(ps2[q] == paths[q]); }
                    }
                    assert forall|q: int| 0 <= q < k + 1 implies simple_path(#[trigger] ps2[q]) by {
                        if q < k { assert(ps2[q] == paths[q]); }
                    }
                    assert forall|q: int| 0 <= q < final_cnots@.len() implies
                        topo.coupled((#[trigger] final_cnots@[q]).0 as int, final_cnots@[q].1 as int) by {
                        if q < fc0.len() {
                            assert(final_cnots@[q] == fc0[q]);
                        }
                    }
                    assert forall|q: int, w: int| 0 <= q < k + 1 && 0 <= w < ps2[q].len() implies #[trigger] ps2[q][w] < n by {
                        if q < k { assert(ps2[q] == paths[q]); } else { assert(ps2[q] == p); }
                    }
                    assert(routes(cnots@, ps2, k as int) == routes(cnots@, paths, k as int)) by {
                        lemma_routes_prefix(cnots@, paths, ps2, k as int);
                    }
                    assert(final_cnots@ == routes(cnots@, ps2, k + 1));
                    if topo.connected() {
                        assert(topo.d(c as int, t as int) != usize::MAX);
                        assert forall|q: int| 0 <= q < k + 1 implies (#[trigger] ps2[q]).len() >= 2 by {
                            if q < k { assert(ps2[q] == paths[q]); }
                        }
                    }
                    paths = ps2;
                }
                k = k + 1;
            }
            let mut k: usize = 0;
            while k < final_cnots.len()
                invariant
                    k <= final_cnots@.len(),
                    n == topo.n,
                    ops_in_range(final_cnots@, n as nat),
                    texts(instructions@) == before + cx_texts(final_cnots@.subrange(0, k as int)),
                decreases final_cnots@.len() - k,
            {
                let t = cx_string(final_cnots[k]);
                proof {
                    lemma_texts_push(instructions@, t);
                    assert(final_cnots@.subrange(0, k + 1) =~= final_cnots@.subrange(0, k as int).push(final_cnots@[k as int]));
                    lemma_cx_texts_push(final_cnots@.subrange(0, k as int), final_cnots@[k as int]);
                }
                instructions.push(t);
                k = k + 1;
            }
            assert(final_cnots@.subrange(0, final_cnots@.len() as int) =~= final_cnots@);
            assert(texts(instructions@) == before + cx_texts(final_cnots@));
            let count = final_cnots.len();
            let c: i64 = if (count as u64) < (i64::MAX as u64) { count as i64 } else { i64::MAX };
            proof {
                assert(texts(instructions@).skip(before.len() as int) =~= cx_texts(final_cnots@));
                assert(texts(instructions@).take(before.len() as int) =~= before);
                assert(linked(topo.link(), final_cnots@));
                assert(linear_tail_with(*state, n as nat, topo.link(), cnots@, paths, cx_texts(final_cnots@), c));
                if topo.connected() {
                    assert(linear_tail_routed(*state, n as nat, topo.link(), cx_texts(final_cnots@), c));
                }
            }
            Some(c)
        },
        Err(_) => None,
    }
}

/// The variable masks of the first `k` output rows.
pub open spec fn row_variable_masks(s: EvaluatedPathSum, k: nat) -> Seq<u128> {
    Seq::new(k, |i: int| s.out_state@[i].variable_mask)
}

/// The linear tail built from the CNOT list `cx` and the routes `paths`:
/// `cx` synthesizes the row masks (exactly whenever they form an
/// invertible matrix; otherwise up to the row-reduced form that
/// elimination reached), each CNOT is routed along a simple path from its
/// control to its target, every routed CNOT joins wires related by `link`,
/// and `tail` and `count` are the routed CNOTs' texts and number.
pub open spec fn linear_tail_with(s: EvaluatedPathSum, n: nat, link: spec_fn(int, int) -> bool,
    cx: Seq<(usize, usize)>, paths: Seq<Seq<usize>>, tail: Seq<Seq<char>>, count: i64) -> bool {
    &&& ops_in_range(cx, n)
    &&& ops_distinct(cx)
    &&& (apply_ops(identity_rows(n), cx) == masked_rows(row_variable_masks(s, n), n)
        || exists|f: Seq<u128>| f.len() == n && #[trigger] apply_ops(f, cx) == masked_rows(row_variable_masks(s, n), n))
    &&& (cx_realizable(row_variable_masks(s, n), n) ==> apply_ops(identity_rows(n), cx) == masked_rows(row_variable_masks(s, n), n))
    &&& paths.len() == cx.len()
    &&& forall|q: int| 0 <= q < cx.len() ==> (#[trigger] paths[q]).len() > 0 ==> paths[q][0] == cx[q].0
        && paths[q].last() == cx[q].1
    &&& forall|q: int| 0 <= q < cx.len() ==> simple_path(#[trigger] paths[q])
    &&& forall|q: int, w: int| 0 <= q < paths.len() && 0 <= w < paths[q].len() ==> #[trigger] paths[q][w] < n
    &&& ops_in_range(routes(cx, paths, cx.len() as int), n)
    &&& linked(link, routes(cx, paths, cx.len() as int))
    &&& tail == cx_texts(routes(cx, paths, cx.len() as int))
    &&& count == saturated(routes(cx, paths, cx.len() as int).len() as int)
}

/// The linear part of a Steiner resynthesis as [`linear_tail_with`] some
/// CNOT list and routes; where every CNOT found its route, the routed
/// CNOTs act as the list ([`lemma_linear_tail_acts`]).
pub open spec fn linear_tail(s: EvaluatedPathSum, n: nat, link: spec_fn(int, int) -> bool, tail: Seq<Seq<char>>, count: i64) -> bool {
    exists|cx: Seq<(usize, usize)>, paths: Seq<Seq<usize>>| #![trigger linear_tail_with(s, n, link, cx, paths, tail, count)]
        linear_tail_with(s, n, link, cx, paths, tail, count)
}

/// A linear tail ([`linear_tail_with`]) in which every CNOT found a route
/// along the coupling graph.
pub open spec fn linear_tail_routed(s: EvaluatedPathSum, n: nat, link: spec_fn(int, int) -> bool, tail: Seq<Seq<char>>, count: i64) -> bool {
    exists|cx: Seq<(usize, usize)>, paths: Seq<Seq<usize>>| #![trigger linear_tail_with(s, n, link, cx, paths, tail, count)]
        linear_tail_with(s, n, link, cx, paths, tail, count)
        && forall|q: int| 0 <= q < paths.len() ==> (#[trigger] paths[q]).len() >= 2
}

/// A routed linear tail rebuilds the block: on a path sum whose row masks
/// form an invertible matrix, the tail's CNOTs (each joining two coupled
/// wires) carry the unit rows to the block's rows.
pub proof fn law_routed_tail_rebuilds(s: EvaluatedPathSum, n: nat, link: spec_fn(int, int) -> bool, tail: Seq<Seq<char>>, count: i64)
    requires
        linear_tail_routed(s, n, link, tail, count),
        cx_realizable(row_variable_masks(s, n), n),
    ensures
        exists|ops: Seq<(usize, usize)>| #![trigger cx_texts(ops)]
            tail == cx_texts(ops) && linked(link, ops)
            && apply_ops(identity_rows(n), ops) == masked_rows(row_variable_masks(s, n), n),
{
    let (cx, paths) = choose|cx: Seq<(usize, usize)>, paths: Seq<Seq<usize>>| #![trigger linear_tail_with(s, n, link, cx, paths, tail, count)]
        linear_tail_with(s, n, link, cx, paths, tail, count)
        && forall|q: int| 0 <= q < paths.len() ==> (#[trigger] paths[q]).len() >= 2;
    lemma_linear_tail_acts(s, n, link, cx, paths, tail, count, identity_rows(n));
    let ops = routes(cx, paths, cx.len() as int);
    assert(tail == cx_texts(ops) && linked(link, ops));
}

/// Where every CNOT found its route, the routed tail acts on any wires as
/// the CNOT list it routes.
pub proof fn lemma_linear_tail_acts(s: EvaluatedPathSum, n: nat, link: spec_fn(int, int) -> bool,
    cx: Seq<(usize, usize)>, paths: Seq<Seq<usize>>, tail: Seq<Seq<char>>, count: i64, m: Seq<u128>)
    requires
        linear_tail_with(s, n, link, cx, paths, tail, count),
        forall|q: int| 0 <= q < paths.len() ==> (#[trigger] paths[q]).len() > 0,
        m.len() == n,
    ensures
        apply_ops(m, routes(cx, paths, cx.len() as int)) == apply_ops(m, cx),
{
    assert forall|i: int| 0 <= i < cx.len() implies {
        &&& (#[trigger] paths[i]).len() >= 2
        &&& paths[i][0] == cx[i].0
        &&& paths[i][paths[i].len() - 1] == cx[i].1
        &&& simple_path(paths[i])
    } by {
        assert(paths[i].len() > 0);
        assert(cx[i].0 != cx[i].1);
    }
    assert(routes_direct(cx, paths));
    lemma_routes_act(m, cx, paths, cx.len() as int);
    assert(cx.take(cx.len() as int) =~= cx);
}

/// A weaker relation between wires serves as well.
pub proof fn lemma_relink_linked(l1: spec_fn(int, int) -> bool, l2: spec_fn(int, int) -> bool, n: nat, ops: Seq<(usize, usize)>)
    requires
        linked(l1, ops),
        ops_in_range(ops, n),
        forall|a: int, b: int| 0 <= a < n && 0 <= b < n && #[trigger] l1(a, b) ==> l2(a, b),
    ensures
        linked(l2, ops),
{
    assert forall|q: int| 0 <= q < ops.len() implies l2((#[trigger] ops[q]).0 as int, ops[q].1 as int) by {
        assert(l1(ops[q].0 as int, ops[q].1 as int));
    }
}

/// Rotation blocks stay valid under a weaker relation between wires.
pub proof fn lemma_relink_rotation_blocks(n: nat, l1: spec_fn(int, int) -> bool, l2: spec_fn(int, int) -> bool,
    terms: Seq<(u128, i64)>, blocks: Seq<Seq<Seq<char>>>, counts: Seq<i64>)
    requires
        rotation_blocks(n, l1, terms, blocks, counts),
        forall|a: int, b: int| 0 <= a < n && 0 <= b < n && #[trigger] l1(a, b) ==> l2(a, b),
    ensures
        rotation_blocks(n, l2, terms, blocks, counts),
{
    assert forall|i: int| 0 <= i < terms.len() implies rotation_block(n, l2, terms[i].0, terms[i].1, #[trigger] blocks[i], counts[i]) by {
        assert(rotation_block(n, l1, terms[i].0, terms[i].1, blocks[i], counts[i]));
        let w = mask_wires(terms[i].0, n);
        if w.len() >= 2 {
            let fwd = choose|fwd: Seq<(usize, usize)>| #![trigger parity_block(fwd, w[0], terms[i].1)]
                ops_in_range(fwd, n) && ops_distinct(fwd) && linked(l1, fwd) && blocks[i] == parity_block(fwd, w[0], terms[i].1)
                && counts[i] == saturated((2 * fwd.len()) as int);
            lemma_relink_linked(l1, l2, n, fwd);
        }
    }
}

/// A linear tail stays valid under a weaker relation between wires.
pub proof fn lemma_relink_linear_tail(s: EvaluatedPathSum, n: nat, l1: spec_fn(int, int) -> bool, l2: spec_fn(int, int) -> bool,
    tail: Seq<Seq<char>>, count: i64)
    requires
        linear_tail(s, n, l1, tail, count),
        forall|a: int, b: int| 0 <= a < n && 0 <= b < n && #[trigger] l1(a, b) ==> l2(a, b),
    ensures
        linear_tail(s, n, l2, tail, count),
{
    let (cx, paths) = choose|cx: Seq<(usize, usize)>, paths: Seq<Seq<usize>>| #![trigger linear_tail_with(s, n, l1, cx, paths, tail, count)]
        linear_tail_with(s, n, l1, cx, paths, tail, count);
    let r = routes(cx, paths, cx.len() as int);
    lemma_relink_linked(l1, l2, n, r);
    assert(linear_tail_with(s, n, l2, cx, paths, tail, count));
}

proof fn lemma_routes_prefix(cx: Seq<(usize, usize)>, a: Seq<Seq<usize>>, b: Seq<Seq<usize>>, j: int)
    requires
        0 <= j,
        j <= a.len(),
        j <= b.len(),
        forall|q: int| 0 <= q < j ==> a[q] == b[q],
    ensures
        routes(cx, a, j) == routes(cx, b, j),
    decreases j,
{
    if j > 0 {
        lemma_routes_prefix(cx, a, b, j - 1);
        assert(a[j - 1] == b[j - 1]);
    }
}

} // verus!
