//! The text of a coupling graph: `u-v` pieces separated by `;`, with any
//! quotes around the whole text ignored.
use vstd::prelude::*;
use vstd::string::StrSliceExecFns;
use crate::render::{is_digit, digits_value, digit_value};

verus! {

/// The fields of `s` between occurrences of `sep`: one more field than
/// there are separators (the empty text has one empty field).
pub open spec fn fields(s: Seq<char>, sep: char) -> Seq<Seq<char>>
    decreases s.len(),
{
    if s.len() == 0 {
        seq![Seq::empty()]
    } else {
        let f = fields(s.drop_last(), sep);
        if s.last() == sep {
            f.push(Seq::empty())
        } else {
            f.update(f.len() - 1, f.last().push(s.last()))
        }
    }
}

/// `s` without the quotes it starts with.
pub open spec fn trim_front(s: Seq<char>) -> Seq<char>
    decreases s.len(),
{
    if s.len() > 0 && s[0] == '"' { trim_front(s.drop_first()) } else { s }
}

/// `s` without the quotes it ends with.
pub open spec fn trim_back(s: Seq<char>) -> Seq<char>
    decreases s.len(),
{
    if s.len() > 0 && s.last() == '"' { trim_back(s.drop_last()) } else { s }
}

/// `s` without the quotes around it.
pub open spec fn unquoted(s: Seq<char>) -> Seq<char> {
    trim_back(trim_front(s))
}

/// The digits of a wire number, after an optional `+`.
pub open spec fn wire_digits(t: Seq<char>) -> Seq<char> {
    if t.len() > 0 && t[0] == '+' { t.drop_first() } else { t }
}

/// A wire number: at least one digit, after an optional `+`.
pub open spec fn is_wire(t: Seq<char>) -> bool {
    let d = wire_digits(t);
    d.len() > 0 && forall|i: int| 0 <= i < d.len() ==> is_digit(#[trigger] d[i])
}

/// The number a wire text denotes.
pub open spec fn wire_value(t: Seq<char>) -> nat {
    digits_value(wire_digits(t))
}

/// The edge a piece names among `n` wires: exactly one `-`, between two
/// wire numbers below `n`; `None` for anything else.
pub open spec fn piece_edge(p: Seq<char>, n: nat) -> Option<(usize, usize)> {
    let f = fields(p, '-');
    if f.len() == 2 && is_wire(f[0]) && is_wire(f[1]) && wire_value(f[0]) < n && wire_value(f[1]) < n {
        Some((wire_value(f[0]) as usize, wire_value(f[1]) as usize))
    } else {
        None
    }
}

/// The edges named by the pieces, in order.
pub open spec fn piece_edges(ps: Seq<Seq<char>>, n: nat) -> Seq<(usize, usize)>
    decreases ps.len(),
{
    if ps.len() == 0 {
        Seq::empty()
    } else {
        piece_edges(ps.drop_last(), n) + match piece_edge(ps.last(), n) {
            Some(e) => seq![e],
            None => Seq::empty(),
        }
    }
}

/// The edges a coupling text lists among `n` wires, in order.
pub open spec fn listed_edges(text: Seq<char>, n: nat) -> Seq<(usize, usize)> {
    piece_edges(fields(unquoted(text), ';'), n)
}

/// The pair `{a, b}` occurs in `es`, in either orientation.
pub open spec fn lists_pair(es: Seq<(usize, usize)>, a: int, b: int) -> bool {
    exists|q: int| 0 <= q < es.len() && ((#[trigger] es[q]).0 == a && es[q].1 == b || es[q].0 == b && es[q].1 == a)
}

/// Wires `a` and `b` are coupled by the text: distinct, and either the text
/// is blank (all wires coupled) or it lists the pair.
pub open spec fn named_coupling(text: Seq<char>, n: nat, a: int, b: int) -> bool {
    a != b && (unquoted(text).len() == 0 || lists_pair(listed_edges(text, n), a, b))
}

/// The coupling a text names among `n` wires, as a relation.
pub open spec fn coupling_of(text: Seq<char>, n: nat) -> spec_fn(int, int) -> bool {
    |a: int, b: int| named_coupling(text, n, a, b)
}

/// The characters of a string.
pub fn chars_of(s: &str) -> (r: Vec<char>)
    ensures
        r@ == s@,
{
    let n = s.unicode_len();
    let mut out: Vec<char> = Vec::new();
    let mut i: usize = 0;
    while i < n
        invariant
            n == s@.len(),
            i <= n,
            out@ == s@.subrange(0, i as int),
        decreases n - i,
    {
        out.push(s.get_char(i));
        assert(out@ =~= s@.subrange(0, i + 1));
        i = i + 1;
    }
    assert(out@ =~= s@);
    out
}

/// The range of `all` left once the quotes around it are dropped.
pub fn unquoted_range(all: &Vec<char>) -> (r: (usize, usize))
    ensures
        r.0 <= r.1 <= all@.len(),
        all@.subrange(r.0 as int, r.1 as int) == unquoted(all@),
{
    let len = all.len();
    let mut lo: usize = 0;
    assert(all@.subrange(0, len as int) =~= all@);
    while lo < len && all[lo] == '"'
        invariant
            len == all@.len(),
            lo <= len,
            trim_front(all@) == trim_front(all@.subrange(lo as int, len as int)),
        decreases len - lo,
    {
        let ghost sub = all@.subrange(lo as int, len as int);
        assert(sub.drop_first() =~= all@.subrange(lo + 1, len as int));
        lo = lo + 1;
    }
    assert(trim_front(all@) == all@.subrange(lo as int, len as int));
    let mut hi: usize = len;
    while hi > lo && all[hi - 1] == '"'
        invariant
            lo <= hi <= len,
            len == all@.len(),
            unquoted(all@) == trim_back(all@.subrange(lo as int, hi as int)),
        decreases hi - lo,
    {
        let ghost sub = all@.subrange(lo as int, hi as int);
        assert(sub.drop_last() =~= all@.subrange(lo as int, hi - 1));
        hi = hi - 1;
    }
    (lo, hi)
}

/// The ranges of `all[lo..hi]` that hold its fields between `sep`s.
pub fn split_fields(all: &Vec<char>, lo: usize, hi: usize, sep: char) -> (r: Vec<(usize, usize)>)
    requires
        lo <= hi <= all@.len(),
    ensures
        r@.len() == fields(all@.subrange(lo as int, hi as int), sep).len(),
        forall|k: int| 0 <= k < r@.len() ==> lo <= (#[trigger] r@[k]).0 <= r@[k].1 <= hi
            && all@.subrange(r@[k].0 as int, r@[k].1 as int) == fields(all@.subrange(lo as int, hi as int), sep)[k],
{
    let mut out: Vec<(usize, usize)> = Vec::new();
    let mut start: usize = lo;
    let mut q: usize = lo;
    assert(all@.subrange(lo as int, lo as int) =~= Seq::<char>::empty());
    while q < hi
        invariant
            lo <= start <= q <= hi <= all@.len(),
            fields(all@.subrange(lo as int, q as int), sep).len() == out@.len() + 1,
            fields(all@.subrange(lo as int, q as int), sep).last() == all@.subrange(start as int, q as int),
            forall|k: int| 0 <= k < out@.len() ==> lo <= (#[trigger] out@[k]).0 <= out@[k].1 <= q
                && all@.subrange(out@[k].0 as int, out@[k].1 as int) == fields(all@.subrange(lo as int, q as int), sep)[k],
        decreases hi - q,
    {
        let ghost s = all@.subrange(lo as int, q + 1);
        let ghost f = fields(all@.subrange(lo as int, q as int), sep);
        proof {
            assert(s.drop_last() =~= all@.subrange(lo as int, q as int));
        }
        if all[q] == sep {
            let ghost prev = out@;
            out.push((start, q));
            proof {
                assert(fields(s, sep) == f.push(Seq::empty()));
                assert(all@.subrange(q + 1, q + 1) =~= Seq::<char>::empty());
                assert forall|k: int| 0 <= k < out@.len() implies lo <= (#[trigger] out@[k]).0 <= out@[k].1 <= q + 1
                    && all@.subrange(out@[k].0 as int, out@[k].1 as int) == fields(s, sep)[k] by {
                    if k < out@.len() - 1 {
                        assert(out@[k] == prev[k]);
                    }
                }
            }
            start = q + 1;
        } else {
            proof {
                assert(fields(s, sep) == f.update(f.len() - 1, f.last().push(all@[q as int])));
                assert(all@.subrange(start as int, q + 1) =~= all@.subrange(start as int, q as int).push(all@[q as int]));
            }
        }
        q = q + 1;
    }
    let ghost prev = out@;
    out.push((start, hi));
    proof {
        assert forall|k: int| 0 <= k < out@.len() implies lo <= (#[trigger] out@[k]).0 <= out@[k].1 <= hi
            && all@.subrange(out@[k].0 as int, out@[k].1 as int) == fields(all@.subrange(lo as int, hi as int), sep)[k] by {
            if k < out@.len() - 1 {
                assert(out@[k] == prev[k]);
            }
        }
    }
    out
}

/// The number `all[s..e]` names as a wire: `None` when it is no wire
/// number; otherwise a value that is below `cap` exactly when the number
/// is, and then equal to it.
fn parse_wire(all: &Vec<char>, s: usize, e: usize, cap: usize) -> (r: Option<usize>)
    requires
        s <= e <= all@.len(),
    ensures
        r is None <==> !is_wire(all@.subrange(s as int, e as int)),
        r matches Some(x) ==> (x < cap <==> wire_value(all@.subrange(s as int, e as int)) < cap)
            && (x < cap ==> x == wire_value(all@.subrange(s as int, e as int))),
{
    let ghost t = all@.subrange(s as int, e as int);
    let mut i: usize = s;
    if s < e && all[s] == '+' {
        i = s + 1;
    }
    let ghost d = wire_digits(t);
    proof {
        assert(d =~= all@.subrange(i as int, e as int));
    }
    if i >= e {
        return None;
    }
    let mut value: usize = 0;
    let mut over = false;
    let ghost first = i;
    assert(d.subrange(0, 0) =~= Seq::<char>::empty());
    while i < e
        invariant
            s <= first <= i <= e <= all@.len(),
            t == all@.subrange(s as int, e as int),
            d == wire_digits(t),
            d == all@.subrange(first as int, e as int),
            forall|j: int| 0 <= j < i - first ==> is_digit(#[trigger] d[j]),
            !over ==> value == digits_value(d.subrange(0, i - first)),
            over ==> digits_value(d.subrange(0, i - first)) > cap,
        decreases e - i,
    {
        let c = all[i];
        if c < '0' || c > '9' {
            proof {
                assert(d[i - first] == c);
                assert(!is_digit(c));
                assert(!is_wire(t)) by {
                    if is_wire(t) {
                        assert(is_digit(d[i - first]));
                    }
                }
            }
            return None;
        }
        let dv = (c as u32 - '0' as u32) as usize;
        let ghost pre = d.subrange(0, i - first);
        let ghost nxt = d.subrange(0, i - first + 1);
        proof {
            assert(d[i - first] == c);
            assert(is_digit(c) && digit_value(c) == dv) by {
                assert('0' <= c <= '9');
            }
            assert(nxt.drop_last() =~= pre);
            assert(nxt.last() == c);
            assert(digits_value(nxt) == digits_value(pre) * 10 + dv);
        }
        if !over {
            if value > cap {
                over = true;
            } else {
                match value.checked_mul(10) {
                    Some(v10) => match v10.checked_add(dv) {
                        Some(v) => { value = v; },
                        None => { over = true; },
                    },
                    None => { over = true; },
                }
            }
        }
        i = i + 1;
    }
    proof {
        assert(d.subrange(0, e - first) =~= d);
    }
    if over {
        Some(usize::MAX)
    } else {
        Some(value)
    }
}

/// The edge the piece `all[s..e]` names among `n` wires.
fn parse_piece(all: &Vec<char>, s: usize, e: usize, n: usize) -> (r: Option<(usize, usize)>)
    requires
        s <= e <= all@.len(),
    ensures
        r == piece_edge(all@.subrange(s as int, e as int), n as nat),
{
    let parts = split_fields(all, s, e, '-');
    if parts.len() != 2 {
        return None;
    }
    let (a0, a1) = parts[0];
    let (b0, b1) = parts[1];
    match (parse_wire(all, a0, a1, n), parse_wire(all, b0, b1, n)) {
        (Some(u), Some(v)) => {
            if u < n && v < n {
                Some((u, v))
            } else {
                None
            }
        },
        _ => None,
    }
}

/// The edges the pieces of `all[lo..hi]`, separated by `;`, name among `n`
/// wires, in order.
pub fn parse_edges(all: &Vec<char>, lo: usize, hi: usize, n: usize) -> (r: Vec<(usize, usize)>)
    requires
        lo <= hi <= all@.len(),
    ensures
        r@ == piece_edges(fields(all@.subrange(lo as int, hi as int), ';'), n as nat),
        forall|k: int| 0 <= k < r@.len() ==> (#[trigger] r@[k]).0 < n && r@[k].1 < n,
{
    let ghost fs = fields(all@.subrange(lo as int, hi as int), ';');
    let ranges = split_fields(all, lo, hi, ';');
    let mut edges: Vec<(usize, usize)> = Vec::new();
    let mut k: usize = 0;
    assert(fs.subrange(0, 0) =~= Seq::<Seq<char>>::empty());
    while k < ranges.len()
        invariant
            k <= ranges@.len(),
            ranges@.len() == fs.len(),
            forall|j: int| 0 <= j < ranges@.len() ==> lo <= (#[trigger] ranges@[j]).0 <= ranges@[j].1 <= hi
                && all@.subrange(ranges@[j].0 as int, ranges@[j].1 as int) == fs[j],
            hi <= all@.len(),
            edges@ == piece_edges(fs.subrange(0, k as int), n as nat),
            forall|q: int| 0 <= q < edges@.len() ==> (#[trigger] edges@[q]).0 < n && edges@[q].1 < n,
        decreases ranges@.len() - k,
    {
        let (s, e) = ranges[k];
        let piece = parse_piece(all, s, e, n);
        proof {
            let pre = fs.subrange(0, k as int);
            let nxt = fs.subrange(0, k + 1);
            assert(nxt.drop_last() =~= pre);
            assert(nxt.last() == fs[k as int]);
        }
        let ghost before = edges@;
        match piece {
            Some(pair) => {
                edges.push(pair);
                proof {
                    assert(edges@ =~= before + seq![pair]);
                    assert forall|q: int| 0 <= q < edges@.len() implies (#[trigger] edges@[q]).0 < n && edges@[q].1 < n by {
                        if q < before.len() { assert(edges@[q] == before[q]); }
                    }
                }
            },
            None => {
                assert(edges@ =~= before + Seq::<(usize, usize)>::empty());
            },
        }
        k = k + 1;
    }
    assert(fs.subrange(0, fs.len() as int) =~= fs);
    edges
}

} // verus!
