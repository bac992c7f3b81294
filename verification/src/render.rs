//! Decimal rendering of integers and joined instruction lists.
use vstd::prelude::*;
use vstd::string::StringExecFns;

verus! {

/// The character of a decimal digit.
pub open spec fn digit_char(d: nat) -> char {
    if d == 0 { '0' } else if d == 1 { '1' } else if d == 2 { '2' } else if d == 3 { '3' }
    else if d == 4 { '4' } else if d == 5 { '5' } else if d == 6 { '6' } else if d == 7 { '7' }
    else if d == 8 { '8' } else { '9' }
}

/// Decimal notation of `v`, without leading zeros (`"0"` for zero).
pub open spec fn dec(v: nat) -> Seq<char>
    decreases v,
{
    if v < 10 {
        seq![digit_char(v)]
    } else {
        dec(v / 10) + seq![digit_char(v % 10)]
    }
}

/// Parts separated by `sep`.
pub open spec fn joined(parts: Seq<Seq<char>>, sep: Seq<char>) -> Seq<char>
    decreases parts.len(),
{
    if parts.len() == 0 {
        Seq::empty()
    } else if parts.len() == 1 {
        parts[0]
    } else {
        joined(parts.drop_last(), sep) + sep + parts.last()
    }
}

/// Append the character of digit `d`.
fn push_digit(s: &mut String, d: u8)
    requires
        d < 10,
    ensures
        final(s)@ == old(s)@ + seq![digit_char(d as nat)],
{
    if d == 0 { s.append("0"); proof { reveal_strlit("0"); } }
    else if d == 1 { s.append("1"); proof { reveal_strlit("1"); } }
    else if d == 2 { s.append("2"); proof { reveal_strlit("2"); } }
    else if d == 3 { s.append("3"); proof { reveal_strlit("3"); } }
    else if d == 4 { s.append("4"); proof { reveal_strlit("4"); } }
    else if d == 5 { s.append("5"); proof { reveal_strlit("5"); } }
    else if d == 6 { s.append("6"); proof { reveal_strlit("6"); } }
    else if d == 7 { s.append("7"); proof { reveal_strlit("7"); } }
    else if d == 8 { s.append("8"); proof { reveal_strlit("8"); } }
    else { s.append("9"); proof { reveal_strlit("9"); } }
}

/// Append the decimal notation of `v`.
pub fn push_decimal(s: &mut String, v: u128)
    ensures
        final(s)@ == old(s)@ + dec(v as nat),
    decreases v,
{
    if v < 10 {
        push_digit(s, v as u8);
        assert(dec(v as nat) == seq![digit_char(v as nat)]);
    } else {
        push_decimal(s, v / 10);
        push_digit(s, (v % 10) as u8);
        assert(dec(v as nat) == dec((v / 10) as nat) + seq![digit_char((v % 10) as nat)]);
    }
}

/// Decimal notation of `v` as a new string.
pub fn decimal_string(v: u128) -> (r: String)
    ensures
        r@ == dec(v as nat),
{
    let mut s = String::new();
    push_decimal(&mut s, v);
    assert(Seq::<char>::empty() + dec(v as nat) == dec(v as nat));
    s
}

/// Join `parts` with `sep`.
pub fn join_with(parts: &Vec<String>, sep: &str) -> (r: String)
    ensures
        r@ == joined(parts@.map_values(|p: String| p@), sep@),
{
    let ghost views = parts@.map_values(|p: String| p@);
    let mut out = String::new();
    let mut i: usize = 0;
    while i < parts.len()
        invariant
            i <= parts@.len(),
            views == parts@.map_values(|p: String| p@),
            out@ == joined(views.subrange(0, i as int), sep@),
        decreases parts@.len() - i,
    {
        let ghost before = out@;
        if i > 0 {
            out.append(sep);
        }
        out.append(parts[i].as_str());
        proof {
            let sub = views.subrange(0, i + 1);
            assert(sub.drop_last() =~= views.subrange(0, i as int));
            assert(sub.last() == parts@[i as int]@);
            if i == 0 {
                assert(before =~= Seq::<char>::empty());
                assert(out@ =~= sub[0]);
            } else {
                assert(out@ =~= before + sep@ + sub.last());
            }
        }
        i = i + 1;
    }
    assert(views.subrange(0, parts@.len() as int) =~= views);
    out
}

/// A bracketed, comma-separated list of texts.
pub open spec fn list_text(items: Seq<Seq<char>>) -> Seq<char> {
    "["@ + joined(items, ", "@) + "]"@
}

/// A decimal digit character.
pub open spec fn is_digit(c: char) -> bool {
    c == '0' || c == '1' || c == '2' || c == '3' || c == '4'
    || c == '5' || c == '6' || c == '7' || c == '8' || c == '9'
}

/// The value of a digit character.
pub open spec fn digit_value(c: char) -> nat {
    if c == '1' { 1 } else if c == '2' { 2 } else if c == '3' { 3 } else if c == '4' { 4 }
    else if c == '5' { 5 } else if c == '6' { 6 } else if c == '7' { 7 } else if c == '8' { 8 }
    else if c == '9' { 9 } else { 0 }
}

/// The number a string of digits denotes.
pub open spec fn digits_value(s: Seq<char>) -> nat
    decreases s.len(),
{
    if s.len() == 0 { 0 } else { digits_value(s.drop_last()) * 10 + digit_value(s.last()) }
}

/// How many digits a text starts with.
pub open spec fn digit_run(s: Seq<char>) -> nat
    decreases s.len(),
{
    if s.len() > 0 && is_digit(s[0]) { 1 + digit_run(s.drop_first()) } else { 0 }
}

/// A text that starts with a character other than a digit.
pub open spec fn starts_off_digit(t: Seq<char>) -> bool {
    t.len() > 0 && !is_digit(t[0])
}

proof fn lemma_digit_char_value(d: nat)
    requires
        d < 10,
    ensures
        is_digit(digit_char(d)),
        digit_value(digit_char(d)) == d,
{
}

/// `dec(v)` is a nonempty run of digits that denotes `v`.
proof fn lemma_dec_digits(v: nat)
    ensures
        dec(v).len() > 0,
        forall|i: int| 0 <= i < dec(v).len() ==> is_digit(#[trigger] dec(v)[i]),
        digits_value(dec(v)) == v,
    decreases v,
{
    if v < 10 {
        lemma_digit_char_value(v);
        assert(dec(v).drop_last() =~= Seq::<char>::empty());
        assert(dec(v).last() == digit_char(v));
        assert(digits_value(Seq::<char>::empty()) == 0);
        assert(digits_value(dec(v)) == digits_value(dec(v).drop_last()) * 10 + digit_value(dec(v).last()));
    } else {
        lemma_dec_digits(v / 10);
        let d = dec(v);
        assert(d.drop_last() =~= dec(v / 10));
        assert(d.last() == digit_char(v % 10));
        lemma_digit_char_value(v % 10);
        vstd::arithmetic::div_mod::lemma_fundamental_div_mod(v as int, 10);
        assert(digits_value(d) == digits_value(dec(v / 10)) * 10 + (v % 10));
        assert forall|i: int| 0 <= i < d.len() implies is_digit(#[trigger] d[i]) by {
            if i < dec(v / 10).len() {
                assert(d[i] == dec(v / 10)[i]);
            }
        }
    }
}

proof fn lemma_digit_run_concat(a: Seq<char>, t: Seq<char>)
    requires
        forall|i: int| 0 <= i < a.len() ==> is_digit(#[trigger] a[i]),
        starts_off_digit(t),
    ensures
        digit_run(a + t) == a.len(),
    decreases a.len(),
{
    if a.len() == 0 {
        assert(a + t =~= t);
    } else {
        assert((a + t)[0] == a[0]);
        assert((a + t).drop_first() =~= a.drop_first() + t);
        assert forall|i: int| 0 <= i < a.drop_first().len() implies is_digit(#[trigger] a.drop_first()[i]) by {
            assert(a.drop_first()[i] == a[i + 1]);
        }
        lemma_digit_run_concat(a.drop_first(), t);
    }
}

/// A decimal followed by a non-digit determines both the number and what
/// follows it.
pub proof fn lemma_dec_prefix_unique(x: nat, y: nat, t1: Seq<char>, t2: Seq<char>)
    requires
        dec(x) + t1 == dec(y) + t2,
        starts_off_digit(t1),
        starts_off_digit(t2),
    ensures
        x == y,
        t1 == t2,
{
    lemma_dec_digits(x);
    lemma_dec_digits(y);
    lemma_digit_run_concat(dec(x), t1);
    lemma_digit_run_concat(dec(y), t2);
    let k = dec(x).len() as int;
    assert(dec(x) =~= (dec(x) + t1).subrange(0, k));
    assert(dec(y) =~= (dec(y) + t2).subrange(0, k));
    assert(t1 =~= (dec(x) + t1).subrange(k, (dec(x) + t1).len() as int));
    assert(t2 =~= (dec(y) + t2).subrange(k, (dec(y) + t2).len() as int));
}

/// `p + x == p + y` gives `x == y`.
pub proof fn lemma_strip_prefix(p: Seq<char>, x: Seq<char>, y: Seq<char>)
    requires
        p + x == p + y,
    ensures
        x == y,
{
    assert(x =~= (p + x).subrange(p.len() as int, (p + x).len() as int));
    assert(y =~= (p + y).subrange(p.len() as int, (p + y).len() as int));
}

/// A text that starts with a list separator or a closing bracket.
pub open spec fn delimited(t: Seq<char>) -> bool {
    t.len() > 0 && (t[0] == ',' || t[0] == ']')
}

/// Rendering `f` can be read back: every text is nonempty and starts with
/// neither a separator nor a closing bracket, and a text followed by a
/// delimiter determines the value and what follows.
pub open spec fn self_delimiting<T>(f: spec_fn(T) -> Seq<char>) -> bool {
    &&& forall|x: T| #[trigger] f(x).len() > 0 && f(x)[0] != ',' && f(x)[0] != ']'
    &&& forall|x: T, y: T, t1: Seq<char>, t2: Seq<char>| #![trigger f(x) + t1, f(y) + t2]
        f(x) + t1 == f(y) + t2 && delimited(t1) && delimited(t2) ==> x == y && t1 == t2
}

/// `joined` read from the left.
proof fn lemma_joined_cons(parts: Seq<Seq<char>>, sep: Seq<char>)
    requires
        parts.len() >= 2,
    ensures
        joined(parts, sep) == parts[0] + (sep + joined(parts.drop_first(), sep)),
    decreases parts.len(),
{
    reveal_with_fuel(joined, 2);
    if parts.len() == 2 {
        assert(parts.drop_last().len() == 1);
        assert(parts.drop_first().len() == 1);
        assert(joined(parts.drop_first(), sep) == parts[1]);
        assert(joined(parts, sep) =~= parts[0] + (sep + joined(parts.drop_first(), sep)));
    } else {
        lemma_joined_cons(parts.drop_last(), sep);
        assert(parts.drop_last().drop_first() =~= parts.drop_first().drop_last());
        assert(parts.drop_first().last() == parts.last());
        assert(joined(parts, sep) =~= parts[0] + (sep + joined(parts.drop_first(), sep)));
    }
}

/// The items of a joined list, and what follows its closing bracket, can be
/// read back.
proof fn lemma_joined_unique<T>(f: spec_fn(T) -> Seq<char>, v1: Seq<T>, v2: Seq<T>, t1: Seq<char>, t2: Seq<char>)
    requires
        self_delimiting(f),
        joined(v1.map_values(f), ", "@) + ("]"@ + t1) == joined(v2.map_values(f), ", "@) + ("]"@ + t2),
    ensures
        v1 == v2,
        t1 == t2,
    decreases v1.len(),
{
    reveal_strlit("]");
    reveal_strlit(", ");
    let m1 = v1.map_values(f);
    let m2 = v2.map_values(f);
    let r1 = "]"@ + t1;
    let r2 = "]"@ + t2;
    if v1.len() == 0 && v2.len() == 0 {
        assert(joined(m1, ", "@) =~= Seq::<char>::empty());
        assert(joined(m2, ", "@) =~= Seq::<char>::empty());
        assert(r1 =~= joined(m1, ", "@) + r1);
        assert(r2 =~= joined(m2, ", "@) + r2);
        lemma_strip_prefix("]"@, t1, t2);
        assert(v1 =~= v2);
    } else if v1.len() == 0 || v2.len() == 0 {
        let (v, r, mo, ro) = if v1.len() == 0 { (v2, r2, m1, r1) } else { (v1, r1, m2, r2) };
        let m = v.map_values(f);
        assert(joined(mo, ", "@) =~= Seq::<char>::empty());
        assert(joined(mo, ", "@) + ro =~= ro);
        assert(f(v[0]).len() > 0 && f(v[0])[0] != ']');
        if v.len() == 1 {
            assert(joined(m, ", "@) == m[0]);
        } else {
            lemma_joined_cons(m, ", "@);
        }
        assert((joined(m, ", "@) + r)[0] == f(v[0])[0]);
        assert(ro[0] == ']');
    } else {
        let s1 = if v1.len() == 1 { r1 } else { ", "@ + (joined(m1.drop_first(), ", "@) + r1) };
        let s2 = if v2.len() == 1 { r2 } else { ", "@ + (joined(m2.drop_first(), ", "@) + r2) };
        if v1.len() == 1 {
            assert(joined(m1, ", "@) == m1[0]);
        } else {
            lemma_joined_cons(m1, ", "@);
        }
        if v2.len() == 1 {
            assert(joined(m2, ", "@) == m2[0]);
        } else {
            lemma_joined_cons(m2, ", "@);
        }
        assert(joined(m1, ", "@) + r1 =~= f(v1[0]) + s1);
        assert(joined(m2, ", "@) + r2 =~= f(v2[0]) + s2);
        assert(delimited(s1) && delimited(s2));
        assert(v1[0] == v2[0] && s1 == s2);
        if v1.len() == 1 || v2.len() == 1 {
            assert(v1.len() == 1 && v2.len() == 1);
            lemma_strip_prefix("]"@, t1, t2);
            assert(v1 =~= v2);
        } else {
            lemma_strip_prefix(", "@, joined(m1.drop_first(), ", "@) + r1, joined(m2.drop_first(), ", "@) + r2);
            assert(m1.drop_first() =~= v1.drop_first().map_values(f));
            assert(m2.drop_first() =~= v2.drop_first().map_values(f));
            lemma_joined_unique(f, v1.drop_first(), v2.drop_first(), t1, t2);
            assert(v1 =~= seq![v1[0]] + v1.drop_first());
            assert(v2 =~= seq![v2[0]] + v2.drop_first());
        }
    }
}

/// A bracketed list followed by anything can be read back: the items and
/// the rest.
pub proof fn lemma_list_text_unique<T>(f: spec_fn(T) -> Seq<char>, v1: Seq<T>, v2: Seq<T>, t1: Seq<char>, t2: Seq<char>)
    requires
        self_delimiting(f),
        list_text(v1.map_values(f)) + t1 == list_text(v2.map_values(f)) + t2,
    ensures
        v1 == v2,
        t1 == t2,
{
    let j1 = joined(v1.map_values(f), ", "@);
    let j2 = joined(v2.map_values(f), ", "@);
    assert(list_text(v1.map_values(f)) + t1 =~= "["@ + (j1 + ("]"@ + t1)));
    assert(list_text(v2.map_values(f)) + t2 =~= "["@ + (j2 + ("]"@ + t2)));
    lemma_strip_prefix("["@, j1 + ("]"@ + t1), j2 + ("]"@ + t2));
    lemma_joined_unique(f, v1, v2, t1, t2);
}

/// Decimals can be read back out of a list.
pub proof fn lemma_dec_self_delimiting()
    ensures
        self_delimiting(|x: u128| dec(x as nat)),
{
    let f = |x: u128| dec(x as nat);
    assert forall|x: u128| #[trigger] f(x).len() > 0 && f(x)[0] != ',' && f(x)[0] != ']' by {
        lemma_dec_digits(x as nat);
        assert(is_digit(dec(x as nat)[0]));
    }
    assert forall|x: u128, y: u128, t1: Seq<char>, t2: Seq<char>|
        #![trigger f(x) + t1, f(y) + t2]
        f(x) + t1 == f(y) + t2 && delimited(t1) && delimited(t2) implies x == y && t1 == t2 by {
        lemma_dec_prefix_unique(x as nat, y as nat, t1, t2);
    }
}

/// `[a, b, ...]` from the given item strings.
pub fn bracket_list(items: &Vec<String>) -> (r: String)
    ensures
        r@ == list_text(items@.map_values(|p: String| p@)),
{
    let inner = join_with(items, ", ");
    let mut out = String::from_str("[");
    out.append(inner.as_str());
    out.append("]");
    out
}

/// The decimal texts of a word list.
pub fn decimals(v: &Vec<u128>) -> (r: Vec<String>)
    ensures
        r@.map_values(|p: String| p@) == v@.map_values(|x: u128| dec(x as nat)),
{
    let mut out: Vec<String> = Vec::new();
    let mut k: usize = 0;
    while k < v.len()
        invariant
            k <= v@.len(),
            out@.map_values(|p: String| p@) == v@.subrange(0, k as int).map_values(|x: u128| dec(x as nat)),
        decreases v@.len() - k,
    {
        let ghost before = out@;
        let d = decimal_string(v[k]);
        out.push(d);
        proof {
            let lhs = out@.map_values(|p: String| p@);
            let rhs = v@.subrange(0, k + 1).map_values(|x: u128| dec(x as nat));
            let prev = before.map_values(|p: String| p@);
            assert(prev == v@.subrange(0, k as int).map_values(|x: u128| dec(x as nat)));
            assert(prev.len() == before.len());
            assert(v@.subrange(0, k as int).map_values(|x: u128| dec(x as nat)).len() == k);
            assert(out@.len() == before.len() + 1);
            assert(lhs.len() == rhs.len());
            assert forall|j: int| 0 <= j < lhs.len() implies lhs[j] == rhs[j] by {
                if j < before.len() {
                    assert(out@[j] == before[j]);
                    assert(lhs[j] == prev[j]);
                } else {
                    assert(out@[j] == d);
                    assert(v@.subrange(0, k + 1)[j] == v@[k as int]);
                }
            }
            assert(lhs =~= rhs);
        }
        k = k + 1;
    }
    assert(v@.subrange(0, v@.len() as int) =~= v@);
    out
}


/// Decimal notation of a signed integer.
pub open spec fn sdec(v: int) -> Seq<char> {
    if v < 0 { "-"@ + dec((-v) as nat) } else { dec(v as nat) }
}

/// Append the decimal notation of a signed integer.
pub fn push_signed_decimal(s: &mut String, v: i64)
    ensures
        final(s)@ == old(s)@ + sdec(v as int),
{
    if v < 0 {
        s.append("-");
        let m: u128 = (0i128 - (v as i128)) as u128;
        push_decimal(s, m);
    } else {
        push_decimal(s, v as u128);
    }
}

} // verus!
