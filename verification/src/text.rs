//! Character-level building blocks shared by every module: whitespace, ASCII
//! classes, trimming, splitting, decimal digits and lexicographic order, each
//! with the mathematical definition the other modules' contracts are written in.

use vstd::prelude::*;

verus! {

/// Unicode `White_Space` (what `char::is_whitespace` tests).
pub open spec fn is_ws(c: char) -> bool {
    ||| ('\t' <= c && c <= '\r')
    ||| c == ' '
    ||| c == '\u{85}'
    ||| c == '\u{a0}'
    ||| c == '\u{1680}'
    ||| ('\u{2000}' <= c && c <= '\u{200a}')
    ||| c == '\u{2028}'
    ||| c == '\u{2029}'
    ||| c == '\u{202f}'
    ||| c == '\u{205f}'
    ||| c == '\u{3000}'
}

pub open spec fn is_digit(c: char) -> bool {
    '0' <= c && c <= '9'
}

pub open spec fn is_alpha(c: char) -> bool {
    ('a' <= c && c <= 'z') || ('A' <= c && c <= 'Z')
}

pub open spec fn is_alnum(c: char) -> bool {
    is_alpha(c) || is_digit(c)
}

pub fn is_whitespace(c: char) -> (b: bool)
    ensures
        b == is_ws(c),
{
    ('\t' <= c && c <= '\r') || c == ' ' || c == '\u{85}' || c == '\u{a0}' || c == '\u{1680}' || (
    '\u{2000}' <= c && c <= '\u{200a}') || c == '\u{2028}' || c == '\u{2029}' || c == '\u{202f}'
        || c == '\u{205f}' || c == '\u{3000}'
}

pub fn is_ascii_digit(c: char) -> (b: bool)
    ensures
        b == is_digit(c),
{
    '0' <= c && c <= '9'
}

pub fn is_ascii_alpha(c: char) -> (b: bool)
    ensures
        b == is_alpha(c),
{
    ('a' <= c && c <= 'z') || ('A' <= c && c <= 'Z')
}

pub fn is_ascii_alnum(c: char) -> (b: bool)
    ensures
        b == is_alnum(c),
{
    is_ascii_alpha(c) || is_ascii_digit(c)
}

/// Appends one character to a string (`String::push`).
#[verifier::external_body]
pub(crate) fn push_char(s: &mut String, c: char)
    ensures
        final(s)@ == old(s)@.push(c),
{
    s.push(c);
}

/// The characters of a string slice, in order.
pub fn chars_of(s: &str) -> (out: Vec<char>)
    ensures
        out@ == s@,
{
    let mut out: Vec<char> = Vec::new();
    for c in it: s.chars()
        invariant
            out@ == it.seq().take(it.index() as int),
    {
        out.push(c);
    }
    out
}

/// The string spelled by a sequence of characters.
pub fn string_of(v: &Vec<char>) -> (out: String)
    ensures
        out@ == v@,
{
    let mut out = String::new();
    let mut i: usize = 0;
    while i < v.len()
        invariant
            i <= v.len(),
            out@ == v@.take(i as int),
        decreases v.len() - i,
    {
        push_char(&mut out, v[i]);
        assert(v@.take(i + 1) == v@.take(i as int).push(v@[i as int]));
        i = i + 1;
    }
    assert(v@.take(v.len() as int) == v@);
    out
}

/// Appends every character of `t` to `s`.
pub fn push_str(s: &mut String, t: &str)
    ensures
        final(s)@ == old(s)@ + t@,
{
    let v = chars_of(t);
    let mut i: usize = 0;
    while i < v.len()
        invariant
            i <= v.len(),
            v@ == t@,
            s@ == old(s)@ + v@.take(i as int),
        decreases v.len() - i,
    {
        push_char(s, v[i]);
        assert(v@.take(i + 1) == v@.take(i as int).push(v@[i as int]));
        i = i + 1;
    }
    assert(v@.take(v.len() as int) == v@);
}

/// Appends every character of `v` to `s`.
pub fn push_chars(s: &mut String, v: &Vec<char>)
    ensures
        final(s)@ == old(s)@ + v@,
{
    let mut i: usize = 0;
    while i < v.len()
        invariant
            i <= v.len(),
            s@ == old(s)@ + v@.take(i as int),
        decreases v.len() - i,
    {
        push_char(s, v[i]);
        assert(v@.take(i + 1) == v@.take(i as int).push(v@[i as int]));
        i = i + 1;
    }
    assert(v@.take(v.len() as int) == v@);
}

/// Do two strings hold the same characters?
pub fn str_eq(a: &str, b: &str) -> (r: bool)
    ensures
        r == (a@ == b@),
{
    let x = chars_of(a);
    let y = chars_of(b);
    chars_eq(&x, &y)
}

pub fn chars_eq(x: &Vec<char>, y: &Vec<char>) -> (r: bool)
    ensures
        r == (x@ == y@),
{
    if x.len() != y.len() {
        return false;
    }
    let mut i: usize = 0;
    while i < x.len()
        invariant
            x.len() == y.len(),
            i <= x.len(),
            forall|j: int| 0 <= j < i ==> x@[j] == y@[j],
        decreases x.len() - i,
    {
        if x[i] != y[i] {
            return false;
        }
        i = i + 1;
    }
    assert(x@ == y@);
    true
}

/// Does `s` begin with `p`?
pub open spec fn starts_with(s: Seq<char>, p: Seq<char>) -> bool {
    p.len() <= s.len() && s.take(p.len() as int) == p
}

pub fn chars_start_with(s: &Vec<char>, p: &Vec<char>) -> (r: bool)
    ensures
        r == starts_with(s@, p@),
{
    if p.len() > s.len() {
        return false;
    }
    let mut i: usize = 0;
    while i < p.len()
        invariant
            p.len() <= s.len(),
            i <= p.len(),
            forall|j: int| 0 <= j < i ==> s@[j] == p@[j],
        decreases p.len() - i,
    {
        if s[i] != p[i] {
            assert(s@.take(p.len() as int)[i as int] != p@[i as int]);
            return false;
        }
        i = i + 1;
    }
    assert(s@.take(p.len() as int) == p@);
    true
}

pub fn str_starts_with(s: &str, p: &str) -> (r: bool)
    ensures
        r == starts_with(s@, p@),
{
    let a = chars_of(s);
    let b = chars_of(p);
    chars_start_with(&a, &b)
}

/// Leading whitespace removed (`str::trim_start`).
pub open spec fn trim_start(s: Seq<char>) -> Seq<char>
    decreases s.len(),
{
    if s.len() > 0 && is_ws(s[0]) {
        trim_start(s.drop_first())
    } else {
        s
    }
}

/// Trailing whitespace removed (`str::trim_end`).
pub open spec fn trim_end(s: Seq<char>) -> Seq<char>
    decreases s.len(),
{
    if s.len() > 0 && is_ws(s.last()) {
        trim_end(s.drop_last())
    } else {
        s
    }
}

/// Whitespace removed at both ends (`str::trim`).
pub open spec fn trim(s: Seq<char>) -> Seq<char> {
    trim_end(trim_start(s))
}

pub fn trim_chars(v: &Vec<char>) -> (out: Vec<char>)
    ensures
        out@ == trim(v@),
{
    let n = v.len();
    let mut i: usize = 0;
    assert(v@.subrange(0, n as int) == v@);
    while i < n && is_whitespace(v[i])
        invariant
            n == v.len(),
            i <= n,
            trim_start(v@) == trim_start(v@.subrange(i as int, n as int)),
        decreases n - i,
    {
        assert(v@.subrange(i as int, n as int).drop_first() == v@.subrange(i + 1, n as int));
        i = i + 1;
    }
    assert(trim_start(v@) == v@.subrange(i as int, n as int));
    let mut j: usize = n;
    while j > i && is_whitespace(v[j - 1])
        invariant
            n == v.len(),
            i <= j <= n,
            trim(v@) == trim_end(v@.subrange(i as int, j as int)),
        decreases j,
    {
        assert(v@.subrange(i as int, j as int).drop_last() == v@.subrange(i as int, j - 1));
        j = j - 1;
    }
    let mut out: Vec<char> = Vec::new();
    let mut k: usize = i;
    while k < j
        invariant
            n == v.len(),
            i <= k <= j <= n,
            out@ == v@.subrange(i as int, k as int),
        decreases j - k,
    {
        out.push(v[k]);
        assert(v@.subrange(i as int, k + 1) == v@.subrange(i as int, k as int).push(v@[k as int]));
        k = k + 1;
    }
    out
}

pub fn trim_str(s: &str) -> (out: Vec<char>)
    ensures
        out@ == trim(s@),
{
    let v = chars_of(s);
    trim_chars(&v)
}

/// The pieces of `s` between occurrences of `sep` (`str::split(sep)`): always at
/// least one piece, empty pieces kept.
pub open spec fn split_on(s: Seq<char>, sep: char) -> Seq<Seq<char>>
    decreases s.len(),
{
    if s.len() == 0 {
        seq![Seq::<char>::empty()]
    } else {
        let rest = split_on(s.drop_last(), sep);
        if s.last() == sep {
            rest.push(Seq::<char>::empty())
        } else {
            rest.update(rest.len() - 1, rest.last().push(s.last()))
        }
    }
}

pub proof fn lemma_split_on_nonempty(s: Seq<char>, sep: char)
    ensures
        split_on(s, sep).len() >= 1,
    decreases s.len(),
{
    if s.len() > 0 {
        lemma_split_on_nonempty(s.drop_last(), sep);
    }
}

/// Appending text without a separator extends the last piece.
proof fn lemma_split_append(s: Seq<char>, t: Seq<char>, sep: char)
    requires
        forall|k: int| 0 <= k < t.len() ==> #[trigger] t[k] != sep,
    ensures
        split_on(s + t, sep) == split_on(s, sep).update(split_on(s, sep).len() - 1, split_on(s, sep).last() + t),
    decreases t.len(),
{
    lemma_split_on_nonempty(s, sep);
    if t.len() == 0 {
        assert(s + t == s);
        assert(split_on(s, sep).last() + t == split_on(s, sep).last());
        assert(split_on(s, sep).update(split_on(s, sep).len() - 1, split_on(s, sep).last()) == split_on(s, sep));
    } else {
        let tp = t.drop_last();
        assert forall|k: int| 0 <= k < tp.len() implies #[trigger] tp[k] != sep by {
            assert(tp[k] == t[k]);
        }
        lemma_split_append(s, tp, sep);
        assert((s + t).drop_last() == s + tp);
        assert((s + t).last() == t.last());
        assert(t.last() != sep) by {
            assert(t[t.len() - 1] == t.last());
        }
        let r = split_on(s, sep);
        let rp = r.update(r.len() - 1, r.last() + tp);
        assert(rp.len() == r.len());
        assert(rp.last() == r.last() + tp);
        assert(rp.last().push(t.last()) =~= r.last() + t) by {
            assert(t == tp.push(t.last()));
        }
        assert(rp.update(rp.len() - 1, rp.last().push(t.last())) =~= r.update(r.len() - 1, r.last() + t));
    }
}

/// Splitting pieces joined by a separator they do not contain gives them back.
pub proof fn lemma_split_join(parts: Seq<Seq<char>>, sep: char)
    requires
        parts.len() > 0,
        forall|p: int, k: int| 0 <= p < parts.len() && 0 <= k < parts[p].len() ==> #[trigger] parts[p][k] != sep,
    ensures
        split_on(join(parts, seq![sep]), sep) == parts,
    decreases parts.len(),
{
    let last = parts.last();
    assert forall|k: int| 0 <= k < last.len() implies #[trigger] last[k] != sep by {
        assert(parts[parts.len() - 1][k] != sep);
    }
    if parts.len() == 1 {
        lemma_split_append(Seq::<char>::empty(), last, sep);
        assert(Seq::<char>::empty() + last == last);
        assert(split_on(Seq::<char>::empty(), sep) == seq![Seq::<char>::empty()]);
        assert(seq![Seq::<char>::empty()].update(0, Seq::<char>::empty() + last) =~= parts);
    } else {
        let init = parts.drop_last();
        assert forall|p: int, k: int| 0 <= p < init.len() && 0 <= k < init[p].len() implies #[trigger] init[p][k] != sep by {
            assert(init[p] == parts[p]);
        }
        lemma_split_join(init, sep);
        let j = join(init, seq![sep]) + seq![sep];
        assert(j.drop_last() == join(init, seq![sep]));
        assert(j.last() == sep);
        assert(split_on(j, sep) == init.push(Seq::<char>::empty()));
        lemma_split_append(j, last, sep);
        assert(join(parts, seq![sep]) == j + last);
        assert(init.push(Seq::<char>::empty()).update(init.len() as int, Seq::<char>::empty() + last) =~= parts);
    }
}

/// A property of every character of a text holds of every character of its pieces.
pub proof fn lemma_split_on_all(s: Seq<char>, sep: char, p: spec_fn(char) -> bool)
    requires
        forall|i: int| 0 <= i < s.len() ==> p(#[trigger] s[i]),
    ensures
        forall|k: int, i: int| 0 <= k < split_on(s, sep).len() && 0 <= i < split_on(s, sep)[k].len() ==> p(#[trigger] split_on(s, sep)[k][i]),
    decreases s.len(),
{
    if s.len() > 0 {
        let sp = s.drop_last();
        assert forall|i: int| 0 <= i < sp.len() implies p(#[trigger] sp[i]) by {
            assert(sp[i] == s[i]);
        }
        lemma_split_on_all(sp, sep, p);
        lemma_split_on_nonempty(sp, sep);
        let rest = split_on(sp, sep);
        assert(p(s[s.len() - 1]));
        let r = split_on(s, sep);
        assert forall|k: int, i: int| 0 <= k < r.len() && 0 <= i < r[k].len() implies p(#[trigger] r[k][i]) by {
            if s.last() == sep {
                if k < rest.len() {
                    assert(r[k] == rest[k]);
                }
            } else if k < rest.len() - 1 {
                assert(r[k] == rest[k]);
            } else {
                assert(r[k] == rest.last().push(s.last()));
                if i < rest.last().len() {
                    assert(r[k][i] == rest[k][i]);
                }
            }
        }
    }
}

/// A property of every character of a text holds of every character kept by a
/// filter.
pub proof fn lemma_filter_all(s: Seq<char>, f: spec_fn(char) -> bool, p: spec_fn(char) -> bool)
    requires
        forall|i: int| 0 <= i < s.len() ==> p(#[trigger] s[i]),
    ensures
        forall|j: int| 0 <= j < s.filter(f).len() ==> p(#[trigger] s.filter(f)[j]) && f(s.filter(f)[j]),
    decreases s.len(),
{
    reveal_with_fuel(Seq::<_>::filter, 1);
    if s.len() > 0 {
        let sp = s.drop_last();
        assert forall|i: int| 0 <= i < sp.len() implies p(#[trigger] sp[i]) by {
            assert(sp[i] == s[i]);
        }
        lemma_filter_all(sp, f, p);
        assert(sp.push(s.last()) == s);
        sp.lemma_filter_push(s.last(), f);
        assert(p(s[s.len() - 1]));
    }
}

/// A property of every character of the parts and of the separator holds of
/// every character of their join.
pub proof fn lemma_join_all(parts: Seq<Seq<char>>, sep: Seq<char>, p: spec_fn(char) -> bool)
    requires
        forall|k: int, i: int| 0 <= k < parts.len() && 0 <= i < parts[k].len() ==> p(#[trigger] parts[k][i]),
        forall|i: int| 0 <= i < sep.len() ==> p(#[trigger] sep[i]),
    ensures
        forall|i: int| 0 <= i < join(parts, sep).len() ==> p(#[trigger] join(parts, sep)[i]),
    decreases parts.len(),
{
    if parts.len() == 1 {
        assert forall|i: int| 0 <= i < join(parts, sep).len() implies p(#[trigger] join(parts, sep)[i]) by {
            assert(join(parts, sep)[i] == parts[0][i]);
        }
    } else if parts.len() > 1 {
        let init = parts.drop_last();
        assert forall|k: int, i: int| 0 <= k < init.len() && 0 <= i < init[k].len() implies p(#[trigger] init[k][i]) by {
            assert(init[k] == parts[k]);
        }
        lemma_join_all(init, sep, p);
        let a = join(init, sep);
        let last = parts.last();
        assert forall|i: int| 0 <= i < join(parts, sep).len() implies p(#[trigger] join(parts, sep)[i]) by {
            let j = join(parts, sep);
            assert(j == a + sep + last);
            if i < a.len() {
                assert(j[i] == a[i]);
            } else if i < a.len() + sep.len() {
                assert(j[i] == sep[i - a.len()]);
            } else {
                assert(j[i] == last[i - a.len() - sep.len()]);
                assert(parts[parts.len() - 1][i - a.len() - sep.len()] == last[i - a.len() - sep.len()]);
            }
        }
    }
}

/// `join` starts with the first part.
pub proof fn lemma_join_first(parts: Seq<Seq<char>>, sep: Seq<char>)
    requires
        parts.len() > 0,
        parts[0].len() > 0,
    ensures
        join(parts, sep).len() > 0,
        join(parts, sep)[0] == parts[0][0],
    decreases parts.len(),
{
    if parts.len() > 1 {
        let init = parts.drop_last();
        assert(init[0] == parts[0]);
        lemma_join_first(init, sep);
        let j = join(parts, sep);
        assert(j == join(init, sep) + sep + parts.last());
        assert(j[0] == join(init, sep)[0]);
    }
}

/// Where `c` stands in `s`, in increasing order.
pub open spec fn positions_of(s: Seq<char>, c: char) -> Seq<int>
    decreases s.len(),
{
    if s.len() == 0 {
        Seq::empty()
    } else {
        let r = positions_of(s.drop_last(), c);
        if s.last() == c {
            r.push(s.len() - 1)
        } else {
            r
        }
    }
}

/// Joining the pieces back with the separator gives the text.
pub proof fn lemma_join_split(s: Seq<char>, sep: char)
    ensures
        join(split_on(s, sep), seq![sep]) == s,
    decreases s.len(),
{
    if s.len() > 0 {
        let sp = s.drop_last();
        lemma_join_split(sp, sep);
        lemma_split_on_nonempty(sp, sep);
        let r = split_on(sp, sep);
        if s.last() == sep {
            assert(r.push(Seq::<char>::empty()).drop_last() == r);
            assert(join(r.push(Seq::<char>::empty()), seq![sep]) == sp + seq![sep] + Seq::<char>::empty());
            assert(sp + seq![sep] + Seq::<char>::empty() =~= s);
        } else {
            lemma_join_push_last(r, seq![sep], s.last());
            assert(sp.push(s.last()) == s);
        }
    } else {
        assert(split_on(s, sep) == seq![Seq::<char>::empty()]);
    }
}

/// The pieces split at `sep` and the places of `sep`: one piece more than
/// separators; the first `i + 1` pieces joined are the text before the `i`-th
/// separator; the places increase, each holds `sep`, and every `sep` is at one
/// of them; there are as many as `sep` occurs.
pub proof fn lemma_split_positions(s: Seq<char>, sep: char)
    ensures
        split_on(s, sep).len() == positions_of(s, sep).len() + 1,
        forall|i: int|
            0 <= i < positions_of(s, sep).len() ==> join(#[trigger] split_on(s, sep).take(i + 1), seq![sep]) == s.take(
                positions_of(s, sep)[i],
            ),
        forall|i: int|
            0 <= i < positions_of(s, sep).len() ==> 0 <= #[trigger] positions_of(s, sep)[i] < s.len() && s[positions_of(
                s,
                sep,
            )[i]] == sep,
        forall|i: int, j: int|
            0 <= i < j < positions_of(s, sep).len() ==> #[trigger] positions_of(s, sep)[i] < #[trigger] positions_of(
                s,
                sep,
            )[j],
        forall|p: int| 0 <= p < s.len() && #[trigger] s[p] == sep ==> positions_of(s, sep).contains(p),
        positions_of(s, sep).len() == s.filter(|x: char| x == sep).len(),
    decreases s.len(),
{
    reveal_with_fuel(Seq::<_>::filter, 1);
    if s.len() == 0 {
        assert(split_on(s, sep) == seq![Seq::<char>::empty()]);
        assert(s.filter(|x: char| x == sep) =~= Seq::<char>::empty());
    } else {
        let sp = s.drop_last();
        lemma_split_positions(sp, sep);
        lemma_split_on_nonempty(sp, sep);
        let r = split_on(sp, sep);
        let d = positions_of(sp, sep);
        let ds = positions_of(s, sep);
        let rs = split_on(s, sep);
        assert(sp.push(s.last()) == s);
        sp.lemma_filter_push(s.last(), |x: char| x == sep);
        assert forall|i: int| 0 <= i < d.len() implies #[trigger] rs.take(i + 1) == r.take(i + 1) by {
            assert(rs.take(i + 1) =~= r.take(i + 1));
        }
        assert forall|i: int| 0 <= i < d.len() implies sp.take(d[i]) == s.take(d[i]) by {
            assert(sp.take(d[i]) =~= s.take(d[i]));
        }
        if s.last() == sep {
            lemma_join_split(sp, sep);
            assert(rs.take(d.len() + 1 as int) =~= r);
            assert(s.take(sp.len() as int) =~= sp);
        }
        assert forall|i: int|
            0 <= i < ds.len() implies join(#[trigger] rs.take(i + 1), seq![sep]) == s.take(ds[i]) by {
            if i < d.len() {
                assert(ds[i] == d[i]);
                assert(join(r.take(i + 1), seq![sep]) == sp.take(d[i]));
            }
        }
        assert forall|i: int| 0 <= i < ds.len() implies 0 <= #[trigger] ds[i] < s.len() && s[ds[i]] == sep by {
            if i < d.len() {
                assert(ds[i] == d[i]);
                assert(s[d[i]] == sp[d[i]]);
            }
        }
        assert forall|i: int, j: int| 0 <= i < j < ds.len() implies #[trigger] ds[i] < #[trigger] ds[j] by {
            assert(ds[i] == d[i]);
            if j < d.len() {
                assert(ds[j] == d[j]);
            }
        }
        assert forall|p: int| 0 <= p < s.len() && #[trigger] s[p] == sep implies ds.contains(p) by {
            if p < sp.len() {
                assert(sp[p] == sep);
                let k = choose|k: int| 0 <= k < d.len() && d[k] == p;
                assert(ds[k] == p);
            } else {
                assert(ds[ds.len() - 1] == p);
            }
        }
    }
}

pub fn split_chars(v: &Vec<char>, sep: char) -> (out: Vec<Vec<char>>)
    ensures
        out@.len() == split_on(v@, sep).len(),
        forall|k: int| 0 <= k < out@.len() ==> #[trigger] out@[k]@ == split_on(v@, sep)[k],
{
    let mut out: Vec<Vec<char>> = Vec::new();
    let mut cur: Vec<char> = Vec::new();
    let mut i: usize = 0;
    assert(v@.take(0) == Seq::<char>::empty());
    while i < v.len()
        invariant
            i <= v.len(),
            out@.len() + 1 == split_on(v@.take(i as int), sep).len(),
            forall|k: int| 0 <= k < out@.len() ==> #[trigger] out@[k]@ == split_on(v@.take(i as int), sep)[k],
            cur@ == split_on(v@.take(i as int), sep).last(),
        decreases v.len() - i,
    {
        let ghost pre = v@.take(i as int);
        assert(v@.take(i + 1).drop_last() == pre);
        proof { lemma_split_on_nonempty(pre, sep); }
        if v[i] == sep {
            let done = cur;
            out.push(done);
            cur = Vec::new();
        } else {
            cur.push(v[i]);
        }
        i = i + 1;
    }
    assert(v@.take(v.len() as int) == v@);
    out.push(cur);
    out
}

/// The non-empty whitespace-separated words of `s` (`str::split_whitespace`).
pub open spec fn words(s: Seq<char>) -> Seq<Seq<char>>
    decreases s.len(),
{
    if s.len() == 0 {
        Seq::empty()
    } else {
        let rest = words(s.drop_last());
        if is_ws(s.last()) {
            rest
        } else if s.len() >= 2 && !is_ws(s[s.len() - 2]) {
            rest.update(rest.len() - 1, rest.last().push(s.last()))
        } else {
            rest.push(seq![s.last()])
        }
    }
}

/// `parts` joined with `sep` between consecutive parts (`join`).
pub open spec fn join(parts: Seq<Seq<char>>, sep: Seq<char>) -> Seq<char>
    decreases parts.len(),
{
    if parts.len() == 0 {
        Seq::empty()
    } else if parts.len() == 1 {
        parts[0]
    } else {
        join(parts.drop_last(), sep) + sep + parts.last()
    }
}

pub proof fn lemma_words_nonempty(s: Seq<char>)
    ensures
        forall|k: int| 0 <= k < words(s).len() ==> #[trigger] words(s)[k].len() > 0,
        s.len() > 0 && !is_ws(s.last()) ==> words(s).len() > 0,
    decreases s.len(),
{
    if s.len() > 0 {
        lemma_words_nonempty(s.drop_last());
        let rest = words(s.drop_last());
        if !is_ws(s.last()) && s.len() >= 2 && !is_ws(s[s.len() - 2]) {
            assert(s.drop_last().last() == s[s.len() - 2]);
        }
    }
}

/// `words(s)` joined by single spaces: whitespace runs collapsed, ends trimmed.
pub open spec fn collapse_ws(s: Seq<char>) -> Seq<char> {
    join(words(s), seq![' '])
}

/// No whitespace at the start, and any whitespace is a single space after a
/// non-space (a trailing space allowed).
pub open spec fn spaced(y: Seq<char>) -> bool {
    forall|i: int| 0 <= i < y.len() && #[trigger] is_ws(y[i]) ==> y[i] == ' ' && i > 0 && !is_ws(y[i - 1])
}

/// What collapsing whitespace gives: single inner spaces, none at the ends.
pub open spec fn collapsed(y: Seq<char>) -> bool {
    spaced(y) && (y.len() == 0 || !is_ws(y.last()))
}

/// Collapsing an already single-spaced text only drops a trailing space.
pub proof fn lemma_collapse_spaced(y: Seq<char>)
    requires
        spaced(y),
    ensures
        collapse_ws(y) == if y.len() > 0 && is_ws(y.last()) {
            y.drop_last()
        } else {
            y
        },
    decreases y.len(),
{
    if y.len() == 0 {
        return;
    }
    let n = y.len() as int;
    let yp = y.drop_last();
    let c = y.last();
    assert(spaced(yp)) by {
        assert forall|i: int| 0 <= i < yp.len() && #[trigger] is_ws(yp[i]) implies yp[i] == ' ' && i > 0 && !is_ws(yp[i - 1]) by {
            assert(yp[i] == y[i]);
            assert(is_ws(y[i]));
            if i > 0 {
                assert(yp[i - 1] == y[i - 1]);
            }
        }
    }
    lemma_collapse_spaced(yp);
    let sp = seq![' '];
    if is_ws(c) {
        assert(is_ws(y[n - 1]));
        assert(!is_ws(y[n - 2]));
        assert(yp.last() == y[n - 2]);
    } else if n >= 2 && !is_ws(y[n - 2]) {
        assert(yp.last() == y[n - 2]);
        lemma_words_nonempty(yp);
        lemma_join_push_last(words(yp), sp, c);
        assert(yp.push(c) == y);
    } else if n == 1 {
        assert(yp.len() == 0);
        assert(words(yp) == Seq::<Seq<char>>::empty());
        assert(words(y) == seq![seq![c]]);
        assert(seq![c] =~= y);
    } else {
        assert(is_ws(y[n - 2]));
        assert(y[n - 2] == ' ');
        assert(!is_ws(y[n - 3]));
        assert(yp.last() == y[n - 2]);
        let ypp = yp.drop_last();
        assert(ypp.last() == y[n - 3]);
        assert(words(yp) == words(ypp));
        lemma_words_nonempty(ypp);
        let rest = words(yp);
        assert(words(y) == rest.push(seq![c]));
        assert(rest.push(seq![c]).drop_last() == rest);
        assert(join(rest.push(seq![c]), sp) == join(rest, sp) + sp + seq![c]);
        assert(join(rest, sp) == ypp);
        assert(ypp + sp + seq![c] =~= y);
    }
}

/// `join` ends with the last part.
pub proof fn lemma_join_ends(parts: Seq<Seq<char>>, sep: Seq<char>)
    requires
        parts.len() > 0,
    ensures
        join(parts, sep).len() >= parts.last().len(),
        parts.last().len() > 0 ==> join(parts, sep).last() == parts.last().last(),
{
    if parts.len() > 1 {
        let j = join(parts.drop_last(), sep) + sep + parts.last();
        assert(j.len() >= parts.last().len());
        if parts.last().len() > 0 {
            assert(j.last() == parts.last().last());
        }
    }
}

/// Collapsing whitespace leaves single inner spaces and clean ends, and keeps
/// only characters of the text or spaces.
pub proof fn lemma_collapse_collapsed(x: Seq<char>, keep: spec_fn(char) -> bool)
    requires
        keep(' '),
        forall|k: int| 0 <= k < x.len() ==> keep(#[trigger] x[k]),
    ensures
        collapsed(collapse_ws(x)),
        forall|k: int| 0 <= k < collapse_ws(x).len() ==> keep(#[trigger] collapse_ws(x)[k]),
    decreases x.len(),
{
    if x.len() == 0 {
        assert(collapse_ws(x) == Seq::<char>::empty());
        return;
    }
    let n = x.len() as int;
    let xp = x.drop_last();
    let c = x.last();
    assert forall|k: int| 0 <= k < xp.len() implies keep(#[trigger] xp[k]) by {
        assert(xp[k] == x[k]);
    }
    lemma_collapse_collapsed(xp, keep);
    let sp = seq![' '];
    let cp = collapse_ws(xp);
    assert(keep(c)) by {
        assert(x[n - 1] == c);
    }
    if is_ws(c) {
        assert(collapse_ws(x) == cp);
    } else if n >= 2 && !is_ws(x[n - 2]) {
        assert(xp.last() == x[n - 2]);
        lemma_words_nonempty(xp);
        lemma_join_push_last(words(xp), sp, c);
        let r = cp.push(c);
        assert(collapse_ws(x) == r);
        assert forall|i: int| 0 <= i < r.len() && #[trigger] is_ws(r[i]) implies r[i] == ' ' && i > 0 && !is_ws(r[i - 1]) by {
            assert(i < cp.len());
            assert(r[i] == cp[i]);
            assert(is_ws(cp[i]));
            assert(r[i - 1] == cp[i - 1]);
        }
        assert forall|k: int| 0 <= k < r.len() implies keep(#[trigger] r[k]) by {
            if k < cp.len() {
                assert(r[k] == cp[k]);
            }
        }
    } else {
        let rest = words(xp);
        assert(words(x) == rest.push(seq![c]));
        if rest.len() == 0 {
            assert(join(rest.push(seq![c]), sp) == seq![c]);
            assert(collapse_ws(x) == seq![c]);
        } else {
            lemma_words_nonempty(xp);
            assert(rest.last().len() > 0);
            lemma_join_ends(rest, sp);
            assert(cp.len() > 0);
            assert(rest.push(seq![c]).drop_last() == rest);
            let r = cp + sp + seq![c];
            assert(collapse_ws(x) == r);
            assert(r.last() == c);
            assert forall|i: int| 0 <= i < r.len() && #[trigger] is_ws(r[i]) implies r[i] == ' ' && i > 0 && !is_ws(r[i - 1]) by {
                if i < cp.len() {
                    assert(r[i] == cp[i]);
                    assert(is_ws(cp[i]));
                    assert(r[i - 1] == cp[i - 1]);
                } else if i == cp.len() {
                    assert(r[i] == ' ');
                    assert(r[i - 1] == cp.last());
                } else {
                    assert(r[i] == c);
                }
            }
            assert forall|k: int| 0 <= k < r.len() implies keep(#[trigger] r[k]) by {
                if k < cp.len() {
                    assert(r[k] == cp[k]);
                } else if k == cp.len() {
                    assert(r[k] == ' ');
                } else {
                    assert(r[k] == c);
                }
            }
        }
    }
}

/// Collapses whitespace: `s.split_whitespace().collect::<Vec<_>>().join(" ")`.
pub fn collapse_whitespace(v: &Vec<char>) -> (out: Vec<char>)
    ensures
        out@ == collapse_ws(v@),
{
    let mut out: Vec<char> = Vec::new();
    let ghost mut ws: Seq<Seq<char>> = Seq::empty();
    let mut i: usize = 0;
    assert(v@.take(0) == Seq::<char>::empty());
    while i < v.len()
        invariant
            i <= v.len(),
            ws == words(v@.take(i as int)),
            out@ == join(ws, seq![' ']),
            (ws.len() == 0) == (out@.len() == 0),
        decreases v.len() - i,
    {
        let ghost pre = v@.take(i as int);
        let ghost post = v@.take(i + 1);
        assert(post.drop_last() == pre);
        assert(post.last() == v@[i as int]);
        proof { lemma_words_nonempty(pre); }
        if is_whitespace(v[i]) {
        } else if i >= 1 && !is_whitespace(v[i - 1]) {
            assert(post[post.len() - 2] == v@[i - 1]);
            assert(pre.last() == v@[i - 1]);
            let ghost last = ws.last();
            proof {
                lemma_join_push_last(ws, seq![' '], v@[i as int]);
            }
            out.push(v[i]);
            proof { ws = ws.update(ws.len() - 1, ws.last().push(v@[i as int])); }
        } else {
            if i >= 1 {
                assert(post[post.len() - 2] == v@[i - 1]);
            }
            if out.len() > 0 {
                out.push(' ');
            }
            out.push(v[i]);
            proof {
                let nw = ws.push(seq![v@[i as int]]);
                if ws.len() > 0 {
                    assert(nw.drop_last() == ws);
                    assert(join(nw, seq![' ']) == join(ws, seq![' ']) + seq![' '] + seq![v@[i as int]]);
                } else {
                    assert(join(nw, seq![' ']) == seq![v@[i as int]]);
                }
                ws = nw;
            }
        }
        i = i + 1;
    }
    assert(v@.take(v.len() as int) == v@);
    out
}

pub proof fn lemma_join_push_last(parts: Seq<Seq<char>>, sep: Seq<char>, c: char)
    requires
        parts.len() > 0,
    ensures
        join(parts.update(parts.len() - 1, parts.last().push(c)), sep) == join(parts, sep).push(c),
{
    let np = parts.update(parts.len() - 1, parts.last().push(c));
    if parts.len() == 1 {
    } else {
        assert(np.drop_last() == parts.drop_last());
    }
}

/// `parts` joined with `sep`, executable.
pub fn join_chars(parts: &Vec<Vec<char>>, sep: &Vec<char>) -> (out: Vec<char>)
    ensures
        out@ == join(parts@.map_values(|p: Vec<char>| p@), sep@),
{
    let ghost ps = parts@.map_values(|p: Vec<char>| p@);
    let mut out: Vec<char> = Vec::new();
    let mut i: usize = 0;
    while i < parts.len()
        invariant
            i <= parts.len(),
            ps == parts@.map_values(|p: Vec<char>| p@),
            out@ == join(ps.take(i as int), sep@),
        decreases parts.len() - i,
    {
        let ghost before = out@;
        if i > 0 {
            let mut k: usize = 0;
            while k < sep.len()
                invariant
                    k <= sep.len(),
                    out@ == before + sep@.take(k as int),
                decreases sep.len() - k,
            {
                out.push(sep[k]);
                assert(sep@.take(k + 1) == sep@.take(k as int).push(sep@[k as int]));
                k = k + 1;
            }
            assert(sep@.take(sep.len() as int) == sep@);
        }
        let ghost mid = out@;
        let mut k: usize = 0;
        while k < parts[i].len()
            invariant
                i < parts.len(),
                k <= parts@[i as int].len(),
                out@ == mid + parts@[i as int]@.take(k as int),
            decreases parts@[i as int].len() - k,
        {
            out.push(parts[i][k]);
            assert(parts@[i as int]@.take(k + 1) == parts@[i as int]@.take(k as int).push(
                parts@[i as int]@[k as int],
            ));
            k = k + 1;
        }
        assert(parts@[i as int]@.take(parts@[i as int]@.len() as int) == parts@[i as int]@);
        assert(ps.take(i + 1).drop_last() == ps.take(i as int));
        assert(ps.take(i + 1).last() == parts@[i as int]@);
        i = i + 1;
    }
    assert(ps.take(parts.len() as int) == ps);
    out
}

/// The decimal digit character for `d < 10`.
pub open spec fn digit_char(d: nat) -> char {
    if d == 0 { '0' }
    else if d == 1 { '1' }
    else if d == 2 { '2' }
    else if d == 3 { '3' }
    else if d == 4 { '4' }
    else if d == 5 { '5' }
    else if d == 6 { '6' }
    else if d == 7 { '7' }
    else if d == 8 { '8' }
    else { '9' }
}

/// The decimal representation of `n` without leading zeros (`to_string`).
pub open spec fn dec(n: nat) -> Seq<char>
    decreases n,
{
    if n < 10 {
        seq![digit_char(n)]
    } else {
        dec(n / 10).push(digit_char(n % 10))
    }
}

fn digit_of(d: u64) -> (c: char)
    requires
        d < 10,
    ensures
        c == digit_char(d as nat),
{
    if d == 0 { '0' }
    else if d == 1 { '1' }
    else if d == 2 { '2' }
    else if d == 3 { '3' }
    else if d == 4 { '4' }
    else if d == 5 { '5' }
    else if d == 6 { '6' }
    else if d == 7 { '7' }
    else if d == 8 { '8' }
    else { '9' }
}

/// The decimal digits of `n`.
pub fn decimal(n: u64) -> (out: Vec<char>)
    ensures
        out@ == dec(n as nat),
    decreases n,
{
    if n < 10 {
        let mut v: Vec<char> = Vec::new();
        v.push(digit_of(n));
        v
    } else {
        let mut v = decimal(n / 10);
        v.push(digit_of(n % 10));
        v
    }
}

/// The hexadecimal digit character for `d < 16` (lowercase).
pub open spec fn hex_digit(d: nat) -> char {
    if d < 10 {
        digit_char(d)
    } else if d == 10 {
        'a'
    } else if d == 11 {
        'b'
    } else if d == 12 {
        'c'
    } else if d == 13 {
        'd'
    } else if d == 14 {
        'e'
    } else {
        'f'
    }
}

/// Lowercase hexadecimal without leading zeros (`format!("{:x}", n)`).
pub open spec fn hex(n: nat) -> Seq<char>
    decreases n,
{
    if n < 16 {
        seq![hex_digit(n)]
    } else {
        hex(n / 16).push(hex_digit(n % 16))
    }
}

fn hex_digit_of(d: u64) -> (c: char)
    requires
        d < 16,
    ensures
        c == hex_digit(d as nat),
{
    if d < 10 {
        digit_of(d)
    } else if d == 10 {
        'a'
    } else if d == 11 {
        'b'
    } else if d == 12 {
        'c'
    } else if d == 13 {
        'd'
    } else if d == 14 {
        'e'
    } else {
        'f'
    }
}

fn hex_chars(n: u64) -> (out: Vec<char>)
    ensures
        out@ == hex(n as nat),
    decreases n,
{
    if n < 16 {
        let mut v: Vec<char> = Vec::new();
        v.push(hex_digit_of(n));
        v
    } else {
        let mut v = hex_chars(n / 16);
        v.push(hex_digit_of(n % 16));
        v
    }
}

/// `n` in lowercase hexadecimal.
pub fn hex_text(n: u64) -> (s: String)
    ensures
        s@ == hex(n as nat),
{
    let v = hex_chars(n);
    string_of(&v)
}

/// The decimal representation of a signed integer (`to_string`).
pub open spec fn int_dec(n: int) -> Seq<char> {
    if n < 0 {
        seq!['-'] + dec((-n) as nat)
    } else {
        dec(n as nat)
    }
}

/// The decimal text of `n`, with a minus sign when negative.
pub fn int_text(n: i64) -> (s: String)
    ensures
        s@ == int_dec(n as int),
{
    let mut out: Vec<char> = Vec::new();
    let mag: u64 = if n < 0 {
        out.push('-');
        (0i128 - (n as i128)) as u64
    } else {
        n as u64
    };
    let d = decimal(mag);
    let mut k: usize = 0;
    let ghost start = out@;
    while k < d.len()
        invariant
            k <= d@.len(),
            out@ == start + d@.take(k as int),
        decreases d@.len() - k,
    {
        out.push(d[k]);
        assert(d@.take(k + 1) == d@.take(k as int).push(d@[k as int]));
        k = k + 1;
    }
    assert(d@.take(d@.len() as int) == d@);
    proof {
        if n < 0 {
            assert(start == seq!['-']);
        } else {
            assert(start == Seq::<char>::empty());
            assert(out@ == d@);
        }
    }
    string_of(&out)
}

pub proof fn lemma_dec_len(n: nat)
    ensures
        dec(n).len() >= 1,
    decreases n,
{
    if n >= 10 {
        lemma_dec_len(n / 10);
    }
}

/// Different numbers have different decimal representations.
pub proof fn lemma_dec_injective(a: nat, b: nat)
    ensures
        dec(a) == dec(b) ==> a == b,
    decreases a + b,
{
    if dec(a) == dec(b) {
        if a >= 10 {
            lemma_dec_len(a / 10);
            assert(dec(a).len() == dec(a / 10).len() + 1);
            assert(dec(a).len() >= 2);
        } else {
            assert(dec(a).len() == 1);
        }
        if b >= 10 {
            lemma_dec_len(b / 10);
            assert(dec(b).len() == dec(b / 10).len() + 1);
            assert(dec(b).len() >= 2);
        } else {
            assert(dec(b).len() == 1);
        }
        if a >= 10 && b >= 10 {
            assert(dec(a).last() == digit_char(a % 10));
            assert(dec(b).last() == digit_char(b % 10));
            assert(a % 10 == b % 10);
            assert(dec(a).drop_last() == dec(a / 10));
            assert(dec(b).drop_last() == dec(b / 10));
            lemma_dec_injective(a / 10, b / 10);
            assert(a == (a / 10) * 10 + a % 10);
            assert(b == (b / 10) * 10 + b % 10);
        } else if a < 10 && b < 10 {
            assert(dec(a)[0] == digit_char(a));
            assert(dec(b)[0] == digit_char(b));
        }
    }
}

/// Code-point lexicographic "less than" (Rust's `<` on `str`: UTF-8 byte order
/// and code-point order agree).
pub open spec fn seq_lt(a: Seq<char>, b: Seq<char>) -> bool
    decreases a.len(),
{
    if b.len() == 0 {
        false
    } else if a.len() == 0 {
        true
    } else if a[0] != b[0] {
        a[0] < b[0]
    } else {
        seq_lt(a.drop_first(), b.drop_first())
    }
}

pub fn chars_lt(a: &Vec<char>, b: &Vec<char>) -> (r: bool)
    ensures
        r == seq_lt(a@, b@),
{
    let mut i: usize = 0;
    assert(a@.skip(0) == a@);
    assert(b@.skip(0) == b@);
    while i < a.len() && i < b.len()
        invariant
            i <= a.len(),
            i <= b.len(),
            seq_lt(a@, b@) == seq_lt(a@.skip(i as int), b@.skip(i as int)),
        decreases a.len() - i,
    {
        assert(a@.skip(i as int)[0] == a@[i as int]);
        assert(b@.skip(i as int)[0] == b@[i as int]);
        if a[i] != b[i] {
            return a[i] < b[i];
        }
        assert(a@.skip(i as int).drop_first() == a@.skip(i + 1));
        assert(b@.skip(i as int).drop_first() == b@.skip(i + 1));
        i = i + 1;
    }
    i < b.len()
}

/// Two texts that begin with blocks of one length compare by those blocks first
/// and, where the blocks agree, by what follows; and they are equal exactly when
/// both parts are.
pub proof fn lemma_seq_lt_blocks(a1: Seq<char>, a2: Seq<char>, b1: Seq<char>, b2: Seq<char>)
    requires
        a1.len() == a2.len(),
    ensures
        seq_lt(a1 + b1, a2 + b2) == (seq_lt(a1, a2) || (a1 == a2 && seq_lt(b1, b2))),
        (a1 + b1 == a2 + b2) == (a1 == a2 && b1 == b2),
    decreases a1.len(),
{
    if a1.len() == 0 {
        assert(a1 + b1 =~= b1);
        assert(a2 + b2 =~= b2);
        assert(a1 =~= a2);
    } else {
        assert((a1 + b1)[0] == a1[0]);
        assert((a2 + b2)[0] == a2[0]);
        assert((a1 + b1).drop_first() =~= a1.drop_first() + b1);
        assert((a2 + b2).drop_first() =~= a2.drop_first() + b2);
        lemma_seq_lt_blocks(a1.drop_first(), a2.drop_first(), b1, b2);
        if a1[0] == a2[0] && a1.drop_first() == a2.drop_first() {
            assert forall|i: int| 0 <= i < a1.len() implies a1[i] == a2[i] by {
                if i > 0 {
                    assert(a1[i] == a1.drop_first()[i - 1]);
                    assert(a2[i] == a2.drop_first()[i - 1]);
                }
            }
            assert(a1 =~= a2);
        }
        if a1 + b1 == a2 + b2 {
            assert((a1 + b1)[0] == (a2 + b2)[0]);
            assert(a1[0] == a2[0]);
            assert(a1.drop_first() + b1 == a2.drop_first() + b2);
        }
    }
}

pub proof fn lemma_seq_lt_irrefl(a: Seq<char>)
    ensures
        !seq_lt(a, a),
    decreases a.len(),
{
    if a.len() > 0 {
        lemma_seq_lt_irrefl(a.drop_first());
    }
}

pub proof fn lemma_seq_lt_trans(a: Seq<char>, b: Seq<char>, c: Seq<char>)
    requires
        seq_lt(a, b),
        seq_lt(b, c),
    ensures
        seq_lt(a, c),
    decreases a.len(),
{
    if a.len() > 0 && b.len() > 0 && c.len() > 0 && a[0] == b[0] && b[0] == c[0] {
        lemma_seq_lt_trans(a.drop_first(), b.drop_first(), c.drop_first());
    }
}

/// Two different strings are ordered one way or the other.
pub proof fn lemma_seq_lt_total(a: Seq<char>, b: Seq<char>)
    requires
        a != b,
    ensures
        seq_lt(a, b) || seq_lt(b, a),
    decreases a.len(),
{
    if a.len() > 0 && b.len() > 0 && a[0] == b[0] {
        if a.drop_first() == b.drop_first() {
            assert(a =~= seq![a[0]] + a.drop_first());
            assert(b =~= seq![b[0]] + b.drop_first());
        }
        lemma_seq_lt_total(a.drop_first(), b.drop_first());
    } else if a.len() == 0 && b.len() == 0 {
        assert(a =~= b);
    }
}

pub proof fn lemma_seq_lt_asym(a: Seq<char>, b: Seq<char>)
    requires
        seq_lt(a, b),
    ensures
        !seq_lt(b, a),
    decreases a.len(),
{
    if a.len() > 0 && b.len() > 0 && a[0] == b[0] {
        lemma_seq_lt_asym(a.drop_first(), b.drop_first());
    }
}

/// "Not greater" on texts is total.
pub proof fn lemma_seq_le_total(a: Seq<char>, b: Seq<char>)
    ensures
        !seq_lt(b, a) || !seq_lt(a, b),
{
    if seq_lt(a, b) {
        lemma_seq_lt_asym(a, b);
    }
}

/// "Not greater" on texts is transitive.
pub proof fn lemma_seq_le_trans(a: Seq<char>, b: Seq<char>, c: Seq<char>)
    requires
        !seq_lt(b, a),
        !seq_lt(c, b),
    ensures
        !seq_lt(c, a),
{
    if seq_lt(c, a) {
        if a == b {
        } else {
            lemma_seq_lt_total(a, b);
            lemma_seq_lt_trans(c, a, b);
        }
    }
}

/// `i` is the first position of `c` in `s`.
pub open spec fn first_at(s: Seq<char>, c: char, i: int) -> bool {
    0 <= i < s.len() && s[i] == c && forall|j: int| 0 <= j < i ==> s[j] != c
}

/// `i` is the last position of `c` in `s`.
pub open spec fn last_at(s: Seq<char>, c: char, i: int) -> bool {
    0 <= i < s.len() && s[i] == c && forall|j: int| i < j < s.len() ==> s[j] != c
}

/// `str::split_once(c)`: the parts before and after the first `c`.
pub open spec fn split_once(s: Seq<char>, c: char) -> Option<(Seq<char>, Seq<char>)> {
    if exists|i: int| first_at(s, c, i) {
        let i = choose|i: int| first_at(s, c, i);
        Some((s.take(i), s.skip(i + 1)))
    } else {
        None
    }
}

/// `str::rsplit_once(c)`: the parts before and after the last `c`.
pub open spec fn rsplit_once(s: Seq<char>, c: char) -> Option<(Seq<char>, Seq<char>)> {
    if exists|i: int| last_at(s, c, i) {
        let i = choose|i: int| last_at(s, c, i);
        Some((s.take(i), s.skip(i + 1)))
    } else {
        None
    }
}

pub proof fn lemma_first_at_unique(s: Seq<char>, c: char, i: int, k: int)
    requires
        first_at(s, c, i),
        first_at(s, c, k),
    ensures
        i == k,
{
    if i < k {
        assert(s[i] != c);
    } else if k < i {
        assert(s[k] != c);
    }
}

pub proof fn lemma_last_at_unique(s: Seq<char>, c: char, i: int, k: int)
    requires
        last_at(s, c, i),
        last_at(s, c, k),
    ensures
        i == k,
{
    if i < k {
        assert(s[k] != c);
    } else if k < i {
        assert(s[i] != c);
    }
}

/// The first position of `c` in `v`, if any.
pub fn find_char(v: &Vec<char>, c: char) -> (r: Option<usize>)
    ensures
        r matches Some(i) ==> first_at(v@, c, i as int),
        r is None ==> !v@.contains(c),
        r is None ==> !exists|i: int| first_at(v@, c, i),
{
    let mut i: usize = 0;
    while i < v.len()
        invariant
            i <= v.len(),
            forall|j: int| 0 <= j < i ==> v@[j] != c,
        decreases v.len() - i,
    {
        if v[i] == c {
            return Some(i);
        }
        i = i + 1;
    }
    None
}

/// The last position of `c` in `v`, if any.
pub fn rfind_char(v: &Vec<char>, c: char) -> (r: Option<usize>)
    ensures
        r matches Some(i) ==> last_at(v@, c, i as int),
        r is None ==> !exists|i: int| last_at(v@, c, i),
{
    let mut i: usize = v.len();
    while i > 0
        invariant
            i <= v.len(),
            forall|j: int| i <= j < v.len() ==> v@[j] != c,
        decreases i,
    {
        if v[i - 1] == c {
            return Some(i - 1);
        }
        i = i - 1;
    }
    None
}

pub fn slice_chars(v: &Vec<char>, a: usize, b: usize) -> (out: Vec<char>)
    requires
        a <= b <= v.len(),
    ensures
        out@ == v@.subrange(a as int, b as int),
{
    let mut out: Vec<char> = Vec::new();
    let mut k: usize = a;
    while k < b
        invariant
            a <= k <= b <= v.len(),
            out@ == v@.subrange(a as int, k as int),
        decreases b - k,
    {
        out.push(v[k]);
        assert(v@.subrange(a as int, k + 1) == v@.subrange(a as int, k as int).push(v@[k as int]));
        k = k + 1;
    }
    out
}

pub fn split_once_chars(v: &Vec<char>, c: char) -> (r: Option<(Vec<char>, Vec<char>)>)
    ensures
        r is None <==> split_once(v@, c) is None,
        r matches Some(p) ==> split_once(v@, c) == Some((p.0@, p.1@)),
{
    match find_char(v, c) {
        None => None,
        Some(i) => {
            assert(i < v.len());
            proof {
                let k = choose|k: int| first_at(v@, c, k);
                lemma_first_at_unique(v@, c, i as int, k);
            }
            Some((slice_chars(v, 0, i), slice_chars(v, i + 1, v.len())))
        },
    }
}

pub fn rsplit_once_chars(v: &Vec<char>, c: char) -> (r: Option<(Vec<char>, Vec<char>)>)
    ensures
        r is None <==> rsplit_once(v@, c) is None,
        r matches Some(p) ==> rsplit_once(v@, c) == Some((p.0@, p.1@)),
{
    match rfind_char(v, c) {
        None => None,
        Some(i) => {
            assert(i < v.len());
            proof {
                let k = choose|k: int| last_at(v@, c, k);
                lemma_last_at_unique(v@, c, i as int, k);
            }
            Some((slice_chars(v, 0, i), slice_chars(v, i + 1, v.len())))
        },
    }
}

/// `str::strip_prefix`.
pub open spec fn strip_prefix(s: Seq<char>, p: Seq<char>) -> Option<Seq<char>> {
    if starts_with(s, p) {
        Some(s.skip(p.len() as int))
    } else {
        None
    }
}

/// Does `s` end with `p`?
pub open spec fn ends_with(s: Seq<char>, p: Seq<char>) -> bool {
    p.len() <= s.len() && s.skip(s.len() - p.len()) == p
}

/// `str::strip_suffix`.
pub open spec fn strip_suffix(s: Seq<char>, p: Seq<char>) -> Option<Seq<char>> {
    if ends_with(s, p) {
        Some(s.take(s.len() - p.len()))
    } else {
        None
    }
}

pub fn strip_prefix_chars(v: &Vec<char>, p: &str) -> (r: Option<Vec<char>>)
    ensures
        r is None <==> strip_prefix(v@, p@) is None,
        r matches Some(t) ==> strip_prefix(v@, p@) == Some(t@),
{
    let pv = chars_of(p);
    if chars_start_with(v, &pv) {
        Some(slice_chars(v, pv.len(), v.len()))
    } else {
        None
    }
}

pub fn strip_suffix_chars(v: &Vec<char>, p: &str) -> (r: Option<Vec<char>>)
    ensures
        r is None <==> strip_suffix(v@, p@) is None,
        r matches Some(t) ==> strip_suffix(v@, p@) == Some(t@),
{
    let pv = chars_of(p);
    if pv.len() > v.len() {
        return None;
    }
    let start = v.len() - pv.len();
    let mut i: usize = 0;
    while i < pv.len()
        invariant
            pv@ == p@,
            pv.len() <= v.len(),
            start == v.len() - pv.len(),
            i <= pv.len(),
            forall|j: int| 0 <= j < i ==> v@[start + j] == pv@[j],
        decreases pv.len() - i,
    {
        if v[start + i] != pv[i] {
            assert(v@.skip(start as int)[i as int] != pv@[i as int]);
            return None;
        }
        i = i + 1;
    }
    assert(v@.skip(start as int) == pv@);
    Some(slice_chars(v, 0, start))
}

/// The value of a run of ASCII digits.
pub open spec fn digits_value(d: Seq<char>) -> nat
    decreases d.len(),
{
    if d.len() == 0 {
        0
    } else {
        digits_value(d.drop_last()) * 10 + ((d.last() as int) - ('0' as int)) as nat
    }
}

pub open spec fn all_digits(d: Seq<char>) -> bool {
    forall|i: int| 0 <= i < d.len() ==> is_digit(#[trigger] d[i])
}

/// The integer `s` spells under `FromStr`'s rules for signed integers: an optional
/// `+` or `-`, then one or more ASCII digits.
pub open spec fn parse_int(s: Seq<char>) -> Option<int> {
    let neg = s.len() > 0 && s[0] == '-';
    let body = if s.len() > 0 && (s[0] == '-' || s[0] == '+') {
        s.drop_first()
    } else {
        s
    };
    if body.len() == 0 || !all_digits(body) {
        None
    } else if neg {
        Some(-(digits_value(body) as int))
    } else {
        Some(digits_value(body) as int)
    }
}

/// `str::parse::<i64>()`: the value when it is well formed and fits.
pub open spec fn parse_i64(s: Seq<char>) -> Option<i64> {
    match parse_int(s) {
        Some(v) => if i64::MIN <= v <= i64::MAX {
            Some(v as i64)
        } else {
            None
        },
        None => None,
    }
}

pub fn parse_i64_chars(v: &Vec<char>) -> (r: Option<i64>)
    ensures
        r == parse_i64(v@),
{
    let n = v.len();
    if n == 0 {
        return None;
    }
    let neg = v[0] == '-';
    let start: usize = if v[0] == '-' || v[0] == '+' { 1 } else { 0 };
    if start == n {
        return None;
    }
    let ghost body = v@.skip(start as int);
    assert(start == 1 ==> body == v@.drop_first());
    assert((start == 1) == (v@[0] == '-' || v@[0] == '+'));
    assert(neg == (v@[0] == '-'));
    assert(start == 0 ==> body == v@);
    let limit: u128 = 9_223_372_036_854_775_808;
    let mut acc: u128 = 0;
    let mut over = false;
    let mut i: usize = start;
    assert(body.take(0) == Seq::<char>::empty());
    while i < n
        invariant
            n == v.len(),
            start <= i <= n,
            start < n,
            body == v@.skip(start as int),
            limit == 9_223_372_036_854_775_808u128,
            (start == 1) == (v@[0] == '-' || v@[0] == '+'),
            start == 1 ==> body == v@.drop_first(),
            start == 0 ==> body == v@,
            all_digits(body.take(i - start)),
            !over ==> acc as nat == digits_value(body.take(i - start)),
            !over ==> acc <= limit,
            over ==> digits_value(body.take(i - start)) > limit,
        decreases n - i,
    {
        let c = v[i];
        if !is_ascii_digit(c) {
            assert(body[i - start] == c);
            assert(!all_digits(body));
            assert(parse_int(v@) is None);
            return None;
        }
        let ghost pre = body.take(i - start);
        let ghost post = body.take(i - start + 1);
        assert(post.drop_last() == pre);
        assert(post.last() == c);
        let d = (c as u32 - '0' as u32) as u128;
        assert(digits_value(post) == digits_value(pre) * 10 + d);
        if !over {
            assert(acc * 10 <= limit * 10) by (nonlinear_arith)
                requires
                    acc <= limit,
            ;
            assert(d <= 9);
            assert(acc * 10 + d <= limit * 10 + 9);
            acc = acc * 10 + d;
            if acc > limit {
                over = true;
            }
        } else {
            assert(digits_value(pre) * 10 >= digits_value(pre)) by (nonlinear_arith);
        }
        i = i + 1;
    }
    assert(body.take(n - start) == body);
    if over {
        return None;
    }
    if neg {
        if acc == limit {
            Some(i64::MIN)
        } else {
            Some(-(acc as i64))
        }
    } else if acc < limit {
        Some(acc as i64)
    } else {
        None
    }
}

/// The first `i` digits of `d` with a ',' before each digit that starts a group
/// of three counted from the right.
pub open spec fn grouped_prefix(d: Seq<char>, i: nat) -> Seq<char>
    decreases i,
{
    if i == 0 {
        Seq::empty()
    } else {
        let k = (i - 1) as nat;
        grouped_prefix(d, k) + (if k > 0 && (d.len() - k) % 3 == 0 {
            seq![',']
        } else {
            Seq::empty()
        }) + seq![d[k as int]]
    }
}

/// Digit grouping of an integer: `14207` -> `14,207`, `-1234` -> `-1,234`.
pub open spec fn grouped(n: int) -> Seq<char> {
    let mag: nat = if n < 0 { (-n) as nat } else { n as nat };
    let digits = dec(mag);
    (if n < 0 { seq!['-'] } else { Seq::empty() }) + grouped_prefix(digits, digits.len())
}

/// Digit grouping with ',' every three digits from the right, sign in front.
pub fn group_thousands(n: i64) -> (s: String)
    ensures
        s@ == grouped(n as int),
{
    let mag: u64 = if n < 0 { (-(n as i128)) as u64 } else { n as u64 };
    let digits = decimal(mag);
    let mut out = String::new();
    if n < 0 {
        push_char(&mut out, '-');
    }
    let ghost head = out@;
    let len = digits.len();
    let mut i: usize = 0;
    while i < len
        invariant
            len == digits@.len(),
            i <= len,
            out@ == head + grouped_prefix(digits@, i as nat),
        decreases len - i,
    {
        if i > 0 && (len - i) % 3 == 0 {
            push_char(&mut out, ',');
        }
        push_char(&mut out, digits[i]);
        i = i + 1;
    }
    out
}

/// An optional string, by its characters.
pub open spec fn opt_chars(o: Option<String>) -> Option<Seq<char>> {
    match o {
        Some(s) => Some(s@),
        None => None,
    }
}

} // verus!
