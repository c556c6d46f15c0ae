//! The book library's rules: canonical book slugs, the `.env` setting for the
//! books directory, what an upload or an import request may carry, the file
//! extension a stored book has, the arguments the importer and the OCR and
//! re-ingest jobs are started with, and a book's publication year.

use vstd::prelude::*;
use crate::sorting::{SortKey, sort_by_key, sorted_by_key};
use crate::tags::{ascii_lower, ascii_text, is_upper, lemma_trim_ascii, lower_fixed, lowercase, to_lowercase};
use crate::text::{lemma_seq_le_total, lemma_seq_le_trans, opt_chars,
    chars_eq, chars_lt, chars_of, int_dec, int_text, is_alnum, is_ascii_alnum, is_digit, parse_i64,
    parse_i64_chars, push_str, seq_lt, slice_chars, split_chars, split_on, str_eq, string_of, strip_prefix,
    strip_prefix_chars, trim, trim_chars, trim_end, trim_start, trim_str,
};

verus! {

/// The slug characters so far and whether the last one pushed was a dash: ASCII
/// letters and digits are kept, and any run of other characters becomes one dash
/// (never at the start).
pub open spec fn slug_raw(s: Seq<char>) -> (Seq<char>, bool)
    decreases s.len(),
{
    if s.len() == 0 {
        (Seq::empty(), false)
    } else {
        let (o, d) = slug_raw(s.drop_last());
        let c = s.last();
        if is_alnum(c) {
            (o.push(c), false)
        } else if !d && o.len() > 0 {
            (o.push('-'), true)
        } else {
            (o, d)
        }
    }
}

/// Leading and trailing dashes removed.
pub open spec fn trim_dashes(s: Seq<char>) -> Seq<char>
    decreases s.len(),
{
    if s.len() > 0 && s[0] == '-' {
        trim_dashes(s.drop_first())
    } else if s.len() > 0 && s.last() == '-' {
        trim_dashes(s.drop_last())
    } else {
        s
    }
}

/// Canonical book slug: trimmed, lowercased, ASCII letters and digits with single
/// dashes between runs, at most 60 characters, no dash at either end.
pub open spec fn slug_of(s: Seq<char>) -> Seq<char> {
    slug_clean(lowercase(trim(s)))
}

/// The slug of already-lowercased text.
pub open spec fn slug_clean(lowered: Seq<char>) -> Seq<char> {
    let raw = trim_dashes(slug_raw(lowered).0);
    trim_dashes(if raw.len() > 60 { raw.take(60) } else { raw })
}

/// Only ASCII letters, digits and dashes; no dash first; no two dashes in a row.
pub open spec fn slug_shaped(z: Seq<char>) -> bool {
    &&& forall|i: int| 0 <= i < z.len() ==> is_alnum(#[trigger] z[i]) || z[i] == '-'
    &&& z.len() > 0 ==> z[0] != '-'
    &&& forall|i: int| 0 < i < z.len() && #[trigger] z[i] == '-' ==> z[i - 1] != '-'
}

proof fn lemma_slug_raw_shaped(x: Seq<char>)
    ensures
        slug_shaped(slug_raw(x).0),
        slug_raw(x).1 <==> (slug_raw(x).0.len() > 0 && slug_raw(x).0.last() == '-'),
    decreases x.len(),
{
    if x.len() > 0 {
        lemma_slug_raw_shaped(x.drop_last());
        let (o, d) = slug_raw(x.drop_last());
        let r = slug_raw(x).0;
        if is_alnum(x.last()) || (!d && o.len() > 0) {
            assert(r.drop_last() == o);
            assert forall|i: int| 0 <= i < r.len() implies is_alnum(#[trigger] r[i]) || r[i] == '-' by {
                if i < o.len() {
                    assert(r[i] == o[i]);
                }
            }
            assert forall|i: int| 0 < i < r.len() && #[trigger] r[i] == '-' implies r[i - 1] != '-' by {
                assert(r[i - 1] == o[i - 1]);
                if i < o.len() {
                    assert(r[i] == o[i]);
                }
            }
            if o.len() > 0 {
                assert(r[0] == o[0]);
            }
        }
    }
}

proof fn lemma_slug_raw_fixed(z: Seq<char>)
    requires
        slug_shaped(z),
    ensures
        slug_raw(z).0 == z,
    decreases z.len(),
{
    if z.len() > 0 {
        let zp = z.drop_last();
        assert(slug_shaped(zp)) by {
            assert forall|i: int| 0 <= i < zp.len() implies is_alnum(#[trigger] zp[i]) || zp[i] == '-' by {
                assert(zp[i] == z[i]);
            }
            assert forall|i: int| 0 < i < zp.len() && #[trigger] zp[i] == '-' implies zp[i - 1] != '-' by {
                assert(zp[i] == z[i]);
                assert(zp[i - 1] == z[i - 1]);
            }
            if zp.len() > 0 {
                assert(zp[0] == z[0]);
            }
        }
        lemma_slug_raw_fixed(zp);
        lemma_slug_raw_shaped(zp);
        let c = z.last();
        assert(is_alnum(z[z.len() - 1]) || z[z.len() - 1] == '-');
        if !is_alnum(c) {
            assert(c == '-');
            assert(z[z.len() - 1] == '-');
            assert(z.len() > 1);
            assert(zp.last() == z[z.len() - 2]);
        }
        assert(zp.push(c) == z);
    }
}

/// Dashes trimmed from the ends leave a stretch of the text with no dash at
/// either end.
proof fn lemma_trim_dashes_range(s: Seq<char>)
    ensures
        exists|a: int, b: int| 0 <= a <= b <= s.len() && #[trigger] s.subrange(a, b) == trim_dashes(s),
        trim_dashes(s).len() > 0 ==> trim_dashes(s)[0] != '-' && trim_dashes(s).last() != '-',
    decreases s.len(),
{
    if s.len() > 0 && s[0] == '-' {
        lemma_trim_dashes_range(s.drop_first());
        let (a, b) = choose|a: int, b: int| 0 <= a <= b <= s.drop_first().len() && #[trigger] s.drop_first().subrange(a, b) == trim_dashes(s.drop_first());
        assert(s.subrange(a + 1, b + 1) == s.drop_first().subrange(a, b));
    } else if s.len() > 0 && s.last() == '-' {
        lemma_trim_dashes_range(s.drop_last());
        let (a, b) = choose|a: int, b: int| 0 <= a <= b <= s.drop_last().len() && #[trigger] s.drop_last().subrange(a, b) == trim_dashes(s.drop_last());
        assert(s.subrange(a, b) == s.drop_last().subrange(a, b));
    } else {
        assert(s.subrange(0, s.len() as int) == s);
    }
}

/// A stretch of a slug-shaped text with no dash first is slug-shaped.
proof fn lemma_shaped_subrange(z: Seq<char>, a: int, b: int)
    requires
        slug_shaped(z),
        0 <= a <= b <= z.len(),
        a < b ==> z[a] != '-',
    ensures
        slug_shaped(z.subrange(a, b)),
{
    let w = z.subrange(a, b);
    assert forall|i: int| 0 <= i < w.len() implies is_alnum(#[trigger] w[i]) || w[i] == '-' by {
        assert(w[i] == z[a + i]);
    }
    assert forall|i: int| 0 < i < w.len() && #[trigger] w[i] == '-' implies w[i - 1] != '-' by {
        assert(w[i] == z[a + i]);
        assert(w[i - 1] == z[a + i - 1]);
    }
}

/// Trimming dashes keeps a slug-shaped text slug-shaped and leaves no dash at
/// either end.
proof fn lemma_trim_dashes_shaped(z: Seq<char>)
    requires
        slug_shaped(z),
    ensures
        slug_shaped(trim_dashes(z)),
        trim_dashes(z).len() <= z.len(),
        trim_dashes(z).len() > 0 ==> trim_dashes(z).last() != '-',
{
    lemma_trim_dashes_range(z);
    let (a, b) = choose|a: int, b: int| 0 <= a <= b <= z.len() && #[trigger] z.subrange(a, b) == trim_dashes(z);
    if a < b {
        assert(z.subrange(a, b)[0] == z[a]);
    }
    lemma_shaped_subrange(z, a, b);
}

/// A character a slug of uncapitalized text can hold.
pub open spec fn slug_char(c: char) -> bool {
    (is_alnum(c) && !is_upper(c)) || c == '-'
}

proof fn lemma_slug_raw_chars(x: Seq<char>)
    requires
        forall|i: int| 0 <= i < x.len() ==> !is_upper(#[trigger] x[i]),
    ensures
        forall|i: int| 0 <= i < slug_raw(x).0.len() ==> slug_char(#[trigger] slug_raw(x).0[i]),
    decreases x.len(),
{
    if x.len() > 0 {
        let xp = x.drop_last();
        assert forall|i: int| 0 <= i < xp.len() implies !is_upper(#[trigger] xp[i]) by {
            assert(xp[i] == x[i]);
        }
        lemma_slug_raw_chars(xp);
        assert(!is_upper(x[x.len() - 1]));
        let o = slug_raw(xp).0;
        let r = slug_raw(x).0;
        assert forall|i: int| 0 <= i < r.len() implies slug_char(#[trigger] r[i]) by {
            if i < o.len() {
                assert(r[i] == o[i]);
            }
        }
    }
}

/// Every character of a stretch of a text is one of the text's.
proof fn lemma_subrange_chars(z: Seq<char>, a: int, b: int)
    requires
        0 <= a <= b <= z.len(),
        forall|i: int| 0 <= i < z.len() ==> slug_char(#[trigger] z[i]),
    ensures
        forall|i: int| 0 <= i < z.subrange(a, b).len() ==> slug_char(#[trigger] z.subrange(a, b)[i]),
{
    assert forall|i: int| 0 <= i < z.subrange(a, b).len() implies slug_char(#[trigger] z.subrange(a, b)[i]) by {
        assert(z.subrange(a, b)[i] == z[a + i]);
    }
}

proof fn lemma_trim_dashes_chars(z: Seq<char>)
    requires
        forall|i: int| 0 <= i < z.len() ==> slug_char(#[trigger] z[i]),
    ensures
        forall|i: int| 0 <= i < trim_dashes(z).len() ==> slug_char(#[trigger] trim_dashes(z)[i]),
{
    lemma_trim_dashes_range(z);
    let (a, b) = choose|a: int, b: int| 0 <= a <= b <= z.len() && #[trigger] z.subrange(a, b) == trim_dashes(z);
    lemma_subrange_chars(z, a, b);
}

/// The slug of uncapitalized text has a stored slug's shape: ASCII lowercase
/// letters, digits and dashes only, so nothing to trim.
proof fn lemma_slug_clean_shape(lowered: Seq<char>)
    requires
        forall|i: int| 0 <= i < lowered.len() ==> !is_upper(#[trigger] lowered[i]),
    ensures
        lower_fixed(slug_clean(lowered)),
        trim(slug_clean(lowered)) == slug_clean(lowered),
{
    lemma_slug_raw_chars(lowered);
    let r0 = slug_raw(lowered).0;
    let raw = trim_dashes(r0);
    lemma_trim_dashes_chars(r0);
    let cut = if raw.len() > 60 { raw.take(60) } else { raw };
    if raw.len() > 60 {
        assert(raw.take(60) == raw.subrange(0, 60));
        lemma_subrange_chars(raw, 0, 60);
    }
    let y = trim_dashes(cut);
    lemma_trim_dashes_chars(cut);
    assert(y == slug_clean(lowered));
    assert forall|i: int| 0 <= i < y.len() implies ('a' <= #[trigger] y[i] && y[i] <= 'z') || is_digit(y[i]) || y[i] == ' '
        || y[i] == '-' || y[i] == '.' by {
        assert(slug_char(y[i]));
    }
    if y.len() > 0 {
        assert(slug_char(y[0]));
        assert(slug_char(y[y.len() - 1]));
        assert(trim_start(y) == y);
        assert(trim_end(y) == y);
    }
}

/// The canonical slug is canonical: cleaning a slug again gives it back.
pub proof fn lemma_slug_clean_idempotent(lowered: Seq<char>)
    ensures
        slug_clean(slug_clean(lowered)) == slug_clean(lowered),
{
    lemma_slug_raw_shaped(lowered);
    let r0 = slug_raw(lowered).0;
    let raw = trim_dashes(r0);
    lemma_trim_dashes_shaped(r0);
    let cut = if raw.len() > 60 { raw.take(60) } else { raw };
    if raw.len() > 60 {
        assert(raw.take(60) == raw.subrange(0, 60));
        lemma_shaped_subrange(raw, 0, 60);
    }
    let y = trim_dashes(cut);
    lemma_trim_dashes_shaped(cut);
    assert(y == slug_clean(lowered));
    assert(y.len() <= 60);
    lemma_slug_raw_fixed(y);
    assert(trim_dashes(y) == y) by {
        if y.len() > 0 {
            assert(y[0] != '-');
            assert(y.last() != '-');
        }
    }
}

fn trim_dashes_exec(v: &Vec<char>) -> (r: Vec<char>)
    ensures
        r@ == trim_dashes(v@),
{
    let mut a: usize = 0;
    let mut b: usize = v.len();
    assert(v@.subrange(0, v@.len() as int) == v@);
    while a < b && (v[a] == '-' || v[b - 1] == '-')
        invariant
            a <= b <= v@.len(),
            trim_dashes(v@) == trim_dashes(v@.subrange(a as int, b as int)),
        decreases b - a,
    {
        let ghost s = v@.subrange(a as int, b as int);
        if v[a] == '-' {
            assert(s[0] == '-');
            assert(s.drop_first() == v@.subrange(a + 1, b as int));
            a = a + 1;
        } else {
            assert(s[0] != '-' && s.last() == '-');
            assert(s.drop_last() == v@.subrange(a as int, b - 1));
            b = b - 1;
        }
    }
    let mut r: Vec<char> = Vec::new();
    let mut i: usize = a;
    while i < b
        invariant
            a <= i <= b <= v@.len(),
            r@ == v@.subrange(a as int, i as int),
        decreases b - i,
    {
        r.push(v[i]);
        assert(v@.subrange(a as int, i + 1) == v@.subrange(a as int, i as int).push(v@[i as int]));
        i = i + 1;
    }
    proof {
        let s = v@.subrange(a as int, b as int);
        assert(trim_dashes(s) == s);
    }
    r
}

/// Canonical book slug (see [`slug_of`]).
pub fn sanitize_slug(s: &str) -> (r: String)
    ensures
        r@ == slug_of(s@),
        // What comes out is a stored slug's shape and its own slug ...
        lower_fixed(r@) && trim(r@) == r@ && slug_clean(r@) == r@,
        // ... and a slug of that shape sanitizes to itself: sanitizing twice is
        // sanitizing once.
        lower_fixed(s@) && trim(s@) == s@ && slug_clean(s@) == s@ ==> r@ == s@,
        // On ASCII text, lowercasing is A-Z to a-z.
        ascii_text(s@) ==> r@ == slug_clean(ascii_lower(trim(s@))),
{
    let t = trim_str(s);
    let ts = string_of(&t);
    proof {
        lemma_trim_ascii(s@);
    }
    let low = to_lowercase(ts.as_str());
    let l = chars_of(low.as_str());
    let mut out: Vec<char> = Vec::new();
    let mut dash = false;
    let mut i: usize = 0;
    assert(l@.take(0).len() == 0);
    while i < l.len()
        invariant
            i <= l@.len(),
            (out@, dash) == slug_raw(l@.take(i as int)),
        decreases l@.len() - i,
    {
        assert(l@.take(i + 1).drop_last() == l@.take(i as int));
        assert(l@.take(i + 1).last() == l@[i as int]);
        let c = l[i];
        if is_ascii_alnum(c) {
            out.push(c);
            dash = false;
        } else if !dash && out.len() > 0 {
            out.push('-');
            dash = true;
        }
        i = i + 1;
    }
    assert(l@.take(l@.len() as int) == l@);
    let raw = trim_dashes_exec(&out);
    let cut = if raw.len() > 60 {
        let mut c: Vec<char> = Vec::new();
        let mut k: usize = 0;
        while k < 60
            invariant
                raw@.len() > 60,
                k <= 60,
                c@ == raw@.take(k as int),
            decreases 60 - k,
        {
            c.push(raw[k]);
            assert(raw@.take(k + 1) == raw@.take(k as int).push(raw@[k as int]));
            k = k + 1;
        }
        c
    } else {
        raw
    };
    let fin = trim_dashes_exec(&cut);
    proof {
        assert forall|i: int| 0 <= i < low@.len() implies !is_upper(#[trigger] low@[i]) by {}
        lemma_slug_clean_shape(low@);
        lemma_slug_clean_idempotent(low@);
    }
    string_of(&fin)
}

/// The value of `key` in `.env` text: the first non-comment line `k = v` whose
/// trimmed key is `key` and whose value, trimmed and stripped of surrounding
/// quotes, is not empty.
pub open spec fn env_value(lines: Seq<Seq<char>>, key: Seq<char>) -> Option<Seq<char>>
    decreases lines.len(),
{
    if lines.len() == 0 {
        None
    } else {
        match env_line(trim(lines[0]), key) {
            Some(v) => Some(v),
            None => env_value(lines.drop_first(), key),
        }
    }
}

/// Quote characters are stripped from both ends of a value.
pub open spec fn trim_quotes(s: Seq<char>) -> Seq<char>
    decreases s.len(),
{
    if s.len() > 0 && (s[0] == '"' || s[0] == '\'') {
        trim_quotes(s.drop_first())
    } else if s.len() > 0 && (s.last() == '"' || s.last() == '\'') {
        trim_quotes(s.drop_last())
    } else {
        s
    }
}

/// One trimmed line's contribution: `None` for a comment, a line without '=', a
/// different key, or an empty value.
pub open spec fn env_line(line: Seq<char>, key: Seq<char>) -> Option<Seq<char>> {
    if line.len() > 0 && line[0] == '#' {
        None
    } else {
        match crate::text::split_once(line, '=') {
            Some((k, v)) => if trim(k) == key && trim_quotes(trim(v)).len() > 0 {
                Some(trim_quotes(trim(v)))
            } else {
                None
            },
            None => None,
        }
    }
}

fn trim_quotes_exec(v: &Vec<char>) -> (r: Vec<char>)
    ensures
        r@ == trim_quotes(v@),
{
    let mut a: usize = 0;
    let mut b: usize = v.len();
    assert(v@.subrange(0, v@.len() as int) == v@);
    while a < b && (v[a] == '"' || v[a] == '\'' || v[b - 1] == '"' || v[b - 1] == '\'')
        invariant
            a <= b <= v@.len(),
            trim_quotes(v@) == trim_quotes(v@.subrange(a as int, b as int)),
        decreases b - a,
    {
        let ghost s = v@.subrange(a as int, b as int);
        if v[a] == '"' || v[a] == '\'' {
            assert(s[0] == v@[a as int]);
            assert(s.drop_first() == v@.subrange(a + 1, b as int));
            a = a + 1;
        } else {
            assert(s[0] == v@[a as int]);
            assert(s.last() == v@[b - 1]);
            assert(s.drop_last() == v@.subrange(a as int, b - 1));
            b = b - 1;
        }
    }
    let mut r: Vec<char> = Vec::new();
    let mut i: usize = a;
    while i < b
        invariant
            a <= i <= b <= v@.len(),
            r@ == v@.subrange(a as int, i as int),
        decreases b - i,
    {
        r.push(v[i]);
        assert(v@.subrange(a as int, i + 1) == v@.subrange(a as int, i as int).push(v@[i as int]));
        i = i + 1;
    }
    proof {
        let s = v@.subrange(a as int, b as int);
        assert(trim_quotes(s) == s);
    }
    r
}

fn env_line_exec(line: &Vec<char>, key: &Vec<char>) -> (r: Option<Vec<char>>)
    ensures
        match r {
            Some(v) => env_line(line@, key@) == Some(v@),
            None => env_line(line@, key@) is None,
        },
{
    if line.len() > 0 && line[0] == '#' {
        return None;
    }
    match crate::text::split_once_chars(line, '=') {
        Some((k, v)) => {
            let tk = trim_chars(&k);
            let tv = trim_chars(&v);
            let q = trim_quotes_exec(&tv);
            if crate::text::chars_eq(&tk, key) && q.len() > 0 {
                Some(q)
            } else {
                None
            }
        },
        None => None,
    }
}

/// The value of `key` in `.env` text (see [`env_value`]), read line by line.
pub fn env_setting(txt: &str, key: &str) -> (r: Option<String>)
    ensures
        match r {
            Some(v) => env_value(split_on(txt@, '\n'), key@) == Some(v@),
            None => env_value(split_on(txt@, '\n'), key@) is None,
        },
{
    let t = chars_of(txt);
    let kv = chars_of(key);
    let lines = split_chars(&t, '\n');
    let ghost ls = split_on(txt@, '\n');
    let mut i: usize = 0;
    assert(ls.skip(0) == ls);
    while i < lines.len()
        invariant
            ls == split_on(txt@, '\n'),
            lines@.len() == ls.len(),
            forall|q: int| 0 <= q < ls.len() ==> #[trigger] lines@[q]@ == ls[q],
            kv@ == key@,
            i <= ls.len(),
            env_value(ls, key@) == env_value(ls.skip(i as int), key@),
        decreases ls.len() - i,
    {
        assert(ls.skip(i as int)[0] == ls[i as int]);
        assert(ls.skip(i as int).drop_first() == ls.skip(i + 1));
        assert(lines@[i as int]@ == ls[i as int]);
        let line = trim_chars(&lines[i]);
        match env_line_exec(&line, &kv) {
            Some(v) => {
                return Some(string_of(&v));
            },
            None => {},
        }
        i = i + 1;
    }
    None
}

/// Why an import request was refused.
#[derive(Debug)]
pub enum ImportError {
    /// The upload token is empty or could leave the staging directory.
    BadToken,
    /// The slug sanitizes to nothing.
    NoSlug,
    /// Nothing was uploaded.
    NoFile,
    /// An OCR engine name that isn't plain letters and digits.
    BadEngine,
}

/// An upload token is a plain file name inside the staging directory.
pub open spec fn token_ok(t: Seq<char>) -> bool {
    &&& t.len() > 0
    &&& forall|i: int| 0 <= i < t.len() ==> #[trigger] t[i] != '/' && t[i] != '\\'
    &&& !exists|i: int| 0 <= i < t.len() - 1 && t[i] == '.' && #[trigger] t[i + 1] == '.'
}

pub fn valid_token(token: &str) -> (b: bool)
    ensures
        b == token_ok(token@),
{
    let v = chars_of(token);
    if v.len() == 0 {
        return false;
    }
    let mut i: usize = 0;
    while i < v.len()
        invariant
            v@ == token@,
            v@.len() > 0,
            i <= v@.len(),
            forall|k: int| 0 <= k < i ==> #[trigger] v@[k] != '/' && v@[k] != '\\',
            forall|k: int| 0 <= k < i - 1 ==> !(v@[k] == '.' && #[trigger] v@[k + 1] == '.'),
        decreases v@.len() - i,
    {
        if v[i] == '/' || v[i] == '\\' {
            return false;
        }
        if i > 0 && v[i] == '.' && v[i - 1] == '.' {
            assert(v@[i - 1] == '.' && v@[(i - 1) + 1] == '.');
            return false;
        }
        i = i + 1;
    }
    true
}

/// What a confirmed import runs the importer with: the staged file, the slug,
/// title, author and original file name, and the year when one was given
/// (trimmed).
pub open spec fn import_args_of(staged: Seq<char>, slug: Seq<char>, title: Seq<char>, author: Seq<char>, orig: Seq<char>, year: Seq<char>) -> Seq<Seq<char>> {
    seq!["--commit"@, staged, "--slug"@, slug, "--title"@, title, "--author"@, author, "--orig-filename"@, orig]
        + if trim(year).len() > 0 {
        seq!["--year"@, trim(year)]
    } else {
        Seq::empty()
    }
}

/// Check a confirmed import and build the importer's arguments: the token must be
/// a plain staging file name, the slug must sanitize to something.
pub fn import_args(token: &str, staged: &str, slug: &str, title: &str, author: &str, year: &str, orig: &str) -> (r: Result<Vec<String>, ImportError>)
    ensures
        !token_ok(token@) ==> r matches Err(ImportError::BadToken),
        token_ok(token@) && slug_of(slug@).len() == 0 ==> r matches Err(ImportError::NoSlug),
        r is Ok <==> token_ok(token@) && slug_of(slug@).len() > 0,
        r matches Ok(a) ==> a@.len() == import_args_of(staged@, slug_of(slug@), title@, author@, orig@, year@).len()
            && forall|i: int| 0 <= i < a@.len() ==> #[trigger] a@[i]@ == import_args_of(staged@, slug_of(slug@), title@, author@, orig@, year@)[i],
{
    if !valid_token(token) {
        return Err(ImportError::BadToken);
    }
    let s = sanitize_slug(slug);
    if chars_of(s.as_str()).len() == 0 {
        return Err(ImportError::NoSlug);
    }
    let ghost sv = s@;
    let mut args: Vec<String> = Vec::new();
    args.push("--commit".to_owned());
    args.push(staged.to_owned());
    args.push("--slug".to_owned());
    args.push(s);
    args.push("--title".to_owned());
    args.push(title.to_owned());
    args.push("--author".to_owned());
    args.push(author.to_owned());
    args.push("--orig-filename".to_owned());
    args.push(orig.to_owned());
    let y = trim_str(year);
    if y.len() > 0 {
        args.push("--year".to_owned());
        args.push(string_of(&y));
    }
    proof {
        assert(sv.len() > 0);
        let e = import_args_of(staged@, slug_of(slug@), title@, author@, orig@, year@);
        assert(args@.len() == e.len());
        assert forall|i: int| 0 <= i < args@.len() implies #[trigger] args@[i]@ == e[i] by {}
    }
    Ok(args)
}

/// The extension an uploaded file is staged with: its own, lowercased, when that
/// is non-empty plain letters and digits, else "txt".
pub open spec fn upload_ext_of(ext: Option<Seq<char>>) -> Seq<char> {
    match ext {
        Some(e) => if lowercase(e).len() > 0 && forall|i: int| 0 <= i < lowercase(e).len() ==> is_alnum(#[trigger] lowercase(e)[i]) {
            lowercase(e)
        } else {
            "txt"@
        },
        None => "txt"@,
    }
}

pub fn upload_ext(ext: Option<&str>) -> (r: String)
    ensures
        r@ == upload_ext_of(match ext {
            Some(e) => Some(e@),
            None => None,
        }),
{
    match ext {
        Some(e) => {
            let l = to_lowercase(e);
            let v = chars_of(l.as_str());
            if v.len() == 0 {
                return "txt".to_owned();
            }
            let mut i: usize = 0;
            while i < v.len()
                invariant
                    ext == Some(e),
                    v@ == lowercase(e@),
                    i <= v@.len(),
                    forall|k: int| 0 <= k < i ==> is_alnum(#[trigger] v@[k]),
                decreases v@.len() - i,
            {
                if !is_ascii_alnum(v[i]) {
                    assert(!is_alnum(lowercase(e@)[i as int]));
                    return "txt".to_owned();
                }
                i = i + 1;
            }
            l
        },
        None => "txt".to_owned(),
    }
}

/// The stored file's extension for a book's recorded format.
pub open spec fn format_ext_of(fmt: Option<Seq<char>>) -> Seq<char> {
    if fmt == Some("epub"@) {
        "epub"@
    } else if fmt == Some("pdf"@) {
        "pdf"@
    } else {
        "txt"@
    }
}

pub fn format_ext(fmt: Option<&str>) -> (r: &'static str)
    ensures
        r@ == format_ext_of(match fmt {
            Some(f) => Some(f@),
            None => None,
        }),
{
    match fmt {
        Some(f) => if str_eq(f, "epub") {
            "epub"
        } else if str_eq(f, "pdf") {
            "pdf"
        } else {
            "txt"
        },
        None => "txt",
    }
}

/// A publication year as typed: trimmed, an integer, and within 1000..=2200.
pub open spec fn year_of(s: Seq<char>) -> Option<i64> {
    match parse_i64(trim(s)) {
        Some(y) => if 1000 <= y <= 2200 {
            Some(y)
        } else {
            None
        },
        None => None,
    }
}

pub fn parse_year(s: &str) -> (r: Option<i64>)
    ensures
        r == year_of(s@),
{
    let t = trim_str(s);
    match parse_i64_chars(&t) {
        Some(y) => if 1000 <= y && y <= 2200 {
            Some(y)
        } else {
            None
        },
        None => None,
    }
}

/// An OCR engine name: plain ASCII letters and digits (empty allowed).
pub fn check_engine(engine: &str) -> (r: Result<(), ImportError>)
    ensures
        r is Ok <==> forall|i: int| 0 <= i < engine@.len() ==> is_alnum(#[trigger] engine@[i]),
        r is Err ==> r matches Err(ImportError::BadEngine),
{
    let v = chars_of(engine);
    let mut i: usize = 0;
    while i < v.len()
        invariant
            v@ == engine@,
            i <= v@.len(),
            forall|k: int| 0 <= k < i ==> is_alnum(#[trigger] v@[k]),
        decreases v@.len() - i,
    {
        if !is_ascii_alnum(v[i]) {
            return Err(ImportError::BadEngine);
        }
        i = i + 1;
    }
    Ok(())
}

/// The OCR job for a book: the engine ("auto" when none is named), the importer
/// arguments (the engine only when not "auto"), and the job label.
pub fn ocr_job(slug: &str, engine: &str) -> (r: (String, Vec<String>, String))
    ensures
        ({
            let eng = if engine@.len() == 0 { "auto"@ } else { engine@ };
            &&& r.0@ == eng
            &&& r.1@.len() == (if eng == "auto"@ { 2int } else { 4int })
            &&& r.1@[0]@ == "--ocr-book"@
            &&& r.1@[1]@ == slug@
            &&& (eng != "auto"@ ==> r.1@[2]@ == "--engine"@ && r.1@[3]@ == eng)
            &&& r.2@ == "OCR ("@ + eng + ")…"@
        }),
{
    let eng = if chars_of(engine).len() == 0 {
        "auto".to_owned()
    } else {
        engine.to_owned()
    };
    let mut args: Vec<String> = Vec::new();
    args.push("--ocr-book".to_owned());
    args.push(slug.to_owned());
    if !str_eq(eng.as_str(), "auto") {
        args.push("--engine".to_owned());
        args.push(eng.clone());
    }
    let mut label = "OCR (".to_owned();
    push_str(&mut label, eng.as_str());
    push_str(&mut label, ")…");
    (eng, args, label)
}

/// The re-ingest job for a book from a chosen text source: its importer
/// arguments and label.
pub fn reingest_job(slug: &str, source: &str) -> (r: (Vec<String>, String))
    ensures
        r.0@.len() == 4,
        r.0@[0]@ == "--reingest"@,
        r.0@[1]@ == slug@,
        r.0@[2]@ == "--text-source"@,
        r.0@[3]@ == source@,
        r.1@ == "switching to "@ + source@ + "…"@,
{
    let mut args: Vec<String> = Vec::new();
    args.push("--reingest".to_owned());
    args.push(slug.to_owned());
    args.push("--text-source".to_owned());
    args.push(source.to_owned());
    let mut label = "switching to ".to_owned();
    push_str(&mut label, source);
    push_str(&mut label, "…");
    (args, label)
}

/// The scoring job for an imported book: its slug sanitized, refused when
/// nothing is left; the importer arguments and the label.
pub fn rescore_job(slug: &str) -> (r: Result<(String, Vec<String>, String), ImportError>)
    ensures
        r is Err <==> slug_of(slug@).len() == 0,
        r is Err ==> r matches Err(ImportError::NoSlug),
        r matches Ok(j) ==> {
            &&& j.0@ == slug_of(slug@)
            &&& j.1@.len() == 2
            &&& j.1@[0]@ == "--rescore"@
            &&& j.1@[1]@ == slug_of(slug@)
            &&& j.2@ == "scoring "@ + slug_of(slug@) + "…"@
        },
{
    let s = sanitize_slug(slug);
    if chars_of(s.as_str()).len() == 0 {
        return Err(ImportError::NoSlug);
    }
    let mut label = "scoring ".to_owned();
    push_str(&mut label, s.as_str());
    push_str(&mut label, "…");
    let mut args: Vec<String> = Vec::new();
    args.push("--rescore".to_owned());
    args.push(s.clone());
    Ok((s, args, label))
}

/// The OCR cache file of one engine for a stored book: `<slug>.<ext>.ocr.<engine>.json`.
pub fn ocr_sidecar(slug: &str, ext: &str, engine: &str) -> (r: String)
    ensures
        r@ == slug@ + "."@ + ext@ + ".ocr."@ + engine@ + ".json"@,
{
    let mut r = slug.to_owned();
    push_str(&mut r, ".");
    push_str(&mut r, ext);
    push_str(&mut r, ".ocr.");
    push_str(&mut r, engine);
    push_str(&mut r, ".json");
    r
}


/// `s` without any trailing slashes.
pub open spec fn without_trailing_slashes(s: Seq<char>) -> Seq<char>
    decreases s.len(),
{
    if s.len() > 0 && s.last() == '/' {
        without_trailing_slashes(s.drop_last())
    } else {
        s
    }
}

/// The path prefix the app is served under, from the `X-Ingress-Path` request
/// header (or the `data-base` attribute stamped onto the page): the value without
/// trailing slashes, or "" when there is none.
pub fn ingress_base(header: Option<&str>) -> (r: String)
    ensures
        r@ == (match header {
            Some(h) => without_trailing_slashes(h@),
            None => Seq::<char>::empty(),
        }),
{
    match header {
        None => String::new(),
        Some(h) => {
            let v = chars_of(h);
            let mut n: usize = v.len();
            assert(v@.subrange(0, n as int) =~= h@);
            while n > 0 && v[n - 1] == '/'
                invariant
                    n <= v.len(),
                    v@ == h@,
                    without_trailing_slashes(v@.subrange(0, n as int)) == without_trailing_slashes(h@),
                decreases n,
            {
                assert(v@.subrange(0, n as int).drop_last() =~= v@.subrange(0, n - 1));
                n = n - 1;
            }
            assert(v@.subrange(0, v.len() as int) =~= v@);
            let out = slice_chars(&v, 0, n);
            string_of(&out)
        },
    }
}

/// What the importer's JSON reply says: success when its "ok" member is `true`;
/// otherwise its "error" message, or "import failed" when it gives none.
pub fn importer_verdict(ok: Option<bool>, error: Option<String>) -> (r: Result<(), String>)
    ensures
        r is Ok <==> ok == Some(true),
        ok != Some(true) ==> (match error {
            Some(e) => r == Err::<(), String>(e),
            None => r matches Err(m) && m@ == "import failed"@,
        }),
{
    match ok {
        Some(true) => Ok(()),
        _ => match error {
            Some(e) => Err(e),
            None => Err("import failed".to_owned()),
        },
    }
}

/// What `serde_json::from_slice::<serde_json::Value>` makes of the importer's
/// standard output: the top-level "ok" member (when a boolean) and "error" member
/// (when a string) of the parsed value, or, when the bytes are not JSON, the text
/// of serde_json's error.
pub uninterp spec fn importer_json(stdout: Seq<u8>) -> Result<(Option<bool>, Option<Seq<char>>), Seq<char>>;

/// The plain view of the parsed members or of the parse error's text.
pub open spec fn fields_view(r: Result<(Option<bool>, Option<String>), String>) -> Result<(Option<bool>, Option<Seq<char>>), Seq<char>> {
    match r {
        Ok(f) => Ok((f.0, opt_chars(f.1))),
        Err(m) => Err(m@),
    }
}

/// Parses `stdout` with `serde_json::from_slice::<serde_json::Value>` and reads the
/// "ok" boolean and "error" string members, or gives the parse error's text. The
/// contract only names the result: JSON parsing is serde_json's and is not
/// restated here.
#[verifier::external_body]
fn importer_json_fields(stdout: &[u8]) -> (r: Result<(Option<bool>, Option<String>), String>)
    ensures
        fields_view(r) == importer_json(stdout@),
{
    match serde_json::from_slice::<serde_json::Value>(stdout) {
        Ok(v) => Ok((
            v.get("ok").and_then(|b| b.as_bool()),
            v.get("error").and_then(|e| e.as_str()).map(|e| e.to_string()),
        )),
        Err(e) => Err(e.to_string()),
    }
}

/// What `String::from_utf8_lossy` makes of `bytes`: their UTF-8 decoding, with
/// each invalid sequence replaced by U+FFFD.
pub uninterp spec fn utf8_lossy(bytes: Seq<u8>) -> Seq<char>;

/// `String::from_utf8_lossy(bytes)`, owned. The contract only names the result:
/// the decoding is std's and is not restated here.
#[verifier::external_body]
fn lossy_text(bytes: &[u8]) -> (r: String)
    ensures
        r@ == utf8_lossy(bytes@),
{
    String::from_utf8_lossy(bytes).into_owned()
}

/// The refusal for an importer reply that is not JSON: the parse error, then the
/// reply itself, trimmed.
pub open spec fn bad_json_text(error: Seq<char>, reply: Seq<char>) -> Seq<char> {
    "bad JSON from importer: "@ + error + " \u{2014} "@ + trim(reply)
}

/// The refusal for an importer reply that is not JSON, from serde_json's error
/// text and the reply decoded as text.
pub fn bad_json_message(error: &str, reply: &str) -> (m: String)
    ensures
        m@ == bad_json_text(error@, reply@),
{
    let mut m = String::new();
    push_str(&mut m, "bad JSON from importer: ");
    push_str(&mut m, error);
    push_str(&mut m, " \u{2014} ");
    let t = trim_str(reply);
    let ts = string_of(&t);
    push_str(&mut m, ts.as_str());
    m
}

/// How the importer's standard output is judged: text that is not JSON is
/// refused with the parse error and the text; a JSON reply is judged by
/// `importer_verdict` on its "ok" and "error" members.
pub open spec fn importer_reply_spec(stdout: Seq<u8>) -> Result<(), Seq<char>> {
    match importer_json(stdout) {
        Err(e) => Err(bad_json_text(e, utf8_lossy(stdout))),
        Ok((ok, error)) => if ok == Some(true) {
            Ok(())
        } else {
            Err(
                match error {
                    Some(x) => x,
                    None => "import failed"@,
                },
            )
        },
    }
}

/// Judges the importer's standard output: parses it as JSON and reads its
/// verdict.
pub fn importer_reply(stdout: &[u8]) -> (r: Result<(), String>)
    ensures
        r is Ok <==> importer_reply_spec(stdout@) is Ok,
        r matches Err(m) ==> importer_reply_spec(stdout@) == Err::<(), Seq<char>>(m@),
{
    match importer_json_fields(stdout) {
        Err(e) => {
            let text = lossy_text(stdout);
            Err(bad_json_message(e.as_str(), text.as_str()))
        },
        Ok((ok, error)) => importer_verdict(ok, error),
    }
}

/// The refusal for an importer that exited unsuccessfully: its error output,
/// trimmed.
pub open spec fn importer_failed_text(stderr: Seq<u8>) -> Seq<char> {
    "importer failed: "@ + trim(utf8_lossy(stderr))
}

/// How an importer run ends: an unsuccessful exit is refused with its error
/// output; otherwise its standard output is judged.
pub fn importer_outcome(exit_success: bool, stdout: &[u8], stderr: &[u8]) -> (r: Result<(), String>)
    ensures
        !exit_success ==> (r matches Err(m) && m@ == importer_failed_text(stderr@)),
        exit_success ==> (r is Ok <==> importer_reply_spec(stdout@) is Ok),
        exit_success ==> (r matches Err(m) ==> importer_reply_spec(stdout@) == Err::<(), Seq<char>>(m@)),
{
    if !exit_success {
        let text = lossy_text(stderr);
        let t = trim_str(text.as_str());
        let ts = string_of(&t);
        let mut m = String::new();
        push_str(&mut m, "importer failed: ");
        push_str(&mut m, ts.as_str());
        return Err(m);
    }
    importer_reply(stdout)
}

/// The app-relative route of a browser path: the path without the ingress base
/// when it starts with it, "/" when nothing is left.
pub open spec fn route_of(full: Seq<char>, base: Seq<char>) -> Seq<char> {
    let rel = match strip_prefix(full, base) {
        Some(r) => r,
        None => full,
    };
    if rel.len() == 0 {
        "/"@
    } else {
        rel
    }
}

/// The class of a menu link: `klass`, plus " active" when the browser is on the
/// link's route.
pub fn nav_class(full: &str, base: &str, route: &str, klass: &str) -> (r: String)
    ensures
        r@ == if route_of(full@, base@) == route@ {
            klass@ + " active"@
        } else {
            klass@
        },
{
    let v = chars_of(full);
    let rel = match strip_prefix_chars(&v, base) {
        Some(r) => r,
        None => v,
    };
    let rel = if rel.len() == 0 {
        chars_of("/")
    } else {
        rel
    };
    let rv = chars_of(route);
    let mut r = klass.to_owned();
    if chars_eq(&rel, &rv) {
        push_str(&mut r, " active");
    }
    r
}

/// The book the words page shows: the one asked for in the address, else the one
/// last viewed, else book 1; when the book list has arrived, holds books, and lacks
/// that one (a deleted or stale id), the first listed book instead.
pub fn resolve_book(asked: Option<i64>, stored: Option<i64>, listed: Option<&Vec<i64>>) -> (r: i64)
    ensures
        ({
            let want = match asked {
                Some(a) => a,
                None => match stored {
                    Some(s) => s,
                    None => 1,
                },
            };
            match listed {
                Some(ids) => if ids@.len() > 0 && !ids@.contains(want) {
                    r == ids@[0]
                } else {
                    r == want
                },
                None => r == want,
            }
        }),
{
    let want = match asked {
        Some(a) => a,
        None => match stored {
            Some(s) => s,
            None => 1,
        },
    };
    match listed {
        None => want,
        Some(ids) => {
            if ids.len() == 0 {
                return want;
            }
            let mut k: usize = 0;
            while k < ids.len()
                invariant
                    k <= ids@.len(),
                    listed == Some(ids),
                    want == match asked {
                        Some(a) => a,
                        None => match stored {
                            Some(s) => s,
                            None => 1,
                        },
                    },
                    forall|q: int| 0 <= q < k ==> ids@[q] != want,
                decreases ids@.len() - k,
            {
                if ids[k] == want {
                    assert(ids@[k as int] == want);
                    assert(ids@.contains(want));
                    return want;
                }
                k = k + 1;
            }
            ids[0]
        },
    }
}

/// What the OCR status reports of one engine for a book.
pub struct OcrEngineStatus {
    pub available: bool,
    pub detail: String,
    pub cached_pages: i64,
    pub complete: bool,
}

/// Engines ordered by name.
pub struct EngineName {
    pub name: String,
}

impl SortKey for EngineName {
    open spec fn key_le(self, other: Self) -> bool {
        !seq_lt(other.name@, self.name@)
    }

    proof fn lemma_key_total(a: Self, b: Self) {
        lemma_seq_le_total(a.name@, b.name@);
    }

    proof fn lemma_key_trans(a: Self, b: Self, c: Self) {
        lemma_seq_le_trans(a.name@, b.name@, c.name@);
    }

    fn le(&self, other: &Self) -> (r: bool) {
        let a = chars_of(self.name.as_str());
        let b = chars_of(other.name.as_str());
        !chars_lt(&b, &a)
    }
}

/// The OCR panel's engines, in name order.
pub open spec fn engines_by_name(engines: Seq<(String, OcrEngineStatus)>) -> Seq<(String, OcrEngineStatus)> {
    sorted_by_key(engines.map_values(|e: (String, OcrEngineStatus)| (EngineName { name: e.0 }, e))).map_values(
        |p: (EngineName, (String, OcrEngineStatus))| p.1,
    )
}

/// The OCR panel's engines, in name order.
pub fn ocr_engines_by_name(engines: Vec<(String, OcrEngineStatus)>) -> (r: Vec<(String, OcrEngineStatus)>)
    ensures
        r@ == engines_by_name(engines@),
{
    let ghost orig = engines@;
    let ghost mk = |e: (String, OcrEngineStatus)| (EngineName { name: e.0 }, e);
    let mut engines = engines;
    let n = engines.len();
    let mut keyed: Vec<(EngineName, (String, OcrEngineStatus))> = Vec::new();
    let mut i: usize = 0;
    while i < n
        invariant
            n == orig.len(),
            i <= n,
            engines@ == orig.skip(i as int),
            mk == (|e: (String, OcrEngineStatus)| (EngineName { name: e.0 }, e)),
            keyed@ == orig.take(i as int).map_values(mk),
        decreases n - i,
    {
        let e = engines.remove(0);
        assert(e == orig[i as int]);
        assert(engines@ == orig.skip(i + 1));
        let k = EngineName { name: e.0.clone() };
        keyed.push((k, e));
        assert(orig.take(i + 1).map_values(mk) =~= orig.take(i as int).map_values(mk).push(mk(orig[i as int])));
        i = i + 1;
    }
    assert(orig.take(n as int) == orig);
    let sorted = sort_by_key(keyed);
    let ghost sv = sorted@;
    let mut sorted = sorted;
    let m = sorted.len();
    let mut out: Vec<(String, OcrEngineStatus)> = Vec::new();
    let mut j: usize = 0;
    while j < m
        invariant
            m == sv.len(),
            j <= m,
            sorted@ == sv.skip(j as int),
            out@ == sv.take(j as int).map_values(|p: (EngineName, (String, OcrEngineStatus))| p.1),
        decreases m - j,
    {
        let (_, e) = sorted.remove(0);
        assert(sorted@ == sv.skip(j + 1));
        out.push(e);
        assert(sv.take(j + 1).map_values(|p: (EngineName, (String, OcrEngineStatus))| p.1) =~= sv.take(
            j as int,
        ).map_values(|p: (EngineName, (String, OcrEngineStatus))| p.1).push(sv[j as int].1));
        j = j + 1;
    }
    assert(sv.take(m as int) == sv);
    out
}

/// The text sources a book can switch to: "embedded", then "ocr:<engine>" for
/// each engine whose cache is complete, in the given order.
pub open spec fn text_sources(engines: Seq<(String, OcrEngineStatus)>) -> Seq<Seq<char>>
    decreases engines.len(),
{
    if engines.len() == 0 {
        seq!["embedded"@]
    } else {
        let r = text_sources(engines.drop_last());
        let e = engines.last();
        if e.1.complete {
            r.push("ocr:"@ + e.0@)
        } else {
            r
        }
    }
}

pub open spec fn strings_view(v: Seq<String>) -> Seq<Seq<char>> {
    v.map_values(|s: String| s@)
}

/// The text sources a book can switch to: "embedded", then "ocr:<engine>" for
/// each engine whose cache is complete.
pub fn ocr_text_sources(engines: &Vec<(String, OcrEngineStatus)>) -> (r: Vec<String>)
    ensures
        strings_view(r@) == text_sources(engines@),
{
    let mut out: Vec<String> = Vec::new();
    out.push("embedded".to_owned());
    let mut k: usize = 0;
    assert(strings_view(out@) =~= text_sources(engines@.take(0)));
    while k < engines.len()
        invariant
            k <= engines@.len(),
            strings_view(out@) == text_sources(engines@.take(k as int)),
        decreases engines@.len() - k,
    {
        assert(engines@.take(k + 1).drop_last() == engines@.take(k as int));
        assert(engines@.take(k + 1).last() == engines@[k as int]);
        if engines[k].1.complete {
            let mut src = "ocr:".to_owned();
            push_str(&mut src, engines[k].0.as_str());
            let ghost before = out@;
            out.push(src);
            assert(strings_view(out@) =~= strings_view(before).push("ocr:"@ + engines@[k as int].0@));
        }
        k = k + 1;
    }
    assert(engines@.take(engines@.len() as int) == engines@);
    out
}

/// An engine's cache line: "<cached>/<pages> ✓" when complete, "<cached>/<pages>
/// partial" when some pages are cached, else "not cached".
pub open spec fn cache_label(e: OcrEngineStatus, pages: i64) -> Seq<char> {
    if e.complete {
        int_dec(e.cached_pages as int) + "/"@ + int_dec(pages as int) + " ✓"@
    } else if e.cached_pages > 0 {
        int_dec(e.cached_pages as int) + "/"@ + int_dec(pages as int) + " partial"@
    } else {
        "not cached"@
    }
}

pub fn ocr_cache_label(e: &OcrEngineStatus, pages: i64) -> (r: String)
    ensures
        r@ == cache_label(*e, pages),
{
    if !e.complete && e.cached_pages <= 0 {
        return "not cached".to_owned();
    }
    let mut r = int_text(e.cached_pages);
    push_str(&mut r, "/");
    let p = int_text(pages);
    push_str(&mut r, p.as_str());
    if e.complete {
        push_str(&mut r, " ✓");
    } else {
        push_str(&mut r, " partial");
    }
    r
}

} // verus!
