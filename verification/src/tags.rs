//! The tag vocabulary: canonical tag names (dotted hierarchies, at most four
//! levels), section labels, scopes, interest levels and scales, and the rules
//! that validate what a request may store.

use vstd::prelude::*;
use crate::text::{
    chars_eq, chars_of, chars_start_with, collapse_whitespace, collapse_ws, find_char, is_alnum,
    is_alpha, is_ascii_alnum, is_ascii_alpha, is_digit, is_ws, join, join_chars, lemma_collapse_collapsed,
    collapsed, lemma_filter_all, lemma_join_all, lemma_join_ends, lemma_join_first, lemma_split_on_all,
    lemma_collapse_spaced, lemma_split_join, lemma_split_on_nonempty, lemma_split_positions, positions_of, slice_chars, spaced, split_chars, split_on, starts_with,
    str_eq, string_of, trim, trim_end, trim_start, trim_str,
};

verus! {

/// `str::to_lowercase`: Unicode lowercase mapping, character by character.
pub uninterp spec fn lowercase(s: Seq<char>) -> Seq<char>;

/// ASCII lowercase letters, digits, space, '-' and '.': characters whose only
/// lowercase mapping is themselves.
pub open spec fn lower_fixed(s: Seq<char>) -> bool {
    forall|i: int|
        0 <= i < s.len() ==> ('a' <= #[trigger] s[i] && s[i] <= 'z') || is_digit(s[i]) || s[i]
            == ' ' || s[i] == '-' || s[i] == '.'
}

/// Only ASCII characters.
pub open spec fn ascii_text(s: Seq<char>) -> bool {
    forall|i: int| 0 <= i < s.len() ==> (#[trigger] s[i] as u32) < 128
}

proof fn lemma_trim_start_ascii(s: Seq<char>)
    requires
        ascii_text(s),
    ensures
        ascii_text(trim_start(s)),
    decreases s.len(),
{
    if s.len() > 0 && is_ws(s[0]) {
        assert forall|i: int| 0 <= i < s.drop_first().len() implies (#[trigger] s.drop_first()[i] as u32) < 128 by {
            assert(s.drop_first()[i] == s[i + 1]);
        }
        lemma_trim_start_ascii(s.drop_first());
    }
}

proof fn lemma_trim_end_ascii(s: Seq<char>)
    requires
        ascii_text(s),
    ensures
        ascii_text(trim_end(s)),
    decreases s.len(),
{
    if s.len() > 0 && is_ws(s.last()) {
        assert forall|i: int| 0 <= i < s.drop_last().len() implies (#[trigger] s.drop_last()[i] as u32) < 128 by {
            assert(s.drop_last()[i] == s[i]);
        }
        lemma_trim_end_ascii(s.drop_last());
    }
}

/// Trimming ASCII text leaves ASCII text.
pub proof fn lemma_trim_ascii(s: Seq<char>)
    ensures
        ascii_text(s) ==> ascii_text(trim(s)),
{
    if ascii_text(s) {
        lemma_trim_start_ascii(s);
        lemma_trim_end_ascii(trim_start(s));
    }
}

/// ASCII lowercasing: 'A'..='Z' become 'a'..='z', every other character stays.
pub open spec fn ascii_lower(s: Seq<char>) -> Seq<char> {
    s.map_values(|c: char| if 'A' <= c && c <= 'Z' { ((c as u32) + 32) as char } else { c })
}

/// `str::to_lowercase`. Claimed of it: the result is the named lowercase mapping
/// of the input; on ASCII text it is ASCII lowercasing (A–Z to a–z, the rest
/// unchanged); a string of characters that have no other lowercase mapping
/// (ASCII lowercase letters, digits, space, '-', '.') comes back unchanged; and no
/// ASCII uppercase letter survives (each has a lowercase mapping). The mapping of
/// other non-ASCII characters is Unicode's and is not restated.
#[verifier::external_body]
pub(crate) fn to_lowercase(s: &str) -> (r: String)
    ensures
        r@ == lowercase(s@),
        ascii_text(s@) ==> r@ == ascii_lower(s@),
        lower_fixed(s@) ==> r@ == s@,
        forall|i: int| 0 <= i < r@.len() ==> !('A' <= #[trigger] r@[i] && r@[i] <= 'Z'),
{
    s.to_lowercase()
}

/// `char::is_alphanumeric`: Unicode Alphabetic or Numeric.
pub uninterp spec fn unicode_alnum(c: char) -> bool;

/// `char::is_alphanumeric`. Claimed of it: the result is the named property, and
/// ASCII letters and digits have it while other ASCII characters do not.
#[verifier::external_body]
pub(crate) fn is_alphanumeric(c: char) -> (r: bool)
    ensures
        r == unicode_alnum(c),
        is_alnum(c) ==> r,
        c <= '\u{7f}' && !is_alnum(c) ==> !r,
{
    c.is_alphanumeric()
}

/// A character a tag name keeps: ASCII letter or digit, space, '-'.
pub open spec fn keep_tag_char(c: char) -> bool {
    is_alnum(c) || c == ' ' || c == '-'
}

/// One dotted segment, cleaned: only kept characters, whitespace collapsed.
pub open spec fn clean_segment(raw: Seq<char>) -> Seq<char> {
    collapse_ws(raw.filter(|c: char| keep_tag_char(c)))
}

/// A usable segment: 1..=30 characters, at least one ASCII letter.
pub open spec fn segment_ok(seg: Seq<char>) -> bool {
    1 <= seg.len() <= 30 && exists|i: int| 0 <= i < seg.len() && is_alpha(seg[i])
}

/// The canonical name for already-lowercased, trimmed text, or `None` when it is
/// not a usable tag: 1 to 4 dotted segments, each usable once cleaned, `pick` never
/// at the head, `star` only alone.
pub open spec fn canonical_tag(lowered: Seq<char>) -> Option<Seq<char>> {
    let segs = split_on(lowered, '.').map_values(|raw: Seq<char>| clean_segment(raw));
    if segs.len() > 4 {
        None
    } else if exists|k: int| 0 <= k < segs.len() && !segment_ok(segs[k]) {
        None
    } else if segs[0] == "pick"@ || (segs[0] == "star"@ && segs.len() > 1) {
        None
    } else {
        Some(join(segs, seq!['.']))
    }
}

/// A cleaned segment is clean: cleaning it again changes nothing, and it holds no
/// dot.
proof fn lemma_clean_segment_clean(raw: Seq<char>)
    ensures
        clean_segment(clean_segment(raw)) == clean_segment(raw),
        forall|k: int| 0 <= k < clean_segment(raw).len() ==> #[trigger] clean_segment(raw)[k] != '.',
{
    let keep = |c: char| keep_tag_char(c);
    let f = raw.filter(keep);
    let seg = clean_segment(raw);
    assert forall|k: int| 0 <= k < f.len() implies keep(#[trigger] f[k]) by {
        raw.lemma_filter_pred(keep, k);
    }
    lemma_collapse_collapsed(f, keep);
    assert forall|k: int| 0 <= k < seg.len() implies #[trigger] seg[k] != '.' by {
        assert(keep(seg[k]));
    }
    lemma_filter_keeps_all(seg, keep);
    lemma_collapse_spaced(seg);
}

/// A canonical tag name is its own canonical form: canonicalizing the name that
/// canonicalization produced gives that name back.
pub proof fn lemma_canonical_tag_idempotent(lowered: Seq<char>)
    requires
        canonical_tag(lowered) is Some,
    ensures
        canonical_tag(canonical_tag(lowered)->0) == canonical_tag(lowered),
{
    let segs = split_on(lowered, '.').map_values(|raw: Seq<char>| clean_segment(raw));
    let c = join(segs, seq!['.']);
    lemma_split_on_nonempty(lowered, '.');
    assert forall|p: int, k: int| 0 <= p < segs.len() && 0 <= k < segs[p].len() implies #[trigger] segs[p][k] != '.' by {
        lemma_clean_segment_clean(split_on(lowered, '.')[p]);
    }
    lemma_split_join(segs, '.');
    let again = split_on(c, '.').map_values(|raw: Seq<char>| clean_segment(raw));
    assert forall|p: int| 0 <= p < segs.len() implies #[trigger] again[p] == segs[p] by {
        lemma_clean_segment_clean(split_on(lowered, '.')[p]);
    }
    assert(again =~= segs);
}

/// An ASCII capital letter.
pub open spec fn is_upper(c: char) -> bool {
    'A' <= c && c <= 'Z'
}

/// The canonical name of text without ASCII capitals has the shape of a stored
/// tag name: only ASCII lowercase letters, digits, spaces, dashes and dots, and
/// nothing to trim at either end.
proof fn lemma_canonical_tag_shape(lowered: Seq<char>)
    requires
        forall|i: int| 0 <= i < lowered.len() ==> !is_upper(#[trigger] lowered[i]),
        canonical_tag(lowered) is Some,
    ensures
        lower_fixed(canonical_tag(lowered)->0),
        trim(canonical_tag(lowered)->0) == canonical_tag(lowered)->0,
{
    let pieces = split_on(lowered, '.');
    let segs = pieces.map_values(|raw: Seq<char>| clean_segment(raw));
    let c = join(segs, seq!['.']);
    let keep = |ch: char| keep_tag_char(ch);
    let lowerish = |ch: char| !is_upper(ch);
    let seg_char = |ch: char| keep_tag_char(ch) && !is_upper(ch);
    let fixed_char = |ch: char| ('a' <= ch && ch <= 'z') || is_digit(ch) || ch == ' ' || ch == '-' || ch == '.';
    lemma_split_on_nonempty(lowered, '.');
    lemma_split_on_all(lowered, '.', lowerish);
    assert forall|k: int, i: int| 0 <= k < segs.len() && 0 <= i < segs[k].len() implies fixed_char(#[trigger] segs[k][i]) by {
        let raw = pieces[k];
        assert forall|j: int| 0 <= j < raw.len() implies lowerish(#[trigger] raw[j]) by {
            assert(lowerish(pieces[k][j]));
        }
        lemma_filter_all(raw, keep, lowerish);
        let f = raw.filter(keep);
        assert forall|j: int| 0 <= j < f.len() implies seg_char(#[trigger] f[j]) by {
            assert(lowerish(f[j]) && keep(f[j]));
        }
        lemma_collapse_collapsed(f, seg_char);
        assert(segs[k] == collapse_ws(f));
        assert(seg_char(segs[k][i]));
    }
    assert forall|i: int| 0 <= i < seq!['.'].len() implies fixed_char(#[trigger] seq!['.'][i]) by {}
    lemma_join_all(segs, seq!['.'], fixed_char);
    assert forall|i: int| 0 <= i < c.len() implies ('a' <= #[trigger] c[i] && c[i] <= 'z') || is_digit(c[i]) || c[i] == ' ' || c[i] == '-' || c[i] == '.' by {
        assert(fixed_char(c[i]));
    }
    // Nothing to trim: the first segment starts, and the last ends, with a
    // non-space.
    assert(segment_ok(segs[0]));
    assert(segment_ok(segs[segs.len() - 1]));
    let first = segs[0];
    let last = segs.last();
    lemma_clean_segment_clean(pieces[0]);
    lemma_clean_segment_clean(pieces[pieces.len() - 1]);
    assert forall|j: int| 0 <= j < pieces[0].filter(keep).len() implies keep(#[trigger] pieces[0].filter(keep)[j]) by {
        pieces[0].lemma_filter_pred(keep, j);
    }
    assert forall|j: int| 0 <= j < pieces[pieces.len() - 1].filter(keep).len() implies keep(
        #[trigger] pieces[pieces.len() - 1].filter(keep)[j],
    ) by {
        pieces[pieces.len() - 1].lemma_filter_pred(keep, j);
    }
    lemma_collapse_collapsed(pieces[0].filter(keep), keep);
    lemma_collapse_collapsed(pieces[pieces.len() - 1].filter(keep), keep);
    assert(collapsed(first));
    assert(collapsed(last));
    lemma_join_first(segs, seq!['.']);
    lemma_join_ends(segs, seq!['.']);
    assert(!is_ws(first[0])) by {
        if is_ws(first[0]) {
            assert(is_ws(first[0]));
        }
    }
    assert(!is_ws(c[0]));
    assert(!is_ws(c.last()));
    assert(trim_start(c) == c);
    assert(trim_end(c) == c);
}

/// The canonical collection form of a free-text tag name.
pub open spec fn sanitized(name: Seq<char>) -> Option<Seq<char>> {
    canonical_tag(lowercase(trim(name)))
}

proof fn lemma_filter_step(s: Seq<char>, i: int)
    requires
        0 <= i < s.len(),
    ensures
        s.take(i + 1).filter(|c: char| keep_tag_char(c)) == if keep_tag_char(s[i]) {
            s.take(i).filter(|c: char| keep_tag_char(c)).push(s[i])
        } else {
            s.take(i).filter(|c: char| keep_tag_char(c))
        },
{
    assert(s.take(i + 1) == s.take(i).push(s[i]));
    s.take(i).lemma_filter_push(s[i], |c: char| keep_tag_char(c));
}

fn clean_segment_exec(raw: &Vec<char>) -> (seg: Vec<char>)
    ensures
        seg@ == clean_segment(raw@),
{
    let mut kept: Vec<char> = Vec::new();
    let mut i: usize = 0;
    assert(raw@.take(0).filter(|c: char| keep_tag_char(c)) == Seq::<char>::empty()) by {
        reveal_with_fuel(Seq::<_>::filter, 1);
    }
    while i < raw.len()
        invariant
            i <= raw.len(),
            kept@ == raw@.take(i as int).filter(|c: char| keep_tag_char(c)),
        decreases raw.len() - i,
    {
        proof {
            lemma_filter_step(raw@, i as int);
        }
        let c = raw[i];
        if is_ascii_alnum(c) || c == ' ' || c == '-' {
            kept.push(c);
        }
        i = i + 1;
    }
    assert(raw@.take(raw.len() as int) == raw@);
    collapse_whitespace(&kept)
}

fn segment_ok_exec(seg: &Vec<char>) -> (b: bool)
    ensures
        b == segment_ok(seg@),
{
    if seg.len() < 1 || seg.len() > 30 {
        return false;
    }
    let mut i: usize = 0;
    while i < seg.len()
        invariant
            i <= seg.len(),
            1 <= seg.len() <= 30,
            forall|j: int| 0 <= j < i ==> !is_alpha(seg@[j]),
        decreases seg.len() - i,
    {
        if is_ascii_alpha(seg[i]) {
            assert(is_alpha(seg@[i as int]));
            return true;
        }
        i = i + 1;
    }
    false
}

fn is_word(v: &Vec<char>, w: &str) -> (b: bool)
    ensures
        b == (v@ == w@),
{
    let x = chars_of(w);
    chars_eq(v, &x)
}

/// The canonical name for text that is already trimmed and lowercased.
pub fn canonical_tag_of(lowered: &str) -> (r: Option<String>)
    ensures
        r is Some <==> canonical_tag(lowered@) is Some,
        r matches Some(t) ==> canonical_tag(lowered@) == Some(t@),
{
    let l = chars_of(lowered);
    let raw = split_chars(&l, '.');
    let ghost spec_segs = split_on(l@, '.').map_values(|r: Seq<char>| clean_segment(r));
    assert(spec_segs.len() == raw@.len());
    if raw.len() > 4 {
        return None;
    }
    let mut segs: Vec<Vec<char>> = Vec::new();
    let mut k: usize = 0;
    while k < raw.len()
        invariant
            k <= raw@.len(),
            l@ == lowered@,
            raw@.len() == split_on(l@, '.').len(),
            forall|m: int| 0 <= m < raw@.len() ==> #[trigger] raw@[m]@ == split_on(l@, '.')[m],
            spec_segs == split_on(l@, '.').map_values(|r: Seq<char>| clean_segment(r)),
            segs@.len() == k,
            raw@.len() <= 4,
            spec_segs.len() == raw@.len(),
            forall|m: int| 0 <= m < k ==> #[trigger] segs@[m]@ == spec_segs[m],
            forall|m: int| 0 <= m < k ==> segment_ok(#[trigger] spec_segs[m]),
        decreases raw@.len() - k,
    {
        let seg = clean_segment_exec(&raw[k]);
        if !segment_ok_exec(&seg) {
            assert(raw@[k as int]@ == split_on(l@, '.')[k as int]);
            assert(spec_segs[k as int] == clean_segment(split_on(l@, '.')[k as int]));
            assert(!segment_ok(spec_segs[k as int]));
            assert(canonical_tag(l@) is None);
            return None;
        }
        segs.push(seg);
        k = k + 1;
    }
    proof {
        lemma_split_on_nonempty(l@, '.');
    }
    if is_word(&segs[0], "pick") || (is_word(&segs[0], "star") && segs.len() > 1) {
        return None;
    }
    let dot: Vec<char> = vec!['.'];
    assert(segs@.map_values(|p: Vec<char>| p@) == spec_segs);
    assert(dot@ == seq!['.']);
    let joined = join_chars(&segs, &dot);
    Some(string_of(&joined))
}

/// Normalize a free-text tag name to its canonical collection form, or `None` if it
/// isn't a usable tag: trimmed and lowercased; a '.' nests the tag under its
/// prefix; each dotted segment keeps only ASCII letters, digits, spaces and '-',
/// with whitespace collapsed, and must hold 1..=30 characters including a letter;
/// at most 4 levels; `pick` can't head a name and `star` can't have children.
pub fn sanitize_tag(name: &str) -> (r: Option<String>)
    ensures
        r is Some <==> sanitized(name@) is Some,
        r matches Some(t) ==> sanitized(name@) == Some(t@),
        // What comes out is a stored name's shape and its own canonical form ...
        r matches Some(t) ==> lower_fixed(t@) && trim(t@) == t@ && canonical_tag(t@) == Some(t@),
        // ... and a name of that shape sanitizes to itself: sanitizing twice is
        // sanitizing once.
        lower_fixed(name@) && trim(name@) == name@ && canonical_tag(name@) == Some(name@) ==> (r matches Some(t)
            && t@ == name@),
        // On ASCII text, lowercasing is A-Z to a-z.
        ascii_text(name@) ==> sanitized(name@) == canonical_tag(ascii_lower(trim(name@))),
{
    let t = trim_str(name);
    let ts = string_of(&t);
    proof {
        lemma_trim_ascii(name@);
    }
    let lowered = to_lowercase(ts.as_str());
    let r = canonical_tag_of(lowered.as_str());
    proof {
        if r is Some {
            assert forall|i: int| 0 <= i < lowered@.len() implies !is_upper(#[trigger] lowered@[i]) by {}
            lemma_canonical_tag_shape(lowered@);
            lemma_canonical_tag_idempotent(lowered@);
        }
    }
    r
}

/// Is `anc` a proper ancestor of `name` in the dotted hierarchy?
pub open spec fn ancestor(anc: Seq<char>, name: Seq<char>) -> bool {
    name.len() > anc.len() && starts_with(name, anc) && name[anc.len() as int] == '.'
}

/// Is `anc` a proper ancestor of `name` in the dotted hierarchy (`thing` of
/// `thing.material`)?
pub fn is_ancestor(anc: &str, name: &str) -> (b: bool)
    ensures
        b == ancestor(anc@, name@),
{
    let a = chars_of(anc);
    let n = chars_of(name);
    n.len() > a.len() && chars_start_with(&n, &a) && n[a.len()] == '.'
}

/// Every proper-ancestor name of a dotted tag, outermost first.
pub open spec fn ancestors(name: Seq<char>) -> Seq<Seq<char>> {
    if starts_with(name, "pick:"@) || !name.contains('.') {
        Seq::empty()
    } else {
        let segs = split_on(name, '.');
        Seq::new((segs.len() - 1) as nat, |i: int| join(segs.take(i + 1), seq!['.']))
    }
}

/// The ancestors of a name that is not a `pick:` tag are exactly its proper
/// dotted ancestors, each once, shortest first, one for each '.' in the name.
pub proof fn lemma_ancestors_exact(name: Seq<char>)
    requires
        !starts_with(name, "pick:"@),
    ensures
        forall|a: Seq<char>| ancestors(name).contains(a) <==> ancestor(a, name),
        forall|i: int, j: int|
            0 <= i < j < ancestors(name).len() ==> (#[trigger] ancestors(name)[i]).len() < (
            #[trigger] ancestors(name)[j]).len(),
        ancestors(name).no_duplicates(),
        ancestors(name).len() == name.filter(|c: char| c == '.').len(),
{
    lemma_split_positions(name, '.');
    let d = positions_of(name, '.');
    let anc = ancestors(name);
    if name.contains('.') {
        assert(anc.len() == d.len());
        assert forall|i: int| 0 <= i < anc.len() implies #[trigger] anc[i] == name.take(d[i]) by {
            assert(anc[i] == join(split_on(name, '.').take(i + 1), seq!['.']));
        }
        assert forall|a: Seq<char>| anc.contains(a) <==> ancestor(a, name) by {
            if anc.contains(a) {
                let i = choose|i: int| 0 <= i < anc.len() && anc[i] == a;
                assert(anc[i] == name.take(d[i]));
                assert(name.take(a.len() as int) == a);
            }
            if ancestor(a, name) {
                let p = a.len() as int;
                assert(name[p] == '.');
                let i = choose|i: int| 0 <= i < d.len() && d[i] == p;
                assert(anc[i] == name.take(p));
                assert(name.take(p) == a);
            }
        }
        assert forall|i: int, j: int| 0 <= i < j < anc.len() implies (#[trigger] anc[i]).len() < (#[trigger] anc[j]).len() by {
            assert(anc[i] == name.take(d[i]));
            assert(anc[j] == name.take(d[j]));
        }
        assert forall|i: int, j: int| 0 <= i < anc.len() && 0 <= j < anc.len() && i != j implies anc[i] != anc[j] by {
            assert(anc[i] == name.take(d[i]));
            assert(anc[j] == name.take(d[j]));
            if i < j {
                assert(d[i] < d[j]);
            } else {
                assert(d[j] < d[i]);
            }
        }
    } else {
        assert(d.len() == 0) by {
            if d.len() > 0 {
                assert(name[d[0]] == '.');
            }
        }
        assert forall|a: Seq<char>| !ancestor(a, name) by {
            if ancestor(a, name) {
                assert(name[a.len() as int] == '.');
            }
        }
    }
}

/// Every proper-ancestor name of a dotted tag, outermost first: `"a.b.c"` ->
/// `["a", "a.b"]`. Empty for top-level or `pick:` tags.
pub fn ancestor_names(name: &str) -> (r: Vec<String>)
    ensures
        r@.len() == ancestors(name@).len(),
        forall|i: int| 0 <= i < r@.len() ==> #[trigger] r@[i]@ == ancestors(name@)[i],
{
    let n = chars_of(name);
    let pick = chars_of("pick:");
    if chars_start_with(&n, &pick) {
        return Vec::new();
    }
    if find_char(&n, '.').is_none() {
        return Vec::new();
    }
    let segs = split_chars(&n, '.');
    proof {
        lemma_split_on_nonempty(n@, '.');
    }
    let ghost ss = split_on(n@, '.');
    let dot: Vec<char> = vec!['.'];
    let mut out: Vec<String> = Vec::new();
    let mut prefix: Vec<Vec<char>> = Vec::new();
    prefix.push(clone_chars(&segs[0]));
    let mut i: usize = 1;
    while i < segs.len()
        invariant
            1 <= i <= segs@.len(),
            segs@.len() == ss.len(),
            forall|k: int| 0 <= k < segs@.len() ==> #[trigger] segs@[k]@ == ss[k],
            dot@ == seq!['.'],
            prefix@.map_values(|p: Vec<char>| p@) == ss.take(i as int),
            out@.len() == i - 1,
            forall|k: int| 0 <= k < i - 1 ==> #[trigger] out@[k]@ == join(ss.take(k + 1), seq!['.']),
        decreases segs@.len() - i,
    {
        let joined = join_chars(&prefix, &dot);
        out.push(string_of(&joined));
        prefix.push(clone_chars(&segs[i]));
        assert(prefix@.map_values(|p: Vec<char>| p@) == ss.take(i + 1));
        i = i + 1;
    }
    out
}

pub fn clone_chars(v: &Vec<char>) -> (r: Vec<char>)
    ensures
        r@ == v@,
{
    let mut r: Vec<char> = Vec::new();
    let mut i: usize = 0;
    while i < v.len()
        invariant
            i <= v.len(),
            r@ == v@.take(i as int),
        decreases v.len() - i,
    {
        r.push(v[i]);
        assert(v@.take(i + 1) == v@.take(i as int).push(v@[i as int]));
        i = i + 1;
    }
    assert(v@.take(v.len() as int) == v@);
    r
}

/// A character a section label keeps: alphanumeric, space, '-'.
pub open spec fn keep_section_char(c: char) -> bool {
    unicode_alnum(c) || c == ' ' || c == '-'
}

/// A section label: trimmed, only alphanumerics/space/dash kept, whitespace
/// collapsed, at most 40 characters.
pub open spec fn section_label(s: Seq<char>) -> Seq<char> {
    let c = collapse_ws(trim(s).filter(|c: char| keep_section_char(c)));
    if c.len() > 40 {
        c.take(40)
    } else {
        c
    }
}

/// Normalize a subheading label: trim, keep only alphanumerics/space/dash,
/// collapse internal whitespace, cap at 40 characters. Case is preserved; the empty
/// string means "ungrouped".
pub fn sanitize_section(s: &str) -> (r: String)
    ensures
        r@ == section_label(s@),
{
    let t = trim_str(s);
    let mut kept: Vec<char> = Vec::new();
    let mut i: usize = 0;
    assert(t@.take(0).filter(|c: char| keep_section_char(c)) == Seq::<char>::empty()) by {
        reveal_with_fuel(Seq::<_>::filter, 1);
    }
    while i < t.len()
        invariant
            i <= t.len(),
            kept@ == t@.take(i as int).filter(|c: char| keep_section_char(c)),
        decreases t.len() - i,
    {
        let c = t[i];
        proof {
            assert(t@.take(i + 1) == t@.take(i as int).push(c));
            t@.take(i as int).lemma_filter_push(c, |c: char| keep_section_char(c));
        }
        if is_alphanumeric(c) || c == ' ' || c == '-' {
            kept.push(c);
        }
        i = i + 1;
    }
    assert(t@.take(t.len() as int) == t@);
    let c = collapse_whitespace(&kept);
    let n: usize = if c.len() > 40 { 40 } else { c.len() };
    let cut = slice_chars(&c, 0, n);
    assert(c@.len() <= 40 ==> c@.subrange(0, n as int) == c@);
    string_of(&cut)
}

/// Keeping the characters a predicate accepts changes nothing when it accepts all.
proof fn lemma_filter_keeps_all(s: Seq<char>, keep: spec_fn(char) -> bool)
    requires
        forall|k: int| 0 <= k < s.len() ==> keep(#[trigger] s[k]),
    ensures
        s.filter(keep) == s,
    decreases s.len(),
{
    reveal_with_fuel(Seq::<_>::filter, 1);
    if s.len() > 0 {
        let p = s.drop_last();
        assert forall|k: int| 0 <= k < p.len() implies keep(#[trigger] p[k]) by {
            assert(p[k] == s[k]);
        }
        lemma_filter_keeps_all(p, keep);
        assert(keep(s[s.len() - 1]));
        assert(p.push(s.last()) == s);
    } else {
        assert(s.filter(keep) =~= s);
    }
}

/// Normalizing a section label again leaves it as it is, unless the 40-character
/// cut left it ending in a space (which the second pass trims).
pub proof fn lemma_section_label_idempotent(s: Seq<char>)
    requires
        section_label(s).len() == 0 || section_label(s).last() != ' ',
    ensures
        section_label(section_label(s)) == section_label(s),
{
    let keep = |c: char| keep_section_char(c);
    let f = trim(s).filter(keep);
    let c = collapse_ws(f);
    let r = section_label(s);
    assert(r == if c.len() > 40 { c.take(40) } else { c });
    assert forall|k: int| 0 <= k < f.len() implies keep(#[trigger] f[k]) by {
        trim(s).lemma_filter_pred(keep, k);
    }
    lemma_collapse_collapsed(f, keep);
    assert(spaced(r)) by {
        assert forall|i: int| 0 <= i < r.len() && #[trigger] is_ws(r[i]) implies r[i] == ' ' && i > 0 && !is_ws(r[i - 1]) by {
            assert(r[i] == c[i]);
            assert(is_ws(c[i]));
            assert(r[i - 1] == c[i - 1]);
        }
    }
    assert forall|k: int| 0 <= k < r.len() implies keep(#[trigger] r[k]) by {
        assert(r[k] == c[k]);
    }
    if r.len() > 0 {
        assert(!is_ws(r.last())) by {
            if is_ws(r.last()) {
                assert(is_ws(r[r.len() - 1]));
            }
        }
        assert(!is_ws(r[0])) by {
            if is_ws(r[0]) {
                assert(is_ws(r[0]));
            }
        }
        assert(trim_start(r) == r);
        assert(trim_end(r) == r);
    } else {
        assert(trim(r) == r);
    }
    assert(trim(r) == r);
    lemma_filter_keeps_all(r, keep);
    lemma_collapse_spaced(r);
    assert(collapse_ws(r) == r);
}

/// A storable tag: a contextual `pick:<bucket>` tag (6..40 characters, the bucket
/// of ASCII letters, digits and '.') or a canonical collection name.
pub open spec fn tag_ok(tag: Seq<char>) -> bool {
    if starts_with(tag, "pick:"@) {
        6 <= tag.len() < 40 && forall|i: int|
            5 <= i < tag.len() ==> is_alnum(#[trigger] tag[i]) || tag[i] == '.'
    } else {
        sanitized(tag) == Some(tag)
    }
}

/// A tag value is allowed if it's a contextual `pick:<bucket>` tag or a clean
/// collection name (applying a brand-new collection name registers it).
pub fn tag_allowed(tag: &str) -> (b: bool)
    ensures
        b == tag_ok(tag@),
        // A name sanitizing produced is allowed.
        lower_fixed(tag@) && trim(tag@) == tag@ && canonical_tag(tag@) == Some(tag@) ==> b,
{
    let t = chars_of(tag);
    let pick = chars_of("pick:");
    if chars_start_with(&t, &pick) {
        proof {
            reveal_strlit("pick:");
            if lower_fixed(tag@) {
                assert(pick@[4] == ':');
                assert(t@.subrange(0, 5) == pick@);
                assert(t@[4] == t@.subrange(0, 5)[4]);
                assert(t@[4] == ':');
                assert(!(('a' <= t@[4] && t@[4] <= 'z') || is_digit(t@[4]) || t@[4] == ' ' || t@[4] == '-' || t@[4] == '.'));
            }
        }
        assert(pick@.len() == 5) by {
            reveal_strlit("pick:");
        }
        if !(6 <= t.len() && t.len() < 40) {
            return false;
        }
        let mut i: usize = 5;
        while i < t.len()
            invariant
                5 <= i <= t.len(),
                t@ == tag@,
                starts_with(t@, "pick:"@),
                6 <= t.len() < 40,
                forall|k: int| 5 <= k < i ==> is_alnum(#[trigger] t@[k]) || t@[k] == '.',
                !lower_fixed(tag@),
            decreases t.len() - i,
        {
            if !(is_ascii_alnum(t[i]) || t[i] == '.') {
                assert(!(is_alnum(t@[i as int]) || t@[i as int] == '.'));
                assert(starts_with(t@, "pick:"@));
                return false;
            }
            i = i + 1;
        }
        return true;
    }
    match sanitize_tag(tag) {
        Some(c) => str_eq(c.as_str(), tag),
        None => false,
    }
}

/// "book" (this book only) and "word" (the word across all books).
pub open spec fn scope_ok(s: Seq<char>) -> bool {
    s == "book"@ || s == "word"@
}

pub fn valid_scope(s: &str) -> (b: bool)
    ensures
        b == scope_ok(s@),
{
    str_eq(s, "book") || str_eq(s, "word")
}

pub open spec fn interest_ok(s: Seq<char>) -> bool {
    s == "interesting"@ || s == "neutral"@ || s == "uninteresting"@
}

pub fn valid_interest(s: &str) -> (b: bool)
    ensures
        b == interest_ok(s@),
{
    str_eq(s, "interesting") || str_eq(s, "neutral") || str_eq(s, "uninteresting")
}

/// Validate a tag `kind` + `scale_max`: 'scale' clamps the ceiling to 2..=10;
/// anything else is a plain 'bool' with ceiling 1.
pub fn norm_kind(kind: &str, scale_max: i64) -> (r: (&'static str, i64))
    ensures
        kind@ == "scale"@ ==> r.0@ == "scale"@ && r.1 == (if scale_max < 2 {
            2
        } else if scale_max > 10 {
            10
        } else {
            scale_max
        }),
        kind@ != "scale"@ ==> r.0@ == "bool"@ && r.1 == 1,
{
    if str_eq(kind, "scale") {
        ("scale", if scale_max < 2 { 2 } else if scale_max > 10 { 10 } else { scale_max })
    } else {
        ("bool", 1)
    }
}

/// A tag definition in the user's collection (builtin defaults + custom tags).
pub struct TagDef {
    pub name: String,
    pub comment: Option<String>,
    pub builtin: bool,
    /// 'book' (this book only) | 'word' (the word across all books).
    pub scope: String,
    /// 'interesting' (favourites) | 'neutral' (note) | 'uninteresting' (negative).
    pub interest: String,
    pub sort: i64,
    /// User subheading within a scope ('' = ungrouped).
    pub section: String,
    /// 'bool' (a plain on/off tag) | 'scale' (a 1..scale_max rating).
    pub kind: String,
    /// Top of the scale (bool tags are 1; scales are 2..=10).
    pub scale_max: i64,
    /// Optional per-level names as a JSON array, or None.
    pub scale_labels: Option<String>,
}

impl TagDef {
    /// True if this is a graded (1..scale_max) tag rather than a plain boolean.
    pub fn is_scale(&self) -> (b: bool)
        ensures
            b == (self.kind@ == "scale"@ && self.scale_max > 1),
    {
        str_eq(self.kind.as_str(), "scale") && self.scale_max > 1
    }

    /// The clamped ceiling used for a scale (defensive against bad stored data).
    pub fn max_level(&self) -> (m: i32)
        ensures
            m == if self.kind@ == "scale"@ && self.scale_max > 1 {
                if self.scale_max > 10 {
                    10
                } else {
                    self.scale_max
                }
            } else {
                1
            },
    {
        if self.is_scale() {
            if self.scale_max > 10 { 10 } else { self.scale_max as i32 }
        } else {
            1
        }
    }
}

} // verus!
