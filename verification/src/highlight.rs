//! Marking a word in an example sentence: the sentence split into plain and
//! highlighted pieces, each highlighted piece a whole-word, case-insensitive
//! occurrence of the word. Matching runs on the bytes of the lowercased sentence
//! and cuts the sentence itself at the same byte offsets.

use vstd::prelude::*;
use vstd::string::StringSliceAdditionalSpecFns;
use vstd::utf8::{encode_utf8, is_char_boundary, valid_utf8};
use crate::tags::{lowercase, to_lowercase};

verus! {

/// An ASCII letter or digit, as a byte.
pub open spec fn alnum_byte(b: u8) -> bool {
    (48 <= b && b <= 57) || (65 <= b && b <= 90) || (97 <= b && b <= 122)
}

/// The first place at or after `p` where `w` occurs in `h`.
pub open spec fn find_from(h: Seq<u8>, w: Seq<u8>, p: int) -> Option<int>
    decreases h.len() + 1 - p,
{
    if p < 0 || p + w.len() > h.len() {
        None
    } else if h.subrange(p, p + w.len()) == w {
        Some(p)
    } else {
        find_from(h, w, p + 1)
    }
}

/// An occurrence at `[st, en)` stands alone: no ASCII letter or digit touches it.
pub open spec fn whole_word(h: Seq<u8>, st: int, en: int) -> bool {
    (st == 0 || !alnum_byte(h[st - 1])) && (en == h.len() || !alnum_byte(h[en]))
}

/// The pieces of the sentence `t` from the scan position `from` on, given the
/// lowercased sentence `h`, the lowercased word `w` and where the last piece ended:
/// each whole-word occurrence (found left to right, not overlapping) becomes a
/// highlighted piece, preceded by the plain text since the last one; the rest of
/// the sentence ends it.
pub open spec fn pieces(t: Seq<u8>, h: Seq<u8>, w: Seq<u8>, from: int, last: int) -> Seq<(Seq<u8>, bool)>
    decreases h.len() - from,
{
    match find_from(h, w, from) {
        None => if last < t.len() {
            seq![(t.subrange(last, t.len() as int), false)]
        } else {
            Seq::empty()
        },
        Some(st) => {
            let en = st + w.len();
            if w.len() == 0 || st < from || en > h.len() {
                Seq::empty()
            } else if whole_word(h, st, en) {
                (if st > last {
                    seq![(t.subrange(last, st), false)]
                } else {
                    Seq::empty()
                }) + seq![(t.subrange(st, en), true)] + pieces(t, h, w, en, en)
            } else {
                pieces(t, h, w, en, last)
            }
        },
    }
}

/// The scan never cuts the sentence where it cannot be cut: every highlighted
/// occurrence lies within the sentence and starts and ends on character
/// boundaries of it.
pub open spec fn cuts_ok(t: Seq<u8>, h: Seq<u8>, w: Seq<u8>, from: int, last: int) -> bool
    decreases h.len() - from,
{
    match find_from(h, w, from) {
        None => true,
        Some(st) => {
            let en = st + w.len();
            if w.len() == 0 || st < from || en > h.len() {
                true
            } else if whole_word(h, st, en) {
                en <= t.len() && is_char_boundary(t, st) && is_char_boundary(t, en) && cuts_ok(t, h, w, en, en)
            } else {
                cuts_ok(t, h, w, en, last)
            }
        },
    }
}

/// The highlighted pieces of `text` for `word`, as bytes: the whole text as one
/// plain piece when the lowercased word is empty or nothing was cut out.
pub open spec fn highlighted(text: Seq<char>, word: Seq<char>) -> Seq<(Seq<u8>, bool)> {
    let t = encode_utf8(text);
    let h = encode_utf8(lowercase(text));
    let w = encode_utf8(lowercase(word));
    let p = pieces(t, h, w, 0, 0);
    if w.len() == 0 || p.len() == 0 {
        seq![(t, false)]
    } else {
        p
    }
}

/// The text can be cut wherever the scan for `word` would cut it.
pub open spec fn highlight_ok(text: Seq<char>, word: Seq<char>) -> bool {
    let w = encode_utf8(lowercase(word));
    w.len() == 0 || cuts_ok(encode_utf8(text), encode_utf8(lowercase(text)), w, 0, 0)
}

/// The pieces, each taken by its UTF-8 bytes.
pub open spec fn piece_bytes(v: Seq<(String, bool)>) -> Seq<(Seq<u8>, bool)> {
    v.map_values(|p: (String, bool)| (encode_utf8(p.0@), p.1))
}

proof fn lemma_find_from(h: Seq<u8>, w: Seq<u8>, p: int)
    ensures
        find_from(h, w, p) matches Some(st) ==> p <= st && st + w.len() <= h.len() && h.subrange(st, st + w.len())
            == w,
    decreases h.len() + 1 - p,
{
    if !(p < 0 || p + w.len() > h.len()) && h.subrange(p, p + w.len()) != w {
        lemma_find_from(h, w, p + 1);
    }
}

/// An ASCII letter or digit: '0'..='9', 'A'..='Z' or 'a'..='z'.
pub open spec fn letter_or_digit(b: u8) -> bool {
    ('0' as u8 <= b && b <= '9' as u8) || ('A' as u8 <= b && b <= 'Z' as u8) || ('a' as u8 <= b && b <= 'z' as u8)
}

/// The pieces' bytes, one after another.
pub open spec fn joined(p: Seq<(Seq<u8>, bool)>) -> Seq<u8>
    decreases p.len(),
{
    if p.len() == 0 {
        Seq::empty()
    } else {
        p[0].0 + joined(p.drop_first())
    }
}

/// Laid out from byte `at` of the lowercased text `h`, every highlighted piece
/// covers an occurrence of the lowercased word `w` in `h`, and neither the byte
/// of `h` just before it nor the one just after it (where there is one) is an
/// ASCII letter or digit: each highlighted piece is a whole word.
pub open spec fn marks_whole(p: Seq<(Seq<u8>, bool)>, h: Seq<u8>, w: Seq<u8>, at: int) -> bool
    decreases p.len(),
{
    if p.len() == 0 {
        true
    } else {
        let en = at + p[0].0.len();
        &&& p[0].1 ==> {
            &&& h.subrange(at, en) == w
            &&& (at == 0 || !letter_or_digit(h[at - 1]))
            &&& (en == h.len() || !letter_or_digit(h[en]))
        }
        &&& marks_whole(p.drop_first(), h, w, en)
    }
}

proof fn lemma_joined_concat(a: Seq<(Seq<u8>, bool)>, b: Seq<(Seq<u8>, bool)>, h: Seq<u8>, w: Seq<u8>, at: int)
    ensures
        joined(a + b) == joined(a) + joined(b),
        marks_whole(a + b, h, w, at) == (marks_whole(a, h, w, at) && marks_whole(b, h, w, at + joined(a).len())),
    decreases a.len(),
{
    if a.len() == 0 {
        assert(a + b =~= b);
        assert(joined(a) =~= Seq::<u8>::empty());
    } else {
        assert((a + b)[0] == a[0]);
        assert((a + b).drop_first() =~= a.drop_first() + b);
        lemma_joined_concat(a.drop_first(), b, h, w, at + a[0].0.len());
        assert(joined(a) == a[0].0 + joined(a.drop_first()));
        assert(joined(a + b) =~= joined(a) + joined(b));
    }
}

proof fn lemma_joined_one(x: (Seq<u8>, bool), h: Seq<u8>, w: Seq<u8>, at: int)
    ensures
        joined(seq![x]) == x.0,
        marks_whole(seq![x], h, w, at) == (x.1 ==> {
            let en = at + x.0.len();
            &&& h.subrange(at, en) == w
            &&& (at == 0 || !letter_or_digit(h[at - 1]))
            &&& (en == h.len() || !letter_or_digit(h[en]))
        }),
{
    assert(seq![x].drop_first() =~= Seq::<(Seq<u8>, bool)>::empty());
    assert(seq![x][0] == x);
    assert(marks_whole(Seq::<(Seq<u8>, bool)>::empty(), h, w, at + x.0.len()));
    assert(joined(seq![x]) == x.0 + joined(Seq::<(Seq<u8>, bool)>::empty()));
    assert(x.0 + Seq::<u8>::empty() =~= x.0);
}

proof fn lemma_pieces_whole(t: Seq<u8>, h: Seq<u8>, w: Seq<u8>, from: int, last: int)
    requires
        w.len() > 0,
        0 <= last <= from,
        last <= t.len(),
        cuts_ok(t, h, w, from, last),
    ensures
        joined(pieces(t, h, w, from, last)) == t.subrange(last, t.len() as int),
        marks_whole(pieces(t, h, w, from, last), h, w, last),
    decreases h.len() - from,
{
    lemma_find_from(h, w, from);
    let e = Seq::<(Seq<u8>, bool)>::empty();
    match find_from(h, w, from) {
        None => {
            if last < t.len() {
                lemma_joined_one((t.subrange(last, t.len() as int), false), h, w, last);
            } else {
                assert(t.subrange(last, t.len() as int) =~= Seq::<u8>::empty());
            }
        },
        Some(st) => {
            let en = st + w.len();
            if whole_word(h, st, en) {
                lemma_pieces_whole(t, h, w, en, en);
                let rest = pieces(t, h, w, en, en);
                let pre = if st > last {
                    seq![(t.subrange(last, st), false)]
                } else {
                    e
                };
                let mark = seq![(t.subrange(st, en), true)];
                assert(pieces(t, h, w, from, last) == pre + mark + rest);
                lemma_joined_concat(pre + mark, rest, h, w, last);
                lemma_joined_concat(pre, mark, h, w, last);
                lemma_joined_one((t.subrange(st, en), true), h, w, st);
                if st > last {
                    lemma_joined_one((t.subrange(last, st), false), h, w, last);
                } else {
                    assert(joined(e) =~= Seq::<u8>::empty());
                }
                assert(joined(pre).len() == st - last);
                assert(joined(pre + mark).len() == en - last);
                assert(t.subrange(last, st) + t.subrange(st, en) + t.subrange(en, t.len() as int) =~= t.subrange(
                    last,
                    t.len() as int,
                ));
                if st == last {
                    assert(joined(pre + mark) =~= t.subrange(st, en));
                }
            } else {
                lemma_pieces_whole(t, h, w, en, last);
            }
        },
    }
}

/// Put together, the pieces give the text back; and each highlighted piece is a
/// whole-word occurrence of the lowercased word in the lowercased text: not
/// preceded or followed by an ASCII letter or digit.
pub proof fn lemma_highlight_whole_words(text: Seq<char>, word: Seq<char>)
    requires
        highlight_ok(text, word),
    ensures
        joined(highlighted(text, word)) == encode_utf8(text),
        marks_whole(highlighted(text, word), encode_utf8(lowercase(text)), encode_utf8(lowercase(word)), 0),
{
    let t = encode_utf8(text);
    let h = encode_utf8(lowercase(text));
    let w = encode_utf8(lowercase(word));
    lemma_joined_one((t, false), h, w, 0);
    if w.len() > 0 {
        lemma_pieces_whole(t, h, w, 0, 0);
        assert(t.subrange(0, t.len() as int) =~= t);
    }
}

/// Laid out from byte `at`, some highlighted piece starts at byte `st`.
pub open spec fn highlights_at(p: Seq<(Seq<u8>, bool)>, at: int, st: int) -> bool
    decreases p.len(),
{
    p.len() > 0 && ((p[0].1 && at == st) || highlights_at(p.drop_first(), at + p[0].0.len(), st))
}

proof fn lemma_highlights_after(a: Seq<(Seq<u8>, bool)>, b: Seq<(Seq<u8>, bool)>, at: int, st: int)
    requires
        highlights_at(b, at + joined(a).len(), st),
    ensures
        highlights_at(a + b, at, st),
    decreases a.len(),
{
    if a.len() == 0 {
        assert(a + b =~= b);
        assert(joined(a) =~= Seq::<u8>::empty());
    } else {
        assert((a + b)[0] == a[0]);
        assert((a + b).drop_first() =~= a.drop_first() + b);
        assert(joined(a) == a[0].0 + joined(a.drop_first()));
        lemma_highlights_after(a.drop_first(), b, at + a[0].0.len(), st);
    }
}

proof fn lemma_find_first(h: Seq<u8>, w: Seq<u8>, p: int, st: int)
    requires
        0 <= p <= st,
        st + w.len() <= h.len(),
        h.subrange(st, st + w.len()) == w,
        forall|s: int| p <= s < st ==> #[trigger] h.subrange(s, s + w.len()) != w,
    ensures
        find_from(h, w, p) == Some(st),
    decreases st - p,
{
    if p < st {
        assert(h.subrange(p, p + w.len()) != w);
        lemma_find_from(h, w, p + 1);
        lemma_find_first(h, w, p + 1, st);
    }
}

/// `st` is where `w` first occurs in `h`, non-empty, and that occurrence is a
/// whole word: no ASCII letter or digit right before or right after it.
pub open spec fn first_whole_at(h: Seq<u8>, w: Seq<u8>, st: int) -> bool {
    let en = st + w.len();
    &&& w.len() > 0
    &&& 0 <= st
    &&& en <= h.len()
    &&& h.subrange(st, en) == w
    &&& forall|s: int| 0 <= s < st ==> #[trigger] h.subrange(s, s + w.len()) != w
    &&& (st == 0 || !letter_or_digit(h[st - 1]))
    &&& (en == h.len() || !letter_or_digit(h[en]))
}

/// The first occurrence of the lowercased word in the lowercased text is
/// highlighted when it is a whole word.
pub proof fn lemma_first_whole_word_highlighted(text: Seq<char>, word: Seq<char>, st: int)
    requires
        highlight_ok(text, word),
        first_whole_at(encode_utf8(lowercase(text)), encode_utf8(lowercase(word)), st),
    ensures
        highlights_at(highlighted(text, word), 0, st),
{
    let t = encode_utf8(text);
    let h = encode_utf8(lowercase(text));
    let w = encode_utf8(lowercase(word));
    let en = st + w.len();
    lemma_find_first(h, w, 0, st);
    assert(whole_word(h, st, en));
    let rest = pieces(t, h, w, en, en);
    let e = Seq::<(Seq<u8>, bool)>::empty();
    let pre = if st > 0 {
        seq![(t.subrange(0, st), false)]
    } else {
        e
    };
    let mark = seq![(t.subrange(st, en), true)];
    assert(pieces(t, h, w, 0, 0) == pre + mark + rest);
    assert(en <= t.len());
    assert(mark + rest =~= seq![(t.subrange(st, en), true)] + rest);
    assert((mark + rest)[0] == (t.subrange(st, en), true));
    if st > 0 {
        lemma_joined_one((t.subrange(0, st), false), h, w, 0);
    } else {
        assert(joined(e) =~= Seq::<u8>::empty());
    }
    assert((pre + mark) + rest =~= pre + (mark + rest));
    lemma_highlights_after(pre, mark + rest, 0, st);
}

/// Does `w` occur in `h` at `p`?
fn occurs_at(h: &[u8], w: &[u8], p: usize) -> (b: bool)
    requires
        p + w@.len() <= h@.len(),
    ensures
        b == (h@.subrange(p as int, p + w@.len()) == w@),
{
    let n = h.len();
    let mut k: usize = 0;
    while k < w.len()
        invariant
            n == h@.len(),
            p + w@.len() <= h@.len(),
            k <= w@.len(),
            forall|j: int| 0 <= j < k ==> h@[p + j] == w@[j],
        decreases w@.len() - k,
    {
        assert(p + k < h@.len());
        if h[p + k] != w[k] {
            assert(h@.subrange(p as int, p + w@.len())[k as int] != w@[k as int]);
            return false;
        }
        k = k + 1;
    }
    assert(h@.subrange(p as int, p + w@.len()) =~= w@);
    true
}

/// The first place at or after `from` where `w` occurs in `h`.
fn find_bytes(h: &[u8], w: &[u8], from: usize) -> (r: Option<usize>)
    ensures
        match r {
            Some(p) => find_from(h@, w@, from as int) == Some(p as int),
            None => find_from(h@, w@, from as int) is None,
        },
{
    let mut p: usize = from;
    while p <= h.len() && w.len() <= h.len() - p
        invariant
            from <= p,
            find_from(h@, w@, from as int) == find_from(h@, w@, p as int),
        decreases h@.len() + 1 - p,
    {
        if occurs_at(h, w, p) {
            return Some(p);
        }
        if p == h.len() {
            assert(find_from(h@, w@, p as int) == find_from(h@, w@, p + 1));
            assert(find_from(h@, w@, p + 1) is None);
            return None;
        }
        p = p + 1;
    }
    None
}

/// The piece of `text` between two byte offsets that fall on character
/// boundaries.
fn cut(text: &str, a: usize, b: usize) -> (s: String)
    requires
        a <= b <= text.spec_bytes().len(),
        is_char_boundary(text.spec_bytes(), a as int),
        is_char_boundary(text.spec_bytes(), b as int),
    ensures
        encode_utf8(s@) == text.spec_bytes().subrange(a as int, b as int),
{
    let ghost t = text.spec_bytes();
    proof {
        vstd::utf8::encode_utf8_valid_utf8(text@);
    }
    let (_, right) = text.split_at(a);
    let ghost r = right.spec_bytes();
    assert(r =~= t.subrange(a as int, t.len() as int));
    proof {
        vstd::utf8::encode_utf8_valid_utf8(right@);
        vstd::utf8::is_char_boundary_start_end_of_seq(r);
        if b < t.len() && b > a {
            vstd::utf8::is_char_boundary_iff_not_is_continuation_byte(t, b as int);
            vstd::utf8::is_char_boundary_iff_not_is_continuation_byte(r, (b - a) as int);
            assert(r[(b - a) as int] == t[b as int]);
        }
        if b == t.len() {
            assert(r.len() == b - a);
        }
    }
    let (mid, _) = right.split_at(b - a);
    assert(mid.spec_bytes() =~= t.subrange(a as int, b as int));
    mid.to_owned()
}

/// The scan: the pieces, or `None` where a cut cannot be made.
fn scan_pieces(text: &str, word: &str) -> (r: Option<Vec<(String, bool)>>)
    ensures
        r is Some <==> highlight_ok(text@, word@),
        r matches Some(v) ==> piece_bytes(v@) == highlighted(text@, word@),
{
    let hay = to_lowercase(text);
    let lw = to_lowercase(word);
    let hb = hay.as_str().as_bytes();
    let wb = lw.as_str().as_bytes();
    let tb = text.as_bytes();
    let ghost t = encode_utf8(text@);
    let ghost h = encode_utf8(lowercase(text@));
    let ghost w = encode_utf8(lowercase(word@));
    assert(tb@ == t && hb@ == h && wb@ == w);
    proof {
        vstd::utf8::encode_utf8_valid_utf8(text@);
        vstd::utf8::is_char_boundary_start_end_of_seq(t);
    }
    if wb.len() == 0 {
        let mut one: Vec<(String, bool)> = Vec::new();
        one.push((text.to_owned(), false));
        assert(piece_bytes(one@) =~= seq![(t, false)]);
        return Some(one);
    }
    let mut out: Vec<(String, bool)> = Vec::new();
    let mut from: usize = 0;
    let mut last: usize = 0;
    let hn = hb.len();
    assert(piece_bytes(out@) + pieces(t, h, w, 0, 0) =~= pieces(t, h, w, 0, 0));
    loop
        invariant
            t == encode_utf8(text@),
            h == encode_utf8(lowercase(text@)),
            w == encode_utf8(lowercase(word@)),
            hn == h.len(),
            tb@ == t,
            hb@ == h,
            wb@ == w,
            t == text.spec_bytes(),
            w.len() > 0,
            valid_utf8(t),
            last <= from <= h.len(),
            last <= t.len(),
            is_char_boundary(t, last as int),
            is_char_boundary(t, t.len() as int),
            piece_bytes(out@) + pieces(t, h, w, from as int, last as int) == pieces(t, h, w, 0, 0),
            cuts_ok(t, h, w, 0, 0) == cuts_ok(t, h, w, from as int, last as int),
        decreases h.len() - from,
    {
        let ghost before = out@;
        match find_bytes(hb, wb, from) {
            None => {
                if last < tb.len() {
                    let tail = cut(text, last, tb.len());
                    out.push((tail, false));
                    assert(piece_bytes(out@) =~= piece_bytes(before).push((t.subrange(last as int, t.len() as int), false)));
                } else {
                    assert(piece_bytes(out@) =~= piece_bytes(before));
                }
                assert(piece_bytes(out@) =~= pieces(t, h, w, 0, 0));
                if out.len() == 0 {
                    out.push((text.to_owned(), false));
                    assert(piece_bytes(out@) =~= seq![(t, false)]);
                }
                return Some(out);
            },
            Some(st) => {
                proof {
                    lemma_find_from(h, w, from as int);
                }
                let en = st + wb.len();
                let before_ok = st == 0 || !is_alnum_byte(hb[st - 1]);
                let after_ok = en == hb.len() || !is_alnum_byte(hb[en]);
                assert((before_ok && after_ok) == whole_word(h, st as int, en as int));
                if before_ok && after_ok {
                    if !(en <= tb.len() && text.is_char_boundary(st) && text.is_char_boundary(en)) {
                        return None;
                    }
                    if st > last {
                        let plain = cut(text, last, st);
                        out.push((plain, false));
                    }
                    let mark = cut(text, st, en);
                    out.push((mark, true));
                    let ghost x = (if st > last {
                        seq![(t.subrange(last as int, st as int), false)]
                    } else {
                        Seq::empty()
                    }) + seq![(t.subrange(st as int, en as int), true)];
                    assert(piece_bytes(out@) =~= piece_bytes(before) + x);
                    assert(pieces(t, h, w, from as int, last as int) == x + pieces(t, h, w, en as int, en as int));
                    assert(piece_bytes(out@) + pieces(t, h, w, en as int, en as int) =~= piece_bytes(before) + pieces(
                        t,
                        h,
                        w,
                        from as int,
                        last as int,
                    ));
                    last = en;
                }
                from = en;
            },
        }
    }
}

/// An ASCII letter or digit (`u8::is_ascii_alphanumeric`).
fn is_alnum_byte(b: u8) -> (r: bool)
    ensures
        r == alnum_byte(b),
{
    (48 <= b && b <= 57) || (65 <= b && b <= 90) || (97 <= b && b <= 122)
}

/// `text` cut into plain and highlighted pieces for `word`: each whole-word
/// occurrence of the lowercased word in the lowercased text, left to right and
/// not overlapping, is highlighted, and the text between stays plain. Every cut
/// must fall on a character boundary of the text.
pub fn highlight_segments(text: &str, word: &str) -> (r: Vec<(String, bool)>)
    requires
        highlight_ok(text@, word@),
    ensures
        piece_bytes(r@) == highlighted(text@, word@),
        // The pieces give the text back, and each highlighted one is a whole word.
        joined(piece_bytes(r@)) == encode_utf8(text@),
        marks_whole(piece_bytes(r@), encode_utf8(lowercase(text@)), encode_utf8(lowercase(word@)), 0),
        // The first occurrence is highlighted when it is a whole word.
        forall|st: int|
            #[trigger] first_whole_at(encode_utf8(lowercase(text@)), encode_utf8(lowercase(word@)), st)
                ==> highlights_at(piece_bytes(r@), 0, st),
{
    proof {
        lemma_highlight_whole_words(text@, word@);
        assert forall|st: int|
            #[trigger] first_whole_at(encode_utf8(lowercase(text@)), encode_utf8(lowercase(word@)), st)
                implies highlights_at(highlighted(text@, word@), 0, st) by {
            lemma_first_whole_word_highlighted(text@, word@, st);
        }
    }
    match scan_pieces(text, word) {
        Some(v) => v,
        None => Vec::new(),
    }
}

/// The pieces of [`highlight_segments`], or `None` exactly where an occurrence
/// would cut the text off a character boundary or past its end (where
/// lowercasing changed the text's byte layout), so no pieces can be taken.
pub fn highlight(text: &str, word: &str) -> (r: Option<Vec<(String, bool)>>)
    ensures
        r is Some <==> highlight_ok(text@, word@),
        r matches Some(v) ==> piece_bytes(v@) == highlighted(text@, word@),
        r matches Some(v) ==> joined(piece_bytes(v@)) == encode_utf8(text@) && marks_whole(
            piece_bytes(v@),
            encode_utf8(lowercase(text@)),
            encode_utf8(lowercase(word@)),
            0,
        ),
        r matches Some(v) ==> forall|st: int|
            #[trigger] first_whole_at(encode_utf8(lowercase(text@)), encode_utf8(lowercase(word@)), st)
                ==> highlights_at(piece_bytes(v@), 0, st),
{
    if scan_pieces(text, word).is_some() {
        Some(highlight_segments(text, word))
    } else {
        None
    }
}

} // verus!
