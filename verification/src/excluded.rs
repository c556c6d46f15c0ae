//! Why a book's words don't all reach the word list: the named buckets a word can
//! be left out for, in the order the scorer tests them, and the accounting of one
//! book at one merge level (every distinct word is kept or lands in exactly one
//! bucket, so the counts add up to the book's distinct words).

use vstd::prelude::*;
use crate::sorting::{SortKey, sort_by_key, sorted_by_key};
use crate::text::{group_thousands, grouped, str_eq};

verus! {

/// One bucket: its key, its label, and the tooltip explaining it.
pub open spec fn reason_table() -> Seq<(Seq<char>, Seq<char>, Seq<char>)> {
    seq![
        ("nodict"@, "not a dictionary word"@, "a name, a typo, a scanning error, or simply missing from the dictionary"@),
        ("nonalpha"@, "not plain letters"@, "words with a hyphen or apostrophe, like \"man-of-war\" or \"don't\""@),
        ("nowikt"@, "no Wiktionary entry"@, "in the dictionary, but with no Wiktionary entry to check it against"@),
        ("formof"@, "form of another word"@, "a plural, tense or comparative. It counts towards its base word instead."@),
        ("proper"@, "proper noun"@, "names of people, places and brands"@),
        ("offensive"@, "offensive"@, "some sense of it is tagged as a slur, vulgar or derogatory"@),
        ("capitalised"@, "usually capitalised"@, "over half its uses in print are capitalised, so it reads as a name"@),
        ("short"@, "under 3 letters"@, "the scorer needs at least 3 letters"@),
        ("common"@, "too common"@, "used more than 12 times per million words of general English"@),
    ]
}

/// The buckets, in the order they are tested: (key, label, note).
pub fn reasons() -> (r: Vec<(&'static str, &'static str, &'static str)>)
    ensures
        r@.len() == reason_table().len(),
        forall|i: int| 0 <= i < r@.len() ==> {
            &&& (#[trigger] r@[i]).0@ == reason_table()[i].0
            &&& r@[i].1@ == reason_table()[i].1
            &&& r@[i].2@ == reason_table()[i].2
        },
{
    let r = vec![
        ("nodict", "not a dictionary word", "a name, a typo, a scanning error, or simply missing from the dictionary"),
        ("nonalpha", "not plain letters", "words with a hyphen or apostrophe, like \"man-of-war\" or \"don't\""),
        ("nowikt", "no Wiktionary entry", "in the dictionary, but with no Wiktionary entry to check it against"),
        ("formof", "form of another word", "a plural, tense or comparative. It counts towards its base word instead."),
        ("proper", "proper noun", "names of people, places and brands"),
        ("offensive", "offensive", "some sense of it is tagged as a slur, vulgar or derogatory"),
        ("capitalised", "usually capitalised", "over half its uses in print are capitalised, so it reads as a name"),
        ("short", "under 3 letters", "the scorer needs at least 3 letters"),
        ("common", "too common", "used more than 12 times per million words of general English"),
    ];
    r
}

/// The label of the first bucket with key `key`, or "left out".
pub open spec fn label_for(t: Seq<(Seq<char>, Seq<char>, Seq<char>)>, key: Seq<char>) -> Seq<char>
    decreases t.len(),
{
    if t.len() == 0 {
        "left out"@
    } else if t[0].0 == key {
        t[0].1
    } else {
        label_for(t.drop_first(), key)
    }
}

pub fn reason_label(key: &str) -> (r: &'static str)
    ensures
        r@ == label_for(reason_table(), key@),
{
    let t = reasons();
    let ghost tv = reason_table();
    let mut i: usize = 0;
    assert(tv.skip(0) == tv);
    while i < t.len()
        invariant
            t@.len() == tv.len(),
            forall|k: int| 0 <= k < t@.len() ==> {
                &&& (#[trigger] t@[k]).0@ == tv[k].0
                &&& t@[k].1@ == tv[k].1
            },
            i <= t@.len(),
            tv == reason_table(),
            label_for(tv, key@) == label_for(tv.skip(i as int), key@),
        decreases t@.len() - i,
    {
        assert(tv.skip(i as int)[0] == tv[i as int]);
        if str_eq(t[i].0, key) {
            assert(tv[i as int].0 == key@);
            assert(label_for(tv.skip(i as int), key@) == tv[i as int].1);
            return t[i].1;
        }
        assert(tv.skip(i as int).drop_first() == tv.skip(i + 1));
        i = i + 1;
    }
    "left out"
}

/// Is `key` one of the bucket keys?
pub open spec fn known_reason(key: Seq<char>) -> bool {
    exists|i: int| 0 <= i < reason_table().len() && #[trigger] reason_table()[i].0 == key
}

/// The bucket a word list is narrowed to: the asked-for key when it is one of
/// the buckets, else "" (every bucket together).
pub fn wanted_reason(reason: &str) -> (r: String)
    ensures
        r@ == if known_reason(reason@) {
            reason@
        } else {
            Seq::<char>::empty()
        },
{
    proof {
        reveal_strlit("");
    }
    let t = reasons();
    let mut i: usize = 0;
    while i < t.len()
        invariant
            t@.len() == reason_table().len(),
            forall|k: int| 0 <= k < t@.len() ==> (#[trigger] t@[k]).0@ == reason_table()[k].0,
            i <= t@.len(),
            forall|k: int| 0 <= k < i ==> reason_table()[k].0 != reason@,
        decreases t@.len() - i,
    {
        if str_eq(t[i].0, reason) {
            return reason.to_owned();
        }
        i = i + 1;
    }
    String::new()
}

/// One bucket with its size for this book and merge level.
pub struct ExcludeReason {
    pub key: String,
    pub label: String,
    pub note: String,
    pub count: i64,
}

/// The accounting for one book at one merge level.
pub struct ExcludeReport {
    /// Distinct words in the book.
    pub n_types: i64,
    /// Distinct words that survive into a scored group.
    pub n_kept: i64,
    /// Scored entries at this level.
    pub n_candidates: i64,
    /// Distinct words left out, by reason, biggest bucket first.
    pub reasons: Vec<ExcludeReason>,
}

/// The count grouped under `key` (a later row for the same key wins).
pub open spec fn count_for(counts: Seq<(String, i64)>, key: Seq<char>) -> Option<i64>
    decreases counts.len(),
{
    if counts.len() == 0 {
        None
    } else if counts.last().0@ == key {
        Some(counts.last().1)
    } else {
        count_for(counts.drop_last(), key)
    }
}

fn lookup_count(counts: &Vec<(String, i64)>, key: &str) -> (r: Option<i64>)
    ensures
        r == count_for(counts@, key@),
{
    let mut i: usize = counts.len();
    assert(counts@.take(counts@.len() as int) == counts@);
    while i > 0
        invariant
            i <= counts@.len(),
            count_for(counts@, key@) == count_for(counts@.take(i as int), key@),
        decreases i,
    {
        let ghost t = counts@.take(i as int);
        assert(t.last() == counts@[i - 1]);
        if str_eq(counts[i - 1].0.as_str(), key) {
            return Some(counts[i - 1].1);
        }
        assert(t.drop_last() == counts@.take(i - 1));
        i = i - 1;
    }
    None
}

/// A bucket by its fields.
pub open spec fn reason_view(r: ExcludeReason) -> (Seq<char>, Seq<char>, Seq<char>, i64) {
    (r.key@, r.label@, r.note@, r.count)
}

/// The buckets with a positive count, in table order.
pub open spec fn present_reasons(t: Seq<(Seq<char>, Seq<char>, Seq<char>)>, counts: Seq<(String, i64)>) -> Seq<(Seq<char>, Seq<char>, Seq<char>, i64)>
    decreases t.len(),
{
    if t.len() == 0 {
        Seq::empty()
    } else {
        let rest = present_reasons(t.drop_last(), counts);
        let e = t.last();
        match count_for(counts, e.0) {
            Some(c) => if c > 0 {
                rest.push((e.0, e.1, e.2, c))
            } else {
                rest
            },
            None => rest,
        }
    }
}

/// Sorting key: larger counts first.
pub struct CountDesc {
    pub count: i64,
}

impl SortKey for CountDesc {
    open spec fn key_le(self, other: Self) -> bool {
        self.count >= other.count
    }

    proof fn lemma_key_total(a: Self, b: Self) {
    }

    proof fn lemma_key_trans(a: Self, b: Self, c: Self) {
    }

    fn le(&self, other: &Self) -> (r: bool) {
        self.count >= other.count
    }
}

/// The present buckets, biggest first (ties keep table order).
pub open spec fn report_reasons(counts: Seq<(String, i64)>) -> Seq<(Seq<char>, Seq<char>, Seq<char>, i64)> {
    sorted_by_key(
        present_reasons(reason_table(), counts).map_values(
            |e: (Seq<char>, Seq<char>, Seq<char>, i64)| (CountDesc { count: e.3 }, e),
        ),
    ).map_values(|p: (CountDesc, (Seq<char>, Seq<char>, Seq<char>, i64))| p.1)
}

/// Assemble the report from the per-bucket counts (`""` = kept), the book's
/// distinct words and its scored entries at this level.
pub fn build_report(counts: &Vec<(String, i64)>, n_types: i64, n_candidates: i64) -> (r: ExcludeReport)
    ensures
        r.n_types == n_types,
        r.n_candidates == n_candidates,
        r.n_kept == match count_for(counts@, Seq::<char>::empty()) {
            Some(c) => c,
            None => 0,
        },
        r.reasons@.map_values(|x: ExcludeReason| reason_view(x)) == report_reasons(counts@),
{
    proof {
        reveal_strlit("");
        assert(""@ =~= Seq::<char>::empty());
    }
    let t = reasons();
    let ghost tv = reason_table();
    let mut keyed: Vec<(CountDesc, ExcludeReason)> = Vec::new();
    let mut i: usize = 0;
    assert(tv.take(0).len() == 0);
    while i < t.len()
        invariant
            t@.len() == tv.len(),
            tv == reason_table(),
            forall|k: int| 0 <= k < t@.len() ==> {
                &&& (#[trigger] t@[k]).0@ == tv[k].0
                &&& t@[k].1@ == tv[k].1
                &&& t@[k].2@ == tv[k].2
            },
            i <= tv.len(),
            keyed@.map_values(|p: (CountDesc, ExcludeReason)| (p.0, reason_view(p.1))) == present_reasons(
                tv.take(i as int),
                counts@,
            ).map_values(|e: (Seq<char>, Seq<char>, Seq<char>, i64)| (CountDesc { count: e.3 }, e)),
        decreases tv.len() - i,
    {
        let ghost before = keyed@;
        let ghost f = |p: (CountDesc, ExcludeReason)| (p.0, reason_view(p.1));
        let ghost g = |e: (Seq<char>, Seq<char>, Seq<char>, i64)| (CountDesc { count: e.3 }, e);
        let ghost p0 = present_reasons(tv.take(i as int), counts@);
        let ghost p1 = present_reasons(tv.take(i + 1), counts@);
        assert(tv.take(i + 1).drop_last() == tv.take(i as int));
        assert(tv.take(i + 1).last() == tv[i as int]);
        let lc = lookup_count(counts, t[i].0);
        assert(t@[i as int].0@ == tv[i as int].0);
        match lc {
            Some(c) => {
                if c > 0 {
                    let e = ExcludeReason {
                        key: t[i].0.to_owned(),
                        label: t[i].1.to_owned(),
                        note: t[i].2.to_owned(),
                        count: c,
                    };
                    keyed.push((CountDesc { count: c }, e));
                    proof {
                        let x = (tv[i as int].0, tv[i as int].1, tv[i as int].2, c);
                        assert(p1 == p0.push(x));
                        assert(keyed@.drop_last() == before);
                        assert(keyed@.map_values(f) =~= before.map_values(f).push(f(keyed@.last())));
                        assert(p1.map_values(g) =~= p0.map_values(g).push(g(x)));
                    }
                } else {
                    assert(p1 == p0);
                }
            },
            None => {
                assert(p1 == p0);
            },
        }
        i = i + 1;
    }
    assert(tv.take(tv.len() as int) == tv);
    let ghost kv = keyed@;
    let sorted = sort_by_key(keyed);
    let mut out: Vec<ExcludeReason> = Vec::new();
    let ghost ss = sorted@;
    let mut sorted = sorted;
    let n = sorted.len();
    let mut k: usize = 0;
    proof {
        crate::sorting::lemma_sorted_map_values(kv, |x: ExcludeReason| reason_view(x));
    }
    while k < n
        invariant
            n == ss.len(),
            k <= n,
            sorted@ == ss.skip(k as int),
            out@.map_values(|x: ExcludeReason| reason_view(x)) == ss.take(k as int).map_values(
                |p: (CountDesc, ExcludeReason)| reason_view(p.1),
            ),
        decreases n - k,
    {
        let e = sorted.remove(0);
        assert(e == ss[k as int]);
        assert(sorted@ == ss.skip(k + 1));
        let ghost before = out@;
        out.push(e.1);
        assert(out@.drop_last() == before);
        proof {
            let rv = |x: ExcludeReason| reason_view(x);
            let h = |p: (CountDesc, ExcludeReason)| reason_view(p.1);
            assert(out@.map_values(rv) =~= before.map_values(rv).push(reason_view(e.1)));
            assert(ss.take(k + 1).map_values(h) =~= ss.take(k as int).map_values(h).push(h(ss[k as int])));
        }
        assert(ss.take(k + 1) == ss.take(k as int).push(ss[k as int]));
        assert(out@.map_values(|x: ExcludeReason| reason_view(x)) =~= ss.take(k + 1).map_values(
            |p: (CountDesc, ExcludeReason)| reason_view(p.1),
        ));
        k = k + 1;
    }
    assert(ss.take(n as int) == ss);
    proof {
        let g = |p: (CountDesc, ExcludeReason)| (p.0, reason_view(p.1));
        let mk = |e: (Seq<char>, Seq<char>, Seq<char>, i64)| (CountDesc { count: e.3 }, e);
        let f = |x: ExcludeReason| reason_view(x);
        let g2 = |p: (CountDesc, ExcludeReason)| (p.0, f(p.1));
        assert(kv.map_values(g) =~= kv.map_values(g2));
        assert(ss.map_values(g) =~= ss.map_values(g2));
        assert(kv.map_values(g) == present_reasons(reason_table(), counts@).map_values(mk));
        assert(sorted_by_key(kv.map_values(g)) == ss.map_values(g));
        assert(report_reasons(counts@) =~= ss.map_values(g).map_values(
            |p: (CountDesc, (Seq<char>, Seq<char>, Seq<char>, i64))| p.1,
        ));
        assert(out@.map_values(|x: ExcludeReason| reason_view(x)) =~= report_reasons(counts@));
    }
    let n_kept = match lookup_count(counts, "") {
        Some(c) => c,
        None => 0,
    };
    ExcludeReport { n_types, n_kept, n_candidates, reasons: out }
}

/// The ORDER BY of the left-out word list: "count" is most-used first, anything
/// else rarest first (unmeasured words last either way).
pub fn word_order(sort: &str) -> (r: &'static str)
    ensures
        r@ == if sort@ == "count"@ {
            "n DESC, (CASE WHEN pm IS NULL OR pm <= 0 THEN 1 ELSE 0 END) ASC, pm ASC"@
        } else {
            "(CASE WHEN pm IS NULL OR pm <= 0 THEN 1 ELSE 0 END) ASC, pm ASC, n DESC"@
        },
{
    if str_eq(sort, "count") {
        "n DESC, (CASE WHEN pm IS NULL OR pm <= 0 THEN 1 ELSE 0 END) ASC, pm ASC"
    } else {
        "(CASE WHEN pm IS NULL OR pm <= 0 THEN 1 ELSE 0 END) ASC, pm ASC, n DESC"
    }
}

/// The judged form, shown only when it differs from the book's own form.
pub fn shown_head(word: &str, head: Option<String>) -> (r: Option<String>)
    ensures
        r == match head {
            Some(h) => if h@ != word@ {
                Some(h)
            } else {
                None
            },
            None => None,
        },
{
    match head {
        Some(h) => if !str_eq(h.as_str(), word) {
            Some(h)
        } else {
            None
        },
        None => None,
    }
}

/// Digit grouping: 14207 -> "14,207" (the magnitude of `i64::MIN` has no `i64`).
pub fn commas(n: i64) -> (s: String)
    requires
        n != i64::MIN,
    ensures
        s@ == grouped(n as int),
{
    group_thousands(n)
}

} // verus!
