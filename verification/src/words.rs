//! The word list's filters: the part-of-speech, era, present-day, loanword and
//! category options offered for a book (with their counts), how a chosen filter
//! value narrows the candidate query, the etymology codes the loanword filters
//! leave out, and the columns the user database gains over time.

use vstd::prelude::*;
use crate::text::{
    chars_of, decimal, dec, join, join_chars, push_chars, push_str, starts_with, str_eq,
    str_starts_with, strip_prefix, strip_prefix_chars, string_of,
};

verus! {

/// Etymology codes that are the ordinary substrate of English.
pub open spec fn common_origins() -> Seq<Seq<char>> {
    seq![
        "ang"@, "enm"@, "enm-nor"@, "ang-nrt"@, "la"@, "la-med"@, "la-new"@, "la-vul"@, "fr"@, "fro"@,
        "fro-nor"@, "frm"@, "xno"@, "nrf"@, "grc"@, "el"@, "gem-pro"@, "gem"@, "gmw"@, "gmq"@, "non"@,
        "gml"@, "gmh"@, "goh"@, "nds"@, "osx"@, "got"@, "dum"@, "odt"@, "nl"@, "vls"@, "de"@, "ine-pro"@,
        "mul"@, "sco"@,
    ]
}

/// Romance codes the stricter loanword filter also leaves out (Romanian is kept).
pub open spec fn romance_origins() -> Seq<Seq<char>> {
    seq![
        "it"@, "es"@, "pt"@, "ca"@, "gl"@, "oc"@, "an"@, "co"@, "rm"@, "sc"@, "fur"@, "lld"@,
        "nap"@, "scn"@, "vec"@, "lij"@, "pms"@, "lmo"@, "frp"@, "wa"@, "mwl"@, "ext"@, "lad"@,
    ]
}

fn origin_codes(strict: bool) -> (r: Vec<&'static str>)
    ensures
        r@.len() == (if strict { common_origins() + romance_origins() } else { common_origins() }).len(),
        forall|i: int| 0 <= i < r@.len() ==> #[trigger] r@[i]@ == (if strict {
            common_origins() + romance_origins()
        } else {
            common_origins()
        })[i],
{
    let mut v = vec![
        "ang", "enm", "enm-nor", "ang-nrt", "la", "la-med", "la-new", "la-vul", "fr", "fro",
        "fro-nor", "frm", "xno", "nrf", "grc", "el", "gem-pro", "gem", "gmw", "gmq", "non",
        "gml", "gmh", "goh", "nds", "osx", "got", "dum", "odt", "nl", "vls", "de", "ine-pro",
        "mul", "sco",
    ];
    let ghost c = v@;
    assert(forall|i: int| 0 <= i < c.len() ==> #[trigger] c[i]@ == common_origins()[i]);
    if strict {
        let r = vec![
            "it", "es", "pt", "ca", "gl", "oc", "an", "co", "rm", "sc", "fur", "lld",
            "nap", "scn", "vec", "lij", "pms", "lmo", "frp", "wa", "mwl", "ext", "lad",
        ];
        let ghost rv = r@;
        assert(forall|i: int| 0 <= i < rv.len() ==> #[trigger] rv[i]@ == romance_origins()[i]);
        let mut k: usize = 0;
        while k < r.len()
            invariant
                rv == r@,
                forall|i: int| 0 <= i < rv.len() ==> #[trigger] rv[i]@ == romance_origins()[i],
                forall|i: int| 0 <= i < c.len() ==> #[trigger] c[i]@ == common_origins()[i],
                c.len() == common_origins().len(),
                rv.len() == romance_origins().len(),
                k <= r@.len(),
                v@ == c + rv.take(k as int),
            decreases r@.len() - k,
        {
            v.push(r[k]);
            assert(rv.take(k + 1) == rv.take(k as int).push(rv[k as int]));
            k = k + 1;
        }
        assert(rv.take(rv.len() as int) == rv);
        assert forall|i: int| 0 <= i < v@.len() implies #[trigger] v@[i]@ == (common_origins() + romance_origins())[i] by {
            if i >= c.len() {
                assert(v@[i] == rv[i - c.len()]);
            }
        }
    }
    v
}

/// A code in single quotes.
pub open spec fn quoted(c: Seq<char>) -> Seq<char> {
    seq!['\''] + c + seq!['\'']
}

/// The quoted, comma-separated SQL `IN` list of etymology codes the loanword
/// filter leaves out; `strict` adds the Romance languages.
pub fn origin_exclude_sql(strict: bool) -> (r: String)
    ensures
        r@ == join(
            (if strict { common_origins() + romance_origins() } else { common_origins() }).map_values(
                |c: Seq<char>| quoted(c),
            ),
            seq![','],
        ),
{
    let codes = origin_codes(strict);
    let ghost cs = if strict { common_origins() + romance_origins() } else { common_origins() };
    let mut parts: Vec<Vec<char>> = Vec::new();
    let mut i: usize = 0;
    while i < codes.len()
        invariant
            codes@.len() == cs.len(),
            forall|k: int| 0 <= k < cs.len() ==> #[trigger] codes@[k]@ == cs[k],
            i <= cs.len(),
            parts@.map_values(|p: Vec<char>| p@) == cs.take(i as int).map_values(|c: Seq<char>| quoted(c)),
        decreases cs.len() - i,
    {
        let mut q: Vec<char> = Vec::new();
        q.push('\'');
        let c = chars_of(codes[i]);
        let mut j: usize = 0;
        while j < c.len()
            invariant
                j <= c@.len(),
                q@ == seq!['\''] + c@.take(j as int),
            decreases c@.len() - j,
        {
            q.push(c[j]);
            assert(c@.take(j + 1) == c@.take(j as int).push(c@[j as int]));
            j = j + 1;
        }
        assert(c@.take(c@.len() as int) == c@);
        q.push('\'');
        assert(c@ == cs[i as int]);
        assert(q@ =~= quoted(cs[i as int]));
        let ghost before = parts@;
        parts.push(q);
        proof {
            assert(parts@.map_values(|p: Vec<char>| p@) =~= before.map_values(|p: Vec<char>| p@).push(quoted(cs[i as int])));
            assert(cs.take(i + 1).map_values(|c: Seq<char>| quoted(c)) =~= cs.take(i as int).map_values(|c: Seq<char>| quoted(c)).push(quoted(cs[i as int])));
        }
        i = i + 1;
    }
    assert(cs.take(cs.len() as int) == cs);
    let sep: Vec<char> = vec![','];
    assert(sep@ =~= seq![',']);
    let joined = join_chars(&parts, &sep);
    string_of(&joined)
}

/// The label of an era key ("" for an unknown one).
pub open spec fn era_label_of(key: Seq<char>) -> Seq<char> {
    if key == "ahead"@ {
        "ahead of its time"@
    } else if key == "rising"@ {
        "on the rise"@
    } else if key == "of"@ {
        "of its time"@
    } else if key == "after"@ {
        "declining"@
    } else if key == "timeless"@ {
        "timeless"@
    } else if key == "rare"@ {
        "always rare"@
    } else {
        ""@
    }
}

pub fn era_label(key: &str) -> (r: &'static str)
    ensures
        r@ == era_label_of(key@),
{
    if str_eq(key, "ahead") {
        "ahead of its time"
    } else if str_eq(key, "rising") {
        "on the rise"
    } else if str_eq(key, "of") {
        "of its time"
    } else if str_eq(key, "after") {
        "declining"
    } else if str_eq(key, "timeless") {
        "timeless"
    } else if str_eq(key, "rare") {
        "always rare"
    } else {
        ""
    }
}

/// The era keys, in display order.
pub open spec fn era_keys() -> Seq<Seq<char>> {
    seq!["ahead"@, "rising"@, "of"@, "after"@, "timeless"@, "rare"@]
}

/// The readable name of a part-of-speech code (the common ones read as is).
pub open spec fn pos_label_of(pos: Seq<char>) -> Seq<char> {
    if pos == "intj"@ {
        "interjection"@
    } else if pos == "prep"@ {
        "preposition"@
    } else if pos == "pron"@ {
        "pronoun"@
    } else if pos == "conj"@ {
        "conjunction"@
    } else if pos == "num"@ {
        "numeral"@
    } else if pos == "det"@ {
        "determiner"@
    } else {
        pos
    }
}

pub fn pos_label(pos: &str) -> (r: String)
    ensures
        r@ == pos_label_of(pos@),
{
    let l: &str = if str_eq(pos, "intj") {
        "interjection"
    } else if str_eq(pos, "prep") {
        "preposition"
    } else if str_eq(pos, "pron") {
        "pronoun"
    } else if str_eq(pos, "conj") {
        "conjunction"
    } else if str_eq(pos, "num") {
        "numeral"
    } else if str_eq(pos, "det") {
        "determiner"
    } else {
        pos
    };
    l.to_owned()
}

/// The word classes offered in the part-of-speech filter, in display order.
pub open spec fn filter_pos() -> Seq<Seq<char>> {
    seq![
        "noun"@, "verb"@, "adj"@, "adv"@, "intj"@, "prep"@, "pron"@, "conj"@, "num"@, "det"@,
        "particle"@, "contraction"@,
    ]
}

/// One entry of the filter dropdown.
pub struct FilterOpt {
    pub value: String,
    pub label: String,
    pub count: i64,
    pub group: String,
}

pub open spec fn opt_view(o: FilterOpt) -> (Seq<char>, Seq<char>, i64, Seq<char>) {
    (o.value@, o.label@, o.count, o.group@)
}

/// The count listed for `key` (a later row wins), if any.
pub open spec fn listed(counts: Seq<(String, i64)>, key: Seq<char>) -> Option<i64>
    decreases counts.len(),
{
    if counts.len() == 0 {
        None
    } else if counts.last().0@ == key {
        Some(counts.last().1)
    } else {
        listed(counts.drop_last(), key)
    }
}

/// How many of the classified words got era `key`.
pub open spec fn era_count(keys: Seq<String>, key: Seq<char>) -> int
    decreases keys.len(),
{
    if keys.len() == 0 {
        0
    } else {
        era_count(keys.drop_last(), key) + if keys.last()@ == key { 1int } else { 0int }
    }
}

/// Part-of-speech options: each offered class that has a count, in order.
pub open spec fn pos_options(ps: Seq<Seq<char>>, counts: Seq<(String, i64)>) -> Seq<(Seq<char>, Seq<char>, i64, Seq<char>)>
    decreases ps.len(),
{
    if ps.len() == 0 {
        Seq::empty()
    } else {
        let rest = pos_options(ps.drop_last(), counts);
        let p = ps.last();
        match listed(counts, p) {
            Some(n) => rest.push(("pos:"@ + p, pos_label_of(p), n, "part of speech"@)),
            None => rest,
        }
    }
}

/// Era options: each era some word was classified into, in order.
pub open spec fn era_options(ks: Seq<Seq<char>>, keys: Seq<String>) -> Seq<(Seq<char>, Seq<char>, i64, Seq<char>)>
    decreases ks.len(),
{
    if ks.len() == 0 {
        Seq::empty()
    } else {
        let rest = era_options(ks.drop_last(), keys);
        let k = ks.last();
        if era_count(keys, k) > 0 {
            rest.push(("era:"@ + k, era_label_of(k), era_count(keys, k) as i64, "era (vs. book's year)"@))
        } else {
            rest
        }
    }
}

pub open spec fn when_positive(n: i64, o: (Seq<char>, Seq<char>, i64, Seq<char>)) -> Seq<(Seq<char>, Seq<char>, i64, Seq<char>)> {
    if n > 0 {
        seq![o]
    } else {
        Seq::empty()
    }
}

/// Every option, in dropdown order: parts of speech, eras, "obsolete today",
/// the two loanword tiers, then the categories as listed.
pub open spec fn all_options(
    pos_counts: Seq<(String, i64)>,
    eras: Seq<String>,
    n_obsolete: i64,
    n_uncommon: i64,
    n_rare: i64,
    categories: Seq<(String, i64)>,
) -> Seq<(Seq<char>, Seq<char>, i64, Seq<char>)> {
    pos_options(filter_pos(), pos_counts) + era_options(era_keys(), eras) + when_positive(
        n_obsolete,
        ("status:obsolete"@, "obsolete today"@, n_obsolete, "present-day status"@),
    ) + when_positive(n_uncommon, ("origin:uncommon"@, "uncommon"@, n_uncommon, "loanword origin"@))
        + when_positive(n_rare, ("origin:rare"@, "rare (non-Romance)"@, n_rare, "loanword origin"@))
        + categories.map_values(|c: (String, i64)| (c.0@, c.0@, c.1, "category"@))
}

fn listed_exec(counts: &Vec<(String, i64)>, key: &str) -> (r: Option<i64>)
    ensures
        r == listed(counts@, key@),
{
    let mut i: usize = counts.len();
    assert(counts@.take(counts@.len() as int) == counts@);
    while i > 0
        invariant
            i <= counts@.len(),
            listed(counts@, key@) == listed(counts@.take(i as int), key@),
        decreases i,
    {
        let ghost t = counts@.take(i as int);
        assert(t.last() == counts@[i - 1]);
        if str_eq(counts[i - 1].0.as_str(), key) {
            return Some(counts[i - 1].1);
        }
        assert(t.drop_last() == counts@.take(i - 1));
        i = i - 1;
    }
    None
}

fn era_count_exec(keys: &Vec<String>, key: &str) -> (n: i64)
    requires
        keys@.len() <= i64::MAX,
    ensures
        n == era_count(keys@, key@),
{
    let mut n: i64 = 0;
    let mut i: usize = 0;
    assert(keys@.take(0).len() == 0);
    while i < keys.len()
        invariant
            keys@.len() <= i64::MAX,
            i <= keys@.len(),
            0 <= n <= i,
            n == era_count(keys@.take(i as int), key@),
        decreases keys@.len() - i,
    {
        assert(keys@.take(i + 1).drop_last() == keys@.take(i as int));
        assert(keys@.take(i + 1).last() == keys@[i as int]);
        if str_eq(keys[i].as_str(), key) {
            n = n + 1;
        }
        i = i + 1;
    }
    assert(keys@.take(keys@.len() as int) == keys@);
    n
}

fn prefixed(p: &str, s: &str) -> (r: String)
    ensures
        r@ == p@ + s@,
{
    let mut r = p.to_owned();
    push_str(&mut r, s);
    r
}

fn push_opt(out: &mut Vec<FilterOpt>, value: String, label: String, count: i64, group: &str)
    ensures
        final(out)@.map_values(|o: FilterOpt| opt_view(o)) == old(out)@.map_values(|o: FilterOpt| opt_view(o)).push(
            (value@, label@, count, group@),
        ),
{
    let ghost before = out@;
    out.push(FilterOpt { value, label, count, group: group.to_owned() });
    assert(out@.map_values(|o: FilterOpt| opt_view(o)) =~= before.map_values(|o: FilterOpt| opt_view(o)).push(
        (value@, label@, count, group@),
    ));
}

/// The filter dropdown for a book from its counts: words per offered part of
/// speech, the era each classified word got, the words obsolete today, the words
/// of each loanword tier, and the words per category (as listed).
pub fn filter_options(
    pos_counts: &Vec<(String, i64)>,
    eras: &Vec<String>,
    n_obsolete: i64,
    n_uncommon: i64,
    n_rare: i64,
    categories: &Vec<(String, i64)>,
) -> (r: Vec<FilterOpt>)
    requires
        eras@.len() <= i64::MAX,
    ensures
        r@.map_values(|o: FilterOpt| opt_view(o)) == all_options(
            pos_counts@,
            eras@,
            n_obsolete,
            n_uncommon,
            n_rare,
            categories@,
        ),
{
    let mut out: Vec<FilterOpt> = Vec::new();
    let ps = vec![
        "noun", "verb", "adj", "adv", "intj", "prep", "pron", "conj", "num", "det", "particle", "contraction",
    ];
    let ghost fp = filter_pos();
    assert(forall|i: int| 0 <= i < ps@.len() ==> #[trigger] ps@[i]@ == fp[i]);
    let mut i: usize = 0;
    assert(fp.take(0).len() == 0);
    assert(out@.map_values(|o: FilterOpt| opt_view(o)) =~= pos_options(fp.take(0), pos_counts@));
    while i < ps.len()
        invariant
            fp == filter_pos(),
            ps@.len() == fp.len(),
            forall|k: int| 0 <= k < ps@.len() ==> #[trigger] ps@[k]@ == fp[k],
            i <= fp.len(),
            out@.map_values(|o: FilterOpt| opt_view(o)) == pos_options(fp.take(i as int), pos_counts@),
        decreases fp.len() - i,
    {
        assert(fp.take(i + 1).drop_last() == fp.take(i as int));
        assert(fp.take(i + 1).last() == fp[i as int]);
        let p = ps[i];
        match listed_exec(pos_counts, p) {
            Some(n) => {
                push_opt(&mut out, prefixed("pos:", p), pos_label(p), n, "part of speech");
            },
            None => {},
        }
        i = i + 1;
    }
    assert(fp.take(fp.len() as int) == fp);
    let ghost seg1 = out@.map_values(|o: FilterOpt| opt_view(o));
    let ks = vec!["ahead", "rising", "of", "after", "timeless", "rare"];
    let ghost ek = era_keys();
    assert(forall|i: int| 0 <= i < ks@.len() ==> #[trigger] ks@[i]@ == ek[i]);
    let mut j: usize = 0;
    assert(ek.take(0).len() == 0);
    assert(seg1 + era_options(ek.take(0), eras@) =~= seg1);
    while j < ks.len()
        invariant
            ek == era_keys(),
            eras@.len() <= i64::MAX,
            ks@.len() == ek.len(),
            forall|k: int| 0 <= k < ks@.len() ==> #[trigger] ks@[k]@ == ek[k],
            j <= ek.len(),
            out@.map_values(|o: FilterOpt| opt_view(o)) == seg1 + era_options(ek.take(j as int), eras@),
        decreases ek.len() - j,
    {
        assert(ek.take(j + 1).drop_last() == ek.take(j as int));
        assert(ek.take(j + 1).last() == ek[j as int]);
        let k = ks[j];
        let n = era_count_exec(eras, k);
        if n > 0 {
            push_opt(&mut out, prefixed("era:", k), era_label(k).to_owned(), n, "era (vs. book's year)");
            assert((seg1 + era_options(ek.take(j as int), eras@)).push(
                ("era:"@ + ek[j as int], era_label_of(ek[j as int]), n, "era (vs. book's year)"@),
            ) =~= seg1 + era_options(ek.take(j + 1), eras@));
        }
        j = j + 1;
    }
    assert(ek.take(ek.len() as int) == ek);
    let ghost seg2 = out@.map_values(|o: FilterOpt| opt_view(o));
    if n_obsolete > 0 {
        push_opt(&mut out, "status:obsolete".to_owned(), "obsolete today".to_owned(), n_obsolete, "present-day status");
    }
    let ghost seg3 = out@.map_values(|o: FilterOpt| opt_view(o));
    assert(seg3 =~= seg2 + when_positive(n_obsolete, ("status:obsolete"@, "obsolete today"@, n_obsolete, "present-day status"@)));
    if n_uncommon > 0 {
        push_opt(&mut out, "origin:uncommon".to_owned(), "uncommon".to_owned(), n_uncommon, "loanword origin");
    }
    let ghost seg4 = out@.map_values(|o: FilterOpt| opt_view(o));
    assert(seg4 =~= seg3 + when_positive(n_uncommon, ("origin:uncommon"@, "uncommon"@, n_uncommon, "loanword origin"@)));
    if n_rare > 0 {
        push_opt(&mut out, "origin:rare".to_owned(), "rare (non-Romance)".to_owned(), n_rare, "loanword origin");
    }
    let ghost seg5 = out@.map_values(|o: FilterOpt| opt_view(o));
    assert(seg5 =~= seg4 + when_positive(n_rare, ("origin:rare"@, "rare (non-Romance)"@, n_rare, "loanword origin"@)));
    let ghost cv = categories@.map_values(|c: (String, i64)| (c.0@, c.0@, c.1, "category"@));
    let mut c: usize = 0;
    assert(seg5 + cv.take(0) =~= seg5);
    while c < categories.len()
        invariant
            cv == categories@.map_values(|c: (String, i64)| (c.0@, c.0@, c.1, "category"@)),
            c <= categories@.len(),
            out@.map_values(|o: FilterOpt| opt_view(o)) == seg5 + cv.take(c as int),
        decreases categories@.len() - c,
    {
        push_opt(&mut out, categories[c].0.clone(), categories[c].0.clone(), categories[c].1, "category");
        assert(seg5 + cv.take(c + 1) =~= (seg5 + cv.take(c as int)).push(cv[c as int]));
        c = c + 1;
    }
    assert(cv.take(categories@.len() as int) == cv);
    out
}

/// What a chosen filter value asks of the candidate list.
pub enum CandidateFilter {
    /// No filter.
    All,
    /// Words whose trajectory puts them in this era.
    Era(String),
    /// Words obsolete today.
    Obsolete,
    /// Words of this part of speech.
    Pos(String),
    /// Loanwords; `strict` also leaves out the Romance languages.
    Origin(bool),
    /// Words in this category.
    Category(String),
}

/// `f` is the filter a `cat` value names: `era:<key>`, `status:obsolete`,
/// `pos:<class>`, `origin:uncommon` / `origin:rare`, empty for none, anything else
/// a category.
pub open spec fn filter_fits(cat: Seq<char>, f: CandidateFilter) -> bool {
    if starts_with(cat, "era:"@) {
        f matches CandidateFilter::Era(k) && k@ == cat.skip(4)
    } else if cat == "status:obsolete"@ {
        f matches CandidateFilter::Obsolete
    } else if starts_with(cat, "pos:"@) {
        f matches CandidateFilter::Pos(p) && p@ == cat.skip(4)
    } else if cat == "origin:uncommon"@ {
        f matches CandidateFilter::Origin(strict) && !strict
    } else if cat == "origin:rare"@ {
        f matches CandidateFilter::Origin(strict) && strict
    } else if cat.len() == 0 {
        f matches CandidateFilter::All
    } else {
        f matches CandidateFilter::Category(c) && c@ == cat
    }
}

fn tail_from(v: &Vec<char>, k: usize) -> (r: String)
    requires
        k <= v@.len(),
    ensures
        r@ == v@.skip(k as int),
{
    let mut out: Vec<char> = Vec::new();
    let mut i: usize = k;
    while i < v.len()
        invariant
            k <= i <= v@.len(),
            out@ == v@.subrange(k as int, i as int),
        decreases v@.len() - i,
    {
        out.push(v[i]);
        assert(v@.subrange(k as int, i + 1) == v@.subrange(k as int, i as int).push(v@[i as int]));
        i = i + 1;
    }
    assert(v@.subrange(k as int, v@.len() as int) == v@.skip(k as int));
    string_of(&out)
}

/// Read the filter a `cat` value names (a missing value is no filter).
pub fn parse_filter(cat: Option<&str>) -> (f: CandidateFilter)
    ensures
        filter_fits(match cat {
            Some(c) => c@,
            None => Seq::empty(),
        }, f),
{
    proof {
        reveal_strlit("era:");
        reveal_strlit("pos:");
        reveal_strlit("status:obsolete");
        reveal_strlit("origin:uncommon");
        reveal_strlit("origin:rare");
    }
    let c: &str = match cat {
        Some(c) => c,
        None => "",
    };
    proof {
        reveal_strlit("");
        assert(""@ =~= Seq::<char>::empty());
    }
    let v = chars_of(c);
    if str_starts_with(c, "era:") {
        return CandidateFilter::Era(tail_from(&v, 4));
    }
    if str_eq(c, "status:obsolete") {
        return CandidateFilter::Obsolete;
    }
    if str_starts_with(c, "pos:") {
        return CandidateFilter::Pos(tail_from(&v, 4));
    }
    if str_eq(c, "origin:uncommon") {
        return CandidateFilter::Origin(false);
    }
    if str_eq(c, "origin:rare") {
        return CandidateFilter::Origin(true);
    }
    if v.len() == 0 {
        return CandidateFilter::All;
    }
    CandidateFilter::Category(c.to_owned())
}

/// The SQL a filter adds to the candidate query, and the value bound as `?3`
/// (era and obsolete filters are decided from trajectories instead, so they add
/// nothing).
pub fn filter_sql(f: &CandidateFilter) -> (r: (String, Option<String>))
    ensures
        match f {
            CandidateFilter::Pos(p) => r.0@ == " AND EXISTS (SELECT 1 FROM word_pos wp WHERE wp.word_id = w.id AND wp.pos = ?3)"@
                && (r.1 matches Some(b) && b@ == p@),
            CandidateFilter::Origin(strict) => r.0@ == " AND w.etymology_lang IS NOT NULL AND w.etymology_lang NOT IN ("@
                + join((if *strict { common_origins() + romance_origins() } else { common_origins() }).map_values(
                |c: Seq<char>| quoted(c),
            ), seq![',']) + ")"@ && r.1 is None,
            CandidateFilter::Category(c) => r.0@ == " AND EXISTS (SELECT 1 FROM word_category wc WHERE wc.word_id = w.id AND wc.category = ?3)"@
                && (r.1 matches Some(b) && b@ == c@),
            _ => r.0@.len() == 0 && r.1 is None,
        },
{
    match f {
        CandidateFilter::Pos(p) => (
            " AND EXISTS (SELECT 1 FROM word_pos wp WHERE wp.word_id = w.id AND wp.pos = ?3)".to_owned(),
            Some(p.clone()),
        ),
        CandidateFilter::Origin(strict) => {
            let mut s = " AND w.etymology_lang IS NOT NULL AND w.etymology_lang NOT IN (".to_owned();
            let list = origin_exclude_sql(*strict);
            push_str(&mut s, list.as_str());
            push_str(&mut s, ")");
            (s, None)
        },
        CandidateFilter::Category(c) => (
            " AND EXISTS (SELECT 1 FROM word_category wc WHERE wc.word_id = w.id AND wc.category = ?3)".to_owned(),
            Some(c.clone()),
        ),
        _ => (String::new(), None),
    }
}

/// Trajectory filters need every candidate (they are classified afterwards), so
/// only the others push the limit into the query.
pub fn limit_sql(f: &CandidateFilter, limit: i32) -> (r: String)
    ensures
        match f {
            CandidateFilter::Era(_) | CandidateFilter::Obsolete => r@.len() == 0,
            _ => r@ == " LIMIT "@ + dec((if limit < 0 { 0 } else { limit }) as nat),
        },
{
    match f {
        CandidateFilter::Era(_) | CandidateFilter::Obsolete => String::new(),
        _ => {
            let mut s = " LIMIT ".to_owned();
            let n: u64 = if limit < 0 { 0 } else { limit as u64 };
            let d = decimal(n);
            push_chars(&mut s, &d);
            s
        },
    }
}

/// The names of a word's applied tags (value >= 1), in order.
pub fn applied_names(tags: &Vec<(String, i32)>) -> (r: Vec<String>)
    ensures
        r@.map_values(|s: String| s@) == tags@.filter(|t: (String, i32)| t.1 >= 1).map_values(|t: (String, i32)| t.0@),
{
    let mut out: Vec<String> = Vec::new();
    let mut i: usize = 0;
    assert(tags@.take(0).filter(|t: (String, i32)| t.1 >= 1) =~= Seq::<(String, i32)>::empty());
    while i < tags.len()
        invariant
            i <= tags@.len(),
            out@.map_values(|s: String| s@) == tags@.take(i as int).filter(|t: (String, i32)| t.1 >= 1).map_values(
                |t: (String, i32)| t.0@,
            ),
        decreases tags@.len() - i,
    {
        let ghost before = out@;
        proof {
            assert(tags@.take(i + 1) == tags@.take(i as int).push(tags@[i as int]));
            tags@.take(i as int).lemma_filter_push(tags@[i as int], |t: (String, i32)| t.1 >= 1);
        }
        if tags[i].1 >= 1 {
            out.push(tags[i].0.clone());
            assert(out@.map_values(|s: String| s@) =~= before.map_values(|s: String| s@).push(tags@[i as int].0@));
        }
        i = i + 1;
    }
    assert(tags@.take(tags@.len() as int) == tags@);
    out
}

/// Columns of the tag table that postdate its first version: (name, declaration).
pub open spec fn tag_columns() -> Seq<(Seq<char>, Seq<char>)> {
    seq![
        ("scope"@, "TEXT NOT NULL DEFAULT 'book'"@),
        ("interest"@, "TEXT NOT NULL DEFAULT 'interesting'"@),
        ("section"@, "TEXT NOT NULL DEFAULT ''"@),
        ("kind"@, "TEXT NOT NULL DEFAULT 'bool'"@),
        ("scale_max"@, "INTEGER NOT NULL DEFAULT 1"@),
        ("scale_labels"@, "TEXT"@),
    ]
}

/// The later columns the tag table lacks, in order, given the columns it has.
pub fn missing_tag_columns(have: &Vec<String>) -> (r: Vec<(&'static str, &'static str)>)
    ensures
        r@.map_values(|c: (&str, &str)| (c.0@, c.1@)) == tag_columns().filter(
            |c: (Seq<char>, Seq<char>)| !have@.map_values(|h: String| h@).contains(c.0),
        ),
{
    let cols = vec![
        ("scope", "TEXT NOT NULL DEFAULT 'book'"),
        ("interest", "TEXT NOT NULL DEFAULT 'interesting'"),
        ("section", "TEXT NOT NULL DEFAULT ''"),
        ("kind", "TEXT NOT NULL DEFAULT 'bool'"),
        ("scale_max", "INTEGER NOT NULL DEFAULT 1"),
        ("scale_labels", "TEXT"),
    ];
    let ghost tc = tag_columns();
    let ghost hv = have@.map_values(|h: String| h@);
    let ghost keep = |c: (Seq<char>, Seq<char>)| !hv.contains(c.0);
    assert(cols@.map_values(|c: (&str, &str)| (c.0@, c.1@)) =~= tc);
    let mut out: Vec<(&'static str, &'static str)> = Vec::new();
    let mut i: usize = 0;
    assert(tc.take(0).filter(keep) =~= Seq::<(Seq<char>, Seq<char>)>::empty());
    while i < cols.len()
        invariant
            tc == tag_columns(),
            hv == have@.map_values(|h: String| h@),
            keep == (|c: (Seq<char>, Seq<char>)| !hv.contains(c.0)),
            cols@.map_values(|c: (&str, &str)| (c.0@, c.1@)) == tc,
            i <= tc.len(),
            out@.map_values(|c: (&str, &str)| (c.0@, c.1@)) == tc.take(i as int).filter(keep),
        decreases tc.len() - i,
    {
        let ghost before = out@;
        assert(tc[i as int] == (cols@[i as int].0@, cols@[i as int].1@));
        proof {
            assert(tc.take(i + 1) == tc.take(i as int).push(tc[i as int]));
            tc.take(i as int).lemma_filter_push(tc[i as int], keep);
        }
        if !has_name(have, cols[i].0) {
            out.push(cols[i]);
            assert(out@.map_values(|c: (&str, &str)| (c.0@, c.1@)) =~= before.map_values(|c: (&str, &str)| (c.0@, c.1@)).push(tc[i as int]));
        }
        i = i + 1;
    }
    assert(tc.take(tc.len() as int) == tc);
    out
}

/// Is `name` one of the listed column names?
pub fn has_name(have: &Vec<String>, name: &str) -> (b: bool)
    ensures
        b == have@.map_values(|h: String| h@).contains(name@),
{
    let ghost hv = have@.map_values(|h: String| h@);
    let mut i: usize = 0;
    while i < have.len()
        invariant
            hv == have@.map_values(|h: String| h@),
            i <= have@.len(),
            forall|k: int| 0 <= k < i ==> #[trigger] hv[k] != name@,
        decreases have@.len() - i,
    {
        if str_eq(have[i].as_str(), name) {
            assert(hv[i as int] == name@);
            return true;
        }
        i = i + 1;
    }
    false
}

/// The options of groups laid end to end.
pub open spec fn flatten_groups(groups: Seq<(String, Vec<FilterOpt>)>) -> Seq<FilterOpt>
    decreases groups.len(),
{
    if groups.len() == 0 {
        Seq::empty()
    } else {
        flatten_groups(groups.drop_last()) + groups.last().1@
    }
}

/// Maximal runs: none empty, every option of a run in the run's group, and
/// neighbouring runs of different groups.
pub open spec fn groups_ok(groups: Seq<(String, Vec<FilterOpt>)>) -> bool {
    &&& forall|r: int| 0 <= r < groups.len() ==> (#[trigger] groups[r]).1@.len() > 0
    &&& forall|r: int, k: int| 0 <= r < groups.len() && 0 <= k < groups[r].1@.len() ==> (#[trigger] groups[r].1@[k]).group@ == groups[r].0@
    &&& forall|r: int| 0 < r < groups.len() ==> (#[trigger] groups[r]).0@ != groups[r - 1].0@
}

/// The dropdown's option groups: the options, which arrive in group order, folded
/// into consecutive (group, options) runs; laid end to end the runs give back the
/// options in order.
pub fn option_groups(opts: Vec<FilterOpt>) -> (groups: Vec<(String, Vec<FilterOpt>)>)
    ensures
        flatten_groups(groups@) == opts@,
        groups_ok(groups@),
{
    let ghost orig = opts@;
    let mut opts = opts;
    let n = opts.len();
    let mut groups: Vec<(String, Vec<FilterOpt>)> = Vec::new();
    let mut i: usize = 0;
    assert(orig.take(0) =~= flatten_groups(groups@));
    while i < n
        invariant
            n == orig.len(),
            i <= n,
            opts@ == orig.skip(i as int),
            flatten_groups(groups@) == orig.take(i as int),
            groups_ok(groups@),
        decreases n - i,
    {
        let o = opts.remove(0);
        assert(o == orig[i as int]);
        assert(opts@ == orig.skip(i + 1));
        let ghost before = groups@;
        let joins = groups.len() > 0 && str_eq(groups[groups.len() - 1].0.as_str(), o.group.as_str());
        if joins {
            let last = groups.len() - 1;
            let (g, mut items) = groups.remove(last);
            items.push(o);
            groups.push((g, items));
            proof {
                let nr = groups@;
                assert(nr.drop_last() =~= before.drop_last());
                assert(nr.last().1@ == before.last().1@.push(orig[i as int]));
                assert(flatten_groups(nr) =~= flatten_groups(before).push(orig[i as int]));
                assert forall|r: int, k: int| 0 <= r < nr.len() && 0 <= k < nr[r].1@.len() implies (#[trigger] nr[r].1@[k]).group@ == nr[r].0@ by {
                    if r < nr.len() - 1 {
                        assert(nr[r] == before[r]);
                    } else if k < before.last().1@.len() {
                        assert(nr[r].1@[k] == before[r].1@[k]);
                    }
                }
                assert forall|r: int| 0 < r < nr.len() implies (#[trigger] nr[r]).0@ != nr[r - 1].0@ by {
                    assert(nr[r - 1] == before[r - 1]);
                    if r < nr.len() - 1 {
                        assert(nr[r] == before[r]);
                    }
                }
            }
        } else {
            let g = o.group.clone();
            let mut items: Vec<FilterOpt> = Vec::new();
            items.push(o);
            groups.push((g, items));
            proof {
                let nr = groups@;
                assert(nr.drop_last() =~= before);
                assert(nr.last().1@ =~= seq![orig[i as int]]);
                assert(flatten_groups(nr) =~= flatten_groups(before).push(orig[i as int]));
                assert forall|r: int, k: int| 0 <= r < nr.len() && 0 <= k < nr[r].1@.len() implies (#[trigger] nr[r].1@[k]).group@ == nr[r].0@ by {
                    if r < nr.len() - 1 {
                        assert(nr[r] == before[r]);
                    }
                }
                assert forall|r: int| 0 < r < nr.len() implies (#[trigger] nr[r]).0@ != nr[r - 1].0@ by {
                    assert(nr[r - 1] == before[r - 1]);
                    if r < nr.len() - 1 {
                        assert(nr[r] == before[r]);
                    }
                }
            }
        }
        assert(orig.take(i + 1) == orig.take(i as int).push(orig[i as int]));
        i = i + 1;
    }
    assert(orig.take(n as int) == orig);
    groups
}

/// A related word shown in the word panel: the relation's kind, the target word,
/// its dictionary id when it has one, and whether it occurs in the book.
pub struct RelTarget {
    pub rel: String,
    pub target: String,
    pub target_word_id: Option<i64>,
    pub in_book: bool,
}

/// The relations of groups laid end to end.
pub open spec fn flatten_relations(groups: Seq<(String, Vec<RelTarget>)>) -> Seq<RelTarget>
    decreases groups.len(),
{
    if groups.len() == 0 {
        Seq::empty()
    } else {
        flatten_relations(groups.drop_last()) + groups.last().1@
    }
}

/// Maximal runs: none empty, every relation of a run of the run's kind, and
/// neighbouring runs of different kinds.
pub open spec fn relations_ok(groups: Seq<(String, Vec<RelTarget>)>) -> bool {
    &&& forall|r: int| 0 <= r < groups.len() ==> (#[trigger] groups[r]).1@.len() > 0
    &&& forall|r: int, k: int| 0 <= r < groups.len() && 0 <= k < groups[r].1@.len() ==> (#[trigger] groups[r].1@[k]).rel@ == groups[r].0@
    &&& forall|r: int| 0 < r < groups.len() ==> (#[trigger] groups[r]).0@ != groups[r - 1].0@
}

/// The word panel's relation groups: the relations, which arrive ordered by
/// kind, folded into consecutive (kind, relations) runs; laid end to end the runs
/// give back the relations in order.
pub fn relation_groups(rels: Vec<RelTarget>) -> (groups: Vec<(String, Vec<RelTarget>)>)
    ensures
        flatten_relations(groups@) == rels@,
        relations_ok(groups@),
{
    let ghost orig = rels@;
    let mut rels = rels;
    let n = rels.len();
    let mut groups: Vec<(String, Vec<RelTarget>)> = Vec::new();
    let mut i: usize = 0;
    assert(orig.take(0) =~= flatten_relations(groups@));
    while i < n
        invariant
            n == orig.len(),
            i <= n,
            rels@ == orig.skip(i as int),
            flatten_relations(groups@) == orig.take(i as int),
            relations_ok(groups@),
        decreases n - i,
    {
        let rt = rels.remove(0);
        assert(rt == orig[i as int]);
        assert(rels@ == orig.skip(i + 1));
        let ghost before = groups@;
        let joins = groups.len() > 0 && str_eq(groups[groups.len() - 1].0.as_str(), rt.rel.as_str());
        if joins {
            let last = groups.len() - 1;
            let (g, mut items) = groups.remove(last);
            items.push(rt);
            groups.push((g, items));
            proof {
                let nr = groups@;
                assert(nr.drop_last() =~= before.drop_last());
                assert(nr.last().1@ == before.last().1@.push(orig[i as int]));
                assert(flatten_relations(nr) =~= flatten_relations(before).push(orig[i as int]));
                assert forall|r: int, k: int| 0 <= r < nr.len() && 0 <= k < nr[r].1@.len() implies (#[trigger] nr[r].1@[k]).rel@ == nr[r].0@ by {
                    if r < nr.len() - 1 {
                        assert(nr[r] == before[r]);
                    } else if k < before.last().1@.len() {
                        assert(nr[r].1@[k] == before[r].1@[k]);
                    }
                }
                assert forall|r: int| 0 < r < nr.len() implies (#[trigger] nr[r]).0@ != nr[r - 1].0@ by {
                    assert(nr[r - 1] == before[r - 1]);
                    if r < nr.len() - 1 {
                        assert(nr[r] == before[r]);
                    }
                }
            }
        } else {
            let g = rt.rel.clone();
            let mut items: Vec<RelTarget> = Vec::new();
            items.push(rt);
            groups.push((g, items));
            proof {
                let nr = groups@;
                assert(nr.drop_last() =~= before);
                assert(nr.last().1@ =~= seq![orig[i as int]]);
                assert(flatten_relations(nr) =~= flatten_relations(before).push(orig[i as int]));
                assert forall|r: int, k: int| 0 <= r < nr.len() && 0 <= k < nr[r].1@.len() implies (#[trigger] nr[r].1@[k]).rel@ == nr[r].0@ by {
                    if r < nr.len() - 1 {
                        assert(nr[r] == before[r]);
                    }
                }
                assert forall|r: int| 0 < r < nr.len() implies (#[trigger] nr[r]).0@ != nr[r - 1].0@ by {
                    assert(nr[r - 1] == before[r - 1]);
                    if r < nr.len() - 1 {
                        assert(nr[r] == before[r]);
                    }
                }
            }
        }
        assert(orig.take(i + 1) == orig.take(i as int).push(orig[i as int]));
        i = i + 1;
    }
    assert(orig.take(n as int) == orig);
    groups
}

} // verus!
