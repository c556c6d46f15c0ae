//! The catalog side: which catalogs exist and how they are named, what a request
//! may hand to a subprocess (source names, source ids), how a search request
//! becomes a query plan, how a bulk grab is validated and normalised, and the
//! small formatting the page shows (row counts, "3 hours ago").

use vstd::prelude::*;
use vstd::string::StringSliceAdditionalSpecFns;
use crate::jobs::{JobProgress, JobStatus};
use crate::sorting::{SortKey, sort_by_key, sorted_by_key};
use crate::tags::{ascii_lower, ascii_text, lemma_trim_ascii, lowercase, to_lowercase};
use crate::text::{lemma_seq_le_total, lemma_seq_le_trans, 
    chars_lt, chars_of, dec, decimal, group_thousands, grouped, hex, hex_digit, hex_text, is_alnum, is_ascii_alnum,
    join, join_chars, lemma_seq_lt_asym, lemma_seq_lt_irrefl, lemma_seq_lt_total, lemma_seq_lt_trans,
    push_chars, push_str, seq_lt, split_chars, split_on, str_eq, string_of, trim, trim_chars,
    trim_str,
};

verus! {

/// One of the two catalogs we know how to sync.
pub open spec fn is_catalog(s: Seq<char>) -> bool {
    s == "standardebooks"@ || s == "gutenberg"@
}

/// The two catalogs, in display order (also the allowlist for `source`).
pub fn sources() -> (r: Vec<&'static str>)
    ensures
        r@.len() == 2,
        r@[0]@ == "standardebooks"@,
        r@[1]@ == "gutenberg"@,
{
    vec!["standardebooks", "gutenberg"]
}

/// Human label for a source id; unknown ids echo back verbatim.
pub open spec fn label_of(s: Seq<char>) -> Seq<char> {
    if s == "standardebooks"@ {
        "Standard Ebooks"@
    } else if s == "gutenberg"@ {
        "Project Gutenberg"@
    } else {
        s
    }
}

pub fn source_label<'a>(source: &'a str) -> (r: &'a str)
    ensures
        r@ == label_of(source@),
{
    if str_eq(source, "standardebooks") {
        "Standard Ebooks"
    } else if str_eq(source, "gutenberg") {
        "Project Gutenberg"
    } else {
        source
    }
}

/// Why a catalog request was refused.
#[derive(Debug)]
pub enum CatalogError {
    /// A source that is not one of the two catalogs.
    UnknownSource(String),
    /// A source id that fails [`valid_source_id`].
    BadId(String),
    /// A bulk grab with nothing in it.
    NothingSelected,
    /// A bulk grab over [`MAX_GRAB`] items (how many were sent).
    TooMany(usize),
}

/// Reject anything that isn't one of the two catalogs.
pub fn check_source(source: &str) -> (r: Result<(), CatalogError>)
    ensures
        r is Ok <==> is_catalog(source@),
        r is Err ==> (r matches Err(CatalogError::UnknownSource(s)) && s@ == source@),
{
    if str_eq(source, "standardebooks") || str_eq(source, "gutenberg") {
        Ok(())
    } else {
        Err(CatalogError::UnknownSource(source.to_owned()))
    }
}

/// A character a source id may hold: ASCII letter or digit, '.', '_', '-', '/'.
pub open spec fn id_char(c: char) -> bool {
    is_alnum(c) || c == '.' || c == '_' || c == '-' || c == '/'
}

/// Two dots in a row somewhere in `s`.
pub open spec fn has_dotdot(s: Seq<char>) -> bool {
    exists|i: int| 0 <= i < s.len() - 1 && s[i] == '.' && #[trigger] s[i + 1] == '.'
}

/// A Gutenberg `Text#` or a Standard Ebooks `<author>/<title>` fragment: path
/// characters only, 1..=200 of them, no "..", not rooted. (The characters allowed
/// are ASCII, so this length is also the byte length.)
pub open spec fn id_ok(s: Seq<char>) -> bool {
    &&& 1 <= s.len() <= 200
    &&& !has_dotdot(s)
    &&& s[0] != '/'
    &&& forall|i: int| 0 <= i < s.len() ==> id_char(#[trigger] s[i])
}

pub fn valid_source_id(id: &str) -> (b: bool)
    ensures
        b == id_ok(id@),
{
    let v = chars_of(id);
    if v.len() == 0 || v.len() > 200 || v[0] == '/' {
        return false;
    }
    let mut i: usize = 0;
    while i < v.len()
        invariant
            v@ == id@,
            1 <= v@.len() <= 200,
            v@[0] != '/',
            i <= v@.len(),
            forall|k: int| 0 <= k < i ==> id_char(#[trigger] v@[k]),
            forall|k: int| 0 <= k < i - 1 ==> !(v@[k] == '.' && #[trigger] v@[k + 1] == '.'),
        decreases v@.len() - i,
    {
        let c = v[i];
        if !(is_ascii_alnum(c) || c == '.' || c == '_' || c == '-' || c == '/') {
            return false;
        }
        if i > 0 && c == '.' && v[i - 1] == '.' {
            assert(v@[i - 1] == '.' && v@[(i - 1) + 1] == '.');
            return false;
        }
        i = i + 1;
    }
    true
}

/// The unit phrase for an age: "just now", or "<n> <unit>[s] ago".
pub open spec fn ago_text(secs: i64) -> Seq<char> {
    let s: int = if secs < 0 { 0 } else { secs as int };
    if s <= 90 {
        "just now"@
    } else {
        let n: int = if s < 5400 {
            s / 60
        } else if s < 172_800 {
            s / 3600
        } else if s < 5_184_000 {
            s / 86400
        } else {
            s / 2_592_000
        };
        let unit = if s < 5400 {
            "minute"@
        } else if s < 172_800 {
            "hour"@
        } else if s < 5_184_000 {
            "day"@
        } else {
            "month"@
        };
        dec(n as nat) + " "@ + unit + (if n == 1 { ""@ } else { "s"@ }) + " ago"@
    }
}

/// Seconds since a sync -> "3 hours ago". Coarse on purpose.
pub fn ago(secs: i64) -> (r: String)
    ensures
        r@ == ago_text(secs),
{
    let s: i64 = if secs < 0 { 0 } else { secs };
    if s <= 90 {
        return "just now".to_owned();
    }
    let (n, unit): (i64, &str) = if s < 5400 {
        (s / 60, "minute")
    } else if s < 172_800 {
        (s / 3600, "hour")
    } else if s < 5_184_000 {
        (s / 86400, "day")
    } else {
        (s / 2_592_000, "month")
    };
    let digits = decimal(n as u64);
    let mut out = String::new();
    push_chars(&mut out, &digits);
    push_str(&mut out, " ");
    push_str(&mut out, unit);
    if n != 1 {
        push_str(&mut out, "s");
    }
    push_str(&mut out, " ago");
    proof {
        reveal_strlit("");
    }
    out
}

/// 61369 -> "61,369".
pub fn commas(n: i64) -> (s: String)
    ensures
        s@ == grouped(n as int),
{
    group_thousands(n)
}

/// Freshness of one catalog: rows held, rows already imported, and how long ago it
/// was synced ("" when never).
pub struct CatalogSourceStatus {
    pub source: String,
    pub label: String,
    pub rows: i64,
    pub imported: i64,
    pub synced: String,
}

/// Freshness of every catalog.
pub struct CatalogSummary {
    pub sources: Vec<CatalogSourceStatus>,
}

impl CatalogSummary {
    /// True when nothing has ever been synced.
    pub fn is_empty(&self) -> (b: bool)
        ensures
            b == forall|i: int| 0 <= i < self.sources@.len() ==> (#[trigger] self.sources@[i]).rows == 0,
    {
        let mut i: usize = 0;
        while i < self.sources.len()
            invariant
                i <= self.sources@.len(),
                forall|k: int| 0 <= k < i ==> (#[trigger] self.sources@[k]).rows == 0,
            decreases self.sources@.len() - i,
        {
            if self.sources[i].rows != 0 {
                return false;
            }
            i = i + 1;
        }
        true
    }
}

/// One catalog's freshness line from its counts and the seconds since its sync.
pub fn source_status(src: &str, rows: i64, imported: i64, age: Option<i64>) -> (r: CatalogSourceStatus)
    ensures
        r.source@ == src@,
        r.label@ == label_of(src@),
        r.rows == rows,
        r.imported == imported,
        r.synced@ == match age {
            Some(a) => ago_text(a),
            None => Seq::<char>::empty(),
        },
{
    let synced = match age {
        Some(a) => ago(a),
        None => String::new(),
    };
    CatalogSourceStatus {
        source: src.to_owned(),
        label: source_label(src).to_owned(),
        rows,
        imported,
        synced,
    }
}

/// The subjects of a catalog row: its ';'-separated entries, trimmed, empty ones
/// dropped.
pub open spec fn subject_entries(segs: Seq<Seq<char>>) -> Seq<Seq<char>>
    decreases segs.len(),
{
    if segs.len() == 0 {
        Seq::empty()
    } else {
        let rest = subject_entries(segs.drop_last());
        if trim(segs.last()).len() == 0 {
            rest
        } else {
            rest.push(trim(segs.last()))
        }
    }
}

pub fn split_subjects(s: &str) -> (r: Vec<String>)
    ensures
        r@.len() == subject_entries(split_on(s@, ';')).len(),
        forall|k: int| 0 <= k < r@.len() ==> #[trigger] r@[k]@ == subject_entries(split_on(s@, ';'))[k],
{
    let v = chars_of(s);
    let segs = split_chars(&v, ';');
    let ghost ss = split_on(s@, ';');
    let mut out: Vec<String> = Vec::new();
    let mut k: usize = 0;
    assert(ss.take(0).len() == 0);
    while k < segs.len()
        invariant
            segs@.len() == ss.len(),
            forall|q: int| 0 <= q < segs@.len() ==> #[trigger] segs@[q]@ == ss[q],
            k <= ss.len(),
            out@.len() == subject_entries(ss.take(k as int)).len(),
            forall|q: int| 0 <= q < out@.len() ==> #[trigger] out@[q]@ == subject_entries(ss.take(k as int))[q],
        decreases ss.len() - k,
    {
        assert(ss.take(k + 1).drop_last() == ss.take(k as int));
        assert(ss.take(k + 1).last() == ss[k as int]);
        let t = trim_chars(&segs[k]);
        if t.len() > 0 {
            out.push(string_of(&t));
        }
        k = k + 1;
    }
    assert(ss.take(ss.len() as int) == ss);
    out
}

/// What a results page is ordered by.
#[derive(Clone, Copy, Debug, PartialEq, Eq, Structural)]
pub enum SortOrder {
    Title,
    Author,
    Year,
    Words,
    /// Relevance, or anything unrecognised.
    Relevance,
}

pub open spec fn sort_named(s: Seq<char>) -> SortOrder {
    if s == "title"@ {
        SortOrder::Title
    } else if s == "author"@ {
        SortOrder::Author
    } else if s == "year"@ {
        SortOrder::Year
    } else if s == "words"@ {
        SortOrder::Words
    } else {
        SortOrder::Relevance
    }
}

/// The ORDER BY list a named sort uses (`None`: relevance, decided by the query).
pub open spec fn sort_sql(o: SortOrder) -> Option<Seq<char>> {
    match o {
        SortOrder::Title => Some("c.title COLLATE NOCASE ASC"@),
        SortOrder::Author => Some("c.author COLLATE NOCASE ASC, c.title COLLATE NOCASE ASC"@),
        SortOrder::Year => Some("c.year IS NULL, c.year ASC, c.title COLLATE NOCASE ASC"@),
        SortOrder::Words => Some("c.n_words IS NULL, c.n_words DESC, c.title COLLATE NOCASE ASC"@),
        SortOrder::Relevance => None,
    }
}

/// How a search request is answered: the normalised query, the WHERE fragment and
/// its parameters, the ORDER BY list and its parameters, and the page window.
pub struct SearchPlan {
    pub query: String,
    pub where_sql: String,
    pub params: Vec<String>,
    pub order_sql: String,
    pub order_params: Vec<String>,
    pub limit: i64,
    pub offset: i64,
}

pub open spec fn opt_one(b: bool, s: Seq<char>) -> Seq<Seq<char>> {
    if b {
        seq![s]
    } else {
        Seq::empty()
    }
}

/// The WHERE conditions, in order: source, query, subject.
pub open spec fn search_clauses(source: Seq<char>, q: Seq<char>, subject: Seq<char>) -> Seq<Seq<char>> {
    opt_one(source.len() > 0, "c.source = ?"@) + opt_one(q.len() > 0, "(lower(c.title) LIKE ? OR lower(c.author) LIKE ?)"@)
        + opt_one(subject.len() > 0, "';' || replace(lower(c.subjects), '; ', ';') || ';' LIKE ?"@)
}

/// Their parameters, in the same order.
pub open spec fn search_params(source: Seq<char>, q: Seq<char>, subject: Seq<char>) -> Seq<Seq<char>> {
    opt_one(source.len() > 0, source) + (if q.len() > 0 {
        seq!["%"@ + q + "%"@, "%"@ + q + "%"@]
    } else {
        Seq::empty()
    }) + opt_one(subject.len() > 0, "%;"@ + lowercase(subject) + ";%"@)
}

pub open spec fn where_text(clauses: Seq<Seq<char>>) -> Seq<char> {
    if clauses.len() == 0 {
        Seq::empty()
    } else {
        " WHERE "@ + join(clauses, " AND "@)
    }
}

pub open spec fn relevance_sql() -> Seq<char> {
    "CASE WHEN lower(c.title) = ? THEN 0 WHEN lower(c.title) LIKE ? THEN 1 WHEN lower(c.title) LIKE ? THEN 2 ELSE 3 END, c.title COLLATE NOCASE ASC"@
}

/// The ORDER BY list: the named sort; else by title for an empty query; else
/// exact title, title prefix, title substring, author-only hits.
pub open spec fn order_text(o: SortOrder, q: Seq<char>) -> Seq<char> {
    match sort_sql(o) {
        Some(s) => s,
        None => if q.len() == 0 {
            "c.title COLLATE NOCASE ASC"@
        } else {
            relevance_sql()
        },
    }
}

pub open spec fn order_params_of(o: SortOrder, q: Seq<char>) -> Seq<Seq<char>> {
    if sort_sql(o) is None && q.len() > 0 {
        seq![q, q + "%"@, "%"@ + q + "%"@]
    } else {
        Seq::empty()
    }
}

/// The sorts by name: "title" A to Z; "author" A to Z, then title; "year" oldest
/// first, undated last; "words" longest first, uncounted last; anything else by
/// relevance, which for an empty query is by title. A named sort takes no
/// parameters.
pub proof fn lemma_named_sorts(q: Seq<char>)
    ensures
        order_text(sort_named("title"@), q) == "c.title COLLATE NOCASE ASC"@,
        order_text(sort_named("author"@), q) == "c.author COLLATE NOCASE ASC, c.title COLLATE NOCASE ASC"@,
        order_text(sort_named("year"@), q) == "c.year IS NULL, c.year ASC, c.title COLLATE NOCASE ASC"@,
        order_text(sort_named("words"@), q) == "c.n_words IS NULL, c.n_words DESC, c.title COLLATE NOCASE ASC"@,
        order_text(sort_named("relevance"@), Seq::empty()) == "c.title COLLATE NOCASE ASC"@,
        order_params_of(sort_named("title"@), q).len() == 0,
        order_params_of(sort_named("author"@), q).len() == 0,
        order_params_of(sort_named("year"@), q).len() == 0,
        order_params_of(sort_named("words"@), q).len() == 0,
{
    reveal_strlit("title");
    reveal_strlit("author");
    reveal_strlit("year");
    reveal_strlit("words");
    reveal_strlit("relevance");
    assert("author"@.len() == 6 && "title"@.len() == 5 && "year"@.len() == 4 && "relevance"@.len() == 9);
    assert("author"@ != "title"@ && "year"@ != "title"@ && "year"@ != "author"@);
    assert("words"@[0] != "title"@[0]);
    assert("relevance"@ != "title"@ && "relevance"@ != "author"@ && "relevance"@ != "year"@ && "relevance"@ != "words"@);
}

fn text_of(s: &str) -> (r: String)
    ensures
        r@ == s@,
{
    s.to_owned()
}

fn concat3(a: &str, b: &str, c: &str) -> (r: String)
    ensures
        r@ == a@ + b@ + c@,
{
    let mut r = a.to_owned();
    push_str(&mut r, b);
    push_str(&mut r, c);
    r
}

/// Plan a search: the query trimmed and lowercased, an unknown source refused, the
/// page size clamped to 1..=200 and the offset to >= 0, the sort looked up (never
/// passed through), and the WHERE/ORDER BY text with their parameters.
pub fn search_plan(query: &str, source: &str, subject: &str, sort: &str, limit: i64, offset: i64) -> (r: Result<SearchPlan, CatalogError>)
    ensures
        r is Err <==> (source@.len() > 0 && !is_catalog(source@)),
        r is Err ==> (r matches Err(CatalogError::UnknownSource(s)) && s@ == source@),
        r matches Ok(p) ==> {
            let q = lowercase(trim(query@));
            &&& p.query@ == q
            &&& p.where_sql@ == where_text(search_clauses(source@, q, subject@))
            &&& p.params@.len() == search_params(source@, q, subject@).len()
            &&& forall|k: int| 0 <= k < p.params@.len() ==> #[trigger] p.params@[k]@ == search_params(source@, q, subject@)[k]
            &&& p.order_sql@ == order_text(sort_named(sort@), q)
            &&& p.order_params@.len() == order_params_of(sort_named(sort@), q).len()
            &&& forall|k: int| 0 <= k < p.order_params@.len() ==> #[trigger] p.order_params@[k]@ == order_params_of(sort_named(sort@), q)[k]
            &&& p.limit == if limit < 1 { 1 } else if limit > 200 { 200 } else { limit }
            &&& p.offset == if offset < 0 { 0 } else { offset }
        },
        // On an ASCII query, lowercasing is A-Z to a-z.
        ascii_text(query@) ==> (r matches Ok(p) ==> p.query@ == ascii_lower(trim(query@))),
        // The filters, in order: the source exactly, the query in the title or the
        // author, the subject as one whole "; "-separated entry; their parameters
        // in the same order.
        r matches Ok(p) ==> p.where_sql@ == where_text(opt_one(source@.len() > 0, "c.source = ?"@) + opt_one(
            p.query@.len() > 0,
            "(lower(c.title) LIKE ? OR lower(c.author) LIKE ?)"@,
        ) + opt_one(subject@.len() > 0, "';' || replace(lower(c.subjects), '; ', ';') || ';' LIKE ?"@)),
        r matches Ok(p) ==> p.params@.map_values(|x: String| x@) == opt_one(source@.len() > 0, source@) + (if p.query@.len()
            > 0 {
            seq!["%"@ + p.query@ + "%"@, "%"@ + p.query@ + "%"@]
        } else {
            Seq::empty()
        }) + opt_one(subject@.len() > 0, "%;"@ + lowercase(subject@) + ";%"@),
        // The named sorts: "title" A to Z; "author" A to Z, then title; "year"
        // oldest first, undated last; "words" longest first, uncounted last.
        sort@ == "title"@ ==> (r matches Ok(p) ==> (p.order_sql@ == "c.title COLLATE NOCASE ASC"@
            && p.order_params@.len() == 0)),
        sort@ == "author"@ ==> (r matches Ok(p) ==> (p.order_sql@
            == "c.author COLLATE NOCASE ASC, c.title COLLATE NOCASE ASC"@ && p.order_params@.len() == 0)),
        sort@ == "year"@ ==> (r matches Ok(p) ==> (p.order_sql@
            == "c.year IS NULL, c.year ASC, c.title COLLATE NOCASE ASC"@ && p.order_params@.len() == 0)),
        sort@ == "words"@ ==> (r matches Ok(p) ==> (p.order_sql@
            == "c.n_words IS NULL, c.n_words DESC, c.title COLLATE NOCASE ASC"@ && p.order_params@.len() == 0)),
        // Any other sort is relevance: by title for an empty query, else exact
        // title, title prefix, title substring, then the rest, each by title.
        sort@ != "title"@ && sort@ != "author"@ && sort@ != "year"@ && sort@ != "words"@ ==> (r matches Ok(p)
            ==> (p.query@.len() == 0 ==> p.order_sql@ == "c.title COLLATE NOCASE ASC"@ && p.order_params@.len() == 0)
            && (p.query@.len() > 0 ==> p.order_sql@
            == "CASE WHEN lower(c.title) = ? THEN 0 WHEN lower(c.title) LIKE ? THEN 1 WHEN lower(c.title) LIKE ? THEN 2 ELSE 3 END, c.title COLLATE NOCASE ASC"@
            && p.order_params@.len() == 3 && p.order_params@[0]@ == p.query@ && p.order_params@[1]@ == p.query@
            + "%"@ && p.order_params@[2]@ == "%"@ + p.query@ + "%"@)),
{
    proof {
        reveal_strlit("");
        reveal_strlit("title");
        reveal_strlit("author");
        reveal_strlit("year");
        reveal_strlit("words");
        assert("author"@.len() == 6 && "title"@.len() == 5 && "year"@.len() == 4);
        assert("author"@ != "title"@ && "year"@ != "title"@ && "year"@ != "author"@);
        assert("words"@[0] != "title"@[0]);
    }
    let tq = trim_str(query);
    let ts = string_of(&tq);
    proof {
        lemma_trim_ascii(query@);
    }
    let q = to_lowercase(ts.as_str());
    let src_set = nonempty(source);
    if src_set {
        match check_source(source) {
            Ok(()) => {},
            Err(e) => {
                return Err(e);
            },
        }
    }
    let lim: i64 = if limit < 1 { 1 } else if limit > 200 { 200 } else { limit };
    let off: i64 = if offset < 0 { 0 } else { offset };
    let q_nonempty = nonempty(q.as_str());
    let subj_set = nonempty(subject);
    let ghost qs = q@;

    let mut clauses: Vec<Vec<char>> = Vec::new();
    let mut params: Vec<String> = Vec::new();
    let ghost c1 = opt_one(src_set, "c.source = ?"@);
    let ghost c2 = opt_one(q_nonempty, "(lower(c.title) LIKE ? OR lower(c.author) LIKE ?)"@);
    let ghost c3 = opt_one(subj_set, "';' || replace(lower(c.subjects), '; ', ';') || ';' LIKE ?"@);
    if src_set {
        clauses.push(chars_of("c.source = ?"));
        params.push(text_of(source));
    }
    assert(clauses@.map_values(|p: Vec<char>| p@) =~= c1);
    let ghost cl1 = clauses@;
    if q_nonempty {
        clauses.push(chars_of("(lower(c.title) LIKE ? OR lower(c.author) LIKE ?)"));
        params.push(concat3("%", q.as_str(), "%"));
        params.push(concat3("%", q.as_str(), "%"));
    }
    assert(clauses@.map_values(|p: Vec<char>| p@) =~= c1 + c2) by {
        if q_nonempty {
            assert(clauses@.drop_last() == cl1);
        }
    }
    let ghost cl2 = clauses@;
    if subj_set {
        clauses.push(chars_of("';' || replace(lower(c.subjects), '; ', ';') || ';' LIKE ?"));
        let ls = to_lowercase(subject);
        params.push(concat3("%;", ls.as_str(), ";%"));
    }
    assert(clauses@.map_values(|p: Vec<char>| p@) =~= c1 + c2 + c3) by {
        if subj_set {
            assert(clauses@.drop_last() == cl2);
        }
    }
    let ghost cl = search_clauses(source@, qs, subject@);
    let ghost pa = search_params(source@, qs, subject@);
    proof {
        assert(clauses@.map_values(|p: Vec<char>| p@) =~= cl);
        assert(params@.len() == pa.len());
        assert forall|k: int| 0 <= k < params@.len() implies #[trigger] params@[k]@ == pa[k] by {}
    }
    let where_sql = if clauses.len() == 0 {
        String::new()
    } else {
        let sep = chars_of(" AND ");
        let joined = join_chars(&clauses, &sep);
        let mut w = " WHERE ".to_owned();
        push_chars(&mut w, &joined);
        w
    };
    let order = sort_order_of(sort);
    let mut order_params: Vec<String> = Vec::new();
    let order_sql = match order {
        SortOrder::Title => text_of("c.title COLLATE NOCASE ASC"),
        SortOrder::Author => text_of("c.author COLLATE NOCASE ASC, c.title COLLATE NOCASE ASC"),
        SortOrder::Year => text_of("c.year IS NULL, c.year ASC, c.title COLLATE NOCASE ASC"),
        SortOrder::Words => text_of("c.n_words IS NULL, c.n_words DESC, c.title COLLATE NOCASE ASC"),
        SortOrder::Relevance => {
            if !q_nonempty {
                text_of("c.title COLLATE NOCASE ASC")
            } else {
                order_params.push(text_of(q.as_str()));
                order_params.push(concat3("", q.as_str(), "%"));
                order_params.push(concat3("%", q.as_str(), "%"));
                proof {
                    assert(""@ + qs + "%"@ =~= qs + "%"@);
                }
                text_of(
                    "CASE WHEN lower(c.title) = ? THEN 0 WHEN lower(c.title) LIKE ? THEN 1 WHEN lower(c.title) LIKE ? THEN 2 ELSE 3 END, c.title COLLATE NOCASE ASC",
                )
            }
        },
    };
    proof {
        assert(order_params@.len() == order_params_of(order, qs).len());
    }
    Ok(SearchPlan { query: q, where_sql, params, order_sql, order_params, limit: lim, offset: off })
}

fn nonempty(s: &str) -> (b: bool)
    ensures
        b == (s@.len() > 0),
{
    chars_of(s).len() > 0
}

fn sort_order_of(sort: &str) -> (o: SortOrder)
    ensures
        o == sort_named(sort@),
{
    if str_eq(sort, "title") {
        SortOrder::Title
    } else if str_eq(sort, "author") {
        SortOrder::Author
    } else if str_eq(sort, "year") {
        SortOrder::Year
    } else if str_eq(sort, "words") {
        SortOrder::Words
    } else {
        SortOrder::Relevance
    }
}

/// Largest bulk grab queued in one go.
pub const MAX_GRAB: usize = 200;

/// A (source, source id) pair by its characters.
pub open spec fn pair_view(p: (String, String)) -> (Seq<char>, Seq<char>) {
    (p.0@, p.1@)
}

pub open spec fn pair_views(v: Seq<(String, String)>) -> Seq<(Seq<char>, Seq<char>)> {
    v.map_values(|p: (String, String)| pair_view(p))
}

/// A grab item that may reach the importer.
pub open spec fn item_ok(it: (Seq<char>, Seq<char>)) -> bool {
    is_catalog(it.0) && id_ok(it.1)
}

/// Tuple order on (source, source id): by source, then by id.
pub open spec fn pair_lt(a: (Seq<char>, Seq<char>), b: (Seq<char>, Seq<char>)) -> bool {
    seq_lt(a.0, b.0) || (a.0 == b.0 && seq_lt(a.1, b.1))
}

/// Strictly increasing, so no pair twice.
pub open spec fn pairs_sorted(s: Seq<(Seq<char>, Seq<char>)>) -> bool {
    forall|i: int, j: int| 0 <= i < j < s.len() ==> pair_lt(#[trigger] s[i], #[trigger] s[j])
}

/// The error that refusing item `it` gives: its source if that is unknown, else
/// its id.
pub open spec fn refusal(e: CatalogError, it: (Seq<char>, Seq<char>)) -> bool {
    if !is_catalog(it.0) {
        e matches CatalogError::UnknownSource(s) && s@ == it.0
    } else {
        e matches CatalogError::BadId(s) && s@ == it.1
    }
}

pub proof fn lemma_pair_lt_trans(a: (Seq<char>, Seq<char>), b: (Seq<char>, Seq<char>), c: (Seq<char>, Seq<char>))
    requires
        pair_lt(a, b),
        pair_lt(b, c),
    ensures
        pair_lt(a, c),
{
    if seq_lt(a.0, b.0) && seq_lt(b.0, c.0) {
        lemma_seq_lt_trans(a.0, b.0, c.0);
    }
    if a.0 == b.0 && b.0 == c.0 && seq_lt(a.1, b.1) && seq_lt(b.1, c.1) {
        lemma_seq_lt_trans(a.1, b.1, c.1);
    }
}

pub proof fn lemma_pair_lt_total(a: (Seq<char>, Seq<char>), b: (Seq<char>, Seq<char>))
    requires
        a != b,
    ensures
        pair_lt(a, b) || pair_lt(b, a),
{
    if a.0 != b.0 {
        lemma_seq_lt_total(a.0, b.0);
    } else {
        lemma_seq_lt_total(a.1, b.1);
    }
}

fn pair_before(a: &(String, String), b: &(String, String)) -> (r: bool)
    ensures
        r == pair_lt(pair_view(*a), pair_view(*b)),
{
    let a0 = chars_of(a.0.as_str());
    let b0 = chars_of(b.0.as_str());
    if chars_lt(&a0, &b0) {
        return true;
    }
    if !str_eq(a.0.as_str(), b.0.as_str()) {
        return false;
    }
    let a1 = chars_of(a.1.as_str());
    let b1 = chars_of(b.1.as_str());
    chars_lt(&a1, &b1)
}

fn insert_pair(out: &mut Vec<(String, String)>, x: (String, String))
    requires
        pairs_sorted(pair_views(old(out)@)),
    ensures
        pairs_sorted(pair_views(final(out)@)),
        forall|y: (Seq<char>, Seq<char>)| #[trigger] pair_views(final(out)@).contains(y) <==> (pair_views(old(out)@).contains(y) || y == pair_view(x)),
{
    let ghost o = pair_views(out@);
    let ghost xv = pair_view(x);
    let mut p: usize = 0;
    while p < out.len() && pair_before(&out[p], &x)
        invariant
            o == pair_views(out@),
            p <= o.len(),
            xv == pair_view(x),
            forall|q: int| 0 <= q < p ==> pair_lt(#[trigger] o[q], xv),
        decreases o.len() - p,
    {
        p = p + 1;
    }
    if p < out.len() && str_eq(out[p].0.as_str(), x.0.as_str()) && str_eq(out[p].1.as_str(), x.1.as_str()) {
        proof {
            assert(o[p as int] == xv);
        }
        return;
    }
    proof {
        if p < o.len() {
            lemma_pair_lt_total(o[p as int], xv);
            assert forall|q: int| p <= q < o.len() implies pair_lt(xv, #[trigger] o[q]) by {
                if q > p {
                    assert(pair_lt(o[p as int], o[q]));
                    lemma_pair_lt_trans(xv, o[p as int], o[q]);
                }
            }
        }
    }
    out.insert(p, x);
    proof {
        let t = pair_views(out@);
        assert forall|q: int| 0 <= q < t.len() implies #[trigger] t[q] == (if q < p { o[q] } else if q == p { xv } else { o[q - 1] }) by {}
        assert forall|i: int, j: int| 0 <= i < j < t.len() implies pair_lt(#[trigger] t[i], #[trigger] t[j]) by {
            if i < p && j > p {
                lemma_pair_lt_trans(o[i], xv, o[j - 1]);
            }
        }
        assert forall|y: (Seq<char>, Seq<char>)| #[trigger] t.contains(y) <==> (o.contains(y) || y == xv) by {
            if t.contains(y) {
                let q = choose|q: int| 0 <= q < t.len() && t[q] == y;
                if q < p {
                    assert(o[q] == y);
                } else if q > p {
                    assert(o[q - 1] == y);
                }
            }
            if o.contains(y) {
                let q = choose|q: int| 0 <= q < o.len() && o[q] == y;
                if q < p {
                    assert(t[q] == y);
                } else {
                    assert(t[q + 1] == y);
                }
            }
            if y == xv {
                assert(t[p as int] == y);
            }
        }
    }
}

/// Validate a bulk grab and normalise it: nothing selected, more than
/// [`MAX_GRAB`], or the first item (in order) with an unknown source or a bad id
/// is refused; otherwise the distinct items in (source, id) order.
pub fn grab_plan(items: &Vec<(String, String)>) -> (r: Result<Vec<(String, String)>, CatalogError>)
    ensures
        items@.len() == 0 ==> r matches Err(CatalogError::NothingSelected),
        items@.len() > MAX_GRAB ==> (r matches Err(CatalogError::TooMany(n)) && n == items@.len()),
        1 <= items@.len() <= MAX_GRAB ==> match r {
            Ok(clean) => {
                &&& forall|k: int| 0 <= k < items@.len() ==> item_ok(pair_view(#[trigger] items@[k]))
                &&& pairs_sorted(pair_views(clean@))
                &&& forall|y: (Seq<char>, Seq<char>)| #[trigger] pair_views(clean@).contains(y) <==> pair_views(items@).contains(y)
            },
            Err(e) => exists|k: int|
                0 <= k < items@.len() && !item_ok(pair_view(#[trigger] items@[k])) && (forall|j: int|
                    0 <= j < k ==> item_ok(pair_view(#[trigger] items@[j]))) && refusal(e, pair_view(items@[k])),
        },
        (1 <= items@.len() <= MAX_GRAB && forall|k: int| 0 <= k < items@.len() ==> item_ok(pair_view(#[trigger] items@[k]))) ==> r is Ok,
{
    if items.len() == 0 {
        return Err(CatalogError::NothingSelected);
    }
    if items.len() > MAX_GRAB {
        return Err(CatalogError::TooMany(items.len()));
    }
    let mut k: usize = 0;
    while k < items.len()
        invariant
            1 <= items@.len() <= MAX_GRAB,
            k <= items@.len(),
            forall|j: int| 0 <= j < k ==> item_ok(pair_view(#[trigger] items@[j])),
        decreases items@.len() - k,
    {
        match check_source(items[k].0.as_str()) {
            Ok(()) => {},
            Err(e) => {
                proof {
                    assert(!item_ok(pair_view(items@[k as int])));
                }
                return Err(e);
            },
        }
        if !valid_source_id(items[k].1.as_str()) {
            proof {
                assert(!item_ok(pair_view(items@[k as int])));
            }
            return Err(CatalogError::BadId(items[k].1.clone()));
        }
        k = k + 1;
    }
    let mut clean: Vec<(String, String)> = Vec::new();
    let ghost iv = pair_views(items@);
    let mut i: usize = 0;
    while i < items.len()
        invariant
            1 <= items@.len() <= MAX_GRAB,
            forall|j: int| 0 <= j < items@.len() ==> item_ok(pair_view(#[trigger] items@[j])),
            iv == pair_views(items@),
            i <= items@.len(),
            pairs_sorted(pair_views(clean@)),
            forall|y: (Seq<char>, Seq<char>)| #[trigger] pair_views(clean@).contains(y) <==> iv.take(i as int).contains(y),
        decreases items@.len() - i,
    {
        let ghost before = pair_views(clean@);
        insert_pair(&mut clean, (items[i].0.clone(), items[i].1.clone()));
        proof {
            assert forall|y: (Seq<char>, Seq<char>)| #[trigger] pair_views(clean@).contains(y) <==> iv.take(i + 1).contains(y) by {
                let t0 = iv.take(i as int);
                let t1 = iv.take(i + 1);
                assert(t1 =~= t0.push(iv[i as int]));
                if t0.contains(y) {
                    let q = choose|q: int| 0 <= q < t0.len() && #[trigger] t0[q] == y;
                    assert(t1[q] == y);
                }
                if t1.contains(y) {
                    let q = choose|q: int| 0 <= q < t1.len() && #[trigger] t1[q] == y;
                    if q < i {
                        assert(t0[q] == y);
                    }
                }
                if y == iv[i as int] {
                    assert(t1[i as int] == y);
                }
            }
        }
        i = i + 1;
    }
    assert(iv.take(items@.len() as int) == iv);
    Ok(clean)
}

/// FNV-1a over bytes.
pub open spec fn fnv(bytes: Seq<u8>) -> u64
    decreases bytes.len(),
{
    if bytes.len() == 0 {
        0xcbf2_9ce4_8422_2325u64
    } else {
        (fnv(bytes.drop_last()) ^ (bytes.last() as u64)).wrapping_mul(0x0100_0000_01b3u64)
    }
}

/// FNV-1a over the UTF-8 bytes of `s`: a stable short name for "this exact
/// selection". Not security-relevant.
pub fn digest(s: &str) -> (h: u64)
    ensures
        h == fnv(s.spec_bytes()),
{
    let bytes = s.as_bytes();
    let mut h: u64 = 0xcbf2_9ce4_8422_2325;
    let mut i: usize = 0;
    assert(bytes@.take(0).len() == 0);
    while i < bytes.len()
        invariant
            bytes@ == s.spec_bytes(),
            i <= bytes@.len(),
            h == fnv(bytes@.take(i as int)),
        decreases bytes@.len() - i,
    {
        assert(bytes@.take(i + 1).drop_last() == bytes@.take(i as int));
        assert(bytes@.take(i + 1).last() == bytes@[i as int]);
        h = (h ^ (bytes[i] as u64)).wrapping_mul(0x0100_0000_01b3);
        i = i + 1;
    }
    assert(bytes@.take(bytes@.len() as int) == bytes@);
    h
}

/// The job label for a catalog refresh; `all` is accepted besides the two
/// catalogs.
pub fn sync_label(source: &str) -> (r: Result<String, CatalogError>)
    ensures
        source@ == "all"@ ==> (r matches Ok(l) && l@ == "syncing all catalogs…"@),
        source@ != "all"@ ==> (r is Ok <==> is_catalog(source@)),
        source@ != "all"@ && r is Ok ==> (r matches Ok(l) && l@ == "syncing "@ + label_of(source@) + "…"@),
        r is Err ==> (r matches Err(CatalogError::UnknownSource(s)) && s@ == source@),
{
    if str_eq(source, "all") {
        return Ok("syncing all catalogs…".to_owned());
    }
    check_source(source)?;
    let mut l = "syncing ".to_owned();
    push_str(&mut l, source_label(source));
    push_str(&mut l, "…");
    Ok(l)
}

/// The job label for a bulk download of `n` books.
pub fn grab_label(n: usize) -> (r: String)
    ensures
        r@ == "downloading "@ + dec(n as nat) + " book"@ + (if n == 1 { ""@ } else { "s"@ }) + "…"@,
{
    proof {
        reveal_strlit("");
    }
    let mut l = "downloading ".to_owned();
    let d = decimal(n as u64);
    push_chars(&mut l, &d);
    push_str(&mut l, " book");
    if n != 1 {
        push_str(&mut l, "s");
    }
    push_str(&mut l, "…");
    l
}

/// A character inside a JSON string as serde_json writes it: '"' and '\\' and
/// the control characters escaped (the short forms \b \t \n \f \r, otherwise
/// \u00XX in lowercase hex), every other character as it is.
pub open spec fn json_escape_char(c: char) -> Seq<char> {
    if c == '"' {
        seq!['\\', '"']
    } else if c == '\\' {
        seq!['\\', '\\']
    } else if c == '\u{8}' {
        seq!['\\', 'b']
    } else if c == '\t' {
        seq!['\\', 't']
    } else if c == '\n' {
        seq!['\\', 'n']
    } else if c == '\u{c}' {
        seq!['\\', 'f']
    } else if c == '\r' {
        seq!['\\', 'r']
    } else if (c as u32) < 0x20 {
        seq!['\\', 'u', '0', '0', hex_digit(((c as u32) / 16) as nat), hex_digit(((c as u32) % 16) as nat)]
    } else {
        seq![c]
    }
}

/// The characters of a text, escaped for a JSON string.
pub open spec fn json_escaped(s: Seq<char>) -> Seq<char>
    decreases s.len(),
{
    if s.len() == 0 {
        Seq::empty()
    } else {
        json_escaped(s.drop_last()) + json_escape_char(s.last())
    }
}

/// A text as a JSON string literal.
pub open spec fn json_string(s: Seq<char>) -> Seq<char> {
    seq!['"'] + json_escaped(s) + seq!['"']
}

/// One grab-list entry: `{"source":<source>,"source_id":<id>}`.
pub open spec fn grab_entry_json(p: (Seq<char>, Seq<char>)) -> Seq<char> {
    "{\"source\":"@ + json_string(p.0) + ",\"source_id\":"@ + json_string(p.1) + seq!['}']
}

/// The text of the grab list the downloader reads: a compact JSON array of the
/// entries, in order, separated by commas.
pub open spec fn grab_list_json(items: Seq<(Seq<char>, Seq<char>)>) -> Seq<char> {
    seq!['['] + join(items.map_values(|p: (Seq<char>, Seq<char>)| grab_entry_json(p)), seq![',']) + seq![']']
}

/// `serde_json::to_string` of the array of `{"source", "source_id"}` objects built
/// from the pairs. Claimed of it: it succeeds, and it writes the compact form
/// [`grab_list_json`] states (serde_json's compact formatter: no spaces, keys in
/// the order "source", "source_id", strings escaped by its escape table). Success: serde_json's `to_string` fails only when its
/// writer fails (here a `Vec<u8>`, whose writes do not fail) or when a map key
/// is not a string (here every key is a string).
#[verifier::external_body]
fn grab_list_text(items: &Vec<(String, String)>) -> (r: Option<String>)
    ensures
        r is Some,
        r matches Some(t) ==> t@ == grab_list_json(pair_views(items@)),
{
    let list: Vec<serde_json::Value> = items.iter().map(|(s, i)| {
        let mut m = serde_json::Map::new();
        m.insert("source".to_string(), serde_json::Value::String(s.clone()));
        m.insert("source_id".to_string(), serde_json::Value::String(i.clone()));
        serde_json::Value::Object(m)
    }).collect();
    serde_json::to_string(&serde_json::Value::Array(list)).ok()
}

/// What a bulk grab is queued with: the list file's text, the job's dedup tag
/// (the list's digest in hex, so the same selection twice finds the running job)
/// and the job label.
pub struct GrabJob {
    pub list: String,
    pub tag: String,
    pub label: String,
}

pub open spec fn grab_label_of(n: nat) -> Seq<char> {
    "downloading "@ + dec(n) + " book"@ + (if n == 1 { ""@ } else { "s"@ }) + "…"@
}

/// The grab job for a list text of `n` books.
pub fn grab_job_for(list: String, n: usize) -> (j: GrabJob)
    ensures
        j.list@ == list@,
        j.tag@ == hex(fnv(vstd::utf8::encode_utf8(list@)) as nat),
        j.label@ == grab_label_of(n as nat),
{
    let h = digest(list.as_str());
    let tag = hex_text(h);
    let label = grab_label(n);
    GrabJob { list, tag, label }
}

/// The grab job for a cleaned selection: its list as JSON, the tag and the
/// label. Writing the list as JSON does not fail, so there always is one.
pub fn grab_job(clean: &Vec<(String, String)>) -> (r: Option<GrabJob>)
    ensures
        r is Some,
        r matches Some(j) ==> {
            &&& j.list@ == grab_list_json(pair_views(clean@))
            &&& j.tag@ == hex(fnv(vstd::utf8::encode_utf8(j.list@)) as nat)
            &&& j.label@ == grab_label_of(clean@.len())
        },
{
    match grab_list_text(clean) {
        Some(list) => Some(grab_job_for(list, clean.len())),
        None => None,
    }
}

/// Is the job still queued or running?
pub fn is_live<P>(j: &JobProgress<P>) -> (b: bool)
    ensures
        b == (j.status == JobStatus::Queued || j.status == JobStatus::Running),
{
    match j.status {
        JobStatus::Queued | JobStatus::Running => true,
        _ => false,
    }
}

/// Bytes a character takes in UTF-8.
pub open spec fn char_width(c: char) -> int {
    let u = c as u32;
    if u < 0x80 {
        1
    } else if u < 0x800 {
        2
    } else if u < 0x10000 {
        3
    } else {
        4
    }
}

/// Bytes a string takes in UTF-8.
pub open spec fn utf8_len(s: Seq<char>) -> int
    decreases s.len(),
{
    if s.len() == 0 {
        0
    } else {
        utf8_len(s.drop_last()) + char_width(s.last())
    }
}

/// The subject entries a row's ';'-separated pieces contribute: each trimmed, kept
/// when non-empty and at most 60 bytes (longer headings are data-quality
/// artefacts).
pub open spec fn row_subjects(segs: Seq<Seq<char>>) -> Seq<Seq<char>>
    decreases segs.len(),
{
    if segs.len() == 0 {
        Seq::empty()
    } else {
        let r = row_subjects(segs.drop_last());
        let t = trim(segs.last());
        if t.len() > 0 && utf8_len(t) <= 60 {
            r.push(t)
        } else {
            r
        }
    }
}

/// Every kept subject entry of every row, in order.
pub open spec fn all_subjects(rows: Seq<String>) -> Seq<Seq<char>>
    decreases rows.len(),
{
    if rows.len() == 0 {
        Seq::empty()
    } else {
        all_subjects(rows.drop_last()) + row_subjects(split_on(rows.last()@, ';'))
    }
}

/// How often `n` occurs.
pub open spec fn occurrences(s: Seq<Seq<char>>, n: Seq<char>) -> int
    decreases s.len(),
{
    if s.len() == 0 {
        0
    } else {
        occurrences(s.drop_last(), n) + if s.last() == n { 1int } else { 0int }
    }
}

/// How many rows' entries name subject `n`.
pub open spec fn subject_count(rows: Seq<String>, n: Seq<char>) -> int {
    occurrences(all_subjects(rows), n)
}

/// The size the rows take: their characters plus one per row.
pub open spec fn rows_size(rows: Seq<String>) -> int
    decreases rows.len(),
{
    if rows.len() == 0 {
        0
    } else {
        rows_size(rows.drop_last()) + rows.last()@.len() + 1
    }
}

/// Ranking: more uses first, then by name.
pub open spec fn rank_lt(a: (Seq<char>, int), b: (Seq<char>, int)) -> bool {
    a.1 > b.1 || (a.1 == b.1 && seq_lt(a.0, b.0))
}

/// The dropdown's order: by lowercased name, ties in ranking order.
pub open spec fn listed_lt(a: (Seq<char>, int), b: (Seq<char>, int)) -> bool {
    seq_lt(lowercase(a.0), lowercase(b.0)) || (lowercase(a.0) == lowercase(b.0) && rank_lt(a, b))
}

pub open spec fn counts_view(v: Seq<(String, i64)>) -> Seq<(Seq<char>, int)> {
    v.map_values(|p: (String, i64)| (p.0@, p.1 as int))
}

pub open spec fn count_names(v: Seq<(String, i64)>) -> Seq<Seq<char>> {
    v.map_values(|p: (String, i64)| p.0@)
}

proof fn lemma_occurrences_concat(a: Seq<Seq<char>>, b: Seq<Seq<char>>, n: Seq<char>)
    ensures
        occurrences(a + b, n) == occurrences(a, n) + occurrences(b, n),
    decreases b.len(),
{
    if b.len() > 0 {
        lemma_occurrences_concat(a, b.drop_last(), n);
        assert((a + b).drop_last() =~= a + b.drop_last());
        assert((a + b).last() == b.last());
    } else {
        assert(a + b =~= a);
    }
}

proof fn lemma_occurrences_bound(s: Seq<Seq<char>>, n: Seq<char>)
    ensures
        0 <= occurrences(s, n) <= s.len(),
    decreases s.len(),
{
    if s.len() > 0 {
        lemma_occurrences_bound(s.drop_last(), n);
    }
}

proof fn lemma_occurrences_contains(s: Seq<Seq<char>>, n: Seq<char>)
    ensures
        occurrences(s, n) > 0 <==> s.contains(n),
    decreases s.len(),
{
    if s.len() > 0 {
        let init = s.drop_last();
        lemma_occurrences_contains(init, n);
        lemma_occurrences_bound(init, n);
        if occurrences(s, n) > 0 {
            if s.last() == n {
                assert(s[s.len() - 1] == n);
            } else {
                let k = choose|k: int| 0 <= k < init.len() && init[k] == n;
                assert(s[k] == n);
            }
            assert(s.contains(n));
        }
        if s.contains(n) {
            let k = choose|k: int| 0 <= k < s.len() && s[k] == n;
            if k < s.len() - 1 {
                assert(init[k] == n);
                assert(init.contains(n));
            }
        }
    }
}

proof fn lemma_occ_push(seen: Seq<Seq<char>>, t: Seq<char>, x: Seq<char>)
    ensures
        occurrences(seen.push(t), x) == occurrences(seen, x) + if t == x { 1int } else { 0int },
{
    assert(seen.push(t).drop_last() =~= seen);
}

proof fn lemma_split_len(s: Seq<char>, c: char)
    ensures
        split_on(s, c).len() <= s.len() + 1,
    decreases s.len(),
{
    if s.len() > 0 {
        lemma_split_len(s.drop_last(), c);
        crate::text::lemma_split_on_nonempty(s.drop_last(), c);
    }
}

proof fn lemma_row_subjects_len(segs: Seq<Seq<char>>)
    ensures
        row_subjects(segs).len() <= segs.len(),
    decreases segs.len(),
{
    if segs.len() > 0 {
        lemma_row_subjects_len(segs.drop_last());
    }
}

proof fn lemma_all_subjects_len(rows: Seq<String>)
    ensures
        all_subjects(rows).len() <= rows_size(rows),
    decreases rows.len(),
{
    if rows.len() > 0 {
        lemma_all_subjects_len(rows.drop_last());
        lemma_split_len(rows.last()@, ';');
        lemma_row_subjects_len(split_on(rows.last()@, ';'));
    }
}

proof fn lemma_rows_size_prefix(rows: Seq<String>, k: int)
    requires
        0 <= k <= rows.len(),
    ensures
        rows_size(rows.take(k)) <= rows_size(rows),
    decreases rows.len() - k,
{
    if k < rows.len() {
        lemma_rows_size_prefix(rows, k + 1);
        assert(rows.take(k + 1).drop_last() =~= rows.take(k));
    } else {
        assert(rows.take(k) =~= rows);
    }
}

fn utf8_width(c: char) -> (w: usize)
    ensures
        w == char_width(c),
{
    let u = c as u32;
    if u < 0x80 {
        1
    } else if u < 0x800 {
        2
    } else if u < 0x10000 {
        3
    } else {
        4
    }
}

fn subject_kept(t: &Vec<char>) -> (b: bool)
    ensures
        b == (t@.len() > 0 && utf8_len(t@) <= 60),
{
    if t.len() == 0 {
        return false;
    }
    let mut total: usize = 0;
    let mut i: usize = 0;
    assert(t@.take(0).len() == 0);
    while i < t.len()
        invariant
            i <= t@.len(),
            total == utf8_len(t@.take(i as int)),
            total <= 4 * i,
        decreases t@.len() - i,
    {
        assert(t@.take(i + 1).drop_last() == t@.take(i as int));
        assert(t@.take(i + 1).last() == t@[i as int]);
        if total > 60 {
            proof {
                lemma_utf8_len_mono(t@, i as int);
            }
            return false;
        }
        total = total + utf8_width(t[i]);
        i = i + 1;
    }
    assert(t@.take(t@.len() as int) == t@);
    total <= 60
}

proof fn lemma_utf8_len_mono(s: Seq<char>, i: int)
    requires
        0 <= i <= s.len(),
    ensures
        utf8_len(s.take(i)) <= utf8_len(s),
    decreases s.len() - i,
{
    if i < s.len() {
        lemma_utf8_len_mono(s, i + 1);
        assert(s.take(i + 1).drop_last() =~= s.take(i));
    } else {
        assert(s.take(i) =~= s);
    }
}

fn tally_add(tally: &mut Vec<(String, i64)>, t: &Vec<char>, Ghost(seen): Ghost<Seq<Seq<char>>>)
    requires
        forall|a: int, b: int| 0 <= a < b < old(tally)@.len() ==> #[trigger] old(tally)@[a].0@ != #[trigger] old(tally)@[b].0@,
        forall|a: int| 0 <= a < old(tally)@.len() ==> (#[trigger] old(tally)@[a]).1 == occurrences(seen, old(tally)@[a].0@),
        forall|a: int| 0 <= a < old(tally)@.len() ==> (#[trigger] old(tally)@[a]).1 > 0,
        forall|n: Seq<char>| occurrences(seen, n) > 0 ==> #[trigger] count_names(old(tally)@).contains(n),
        seen.len() < i64::MAX,
    ensures
        forall|a: int| 0 <= a < final(tally)@.len() ==> (#[trigger] final(tally)@[a]).1 > 0,
        forall|a: int, b: int| 0 <= a < b < final(tally)@.len() ==> #[trigger] final(tally)@[a].0@ != #[trigger] final(tally)@[b].0@,
        forall|a: int| 0 <= a < final(tally)@.len() ==> (#[trigger] final(tally)@[a]).1 == occurrences(seen.push(t@), final(tally)@[a].0@),
        forall|n: Seq<char>| occurrences(seen.push(t@), n) > 0 ==> #[trigger] count_names(final(tally)@).contains(n),
{
    let ghost o = tally@;
    assert(seen.push(t@).drop_last() == seen);
    let mut i: usize = 0;
    while i < tally.len()
        invariant
            tally@ == o,
            i <= o.len(),
            forall|a: int| 0 <= a < i ==> (#[trigger] o[a]).0@ != t@,
            forall|a: int, b: int| 0 <= a < b < o.len() ==> #[trigger] o[a].0@ != #[trigger] o[b].0@,
            forall|a: int| 0 <= a < o.len() ==> (#[trigger] o[a]).1 == occurrences(seen, o[a].0@),
            forall|a: int| 0 <= a < o.len() ==> (#[trigger] o[a]).1 > 0,
            forall|n: Seq<char>| occurrences(seen, n) > 0 ==> #[trigger] count_names(o).contains(n),
            seen.len() < i64::MAX,
        decreases o.len() - i,
    {
        if crate::text::chars_eq(&chars_of(tally[i].0.as_str()), t) {
            proof {
                lemma_occurrences_bound(seen, t@);
            }
            assert(o[i as int].0@ == t@);
            let (name, c) = tally.remove(i);
            tally.insert(i, (name, c + 1));
            proof {
                assert forall|x: Seq<char>| true implies occurrences(seen.push(t@), x) == occurrences(seen, x) + if t@ == x { 1int } else { 0int } by {
                    lemma_occ_push(seen, t@, x);
                }
                assert forall|a: int| 0 <= a < tally@.len() implies (#[trigger] tally@[a]).1 == occurrences(seen.push(t@), tally@[a].0@) by {
                    if a != i {
                        assert(tally@[a] == o[a]);
                        assert(o[a].0@ != o[i as int].0@);
                    }
                }
                assert forall|a: int| 0 <= a < tally@.len() implies (#[trigger] tally@[a]).1 > 0 by {
                    if a != i {
                        assert(tally@[a] == o[a]);
                    }
                }
                assert(tally@ =~= o.update(i as int, (o[i as int].0, (c + 1) as i64)));
                assert forall|a: int, b: int| 0 <= a < b < tally@.len() implies #[trigger] tally@[a].0@ != #[trigger] tally@[b].0@ by {
                    assert(tally@[a].0 == o[a].0 && tally@[b].0 == o[b].0);
                }
                assert forall|n: Seq<char>| occurrences(seen.push(t@), n) > 0 implies #[trigger] count_names(tally@).contains(n) by {
                    if n != t@ {
                        assert(count_names(o).contains(n));
                        let k = choose|k: int| 0 <= k < count_names(o).len() && count_names(o)[k] == n;
                        assert(count_names(tally@)[k] == n);
                    } else {
                        assert(count_names(tally@)[i as int] == n);
                    }
                }
            }
            return;
        }
        i = i + 1;
    }
    tally.push((string_of(t), 1));
    proof {
        lemma_occurrences_contains(seen, t@);
        lemma_occurrences_bound(seen, t@);
        assert forall|x: Seq<char>| true implies occurrences(seen.push(t@), x) == occurrences(seen, x) + if t@ == x { 1int } else { 0int } by {
            lemma_occ_push(seen, t@, x);
        }
        assert forall|a: int, b: int| 0 <= a < b < tally@.len() implies #[trigger] tally@[a].0@ != #[trigger] tally@[b].0@ by {
            if b == o.len() {
                assert(tally@[a] == o[a]);
            } else {
                assert(tally@[a] == o[a] && tally@[b] == o[b]);
            }
        }
        assert forall|a: int| 0 <= a < tally@.len() implies (#[trigger] tally@[a]).1 == occurrences(seen.push(t@), tally@[a].0@) by {
            if a < o.len() {
                assert(tally@[a] == o[a]);
            } else {
                if occurrences(seen, t@) > 0 {
                    assert(count_names(o).contains(t@));
                    let k = choose|k: int| 0 <= k < count_names(o).len() && count_names(o)[k] == t@;
                    assert(o[k].0@ == t@);
                }
                assert(occurrences(seen, t@) == 0);
                assert(tally@[a].0@ == t@);
            }
        }
        assert forall|n: Seq<char>| occurrences(seen.push(t@), n) > 0 implies #[trigger] count_names(tally@).contains(n) by {
            if n != t@ {
                assert(count_names(o).contains(n));
                let k = choose|k: int| 0 <= k < count_names(o).len() && count_names(o)[k] == n;
                assert(count_names(tally@)[k] == n);
            } else {
                assert(count_names(tally@)[o.len() as int] == n);
            }
        }
        assert forall|a: int| 0 <= a < tally@.len() implies (#[trigger] tally@[a]).1 > 0 by {
            if a < o.len() {
                assert(tally@[a] == o[a]);
            }
        }
    }
}

/// Tally every kept subject entry: each distinct entry once, with how many
/// times it occurs.
fn tally_subjects(rows: &Vec<String>) -> (tally: Vec<(String, i64)>)
    requires
        rows_size(rows@) <= i64::MAX,
    ensures
        forall|a: int, b: int| 0 <= a < b < tally@.len() ==> #[trigger] tally@[a].0@ != #[trigger] tally@[b].0@,
        forall|a: int| 0 <= a < tally@.len() ==> (#[trigger] tally@[a]).1 == subject_count(rows@, tally@[a].0@),
        forall|a: int| 0 <= a < tally@.len() ==> (#[trigger] tally@[a]).1 > 0,
        forall|n: Seq<char>| subject_count(rows@, n) > 0 ==> #[trigger] count_names(tally@).contains(n),
{
    let mut tally: Vec<(String, i64)> = Vec::new();
    let mut k: usize = 0;
    assert(rows@.take(0).len() == 0);
    while k < rows.len()
        invariant
            k <= rows@.len(),
            rows_size(rows@) <= i64::MAX,
            forall|a: int, b: int| 0 <= a < b < tally@.len() ==> #[trigger] tally@[a].0@ != #[trigger] tally@[b].0@,
            forall|a: int| 0 <= a < tally@.len() ==> (#[trigger] tally@[a]).1 == occurrences(all_subjects(rows@.take(k as int)), tally@[a].0@),
            forall|a: int| 0 <= a < tally@.len() ==> (#[trigger] tally@[a]).1 > 0,
            forall|n: Seq<char>| occurrences(all_subjects(rows@.take(k as int)), n) > 0 ==> #[trigger] count_names(tally@).contains(n),
        decreases rows@.len() - k,
    {
        let ghost before = all_subjects(rows@.take(k as int));
        let v = chars_of(rows[k].as_str());
        let segs = split_chars(&v, ';');
        let ghost ss = split_on(rows@[k as int]@, ';');
        proof {
            assert(rows@.take(k + 1).drop_last() == rows@.take(k as int));
            assert(rows@.take(k + 1).last() == rows@[k as int]);
            lemma_all_subjects_len(rows@.take(k as int));
            lemma_split_len(rows@[k as int]@, ';');
            lemma_rows_size_prefix(rows@, k + 1);
            assert(rows_size(rows@.take(k + 1)) == rows_size(rows@.take(k as int)) + rows@[k as int]@.len() + 1);
        }
        let mut j: usize = 0;
        assert(ss.take(0).len() == 0);
        assert(before + row_subjects(ss.take(0)) =~= before);
        while j < segs.len()
            invariant
                segs@.len() == ss.len(),
                forall|q: int| 0 <= q < ss.len() ==> #[trigger] segs@[q]@ == ss[q],
                j <= ss.len(),
                before.len() + ss.len() <= i64::MAX,
                row_subjects(ss.take(j as int)).len() <= j,
                forall|a: int, b: int| 0 <= a < b < tally@.len() ==> #[trigger] tally@[a].0@ != #[trigger] tally@[b].0@,
                forall|a: int| 0 <= a < tally@.len() ==> (#[trigger] tally@[a]).1 == occurrences(before + row_subjects(ss.take(j as int)), tally@[a].0@),
                forall|a: int| 0 <= a < tally@.len() ==> (#[trigger] tally@[a]).1 > 0,
                forall|n: Seq<char>| occurrences(before + row_subjects(ss.take(j as int)), n) > 0 ==> #[trigger] count_names(tally@).contains(n),
            decreases ss.len() - j,
        {
            let ghost seen = before + row_subjects(ss.take(j as int));
            assert(ss.take(j + 1).drop_last() == ss.take(j as int));
            assert(ss.take(j + 1).last() == ss[j as int]);
            let t = trim_chars(&segs[j]);
            if subject_kept(&t) {
                tally_add(&mut tally, &t, Ghost(seen));
                assert(seen.push(t@) =~= before + row_subjects(ss.take(j + 1)));
            } else {
                assert(seen =~= before + row_subjects(ss.take(j + 1)));
            }
            j = j + 1;
        }
        assert(ss.take(ss.len() as int) == ss);
        assert(all_subjects(rows@.take(k + 1)) == before + row_subjects(ss));
        k = k + 1;
    }
    assert(rows@.take(rows@.len() as int) == rows@);
    tally
}

/// The two orders the list goes through: ranking, then the dropdown's.
pub open spec fn subject_lt(by_name: bool, a: (Seq<char>, int), b: (Seq<char>, int)) -> bool {
    if by_name {
        listed_lt(a, b)
    } else {
        rank_lt(a, b)
    }
}

pub proof fn lemma_subject_lt_trans(by_name: bool, a: (Seq<char>, int), b: (Seq<char>, int), c: (Seq<char>, int))
    requires
        subject_lt(by_name, a, b),
        subject_lt(by_name, b, c),
    ensures
        subject_lt(by_name, a, c),
{
    if seq_lt(a.0, b.0) && seq_lt(b.0, c.0) {
        lemma_seq_lt_trans(a.0, b.0, c.0);
    }
    if seq_lt(lowercase(a.0), lowercase(b.0)) && seq_lt(lowercase(b.0), lowercase(c.0)) {
        lemma_seq_lt_trans(lowercase(a.0), lowercase(b.0), lowercase(c.0));
    }
}

pub proof fn lemma_subject_lt_total(by_name: bool, a: (Seq<char>, int), b: (Seq<char>, int))
    requires
        a.0 != b.0,
    ensures
        subject_lt(by_name, a, b) || subject_lt(by_name, b, a),
{
    lemma_seq_lt_total(a.0, b.0);
    if lowercase(a.0) != lowercase(b.0) {
        lemma_seq_lt_total(lowercase(a.0), lowercase(b.0));
    }
}

pub proof fn lemma_subject_lt_irrefl(by_name: bool, a: (Seq<char>, int))
    ensures
        !subject_lt(by_name, a, a),
{
    lemma_seq_lt_irrefl(a.0);
    lemma_seq_lt_irrefl(lowercase(a.0));
}

fn subject_before(by_name: bool, a: &(String, i64), b: &(String, i64)) -> (r: bool)
    ensures
        r == subject_lt(by_name, (a.0@, a.1 as int), (b.0@, b.1 as int)),
{
    if by_name {
        let la = to_lowercase(a.0.as_str());
        let lb = to_lowercase(b.0.as_str());
        let x = chars_of(la.as_str());
        let y = chars_of(lb.as_str());
        if chars_lt(&x, &y) {
            return true;
        }
        if !crate::text::chars_eq(&x, &y) {
            proof {
                lemma_seq_lt_total(x@, y@);
            }
            return false;
        }
    }
    if a.1 != b.1 {
        return a.1 > b.1;
    }
    let x = chars_of(a.0.as_str());
    let y = chars_of(b.0.as_str());
    chars_lt(&x, &y)
}

pub open spec fn subjects_sorted(by_name: bool, v: Seq<(Seq<char>, int)>) -> bool {
    forall|i: int, j: int| 0 <= i < j < v.len() ==> subject_lt(by_name, #[trigger] v[i], #[trigger] v[j])
}

fn insert_subject(by_name: bool, out: &mut Vec<(String, i64)>, x: (String, i64))
    requires
        subjects_sorted(by_name, counts_view(old(out)@)),
        !count_names(old(out)@).contains(x.0@),
    ensures
        subjects_sorted(by_name, counts_view(final(out)@)),
        exists|p: int| 0 <= p <= old(out)@.len() && final(out)@ == old(out)@.insert(p, x),
{
    let ghost o = out@;
    let ghost ov = counts_view(o);
    let ghost xv = (x.0@, x.1 as int);
    let mut p: usize = 0;
    while p < out.len() && subject_before(by_name, &out[p], &x)
        invariant
            o == out@,
            ov == counts_view(o),
            xv == (x.0@, x.1 as int),
            p <= o.len(),
            forall|q: int| 0 <= q < p ==> subject_lt(by_name, #[trigger] ov[q], xv),
        decreases o.len() - p,
    {
        p = p + 1;
    }
    proof {
        if p < o.len() {
            assert(count_names(o)[p as int] == o[p as int].0@);
            assert(ov[p as int] == (o[p as int].0@, o[p as int].1 as int));
            lemma_subject_lt_total(by_name, ov[p as int], xv);
            assert forall|q: int| p <= q < ov.len() implies subject_lt(by_name, xv, #[trigger] ov[q]) by {
                if q > p {
                    assert(subject_lt(by_name, ov[p as int], ov[q]));
                    lemma_subject_lt_trans(by_name, xv, ov[p as int], ov[q]);
                }
            }
        }
    }
    out.insert(p, x);
    proof {
        let t = counts_view(out@);
        assert(t =~= ov.insert(p as int, xv));
        assert forall|i: int, j: int| 0 <= i < j < t.len() implies subject_lt(by_name, #[trigger] t[i], #[trigger] t[j]) by {
            if i < p && j > p {
                lemma_subject_lt_trans(by_name, ov[i], xv, ov[j - 1]);
            } else if i < p && j < p {
                assert(t[i] == ov[i] && t[j] == ov[j]);
            } else if i > p {
                assert(t[i] == ov[i - 1] && t[j] == ov[j - 1]);
            } else if i == p {
                assert(t[j] == ov[j - 1]);
            } else {
                assert(t[i] == ov[i]);
            }
        }
    }
}

/// The subject filter's dropdown: every kept subject entry with how many times it
/// occurs, the 120 most used (more uses first, then by name), listed by
/// lowercased name (ties in ranking order).
pub fn subject_counts(rows: &Vec<String>) -> (r: Vec<(String, i64)>)
    requires
        rows_size(rows@) <= i64::MAX,
    ensures
        subjects_sorted(true, counts_view(r@)),
        r@.len() <= 120,
        forall|i: int| 0 <= i < r@.len() ==> (#[trigger] r@[i]).1 == subject_count(rows@, r@[i].0@) && r@[i].1 > 0,
        forall|n: Seq<char>| #![trigger subject_count(rows@, n)]
            subject_count(rows@, n) > 0 && !count_names(r@).contains(n) ==> r@.len() == 120 && forall|i: int|
                0 <= i < r@.len() ==> rank_lt(#[trigger] counts_view(r@)[i], (n, subject_count(rows@, n))),
{
    let tally = tally_subjects(rows);
    let ghost tv = tally@;
    proof {
        assert forall|a: int| 0 <= a < tv.len() implies (#[trigger] tv[a]).1 > 0 by {}
    }
    // rank them
    let mut tally = tally;
    let n = tally.len();
    let mut ranked: Vec<(String, i64)> = Vec::new();
    let mut i: usize = 0;
    while i < n
        invariant
            n == tv.len(),
            i <= n,
            tally@ == tv.skip(i as int),
            subjects_sorted(false, counts_view(ranked@)),
            forall|x: (String, i64)| #[trigger] ranked@.contains(x) <==> tv.take(i as int).contains(x),
            ranked@.len() == i,
            forall|a: int, b: int| 0 <= a < b < tv.len() ==> #[trigger] tv[a].0@ != #[trigger] tv[b].0@,
        decreases n - i,
    {
        let e = tally.remove(0);
        assert(e == tv[i as int]);
        assert(tally@ =~= tv.skip(i + 1));
        let ghost before = ranked@;
        proof {
            if count_names(before).contains(e.0@) {
                let k = choose|k: int| 0 <= k < count_names(before).len() && count_names(before)[k] == e.0@;
                assert(before.contains(before[k]));
                assert(tv.take(i as int).contains(before[k]));
                let m = choose|m: int| 0 <= m < i && tv.take(i as int)[m] == before[k];
                assert(tv[m].0@ == tv[i as int].0@);
            }
        }
        insert_subject(false, &mut ranked, e);
        proof {
            let p = choose|p: int| 0 <= p <= before.len() && ranked@ == before.insert(p, e);
            let t0 = tv.take(i as int);
            let t1 = tv.take(i + 1);
            assert(t1 =~= t0.push(e));
            assert forall|x: (String, i64)| #[trigger] ranked@.contains(x) <==> t1.contains(x) by {
                if ranked@.contains(x) {
                    let k = choose|k: int| 0 <= k < ranked@.len() && ranked@[k] == x;
                    if k < p {
                        assert(before[k] == x);
                        assert(before.contains(x));
                        let m = choose|m: int| 0 <= m < t0.len() && t0[m] == x;
                        assert(t1[m] == x);
                    } else if k > p {
                        assert(before[k - 1] == x);
                        assert(before.contains(x));
                        let m = choose|m: int| 0 <= m < t0.len() && t0[m] == x;
                        assert(t1[m] == x);
                    } else {
                        assert(t1[i as int] == x);
                    }
                }
                if t1.contains(x) {
                    let m = choose|m: int| 0 <= m < t1.len() && t1[m] == x;
                    if m < i {
                        assert(t0[m] == x);
                        assert(before.contains(x));
                        let k = choose|k: int| 0 <= k < before.len() && before[k] == x;
                        if k < p {
                            assert(ranked@[k] == x);
                        } else {
                            assert(ranked@[k + 1] == x);
                        }
                    } else {
                        assert(ranked@[p] == x);
                    }
                }
            }
        }
        i = i + 1;
    }
    assert(tv.take(n as int) == tv);
    let ghost rv = ranked@;
    assert(forall|x: (String, i64)| #[trigger] rv.contains(x) <==> tv.contains(x));
    // keep the top 120
    let keep: usize = if ranked.len() > 120 { 120 } else { ranked.len() };
    let mut top: Vec<(String, i64)> = Vec::new();
    let mut k: usize = 0;
    while k < keep
        invariant
            keep <= rv.len(),
            rv == ranked@,
            k <= keep,
            top@ == rv.take(k as int),
        decreases keep - k,
    {
        top.push((ranked[k].0.clone(), ranked[k].1));
        assert(rv.take(k + 1) == rv.take(k as int).push(rv[k as int]));
        k = k + 1;
    }
    let ghost topv = top@;
    // list them by name
    let mut listed: Vec<(String, i64)> = Vec::new();
    let mut top = top;
    let mut q: usize = 0;
    while q < keep
        invariant
            keep == topv.len(),
            keep <= rv.len(),
            q <= keep,
            top@ == topv.skip(q as int),
            topv == rv.take(keep as int),
            subjects_sorted(true, counts_view(listed@)),
            subjects_sorted(false, counts_view(rv)),
            forall|x: (String, i64)| #[trigger] rv.contains(x) <==> tv.contains(x),
            forall|a: int, b: int| 0 <= a < b < tv.len() ==> #[trigger] tv[a].0@ != #[trigger] tv[b].0@,
            forall|x: (String, i64)| #[trigger] listed@.contains(x) <==> topv.take(q as int).contains(x),
            listed@.len() == q,
        decreases keep - q,
    {
        let e = top.remove(0);
        assert(e == topv[q as int]);
        assert(top@ =~= topv.skip(q + 1));
        let ghost before = listed@;
        proof {
            if count_names(before).contains(e.0@) {
                let kk = choose|kk: int| 0 <= kk < count_names(before).len() && count_names(before)[kk] == e.0@;
                assert(before.contains(before[kk]));
                assert(topv.take(q as int).contains(before[kk]));
                let m = choose|m: int| 0 <= m < q && topv.take(q as int)[m] == before[kk];
                assert(topv[m] == rv[m] && topv[q as int] == rv[q as int]);
                assert(rv.contains(rv[m]) && rv.contains(rv[q as int]));
                let a = choose|a: int| 0 <= a < tv.len() && tv[a] == rv[m];
                let b = choose|b: int| 0 <= b < tv.len() && tv[b] == rv[q as int];
                assert(tv[a].0@ == tv[b].0@);
                assert(a == b);
                assert(subject_lt(false, counts_view(rv)[m], counts_view(rv)[q as int]));
                lemma_subject_lt_irrefl(false, counts_view(rv)[m]);
            }
        }
        insert_subject(true, &mut listed, e);
        proof {
            let p = choose|p: int| 0 <= p <= before.len() && listed@ == before.insert(p, e);
            let t0 = topv.take(q as int);
            let t1 = topv.take(q + 1);
            assert(t1 =~= t0.push(e));
            assert forall|x: (String, i64)| #[trigger] listed@.contains(x) <==> t1.contains(x) by {
                if listed@.contains(x) {
                    let kk = choose|kk: int| 0 <= kk < listed@.len() && listed@[kk] == x;
                    if kk != p {
                        let k2 = if kk < p { kk } else { kk - 1 };
                        assert(before[k2] == x);
                        assert(before.contains(x));
                        let m = choose|m: int| 0 <= m < t0.len() && t0[m] == x;
                        assert(t1[m] == x);
                    } else {
                        assert(t1[q as int] == x);
                    }
                }
                if t1.contains(x) {
                    let m = choose|m: int| 0 <= m < t1.len() && t1[m] == x;
                    if m < q {
                        assert(t0[m] == x);
                        assert(before.contains(x));
                        let kk = choose|kk: int| 0 <= kk < before.len() && before[kk] == x;
                        if kk < p {
                            assert(listed@[kk] == x);
                        } else {
                            assert(listed@[kk + 1] == x);
                        }
                    } else {
                        assert(listed@[p] == x);
                    }
                }
            }
        }
        q = q + 1;
    }
    assert(topv.take(keep as int) == topv);
    proof {
        let lv = listed@;
        // every listed entry is a ranked one, so a tally entry
        assert forall|i: int| 0 <= i < lv.len() implies (#[trigger] lv[i]).1 == subject_count(rows@, lv[i].0@) && lv[i].1 > 0 by {
            assert(lv.contains(lv[i]));
            assert(topv.contains(lv[i]));
            let m = choose|m: int| 0 <= m < topv.len() && topv[m] == lv[i];
            assert(rv[m] == lv[i]);
            assert(rv.contains(lv[i]));
            assert(tv.take(n as int).contains(lv[i]));
            let a = choose|a: int| 0 <= a < tv.take(n as int).len() && tv.take(n as int)[a] == lv[i];
            assert(tv[a] == lv[i]);
        }
        assert forall|nm: Seq<char>| #![trigger subject_count(rows@, nm)]
            subject_count(rows@, nm) > 0 && !count_names(lv).contains(nm) implies lv.len() == 120 && forall|i: int|
                0 <= i < lv.len() ==> rank_lt(#[trigger] counts_view(lv)[i], (nm, subject_count(rows@, nm))) by {
            assert(count_names(tv).contains(nm));
            let a = choose|a: int| 0 <= a < count_names(tv).len() && count_names(tv)[a] == nm;
            let x = tv[a];
            assert(tv.take(n as int).contains(x));
            assert(rv.contains(x));
            let m = choose|m: int| 0 <= m < rv.len() && rv[m] == x;
            if m < keep {
                assert(topv[m] == x);
                assert(topv.contains(x));
                assert(lv.contains(x));
                let kk = choose|kk: int| 0 <= kk < lv.len() && lv[kk] == x;
                assert(count_names(lv)[kk] == nm);
            }
            assert(m >= keep);
            assert(keep == 120);
            assert forall|i: int| 0 <= i < lv.len() implies rank_lt(#[trigger] counts_view(lv)[i], (nm, subject_count(rows@, nm))) by {
                assert(lv.contains(lv[i]));
                assert(topv.contains(lv[i]));
                let mi = choose|mi: int| 0 <= mi < topv.len() && topv[mi] == lv[i];
                assert(rv[mi] == lv[i]);
                assert(subject_lt(false, counts_view(rv)[mi], counts_view(rv)[m]));
                assert(counts_view(rv)[m] == (nm, x.1 as int));
                assert(x.1 == subject_count(rows@, nm));
            }
        }
    }
    listed
}

/// What the grab's watcher does with the job's latest snapshot.
#[derive(Clone, Copy, Debug, PartialEq, Eq, Structural)]
pub enum WatchStep {
    /// Still queued or running: poll again.
    Wait,
    /// Ended with this status.
    Ended(JobStatus),
    /// Gone from the registry.
    Reaped,
}

pub fn watch_step(snapshot: Option<JobStatus>) -> (w: WatchStep)
    ensures
        w == match snapshot {
            Some(s) => if s == JobStatus::Queued || s == JobStatus::Running {
                WatchStep::Wait
            } else {
                WatchStep::Ended(s)
            },
            None => WatchStep::Reaped,
        },
{
    match snapshot {
        Some(JobStatus::Queued) | Some(JobStatus::Running) => WatchStep::Wait,
        Some(s) => WatchStep::Ended(s),
        None => WatchStep::Reaped,
    }
}

/// After the grab ends, the books it imported get scored, unless the user
/// cancelled it (a cancelled grab means stop).
pub fn scores_after(ended: WatchStep) -> (b: bool)
    ensures
        b == (ended != WatchStep::Ended(JobStatus::Cancelled)),
{
    match ended {
        WatchStep::Ended(JobStatus::Cancelled) => false,
        _ => true,
    }
}

/// Sorting key for the books to score: by book id, then slug.
pub struct BookKey {
    pub id: i64,
    pub slug: String,
}

impl SortKey for BookKey {
    open spec fn key_le(self, other: Self) -> bool {
        self.id < other.id || (self.id == other.id && !seq_lt(other.slug@, self.slug@))
    }

    proof fn lemma_key_total(a: Self, b: Self) {
        lemma_seq_le_total(a.slug@, b.slug@);
    }

    proof fn lemma_key_trans(a: Self, b: Self, c: Self) {
        if a.id == b.id && b.id == c.id {
            lemma_seq_le_trans(a.slug@, b.slug@, c.slug@);
        }
    }

    fn le(&self, other: &Self) -> (r: bool) {
        if self.id != other.id {
            return self.id < other.id;
        }
        let a = chars_of(self.slug.as_str());
        let b = chars_of(other.slug.as_str());
        !chars_lt(&b, &a)
    }
}

pub open spec fn book_key(b: (i64, String)) -> BookKey {
    BookKey { id: b.0, slug: b.1 }
}

/// The imported books (after the grab) whose (source, id) was not imported
/// before it.
pub open spec fn newly_imported(before: Seq<(String, String)>, after: Seq<((String, String), (i64, String))>) -> Seq<(i64, String)> {
    after.filter(|a: ((String, String), (i64, String))| !pair_views(before).contains(pair_view(a.0))).map_values(
        |a: ((String, String), (i64, String))| a.1,
    )
}

/// The books a grab created, in the order they were imported (by book id), so
/// each gets its own scoring job.
pub fn fresh_books(before: &Vec<(String, String)>, after: Vec<((String, String), (i64, String))>) -> (r: Vec<(i64, String)>)
    ensures
        r@ == sorted_by_key(newly_imported(before@, after@).map_values(|b: (i64, String)| (book_key(b), b))).map_values(
            |p: (BookKey, (i64, String))| p.1,
        ),
{
    let ghost orig = after@;
    let ghost keep = |a: ((String, String), (i64, String))| !pair_views(before@).contains(pair_view(a.0));
    let ghost mk = |b: (i64, String)| (book_key(b), b);
    let mut after = after;
    let n = after.len();
    let mut keyed: Vec<(BookKey, (i64, String))> = Vec::new();
    let mut i: usize = 0;
    assert(orig.take(0).filter(keep) =~= Seq::<((String, String), (i64, String))>::empty());
    while i < n
        invariant
            n == orig.len(),
            i <= n,
            after@ == orig.skip(i as int),
            keep == (|a: ((String, String), (i64, String))| !pair_views(before@).contains(pair_view(a.0))),
            mk == (|b: (i64, String)| (book_key(b), b)),
            keyed@ == orig.take(i as int).filter(keep).map_values(|a: ((String, String), (i64, String))| a.1).map_values(mk),
        decreases n - i,
    {
        let e = after.remove(0);
        assert(e == orig[i as int]);
        assert(after@ =~= orig.skip(i + 1));
        let ghost before_k = keyed@;
        proof {
            assert(orig.take(i + 1) == orig.take(i as int).push(e));
            orig.take(i as int).lemma_filter_push(e, keep);
        }
        if !listed_pair(before, &e.0) {
            let (_, v) = e;
            let key = BookKey { id: v.0, slug: v.1.clone() };
            keyed.push((key, v));
            assert(keyed@ =~= before_k.push(mk(e.1)));
        }
        i = i + 1;
    }
    assert(orig.take(n as int) == orig);
    let sorted = sort_by_key(keyed);
    let ghost ss = sorted@;
    let mut sorted = sorted;
    let total = sorted.len();
    let mut out: Vec<(i64, String)> = Vec::new();
    let mut k: usize = 0;
    while k < total
        invariant
            total == ss.len(),
            k <= total,
            sorted@ == ss.skip(k as int),
            out@ == ss.take(k as int).map_values(|p: (BookKey, (i64, String))| p.1),
        decreases total - k,
    {
        let e = sorted.remove(0);
        assert(e == ss[k as int]);
        assert(sorted@ =~= ss.skip(k + 1));
        out.push(e.1);
        assert(ss.take(k + 1) == ss.take(k as int).push(ss[k as int]));
        assert(out@ =~= ss.take(k + 1).map_values(|p: (BookKey, (i64, String))| p.1));
        k = k + 1;
    }
    assert(ss.take(total as int) == ss);
    out
}

fn listed_pair(v: &Vec<(String, String)>, x: &(String, String)) -> (b: bool)
    ensures
        b == pair_views(v@).contains(pair_view(*x)),
{
    let ghost pv = pair_views(v@);
    let mut i: usize = 0;
    while i < v.len()
        invariant
            pv == pair_views(v@),
            i <= v@.len(),
            forall|k: int| 0 <= k < i ==> #[trigger] pv[k] != pair_view(*x),
        decreases v@.len() - i,
    {
        if str_eq(v[i].0.as_str(), x.0.as_str()) && str_eq(v[i].1.as_str(), x.1.as_str()) {
            assert(pv[i as int] == pair_view(*x));
            return true;
        }
        i = i + 1;
    }
    false
}

/// One catalog's line on the catalog page: never synced, or its book and import
/// counts and, when known, how long ago it was synced.
pub open spec fn source_line_of(s: CatalogSourceStatus) -> Seq<char> {
    if s.rows == 0 {
        s.label@ + ": never synced"@
    } else {
        let counts = s.label@ + ": "@ + grouped(s.rows as int) + " books · "@ + grouped(s.imported as int)
            + " imported"@;
        if s.synced@.len() == 0 {
            counts
        } else {
            counts + " · synced "@ + s.synced@
        }
    }
}

pub fn source_line(s: &CatalogSourceStatus) -> (r: String)
    ensures
        r@ == source_line_of(*s),
{
    let mut r = s.label.clone();
    if s.rows == 0 {
        push_str(&mut r, ": never synced");
        return r;
    }
    push_str(&mut r, ": ");
    let rows = commas(s.rows);
    push_str(&mut r, rows.as_str());
    push_str(&mut r, " books · ");
    let imported = commas(s.imported);
    push_str(&mut r, imported.as_str());
    push_str(&mut r, " imported");
    if chars_of(s.synced.as_str()).len() > 0 {
        push_str(&mut r, " · synced ");
        push_str(&mut r, s.synced.as_str());
    }
    r
}

/// "result" or "results" for a count.
pub open spec fn results_word(total: i64) -> Seq<char> {
    if total == 1 {
        " result"@
    } else {
        " results"@
    }
}

/// The count line above the results: how many match, and how many are picked.
pub open spec fn results_line_of(selected: usize, total: i64) -> Seq<char> {
    if selected == 0 {
        grouped(total as int) + results_word(total)
    } else {
        dec(selected as nat) + " selected · "@ + grouped(total as int) + results_word(total)
    }
}

pub fn results_line(selected: usize, total: i64) -> (r: String)
    ensures
        r@ == results_line_of(selected, total),
{
    let mut r = String::new();
    if selected > 0 {
        let d = decimal(selected as u64);
        push_chars(&mut r, &d);
        push_str(&mut r, " selected · ");
    }
    let t = commas(total);
    push_str(&mut r, t.as_str());
    if total == 1 {
        push_str(&mut r, " result");
    } else {
        push_str(&mut r, " results");
    }
    r
}

/// The notice after a grab was queued.
pub fn grab_notice(n: usize) -> (r: String)
    ensures
        r@ == "queued "@ + dec(n as nat) + (if n == 1 { " book"@ } else { " books"@ })
            + " — they'll appear in your library as they land, then each is scored in turn."@,
{
    let mut r = "queued ".to_owned();
    let d = decimal(n as u64);
    push_chars(&mut r, &d);
    if n == 1 {
        push_str(&mut r, " book");
    } else {
        push_str(&mut r, " books");
    }
    push_str(&mut r, " — they'll appear in your library as they land, then each is scored in turn.");
    r
}

} // verus!
