//! The cross-book Collection page: one entry per tagged word, gathered from every
//! applied collection-tag row (each with the books it reaches), with the word's
//! distinct tags, the books it reaches, its effective interest (a tag also lends
//! the interest of its existing ancestors; interesting beats uninteresting beats
//! neutral) and, for the "top all-books favourites" view, the net of its
//! word-scoped favourite and negative tags.

use vstd::prelude::*;
use crate::sorting::{SortKey, lemma_sorted_len, sort_by_key, sorted_by_key};
use crate::tags::{ancestor_names, ancestors};
use crate::text::{lemma_seq_le_total, lemma_seq_le_trans, chars_lt, chars_of, lemma_seq_lt_irrefl, lemma_seq_lt_total, lemma_seq_lt_trans, seq_lt, str_eq};

verus! {

/// One applied collection-tag row: the word (with its dictionary id and gloss), the
/// tag and its interest, whether it is word-scoped (global), and the books it
/// reaches.
pub struct Application {
    pub word: String,
    pub word_id: i64,
    pub gloss: Option<String>,
    pub tag: String,
    pub interest: String,
    pub global: bool,
    pub books: Vec<(i64, String)>,
}

/// One tagged word on the Collection page.
pub struct CollectionEntry {
    pub word: String,
    pub word_id: i64,
    pub gloss: Option<String>,
    /// "interesting" | "neutral" | "uninteresting".
    pub interest: String,
    /// Applied collection tags: (name, interest).
    pub tags: Vec<(String, String)>,
    /// Books this word reaches: (book id, title).
    pub books: Vec<(i64, String)>,
    /// The net of favourite minus negative all-books tags, in the ranked view.
    pub metric: Option<i64>,
}

pub open spec fn pair_names(t: Seq<(Seq<char>, Seq<char>)>) -> Seq<Seq<char>> {
    t.map_values(|p: (Seq<char>, Seq<char>)| p.0)
}

pub open spec fn book_ids(b: Seq<(i64, Seq<char>)>) -> Seq<i64> {
    b.map_values(|p: (i64, Seq<char>)| p.0)
}

pub open spec fn books_view(b: Seq<(i64, String)>) -> Seq<(i64, Seq<char>)> {
    b.map_values(|p: (i64, String)| (p.0, p.1@))
}

pub open spec fn strs_view(t: Seq<(String, String)>) -> Seq<(Seq<char>, Seq<char>)> {
    t.map_values(|p: (String, String)| (p.0@, p.1@))
}

/// Some tag in `ts` is of interest `level` itself, or has an ancestor whose stored
/// interest is `level`.
pub open spec fn some_tag_has(tint: Seq<(String, String)>, ts: Seq<(Seq<char>, Seq<char>)>, level: Seq<char>) -> bool {
    exists|k: int, j: int|
        0 <= k < ts.len() && (#[trigger] ts[k].1 == level || (0 <= j < ancestors(ts[k].0).len() && tint_of(
            tint,
            #[trigger] ancestors(ts[k].0)[j],
        ) == Some(level)))
}

/// An entry's interest follows from its tags: "interesting" exactly when some tag
/// (or an ancestor of one) is interesting, whatever else is there;
/// "uninteresting" exactly when none is interesting and some is uninteresting;
/// "neutral" otherwise.
pub open spec fn interest_follows(tint: Seq<(String, String)>, e: CollectionEntry) -> bool {
    let ts = strs_view(e.tags@);
    &&& (e.interest@ == "interesting"@) == some_tag_has(tint, ts, "interesting"@)
    &&& (e.interest@ == "uninteresting"@) == (!some_tag_has(tint, ts, "interesting"@) && some_tag_has(
        tint,
        ts,
        "uninteresting"@,
    ))
    &&& (e.interest@ == "neutral"@) == (!some_tag_has(tint, ts, "interesting"@) && !some_tag_has(
        tint,
        ts,
        "uninteresting"@,
    ))
}

/// The Collection page's order: in the ranked view, the larger net first; else
/// interesting words, then neutral ones, then the rest; ties by word.
pub open spec fn page_before(special: bool, a: CollectionEntry, b: CollectionEntry) -> bool {
    if special {
        let ma: int = match a.metric {
            Some(m) => m as int,
            None => 0,
        };
        let mb: int = match b.metric {
            Some(m) => m as int,
            None => 0,
        };
        ma > mb || (ma == mb && seq_lt(a.word@, b.word@))
    } else {
        let ra: int = if a.interest@ == "interesting"@ { 0 } else if a.interest@ == "neutral"@ { 1 } else { 2 };
        let rb: int = if b.interest@ == "interesting"@ { 0 } else if b.interest@ == "neutral"@ { 1 } else { 2 };
        ra < rb || (ra == rb && seq_lt(a.word@, b.word@))
    }
}

/// The distinct words, in first-seen order.
pub open spec fn words_seen(rows: Seq<Application>) -> Seq<Seq<char>>
    decreases rows.len(),
{
    if rows.len() == 0 {
        Seq::empty()
    } else {
        let w = words_seen(rows.drop_last());
        if w.contains(rows.last().word@) {
            w
        } else {
            w.push(rows.last().word@)
        }
    }
}

/// The first row for word `w`.
pub open spec fn first_of(rows: Seq<Application>, w: Seq<char>) -> Application
    decreases rows.len(),
{
    if rows.len() == 0 {
        arbitrary()
    } else if words_seen(rows.drop_last()).contains(w) {
        first_of(rows.drop_last(), w)
    } else {
        rows.last()
    }
}

/// The word's distinct tags with the interest first seen, in first-seen order
/// (only word-scoped rows when `global_only`).
pub open spec fn tags_for(rows: Seq<Application>, w: Seq<char>, global_only: bool) -> Seq<(Seq<char>, Seq<char>)>
    decreases rows.len(),
{
    if rows.len() == 0 {
        Seq::empty()
    } else {
        let t = tags_for(rows.drop_last(), w, global_only);
        let l = rows.last();
        if l.word@ == w && (l.global || !global_only) && !pair_names(t).contains(l.tag@) {
            t.push((l.tag@, l.interest@))
        } else {
            t
        }
    }
}

/// `bs` with each of `new` added unless its book id is already there.
pub open spec fn add_books(bs: Seq<(i64, Seq<char>)>, new: Seq<(i64, Seq<char>)>) -> Seq<(i64, Seq<char>)>
    decreases new.len(),
{
    if new.len() == 0 {
        bs
    } else {
        let b = add_books(bs, new.drop_last());
        if book_ids(b).contains(new.last().0) {
            b
        } else {
            b.push(new.last())
        }
    }
}

/// The books the word reaches, deduplicated by id, in first-seen order.
pub open spec fn books_for(rows: Seq<Application>, w: Seq<char>) -> Seq<(i64, Seq<char>)>
    decreases rows.len(),
{
    if rows.len() == 0 {
        Seq::empty()
    } else {
        let b = books_for(rows.drop_last(), w);
        if rows.last().word@ == w {
            add_books(b, books_view(rows.last().books@))
        } else {
            b
        }
    }
}

/// The stored interest of a tag name (a later row wins).
pub open spec fn tint_of(tint: Seq<(String, String)>, name: Seq<char>) -> Option<Seq<char>>
    decreases tint.len(),
{
    if tint.len() == 0 {
        None
    } else if tint.last().0@ == name {
        Some(tint.last().1@)
    } else {
        tint_of(tint.drop_last(), name)
    }
}

/// The tag, or an existing ancestor of it, has interest `level`.
pub open spec fn tag_lends(tint: Seq<(String, String)>, t: (Seq<char>, Seq<char>), level: Seq<char>) -> bool {
    t.1 == level || exists|j: int| 0 <= j < ancestors(t.0).len() && tint_of(tint, #[trigger] ancestors(t.0)[j]) == Some(level)
}

/// Some tag of `tags`, or an existing ancestor of one, has interest `level`.
pub open spec fn lends_level(tint: Seq<(String, String)>, tags: Seq<(Seq<char>, Seq<char>)>, level: Seq<char>) -> bool {
    exists|k: int| 0 <= k < tags.len() && tag_lends(tint, #[trigger] tags[k], level)
}

/// The effective interest: interesting beats uninteresting beats neutral.
pub open spec fn effective(tint: Seq<(String, String)>, tags: Seq<(Seq<char>, Seq<char>)>) -> Seq<char> {
    if lends_level(tint, tags, "interesting"@) {
        "interesting"@
    } else if lends_level(tint, tags, "uninteresting"@) {
        "uninteresting"@
    } else {
        "neutral"@
    }
}

/// How many of the tags have interest `level`.
pub open spec fn count_level(tags: Seq<(Seq<char>, Seq<char>)>, level: Seq<char>) -> int
    decreases tags.len(),
{
    if tags.len() == 0 {
        0
    } else {
        count_level(tags.drop_last(), level) + if tags.last().1 == level { 1int } else { 0int }
    }
}

/// Favourite minus negative word-scoped tags.
pub open spec fn net_of(rows: Seq<Application>, w: Seq<char>) -> int {
    let g = tags_for(rows, w, true);
    count_level(g, "interesting"@) - count_level(g, "uninteresting"@)
}

/// Display rank of an interest word: interesting, neutral, anything else.
pub open spec fn level_rank(i: Seq<char>) -> int {
    if i == "interesting"@ {
        0
    } else if i == "neutral"@ {
        1
    } else {
        2
    }
}

/// Tag chips: by interest, then by name.
pub open spec fn tag_before(a: (Seq<char>, Seq<char>), b: (Seq<char>, Seq<char>)) -> bool {
    level_rank(a.1) < level_rank(b.1) || (level_rank(a.1) == level_rank(b.1) && seq_lt(a.0, b.0))
}

pub open spec fn tags_sorted(t: Seq<(Seq<char>, Seq<char>)>) -> bool {
    forall|i: int, j: int| 0 <= i < j < t.len() ==> tag_before(#[trigger] t[i], #[trigger] t[j])
}

/// Entries: by metric (largest first) in the ranked view, else by interest; then
/// by word.
pub open spec fn entry_before(special: bool, a: CollectionEntry, b: CollectionEntry) -> bool {
    if special {
        let ma: int = match a.metric {
            Some(m) => m as int,
            None => 0,
        };
        let mb: int = match b.metric {
            Some(m) => m as int,
            None => 0,
        };
        ma > mb || (ma == mb && seq_lt(a.word@, b.word@))
    } else {
        level_rank(a.interest@) < level_rank(b.interest@) || (level_rank(a.interest@) == level_rank(b.interest@)
            && seq_lt(a.word@, b.word@))
    }
}

/// The entry is the one for its word: word id and gloss from the word's first
/// row, its distinct tags in chip order, its books, its effective interest, and
/// (ranked view) its net.
pub open spec fn entry_for(rows: Seq<Application>, tint: Seq<(String, String)>, special: bool, e: CollectionEntry) -> bool {
    let w = e.word@;
    &&& words_seen(rows).contains(w)
    &&& e.word_id == first_of(rows, w).word_id
    &&& e.gloss == first_of(rows, w).gloss
    &&& tags_sorted(strs_view(e.tags@))
    &&& forall|p: (Seq<char>, Seq<char>)| #[trigger] strs_view(e.tags@).contains(p) <==> tags_for(rows, w, false).contains(p)
    &&& books_view(e.books@) == books_for(rows, w)
    &&& e.interest@ == effective(tint, tags_for(rows, w, false))
    &&& e.metric == if special {
        Some(net_of(rows, w) as i64)
    } else {
        None
    }
    &&& (special ==> net_of(rows, w) > 0)
}

proof fn lemma_unseen_empty(rows: Seq<Application>, w: Seq<char>, g: bool)
    requires
        !words_seen(rows).contains(w),
    ensures
        tags_for(rows, w, g) == Seq::<(Seq<char>, Seq<char>)>::empty(),
        books_for(rows, w) == Seq::<(i64, Seq<char>)>::empty(),
    decreases rows.len(),
{
    if rows.len() > 0 {
        let init = rows.drop_last();
        let ws = words_seen(init);
        if ws.contains(w) {
            let k = choose|k: int| 0 <= k < ws.len() && ws[k] == w;
            if !ws.contains(rows.last().word@) {
                assert(ws.push(rows.last().word@)[k] == w);
            }
        }
        if !ws.contains(rows.last().word@) {
            assert(rows.last().word@ != w) by {
                if rows.last().word@ == w {
                    assert(ws.push(w)[ws.len() as int] == w);
                }
            }
        }
        lemma_unseen_empty(init, w, g);
    }
}

proof fn lemma_words_distinct(rows: Seq<Application>)
    ensures
        forall|i: int, j: int| 0 <= i < j < words_seen(rows).len() ==> #[trigger] words_seen(rows)[i] != #[trigger] words_seen(rows)[j],
    decreases rows.len(),
{
    if rows.len() > 0 {
        let init = rows.drop_last();
        lemma_words_distinct(init);
        let ws = words_seen(init);
        if !ws.contains(rows.last().word@) {
            let t = ws.push(rows.last().word@);
            assert forall|i: int, j: int| 0 <= i < j < t.len() implies #[trigger] t[i] != #[trigger] t[j] by {
                if j == ws.len() {
                    assert(t[i] == ws[i]);
                } else {
                    assert(t[i] == ws[i] && t[j] == ws[j]);
                }
            }
        }
    }
}

/// A word being gathered: its id and gloss, its distinct tags, its books, and its
/// distinct word-scoped tags.
struct Acc {
    word: String,
    word_id: i64,
    gloss: Option<String>,
    tags: Vec<(String, String)>,
    books: Vec<(i64, String)>,
    globals: Vec<(String, String)>,
}

spec fn acc_ok(rows: Seq<Application>, a: Acc) -> bool {
    &&& words_seen(rows).contains(a.word@)
    &&& a.word_id == first_of(rows, a.word@).word_id
    &&& a.gloss == first_of(rows, a.word@).gloss
    &&& strs_view(a.tags@) == tags_for(rows, a.word@, false)
    &&& strs_view(a.globals@) == tags_for(rows, a.word@, true)
    &&& books_view(a.books@) == books_for(rows, a.word@)
}

spec fn acc_words(accs: Seq<Acc>) -> Seq<Seq<char>> {
    accs.map_values(|a: Acc| a.word@)
}

fn push_new_tag(v: &mut Vec<(String, String)>, name: &str, interest: &str)
    ensures
        strs_view(final(v)@) == if pair_names(strs_view(old(v)@)).contains(name@) {
            strs_view(old(v)@)
        } else {
            strs_view(old(v)@).push((name@, interest@))
        },
{
    let ghost o = strs_view(v@);
    let mut i: usize = 0;
    while i < v.len()
        invariant
            o == strs_view(v@),
            i <= v@.len(),
            forall|k: int| 0 <= k < i ==> #[trigger] pair_names(o)[k] != name@,
        decreases v@.len() - i,
    {
        if str_eq(v[i].0.as_str(), name) {
            proof {
                assert(pair_names(o)[i as int] == name@);
            }
            return;
        }
        i = i + 1;
    }
    v.push((name.to_owned(), interest.to_owned()));
    proof {
        assert(strs_view(v@) =~= o.push((name@, interest@)));
    }
}

fn push_new_books(v: &mut Vec<(i64, String)>, new: &Vec<(i64, String)>)
    ensures
        books_view(final(v)@) == add_books(books_view(old(v)@), books_view(new@)),
{
    let ghost o = books_view(v@);
    let ghost nv = books_view(new@);
    let mut m: usize = 0;
    assert(nv.take(0).len() == 0);
    while m < new.len()
        invariant
            nv == books_view(new@),
            m <= new@.len(),
            books_view(v@) == add_books(o, nv.take(m as int)),
        decreases new@.len() - m,
    {
        assert(nv.take(m + 1).drop_last() == nv.take(m as int));
        assert(nv.take(m + 1).last() == nv[m as int]);
        let ghost b = books_view(v@);
        let id = new[m].0;
        if !has_book(v, id) {
            v.push((id, new[m].1.clone()));
            proof {
                assert(books_view(v@) =~= b.push(nv[m as int]));
            }
        }
        m = m + 1;
    }
    assert(nv.take(new@.len() as int) == nv);
}

fn has_book(v: &Vec<(i64, String)>, id: i64) -> (b: bool)
    ensures
        b == book_ids(books_view(v@)).contains(id),
{
    let ghost ids = book_ids(books_view(v@));
    let mut i: usize = 0;
    while i < v.len()
        invariant
            ids == book_ids(books_view(v@)),
            i <= v@.len(),
            forall|k: int| 0 <= k < i ==> #[trigger] ids[k] != id,
        decreases v@.len() - i,
    {
        if v[i].0 == id {
            assert(ids[i as int] == id);
            return true;
        }
        i = i + 1;
    }
    false
}

fn find_acc(accs: &Vec<Acc>, word: &str) -> (r: Option<usize>)
    ensures
        r matches Some(j) ==> j < accs@.len() && accs@[j as int].word@ == word@,
        r is None ==> !acc_words(accs@).contains(word@),
{
    let mut i: usize = 0;
    while i < accs.len()
        invariant
            i <= accs@.len(),
            forall|k: int| 0 <= k < i ==> #[trigger] acc_words(accs@)[k] != word@,
        decreases accs@.len() - i,
    {
        if str_eq(accs[i].word.as_str(), word) {
            return Some(i);
        }
        i = i + 1;
    }
    None
}

fn accumulate(rows: &Vec<Application>) -> (accs: Vec<Acc>)
    ensures
        acc_words(accs@) == words_seen(rows@),
        forall|i: int| 0 <= i < accs@.len() ==> acc_ok(rows@, #[trigger] accs@[i]),
{
    let mut accs: Vec<Acc> = Vec::new();
    let mut k: usize = 0;
    assert(rows@.take(0).len() == 0);
    assert(acc_words(accs@) =~= words_seen(rows@.take(0)));
    while k < rows.len()
        invariant
            k <= rows@.len(),
            acc_words(accs@) == words_seen(rows@.take(k as int)),
            forall|i: int| 0 <= i < accs@.len() ==> acc_ok(rows@.take(k as int), #[trigger] accs@[i]),
        decreases rows@.len() - k,
    {
        let ghost pre = rows@.take(k as int);
        let ghost post = rows@.take(k + 1);
        assert(post.drop_last() == pre);
        assert(post.last() == rows@[k as int]);
        let r = &rows[k];
        let ghost w = r.word@;
        let ghost before = accs@;
        match find_acc(&accs, r.word.as_str()) {
            Some(j) => {
                assert(acc_words(before)[j as int] == w);
                assert(words_seen(pre).contains(w));
                let mut a = accs.remove(j);
                push_new_tag(&mut a.tags, r.tag.as_str(), r.interest.as_str());
                if r.global {
                    push_new_tag(&mut a.globals, r.tag.as_str(), r.interest.as_str());
                }
                push_new_books(&mut a.books, &r.books);
                let ghost na = a;
                accs.insert(j, a);
                proof {
                    assert(words_seen(post) == words_seen(pre));
                    assert(acc_words(accs@) =~= acc_words(before));
                    assert(before[j as int].word@ == w);
                    assert(acc_ok(pre, before[j as int]));
                    assert(first_of(post, w) == first_of(pre, w));
                    assert(accs@[j as int] == na);
                    assert(acc_ok(post, na));
                    assert(accs@ =~= before.update(j as int, na));
                    lemma_words_distinct(pre);
                    assert forall|i: int| 0 <= i < accs@.len() implies acc_ok(post, #[trigger] accs@[i]) by {
                        if i != j {
                            assert(accs@[i] == before[i]);
                            assert(acc_words(before)[i] != acc_words(before)[j as int]);
                            assert(acc_ok(pre, before[i]));
                            assert(acc_words(before)[i] == before[i].word@);
                        }
                    }
                }
            },
            None => {
                let mut a = Acc {
                    word: r.word.clone(),
                    word_id: r.word_id,
                    gloss: r.gloss.clone(),
                    tags: Vec::new(),
                    books: Vec::new(),
                    globals: Vec::new(),
                };
                proof {
                    lemma_unseen_empty(pre, w, false);
                    lemma_unseen_empty(pre, w, true);
                    assert(strs_view(a.tags@) =~= tags_for(pre, w, false));
                    assert(strs_view(a.globals@) =~= tags_for(pre, w, true));
                    assert(books_view(a.books@) =~= books_for(pre, w));
                }
                push_new_tag(&mut a.tags, r.tag.as_str(), r.interest.as_str());
                if r.global {
                    push_new_tag(&mut a.globals, r.tag.as_str(), r.interest.as_str());
                }
                push_new_books(&mut a.books, &r.books);
                accs.push(a);
                proof {
                    assert(words_seen(post) == words_seen(pre).push(w));
                    assert(acc_words(accs@) =~= acc_words(before).push(w));
                    assert forall|i: int| 0 <= i < accs@.len() implies acc_ok(post, #[trigger] accs@[i]) by {
                        if i < before.len() {
                            assert(accs@[i] == before[i]);
                            assert(acc_ok(pre, before[i]));
                            assert(acc_words(before)[i] == before[i].word@);
                            assert(words_seen(post).contains(before[i].word@)) by {
                                assert(words_seen(post)[i] == before[i].word@);
                            }
                        } else {
                            assert(words_seen(post)[i] == w);
                        }
                    }
                }
            },
        }
        k = k + 1;
    }
    assert(rows@.take(rows@.len() as int) == rows@);
    accs
}

proof fn lemma_tag_names_distinct(rows: Seq<Application>, w: Seq<char>, g: bool)
    ensures
        forall|i: int, j: int| 0 <= i < j < tags_for(rows, w, g).len() ==> (#[trigger] tags_for(rows, w, g)[i]).0 != (#[trigger] tags_for(rows, w, g)[j]).0,
        tags_for(rows, w, g).len() <= rows.len(),
    decreases rows.len(),
{
    if rows.len() > 0 {
        let init = rows.drop_last();
        lemma_tag_names_distinct(init, w, g);
        let t = tags_for(init, w, g);
        let l = rows.last();
        if l.word@ == w && (l.global || !g) && !pair_names(t).contains(l.tag@) {
            let t2 = t.push((l.tag@, l.interest@));
            assert forall|i: int, j: int| 0 <= i < j < t2.len() implies (#[trigger] t2[i]).0 != (#[trigger] t2[j]).0 by {
                if j == t.len() {
                    assert(t2[i] == t[i]);
                    assert(pair_names(t)[i] == t[i].0);
                } else {
                    assert(t2[i] == t[i] && t2[j] == t[j]);
                }
            }
        }
    }
}

proof fn lemma_count_level_bound(tags: Seq<(Seq<char>, Seq<char>)>, level: Seq<char>)
    ensures
        0 <= count_level(tags, level) <= tags.len(),
    decreases tags.len(),
{
    if tags.len() > 0 {
        lemma_count_level_bound(tags.drop_last(), level);
    }
}

pub proof fn lemma_tag_before_trans(a: (Seq<char>, Seq<char>), b: (Seq<char>, Seq<char>), c: (Seq<char>, Seq<char>))
    requires
        tag_before(a, b),
        tag_before(b, c),
    ensures
        tag_before(a, c),
{
    if seq_lt(a.0, b.0) && seq_lt(b.0, c.0) {
        lemma_seq_lt_trans(a.0, b.0, c.0);
    }
}

pub proof fn lemma_tag_before_total(a: (Seq<char>, Seq<char>), b: (Seq<char>, Seq<char>))
    requires
        a.0 != b.0,
    ensures
        tag_before(a, b) || tag_before(b, a),
{
    lemma_seq_lt_total(a.0, b.0);
}

fn rank_exec(i: &str) -> (r: u8)
    ensures
        r == level_rank(i@),
{
    if str_eq(i, "interesting") {
        0
    } else if str_eq(i, "neutral") {
        1
    } else {
        2
    }
}

fn tag_before_exec(a: &(String, String), b: &(String, String)) -> (r: bool)
    ensures
        r == tag_before((a.0@, a.1@), (b.0@, b.1@)),
{
    let ra = rank_exec(a.1.as_str());
    let rb = rank_exec(b.1.as_str());
    if ra != rb {
        return ra < rb;
    }
    let x = chars_of(a.0.as_str());
    let y = chars_of(b.0.as_str());
    chars_lt(&x, &y)
}

fn insert_tag(out: &mut Vec<(String, String)>, x: (String, String))
    requires
        tags_sorted(strs_view(old(out)@)),
        !pair_names(strs_view(old(out)@)).contains(x.0@),
    ensures
        tags_sorted(strs_view(final(out)@)),
        strs_view(final(out)@) == strs_view(old(out)@).insert(
            choose|p: int| 0 <= p <= old(out)@.len() && strs_view(final(out)@) == strs_view(old(out)@).insert(p, (x.0@, x.1@)),
            (x.0@, x.1@),
        ),
        forall|q: (Seq<char>, Seq<char>)| #[trigger] strs_view(final(out)@).contains(q) <==> (strs_view(old(out)@).contains(q) || q == (x.0@, x.1@)),
{
    let ghost o = strs_view(out@);
    let ghost xv = (x.0@, x.1@);
    let mut p: usize = 0;
    while p < out.len() && tag_before_exec(&out[p], &x)
        invariant
            o == strs_view(out@),
            p <= o.len(),
            xv == (x.0@, x.1@),
            forall|q: int| 0 <= q < p ==> tag_before(#[trigger] o[q], xv),
        decreases o.len() - p,
    {
        p = p + 1;
    }
    proof {
        if p < o.len() {
            assert(pair_names(o)[p as int] == o[p as int].0);
            lemma_tag_before_total(o[p as int], xv);
            assert forall|q: int| p <= q < o.len() implies tag_before(xv, #[trigger] o[q]) by {
                if q > p {
                    assert(tag_before(o[p as int], o[q]));
                    lemma_tag_before_trans(xv, o[p as int], o[q]);
                }
            }
        }
    }
    out.insert(p, x);
    proof {
        let t = strs_view(out@);
        assert(t =~= o.insert(p as int, xv));
        assert forall|i: int, j: int| 0 <= i < j < t.len() implies tag_before(#[trigger] t[i], #[trigger] t[j]) by {
            if i < p && j > p {
                lemma_tag_before_trans(o[i], xv, o[j - 1]);
            } else if i < p && j < p {
                assert(t[i] == o[i] && t[j] == o[j]);
            } else if i > p {
                assert(t[i] == o[i - 1] && t[j] == o[j - 1]);
            } else if i == p {
                assert(t[j] == o[j - 1]);
            } else {
                assert(t[i] == o[i]);
            }
        }
        assert forall|q: (Seq<char>, Seq<char>)| #[trigger] t.contains(q) <==> (o.contains(q) || q == xv) by {
            if t.contains(q) {
                let k = choose|k: int| 0 <= k < t.len() && t[k] == q;
                if k < p {
                    assert(o[k] == q);
                } else if k > p {
                    assert(o[k - 1] == q);
                }
            }
            if o.contains(q) {
                let k = choose|k: int| 0 <= k < o.len() && o[k] == q;
                if k < p {
                    assert(t[k] == q);
                } else {
                    assert(t[k + 1] == q);
                }
            }
            if q == xv {
                assert(t[p as int] == q);
            }
        }
    }
}

fn sort_tags(tags: &Vec<(String, String)>) -> (r: Vec<(String, String)>)
    requires
        forall|i: int, j: int| 0 <= i < j < tags@.len() ==> (#[trigger] tags@[i]).0@ != (#[trigger] tags@[j]).0@,
    ensures
        tags_sorted(strs_view(r@)),
        forall|q: (Seq<char>, Seq<char>)| #[trigger] strs_view(r@).contains(q) <==> strs_view(tags@).contains(q),
{
    let ghost tv = strs_view(tags@);
    let mut out: Vec<(String, String)> = Vec::new();
    let mut i: usize = 0;
    while i < tags.len()
        invariant
            tv == strs_view(tags@),
            forall|a: int, b: int| 0 <= a < b < tags@.len() ==> (#[trigger] tags@[a]).0@ != (#[trigger] tags@[b]).0@,
            i <= tags@.len(),
            tags_sorted(strs_view(out@)),
            forall|q: (Seq<char>, Seq<char>)| #[trigger] strs_view(out@).contains(q) <==> tv.take(i as int).contains(q),
        decreases tags@.len() - i,
    {
        let ghost before = strs_view(out@);
        proof {
            if pair_names(before).contains(tags@[i as int].0@) {
                let k = choose|k: int| 0 <= k < before.len() && pair_names(before)[k] == tags@[i as int].0@;
                assert(before.contains(before[k]));
                assert(tv.take(i as int).contains(before[k]));
                let m = choose|m: int| 0 <= m < i && tv.take(i as int)[m] == before[k];
                assert(tags@[m].0@ == tags@[i as int].0@);
            }
        }
        insert_tag(&mut out, (tags[i].0.clone(), tags[i].1.clone()));
        proof {
            let t0 = tv.take(i as int);
            let t1 = tv.take(i + 1);
            assert(t1 =~= t0.push(tv[i as int]));
            assert forall|q: (Seq<char>, Seq<char>)| #[trigger] strs_view(out@).contains(q) <==> t1.contains(q) by {
                if t0.contains(q) {
                    let k = choose|k: int| 0 <= k < t0.len() && #[trigger] t0[k] == q;
                    assert(t1[k] == q);
                }
                if t1.contains(q) {
                    let k = choose|k: int| 0 <= k < t1.len() && #[trigger] t1[k] == q;
                    if k < i {
                        assert(t0[k] == q);
                    }
                }
                if q == tv[i as int] {
                    assert(t1[i as int] == q);
                }
            }
        }
        i = i + 1;
    }
    assert(tv.take(tags@.len() as int) == tv);
    out
}

fn tint_is(tint: &Vec<(String, String)>, name: &str, level: &str) -> (b: bool)
    ensures
        b == (tint_of(tint@, name@) == Some(level@)),
{
    let mut i: usize = tint.len();
    assert(tint@.take(tint@.len() as int) == tint@);
    while i > 0
        invariant
            i <= tint@.len(),
            tint_of(tint@, name@) == tint_of(tint@.take(i as int), name@),
        decreases i,
    {
        let ghost t = tint@.take(i as int);
        assert(t.last() == tint@[i - 1]);
        if str_eq(tint[i - 1].0.as_str(), name) {
            return str_eq(tint[i - 1].1.as_str(), level);
        }
        assert(t.drop_last() == tint@.take(i - 1));
        i = i - 1;
    }
    false
}

fn lends_exec(tint: &Vec<(String, String)>, tags: &Vec<(String, String)>, level: &str) -> (b: bool)
    ensures
        b == lends_level(tint@, strs_view(tags@), level@),
{
    let ghost tv = strs_view(tags@);
    let mut k: usize = 0;
    while k < tags.len()
        invariant
            tv == strs_view(tags@),
            k <= tags@.len(),
            forall|m: int| 0 <= m < k ==> !tag_lends(tint@, #[trigger] tv[m], level@),
        decreases tags@.len() - k,
    {
        assert(tv[k as int] == (tags@[k as int].0@, tags@[k as int].1@));
        if str_eq(tags[k].1.as_str(), level) {
            assert(tag_lends(tint@, tv[k as int], level@));
            return true;
        }
        let ancs = ancestor_names(tags[k].0.as_str());
        let ghost an = ancestors(tv[k as int].0);
        let mut j: usize = 0;
        while j < ancs.len()
            invariant
                tv == strs_view(tags@),
                k < tags@.len(),
                an == ancestors(tv[k as int].0),
                tv[k as int].1 != level@,
                forall|m: int| 0 <= m < k ==> !tag_lends(tint@, #[trigger] tv[m], level@),
                ancs@.len() == an.len(),
                forall|q: int| 0 <= q < an.len() ==> #[trigger] ancs@[q]@ == an[q],
                j <= an.len(),
                forall|q: int| 0 <= q < j ==> tint_of(tint@, #[trigger] an[q]) != Some(level@),
            decreases an.len() - j,
        {
            if tint_is(tint, ancs[j].as_str(), level) {
                assert(tint_of(tint@, an[j as int]) == Some(level@));
                assert(tag_lends(tint@, tv[k as int], level@));
                return true;
            }
            j = j + 1;
        }
        k = k + 1;
    }
    false
}

fn effective_exec(tint: &Vec<(String, String)>, tags: &Vec<(String, String)>) -> (r: String)
    ensures
        r@ == effective(tint@, strs_view(tags@)),
{
    if lends_exec(tint, tags, "interesting") {
        "interesting".to_owned()
    } else if lends_exec(tint, tags, "uninteresting") {
        "uninteresting".to_owned()
    } else {
        "neutral".to_owned()
    }
}

fn net_exec(globals: &Vec<(String, String)>) -> (n: i64)
    requires
        globals@.len() <= i64::MAX,
    ensures
        n == count_level(strs_view(globals@), "interesting"@) - count_level(strs_view(globals@), "uninteresting"@),
{
    let ghost g = strs_view(globals@);
    let mut fav: i64 = 0;
    let mut neg: i64 = 0;
    let mut k: usize = 0;
    assert(g.take(0).len() == 0);
    while k < globals.len()
        invariant
            g == strs_view(globals@),
            globals@.len() <= i64::MAX,
            k <= globals@.len(),
            fav == count_level(g.take(k as int), "interesting"@),
            neg == count_level(g.take(k as int), "uninteresting"@),
        decreases globals@.len() - k,
    {
        proof {
            lemma_count_level_bound(g.take(k as int), "interesting"@);
            lemma_count_level_bound(g.take(k as int), "uninteresting"@);
        }
        assert(g.take(k + 1).drop_last() == g.take(k as int));
        assert(g.take(k + 1).last() == g[k as int]);
        if str_eq(globals[k].1.as_str(), "interesting") {
            fav = fav + 1;
        }
        if str_eq(globals[k].1.as_str(), "uninteresting") {
            neg = neg + 1;
        }
        k = k + 1;
    }
    assert(g.take(globals@.len() as int) == g);
    proof {
        lemma_count_level_bound(g, "interesting"@);
        lemma_count_level_bound(g, "uninteresting"@);
    }
    fav - neg
}

pub proof fn lemma_entry_before_trans(special: bool, a: CollectionEntry, b: CollectionEntry, c: CollectionEntry)
    requires
        entry_before(special, a, b),
        entry_before(special, b, c),
    ensures
        entry_before(special, a, c),
{
    if seq_lt(a.word@, b.word@) && seq_lt(b.word@, c.word@) {
        lemma_seq_lt_trans(a.word@, b.word@, c.word@);
    }
}

pub proof fn lemma_entry_before_total(special: bool, a: CollectionEntry, b: CollectionEntry)
    requires
        a.word@ != b.word@,
    ensures
        entry_before(special, a, b) || entry_before(special, b, a),
{
    lemma_seq_lt_total(a.word@, b.word@);
}

fn entry_before_exec(special: bool, a: &CollectionEntry, b: &CollectionEntry) -> (r: bool)
    ensures
        r == entry_before(special, *a, *b),
{
    if special {
        let ma: i64 = match a.metric {
            Some(m) => m,
            None => 0,
        };
        let mb: i64 = match b.metric {
            Some(m) => m,
            None => 0,
        };
        if ma != mb {
            return ma > mb;
        }
    } else {
        let ra = rank_exec(a.interest.as_str());
        let rb = rank_exec(b.interest.as_str());
        if ra != rb {
            return ra < rb;
        }
    }
    let x = chars_of(a.word.as_str());
    let y = chars_of(b.word.as_str());
    chars_lt(&x, &y)
}

pub open spec fn entry_words(s: Seq<CollectionEntry>) -> Seq<Seq<char>> {
    s.map_values(|e: CollectionEntry| e.word@)
}

pub open spec fn entries_sorted(special: bool, s: Seq<CollectionEntry>) -> bool {
    forall|i: int, j: int| 0 <= i < j < s.len() ==> entry_before(special, #[trigger] s[i], #[trigger] s[j])
}

fn insert_entry(out: &mut Vec<CollectionEntry>, e: CollectionEntry, special: bool) -> (p: usize)
    requires
        entries_sorted(special, old(out)@),
        !entry_words(old(out)@).contains(e.word@),
    ensures
        p <= old(out)@.len(),
        final(out)@ == old(out)@.insert(p as int, e),
        entries_sorted(special, final(out)@),
{
    let ghost o = out@;
    let mut p: usize = 0;
    while p < out.len() && entry_before_exec(special, &out[p], &e)
        invariant
            o == out@,
            p <= o.len(),
            forall|q: int| 0 <= q < p ==> entry_before(special, #[trigger] o[q], e),
        decreases o.len() - p,
    {
        p = p + 1;
    }
    proof {
        if p < o.len() {
            assert(entry_words(o)[p as int] == o[p as int].word@);
            lemma_entry_before_total(special, o[p as int], e);
            assert forall|q: int| p <= q < o.len() implies entry_before(special, e, #[trigger] o[q]) by {
                if q > p {
                    assert(entry_before(special, o[p as int], o[q]));
                    lemma_entry_before_trans(special, e, o[p as int], o[q]);
                }
            }
        }
    }
    let ghost ev = e;
    out.insert(p, e);
    proof {
        let t = out@;
        assert forall|i: int, j: int| 0 <= i < j < t.len() implies entry_before(special, #[trigger] t[i], #[trigger] t[j]) by {
            if i < p && j > p {
                assert(t[i] == o[i] && t[j] == o[j - 1]);
                lemma_entry_before_trans(special, o[i], ev, o[j - 1]);
            } else if i < p && j < p {
                assert(t[i] == o[i] && t[j] == o[j]);
            } else if i > p {
                assert(t[i] == o[i - 1] && t[j] == o[j - 1]);
            } else if i == p {
                assert(t[j] == o[j - 1]);
            } else {
                assert(t[i] == o[i]);
            }
        }
    }
    p
}

proof fn lemma_has_iff_lends(tint: Seq<(String, String)>, ts: Seq<(Seq<char>, Seq<char>)>, level: Seq<char>)
    ensures
        some_tag_has(tint, ts, level) == lends_level(tint, ts, level),
{
    if some_tag_has(tint, ts, level) {
        let (k, j) = choose|k: int, j: int|
            0 <= k < ts.len() && (#[trigger] ts[k].1 == level || (0 <= j < ancestors(ts[k].0).len() && tint_of(
                tint,
                #[trigger] ancestors(ts[k].0)[j],
            ) == Some(level)));
        assert(tag_lends(tint, ts[k], level));
    }
    if lends_level(tint, ts, level) {
        let k = choose|k: int| 0 <= k < ts.len() && tag_lends(tint, #[trigger] ts[k], level);
        if ts[k].1 == level {
            assert(some_tag_has(tint, ts, level)) by {
                assert(ts[k].1 == level);
            }
        } else {
            let j = choose|j: int| 0 <= j < ancestors(ts[k].0).len() && tint_of(tint, #[trigger] ancestors(ts[k].0)[j])
                == Some(level);
            assert(tint_of(tint, ancestors(ts[k].0)[j]) == Some(level));
        }
    }
}

proof fn lemma_lends_same(tint: Seq<(String, String)>, a: Seq<(Seq<char>, Seq<char>)>, b: Seq<(Seq<char>, Seq<char>)>, level: Seq<char>)
    requires
        forall|p: (Seq<char>, Seq<char>)| #[trigger] a.contains(p) <==> b.contains(p),
    ensures
        lends_level(tint, a, level) == lends_level(tint, b, level),
{
    if lends_level(tint, a, level) {
        let k = choose|k: int| 0 <= k < a.len() && tag_lends(tint, #[trigger] a[k], level);
        assert(a.contains(a[k]));
        assert(b.contains(a[k]));
        let m = choose|m: int| 0 <= m < b.len() && b[m] == a[k];
        assert(tag_lends(tint, b[m], level));
    }
    if lends_level(tint, b, level) {
        let k = choose|k: int| 0 <= k < b.len() && tag_lends(tint, #[trigger] b[k], level);
        assert(b.contains(b[k]));
        assert(a.contains(b[k]));
        let m = choose|m: int| 0 <= m < a.len() && a[m] == b[k];
        assert(tag_lends(tint, a[m], level));
    }
}

/// The law of an entry's interest, from the entry's own description.
pub proof fn lemma_entry_interest(rows: Seq<Application>, tint: Seq<(String, String)>, special: bool, e: CollectionEntry)
    requires
        entry_for(rows, tint, special, e),
    ensures
        interest_follows(tint, e),
{
    let ts = strs_view(e.tags@);
    let g = tags_for(rows, e.word@, false);
    lemma_lends_same(tint, ts, g, "interesting"@);
    lemma_lends_same(tint, ts, g, "uninteresting"@);
    lemma_has_iff_lends(tint, ts, "interesting"@);
    lemma_has_iff_lends(tint, ts, "uninteresting"@);
    reveal_strlit("interesting");
    reveal_strlit("uninteresting");
    reveal_strlit("neutral");
    assert("interesting"@.len() != "uninteresting"@.len());
    assert("neutral"@.len() != "uninteresting"@.len());
    assert("neutral"@[0] != "interesting"@[0]);
}

/// One entry per tagged word, gathered from every applied collection-tag row
/// (`rows`, with the books each reaches) and the stored interest of every tag
/// (`tint`). In the ranked view (`special`) each entry carries the net of its
/// word-scoped favourite and negative tags, only words with a positive net are
/// kept, and they are ranked by it; otherwise entries go by interest. Ties go by
/// word.
pub fn collection_entries(rows: &Vec<Application>, tint: &Vec<(String, String)>, special: bool) -> (r: Vec<CollectionEntry>)
    requires
        rows@.len() <= i64::MAX,
    ensures
        entries_sorted(special, r@),
        forall|i: int| 0 <= i < r@.len() ==> entry_for(rows@, tint@, special, #[trigger] r@[i]),
        forall|w: Seq<char>| #[trigger] words_seen(rows@).contains(w) && (special ==> net_of(rows@, w) > 0) ==> entry_words(r@).contains(w),
        // Interesting beats uninteresting beats neutral.
        forall|i: int| 0 <= i < r@.len() ==> interest_follows(tint@, #[trigger] r@[i]),
        forall|i: int, j: int| 0 <= i < j < r@.len() ==> page_before(special, #[trigger] r@[i], #[trigger] r@[j]),
{
    let accs = accumulate(rows);
    let ghost aa = accs@;
    let ghost aw = acc_words(aa);
    proof {
        lemma_words_distinct(rows@);
    }
    let mut accs = accs;
    let n = accs.len();
    let mut out: Vec<CollectionEntry> = Vec::new();
    let mut i: usize = 0;
    while i < n
        invariant
            n == aa.len(),
            rows@.len() <= i64::MAX,
            aw == acc_words(aa),
            aw == words_seen(rows@),
            forall|a: int, b: int| 0 <= a < b < aw.len() ==> #[trigger] aw[a] != #[trigger] aw[b],
            forall|a: int| 0 <= a < aa.len() ==> acc_ok(rows@, #[trigger] aa[a]),
            i <= n,
            accs@ == aa.skip(i as int),
            entries_sorted(special, out@),
            forall|q: int| 0 <= q < out@.len() ==> entry_for(rows@, tint@, special, #[trigger] out@[q]),
            forall|x: Seq<char>| #[trigger] entry_words(out@).contains(x) ==> aw.take(i as int).contains(x),
            forall|a: int| 0 <= a < i && (special ==> net_of(rows@, #[trigger] aw[a]) > 0) ==> entry_words(out@).contains(aw[a]),
        decreases n - i,
    {
        let a = accs.remove(0);
        assert(a == aa[i as int]);
        assert(accs@ == aa.skip(i + 1));
        let ghost w = a.word@;
        assert(aw[i as int] == w);
        assert(acc_ok(rows@, a));
        proof {
            lemma_tag_names_distinct(rows@, w, false);
            lemma_tag_names_distinct(rows@, w, true);
            assert forall|x: int, y: int| 0 <= x < y < a.tags@.len() implies (#[trigger] a.tags@[x]).0@ != (#[trigger] a.tags@[y]).0@ by {
                assert(strs_view(a.tags@)[x] == tags_for(rows@, w, false)[x]);
                assert(strs_view(a.tags@)[y] == tags_for(rows@, w, false)[y]);
            }
            assert(a.globals@.len() == tags_for(rows@, w, true).len());
        }
        let tags = sort_tags(&a.tags);
        let interest = effective_exec(tint, &a.tags);
        let metric: Option<i64> = if special {
            Some(net_exec(&a.globals))
        } else {
            None
        };
        let keep = match metric {
            Some(m) => m > 0,
            None => true,
        };
        let ghost before = out@;
        if keep {
            let e = CollectionEntry {
                word: a.word,
                word_id: a.word_id,
                gloss: a.gloss,
                interest,
                tags,
                books: a.books,
                metric,
            };
            let ghost ev = e;
            proof {
                assert(entry_for(rows@, tint@, special, ev));
                if entry_words(before).contains(w) {
                    assert(aw.take(i as int).contains(w));
                    let m = choose|m: int| 0 <= m < i && aw.take(i as int)[m] == w;
                    assert(aw[m] == aw[i as int]);
                }
            }
            let p = insert_entry(&mut out, e, special);
            proof {
                let t = out@;
                assert forall|q: int| 0 <= q < t.len() implies entry_for(rows@, tint@, special, #[trigger] t[q]) by {
                    if q < p {
                        assert(t[q] == before[q]);
                    } else if q > p {
                        assert(t[q] == before[q - 1]);
                    } else {
                        assert(t[q] == ev);
                    }
                }
                assert(entry_words(t) =~= entry_words(before).insert(p as int, w));
                assert forall|x: Seq<char>| #[trigger] entry_words(t).contains(x) implies aw.take(i + 1).contains(x) by {
                    let k = choose|k: int| 0 <= k < entry_words(t).len() && entry_words(t)[k] == x;
                    if k == p {
                        assert(aw.take(i + 1)[i as int] == x);
                    } else {
                        let k2 = if k < p { k } else { k - 1 };
                        assert(entry_words(before)[k2] == x);
                        assert(entry_words(before).contains(x));
                        let m = choose|m: int| 0 <= m < i && aw.take(i as int)[m] == x;
                        assert(aw.take(i + 1)[m] == x);
                    }
                }
                assert forall|b: int| 0 <= b < i + 1 && (special ==> net_of(rows@, #[trigger] aw[b]) > 0) implies entry_words(t).contains(aw[b]) by {
                    if b == i {
                        assert(entry_words(t)[p as int] == aw[b]);
                    } else {
                        assert(entry_words(before).contains(aw[b]));
                        let k = choose|k: int| 0 <= k < entry_words(before).len() && entry_words(before)[k] == aw[b];
                        if k < p {
                            assert(entry_words(t)[k] == aw[b]);
                        } else {
                            assert(entry_words(t)[k + 1] == aw[b]);
                        }
                    }
                }
            }
        } else {
            proof {
                assert forall|x: Seq<char>| #[trigger] entry_words(out@).contains(x) implies aw.take(i + 1).contains(x) by {
                    let m = choose|m: int| 0 <= m < i && aw.take(i as int)[m] == x;
                    assert(aw.take(i + 1)[m] == x);
                }
            }
        }
        i = i + 1;
    }
    proof {
        assert forall|w: Seq<char>| #[trigger] words_seen(rows@).contains(w) && (special ==> net_of(rows@, w) > 0) implies entry_words(out@).contains(w) by {
            let a = choose|a: int| 0 <= a < aw.len() && aw[a] == w;
        }
    }
    proof {
        assert forall|i: int| 0 <= i < out@.len() implies interest_follows(tint@, #[trigger] out@[i]) by {
            lemma_entry_interest(rows@, tint@, special, out@[i]);
        }
        assert forall|i: int, j: int| 0 <= i < j < out@.len() implies page_before(special, #[trigger] out@[i], #[trigger] out@[j]) by {
            assert(entry_before(special, out@[i], out@[j]));
        }
    }
    out
}

/// The Collection page's sort controls as a key: a primary rank (smaller first),
/// then the word.
pub struct EntryKey {
    pub rank: usize,
    pub word: String,
}

impl SortKey for EntryKey {
    open spec fn key_le(self, other: Self) -> bool {
        self.rank < other.rank || (self.rank == other.rank && !seq_lt(other.word@, self.word@))
    }

    proof fn lemma_key_total(a: Self, b: Self) {
        lemma_seq_le_total(a.word@, b.word@);
    }

    proof fn lemma_key_trans(a: Self, b: Self, c: Self) {
        if a.rank == b.rank && b.rank == c.rank {
            lemma_seq_le_trans(a.word@, b.word@, c.word@);
        }
    }

    fn le(&self, other: &Self) -> (r: bool) {
        if self.rank != other.rank {
            return self.rank < other.rank;
        }
        let a = chars_of(self.word.as_str());
        let b = chars_of(other.word.as_str());
        !chars_lt(&b, &a)
    }
}

/// Interest order for the sort: interesting, neutral, anything else.
pub open spec fn interest_order(i: Seq<char>) -> usize {
    if i == "interesting"@ {
        0
    } else if i == "neutral"@ {
        1
    } else {
        2
    }
}

/// An entry's key under sort `by`: "az" by word; "tags" and "books" most first;
/// "interest" interesting, neutral, the rest; each then by word.
pub open spec fn entry_key(e: CollectionEntry, by: Seq<char>) -> EntryKey {
    let rank: usize = if by == "tags"@ {
        (usize::MAX - e.tags@.len()) as usize
    } else if by == "books"@ {
        (usize::MAX - e.books@.len()) as usize
    } else if by == "interest"@ {
        interest_order(e.interest@)
    } else {
        0
    };
    EntryKey { rank, word: e.word }
}

pub open spec fn is_sort(by: Seq<char>) -> bool {
    by == "az"@ || by == "tags"@ || by == "books"@ || by == "interest"@
}

/// The entries as the page shows them under a sort control: stably sorted by
/// that control's key, or in the server's order for no (or an unknown) control.
pub open spec fn resorted(list: Seq<CollectionEntry>, by: Option<Seq<char>>) -> Seq<CollectionEntry> {
    match by {
        Some(b) if is_sort(b) => sorted_by_key(list.map_values(|e: CollectionEntry| (entry_key(e, b), e))).map_values(
            |p: (EntryKey, CollectionEntry)| p.1,
        ),
        _ => list,
    }
}

/// Re-sort the Collection page's entries under the chosen sort control.
pub fn resort_entries(list: Vec<CollectionEntry>, by: Option<&str>) -> (r: Vec<CollectionEntry>)
    ensures
        r@ == resorted(list@, match by {
            Some(b) => Some(b@),
            None => None,
        }),
{
    let b = match by {
        Some(b) => b,
        None => return list,
    };
    let code: u8 = if str_eq(b, "az") {
        0
    } else if str_eq(b, "tags") {
        1
    } else if str_eq(b, "books") {
        2
    } else if str_eq(b, "interest") {
        3
    } else {
        return list;
    };
    let ghost orig = list@;
    let ghost mk = |e: CollectionEntry| (entry_key(e, b@), e);
    let mut list = list;
    let n = list.len();
    let mut keyed: Vec<(EntryKey, CollectionEntry)> = Vec::new();
    let mut i: usize = 0;
    while i < n
        invariant
            n == orig.len(),
            i <= n,
            list@ == orig.skip(i as int),
            mk == (|e: CollectionEntry| (entry_key(e, b@), e)),
            code == 0 ==> b@ == "az"@,
            code == 1 ==> b@ == "tags"@,
            code == 2 ==> b@ == "books"@,
            code == 3 ==> b@ == "interest"@,
            code <= 3,
            keyed@ == orig.take(i as int).map_values(mk),
        decreases n - i,
    {
        let e = list.remove(0);
        assert(e == orig[i as int]);
        assert(list@ == orig.skip(i + 1));
        proof {
            reveal_strlit("az");
            reveal_strlit("tags");
            reveal_strlit("books");
            reveal_strlit("interest");
        }
        let rank: usize = if code == 1 {
            usize::MAX - e.tags.len()
        } else if code == 2 {
            usize::MAX - e.books.len()
        } else if code == 3 {
            if str_eq(e.interest.as_str(), "interesting") {
                0
            } else if str_eq(e.interest.as_str(), "neutral") {
                1
            } else {
                2
            }
        } else {
            0
        };
        let k = EntryKey { rank, word: e.word.clone() };
        assert(k == entry_key(e, b@));
        keyed.push((k, e));
        assert(orig.take(i + 1).map_values(mk) =~= orig.take(i as int).map_values(mk).push(mk(orig[i as int])));
        i = i + 1;
    }
    assert(orig.take(n as int) == orig);
    let sorted = sort_by_key(keyed);
    let ghost sv = sorted@;
    let mut sorted = sorted;
    let m = sorted.len();
    proof {
        lemma_sorted_len(orig.map_values(mk));
    }
    let mut out: Vec<CollectionEntry> = Vec::new();
    let mut j: usize = 0;
    while j < m
        invariant
            m == sv.len(),
            j <= m,
            sorted@ == sv.skip(j as int),
            out@ == sv.take(j as int).map_values(|p: (EntryKey, CollectionEntry)| p.1),
        decreases m - j,
    {
        let (_, e) = sorted.remove(0);
        assert(sorted@ == sv.skip(j + 1));
        out.push(e);
        assert(sv.take(j + 1).map_values(|p: (EntryKey, CollectionEntry)| p.1) =~= sv.take(j as int).map_values(
            |p: (EntryKey, CollectionEntry)| p.1,
        ).push(sv[j as int].1));
        j = j + 1;
    }
    assert(sv.take(m as int) == sv);
    assert(is_sort(b@));
    out
}

} // verus!
