//! How a scope's tags are laid out and rearranged: the scope's (name, section)
//! order, its contiguous section runs, where a dragged tag lands, the two sort
//! controls, moving a tag into a section, plus the small display helpers of the
//! tag pages (shortened comments, the toast line and its expiry).

use vstd::prelude::*;
use crate::sorting::{SortKey, sort_by_key, sorted_by_key};
use crate::tags::{TagDef, sanitize_section, section_label};
use crate::text::{lemma_seq_le_total, lemma_seq_le_trans, chars_lt, chars_of, push_str, seq_lt, str_eq, string_of, trim, trim_str};

verus! {

/// Where a dragged tag was dropped within its scope.
pub enum DropAt {
    /// Immediately before this tag (adopting that tag's section).
    Before(String),
    /// Into this named section (appended to the section's run).
    Section(String),
    /// The end of the scope (adopting the last tag's section).
    End,
}

/// A tag belongs to the scope shown when `is_word` says word-scoped.
pub open spec fn in_scope(d: TagDef, is_word: bool) -> bool {
    (d.scope@ == "word"@) == is_word
}

pub open spec fn layout_view(l: Seq<(String, String)>) -> Seq<(Seq<char>, Seq<char>)> {
    l.map_values(|p: (String, String)| (p.0@, p.1@))
}

/// A scope's tags as (name, section) in display order.
pub open spec fn scope_layout_of(tags: Seq<TagDef>, is_word: bool) -> Seq<(Seq<char>, Seq<char>)> {
    tags.filter(|d: TagDef| in_scope(d, is_word)).map_values(|d: TagDef| (d.name@, d.section@))
}

pub fn scope_layout(tags: &Vec<TagDef>, is_word: bool) -> (r: Vec<(String, String)>)
    ensures
        layout_view(r@) == scope_layout_of(tags@, is_word),
{
    let mut out: Vec<(String, String)> = Vec::new();
    let mut i: usize = 0;
    let ghost keep = |d: TagDef| in_scope(d, is_word);
    assert(tags@.take(0).filter(keep) =~= Seq::<TagDef>::empty());
    while i < tags.len()
        invariant
            keep == (|d: TagDef| in_scope(d, is_word)),
            i <= tags@.len(),
            layout_view(out@) == tags@.take(i as int).filter(keep).map_values(|d: TagDef| (d.name@, d.section@)),
        decreases tags@.len() - i,
    {
        let ghost before = out@;
        proof {
            assert(tags@.take(i + 1) == tags@.take(i as int).push(tags@[i as int]));
            tags@.take(i as int).lemma_filter_push(tags@[i as int], keep);
        }
        if str_eq(tags[i].scope.as_str(), "word") == is_word {
            out.push((tags[i].name.clone(), tags[i].section.clone()));
            assert(layout_view(out@) =~= layout_view(before).push((tags@[i as int].name@, tags@[i as int].section@)));
        }
        i = i + 1;
    }
    assert(tags@.take(tags@.len() as int) == tags@);
    out
}

/// The tags of runs laid end to end.
pub open spec fn flatten_runs(runs: Seq<(String, Vec<TagDef>)>) -> Seq<TagDef>
    decreases runs.len(),
{
    if runs.len() == 0 {
        Seq::empty()
    } else {
        flatten_runs(runs.drop_last()) + runs.last().1@
    }
}

/// Maximal runs: none empty, every tag of a run in the run's section, and
/// neighbouring runs in different sections.
pub open spec fn runs_ok(runs: Seq<(String, Vec<TagDef>)>) -> bool {
    &&& forall|r: int| 0 <= r < runs.len() ==> (#[trigger] runs[r]).1@.len() > 0
    &&& forall|r: int, k: int| 0 <= r < runs.len() && 0 <= k < runs[r].1@.len() ==> (#[trigger] runs[r].1@[k]).section@ == runs[r].0@
    &&& forall|r: int| 0 < r < runs.len() ==> (#[trigger] runs[r]).0@ != runs[r - 1].0@
}

/// The contiguous (section, tags) runs of a scope's ordered tags.
pub open spec fn spec_runs(tags: Seq<TagDef>) -> Seq<(Seq<char>, Seq<TagDef>)>
    decreases tags.len(),
{
    if tags.len() == 0 {
        Seq::empty()
    } else {
        let r = spec_runs(tags.drop_last());
        let d = tags.last();
        if r.len() > 0 && r.last().0 == d.section@ {
            r.drop_last().push((r.last().0, r.last().1.push(d)))
        } else {
            r.push((d.section@, seq![d]))
        }
    }
}

pub open spec fn runs_view(runs: Seq<(String, Vec<TagDef>)>) -> Seq<(Seq<char>, Seq<TagDef>)> {
    runs.map_values(|r: (String, Vec<TagDef>)| (r.0@, r.1@))
}

/// Fold a scope's ordered tags into contiguous (section, tags) runs; laid end to
/// end the runs give back the tags, in order.
pub fn section_runs(tags: Vec<TagDef>) -> (runs: Vec<(String, Vec<TagDef>)>)
    ensures
        runs_view(runs@) == spec_runs(tags@),
        flatten_runs(runs@) == tags@,
        runs_ok(runs@),
{
    let ghost orig = tags@;
    let mut tags = tags;
    let n = tags.len();
    let mut runs: Vec<(String, Vec<TagDef>)> = Vec::new();
    let mut i: usize = 0;
    assert(orig.take(0) =~= flatten_runs(runs@));
    while i < n
        invariant
            n == orig.len(),
            i <= n,
            tags@ == orig.skip(i as int),
            runs_view(runs@) == spec_runs(orig.take(i as int)),
            flatten_runs(runs@) == orig.take(i as int),
            runs_ok(runs@),
        decreases n - i,
    {
        let d = tags.remove(0);
        assert(d == orig[i as int]);
        assert(tags@ == orig.skip(i + 1));
        let ghost before = runs@;
        assert(orig.take(i + 1).drop_last() == orig.take(i as int));
        assert(orig.take(i + 1).last() == orig[i as int]);
        let joins = runs.len() > 0 && str_eq(runs[runs.len() - 1].0.as_str(), d.section.as_str());
        if joins {
            let last = runs.len() - 1;
            let (s, mut items) = runs.remove(last);
            items.push(d);
            runs.push((s, items));
            proof {
                let nr = runs@;
                assert(nr.drop_last() =~= before.drop_last());
                assert(nr.last().1@ == before.last().1@.push(orig[i as int]));
                assert(flatten_runs(nr) =~= flatten_runs(before).push(orig[i as int]));
                assert(runs_view(nr) =~= runs_view(before).drop_last().push((runs_view(before).last().0, runs_view(before).last().1.push(orig[i as int]))));
                assert forall|r: int, k: int| 0 <= r < nr.len() && 0 <= k < nr[r].1@.len() implies (#[trigger] nr[r].1@[k]).section@ == nr[r].0@ by {
                    if r < nr.len() - 1 {
                        assert(nr[r] == before[r]);
                    } else if k < before.last().1@.len() {
                        assert(nr[r].1@[k] == before[r].1@[k]);
                    }
                }
                assert forall|r: int| 0 < r < nr.len() implies (#[trigger] nr[r]).0@ != nr[r - 1].0@ by {
                    assert(nr[r - 1] == before[r - 1]);
                    if r < nr.len() - 1 {
                        assert(nr[r] == before[r]);
                    }
                }
            }
        } else {
            let s = d.section.clone();
            let mut items: Vec<TagDef> = Vec::new();
            items.push(d);
            runs.push((s, items));
            proof {
                let nr = runs@;
                assert(nr.drop_last() =~= before);
                assert(nr.last().1@ =~= seq![orig[i as int]]);
                assert(flatten_runs(nr) =~= flatten_runs(before).push(orig[i as int]));
                assert(runs_view(nr) =~= runs_view(before).push((orig[i as int].section@, seq![orig[i as int]])));
                assert forall|r: int, k: int| 0 <= r < nr.len() && 0 <= k < nr[r].1@.len() implies (#[trigger] nr[r].1@[k]).section@ == nr[r].0@ by {
                    if r < nr.len() - 1 {
                        assert(nr[r] == before[r]);
                    }
                }
                assert forall|r: int| 0 < r < nr.len() implies (#[trigger] nr[r]).0@ != nr[r - 1].0@ by {
                    assert(nr[r - 1] == before[r - 1]);
                    if r < nr.len() - 1 {
                        assert(nr[r] == before[r]);
                    }
                }
            }
        }
        assert(orig.take(i + 1) == orig.take(i as int).push(orig[i as int]));
        i = i + 1;
    }
    assert(orig.take(n as int) == orig);
    runs
}

/// The first position of name `n` in the layout.
pub open spec fn first_pos(l: Seq<(Seq<char>, Seq<char>)>, n: Seq<char>) -> Option<int>
    decreases l.len(),
{
    if l.len() == 0 {
        None
    } else if l[0].0 == n {
        Some(0)
    } else {
        match first_pos(l.drop_first(), n) {
            Some(p) => Some(p + 1),
            None => None,
        }
    }
}

/// The last position whose section is `s`.
pub open spec fn last_section_pos(l: Seq<(Seq<char>, Seq<char>)>, s: Seq<char>) -> Option<int>
    decreases l.len(),
{
    if l.len() == 0 {
        None
    } else if l.last().1 == s {
        Some(l.len() - 1)
    } else {
        last_section_pos(l.drop_last(), s)
    }
}

pub open spec fn drop_view(d: DropAt) -> DropAtView {
    match d {
        DropAt::Before(t) => DropAtView::Before(t@),
        DropAt::Section(s) => DropAtView::Section(s@),
        DropAt::End => DropAtView::End,
    }
}

pub ghost enum DropAtView {
    Before(Seq<char>),
    Section(Seq<char>),
    End,
}

/// Where the dragged tag goes in the layout without it, and the section it takes.
pub open spec fn landing(rest: Seq<(Seq<char>, Seq<char>)>, d: DropAtView) -> (int, Seq<char>) {
    match d {
        DropAtView::Before(t) => match first_pos(rest, t) {
            Some(p) => (p, rest[p].1),
            None => (rest.len() as int, Seq::empty()),
        },
        DropAtView::Section(s) => match last_section_pos(rest, s) {
            Some(p) => (p + 1, s),
            None => (rest.len() as int, s),
        },
        DropAtView::End => if rest.len() == 0 {
            (0, Seq::empty())
        } else {
            (rest.len() as int, rest.last().1)
        },
    }
}

/// The layout after dropping `dragged` at `d`: unchanged when `dragged` isn't in
/// it; otherwise taken out and put back where it lands, in the landing section.
pub open spec fn reordered(l: Seq<(Seq<char>, Seq<char>)>, dragged: Seq<char>, d: DropAtView) -> Seq<(Seq<char>, Seq<char>)> {
    match first_pos(l, dragged) {
        None => l,
        Some(p) => {
            let rest = l.remove(p);
            let (idx, sect) = landing(rest, d);
            rest.insert(idx, (dragged, sect))
        },
    }
}

proof fn lemma_first_pos(l: Seq<(Seq<char>, Seq<char>)>, n: Seq<char>)
    ensures
        match first_pos(l, n) {
            Some(p) => 0 <= p < l.len() && l[p].0 == n && forall|q: int| 0 <= q < p ==> #[trigger] l[q].0 != n,
            None => forall|q: int| 0 <= q < l.len() ==> #[trigger] l[q].0 != n,
        },
    decreases l.len(),
{
    if l.len() > 0 {
        lemma_first_pos(l.drop_first(), n);
        assert forall|q: int| 0 < q < l.len() implies #[trigger] l[q] == l.drop_first()[q - 1] by {}
    }
}

proof fn lemma_first_pos_at(l: Seq<(Seq<char>, Seq<char>)>, n: Seq<char>, p: int)
    requires
        0 <= p < l.len(),
        l[p].0 == n,
        forall|q: int| 0 <= q < p ==> #[trigger] l[q].0 != n,
    ensures
        first_pos(l, n) == Some(p),
{
    lemma_first_pos(l, n);
    match first_pos(l, n) {
        Some(p2) => {
            if p2 < p {
                assert(l[p2].0 != n);
            }
            if p2 > p {
                assert(l[p].0 != n);
            }
        },
        None => {
            assert(l[p].0 != n);
        },
    }
}

proof fn lemma_first_pos_none(l: Seq<(Seq<char>, Seq<char>)>, n: Seq<char>)
    requires
        forall|q: int| 0 <= q < l.len() ==> #[trigger] l[q].0 != n,
    ensures
        first_pos(l, n) is None,
{
    lemma_first_pos(l, n);
    if let Some(p) = first_pos(l, n) {
        assert(l[p].0 != n);
    }
}

proof fn lemma_last_section_pos(l: Seq<(Seq<char>, Seq<char>)>, s: Seq<char>, p: int)
    requires
        0 <= p < l.len(),
        l[p].1 == s,
        forall|q: int| p < q < l.len() ==> #[trigger] l[q].1 != s,
    ensures
        last_section_pos(l, s) == Some(p),
    decreases l.len(),
{
    if p < l.len() - 1 {
        let init = l.drop_last();
        assert forall|q: int| p < q < init.len() implies #[trigger] init[q].1 != s by {
            assert(init[q] == l[q]);
        }
        assert(l[l.len() - 1].1 != s);
        lemma_last_section_pos(init, s, p);
    }
}

proof fn lemma_last_section_none(l: Seq<(Seq<char>, Seq<char>)>, s: Seq<char>)
    requires
        forall|q: int| 0 <= q < l.len() ==> #[trigger] l[q].1 != s,
    ensures
        last_section_pos(l, s) is None,
    decreases l.len(),
{
    if l.len() > 0 {
        let init = l.drop_last();
        assert forall|q: int| 0 <= q < init.len() implies #[trigger] init[q].1 != s by {
            assert(init[q] == l[q]);
        }
        assert(l[l.len() - 1].1 != s);
        lemma_last_section_none(init, s);
    }
}

fn find_name(l: &Vec<(String, String)>, n: &str) -> (r: Option<usize>)
    ensures
        r matches Some(p) ==> p < l@.len(),
        match r {
            Some(p) => first_pos(layout_view(l@), n@) == Some(p as int),
            None => first_pos(layout_view(l@), n@) is None,
        },
{
    let ghost v = layout_view(l@);
    let mut i: usize = 0;
    while i < l.len()
        invariant
            v == layout_view(l@),
            i <= l@.len(),
            forall|q: int| 0 <= q < i ==> #[trigger] v[q].0 != n@,
        decreases l@.len() - i,
    {
        if str_eq(l[i].0.as_str(), n) {
            proof {
                lemma_first_pos_at(v, n@, i as int);
            }
            return Some(i);
        }
        i = i + 1;
    }
    proof {
        lemma_first_pos_none(v, n@);
    }
    None
}

fn find_last_section(l: &Vec<(String, String)>, s: &str) -> (r: Option<usize>)
    ensures
        r matches Some(p) ==> p < l@.len(),
        match r {
            Some(p) => last_section_pos(layout_view(l@), s@) == Some(p as int),
            None => last_section_pos(layout_view(l@), s@) is None,
        },
{
    let ghost v = layout_view(l@);
    let mut i: usize = l.len();
    while i > 0
        invariant
            v == layout_view(l@),
            i <= l@.len(),
            forall|q: int| i <= q < v.len() ==> #[trigger] v[q].1 != s@,
        decreases i,
    {
        if str_eq(l[i - 1].1.as_str(), s) {
            proof {
                lemma_last_section_pos(v, s@, i - 1);
            }
            return Some(i - 1);
        }
        i = i - 1;
    }
    proof {
        lemma_last_section_none(v, s@);
    }
    None
}

/// The new (name, section) order after dropping `dragged` at `drop`: the dragged
/// tag adopts the section of wherever it lands, keeping section runs contiguous.
pub fn compute_reorder(list: Vec<(String, String)>, dragged: &str, drop: DropAt) -> (r: Vec<(String, String)>)
    ensures
        layout_view(r@) == reordered(layout_view(list@), dragged@, drop_view(drop)),
{
    let ghost l0 = layout_view(list@);
    let mut list = list;
    let pos = match find_name(&list, dragged) {
        Some(p) => p,
        None => return list,
    };
    proof {
        lemma_first_pos(l0, dragged@);
    }
    let (dname, _) = list.remove(pos);
    let ghost rest = layout_view(list@);
    assert(rest =~= l0.remove(pos as int));
    assert(dname@ == dragged@);
    let (idx, sect): (usize, String) = match drop {
        DropAt::Before(t) => {
            match find_name(&list, t.as_str()) {
                Some(p) => (p, list[p].1.clone()),
                None => (list.len(), String::new()),
            }
        },
        DropAt::Section(s) => match find_last_section(&list, s.as_str()) {
            Some(p) => {
                let n = list.len();
                assert(p < n);
                (p + 1, s)
            },
            None => (list.len(), s),
        },
        DropAt::End => {
            if list.len() == 0 {
                (0, String::new())
            } else {
                let last = list.len() - 1;
                (list.len(), list[last].1.clone())
            }
        },
    };
    proof {
        lemma_first_pos(rest, dragged@);
        let (pi, ps) = landing(rest, drop_view(drop));
        assert(idx == pi && sect@ == ps) by {
            match drop {
                DropAt::Before(t) => {
                    lemma_first_pos(rest, t@);
                },
                DropAt::Section(s) => {
                    if let Some(p) = last_section_pos(rest, s@) {
                        lemma_last_section_range(rest, s@);
                    }
                },
                DropAt::End => {},
            }
        }
    }
    list.insert(idx, (dname, sect));
    assert(layout_view(list@) =~= rest.insert(idx as int, (dragged@, sect@)));
    list
}

proof fn lemma_last_section_range(l: Seq<(Seq<char>, Seq<char>)>, s: Seq<char>)
    ensures
        last_section_pos(l, s) matches Some(p) ==> 0 <= p < l.len(),
    decreases l.len(),
{
    if l.len() > 0 {
        lemma_last_section_range(l.drop_last(), s);
    }
}

/// A drop never adds or loses a tag: the names after it are the names before it,
/// each as often.
pub proof fn lemma_reorder_keeps_names(l: Seq<(Seq<char>, Seq<char>)>, dragged: Seq<char>, d: DropAtView)
    ensures
        reordered(l, dragged, d).map_values(|p: (Seq<char>, Seq<char>)| p.0).to_multiset() =~= l.map_values(
            |p: (Seq<char>, Seq<char>)| p.0,
        ).to_multiset(),
        reordered(l, dragged, d).len() == l.len(),
{
    lemma_first_pos(l, dragged);
    match first_pos(l, dragged) {
        None => {},
        Some(p) => {
            let f = |x: (Seq<char>, Seq<char>)| x.0;
            let rest = l.remove(p);
            let (idx, sect) = landing(rest, d);
            lemma_landing_range(rest, d);
            let out = rest.insert(idx, (dragged, sect));
            let ml = l.map_values(f);
            let mr = rest.map_values(f);
            let mo = out.map_values(f);
            assert(ml =~= l.map_values(|p: (Seq<char>, Seq<char>)| p.0));
            assert(mo =~= reordered(l, dragged, d).map_values(|p: (Seq<char>, Seq<char>)| p.0));
            let a = ml.take(p);
            let b = ml.skip(p + 1);
            let c = mr.take(idx);
            let e = mr.skip(idx);
            let s1 = seq![dragged];
            assert(ml =~= (a + s1) + b);
            assert(mr =~= a + b);
            assert(mo =~= (c + s1) + e);
            assert(mr =~= c + e);
            vstd::seq_lib::lemma_multiset_commutative(a + s1, b);
            vstd::seq_lib::lemma_multiset_commutative(a, s1);
            vstd::seq_lib::lemma_multiset_commutative(a, b);
            vstd::seq_lib::lemma_multiset_commutative(c + s1, e);
            vstd::seq_lib::lemma_multiset_commutative(c, s1);
            vstd::seq_lib::lemma_multiset_commutative(c, e);
            assert(ml.to_multiset() =~= mr.to_multiset().add(s1.to_multiset()));
            assert(mo.to_multiset() =~= mr.to_multiset().add(s1.to_multiset()));
        },
    }
}

proof fn lemma_landing_range(rest: Seq<(Seq<char>, Seq<char>)>, d: DropAtView)
    ensures
        0 <= landing(rest, d).0 <= rest.len(),
{
    match d {
        DropAtView::Before(t) => {
            lemma_first_pos(rest, t);
        },
        DropAtView::Section(s) => {
            lemma_last_section_range(rest, s);
        },
        DropAtView::End => {},
    }
}

/// Resolve a finished drag: onto a section heading -> into that section; onto
/// another tag -> before it; onto itself -> no move; onto nothing -> the end.
pub fn resolve_drop(dragged: &str, over: Option<(String, bool)>) -> (r: Option<DropAt>)
    ensures
        match over {
            Some((t, true)) => r matches Some(DropAt::Section(s)) && s@ == t@,
            Some((t, false)) => if t@ != dragged@ {
                r matches Some(DropAt::Before(b)) && b@ == t@
            } else {
                r is None
            },
            None => r matches Some(DropAt::End),
        },
{
    match over {
        Some((sec, true)) => Some(DropAt::Section(sec)),
        Some((name, false)) => if !str_eq(name.as_str(), dragged) {
            Some(DropAt::Before(name))
        } else {
            None
        },
        None => Some(DropAt::End),
    }
}

proof fn lemma_map_drop_first<A, B>(s: Seq<A>, f: spec_fn(A) -> B)
    requires
        s.len() > 0,
    ensures
        s.drop_first().map_values(f) == s.map_values(f).drop_first(),
{
    assert(s.drop_first().map_values(f) =~= s.map_values(f).drop_first());
}

/// The order of tags within a run under the sort controls: the star first, then
/// (when sorting by interest) by interest, then by name.
pub struct ChipKey {
    pub star: bool,
    pub rank: u8,
    pub name: String,
}

impl SortKey for ChipKey {
    open spec fn key_le(self, other: Self) -> bool {
        (self.star && !other.star) || (self.star == other.star && (self.rank < other.rank || (self.rank
            == other.rank && !seq_lt(other.name@, self.name@))))
    }

    proof fn lemma_key_total(a: Self, b: Self) {
        lemma_seq_le_total(a.name@, b.name@);
    }

    proof fn lemma_key_trans(a: Self, b: Self, c: Self) {
        if a.star == b.star && b.star == c.star && a.rank == b.rank && b.rank == c.rank {
            lemma_seq_le_trans(a.name@, b.name@, c.name@);
        }
    }

    fn le(&self, other: &Self) -> (r: bool) {
        if self.star != other.star {
            return self.star;
        }
        if self.rank != other.rank {
            return self.rank < other.rank;
        }
        let a = chars_of(self.name.as_str());
        let b = chars_of(other.name.as_str());
        !chars_lt(&b, &a)
    }
}

/// Interest rank for the sort: interesting, neutral, anything else.
pub open spec fn interest_order(i: Seq<char>) -> u8 {
    if i == "interesting"@ {
        0
    } else if i == "neutral"@ {
        1
    } else {
        2
    }
}

pub open spec fn chip_key(d: TagDef, by_interest: bool) -> ChipKey {
    ChipKey { star: d.name@ == "star"@, rank: if by_interest { interest_order(d.interest@) } else { 0 }, name: d.name }
}

/// One run, sorted, as (name, section).
pub open spec fn sorted_run(items: Seq<TagDef>, section: Seq<char>, by_interest: bool) -> Seq<(Seq<char>, Seq<char>)> {
    sorted_by_key(items.map_values(|d: TagDef| (chip_key(d, by_interest), d))).map_values(
        |p: (ChipKey, TagDef)| (p.1.name@, section),
    )
}

/// Every run sorted in place, runs kept in order, as (name, section).
pub open spec fn sorted_runs(runs: Seq<(Seq<char>, Seq<TagDef>)>, by_interest: bool) -> Seq<(Seq<char>, Seq<char>)>
    decreases runs.len(),
{
    if runs.len() == 0 {
        Seq::empty()
    } else {
        sorted_runs(runs.drop_last(), by_interest) + sorted_run(runs.last().1, runs.last().0, by_interest)
    }
}

/// The layout the sort controls give a scope's tags (in display order): each
/// section run sorted alphabetically, or by interest then alphabetically, with
/// the star pinned to the front of its run; runs and their order are kept.
pub fn sorted_layout(scoped: Vec<TagDef>, by_interest: bool) -> (r: Vec<(String, String)>)
    ensures
        layout_view(r@) == sorted_runs(spec_runs(scoped@), by_interest),
{
    let runs = section_runs(scoped);
    let ghost rv = runs_view(runs@);
    let mut runs = runs;
    let n = runs.len();
    let mut out: Vec<(String, String)> = Vec::new();
    let mut k: usize = 0;
    assert(rv.take(0).len() == 0);
    while k < n
        invariant
            n == rv.len(),
            k <= n,
            runs_view(runs@) == rv.skip(k as int),
            layout_view(out@) == sorted_runs(rv.take(k as int), by_interest),
        decreases n - k,
    {
        assert(runs_view(runs@).len() == runs@.len());
        assert(runs_view(runs@)[0] == (runs@[0].0@, runs@[0].1@));
        assert(rv.skip(k as int)[0] == rv[k as int]);
        let ghost old_runs = runs@;
        let (section, items) = runs.remove(0);
        assert((section@, items@) == rv[k as int]);
        proof {
            assert(runs@ =~= old_runs.drop_first());
            lemma_map_drop_first(old_runs, |r: (String, Vec<TagDef>)| (r.0@, r.1@));
            assert(rv.skip(k as int).drop_first() =~= rv.skip(k + 1));
        }
        let ghost iv = items@;
        let mut keyed: Vec<(ChipKey, TagDef)> = Vec::new();
        let mut items = items;
        let m = items.len();
        let mut j: usize = 0;
        while j < m
            invariant
                m == iv.len(),
                j <= m,
                items@ == iv.skip(j as int),
                keyed@ == iv.take(j as int).map_values(|d: TagDef| (chip_key(d, by_interest), d)),
            decreases m - j,
        {
            let d = items.remove(0);
            assert(d == iv[j as int]);
            assert(items@ == iv.skip(j + 1));
            let star = str_eq(d.name.as_str(), "star");
            let rank: u8 = if by_interest {
                if str_eq(d.interest.as_str(), "interesting") {
                    0
                } else if str_eq(d.interest.as_str(), "neutral") {
                    1
                } else {
                    2
                }
            } else {
                0
            };
            let key = ChipKey { star, rank, name: d.name.clone() };
            keyed.push((key, d));
            assert(iv.take(j + 1) == iv.take(j as int).push(iv[j as int]));
            assert(keyed@ =~= iv.take(j + 1).map_values(|d: TagDef| (chip_key(d, by_interest), d)));
            j = j + 1;
        }
        assert(iv.take(m as int) == iv);
        assert(keyed@ == iv.map_values(|d: TagDef| (chip_key(d, by_interest), d)));
        let sorted = sort_by_key(keyed);
        let ghost ss = sorted@;
        assert(ss == sorted_by_key(iv.map_values(|d: TagDef| (chip_key(d, by_interest), d))));
        let mut sorted = sorted;
        let mut q: usize = 0;
        let ghost base = layout_view(out@);
        let total = sorted.len();
        while q < total
            invariant
                total == ss.len(),
                q <= ss.len(),
                sorted@ == ss.skip(q as int),
                layout_view(out@) == base + ss.take(q as int).map_values(|p: (ChipKey, TagDef)| (p.1.name@, section@)),
            decreases ss.len() - q,
        {
            let ghost before = out@;
            let e = sorted.remove(0);
            assert(e == ss[q as int]);
            assert(sorted@ =~= ss.skip(q + 1));
            let ghost en = e.1.name@;
            out.push((e.1.name, section.clone()));
            assert(layout_view(out@) =~= layout_view(before).push((en, section@)));
            assert(ss.take(q + 1) == ss.take(q as int).push(ss[q as int]));
            assert(layout_view(out@) =~= base + ss.take(q + 1).map_values(|p: (ChipKey, TagDef)| (p.1.name@, section@)));
            q = q + 1;
        }
        assert(ss.take(ss.len() as int) == ss);
        assert(ss.map_values(|p: (ChipKey, TagDef)| (p.1.name@, section@)) =~= sorted_run(iv, section@, by_interest));
        assert(layout_view(out@) == base + sorted_run(iv, section@, by_interest));
        assert(rv.take(k + 1).drop_last() == rv.take(k as int));
        assert(rv.take(k + 1).last() == rv[k as int]);
        k = k + 1;
    }
    assert(rv.take(n as int) == rv);
    out
}

/// Filing a tag under a section: the label is cleaned; the empty label relabels
/// the tag in place, any other moves it to the end of that section's run (or
/// starts the run at the end).
pub open spec fn filed(l: Seq<(Seq<char>, Seq<char>)>, name: Seq<char>, section: Seq<char>) -> Seq<(Seq<char>, Seq<char>)> {
    let s = section_label(section);
    if s.len() == 0 {
        l.map_values(|p: (Seq<char>, Seq<char>)| if p.0 == name { (p.0, Seq::<char>::empty()) } else { p })
    } else {
        reordered(l, name, DropAtView::Section(s))
    }
}

pub fn section_layout(list: Vec<(String, String)>, name: &str, section: &str) -> (r: Vec<(String, String)>)
    ensures
        layout_view(r@) == filed(layout_view(list@), name@, section@),
{
    let s = sanitize_section(section);
    if chars_of(s.as_str()).len() == 0 {
        let ghost l0 = layout_view(list@);
        let mut list = list;
        let mut out: Vec<(String, String)> = Vec::new();
        let n = list.len();
        let mut i: usize = 0;
        while i < n
            invariant
                n == l0.len(),
                i <= n,
                layout_view(list@) == l0.skip(i as int),
                layout_view(out@) == l0.take(i as int).map_values(
                    |p: (Seq<char>, Seq<char>)| if p.0 == name@ { (p.0, Seq::<char>::empty()) } else { p },
                ),
            decreases n - i,
        {
            let ghost before = out@;
            assert(layout_view(list@).len() == list@.len());
            assert(layout_view(list@)[0] == (list@[0].0@, list@[0].1@));
            assert(l0.skip(i as int)[0] == l0[i as int]);
            let ghost old_list = list@;
            let e = list.remove(0);
            assert((e.0@, e.1@) == l0[i as int]);
            proof {
                assert(list@ =~= old_list.drop_first());
                lemma_map_drop_first(old_list, |p: (String, String)| (p.0@, p.1@));
                assert(l0.skip(i as int).drop_first() =~= l0.skip(i + 1));
            }
            let ghost fe = if e.0@ == name@ { (e.0@, Seq::<char>::empty()) } else { (e.0@, e.1@) };
            if str_eq(e.0.as_str(), name) {
                out.push((e.0, String::new()));
            } else {
                out.push(e);
            }
            assert(layout_view(out@) =~= layout_view(before).push(fe));
            assert(l0.take(i + 1) == l0.take(i as int).push(l0[i as int]));
            assert(layout_view(out@) =~= l0.take(i + 1).map_values(
                |p: (Seq<char>, Seq<char>)| if p.0 == name@ { (p.0, Seq::<char>::empty()) } else { p },
            ));
            i = i + 1;
        }
        assert(l0.take(n as int) == l0);
        out
    } else {
        compute_reorder(list, name, DropAt::Section(s))
    }
}

/// The first tag named `name`, if any.
pub open spec fn tag_named(tags: Seq<TagDef>, name: Seq<char>) -> Option<TagDef>
    decreases tags.len(),
{
    if tags.len() == 0 {
        None
    } else if tags[0].name@ == name {
        Some(tags[0])
    } else {
        tag_named(tags.drop_first(), name)
    }
}

fn find_tag(tags: &Vec<TagDef>, name: &str) -> (r: Option<usize>)
    ensures
        match r {
            Some(i) => i < tags@.len() && tag_named(tags@, name@) == Some(tags@[i as int]),
            None => tag_named(tags@, name@) is None,
        },
{
    let mut i: usize = 0;
    assert(tags@.skip(0) == tags@);
    while i < tags.len()
        invariant
            i <= tags@.len(),
            tag_named(tags@, name@) == tag_named(tags@.skip(i as int), name@),
        decreases tags@.len() - i,
    {
        assert(tags@.skip(i as int)[0] == tags@[i as int]);
        if str_eq(tags[i].name.as_str(), name) {
            return Some(i);
        }
        assert(tags@.skip(i as int).drop_first() == tags@.skip(i + 1));
        i = i + 1;
    }
    None
}

/// A drag-drop within a scope: ignored (`None`) unless the dragged tag is in that
/// scope; otherwise the scope's new layout.
pub fn drop_layout(tags: &Vec<TagDef>, is_word: bool, dragged: &str, drop: DropAt) -> (r: Option<Vec<(String, String)>>)
    ensures
        match tag_named(tags@, dragged@) {
            Some(d) => if in_scope(d, is_word) {
                r matches Some(l) && layout_view(l@) == reordered(scope_layout_of(tags@, is_word), dragged@, drop_view(drop))
            } else {
                r is None
            },
            None => r is None,
        },
{
    match find_tag(tags, dragged) {
        Some(i) => {
            if str_eq(tags[i].scope.as_str(), "word") != is_word {
                return None;
            }
            let list = scope_layout(tags, is_word);
            Some(compute_reorder(list, dragged, drop))
        },
        None => None,
    }
}

/// A comment cut to `n` characters, with an ellipsis when it was longer ("" when
/// there is none).
pub open spec fn short_of(s: Option<Seq<char>>, n: nat) -> Seq<char> {
    match s {
        None => Seq::empty(),
        Some(v) => if v.len() > n {
            v.take(n as int) + "…"@
        } else {
            v
        },
    }
}

pub fn short(s: &Option<String>, n: usize) -> (r: String)
    ensures
        r@ == short_of(match s {
            Some(v) => Some(v@),
            None => None,
        }, n as nat),
{
    match s {
        None => String::new(),
        Some(v) => {
            let c = chars_of(v.as_str());
            if c.len() > n {
                let mut t: Vec<char> = Vec::new();
                let mut i: usize = 0;
                while i < n
                    invariant
                        c@.len() > n,
                        i <= n,
                        t@ == c@.take(i as int),
                    decreases n - i,
                {
                    t.push(c[i]);
                    assert(c@.take(i + 1) == c@.take(i as int).push(c@[i as int]));
                    i = i + 1;
                }
                let mut r = string_of(&t);
                push_str(&mut r, "…");
                r
            } else {
                v.clone()
            }
        },
    }
}

/// The toast line for a tag: its name, and its comment when that has text.
pub open spec fn toast_line(name: Seq<char>, comment: Option<Seq<char>>) -> Seq<char> {
    match comment {
        Some(c) => if trim(c).len() > 0 {
            name + " — "@ + c
        } else {
            name
        },
        None => name,
    }
}

pub fn toast_text(name: &str, comment: Option<&str>) -> (r: String)
    ensures
        r@ == toast_line(name@, match comment {
            Some(c) => Some(c@),
            None => None,
        }),
{
    match comment {
        Some(c) => {
            if trim_str(c).len() > 0 {
                let mut r = name.to_owned();
                push_str(&mut r, " — ");
                push_str(&mut r, c);
                r
            } else {
                name.to_owned()
            }
        },
        None => name.to_owned(),
    }
}

/// The toast's message and the generation of the latest show.
pub struct ToastState {
    pub msg: Option<String>,
    pub generation: u32,
}

impl ToastState {
    pub fn new() -> (r: Self)
        ensures
            r.msg is None,
            r.generation == 0,
    {
        ToastState { msg: None, generation: 0 }
    }

    /// Show `text` (nothing for blank text): a new generation, whose number is
    /// returned for the dismiss timer.
    pub fn show(&mut self, text: String) -> (g: Option<u32>)
        ensures
            trim(text@).len() == 0 ==> g is None && *final(self) == *old(self),
            trim(text@).len() > 0 ==> {
                &&& g == Some(final(self).generation)
                &&& final(self).generation == old(self).generation.wrapping_add(1)
                &&& final(self).msg == Some(text)
            },
    {
        if trim_str(text.as_str()).len() == 0 {
            return None;
        }
        self.generation = self.generation.wrapping_add(1);
        self.msg = Some(text);
        Some(self.generation)
    }

    /// The dismiss timer of generation `g` fired: the message goes only if no
    /// later show happened.
    pub fn expire(&mut self, g: u32)
        ensures
            final(self).generation == old(self).generation,
            final(self).msg == if g == old(self).generation {
                None
            } else {
                old(self).msg
            },
    {
        if self.generation == g {
            self.msg = None;
        }
    }
}

/// A later show outlives the earlier show's timer: after showing `a` and then
/// `b`, the first show's expiry leaves `b` on screen (so long as fewer than 2^32
/// shows separate them, the generations differ).
pub proof fn lemma_later_show_survives(g0: u32)
    ensures
        g0.wrapping_add(1) != g0.wrapping_add(1).wrapping_add(1),
{
    assert(g0.wrapping_add(1) != g0.wrapping_add(1).wrapping_add(1)) by (bit_vector);
}

/// The section the new layout gives tag name `n`: that of the last pair naming it.
pub open spec fn listed_section(list: Seq<(String, String)>, n: Seq<char>) -> Option<String>
    decreases list.len(),
{
    if list.len() == 0 {
        None
    } else if list.last().0@ == n {
        Some(list.last().1)
    } else {
        listed_section(list.drop_last(), n)
    }
}

/// A tag with the section the new layout lists for it (unchanged when unlisted).
pub open spec fn resectioned(d: TagDef, list: Seq<(String, String)>) -> TagDef {
    match listed_section(list, d.name@) {
        Some(s) => TagDef { section: s, ..d },
        None => d,
    }
}

/// How many of the first `i` tags belong to the scope: the scope slot of tag `i`.
pub open spec fn scope_rank(tags: Seq<TagDef>, is_word: bool, i: int) -> nat {
    tags.take(i).filter(|d: TagDef| in_scope(d, is_word)).len()
}

/// The last tag of the scope named `n`.
pub open spec fn last_named(tags: Seq<TagDef>, is_word: bool, n: Seq<char>) -> Option<TagDef>
    decreases tags.len(),
{
    if tags.len() == 0 {
        None
    } else if in_scope(tags.last(), is_word) && tags.last().name@ == n {
        Some(tags.last())
    } else {
        last_named(tags.drop_last(), is_word, n)
    }
}

/// The tags after a scope's new (name, section) layout is applied: every listed
/// tag takes its listed section, then the scope's slots, in order, take the tags
/// the layout names, in order (a slot whose name matches no tag of the scope, or
/// that the layout does not reach, keeps its tag).
pub open spec fn applied_layout(tags: Seq<TagDef>, is_word: bool, list: Seq<(String, String)>) -> Seq<TagDef> {
    let v = tags.map_values(|d: TagDef| resectioned(d, list));
    Seq::new(
        v.len(),
        |i: int|
            {
                let t = scope_rank(v, is_word, i);
                if in_scope(v[i], is_word) && t < list.len() && last_named(v, is_word, list[t as int].0@) is Some {
                    last_named(v, is_word, list[t as int].0@)->0
                } else {
                    v[i]
                }
            },
    )
}

/// A tag copied field by field.
fn copy_def(d: &TagDef) -> (r: TagDef)
    ensures
        r == *d,
{
    TagDef {
        name: d.name.clone(),
        comment: match &d.comment {
            Some(c) => Some(c.clone()),
            None => None,
        },
        builtin: d.builtin,
        scope: d.scope.clone(),
        interest: d.interest.clone(),
        sort: d.sort,
        section: d.section.clone(),
        kind: d.kind.clone(),
        scale_max: d.scale_max,
        scale_labels: match &d.scale_labels {
            Some(c) => Some(c.clone()),
            None => None,
        },
    }
}

/// The section `list` gives name `n`, if any.
fn find_listed_section(list: &Vec<(String, String)>, n: &str) -> (r: Option<String>)
    ensures
        r == listed_section(list@, n@),
{
    let mut found: Option<String> = None;
    let mut k: usize = 0;
    while k < list.len()
        invariant
            k <= list@.len(),
            found == listed_section(list@.take(k as int), n@),
        decreases list@.len() - k,
    {
        assert(list@.take(k + 1).drop_last() == list@.take(k as int));
        assert(list@.take(k + 1).last() == list@[k as int]);
        if str_eq(list[k].0.as_str(), n) {
            found = Some(list[k].1.clone());
        }
        k = k + 1;
    }
    assert(list@.take(list@.len() as int) == list@);
    found
}

/// Where the last tag of the scope named `n` stands.
fn find_last_named(tags: &Vec<TagDef>, is_word: bool, n: &str) -> (r: Option<usize>)
    ensures
        match r {
            Some(j) => j < tags@.len() && last_named(tags@, is_word, n@) == Some(tags@[j as int]),
            None => last_named(tags@, is_word, n@) is None,
        },
{
    let mut found: Option<usize> = None;
    let mut k: usize = 0;
    while k < tags.len()
        invariant
            k <= tags@.len(),
            match found {
                Some(j) => j < k && last_named(tags@.take(k as int), is_word, n@) == Some(tags@[j as int]),
                None => last_named(tags@.take(k as int), is_word, n@) is None,
            },
        decreases tags@.len() - k,
    {
        assert(tags@.take(k + 1).drop_last() == tags@.take(k as int));
        assert(tags@.take(k + 1).last() == tags@[k as int]);
        if (str_eq(tags[k].scope.as_str(), "word") == is_word) && str_eq(tags[k].name.as_str(), n) {
            found = Some(k);
        }
        k = k + 1;
    }
    assert(tags@.take(tags@.len() as int) == tags@);
    found
}

/// Apply a scope's new (name, section) order to the tags: each listed tag takes
/// its listed section, and the scope's slots are refilled in the listed order.
pub fn apply_layout(tags: &mut Vec<TagDef>, is_word: bool, new_list: &Vec<(String, String)>)
    ensures
        final(tags)@ == applied_layout(old(tags)@, is_word, new_list@),
{
    let ghost list = new_list@;
    let ghost orig = tags@;
    let n = tags.len();
    let mut v: Vec<TagDef> = Vec::new();
    let mut i: usize = 0;
    while i < n
        invariant
            n == orig.len(),
            tags@ == orig,
            list == new_list@,
            i <= n,
            v@ == orig.take(i as int).map_values(|d: TagDef| resectioned(d, list)),
        decreases n - i,
    {
        let mut d = copy_def(&tags[i]);
        let found = find_listed_section(new_list, tags[i].name.as_str());
        match found {
            Some(s) => {
                let ghost gs = s;
                d.section = s;
                assert(d == TagDef { section: gs, ..orig[i as int] });
            },
            None => {},
        }
        assert(d == resectioned(orig[i as int], list));
        v.push(d);
        assert(orig.take(i + 1).map_values(|d: TagDef| resectioned(d, list)) =~= orig.take(i as int).map_values(
            |d: TagDef| resectioned(d, list),
        ).push(resectioned(orig[i as int], list)));
        i = i + 1;
    }
    assert(orig.take(n as int) == orig);
    let ghost rv = v@;
    let ghost keep = |d: TagDef| in_scope(d, is_word);
    let ghost target = applied_layout(orig, is_word, list);
    assert(rv == orig.map_values(|d: TagDef| resectioned(d, list)));
    let mut out: Vec<TagDef> = Vec::new();
    let mut t: usize = 0;
    let mut k: usize = 0;
    assert(rv.take(0).filter(keep) =~= Seq::<TagDef>::empty());
    while k < n
        invariant
            n == rv.len(),
            v@ == rv,
            list == new_list@,
            keep == (|d: TagDef| in_scope(d, is_word)),
            target == applied_layout(orig, is_word, list),
            rv == orig.map_values(|d: TagDef| resectioned(d, list)),
            target.len() == n,
            k <= n,
            t == scope_rank(rv, is_word, k as int),
            out@ == target.take(k as int),
        decreases n - k,
    {
        proof {
            assert(rv.take(k + 1) == rv.take(k as int).push(rv[k as int]));
            rv.take(k as int).lemma_filter_push(rv[k as int], keep);
            assert(rv.take(k as int).filter(keep).len() <= k) by {
                rv.take(k as int).lemma_filter_len(keep);
            }
        }
        let mut d = copy_def(&v[k]);
        if str_eq(v[k].scope.as_str(), "word") == is_word {
            if t < new_list.len() {
                match find_last_named(&v, is_word, new_list[t].0.as_str()) {
                    Some(j) => {
                        d = copy_def(&v[j]);
                    },
                    None => {},
                }
            }
            t = t + 1;
        }
        assert(d == target[k as int]);
        out.push(d);
        assert(out@ =~= target.take(k + 1));
        k = k + 1;
    }
    assert(target.take(n as int) == target);
    *tags = out;
}

/// The names of a layout, in order.
pub open spec fn layout_names(l: Seq<(Seq<char>, Seq<char>)>) -> Seq<Seq<char>> {
    l.map_values(|p: (Seq<char>, Seq<char>)| p.0)
}

/// The names of the scope's tags, in order.
pub open spec fn scope_names(tags: Seq<TagDef>, is_word: bool) -> Seq<Seq<char>> {
    tags.filter(|d: TagDef| in_scope(d, is_word)).map_values(|d: TagDef| d.name@)
}

proof fn lemma_rank_mono(v: Seq<TagDef>, is_word: bool, i: int, j: int)
    requires
        0 <= i <= j <= v.len(),
    ensures
        scope_rank(v, is_word, i) <= scope_rank(v, is_word, j),
    decreases j - i,
{
    if i < j {
        lemma_rank_mono(v, is_word, i, j - 1);
        let keep = |d: TagDef| in_scope(d, is_word);
        assert(v.take(j) == v.take(j - 1).push(v[j - 1]));
        v.take(j - 1).lemma_filter_push(v[j - 1], keep);
    }
}

proof fn lemma_last_named_found(s: Seq<TagDef>, is_word: bool, n: Seq<char>)
    ensures
        last_named(s, is_word, n) matches Some(d) ==> in_scope(d, is_word) && d.name@ == n && s.contains(d),
        scope_names(s, is_word).contains(n) ==> last_named(s, is_word, n) is Some,
    decreases s.len(),
{
    if s.len() > 0 {
        let keep = |d: TagDef| in_scope(d, is_word);
        let pre = s.drop_last();
        lemma_last_named_found(pre, is_word, n);
        assert(s == pre.push(s.last()));
        pre.lemma_filter_push(s.last(), keep);
        if let Some(d) = last_named(pre, is_word, n) {
            let j = choose|j: int| 0 <= j < pre.len() && pre[j] == d;
            assert(s[j] == d);
        }
        if in_scope(s.last(), is_word) {
            assert(scope_names(s, is_word) == scope_names(pre, is_word).push(s.last().name@));
        } else {
            assert(scope_names(s, is_word) == scope_names(pre, is_word));
        }
        if last_named(s, is_word, n) is Some {
        } else if scope_names(s, is_word).contains(n) {
            let q = choose|q: int| 0 <= q < scope_names(s, is_word).len() && scope_names(s, is_word)[q] == n;
            if q < scope_names(pre, is_word).len() {
                assert(scope_names(pre, is_word)[q] == n);
            }
        }
    } else {
        assert(s.filter(|d: TagDef| in_scope(d, is_word)) =~= Seq::<TagDef>::empty());
    }
}

proof fn lemma_listed_section_at(list: Seq<(String, String)>, t: int)
    requires
        0 <= t < list.len(),
        layout_names(layout_view(list)).no_duplicates(),
    ensures
        listed_section(list, list[t].0@) == Some(list[t].1),
    decreases list.len(),
{
    if t < list.len() - 1 {
        let pre = list.drop_last();
        assert(layout_names(layout_view(list))[t] == list[t].0@);
        assert(layout_names(layout_view(list))[list.len() - 1] == list.last().0@);
        assert(layout_names(layout_view(pre)) =~= layout_names(layout_view(list)).drop_last());
        lemma_listed_section_at(pre, t);
    }
}

proof fn lemma_resectioned_names(s: Seq<TagDef>, is_word: bool, list: Seq<(String, String)>)
    ensures
        scope_names(s.map_values(|d: TagDef| resectioned(d, list)), is_word) == scope_names(s, is_word),
        forall|i: int| 0 <= i < s.len() ==> in_scope(#[trigger] resectioned(s[i], list), is_word) == in_scope(s[i], is_word),
    decreases s.len(),
{
    let keep = |d: TagDef| in_scope(d, is_word);
    let v = s.map_values(|d: TagDef| resectioned(d, list));
    if s.len() > 0 {
        let pre = s.drop_last();
        let vpre = pre.map_values(|d: TagDef| resectioned(d, list));
        lemma_resectioned_names(pre, is_word, list);
        assert(s == pre.push(s.last()));
        assert(v == vpre.push(resectioned(s.last(), list)));
        pre.lemma_filter_push(s.last(), keep);
        vpre.lemma_filter_push(resectioned(s.last(), list), keep);
        assert forall|i: int| 0 <= i < s.len() implies in_scope(#[trigger] resectioned(s[i], list), is_word) == in_scope(s[i], is_word) by {
            if i < pre.len() {
                assert(s[i] == pre[i]);
            }
        }
        let r = resectioned(s.last(), list);
        assert(r.name == s.last().name && r.scope == s.last().scope);
        if in_scope(s.last(), is_word) {
            assert(scope_names(s, is_word) =~= scope_names(pre, is_word).push(s.last().name@));
            assert(scope_names(v, is_word) =~= scope_names(vpre, is_word).push(r.name@));
        } else {
            assert(scope_names(s, is_word) =~= scope_names(pre, is_word));
            assert(scope_names(v, is_word) =~= scope_names(vpre, is_word));
        }
    } else {
        assert(s.filter(keep) =~= Seq::<TagDef>::empty());
        assert(v.filter(keep) =~= Seq::<TagDef>::empty());
    }
}

/// The facts both halves of the read-back proof start from.
proof fn lemma_read_back_setup(tags: Seq<TagDef>, is_word: bool, list: Seq<(String, String)>)
    requires
        layout_names(layout_view(list)).to_multiset() == layout_names(scope_layout_of(tags, is_word)).to_multiset(),
    ensures
        scope_rank(tags.map_values(|d: TagDef| resectioned(d, list)), is_word, tags.len() as int) == list.len(),
        scope_names(tags.map_values(|d: TagDef| resectioned(d, list)), is_word) == scope_names(tags, is_word),
        layout_names(layout_view(list)).to_multiset() == scope_names(tags, is_word).to_multiset(),
        forall|k: int| 0 <= k < tags.len() ==> in_scope(#[trigger] resectioned(tags[k], list), is_word) == in_scope(tags[k], is_word),
{
    broadcast use vstd::seq_lib::group_to_multiset_ensures;

    let keep = |d: TagDef| in_scope(d, is_word);
    let v = tags.map_values(|d: TagDef| resectioned(d, list));
    lemma_resectioned_names(tags, is_word, list);
    assert(layout_names(scope_layout_of(tags, is_word)) =~= scope_names(tags, is_word));
    assert(v.take(tags.len() as int) == v);
    assert(scope_names(v, is_word).len() == v.filter(keep).len());
    assert(layout_names(layout_view(list)).len() == list.len());
    assert(layout_names(layout_view(list)).to_multiset().len() == layout_names(layout_view(list)).len());
    assert(scope_names(tags, is_word).to_multiset().len() == scope_names(tags, is_word).len());
}

/// The read-back holds of every prefix: the first `i` tags after the apply show
/// the layout's first (scope slots among them) entries.
proof fn lemma_read_back_prefix(tags: Seq<TagDef>, is_word: bool, list: Seq<(String, String)>, i: int)
    requires
        0 <= i <= tags.len(),
        layout_names(layout_view(list)).no_duplicates(),
        layout_names(layout_view(list)).to_multiset() == layout_names(scope_layout_of(tags, is_word)).to_multiset(),
    ensures
        applied_layout(tags, is_word, list).take(i).filter(|d: TagDef| in_scope(d, is_word)).map_values(
            |d: TagDef| (d.name@, d.section@),
        ) == layout_view(list).take(scope_rank(tags.map_values(|d: TagDef| resectioned(d, list)), is_word, i) as int),
    decreases i,
{
    broadcast use vstd::seq_lib::group_to_multiset_ensures;

    let keep = |d: TagDef| in_scope(d, is_word);
    let v = tags.map_values(|d: TagDef| resectioned(d, list));
    let o = applied_layout(tags, is_word, list);
    let lv = layout_view(list);
    let n = tags.len() as int;
    if i == 0 {
        assert(o.take(0).filter(keep) =~= Seq::<TagDef>::empty());
        assert(v.take(0).filter(keep) =~= Seq::<TagDef>::empty());
        assert(lv.take(0) =~= Seq::<(Seq<char>, Seq<char>)>::empty());
    } else {
        let h = i - 1;
        lemma_read_back_prefix(tags, is_word, list, h);
        lemma_read_back_setup(tags, is_word, list);
        let t = scope_rank(v, is_word, h);
        assert(v.take(h + 1) == v.take(h).push(v[h]));
        assert(o.take(h + 1) == o.take(h).push(o[h]));
        v.take(h).lemma_filter_push(v[h], keep);
        o.take(h).lemma_filter_push(o[h], keep);
        lemma_rank_mono(v, is_word, h + 1, n);
        if in_scope(v[h], is_word) {
            assert(t < lv.len());
            let nm = list[t as int].0@;
            assert(layout_names(lv)[t as int] == nm);
            assert(layout_names(lv).contains(nm));
            assert(layout_names(lv).to_multiset().count(nm) > 0);
            assert(scope_names(tags, is_word).to_multiset().count(nm) > 0);
            assert(scope_names(tags, is_word).contains(nm));
            assert(scope_names(v, is_word).contains(nm));
            lemma_last_named_found(v, is_word, nm);
            let td = last_named(v, is_word, nm)->0;
            let j = choose|j: int| 0 <= j < v.len() && v[j] == td;
            assert(v[j] == resectioned(tags[j], list));
            assert(tags[j].name@ == nm);
            lemma_listed_section_at(list, t as int);
            assert(td.section@ == lv[t as int].1);
            assert(o[h] == td);
            assert(lv.take(t + 1 as int) == lv.take(t as int).push(lv[t as int]));
        } else {
            assert(o[h] == v[h]);
        }
    }
}

/// Applying a layout that lists every tag of the scope once (as a drop or the sort
/// controls produce) and reading the scope's layout back gives that layout: its
/// order and its sections.
pub proof fn lemma_applied_layout_reads_back(tags: Seq<TagDef>, is_word: bool, list: Seq<(String, String)>)
    requires
        layout_names(layout_view(list)).no_duplicates(),
        layout_names(layout_view(list)).to_multiset() == layout_names(scope_layout_of(tags, is_word)).to_multiset(),
    ensures
        scope_layout_of(applied_layout(tags, is_word, list), is_word) == layout_view(list),
{
    let o = applied_layout(tags, is_word, list);
    let lv = layout_view(list);
    lemma_read_back_setup(tags, is_word, list);
    lemma_read_back_prefix(tags, is_word, list, tags.len() as int);
    assert(o.take(tags.len() as int) == o);
    assert(lv.take(lv.len() as int) == lv);
}

} // verus!
