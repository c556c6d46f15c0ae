//! How interesting a word is, from the tags applied to it: every applied tag
//! lends its own interest and that of its existing ancestors (a child implies its
//! parent), and interesting beats uninteresting beats neutral. Plus the per-word
//! store of applied tag values (absent = never considered, 0 = considered and
//! declined, >= 1 = applied, the level for scale tags).

use vstd::prelude::*;
use crate::tags::{TagDef, ancestor, ancestor_names, ancestors, is_ancestor};
use crate::text::{
    chars_lt, chars_of, lemma_seq_lt_asym, lemma_seq_lt_irrefl, lemma_seq_lt_total,
    lemma_seq_lt_trans, seq_lt, starts_with, str_eq, str_starts_with,
};

verus! {

/// Interest class of a tag (drives favourite vs note vs negative).
#[derive(Clone, Copy, Debug, PartialEq, Eq, Structural)]
pub enum Interest {
    Interesting,
    Neutral,
    Uninteresting,
}

/// The interest a stored interest word names: "uninteresting", "neutral", and
/// anything else counts as interesting.
pub open spec fn interest_named(w: Seq<char>) -> Interest {
    if w == "uninteresting"@ {
        Interest::Uninteresting
    } else if w == "neutral"@ {
        Interest::Neutral
    } else {
        Interest::Interesting
    }
}

fn interest_of(w: &str) -> (i: Interest)
    ensures
        i == interest_named(w@),
{
    if str_eq(w, "uninteresting") {
        Interest::Uninteresting
    } else if str_eq(w, "neutral") {
        Interest::Neutral
    } else {
        Interest::Interesting
    }
}

/// The interest of the first definition named `name`, if there is one.
pub open spec fn defined_interest(tags: Seq<TagDef>, name: Seq<char>) -> Option<Interest>
    decreases tags.len(),
{
    if tags.len() == 0 {
        None
    } else if tags[0].name@ == name {
        Some(interest_named(tags[0].interest@))
    } else {
        defined_interest(tags.drop_first(), name)
    }
}

fn lookup_interest(tags: &Vec<TagDef>, name: &str) -> (r: Option<Interest>)
    ensures
        r == defined_interest(tags@, name@),
{
    let mut i: usize = 0;
    assert(tags@.skip(0) == tags@);
    while i < tags.len()
        invariant
            i <= tags.len(),
            defined_interest(tags@, name@) == defined_interest(tags@.skip(i as int), name@),
        decreases tags.len() - i,
    {
        assert(tags@.skip(i as int)[0] == tags@[i as int]);
        if str_eq(tags[i].name.as_str(), name) {
            return Some(interest_of(tags[i].interest.as_str()));
        }
        assert(tags@.skip(i as int).drop_first() == tags@.skip(i + 1));
        i = i + 1;
    }
    None
}

/// Interest class of a tag: `pick:` contextual tags are neutral; a name not in the
/// collection counts as interesting.
pub open spec fn interest_of_tag(tags: Seq<TagDef>, name: Seq<char>) -> Interest {
    if starts_with(name, "pick:"@) {
        Interest::Neutral
    } else {
        match defined_interest(tags, name) {
            Some(i) => i,
            None => Interest::Interesting,
        }
    }
}

pub fn tag_interest(tags: &Vec<TagDef>, name: &str) -> (i: Interest)
    ensures
        i == interest_of_tag(tags@, name@),
{
    if str_starts_with(name, "pick:") {
        return Interest::Neutral;
    }
    match lookup_interest(tags, name) {
        Some(i) => i,
        None => Interest::Interesting,
    }
}

/// Interest of a tag only if it's a real member of the collection (`pick:` tags
/// and unknown names contribute nothing).
pub open spec fn known_interest_of(tags: Seq<TagDef>, name: Seq<char>) -> Option<Interest> {
    if starts_with(name, "pick:"@) {
        None
    } else {
        defined_interest(tags, name)
    }
}

pub fn known_interest(tags: &Vec<TagDef>, name: &str) -> (r: Option<Interest>)
    ensures
        r == known_interest_of(tags@, name@),
{
    if str_starts_with(name, "pick:") {
        return None;
    }
    lookup_interest(tags, name)
}

/// One fold step: interesting wins over uninteresting wins over neutral.
pub open spec fn folded(acc: Option<Interest>, i: Interest) -> Option<Interest> {
    match i {
        Interest::Interesting => Some(Interest::Interesting),
        Interest::Uninteresting => if acc != Some(Interest::Interesting) {
            Some(Interest::Uninteresting)
        } else {
            acc
        },
        Interest::Neutral => if acc is None {
            Some(Interest::Neutral)
        } else {
            acc
        },
    }
}

/// Fold one tag's interest into the running effective interest: interesting wins
/// over uninteresting wins over neutral.
pub fn fold_interest(acc: &mut Option<Interest>, i: Interest)
    ensures
        *final(acc) == folded(*old(acc), i),
{
    match i {
        Interest::Interesting => *acc = Some(Interest::Interesting),
        Interest::Uninteresting => {
            if !matches!(*acc, Some(Interest::Interesting)) {
                *acc = Some(Interest::Uninteresting);
            }
        },
        Interest::Neutral => {
            if acc.is_none() {
                *acc = Some(Interest::Neutral);
            }
        },
    }
}

/// The effective interest when the flags say which classes are present:
/// interesting wins over uninteresting wins over neutral.
pub open spec fn level_of(interesting: bool, uninteresting: bool, neutral: bool) -> Option<Interest> {
    if interesting {
        Some(Interest::Interesting)
    } else if uninteresting {
        Some(Interest::Uninteresting)
    } else if neutral {
        Some(Interest::Neutral)
    } else {
        None
    }
}

/// Folding one more contribution into a level is setting its flag.
pub proof fn lemma_fold_level(a: bool, b: bool, c: bool, x: Interest)
    ensures
        folded(level_of(a, b, c), x) == level_of(
            a || x == Interest::Interesting,
            b || x == Interest::Uninteresting,
            c || x == Interest::Neutral,
        ),
{
}

/// The order in which contributions are folded never matters.
pub proof fn lemma_fold_commutes(acc: Option<Interest>, x: Interest, y: Interest)
    ensures
        folded(folded(acc, x), y) == folded(folded(acc, y), x),
{
}

/// Folding the same contribution twice changes nothing.
pub proof fn lemma_fold_idempotent(acc: Option<Interest>, x: Interest)
    ensures
        folded(folded(acc, x), x) == folded(acc, x),
{
}

/// The applied tags of one word: tag name -> tri-state value, names distinct.
pub struct AppliedTags {
    entries: Vec<(String, i32)>,
}

pub open spec fn names_distinct(s: Seq<(String, i32)>) -> bool {
    forall|i: int, j: int| 0 <= i < s.len() && 0 <= j < s.len() && i != j ==> #[trigger] s[i].0@ != #[trigger] s[j].0@
}

/// The map a list of (name, value) pairs describes (a later pair wins).
pub open spec fn pairs_map(s: Seq<(String, i32)>) -> Map<Seq<char>, i32>
    decreases s.len(),
{
    if s.len() == 0 {
        Map::empty()
    } else {
        pairs_map(s.drop_last()).insert(s.last().0@, s.last().1)
    }
}

/// Looking a tag up: its value, or `None` when never considered.
pub open spec fn lookup(m: Map<Seq<char>, i32>, tag: Seq<char>) -> Option<i32> {
    if m.contains_key(tag) {
        Some(m[tag])
    } else {
        None
    }
}

/// Storing a value (`Some`) or forgetting the tag (`None`).
pub open spec fn stored(m: Map<Seq<char>, i32>, tag: Seq<char>, value: Option<i32>) -> Map<Seq<char>, i32> {
    match value {
        Some(v) => m.insert(tag, v),
        None => m.remove(tag),
    }
}

impl View for AppliedTags {
    type V = Map<Seq<char>, i32>;

    closed spec fn view(&self) -> Map<Seq<char>, i32> {
        pairs_map(self.entries@)
    }
}

proof fn lemma_pairs_map_index(s: Seq<(String, i32)>, k: int)
    requires
        names_distinct(s),
        0 <= k < s.len(),
    ensures
        pairs_map(s).contains_key(s[k].0@),
        pairs_map(s)[s[k].0@] == s[k].1,
    decreases s.len(),
{
    if k < s.len() - 1 {
        let init = s.drop_last();
        assert(names_distinct(init)) by {
            assert forall|i: int, j: int| 0 <= i < init.len() && 0 <= j < init.len() && i != j implies #[trigger] init[i].0@ != #[trigger] init[j].0@ by {
                assert(init[i] == s[i] && init[j] == s[j]);
            }
        }
        assert(init[k] == s[k]);
        lemma_pairs_map_index(init, k);
        assert(s.last().0@ != s[k].0@) by {
            assert(s[s.len() - 1] == s.last());
        }
    }
}

proof fn lemma_pairs_map_keys(s: Seq<(String, i32)>, tag: Seq<char>)
    ensures
        pairs_map(s).contains_key(tag) <==> exists|k: int| 0 <= k < s.len() && s[k].0@ == tag,
    decreases s.len(),
{
    if s.len() > 0 {
        lemma_pairs_map_keys(s.drop_last(), tag);
        if pairs_map(s).contains_key(tag) && s.last().0@ != tag {
            let k = choose|k: int| 0 <= k < s.len() - 1 && s.drop_last()[k].0@ == tag;
            assert(s[k] == s.drop_last()[k]);
        }
        if exists|k: int| 0 <= k < s.len() && s[k].0@ == tag {
            let k = choose|k: int| 0 <= k < s.len() && s[k].0@ == tag;
            if k < s.len() - 1 {
                assert(s.drop_last()[k] == s[k]);
            }
        }
    }
}

impl AppliedTags {
    #[verifier::type_invariant]
    closed spec fn inv(self) -> bool {
        names_distinct(self.entries@)
    }

    /// The (name, value) pairs in storage order.
    pub closed spec fn pairs(self) -> Seq<(String, i32)> {
        self.entries@
    }

    /// No tags considered yet.
    pub fn new() -> (r: Self)
        ensures
            r@ == Map::<Seq<char>, i32>::empty(),
            r.pairs().len() == 0,
    {
        AppliedTags { entries: Vec::new() }
    }

    fn position(&self, tag: &str) -> (r: Option<usize>)
        ensures
            r matches Some(k) ==> k < self.entries@.len() && self.entries@[k as int].0@ == tag@,
            r is None ==> forall|k: int| 0 <= k < self.entries@.len() ==> self.entries@[k].0@ != tag@,
    {
        let mut i: usize = 0;
        while i < self.entries.len()
            invariant
                i <= self.entries.len(),
                forall|k: int| 0 <= k < i ==> self.entries@[k].0@ != tag@,
            decreases self.entries.len() - i,
        {
            if str_eq(self.entries[i].0.as_str(), tag) {
                return Some(i);
            }
            i = i + 1;
        }
        None
    }

    /// The stored tri-state value for a tag: `None` = never considered, `Some(0)` =
    /// considered and declined, `Some(n >= 1)` = applied.
    pub fn tag_value(&self, tag: &str) -> (r: Option<i32>)
        ensures
            r == lookup(self@, tag@),
    {
        proof {
            use_type_invariant(self);
            lemma_pairs_map_keys(self.entries@, tag@);
        }
        match self.position(tag) {
            Some(k) => {
                proof {
                    lemma_pairs_map_index(self.entries@, k as int);
                }
                Some(self.entries[k].1)
            },
            None => None,
        }
    }

    /// Store a value for a tag (`Some`) or forget it (`None`).
    pub fn set(&mut self, tag: &str, value: Option<i32>)
        ensures
            final(self)@ == stored(old(self)@, tag@, value),
    {
        proof {
            use_type_invariant(&*self);
        }
        let ghost s = self.entries@;
        let pos = self.position(tag);
        let mut v: Vec<(String, i32)> = Vec::new();
        std::mem::swap(&mut v, &mut self.entries);
        assert(v@ == s);
        match (pos, value) {
            (Some(k), Some(val)) => {
                v.set(k, (tag.to_owned(), val));
                proof {
                    lemma_pairs_map_update(s, k as int, tag@, val, v@[k as int].0);
                }
            },
            (Some(k), None) => {
                v.remove(k);
                proof {
                    lemma_pairs_map_remove(s, k as int, tag@);
                }
            },
            (None, Some(val)) => {
                v.push((tag.to_owned(), val));
                proof {
                    lemma_pairs_map_push_new(s, tag@, val, v@[s.len() as int].0);
                }
            },
            (None, None) => {
                proof {
                    lemma_pairs_map_keys(s, tag@);
                    assert(pairs_map(s).remove(tag@) =~= pairs_map(s));
                }
            },
        }
        self.entries = v;
    }
}

proof fn lemma_distinct_same_names(s: Seq<(String, i32)>, t: Seq<(String, i32)>)
    requires
        names_distinct(s),
        s.len() == t.len(),
        forall|j: int| 0 <= j < s.len() ==> #[trigger] t[j].0@ == s[j].0@,
    ensures
        names_distinct(t),
{
    assert forall|i: int, j: int| 0 <= i < t.len() && 0 <= j < t.len() && i != j implies #[trigger] t[i].0@ != #[trigger] t[j].0@ by {
        assert(s[i].0@ != s[j].0@);
    }
}

proof fn lemma_pairs_map_update(s: Seq<(String, i32)>, k: int, tag: Seq<char>, val: i32, name: String)
    requires
        names_distinct(s),
        0 <= k < s.len(),
        s[k].0@ == tag,
        name@ == tag,
    ensures
        names_distinct(s.update(k, (name, val))),
        pairs_map(s.update(k, (name, val))) == pairs_map(s).insert(tag, val),
{
    let t = s.update(k, (name, val));
    assert forall|j: int| 0 <= j < s.len() implies #[trigger] t[j].0@ == s[j].0@ by {}
    lemma_distinct_same_names(s, t);
    assert forall|x: Seq<char>| #[trigger] pairs_map(t).contains_key(x) <==> pairs_map(s).insert(tag, val).contains_key(x) by {
        lemma_pairs_map_keys(s, x);
        lemma_pairs_map_keys(t, x);
        if exists|j: int| 0 <= j < s.len() && s[j].0@ == x {
            let j = choose|j: int| 0 <= j < s.len() && s[j].0@ == x;
            assert(t[j].0@ == x);
        }
        if exists|j: int| 0 <= j < t.len() && t[j].0@ == x {
            let j = choose|j: int| 0 <= j < t.len() && t[j].0@ == x;
            assert(s[j].0@ == x);
        }
        if x == tag {
            assert(t[k].0@ == x);
        }
    }
    assert forall|x: Seq<char>| #[trigger] pairs_map(t).contains_key(x) implies pairs_map(t)[x] == pairs_map(s).insert(tag, val)[x] by {
        lemma_pairs_map_keys(t, x);
        let j = choose|j: int| 0 <= j < t.len() && t[j].0@ == x;
        lemma_pairs_map_index(t, j);
        if j != k {
            lemma_pairs_map_index(s, j);
            assert(s[j].0@ != s[k].0@);
        }
    }
    assert(pairs_map(t) =~= pairs_map(s).insert(tag, val));
}

proof fn lemma_pairs_map_remove(s: Seq<(String, i32)>, k: int, tag: Seq<char>)
    requires
        names_distinct(s),
        0 <= k < s.len(),
        s[k].0@ == tag,
    ensures
        names_distinct(s.remove(k)),
        pairs_map(s.remove(k)) == pairs_map(s).remove(tag),
{
    let t = s.remove(k);
    assert forall|i: int, j: int| 0 <= i < t.len() && 0 <= j < t.len() && i != j implies #[trigger] t[i].0@ != #[trigger] t[j].0@ by {
        let si = if i < k { i } else { i + 1 };
        let sj = if j < k { j } else { j + 1 };
        assert(t[i] == s[si] && t[j] == s[sj]);
        assert(s[si].0@ != s[sj].0@);
    }
    assert forall|x: Seq<char>| #[trigger] pairs_map(t).contains_key(x) <==> pairs_map(s).remove(tag).contains_key(x) by {
        lemma_pairs_map_keys(s, x);
        lemma_pairs_map_keys(t, x);
        if exists|j: int| 0 <= j < s.len() && s[j].0@ == x {
            let j = choose|j: int| 0 <= j < s.len() && s[j].0@ == x;
            if j < k {
                assert(t[j] == s[j]);
            } else if j > k {
                assert(t[j - 1] == s[j]);
            }
        }
        if exists|j: int| 0 <= j < t.len() && t[j].0@ == x {
            let j = choose|j: int| 0 <= j < t.len() && t[j].0@ == x;
            let sj = if j < k { j } else { j + 1 };
            assert(t[j] == s[sj]);
            assert(s[sj].0@ != s[k].0@);
        }
    }
    assert forall|x: Seq<char>| #[trigger] pairs_map(t).contains_key(x) implies pairs_map(t)[x] == pairs_map(s).remove(tag)[x] by {
        lemma_pairs_map_keys(t, x);
        let j = choose|j: int| 0 <= j < t.len() && t[j].0@ == x;
        let sj = if j < k { j } else { j + 1 };
        assert(t[j] == s[sj]);
        lemma_pairs_map_index(t, j);
        lemma_pairs_map_index(s, sj);
        assert(s[sj].0@ != s[k].0@);
    }
    assert(pairs_map(t) =~= pairs_map(s).remove(tag));
}

proof fn lemma_pairs_map_push_new(s: Seq<(String, i32)>, tag: Seq<char>, val: i32, name: String)
    requires
        names_distinct(s),
        forall|k: int| 0 <= k < s.len() ==> s[k].0@ != tag,
        name@ == tag,
    ensures
        names_distinct(s.push((name, val))),
        pairs_map(s.push((name, val))) == pairs_map(s).insert(tag, val),
{
    let t = s.push((name, val));
    assert forall|i: int, j: int| 0 <= i < t.len() && 0 <= j < t.len() && i != j implies #[trigger] t[i].0@ != #[trigger] t[j].0@ by {
        if i < s.len() && j < s.len() {
            assert(t[i] == s[i] && t[j] == s[j]);
        } else if i < s.len() {
            assert(t[i] == s[i]);
        } else if j < s.len() {
            assert(t[j] == s[j]);
        }
    }
    assert(t.drop_last() =~= s);
}

/// The per-(book, word) applied-tag rows: key -> that word's applied tags.
pub struct TagStore {
    words: Vec<((i64, i64), AppliedTags)>,
}

/// The map a list of rows describes (a later row for the same key wins).
pub open spec fn rows_map(s: Seq<((i64, i64), AppliedTags)>) -> Map<(i64, i64), Map<Seq<char>, i32>>
    decreases s.len(),
{
    if s.len() == 0 {
        Map::empty()
    } else {
        rows_map(s.drop_last()).insert(s.last().0, s.last().1@)
    }
}

impl View for TagStore {
    type V = Map<(i64, i64), Map<Seq<char>, i32>>;

    closed spec fn view(&self) -> Map<(i64, i64), Map<Seq<char>, i32>> {
        rows_map(self.words@)
    }
}

/// A word's row, or the empty row when it has none.
pub open spec fn row_or_empty(m: Map<(i64, i64), Map<Seq<char>, i32>>, key: (i64, i64)) -> Map<Seq<char>, i32> {
    if m.contains_key(key) {
        m[key]
    } else {
        Map::empty()
    }
}

proof fn lemma_rows_last(s: Seq<((i64, i64), AppliedTags)>, key: (i64, i64), i: int)
    requires
        0 <= i < s.len(),
        s[i].0 == key,
        forall|j: int| i < j < s.len() ==> #[trigger] s[j].0 != key,
    ensures
        rows_map(s).contains_key(key),
        rows_map(s)[key] == s[i].1@,
    decreases s.len(),
{
    if i < s.len() - 1 {
        let init = s.drop_last();
        assert(init[i] == s[i]);
        assert forall|j: int| i < j < init.len() implies #[trigger] init[j].0 != key by {
            assert(init[j] == s[j]);
        }
        lemma_rows_last(init, key, i);
        assert(s[s.len() - 1].0 != key);
    }
}

proof fn lemma_rows_none(s: Seq<((i64, i64), AppliedTags)>, key: (i64, i64))
    requires
        forall|j: int| 0 <= j < s.len() ==> #[trigger] s[j].0 != key,
    ensures
        !rows_map(s).contains_key(key),
    decreases s.len(),
{
    if s.len() > 0 {
        let init = s.drop_last();
        assert forall|j: int| 0 <= j < init.len() implies #[trigger] init[j].0 != key by {
            assert(init[j] == s[j]);
        }
        lemma_rows_none(init, key);
        assert(s[s.len() - 1].0 != key);
    }
}

proof fn lemma_rows_update(s: Seq<((i64, i64), AppliedTags)>, i: int, a: AppliedTags)
    requires
        0 <= i < s.len(),
        forall|j: int| i < j < s.len() ==> #[trigger] s[j].0 != s[i].0,
    ensures
        rows_map(s.update(i, (s[i].0, a))) == rows_map(s).insert(s[i].0, a@),
    decreases s.len(),
{
    let key = s[i].0;
    let t = s.update(i, (key, a));
    if i == s.len() - 1 {
        assert(t.drop_last() =~= s.drop_last());
        assert(rows_map(t) =~= rows_map(s).insert(key, a@));
    } else {
        let init = s.drop_last();
        assert(init[i] == s[i]);
        assert forall|j: int| i < j < init.len() implies #[trigger] init[j].0 != init[i].0 by {
            assert(init[j] == s[j]);
        }
        lemma_rows_update(init, i, a);
        assert(t.drop_last() =~= init.update(i, (key, a)));
        assert(s[s.len() - 1].0 != key);
        assert(rows_map(t) =~= rows_map(s).insert(key, a@));
    }
}

impl TagStore {
    /// No rows yet.
    pub fn new() -> (r: Self)
        ensures
            r@ == Map::<(i64, i64), Map<Seq<char>, i32>>::empty(),
    {
        TagStore { words: Vec::new() }
    }

    fn find(&self, key: (i64, i64)) -> (r: Option<usize>)
        ensures
            r matches Some(i) ==> i < self.words@.len() && self.words@[i as int].0 == key
                && forall|j: int| i < j < self.words@.len() ==> #[trigger] self.words@[j].0 != key,
            r is None ==> forall|j: int| 0 <= j < self.words@.len() ==> #[trigger] self.words@[j].0 != key,
    {
        let mut i: usize = self.words.len();
        while i > 0
            invariant
                i <= self.words@.len(),
                forall|j: int| i <= j < self.words@.len() ==> #[trigger] self.words@[j].0 != key,
            decreases i,
        {
            let k = self.words[i - 1].0;
            if k.0 == key.0 && k.1 == key.1 {
                return Some(i - 1);
            }
            i = i - 1;
        }
        None
    }

    /// A word's applied tags, if it has a row.
    pub fn row(&self, key: (i64, i64)) -> (r: Option<&AppliedTags>)
        ensures
            r matches Some(a) ==> self@.contains_key(key) && a@ == self@[key],
            r is None ==> !self@.contains_key(key),
    {
        match self.find(key) {
            Some(i) => {
                proof {
                    lemma_rows_last(self.words@, key, i as int);
                }
                Some(&self.words[i].1)
            },
            None => {
                proof {
                    lemma_rows_none(self.words@, key);
                }
                None
            },
        }
    }

    /// Replace a word's whole row.
    pub fn put(&mut self, key: (i64, i64), tags: AppliedTags)
        ensures
            final(self)@ == old(self)@.insert(key, tags@),
    {
        match self.find(key) {
            Some(i) => {
                proof {
                    lemma_rows_update(self.words@, i as int, tags);
                }
                self.words.set(i, (key, tags));
            },
            None => {
                self.words.push((key, tags));
                proof {
                    assert(self.words@.drop_last() =~= old(self).words@);
                }
            },
        }
    }

    /// Store (`Some`) or forget (`None`) one tag's value on a word, creating the
    /// word's row if it has none.
    pub fn set_value(&mut self, key: (i64, i64), tag: &str, value: Option<i32>)
        ensures
            final(self)@ == old(self)@.insert(key, stored(row_or_empty(old(self)@, key), tag@, value)),
    {
        match self.find(key) {
            Some(i) => {
                proof {
                    lemma_rows_last(self.words@, key, i as int);
                }
                let (k, mut a) = self.words.remove(i);
                a.set(tag, value);
                self.words.insert(i, (k, a));
                proof {
                    assert(self.words@ =~= old(self).words@.update(i as int, (key, a)));
                    lemma_rows_update(old(self).words@, i as int, a);
                }
            },
            None => {
                proof {
                    lemma_rows_none(self.words@, key);
                }
                let mut a = AppliedTags::new();
                a.set(tag, value);
                self.words.push((key, a));
                proof {
                    assert(self.words@.drop_last() =~= old(self).words@);
                }
            },
        }
    }
}

/// The client-side tag state: every word's applied tags, and the tag collection.
pub struct Tagger {
    pub store: TagStore,
    pub tags: Vec<TagDef>,
}

/// The stored value of a tag on a word: `None` = never considered.
pub open spec fn value_on(m: Map<(i64, i64), Map<Seq<char>, i32>>, key: (i64, i64), tag: Seq<char>) -> Option<i32> {
    lookup(row_or_empty(m, key), tag)
}

/// Some applied tag (value >= 1) of the row satisfies `p`.
pub open spec fn applied_where(row: Map<Seq<char>, i32>, p: spec_fn(Seq<char>) -> bool) -> bool {
    exists|name: Seq<char>| #[trigger] row.contains_key(name) && row[name] >= 1 && p(name)
}

/// A tag is "on" when applied directly or implied by an applied descendant.
pub open spec fn implied_in(row: Map<Seq<char>, i32>, tag: Seq<char>) -> bool {
    applied_where(row, |name: Seq<char>| name == tag || ancestor(tag, name))
}

/// The row carries some applied tag other than the quick star.
pub open spec fn other_in(row: Map<Seq<char>, i32>) -> bool {
    applied_where(row, |name: Seq<char>| name != "star"@)
}

/// The entries of a row, read back through its view.
proof fn lemma_row_entries(s: Seq<(String, i32)>, name: Seq<char>)
    requires
        names_distinct(s),
    ensures
        pairs_map(s).contains_key(name) <==> exists|k: int| 0 <= k < s.len() && s[k].0@ == name,
        forall|k: int| 0 <= k < s.len() && s[k].0@ == name ==> pairs_map(s)[name] == #[trigger] s[k].1,
{
    lemma_pairs_map_keys(s, name);
    assert forall|k: int| 0 <= k < s.len() && s[k].0@ == name implies pairs_map(s)[name] == #[trigger] s[k].1 by {
        lemma_pairs_map_index(s, k);
    }
}

impl AppliedTags {
    /// Some applied tag of this row is `tag` or a descendant of it.
    fn implies(&self, tag: &str) -> (b: bool)
        ensures
            b == implied_in(self@, tag@),
    {
        proof {
            use_type_invariant(self);
        }
        let ghost s = self.entries@;
        let mut k: usize = 0;
        while k < self.entries.len()
            invariant
                s == self.entries@,
                names_distinct(s),
                k <= s.len(),
                forall|q: int| 0 <= q < k ==> !(#[trigger] s[q].1 >= 1 && (s[q].0@ == tag@ || ancestor(tag@, s[q].0@))),
            decreases s.len() - k,
        {
            let name = self.entries[k].0.as_str();
            if self.entries[k].1 >= 1 && (str_eq(name, tag) || is_ancestor(tag, name)) {
                proof {
                    lemma_pairs_map_index(s, k as int);
                    let n = s[k as int].0@;
                    assert(self@.contains_key(n) && self@[n] >= 1);
                }
                return true;
            }
            k = k + 1;
        }
        proof {
            if implied_in(self@, tag@) {
                let n = choose|n: Seq<char>| #[trigger] self@.contains_key(n) && self@[n] >= 1 && (n == tag@ || ancestor(tag@, n));
                lemma_row_entries(s, n);
                let q = choose|q: int| 0 <= q < s.len() && s[q].0@ == n;
                assert(s[q].1 >= 1);
            }
        }
        false
    }

    /// Some applied tag of this row is not the quick star.
    fn has_other(&self) -> (b: bool)
        ensures
            b == other_in(self@),
    {
        proof {
            use_type_invariant(self);
        }
        let ghost s = self.entries@;
        let mut k: usize = 0;
        while k < self.entries.len()
            invariant
                s == self.entries@,
                names_distinct(s),
                k <= s.len(),
                forall|q: int| 0 <= q < k ==> !(#[trigger] s[q].1 >= 1 && s[q].0@ != "star"@),
            decreases s.len() - k,
        {
            if self.entries[k].1 >= 1 && !str_eq(self.entries[k].0.as_str(), "star") {
                proof {
                    lemma_pairs_map_index(s, k as int);
                    let n = s[k as int].0@;
                    assert(self@.contains_key(n) && self@[n] >= 1);
                }
                return true;
            }
            k = k + 1;
        }
        proof {
            if other_in(self@) {
                let n = choose|n: Seq<char>| #[trigger] self@.contains_key(n) && self@[n] >= 1 && n != "star"@;
                lemma_row_entries(s, n);
                let q = choose|q: int| 0 <= q < s.len() && s[q].0@ == n;
                assert(s[q].1 >= 1);
            }
        }
        false
    }
}

/// The stored tri-state value for a tag on a word: `None` = never considered,
/// `Some(0)` = considered and deliberately declined, `Some(n >= 1)` = applied.
pub fn tag_value(t: &Tagger, key: (i64, i64), tag: &str) -> (r: Option<i32>)
    ensures
        r == value_on(t.store@, key, tag@),
{
    match t.store.row(key) {
        Some(a) => a.tag_value(tag),
        None => None,
    }
}

/// The tag is applied (value >= 1) on the word.
pub fn has_tag(t: &Tagger, key: (i64, i64), tag: &str) -> (b: bool)
    ensures
        b == (value_on(t.store@, key, tag@) matches Some(v) && v >= 1),
{
    match tag_value(t, key, tag) {
        Some(v) => v >= 1,
        None => false,
    }
}

/// A tag counts as "on" for a word if directly applied or any applied descendant
/// implies it (child implies parent).
pub fn implied_on(t: &Tagger, key: (i64, i64), tag: &str) -> (b: bool)
    ensures
        b == implied_in(row_or_empty(t.store@, key), tag@),
{
    match t.store.row(key) {
        Some(a) => a.implies(tag),
        None => false,
    }
}

/// The word carries an applied tag other than the quick star.
pub fn has_other_tags(t: &Tagger, key: (i64, i64)) -> (b: bool)
    ensures
        b == other_in(row_or_empty(t.store@, key)),
{
    match t.store.row(key) {
        Some(a) => a.has_other(),
        None => false,
    }
}

/// Any in-book member of the group carries a non-star tag.
pub fn group_has_other(t: &Tagger, book_id: i64, members: &[i64]) -> (b: bool)
    ensures
        b == exists|i: int| 0 <= i < members@.len() && other_in(row_or_empty(t.store@, (book_id, #[trigger] members@[i]))),
{
    let mut i: usize = 0;
    while i < members.len()
        invariant
            i <= members@.len(),
            forall|q: int| 0 <= q < i ==> !other_in(row_or_empty(t.store@, (book_id, #[trigger] members@[q]))),
        decreases members@.len() - i,
    {
        if has_other_tags(t, (book_id, members[i])) {
            return true;
        }
        i = i + 1;
    }
    false
}

/// Flip a tag on a word: apply it (value 1) when it isn't applied, else forget it.
/// Returns whether it is now on.
pub fn toggle_tag(t: &mut Tagger, book_id: i64, word_id: i64, tag: &str) -> (next: bool)
    ensures
        next == !(value_on(old(t).store@, (book_id, word_id), tag@) matches Some(v) && v >= 1),
        final(t).store@ == old(t).store@.insert(
            (book_id, word_id),
            stored(row_or_empty(old(t).store@, (book_id, word_id)), tag@, if next { Some(1i32) } else { None }),
        ),
        final(t).tags@ == old(t).tags@,
{
    let key = (book_id, word_id);
    let next = !has_tag(t, key, tag);
    if next {
        t.store.set_value(key, tag, Some(1));
    } else {
        t.store.set_value(key, tag, None);
    }
    next
}

/// Set a tag's tri-state value on a word: `None` forgets it, `Some(0)` records
/// considered-and-declined, `Some(n)` applies at level `n`.
pub fn set_tag_val(t: &mut Tagger, book_id: i64, word_id: i64, tag: &str, value: Option<i32>)
    ensures
        final(t).store@ == old(t).store@.insert(
            (book_id, word_id),
            stored(row_or_empty(old(t).store@, (book_id, word_id)), tag@, value),
        ),
        final(t).tags@ == old(t).tags@,
{
    t.store.set_value((book_id, word_id), tag, value);
}

/// Some of the listed names is a known collection tag of interest `i`.
pub open spec fn any_known(tags: Seq<TagDef>, names: Seq<Seq<char>>, i: Interest) -> bool
    decreases names.len(),
{
    if names.len() == 0 {
        false
    } else {
        any_known(tags, names.drop_last(), i) || known_interest_of(tags, names.last()) == Some(i)
    }
}

/// An applied tag lends interest `i`: its own, or that of one of its existing
/// ancestors.
pub open spec fn lends(tags: Seq<TagDef>, name: Seq<char>, i: Interest) -> bool {
    interest_of_tag(tags, name) == i || any_known(tags, ancestors(name), i)
}

/// Some applied tag of the row lends interest `i`.
pub open spec fn row_lends(tags: Seq<TagDef>, row: Map<Seq<char>, i32>, i: Interest) -> bool {
    exists|name: Seq<char>| #[trigger] row.contains_key(name) && row[name] >= 1 && lends(tags, name, i)
}

/// A word's effective interest from its applied tags (`None` when it has none).
pub open spec fn word_level(tags: Seq<TagDef>, row: Map<Seq<char>, i32>) -> Option<Interest> {
    level_of(
        row_lends(tags, row, Interest::Interesting),
        row_lends(tags, row, Interest::Uninteresting),
        row_lends(tags, row, Interest::Neutral),
    )
}

spec fn seq_lends(tags: Seq<TagDef>, s: Seq<(String, i32)>, i: Interest) -> bool
    decreases s.len(),
{
    if s.len() == 0 {
        false
    } else {
        seq_lends(tags, s.drop_last(), i) || (s.last().1 >= 1 && lends(tags, s.last().0@, i))
    }
}

proof fn lemma_seq_lends(tags: Seq<TagDef>, s: Seq<(String, i32)>, i: Interest)
    requires
        names_distinct(s),
    ensures
        seq_lends(tags, s, i) == row_lends(tags, pairs_map(s), i),
    decreases s.len(),
{
    if s.len() > 0 {
        let init = s.drop_last();
        let l = s.last();
        assert(names_distinct(init)) by {
            assert forall|a: int, b: int| 0 <= a < init.len() && 0 <= b < init.len() && a != b implies #[trigger] init[a].0@ != #[trigger] init[b].0@ by {
                assert(init[a] == s[a] && init[b] == s[b]);
            }
        }
        lemma_seq_lends(tags, init, i);
        lemma_pairs_map_keys(init, l.0@);
        assert forall|k: int| 0 <= k < init.len() implies init[k].0@ != l.0@ by {
            assert(init[k] == s[k]);
            assert(l == s[s.len() - 1]);
        }
        let m = pairs_map(init);
        let m2 = pairs_map(s);
        assert(!m.contains_key(l.0@));
        if row_lends(tags, m2, i) {
            let n = choose|n: Seq<char>| #[trigger] m2.contains_key(n) && m2[n] >= 1 && lends(tags, n, i);
            if n != l.0@ {
                assert(m.contains_key(n) && m[n] == m2[n]);
            }
        }
        if row_lends(tags, m, i) {
            let n = choose|n: Seq<char>| #[trigger] m.contains_key(n) && m[n] >= 1 && lends(tags, n, i);
            assert(m2.contains_key(n) && m2[n] == m[n]);
        }
        if l.1 >= 1 && lends(tags, l.0@, i) {
            assert(m2.contains_key(l.0@) && m2[l.0@] == l.1);
        }
    }
}

fn row_level(tags: &Vec<TagDef>, a: &AppliedTags) -> (r: Option<Interest>)
    ensures
        r == word_level(tags@, a@),
{
    proof {
        use_type_invariant(a);
    }
    let ghost s = a.entries@;
    let mut acc: Option<Interest> = None;
    let mut k: usize = 0;
    assert(s.take(0).len() == 0);
    while k < a.entries.len()
        invariant
            s == a.entries@,
            k <= s.len(),
            acc == level_of(
                seq_lends(tags@, s.take(k as int), Interest::Interesting),
                seq_lends(tags@, s.take(k as int), Interest::Uninteresting),
                seq_lends(tags@, s.take(k as int), Interest::Neutral),
            ),
        decreases s.len() - k,
    {
        let ghost pre = s.take(k as int);
        assert(s.take(k + 1).drop_last() == pre);
        assert(s.take(k + 1).last() == s[k as int]);
        let name = a.entries[k].0.as_str();
        if a.entries[k].1 >= 1 {
            let ti = tag_interest(tags, name);
            proof {
                lemma_fold_level(
                    seq_lends(tags@, pre, Interest::Interesting),
                    seq_lends(tags@, pre, Interest::Uninteresting),
                    seq_lends(tags@, pre, Interest::Neutral),
                    ti,
                );
            }
            fold_interest(&mut acc, ti);
            let ancs = ancestor_names(name);
            let ghost an = ancestors(name@);
            let mut j: usize = 0;
            assert(an.take(0).len() == 0);
            while j < ancs.len()
                invariant
                    ancs@.len() == an.len(),
                    forall|q: int| 0 <= q < an.len() ==> #[trigger] ancs@[q]@ == an[q],
                    j <= an.len(),
                    acc == level_of(
                        seq_lends(tags@, pre, Interest::Interesting) || ti == Interest::Interesting
                            || any_known(tags@, an.take(j as int), Interest::Interesting),
                        seq_lends(tags@, pre, Interest::Uninteresting) || ti == Interest::Uninteresting
                            || any_known(tags@, an.take(j as int), Interest::Uninteresting),
                        seq_lends(tags@, pre, Interest::Neutral) || ti == Interest::Neutral
                            || any_known(tags@, an.take(j as int), Interest::Neutral),
                    ),
                decreases an.len() - j,
            {
                assert(an.take(j + 1).drop_last() == an.take(j as int));
                assert(an.take(j + 1).last() == an[j as int]);
                let kn = known_interest(tags, ancs[j].as_str());
                match kn {
                    Some(i) => {
                        proof {
                            lemma_fold_level(
                                seq_lends(tags@, pre, Interest::Interesting) || ti == Interest::Interesting
                                    || any_known(tags@, an.take(j as int), Interest::Interesting),
                                seq_lends(tags@, pre, Interest::Uninteresting) || ti == Interest::Uninteresting
                                    || any_known(tags@, an.take(j as int), Interest::Uninteresting),
                                seq_lends(tags@, pre, Interest::Neutral) || ti == Interest::Neutral
                                    || any_known(tags@, an.take(j as int), Interest::Neutral),
                                i,
                            );
                        }
                        fold_interest(&mut acc, i);
                    },
                    None => {},
                }
                j = j + 1;
            }
            assert(an.take(an.len() as int) == an);
        }
        k = k + 1;
    }
    assert(s.take(s.len() as int) == s);
    proof {
        lemma_seq_lends(tags@, s, Interest::Interesting);
        lemma_seq_lends(tags@, s, Interest::Uninteresting);
        lemma_seq_lends(tags@, s, Interest::Neutral);
    }
    acc
}

/// A word's effective interest from its applied tags (value >= 1; a declined row
/// never contributes). A tag also lends its existing ancestors' interest, so an
/// applied child implies its parent. `None` if it carries no applied tags.
pub fn word_interest(t: &Tagger, key: (i64, i64)) -> (r: Option<Interest>)
    ensures
        r == word_level(t.tags@, row_or_empty(t.store@, key)),
{
    match t.store.row(key) {
        Some(a) => row_level(&t.tags, a),
        None => {
            proof {
                let e = Map::<Seq<char>, i32>::empty();
                assert(!row_lends(t.tags@, e, Interest::Interesting));
                assert(!row_lends(t.tags@, e, Interest::Uninteresting));
                assert(!row_lends(t.tags@, e, Interest::Neutral));
            }
            None
        },
    }
}

/// Some member of the family has effective interest `i`.
pub open spec fn member_level(
    tags: Seq<TagDef>,
    m: Map<(i64, i64), Map<Seq<char>, i32>>,
    book_id: i64,
    members: Seq<i64>,
    i: Interest,
) -> bool {
    exists|q: int| 0 <= q < members.len() && word_level(tags, row_or_empty(m, (book_id, #[trigger] members[q]))) == Some(i)
}

/// Effective interest across a merged family (any in-book member).
pub fn group_interest(t: &Tagger, book_id: i64, members: &[i64]) -> (r: Option<Interest>)
    ensures
        r == level_of(
            member_level(t.tags@, t.store@, book_id, members@, Interest::Interesting),
            member_level(t.tags@, t.store@, book_id, members@, Interest::Uninteresting),
            member_level(t.tags@, t.store@, book_id, members@, Interest::Neutral),
        ),
{
    let mut acc: Option<Interest> = None;
    let mut i: usize = 0;
    while i < members.len()
        invariant
            i <= members@.len(),
            forall|q: int| 0 <= q < i ==> word_level(t.tags@, row_or_empty(t.store@, (book_id, #[trigger] members@[q]))) != Some(Interest::Interesting),
            acc == level_of(
                false,
                exists|q: int| 0 <= q < i && word_level(t.tags@, row_or_empty(t.store@, (book_id, #[trigger] members@[q]))) == Some(Interest::Uninteresting),
                exists|q: int| 0 <= q < i && word_level(t.tags@, row_or_empty(t.store@, (book_id, #[trigger] members@[q]))) == Some(Interest::Neutral),
            ),
        decreases members@.len() - i,
    {
        let w = word_interest(t, (book_id, members[i]));
        assert(word_level(t.tags@, row_or_empty(t.store@, (book_id, members@[i as int]))) == w);
        match w {
            Some(Interest::Interesting) => {
                return Some(Interest::Interesting);
            },
            Some(Interest::Uninteresting) => {
                acc = Some(Interest::Uninteresting);
            },
            Some(Interest::Neutral) => {
                if acc.is_none() {
                    acc = Some(Interest::Neutral);
                }
            },
            None => {},
        }
        i = i + 1;
    }
    acc
}

/// Display order of a tag's interest: interesting, neutral, uninteresting.
pub open spec fn tag_rank(i: Interest) -> u8 {
    match i {
        Interest::Interesting => 0,
        Interest::Neutral => 1,
        Interest::Uninteresting => 2,
    }
}

fn rank_of(i: Interest) -> (r: u8)
    ensures
        r == tag_rank(i),
{
    match i {
        Interest::Interesting => 0,
        Interest::Neutral => 1,
        Interest::Uninteresting => 2,
    }
}

/// `a` is listed before `b`: by interest, then by name.
pub open spec fn shown_before(tags: Seq<TagDef>, a: Seq<char>, b: Seq<char>) -> bool {
    let ra = tag_rank(interest_of_tag(tags, a));
    let rb = tag_rank(interest_of_tag(tags, b));
    ra < rb || (ra == rb && seq_lt(a, b))
}

/// Strictly increasing in display order (so no name twice).
pub open spec fn shown_sorted(tags: Seq<TagDef>, s: Seq<Seq<char>>) -> bool {
    forall|i: int, j: int| 0 <= i < j < s.len() ==> shown_before(tags, #[trigger] s[i], #[trigger] s[j])
}

/// `name` is a collection tag applied (value >= 1) on some member of the family.
pub open spec fn group_tag_named(
    m: Map<(i64, i64), Map<Seq<char>, i32>>,
    book_id: i64,
    members: Seq<i64>,
    name: Seq<char>,
) -> bool {
    !starts_with(name, "pick:"@) && exists|q: int|
        0 <= q < members.len() && #[trigger] row_or_empty(m, (book_id, members[q])).contains_key(name)
            && row_or_empty(m, (book_id, members[q]))[name] >= 1
}

/// The family's distinct applied collection tags in display order.
pub open spec fn group_tag_list(
    tags: Seq<TagDef>,
    m: Map<(i64, i64), Map<Seq<char>, i32>>,
    book_id: i64,
    members: Seq<i64>,
) -> Seq<Seq<char>> {
    choose|s: Seq<Seq<char>>| shown_sorted(tags, s) && forall|n: Seq<char>| #[trigger] s.contains(n) <==> group_tag_named(m, book_id, members, n)
}

pub proof fn lemma_shown_trans(tags: Seq<TagDef>, a: Seq<char>, b: Seq<char>, c: Seq<char>)
    requires
        shown_before(tags, a, b),
        shown_before(tags, b, c),
    ensures
        shown_before(tags, a, c),
{
    if seq_lt(a, b) && seq_lt(b, c) {
        lemma_seq_lt_trans(a, b, c);
    }
}

pub proof fn lemma_shown_irrefl(tags: Seq<TagDef>, a: Seq<char>)
    ensures
        !shown_before(tags, a, a),
{
    lemma_seq_lt_irrefl(a);
}

pub proof fn lemma_shown_total(tags: Seq<TagDef>, a: Seq<char>, b: Seq<char>)
    requires
        a != b,
    ensures
        shown_before(tags, a, b) || shown_before(tags, b, a),
{
    lemma_seq_lt_total(a, b);
}

proof fn lemma_sorted_tail(tags: Seq<TagDef>, s: Seq<Seq<char>>)
    requires
        shown_sorted(tags, s),
        s.len() > 0,
    ensures
        shown_sorted(tags, s.drop_first()),
        forall|n: Seq<char>| #[trigger] s.drop_first().contains(n) <==> (s.contains(n) && n != s[0]),
{
    let t = s.drop_first();
    assert forall|i: int, j: int| 0 <= i < j < t.len() implies shown_before(tags, #[trigger] t[i], #[trigger] t[j]) by {
        assert(t[i] == s[i + 1] && t[j] == s[j + 1]);
    }
    assert forall|n: Seq<char>| #[trigger] t.contains(n) <==> (s.contains(n) && n != s[0]) by {
        if t.contains(n) {
            let k = choose|k: int| 0 <= k < t.len() && t[k] == n;
            assert(s[k + 1] == n);
            assert(shown_before(tags, s[0], s[k + 1]));
            lemma_shown_irrefl(tags, n);
        }
        if s.contains(n) && n != s[0] {
            let k = choose|k: int| 0 <= k < s.len() && s[k] == n;
            assert(k > 0);
            assert(t[k - 1] == n);
        }
    }
}

/// Two lists in display order with the same names are the same list.
pub proof fn lemma_shown_unique(tags: Seq<TagDef>, s: Seq<Seq<char>>, t: Seq<Seq<char>>)
    requires
        shown_sorted(tags, s),
        shown_sorted(tags, t),
        forall|n: Seq<char>| #[trigger] s.contains(n) <==> t.contains(n),
    ensures
        s == t,
    decreases s.len(),
{
    if s.len() == 0 {
        if t.len() > 0 {
            assert(t.contains(t[0]));
            assert(!s.contains(t[0]));
        }
        assert(s =~= t);
    } else {
        assert(s.contains(s[0]));
        assert(t.contains(s[0]));
        let m = choose|m: int| 0 <= m < t.len() && t[m] == s[0];
        assert(t.contains(t[0]));
        assert(s.contains(t[0]));
        let k = choose|k: int| 0 <= k < s.len() && s[k] == t[0];
        if k > 0 && m > 0 {
            assert(shown_before(tags, s[0], s[k]));
            assert(shown_before(tags, t[0], t[m]));
            lemma_shown_trans(tags, s[0], t[0], s[0]);
            lemma_shown_irrefl(tags, s[0]);
        }
        assert(s[0] == t[0]);
        lemma_sorted_tail(tags, s);
        lemma_sorted_tail(tags, t);
        lemma_shown_unique(tags, s.drop_first(), t.drop_first());
        assert(s =~= t) by {
            assert forall|i: int| 0 <= i < s.len() implies s[i] == t[i] by {
                if i > 0 {
                    assert(s[i] == s.drop_first()[i - 1]);
                    assert(t[i] == t.drop_first()[i - 1]);
                }
            }
        }
    }
}

/// The names of a list of (name, interest) chips.
pub open spec fn chip_names(r: Seq<(String, Interest)>) -> Seq<Seq<char>> {
    r.map_values(|e: (String, Interest)| e.0@)
}

/// Every chip carries its tag's interest.
pub open spec fn chips_ok(tags: Seq<TagDef>, r: Seq<(String, Interest)>) -> bool {
    forall|q: int| 0 <= q < r.len() ==> (#[trigger] r[q]).1 == interest_of_tag(tags, r[q].0@)
}

fn is_before(tags: &Vec<TagDef>, e: &(String, Interest), rk: u8, nv: &Vec<char>, name: &str) -> (b: bool)
    requires
        e.1 == interest_of_tag(tags@, e.0@),
        rk == tag_rank(interest_of_tag(tags@, name@)),
        nv@ == name@,
    ensures
        b == shown_before(tags@, e.0@, name@),
{
    let re = rank_of(e.1);
    if re < rk {
        true
    } else if re == rk {
        let ev = chars_of(e.0.as_str());
        chars_lt(&ev, nv)
    } else {
        false
    }
}

fn insert_sorted(tags: &Vec<TagDef>, out: &mut Vec<(String, Interest)>, name: &str)
    requires
        shown_sorted(tags@, chip_names(old(out)@)),
        chips_ok(tags@, old(out)@),
    ensures
        shown_sorted(tags@, chip_names(final(out)@)),
        chips_ok(tags@, final(out)@),
        forall|n: Seq<char>| #[trigger] chip_names(final(out)@).contains(n) <==> (chip_names(old(out)@).contains(n) || n == name@),
{
    let ghost o = out@;
    let ghost on = chip_names(o);
    let ti = tag_interest(tags, name);
    let rk = rank_of(ti);
    let nv = chars_of(name);
    let mut p: usize = 0;
    while p < out.len() && is_before(tags, &out[p], rk, &nv, name)
        invariant
            out@ == o,
            on == chip_names(o),
            chips_ok(tags@, o),
            rk == tag_rank(interest_of_tag(tags@, name@)),
            nv@ == name@,
            p <= o.len(),
            forall|q: int| 0 <= q < p ==> shown_before(tags@, #[trigger] on[q], name@),
        decreases o.len() - p,
    {
        assert(on[p as int] == o[p as int].0@);
        p = p + 1;
    }
    if p < out.len() && str_eq(out[p].0.as_str(), name) {
        proof {
            assert(on[p as int] == name@);
            assert forall|n: Seq<char>| #[trigger] on.contains(n) <==> (on.contains(n) || n == name@) by {
                if n == name@ {
                    assert(on[p as int] == n);
                }
            }
        }
        return;
    }
    proof {
        if p < o.len() {
            assert(on[p as int] == o[p as int].0@);
            lemma_shown_total(tags@, on[p as int], name@);
            assert forall|q: int| p <= q < on.len() implies shown_before(tags@, name@, #[trigger] on[q]) by {
                if q > p {
                    assert(shown_before(tags@, on[p as int], on[q]));
                    lemma_shown_trans(tags@, name@, on[p as int], on[q]);
                }
            }
        }
    }
    out.insert(p, (name.to_owned(), ti));
    proof {
        let t = out@;
        let tn = chip_names(t);
        assert(t == o.insert(p as int, t[p as int]));
        assert forall|q: int| 0 <= q < tn.len() implies #[trigger] tn[q] == (if q < p { on[q] } else if q == p { name@ } else { on[q - 1] }) by {
            assert(tn[q] == t[q].0@);
            if q < p {
                assert(t[q] == o[q]);
            } else if q > p {
                assert(t[q] == o[q - 1]);
            }
        }
        assert forall|i: int, j: int| 0 <= i < j < tn.len() implies shown_before(tags@, #[trigger] tn[i], #[trigger] tn[j]) by {
            if i < p && j < p {
            } else if i < p && j == p {
            } else if i < p {
                lemma_shown_trans(tags@, on[i], name@, on[j - 1]);
            } else if i == p {
            } else {
            }
        }
        assert forall|q: int| 0 <= q < t.len() implies (#[trigger] t[q]).1 == interest_of_tag(tags@, t[q].0@) by {
            if q < p {
                assert(t[q] == o[q]);
            } else if q > p {
                assert(t[q] == o[q - 1]);
            }
        }
        assert forall|n: Seq<char>| #[trigger] tn.contains(n) <==> (on.contains(n) || n == name@) by {
            if tn.contains(n) {
                let q = choose|q: int| 0 <= q < tn.len() && tn[q] == n;
                if q < p {
                    assert(on[q] == n);
                } else if q > p {
                    assert(on[q - 1] == n);
                }
            }
            if on.contains(n) {
                let q = choose|q: int| 0 <= q < on.len() && on[q] == n;
                if q < p {
                    assert(tn[q] == n);
                } else {
                    assert(tn[q + 1] == n);
                }
            }
            if n == name@ {
                assert(tn[p as int] == n);
            }
        }
    }
}

fn insert_row_tags(tags: &Vec<TagDef>, a: &AppliedTags, out: &mut Vec<(String, Interest)>)
    requires
        shown_sorted(tags@, chip_names(old(out)@)),
        chips_ok(tags@, old(out)@),
    ensures
        shown_sorted(tags@, chip_names(final(out)@)),
        chips_ok(tags@, final(out)@),
        forall|n: Seq<char>| #[trigger] chip_names(final(out)@).contains(n) <==> (chip_names(old(out)@).contains(n)
            || (!starts_with(n, "pick:"@) && a@.contains_key(n) && a@[n] >= 1)),
{
    proof {
        use_type_invariant(a);
    }
    let ghost s = a.entries@;
    let ghost on = chip_names(out@);
    let mut k: usize = 0;
    while k < a.entries.len()
        invariant
            s == a.entries@,
            names_distinct(s),
            k <= s.len(),
            shown_sorted(tags@, chip_names(out@)),
            chips_ok(tags@, out@),
            forall|n: Seq<char>| #[trigger] chip_names(out@).contains(n) <==> (on.contains(n) || exists|q: int|
                0 <= q < k && #[trigger] s[q].1 >= 1 && !starts_with(s[q].0@, "pick:"@) && s[q].0@ == n),
        decreases s.len() - k,
    {
        let name = a.entries[k].0.as_str();
        let ghost before = chip_names(out@);
        if a.entries[k].1 >= 1 && !str_starts_with(name, "pick:") {
            insert_sorted(tags, out, name);
            proof {
                assert forall|n: Seq<char>| #[trigger] chip_names(out@).contains(n) <==> (on.contains(n) || exists|q: int|
                    0 <= q < k + 1 && #[trigger] s[q].1 >= 1 && !starts_with(s[q].0@, "pick:"@) && s[q].0@ == n) by {
                    if exists|q: int| 0 <= q < k + 1 && #[trigger] s[q].1 >= 1 && !starts_with(s[q].0@, "pick:"@) && s[q].0@ == n {
                        let q = choose|q: int| 0 <= q < k + 1 && #[trigger] s[q].1 >= 1 && !starts_with(s[q].0@, "pick:"@) && s[q].0@ == n;
                        if q < k {
                            assert(before.contains(n));
                        }
                    }
                    if before.contains(n) && !on.contains(n) {
                        let q = choose|q: int| 0 <= q < k && #[trigger] s[q].1 >= 1 && !starts_with(s[q].0@, "pick:"@) && s[q].0@ == n;
                        assert(0 <= q < k + 1 && s[q].1 >= 1);
                    }
                    if n == name@ {
                        assert(s[k as int].1 >= 1);
                    }
                }
            }
        } else {
            proof {
                assert forall|n: Seq<char>| #[trigger] chip_names(out@).contains(n) <==> (on.contains(n) || exists|q: int|
                    0 <= q < k + 1 && #[trigger] s[q].1 >= 1 && !starts_with(s[q].0@, "pick:"@) && s[q].0@ == n) by {
                    if exists|q: int| 0 <= q < k + 1 && #[trigger] s[q].1 >= 1 && !starts_with(s[q].0@, "pick:"@) && s[q].0@ == n {
                        let q = choose|q: int| 0 <= q < k + 1 && #[trigger] s[q].1 >= 1 && !starts_with(s[q].0@, "pick:"@) && s[q].0@ == n;
                        assert(q < k);
                    }
                    if before.contains(n) && !on.contains(n) {
                        let q = choose|q: int| 0 <= q < k && #[trigger] s[q].1 >= 1 && !starts_with(s[q].0@, "pick:"@) && s[q].0@ == n;
                        assert(0 <= q < k + 1 && s[q].1 >= 1);
                    }
                }
            }
        }
        k = k + 1;
    }
    proof {
        assert forall|n: Seq<char>| #[trigger] chip_names(out@).contains(n) <==> (on.contains(n)
            || (!starts_with(n, "pick:"@) && a@.contains_key(n) && a@[n] >= 1)) by {
            lemma_row_entries(s, n);
            if exists|q: int| 0 <= q < s.len() && #[trigger] s[q].1 >= 1 && !starts_with(s[q].0@, "pick:"@) && s[q].0@ == n {
                let q = choose|q: int| 0 <= q < s.len() && #[trigger] s[q].1 >= 1 && !starts_with(s[q].0@, "pick:"@) && s[q].0@ == n;
                assert(s[q].0@ == n);
            }
            if !starts_with(n, "pick:"@) && a@.contains_key(n) && a@[n] >= 1 {
                let q = choose|q: int| 0 <= q < s.len() && s[q].0@ == n;
                assert(s[q].1 >= 1);
            }
        }
    }
}

/// The distinct collection tags applied anywhere in a merged family, each with its
/// interest; `pick:` contextual tags are left out. Listed interesting, neutral,
/// uninteresting, then by name.
pub fn group_tags(t: &Tagger, book_id: i64, members: &[i64]) -> (r: Vec<(String, Interest)>)
    ensures
        chip_names(r@) == group_tag_list(t.tags@, t.store@, book_id, members@),
        chips_ok(t.tags@, r@),
{
    let mut out: Vec<(String, Interest)> = Vec::new();
    let mut i: usize = 0;
    assert(chip_names(out@) =~= Seq::<Seq<char>>::empty());
    while i < members.len()
        invariant
            i <= members@.len(),
            shown_sorted(t.tags@, chip_names(out@)),
            chips_ok(t.tags@, out@),
            forall|n: Seq<char>| #[trigger] chip_names(out@).contains(n) <==> (!starts_with(n, "pick:"@) && exists|q: int|
                0 <= q < i && #[trigger] row_or_empty(t.store@, (book_id, members@[q])).contains_key(n)
                    && row_or_empty(t.store@, (book_id, members@[q]))[n] >= 1),
        decreases members@.len() - i,
    {
        let ghost before = chip_names(out@);
        let key = (book_id, members[i]);
        let ghost row = row_or_empty(t.store@, key);
        match t.store.row(key) {
            Some(a) => {
                insert_row_tags(&t.tags, a, &mut out);
            },
            None => {},
        }
        proof {
            assert forall|n: Seq<char>| #[trigger] chip_names(out@).contains(n) <==> (!starts_with(n, "pick:"@) && exists|q: int|
                0 <= q < i + 1 && #[trigger] row_or_empty(t.store@, (book_id, members@[q])).contains_key(n)
                    && row_or_empty(t.store@, (book_id, members@[q]))[n] >= 1) by {
                if exists|q: int| 0 <= q < i + 1 && #[trigger] row_or_empty(t.store@, (book_id, members@[q])).contains_key(n)
                    && row_or_empty(t.store@, (book_id, members@[q]))[n] >= 1 {
                    let q = choose|q: int| 0 <= q < i + 1 && #[trigger] row_or_empty(t.store@, (book_id, members@[q])).contains_key(n)
                        && row_or_empty(t.store@, (book_id, members@[q]))[n] >= 1;
                    if q == i {
                        assert(row.contains_key(n) && row[n] >= 1);
                    }
                }
                if before.contains(n) {
                    let q = choose|q: int| 0 <= q < i && #[trigger] row_or_empty(t.store@, (book_id, members@[q])).contains_key(n)
                        && row_or_empty(t.store@, (book_id, members@[q]))[n] >= 1;
                    assert(0 <= q < i + 1);
                }
                if !starts_with(n, "pick:"@) && row.contains_key(n) && row[n] >= 1 {
                    assert(row_or_empty(t.store@, (book_id, members@[i as int])).contains_key(n));
                }
            }
        }
        i = i + 1;
    }
    proof {
        let r = chip_names(out@);
        let tags = t.tags@;
        assert forall|n: Seq<char>| #[trigger] r.contains(n) <==> group_tag_named(t.store@, book_id, members@, n) by {}
        let g = group_tag_list(tags, t.store@, book_id, members@);
        assert(shown_sorted(tags, g) && forall|n: Seq<char>| #[trigger] g.contains(n) <==> group_tag_named(t.store@, book_id, members@, n));
        lemma_shown_unique(tags, r, g);
    }
    out
}

/// How many names in the list carry interest `i`.
pub open spec fn count_interest(tags: Seq<TagDef>, s: Seq<Seq<char>>, i: Interest) -> nat
    decreases s.len(),
{
    if s.len() == 0 {
        0
    } else {
        count_interest(tags, s.drop_last(), i) + if interest_of_tag(tags, s.last()) == i { 1nat } else { 0nat }
    }
}

/// Per-interest counts of a family's applied collection tags: (interesting,
/// neutral, uninteresting).
pub fn group_tag_counts(t: &Tagger, book_id: i64, members: &[i64]) -> (c: (usize, usize, usize))
    ensures
        c.0 == count_interest(t.tags@, group_tag_list(t.tags@, t.store@, book_id, members@), Interest::Interesting),
        c.1 == count_interest(t.tags@, group_tag_list(t.tags@, t.store@, book_id, members@), Interest::Neutral),
        c.2 == count_interest(t.tags@, group_tag_list(t.tags@, t.store@, book_id, members@), Interest::Uninteresting),
{
    let chips = group_tags(t, book_id, members);
    let ghost names = chip_names(chips@);
    let mut c: (usize, usize, usize) = (0, 0, 0);
    let mut k: usize = 0;
    assert(names.take(0).len() == 0);
    while k < chips.len()
        invariant
            names == chip_names(chips@),
            chips_ok(t.tags@, chips@),
            k <= chips@.len(),
            c.0 == count_interest(t.tags@, names.take(k as int), Interest::Interesting),
            c.1 == count_interest(t.tags@, names.take(k as int), Interest::Neutral),
            c.2 == count_interest(t.tags@, names.take(k as int), Interest::Uninteresting),
            c.0 + c.1 + c.2 == k,
        decreases chips@.len() - k,
    {
        assert(names.take(k + 1).drop_last() == names.take(k as int));
        assert(names.take(k + 1).last() == chips@[k as int].0@);
        match chips[k].1 {
            Interest::Interesting => c.0 = c.0 + 1,
            Interest::Neutral => c.1 = c.1 + 1,
            Interest::Uninteresting => c.2 = c.2 + 1,
        }
        k = k + 1;
    }
    assert(names.take(chips@.len() as int) == names);
    c
}

/// CSS class fragment for an interest level.
pub fn interest_class(i: Interest) -> (r: &'static str)
    ensures
        r@ == match i {
            Interest::Interesting => "interesting"@,
            Interest::Neutral => "neutral"@,
            Interest::Uninteresting => "uninteresting"@,
        },
{
    match i {
        Interest::Interesting => "interesting",
        Interest::Neutral => "neutral",
        Interest::Uninteresting => "uninteresting",
    }
}

/// Interest ordering for the "by interest" sort: interesting < neutral <
/// uninteresting (anything unrecognised sorts last).
pub fn interest_rank(i: &str) -> (r: u8)
    ensures
        r == if i@ == "interesting"@ {
            0u8
        } else if i@ == "neutral"@ {
            1u8
        } else {
            2u8
        },
{
    if str_eq(i, "interesting") {
        0
    } else if str_eq(i, "neutral") {
        1
    } else {
        2
    }
}

/// Reading a tag back after storing it gives what was stored; every other
/// (word, tag) reads as before.
pub proof fn lemma_read_after_write(
    m: Map<(i64, i64), Map<Seq<char>, i32>>,
    key: (i64, i64),
    tag: Seq<char>,
    value: Option<i32>,
    key2: (i64, i64),
    tag2: Seq<char>,
)
    ensures
        value_on(m.insert(key, stored(row_or_empty(m, key), tag, value)), key2, tag2) == if key2 == key
            && tag2 == tag {
            value
        } else {
            value_on(m, key2, tag2)
        },
{
}

/// After a toggle the tag is applied exactly when the toggle reported it on.
pub proof fn lemma_toggle_reports(m: Map<(i64, i64), Map<Seq<char>, i32>>, key: (i64, i64), tag: Seq<char>, next: bool)
    ensures
        (value_on(
            m.insert(key, stored(row_or_empty(m, key), tag, if next { Some(1i32) } else { None })),
            key,
            tag,
        ) matches Some(v) && v >= 1) == next,
{
}

impl AppliedTags {
    /// The row a list of (tag, value) pairs describes (a later pair for the same
    /// tag wins).
    pub fn from_pairs(pairs: Vec<(String, i32)>) -> (r: Self)
        ensures
            r@ == pairs_map(pairs@),
    {
        let mut r = AppliedTags::new();
        let mut k: usize = 0;
        assert(pairs@.take(0).len() == 0);
        while k < pairs.len()
            invariant
                k <= pairs@.len(),
                r@ == pairs_map(pairs@.take(k as int)),
            decreases pairs@.len() - k,
        {
            assert(pairs@.take(k + 1).drop_last() == pairs@.take(k as int));
            assert(pairs@.take(k + 1).last() == pairs@[k as int]);
            r.set(pairs[k].0.as_str(), Some(pairs[k].1));
            k = k + 1;
        }
        assert(pairs@.take(pairs@.len() as int) == pairs@);
        r
    }
}

/// The store with every row of book `b` dropped.
pub open spec fn without_book(m: Map<(i64, i64), Map<Seq<char>, i32>>, b: i64) -> Map<(i64, i64), Map<Seq<char>, i32>> {
    Map::new(|k: (i64, i64)| m.contains_key(k) && k.0 != b, |k: (i64, i64)| m[k])
}

/// The store with the given (word, row) rows of book `b` written in order.
pub open spec fn with_rows(
    m: Map<(i64, i64), Map<Seq<char>, i32>>,
    b: i64,
    rows: Seq<(i64, Map<Seq<char>, i32>)>,
) -> Map<(i64, i64), Map<Seq<char>, i32>>
    decreases rows.len(),
{
    if rows.len() == 0 {
        m
    } else {
        with_rows(m, b, rows.drop_last()).insert((b, rows.last().0), rows.last().1)
    }
}

/// The rows a book's tag listing describes.
pub open spec fn listing_rows(rows: Seq<(i64, Vec<(String, i32)>)>) -> Seq<(i64, Map<Seq<char>, i32>)> {
    rows.map_values(|r: (i64, Vec<(String, i32)>)| (r.0, pairs_map(r.1@)))
}

impl TagStore {
    /// Replace one book's rows with a fresh listing: every old row of the book goes
    /// (so removals take effect), then each listed word gets its row.
    pub fn replace_book(&mut self, b: i64, rows: Vec<(i64, Vec<(String, i32)>)>)
        ensures
            final(self)@ == with_rows(without_book(old(self)@, b), b, listing_rows(rows@)),
    {
        let ghost orig = self.words@;
        let mut v: Vec<((i64, i64), AppliedTags)> = Vec::new();
        std::mem::swap(&mut v, &mut self.words);
        let n = v.len();
        let mut k: usize = 0;
        assert(orig.take(0).len() == 0);
        assert(rows_map(self.words@) =~= without_book(rows_map(orig.take(0)), b));
        while k < n
            invariant
                n == orig.len(),
                k <= n,
                v@ == orig.skip(k as int),
                rows_map(self.words@) == without_book(rows_map(orig.take(k as int)), b),
            decreases n - k,
        {
            let e = v.remove(0);
            assert(e == orig[k as int]);
            assert(v@ == orig.skip(k + 1));
            assert(orig.take(k + 1).drop_last() == orig.take(k as int));
            assert(orig.take(k + 1).last() == e);
            let ghost before = rows_map(orig.take(k as int));
            if e.0.0 != b {
                let ghost prev = self.words@;
                self.words.push(e);
                assert(self.words@.drop_last() =~= prev);
                assert(rows_map(self.words@) =~= without_book(before.insert(e.0, e.1@), b));
            } else {
                assert(without_book(before.insert(e.0, e.1@), b) =~= without_book(before, b));
            }
            k = k + 1;
        }
        assert(orig.take(n as int) == orig);
        let ghost base = self@;
        let ghost lr = listing_rows(rows@);
        let mut rows = rows;
        let m = rows.len();
        let ghost all = rows@;
        let mut j: usize = 0;
        assert(lr.take(0).len() == 0);
        while j < m
            invariant
                m == all.len(),
                lr == listing_rows(all),
                j <= m,
                rows@ == all.skip(j as int),
                self@ == with_rows(base, b, lr.take(j as int)),
            decreases m - j,
        {
            let (w, pairs) = rows.remove(0);
            assert((w, pairs) == all[j as int]);
            assert(rows@ == all.skip(j + 1));
            assert(lr.take(j + 1).drop_last() == lr.take(j as int));
            assert(lr.take(j + 1).last() == lr[j as int]);
            let a = AppliedTags::from_pairs(pairs);
            self.put((b, w), a);
            j = j + 1;
        }
        assert(lr.take(m as int) == lr);
    }
}

/// The (tag, value) pairs of the rows for word `w`, in row order.
pub open spec fn pairs_for(rows: Seq<(i64, String, i32)>, w: i64) -> Seq<(Seq<char>, i32)>
    decreases rows.len(),
{
    if rows.len() == 0 {
        Seq::empty()
    } else {
        let r = rows.last();
        let before = pairs_for(rows.drop_last(), w);
        if r.0 == w {
            before.push((r.1@, r.2))
        } else {
            before
        }
    }
}

/// A list of (tag, value) pairs, each tag taken by its text.
pub open spec fn pairs_view(v: Seq<(String, i32)>) -> Seq<(Seq<char>, i32)> {
    v.map_values(|p: (String, i32)| (p.0@, p.1))
}

/// Where `w` first stands in `ids`, if it does.
fn position_of(ids: &Vec<i64>, w: i64) -> (r: Option<usize>)
    ensures
        r matches Some(q) ==> q < ids@.len() && ids@[q as int] == w,
        r is None ==> forall|q: int| 0 <= q < ids@.len() ==> ids@[q] != w,
{
    let mut i: usize = 0;
    while i < ids.len()
        invariant
            i <= ids@.len(),
            forall|q: int| 0 <= q < i ==> ids@[q] != w,
        decreases ids@.len() - i,
    {
        if ids[i] == w {
            return Some(i);
        }
        i = i + 1;
    }
    None
}

/// Some entry of the grouping is for word `w`.
pub open spec fn lists_word(groups: Seq<(i64, Vec<(String, i32)>)>, w: i64) -> bool {
    exists|i: int| 0 <= i < groups.len() && (#[trigger] groups[i]).0 == w
}

/// Group (word, tag, value) rows by word: one entry per word that occurs, holding
/// that word's (tag, value) pairs in row order.
pub fn group_tag_rows(rows: &Vec<(i64, String, i32)>) -> (r: Vec<(i64, Vec<(String, i32)>)>)
    ensures
        forall|i: int, j: int| 0 <= i < j < r@.len() ==> r@[i].0 != r@[j].0,
        forall|i: int| 0 <= i < r@.len() ==> pairs_view(#[trigger] r@[i].1@) == pairs_for(rows@, r@[i].0),
        forall|i: int| 0 <= i < r@.len() ==> (#[trigger] r@[i].1@).len() > 0,
        forall|kk: int| 0 <= kk < rows@.len() ==> lists_word(r@, (#[trigger] rows@[kk]).0),
{
    // `src[i]` is a row that names `ids[i]`; `pos[kk]` is where row `kk`'s word stands.
    let mut ids: Vec<i64> = Vec::new();
    let ghost mut src: Seq<int> = Seq::empty();
    let ghost mut pos: Seq<int> = Seq::empty();
    let mut k: usize = 0;
    while k < rows.len()
        invariant
            k <= rows@.len(),
            src.len() == ids@.len(),
            pos.len() == k,
            forall|i: int, j: int| 0 <= i < j < ids@.len() ==> ids@[i] != ids@[j],
            forall|i: int| 0 <= i < ids@.len() ==> 0 <= #[trigger] src[i] < k && rows@[src[i]].0 == ids@[i],
            forall|kk: int| 0 <= kk < k ==> 0 <= #[trigger] pos[kk] < ids@.len() && ids@[pos[kk]] == rows@[kk].0,
        decreases rows@.len() - k,
    {
        let w = rows[k].0;
        match position_of(&ids, w) {
            Some(q) => {
                proof {
                    pos = pos.push(q as int);
                }
            },
            None => {
                ids.push(w);
                proof {
                    src = src.push(k as int);
                    pos = pos.push(ids@.len() - 1);
                }
            },
        }
        k = k + 1;
    }
    let mut out: Vec<(i64, Vec<(String, i32)>)> = Vec::new();
    let mut j: usize = 0;
    while j < ids.len()
        invariant
            j <= ids@.len(),
            out@.len() == j,
            forall|a: int, b: int| 0 <= a < b < ids@.len() ==> ids@[a] != ids@[b],
            src.len() == ids@.len(),
            forall|i: int| 0 <= i < ids@.len() ==> 0 <= #[trigger] src[i] < rows@.len() && rows@[src[i]].0 == ids@[i],
            pos.len() == rows@.len(),
            forall|kk: int| 0 <= kk < rows@.len() ==> 0 <= #[trigger] pos[kk] < ids@.len() && ids@[pos[kk]] == rows@[kk].0,
            forall|i: int| 0 <= i < j ==> (#[trigger] out@[i]).0 == ids@[i],
            forall|i: int| 0 <= i < j ==> pairs_view(#[trigger] out@[i].1@) == pairs_for(rows@, out@[i].0),
            forall|i: int| 0 <= i < j ==> (#[trigger] out@[i].1@).len() > 0,
        decreases ids@.len() - j,
    {
        let w = ids[j];
        let ghost at = src[j as int];
        let mut g: Vec<(String, i32)> = Vec::new();
        let mut k: usize = 0;
        while k < rows.len()
            invariant
                k <= rows@.len(),
                0 <= at < rows@.len(),
                rows@[at].0 == w,
                pairs_view(g@) == pairs_for(rows@.take(k as int), w),
                at < k ==> g@.len() > 0,
            decreases rows@.len() - k,
        {
            assert(rows@.take(k + 1).drop_last() == rows@.take(k as int));
            assert(rows@.take(k + 1).last() == rows@[k as int]);
            if rows[k].0 == w {
                let t = rows[k].1.clone();
                let ghost before = g@;
                g.push((t, rows[k].2));
                assert(pairs_view(g@) =~= pairs_view(before).push((rows@[k as int].1@, rows@[k as int].2)));
            }
            k = k + 1;
        }
        assert(rows@.take(rows@.len() as int) == rows@);
        out.push((w, g));
        j = j + 1;
    }
    assert forall|kk: int| 0 <= kk < rows@.len() implies lists_word(out@, (#[trigger] rows@[kk]).0) by {
        let i = pos[kk];
        assert(out@[i].0 == ids@[i]);
    }
    out
}

} // verus!
