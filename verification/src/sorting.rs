//! Stable sorting by a key, with the result pinned down exactly: the insertion
//! sort that places every element after all earlier elements whose key is not
//! greater (the unique result of any stable sort).

use vstd::prelude::*;

verus! {

/// A key with a total preorder `key_le`, decidable at run time.
pub trait SortKey: Sized {
    spec fn key_le(self, other: Self) -> bool;

    /// Any two keys compare.
    proof fn lemma_key_total(a: Self, b: Self)
        ensures
            a.key_le(b) || b.key_le(a),
    ;

    /// The order chains.
    proof fn lemma_key_trans(a: Self, b: Self, c: Self)
        requires
            a.key_le(b),
            b.key_le(c),
        ensures
            a.key_le(c),
    ;

    fn le(&self, other: &Self) -> (r: bool)
        ensures
            r == self.key_le(*other),
    ;
}

/// Where a stable insertion of key `k` goes: before the first element whose key
/// is not `<= k`, or at the end.
pub open spec fn insert_pos<K: SortKey, T>(s: Seq<(K, T)>, k: K) -> int
    decreases s.len(),
{
    if s.len() == 0 {
        0
    } else if !s[0].0.key_le(k) {
        0
    } else {
        1 + insert_pos(s.drop_first(), k)
    }
}

/// `s` stably sorted by key.
pub open spec fn sorted_by_key<K: SortKey, T>(s: Seq<(K, T)>) -> Seq<(K, T)>
    decreases s.len(),
{
    if s.len() == 0 {
        s
    } else {
        let r = sorted_by_key(s.drop_last());
        r.insert(insert_pos(r, s.last().0), s.last())
    }
}

pub proof fn lemma_insert_pos<K: SortKey, T>(s: Seq<(K, T)>, k: K, p: int)
    requires
        0 <= p <= s.len(),
        forall|q: int| 0 <= q < p ==> #[trigger] s[q].0.key_le(k),
        p == s.len() || !s[p].0.key_le(k),
    ensures
        insert_pos(s, k) == p,
    decreases p,
{
    if p > 0 {
        assert(s[0].0.key_le(k));
        let t = s.drop_first();
        assert forall|q: int| 0 <= q < p - 1 implies #[trigger] t[q].0.key_le(k) by {
            assert(t[q] == s[q + 1]);
        }
        if p < s.len() {
            assert(t[p - 1] == s[p]);
        }
        lemma_insert_pos(t, k, p - 1);
    }
}

pub proof fn lemma_insert_pos_bounds<K: SortKey, T>(s: Seq<(K, T)>, k: K)
    ensures
        0 <= insert_pos(s, k) <= s.len(),
    decreases s.len(),
{
    if s.len() > 0 {
        lemma_insert_pos_bounds(s.drop_first(), k);
    }
}

pub proof fn lemma_sorted_len<K: SortKey, T>(s: Seq<(K, T)>)
    ensures
        sorted_by_key(s).len() == s.len(),
    decreases s.len(),
{
    if s.len() > 0 {
        lemma_sorted_len(s.drop_last());
        lemma_insert_pos_bounds(sorted_by_key(s.drop_last()), s.last().0);
    }
}

proof fn lemma_insert_pos_map<K: SortKey, T, U>(s: Seq<(K, T)>, k: K, f: spec_fn(T) -> U)
    ensures
        insert_pos(s.map_values(|p: (K, T)| (p.0, f(p.1))), k) == insert_pos(s, k),
    decreases s.len(),
{
    if s.len() > 0 {
        let m = s.map_values(|p: (K, T)| (p.0, f(p.1)));
        assert(m.drop_first() =~= s.drop_first().map_values(|p: (K, T)| (p.0, f(p.1))));
        assert(m[0].0 == s[0].0);
        lemma_insert_pos_map(s.drop_first(), k, f);
    }
}

/// Sorting by key commutes with changing the payloads (the keys stay).
pub proof fn lemma_sorted_map_values<K: SortKey, T, U>(s: Seq<(K, T)>, f: spec_fn(T) -> U)
    ensures
        sorted_by_key(s.map_values(|p: (K, T)| (p.0, f(p.1)))) == sorted_by_key(s).map_values(
            |p: (K, T)| (p.0, f(p.1)),
        ),
    decreases s.len(),
{
    if s.len() > 0 {
        let g = |p: (K, T)| (p.0, f(p.1));
        let init = s.drop_last();
        lemma_sorted_map_values(init, f);
        assert(s.map_values(g).drop_last() =~= init.map_values(g));
        assert(s.map_values(g).last() == g(s.last()));
        let r = sorted_by_key(init);
        lemma_insert_pos_map(r, s.last().0, f);
        lemma_insert_pos_bounds(r, s.last().0);
        let pos = insert_pos(r, s.last().0);
        assert(r.insert(pos, s.last()).map_values(g) =~= r.map_values(g).insert(pos, g(s.last())));
    }
}

proof fn lemma_insert_pos_facts<K: SortKey, T>(s: Seq<(K, T)>, k: K)
    ensures
        forall|q: int| 0 <= q < insert_pos(s, k) ==> #[trigger] s[q].0.key_le(k),
        insert_pos(s, k) < s.len() ==> !s[insert_pos(s, k)].0.key_le(k),
    decreases s.len(),
{
    lemma_insert_pos_bounds(s, k);
    if s.len() > 0 && s[0].0.key_le(k) {
        let t = s.drop_first();
        lemma_insert_pos_facts(t, k);
        assert forall|q: int| 0 <= q < insert_pos(s, k) implies #[trigger] s[q].0.key_le(k) by {
            if q > 0 {
                assert(s[q] == t[q - 1]);
            }
        }
        lemma_insert_pos_bounds(t, k);
        assert(insert_pos(s, k) == 1 + insert_pos(t, k));
        if insert_pos(s, k) < s.len() {
            assert(s[insert_pos(s, k)] == t[insert_pos(t, k)]);
        }
    }
}

/// The sort orders: no key comes after a key it is not "not greater" than.
pub proof fn lemma_sorted_ordered<K: SortKey, T>(s: Seq<(K, T)>)
    ensures
        forall|i: int, j: int|
            0 <= i < j < sorted_by_key(s).len() ==> (#[trigger] sorted_by_key(s)[i]).0.key_le(
                (#[trigger] sorted_by_key(s)[j]).0,
            ),
    decreases s.len(),
{
    if s.len() > 0 {
        let init = s.drop_last();
        let r = sorted_by_key(init);
        lemma_sorted_ordered(init);
        lemma_sorted_len(init);
        let x = s.last();
        let k = x.0;
        let p = insert_pos(r, k);
        lemma_insert_pos_bounds(r, k);
        lemma_insert_pos_facts(r, k);
        let out = r.insert(p, x);
        assert(out == sorted_by_key(s));
        assert forall|i: int, j: int| 0 <= i < j < out.len() implies (#[trigger] out[i]).0.key_le((#[trigger] out[j]).0) by {
            if j < p {
                assert(out[i] == r[i] && out[j] == r[j]);
            } else if j == p {
                assert(out[i] == r[i]);
            } else if i < p {
                assert(out[i] == r[i] && out[j] == r[j - 1]);
            } else if i == p {
                assert(out[j] == r[j - 1]);
                assert(out[i] == x);
                K::lemma_key_total(r[p].0, k);
                if p < j - 1 {
                    assert(r[p].0.key_le(r[j - 1].0));
                    K::lemma_key_trans(k, r[p].0, r[j - 1].0);
                }
            } else {
                assert(out[i] == r[i - 1] && out[j] == r[j - 1]);
            }
        }
    }
}

/// The sort keeps every element, each as often.
pub proof fn lemma_sorted_permutes<K: SortKey, T>(s: Seq<(K, T)>)
    ensures
        sorted_by_key(s).to_multiset() == s.to_multiset(),
    decreases s.len(),
{
    broadcast use vstd::seq_lib::group_to_multiset_ensures;

    if s.len() > 0 {
        let init = s.drop_last();
        let r = sorted_by_key(init);
        lemma_sorted_permutes(init);
        let x = s.last();
        let p = insert_pos(r, x.0);
        lemma_insert_pos_bounds(r, x.0);
        let a = r.take(p);
        let b = r.skip(p);
        assert(r == a + b);
        assert(r.insert(p, x) == a + seq![x] + b);
        vstd::seq_lib::lemma_multiset_commutative(a + seq![x], b);
        vstd::seq_lib::lemma_multiset_commutative(a, seq![x]);
        vstd::seq_lib::lemma_multiset_commutative(a, b);
        assert(seq![x] == Seq::<(K, T)>::empty().push(x));
        assert(s == init.push(x));
        assert(r.insert(p, x).to_multiset() =~= r.to_multiset().insert(x));
    }
}

/// Stable sort by key.
pub fn sort_by_key<K: SortKey, T>(v: Vec<(K, T)>) -> (r: Vec<(K, T)>)
    ensures
        r@ == sorted_by_key(v@),
{
    let ghost orig = v@;
    let mut v = v;
    let mut out: Vec<(K, T)> = Vec::new();
    let n = v.len();
    let mut i: usize = 0;
    assert(orig.take(0) == Seq::<(K, T)>::empty());
    while i < n
        invariant
            n == orig.len(),
            i <= n,
            v@ == orig.skip(i as int),
            out@ == sorted_by_key(orig.take(i as int)),
        decreases n - i,
    {
        proof {
            lemma_sorted_len(orig.take(i as int));
        }
        let x = v.remove(0);
        assert(x == orig[i as int]);
        assert(v@ == orig.skip(i + 1));
        let mut p: usize = 0;
        while p < out.len() && out[p].0.le(&x.0)
            invariant
                p <= out.len(),
                forall|q: int| 0 <= q < p ==> #[trigger] out@[q].0.key_le(x.0),
            decreases out.len() - p,
        {
            p = p + 1;
        }
        proof {
            lemma_insert_pos(out@, x.0, p as int);
            assert(orig.take(i + 1).drop_last() == orig.take(i as int));
            assert(orig.take(i + 1).last() == x);
        }
        out.insert(p, x);
        i = i + 1;
    }
    assert(orig.take(n as int) == orig);
    out
}

} // verus!
