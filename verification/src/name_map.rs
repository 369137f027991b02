//! A map keyed by name that keeps its entries in the order of names.

use crate::names::{
    lemma_name_lt_asymmetric, lemma_name_lt_irreflexive, lemma_name_lt_total,
    lemma_name_lt_transitive, name_lt, name_order, NameOrder,
};
use vstd::prelude::*;

verus! {

/// The entries stand in strictly ascending order of their keys.
pub open spec fn ascending<V>(s: Seq<(Seq<char>, V)>) -> bool {
    forall|i: int, j: int| 0 <= i < j < s.len() ==> name_lt(#[trigger] s[i].0, #[trigger] s[j].0)
}

/// Some entry has the key.
pub open spec fn has_key<V>(s: Seq<(Seq<char>, V)>, key: Seq<char>) -> bool {
    exists|i: int| 0 <= i < s.len() && #[trigger] s[i].0 == key
}

/// The index of the entry with the key.
pub open spec fn index_of<V>(s: Seq<(Seq<char>, V)>, key: Seq<char>) -> int {
    choose|i: int| 0 <= i < s.len() && #[trigger] s[i].0 == key
}

/// The value under the key, if some entry has it.
pub open spec fn lookup<V>(s: Seq<(Seq<char>, V)>, key: Seq<char>) -> Option<V> {
    if has_key(s, key) {
        Some(s[index_of(s, key)].1)
    } else {
        None
    }
}

/// The number of entries whose key comes before `key`: in ascending
/// entries, the place of `key`.
pub open spec fn rank<V>(s: Seq<(Seq<char>, V)>, key: Seq<char>) -> int
    decreases s.len(),
{
    if s.len() == 0 {
        0
    } else {
        rank(s.drop_last(), key) + if name_lt(s.last().0, key) {
            1int
        } else {
            0int
        }
    }
}

/// The entries with `value` under `key`: in place of the value that stood
/// there, or as a new entry at the key's place.
pub open spec fn put<V>(s: Seq<(Seq<char>, V)>, key: Seq<char>, value: V) -> Seq<(Seq<char>, V)> {
    if has_key(s, key) {
        s.update(rank(s, key), (key, value))
    } else {
        s.insert(rank(s, key), (key, value))
    }
}

/// The entries without the one under `key`.
pub open spec fn without<V>(s: Seq<(Seq<char>, V)>, key: Seq<char>) -> Seq<(Seq<char>, V)> {
    if has_key(s, key) {
        s.remove(rank(s, key))
    } else {
        s
    }
}

/// In ascending entries a key stands at one index only.
pub proof fn lemma_index_of<V>(s: Seq<(Seq<char>, V)>, i: int)
    requires
        ascending(s),
        0 <= i < s.len(),
    ensures
        has_key(s, s[i].0),
        index_of(s, s[i].0) == i,
        lookup(s, s[i].0) == Some(s[i].1),
{
    let j = index_of(s, s[i].0);
    if j < i {
        lemma_name_lt_irreflexive(s[i].0);
    } else if i < j {
        lemma_name_lt_irreflexive(s[i].0);
    }
}

/// Where the keys before `p` come before `key` and the others do not,
/// `p` is the rank of `key`.
pub proof fn lemma_rank<V>(s: Seq<(Seq<char>, V)>, key: Seq<char>, p: int)
    requires
        0 <= p <= s.len(),
        forall|i: int| 0 <= i < p ==> name_lt(#[trigger] s[i].0, key),
        forall|i: int| p <= i < s.len() ==> !name_lt(#[trigger] s[i].0, key),
    ensures
        rank(s, key) == p,
    decreases s.len(),
{
    if s.len() > 0 {
        let t = s.drop_last();
        if p == s.len() {
            lemma_rank(t, key, p - 1);
        } else {
            lemma_rank(t, key, p);
        }
    }
}

/// In ascending entries the rank of a key parts the keys before it from
/// the others, and is the index of the key where an entry has it.
pub proof fn lemma_rank_parts<V>(s: Seq<(Seq<char>, V)>, key: Seq<char>)
    requires
        ascending(s),
    ensures
        0 <= rank(s, key) <= s.len(),
        forall|i: int| 0 <= i < rank(s, key) ==> name_lt(#[trigger] s[i].0, key),
        forall|i: int| rank(s, key) <= i < s.len() ==> !name_lt(#[trigger] s[i].0, key),
        has_key(s, key) ==> rank(s, key) < s.len() && s[rank(s, key)].0 == key && index_of(s, key)
            == rank(s, key),
        !has_key(s, key) ==> forall|i: int|
            rank(s, key) <= i < s.len() ==> name_lt(key, #[trigger] s[i].0),
    decreases s.len(),
{
    if s.len() > 0 {
        let t = s.drop_last();
        let n = s.len() - 1;
        assert forall|i: int, j: int| 0 <= i < j < t.len() implies name_lt(
            #[trigger] t[i].0,
            #[trigger] t[j].0,
        ) by {
            assert(name_lt(s[i].0, s[j].0));
        }
        lemma_rank_parts(t, key);
        if name_lt(s[n].0, key) {
            // Every earlier key comes before the last, so before `key`.
            assert forall|i: int| 0 <= i < n implies name_lt(#[trigger] t[i].0, key) by {
                assert(name_lt(s[i].0, s[n].0));
                lemma_name_lt_transitive(s[i].0, s[n].0, key);
            }
            if rank(t, key) < n {
                assert(!name_lt(t[rank(t, key)].0, key));
            }
            assert(rank(s, key) == n + 1);
        }
        assert forall|i: int| 0 <= i < rank(s, key) implies name_lt(#[trigger] s[i].0, key) by {
            if i < n {
                assert(s[i] == t[i]);
            }
        }
        assert forall|i: int| rank(s, key) <= i < s.len() implies !name_lt(
            #[trigger] s[i].0,
            key,
        ) by {
            if i < n {
                assert(s[i] == t[i]);
            }
        }
    }
    let r = rank(s, key);
    if has_key(s, key) {
        let i = index_of(s, key);
        lemma_name_lt_irreflexive(key);
        assert(r <= i);
        if r < i {
            assert(name_lt(s[r].0, s[i].0));
        }
    } else {
        assert forall|i: int| r <= i < s.len() implies name_lt(key, #[trigger] s[i].0) by {
            lemma_name_lt_total(s[i].0, key);
        }
    }
}

/// Putting a value under a key keeps the order, sets that key and leaves
/// the other keys as they were.
pub proof fn lemma_put<V>(s: Seq<(Seq<char>, V)>, key: Seq<char>, value: V)
    requires
        ascending(s),
    ensures
        ascending(put(s, key, value)),
        put(s, key, value).len() == s.len() + if has_key(s, key) {
            0int
        } else {
            1int
        },
        lookup(put(s, key, value), key) == Some(value),
        forall|other: Seq<char>|
            other != key ==> lookup(put(s, key, value), other) == lookup(s, other) && has_key(
                put(s, key, value),
                other,
            ) == has_key(s, other),
{
    let p = put(s, key, value);
    let r = rank(s, key);
    lemma_rank_parts(s, key);
    assert forall|i: int, j: int| 0 <= i < j < p.len() implies name_lt(
        #[trigger] p[i].0,
        #[trigger] p[j].0,
    ) by {
        if has_key(s, key) {
            assert(name_lt(s[i].0, s[j].0));
        } else {
            let oi = if i < r { i } else { i - 1 };
            let oj = if j < r { j } else { j - 1 };
            if i == r {
                assert(name_lt(key, s[oj].0));
            } else if j == r {
                assert(name_lt(s[oi].0, key));
            } else {
                assert(name_lt(s[oi].0, s[oj].0));
            }
        }
    }
    assert(p[r].0 == key);
    lemma_index_of(p, r);
    assert forall|other: Seq<char>| other != key implies lookup(p, other) == lookup(s, other)
        && has_key(p, other) == has_key(s, other) by {
        if has_key(s, other) {
            let i = index_of(s, other);
            let pi = if has_key(s, key) || i < r { i } else { i + 1 };
            assert(p[pi] == s[i]);
            lemma_index_of(p, pi);
        }
        if has_key(p, other) {
            let i = index_of(p, other);
            let si = if has_key(s, key) || i < r { i } else { i - 1 };
            assert(p[i] == s[si]);
            lemma_index_of(s, si);
            lemma_index_of(p, i);
        }
    }
}

/// Taking a key out keeps the order, clears that key and leaves the other
/// keys as they were.
pub proof fn lemma_without<V>(s: Seq<(Seq<char>, V)>, key: Seq<char>)
    requires
        ascending(s),
    ensures
        ascending(without(s, key)),
        without(s, key).len() == s.len() - if has_key(s, key) {
            1int
        } else {
            0int
        },
        !has_key(without(s, key), key),
        forall|other: Seq<char>|
            other != key ==> lookup(without(s, key), other) == lookup(s, other) && has_key(
                without(s, key),
                other,
            ) == has_key(s, other),
{
    let p = without(s, key);
    let r = rank(s, key);
    lemma_rank_parts(s, key);
    if has_key(s, key) {
        assert forall|i: int, j: int| 0 <= i < j < p.len() implies name_lt(
            #[trigger] p[i].0,
            #[trigger] p[j].0,
        ) by {
            let oi = if i < r { i } else { i + 1 };
            let oj = if j < r { j } else { j + 1 };
            assert(name_lt(s[oi].0, s[oj].0));
        }
        if has_key(p, key) {
            let i = index_of(p, key);
            let si = if i < r { i } else { i + 1 };
            assert(p[i] == s[si]);
            lemma_index_of(s, si);
        }
        assert forall|other: Seq<char>| other != key implies lookup(p, other) == lookup(s, other)
            && has_key(p, other) == has_key(s, other) by {
            if has_key(s, other) {
                let i = index_of(s, other);
                let pi = if i < r { i } else { i - 1 };
                assert(p[pi] == s[i]);
                lemma_index_of(p, pi);
            }
            if has_key(p, other) {
                let i = index_of(p, other);
                let si = if i < r { i } else { i + 1 };
                assert(p[i] == s[si]);
                lemma_index_of(s, si);
                lemma_index_of(p, i);
            }
        }
    }
}

/// Whether a key occurs, and its rank, depend on the keys alone.
pub proof fn lemma_same_keys<V, W>(s: Seq<(Seq<char>, V)>, t: Seq<(Seq<char>, W)>, key: Seq<char>)
    requires
        s.len() == t.len(),
        forall|i: int| 0 <= i < s.len() ==> (#[trigger] s[i]).0 == t[i].0,
    ensures
        has_key(s, key) == has_key(t, key),
        rank(s, key) == rank(t, key),
        ascending(s) == ascending(t),
    decreases s.len(),
{
    if has_key(s, key) {
        let i = index_of(s, key);
        assert(t[i].0 == key);
    }
    if has_key(t, key) {
        let i = index_of(t, key);
        assert(s[i].0 == key);
    }
    if s.len() > 0 {
        let s1 = s.drop_last();
        let t1 = t.drop_last();
        assert forall|i: int| 0 <= i < s1.len() implies (#[trigger] s1[i]).0 == t1[i].0 by {
            assert(s[i].0 == t[i].0);
        }
        lemma_same_keys(s1, t1, key);
        assert(s[s.len() - 1].0 == t[s.len() - 1].0);
    }
    if ascending(s) {
        assert forall|i: int, j: int| 0 <= i < j < t.len() implies name_lt(
            #[trigger] t[i].0,
            #[trigger] t[j].0,
        ) by {
            assert(name_lt(s[i].0, s[j].0));
        }
    }
    if ascending(t) {
        assert forall|i: int, j: int| 0 <= i < j < s.len() implies name_lt(
            #[trigger] s[i].0,
            #[trigger] s[j].0,
        ) by {
            assert(name_lt(t[i].0, t[j].0));
        }
    }
}

/// Ascending entries with the same keys have them at the same places.
pub proof fn lemma_same_key_set<V, W>(s: Seq<(Seq<char>, V)>, t: Seq<(Seq<char>, W)>)
    requires
        ascending(s),
        ascending(t),
        forall|key: Seq<char>| has_key(s, key) <==> has_key(t, key),
    ensures
        s.len() == t.len(),
        forall|i: int| 0 <= i < s.len() ==> (#[trigger] s[i]).0 == t[i].0,
    decreases s.len(),
{
    if s.len() == 0 {
        if t.len() > 0 {
            assert(has_key(t, t[0].0));
        }
    } else {
        let n = s.len() - 1;
        let top = s[n].0;
        assert(has_key(s, s[0].0));
        let m = t.len() - 1;
        assert(has_key(s, top));
        assert(has_key(t, t[m].0));
        let j = index_of(t, top);
        let i = index_of(s, t[m].0);
        if i < n {
            assert(name_lt(s[i].0, s[n].0));
        }
        if j < m {
            assert(name_lt(t[j].0, t[m].0));
            lemma_name_lt_asymmetric(t[j].0, t[m].0);
        }
        assert(top == t[m].0);
        let s1 = s.drop_last();
        let t1 = t.drop_last();
        assert forall|a: int, b: int| 0 <= a < b < s1.len() implies name_lt(
            #[trigger] s1[a].0,
            #[trigger] s1[b].0,
        ) by {
            assert(name_lt(s[a].0, s[b].0));
        }
        assert forall|a: int, b: int| 0 <= a < b < t1.len() implies name_lt(
            #[trigger] t1[a].0,
            #[trigger] t1[b].0,
        ) by {
            assert(name_lt(t[a].0, t[b].0));
        }
        assert forall|key: Seq<char>| has_key(s1, key) <==> has_key(t1, key) by {
            lemma_name_lt_irreflexive(top);
            if has_key(s1, key) {
                let a = index_of(s1, key);
                assert(s1[a] == s[a]);
                assert(name_lt(s[a].0, s[n].0));
                assert(has_key(s, key));
                let b = index_of(t, key);
                assert(b != m);
                assert(t1[b] == t[b]);
            }
            if has_key(t1, key) {
                let b = index_of(t1, key);
                assert(t1[b] == t[b]);
                assert(name_lt(t[b].0, t[m].0));
                assert(has_key(t, key));
                let a = index_of(s, key);
                assert(a != n);
                assert(s1[a] == s[a]);
            }
        }
        lemma_same_key_set(s1, t1);
        assert forall|a: int| 0 <= a < s.len() implies (#[trigger] s[a]).0 == t[a].0 by {
            if a < n {
                assert(s1[a].0 == t1[a].0);
            }
        }
    }
}

/// A map from names to values, in the order of names.
#[derive(Clone, Debug, PartialEq, Eq)]
pub struct NameMap<V> {
    entries: Vec<(String, V)>,
}

impl<V> View for NameMap<V> {
    type V = Seq<(Seq<char>, V)>;

    closed spec fn view(&self) -> Seq<(Seq<char>, V)> {
        Seq::new(self.entries.len() as nat, |i: int| (self.entries[i].0@, self.entries[i].1))
    }
}

impl<V> NameMap<V> {
    /// No key occurs twice, and the entries stand in the order of names.
    pub open spec fn wf(&self) -> bool {
        ascending(self@)
    }

    /// A map without entries.
    pub fn new() -> (r: Self)
        ensures
            r.wf(),
            r@ == Seq::<(Seq<char>, V)>::empty(),
    {
        let r = NameMap { entries: Vec::new() };
        assert(r@ =~= Seq::<(Seq<char>, V)>::empty());
        r
    }

    /// The number of entries.
    pub fn len(&self) -> (r: usize)
        ensures
            r == self@.len(),
    {
        self.entries.len()
    }

    /// Whether the map has no entry.
    pub fn is_empty(&self) -> (r: bool)
        ensures
            r == (self@.len() == 0),
    {
        self.entries.len() == 0
    }

    /// The entries in the order of names.
    pub fn entries(&self) -> (r: &[(String, V)])
        ensures
            r@.len() == self@.len(),
            forall|i: int| 0 <= i < r@.len() ==> (#[trigger] r@[i]).0@ == self@[i].0 && r@[i].1 == self@[i].1,
    {
        self.entries.as_slice()
    }

    /// The key of the entry at `i`.
    pub fn key_at(&self, i: usize) -> (r: &String)
        requires
            i < self@.len(),
        ensures
            r@ == self@[i as int].0,
    {
        &self.entries[i].0
    }

    /// The value of the entry at `i`.
    pub fn value_at(&self, i: usize) -> (r: &V)
        requires
            i < self@.len(),
        ensures
            *r == self@[i as int].1,
    {
        &self.entries[i].1
    }

    /// The value of the entry at `i`, to be changed in place.
    pub fn value_at_mut(&mut self, i: usize) -> (r: &mut V)
        requires
            i < old(self)@.len(),
        ensures
            *r == old(self)@[i as int].1,
            final(self)@ == old(self)@.update(i as int, (old(self)@[i as int].0, *final(r))),
    {
        &mut self.entries[i].1
    }

    /// Whether an entry has the key, and the place of the key among the
    /// entries.
    pub fn search(&self, key: &str) -> (r: (bool, usize))
        requires
            self.wf(),
        ensures
            r.0 == has_key(self@, key@),
            r.1 == rank(self@, key@),
            r.1 <= self@.len(),
            r.0 ==> r.1 < self@.len() && self@[r.1 as int].0 == key@,
            forall|i: int| 0 <= i < r.1 ==> name_lt(#[trigger] self@[i].0, key@),
            forall|i: int|
                r.1 + (if r.0 {
                    1int
                } else {
                    0int
                }) <= i < self@.len() ==> name_lt(key@, #[trigger] self@[i].0),
    {
        let mut lo: usize = 0;
        let mut hi: usize = self.entries.len();
        while lo < hi
            invariant
                self.wf(),
                0 <= lo <= hi <= self@.len(),
                self@.len() == self.entries.len(),
                forall|i: int| 0 <= i < lo ==> name_lt(#[trigger] self@[i].0, key@),
                forall|i: int| hi <= i < self@.len() ==> name_lt(key@, #[trigger] self@[i].0),
            decreases hi - lo,
        {
            let mid: usize = lo + (hi - lo) / 2;
            let at = self.entries[mid].0.as_str();
            assert(at@ == self@[mid as int].0);
            match name_order(at, key) {
                NameOrder::Before => {
                    proof {
                        assert forall|i: int| 0 <= i < mid + 1 implies name_lt(
                            #[trigger] self@[i].0,
                            key@,
                        ) by {
                            if i < mid {
                                lemma_name_lt_transitive(self@[i].0, self@[mid as int].0, key@);
                            }
                        }
                    }
                    lo = mid + 1;
                },
                NameOrder::Same => {
                    proof {
                        assert forall|i: int| mid + 1 <= i < self@.len() implies name_lt(
                            key@,
                            #[trigger] self@[i].0,
                        ) by {
                            assert(name_lt(self@[mid as int].0, self@[i].0));
                        }
                        assert forall|i: int| mid <= i < self@.len() implies !name_lt(
                            #[trigger] self@[i].0,
                            key@,
                        ) by {
                            if i == mid {
                                lemma_name_lt_irreflexive(key@);
                            } else {
                                lemma_name_lt_asymmetric(key@, self@[i].0);
                            }
                        }
                        assert forall|i: int| 0 <= i < mid implies name_lt(
                            #[trigger] self@[i].0,
                            key@,
                        ) by {
                            assert(name_lt(self@[i].0, self@[mid as int].0));
                        }
                        lemma_rank(self@, key@, mid as int);
                    }
                    return (true, mid);
                },
                NameOrder::After => {
                    proof {
                        assert forall|i: int| mid <= i < self@.len() implies name_lt(
                            key@,
                            #[trigger] self@[i].0,
                        ) by {
                            if mid < i {
                                lemma_name_lt_transitive(key@, self@[mid as int].0, self@[i].0);
                            }
                        }
                    }
                    hi = mid;
                },
            }
        }
        proof {
            assert forall|i: int| lo <= i < self@.len() implies !name_lt(
                #[trigger] self@[i].0,
                key@,
            ) by {
                lemma_name_lt_asymmetric(key@, self@[i].0);
            }
            lemma_rank(self@, key@, lo as int);
            if has_key(self@, key@) {
                let i = index_of(self@, key@);
                lemma_name_lt_irreflexive(key@);
                if i < lo {
                    assert(name_lt(self@[i].0, key@));
                } else {
                    assert(name_lt(key@, self@[i].0));
                }
            }
        }
        (false, lo)
    }

    /// Whether an entry has the key.
    pub fn contains_key(&self, key: &str) -> (r: bool)
        requires
            self.wf(),
        ensures
            r == has_key(self@, key@),
    {
        self.search(key).0
    }

    /// The value under the key.
    pub fn get(&self, key: &str) -> (r: Option<&V>)
        requires
            self.wf(),
        ensures
            match r {
                Some(v) => lookup(self@, key@) == Some(*v),
                None => lookup(self@, key@) is None,
            },
    {
        let (found, at) = self.search(key);
        if found {
            proof {
                lemma_index_of(self@, at as int);
            }
            Some(&self.entries[at].1)
        } else {
            None
        }
    }

    /// Puts the value under the key, and hands back the value that stood
    /// there before.
    pub fn insert(&mut self, key: String, value: V) -> (r: Option<V>)
        requires
            old(self).wf(),
        ensures
            final(self).wf(),
            r == lookup(old(self)@, key@),
            final(self)@ == put(old(self)@, key@, value),
    {
        let (found, at) = self.search(key.as_str());
        if found {
            proof {
                lemma_index_of(self@, at as int);
            }
            let (_, prev) = self.entries.remove(at);
            self.entries.insert(at, (key, value));
            proof {
                assert(self@ =~= old(self)@.update(at as int, (key@, value)));
            }
            Some(prev)
        } else {
            self.entries.insert(at, (key, value));
            proof {
                assert(self@ =~= old(self)@.insert(at as int, (key@, value)));
                assert forall|i: int, j: int| 0 <= i < j < self@.len() implies name_lt(
                    #[trigger] self@[i].0,
                    #[trigger] self@[j].0,
                ) by {
                    if i < at && j > at {
                        assert(name_lt(old(self)@[i].0, key@));
                        assert(name_lt(key@, old(self)@[j - 1].0));
                    } else if i < at && j < at {
                        assert(name_lt(old(self)@[i].0, old(self)@[j].0));
                    } else if i > at {
                        assert(name_lt(old(self)@[i - 1].0, old(self)@[j - 1].0));
                    } else if i == at {
                        assert(name_lt(key@, old(self)@[j - 1].0));
                    } else {
                        assert(name_lt(old(self)@[i].0, key@));
                    }
                }
            }
            None
        }
    }

    /// Takes the entry with the key out, and hands back its value.
    pub fn remove(&mut self, key: &str) -> (r: Option<V>)
        requires
            old(self).wf(),
        ensures
            final(self).wf(),
            r == lookup(old(self)@, key@),
            final(self)@ == without(old(self)@, key@),
    {
        let (found, at) = self.search(key);
        if found {
            proof {
                lemma_index_of(self@, at as int);
            }
            let (_, prev) = self.entries.remove(at);
            proof {
                assert(self@ =~= old(self)@.remove(at as int));
                assert forall|i: int, j: int| 0 <= i < j < self@.len() implies name_lt(
                    #[trigger] self@[i].0,
                    #[trigger] self@[j].0,
                ) by {
                    let oi = if i < at { i } else { i + 1 };
                    let oj = if j < at { j } else { j + 1 };
                    assert(name_lt(old(self)@[oi].0, old(self)@[oj].0));
                }
            }
            Some(prev)
        } else {
            None
        }
    }
}

} // verus!
