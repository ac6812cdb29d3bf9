//! Ordered maps and sets.
//!
//! An [`OrdMap`] keeps its entries sorted by key, so walking it by index visits
//! the keys in ascending order whatever order they were inserted in.
use vstd::prelude::*;

use crate::key::OrdKey;
use crate::key::Rank;

verus! {

/// A value that can be duplicated without losing what it means.
pub trait Dup: Sized + DeepView {
    /// What the value's own invariant asks, if it has one.
    spec fn dup_inv(&self) -> bool;

    fn dup(&self) -> (r: Self)
        requires
            self.dup_inv(),
        ensures
            r.dup_inv(),
            r.deep_view() == self.deep_view(),
    ;
}

/// A map whose entries are kept in ascending key order, one per key.
#[derive(Clone, Debug, PartialEq, Eq)]
pub struct OrdMap<K, V> {
    entries: Vec<(K, V)>,
}

/// A strictly ascending sequence of keys.
pub open spec fn ascending<K: OrdKey>(keys: Seq<K::V>) -> bool {
    forall|i: int, j: int| 0 <= i < j < keys.len() ==> K::lt(#[trigger] keys[i], #[trigger] keys[j])
}

/// An ascending sequence names each key once.
pub proof fn lemma_ascending_distinct<K: OrdKey>(keys: Seq<K::V>)
    requires
        ascending::<K>(keys),
    ensures
        keys.no_duplicates(),
{
    assert forall|i: int, j: int| 0 <= i < keys.len() && 0 <= j < keys.len() && i != j implies keys[i]
        != keys[j] by {
        K::lt_irreflexive(keys[i]);
        if i < j {
            assert(K::lt(keys[i], keys[j]));
        } else {
            assert(K::lt(keys[j], keys[i]));
        }
    }
}

/// Two ascending sequences of the same keys are the same sequence.
pub proof fn lemma_ascending_unique<K: OrdKey>(a: Seq<K::V>, b: Seq<K::V>)
    requires
        ascending::<K>(a),
        ascending::<K>(b),
        forall|k: K::V| a.contains(k) <==> b.contains(k),
    ensures
        a == b,
    decreases a.len(),
{
    if a.len() == 0 {
        if b.len() > 0 {
            assert(b.contains(b[0]));
            assert(a.contains(b[0]));
        }
        assert(a =~= b);
    } else {
        assert(a.contains(a.last()));
        assert(b.contains(a.last()));
        assert(b.contains(b.last()));
        assert(a.contains(b.last()));
        let i = b.index_of(a.last());
        let j = a.index_of(b.last());
        if a.last() != b.last() {
            assert(K::lt(b[i], b.last()));
            assert(K::lt(a[j], a.last()));
            K::lt_transitive(a.last(), b.last(), a.last());
            K::lt_irreflexive(a.last());
        }
        let a1 = a.drop_last();
        let b1 = b.drop_last();
        lemma_ascending_distinct::<K>(a);
        lemma_ascending_distinct::<K>(b);
        assert forall|k: K::V| a1.contains(k) <==> b1.contains(k) by {
            if a1.contains(k) {
                let m = a1.index_of(k);
                assert(a[m] == k);
                assert(a.contains(k));
                let n = b.index_of(k);
                assert(b[n] == k);
                assert(n != b.len() - 1);
                assert(b1[n] == k);
            }
            if b1.contains(k) {
                let m = b1.index_of(k);
                assert(b[m] == k);
                assert(b.contains(k));
                let n = a.index_of(k);
                assert(a[n] == k);
                assert(n != a.len() - 1);
                assert(a1[n] == k);
            }
        }
        lemma_ascending_unique::<K>(a1, b1);
        assert(a =~= a1.push(a.last()));
        assert(b =~= b1.push(b.last()));
    }
}

impl<K: OrdKey, V> View for OrdMap<K, V> {
    type V = Map<K::V, V>;

    closed spec fn view(&self) -> Map<K::V, V> {
        Map::new(
            |k: K::V| self.key_seq().contains(k),
            |k: K::V| self.entries@[self.key_seq().index_of(k)].1,
        )
    }
}

impl<K: OrdKey, V: DeepView> DeepView for OrdMap<K, V> {
    type V = Map<K::V, V::V>;

    open spec fn deep_view(&self) -> Map<K::V, V::V> {
        self@.map_values(|v: V| v.deep_view())
    }
}

impl<K: OrdKey, V> OrdMap<K, V> {
    /// The keys in the order they are held.
    pub closed spec fn key_seq(&self) -> Seq<K::V> {
        Seq::new(self.entries@.len(), |i: int| self.entries@[i].0.deep_view())
    }

    /// The entries are in strictly ascending key order.
    pub open spec fn wf(&self) -> bool {
        ascending::<K>(self.key_seq())
    }

    /// What a well-formed map's key sequence says of its contents.
    pub proof fn lemma_keys(&self)
        requires
            self.wf(),
        ensures
            self.key_seq().no_duplicates(),
            forall|k: K::V| self.key_seq().contains(k) <==> #[trigger] self@.contains_key(k),
            self@.dom().finite(),
            self@.dom().len() == self.key_seq().len(),
            self@.dom() == self.key_seq().to_set(),
    {
        lemma_ascending_distinct::<K>(self.key_seq());
        assert(self@.dom() =~= self.key_seq().to_set());
        self.key_seq().unique_seq_to_set();
    }

    proof fn lemma_at(&self, i: int)
        requires
            self.wf(),
            0 <= i < self.key_seq().len(),
        ensures
            self@.contains_key(self.key_seq()[i]),
            self@[self.key_seq()[i]] == self.entries@[i].1,
            self.key_seq().index_of(self.key_seq()[i]) == i,
            self.key_seq()[i] == self.entries@[i].0.deep_view(),
    {
        lemma_ascending_distinct::<K>(self.key_seq());
        assert(self.key_seq().contains(self.key_seq()[i]));
    }

    /// Replacing the value of one entry replaces that key's value and nothing else.
    proof fn lemma_updated(before: Self, after: Self, at: int)
        requires
            before.wf(),
            0 <= at < before.entries@.len(),
            after.entries@.len() == before.entries@.len(),
            after.entries@[at].0.deep_view() == before.entries@[at].0.deep_view(),
            forall|i: int|
                0 <= i < before.entries@.len() && i != at ==> after.entries@[i]
                    == before.entries@[i],
        ensures
            after.wf(),
            after.key_seq() == before.key_seq(),
            after@ == before@.insert(before.key_seq()[at], after.entries@[at].1),
    {
        let keys = before.key_seq();
        assert(after.key_seq() =~= keys);
        lemma_ascending_distinct::<K>(keys);
        let want = before@.insert(keys[at], after.entries@[at].1);
        assert forall|c: K::V| #[trigger] after@.contains_key(c) implies want.contains_key(c)
            && after@[c] == want[c] by {
            let i = keys.index_of(c);
            assert(keys[i] == c);
            before.lemma_at(i);
            after.lemma_at(i);
        }
        assert forall|c: K::V| #[trigger] want.contains_key(c) implies after@.contains_key(c) by {
            if c == keys[at] {
                after.lemma_at(at);
            }
        }
        assert(after@ =~= want);
    }

    /// The empty map.
    pub fn new() -> (r: Self)
        ensures
            r.wf(),
            r@ == Map::<K::V, V>::empty(),
            r.key_seq() == Seq::<K::V>::empty(),
    {
        let r = OrdMap { entries: Vec::new() };
        assert(r.key_seq() =~= Seq::<K::V>::empty());
        assert(r@ =~= Map::<K::V, V>::empty());
        r
    }

    /// How many keys the map holds.
    pub fn len(&self) -> (r: usize)
        ensures
            r == self.key_seq().len(),
            self.wf() ==> r == self@.dom().len(),
    {
        proof {
            if self.wf() {
                self.lemma_keys();
            }
        }
        self.entries.len()
    }

    pub fn is_empty(&self) -> (r: bool)
        ensures
            r == (self.key_seq().len() == 0),
            self.wf() ==> r == (self@ == Map::<K::V, V>::empty()),
    {
        proof {
            if self.wf() {
                self.lemma_keys();
                if self.key_seq().len() == 0 {
                    assert(self@ =~= Map::<K::V, V>::empty());
                } else {
                    self.lemma_at(0);
                }
            }
        }
        self.entries.len() == 0
    }

    /// The `i`-th key in ascending order.
    pub fn key_at(&self, i: usize) -> (r: &K)
        requires
            i < self.key_seq().len(),
        ensures
            r.deep_view() == self.key_seq()[i as int],
            self.wf() ==> self@.contains_key(r.deep_view()),
    {
        proof {
            if self.wf() {
                self.lemma_at(i as int);
            }
        }
        &self.entries[i].0
    }

    /// The value of the `i`-th key in ascending order.
    pub fn value_at(&self, i: usize) -> (r: &V)
        requires
            self.wf(),
            i < self.key_seq().len(),
        ensures
            self@.contains_key(self.key_seq()[i as int]),
            *r == self@[self.key_seq()[i as int]],
    {
        proof {
            self.lemma_at(i as int);
        }
        &self.entries[i].1
    }

    /// Where `key` is, or where it would go: the number of smaller keys, and
    /// whether the entry there holds `key`.
    fn locate(&self, key: &K) -> (r: (usize, bool))
        requires
            self.wf(),
        ensures
            r.0 <= self.key_seq().len(),
            forall|i: int|
                0 <= i < r.0 ==> K::lt(#[trigger] self.key_seq()[i], key.deep_view()),
            forall|i: int|
                r.0 + (if r.1 { 1int } else { 0int }) <= i < self.key_seq().len() ==> K::lt(
                    key.deep_view(),
                    #[trigger] self.key_seq()[i],
                ),
            r.1 ==> r.0 < self.key_seq().len() && self.key_seq()[r.0 as int] == key.deep_view(),
            r.1 == self@.contains_key(key.deep_view()),
    {
        let mut lo: usize = 0;
        let mut hi: usize = self.entries.len();
        let ghost keys = self.key_seq();
        let ghost k = key.deep_view();
        while lo < hi
            invariant
                self.wf(),
                keys == self.key_seq(),
                k == key.deep_view(),
                lo <= hi <= keys.len(),
                keys.len() == self.entries@.len(),
                forall|i: int| 0 <= i < lo ==> K::lt(#[trigger] keys[i], k),
                forall|i: int| hi <= i < keys.len() ==> K::lt(k, #[trigger] keys[i]),
            decreases hi - lo,
        {
            let mid: usize = lo + (hi - lo) / 2;
            let at = &self.entries[mid].0;
            assert(at.deep_view() == keys[mid as int]);
            match at.rank(key) {
                Rank::Below => {
                    proof {
                        assert forall|i: int| 0 <= i < mid + 1 implies K::lt(
                            #[trigger] keys[i],
                            k,
                        ) by {
                            if i < mid {
                                assert(K::lt(keys[i], keys[mid as int]));
                                K::lt_transitive(keys[i], keys[mid as int], k);
                            }
                        }
                    }
                    lo = mid + 1;
                },
                Rank::Above => {
                    proof {
                        assert forall|i: int| mid <= i < keys.len() implies K::lt(
                            k,
                            #[trigger] keys[i],
                        ) by {
                            if mid < i {
                                assert(K::lt(keys[mid as int], keys[i]));
                                K::lt_transitive(k, keys[mid as int], keys[i]);
                            }
                        }
                    }
                    hi = mid;
                },
                Rank::Same => {
                    proof {
                        self.lemma_at(mid as int);
                        assert forall|i: int| 0 <= i < mid implies K::lt(
                            #[trigger] keys[i],
                            k,
                        ) by {
                            assert(K::lt(keys[i], keys[mid as int]));
                        }
                        assert forall|i: int| mid + 1 <= i < keys.len() implies K::lt(
                            k,
                            #[trigger] keys[i],
                        ) by {
                            assert(K::lt(keys[mid as int], keys[i]));
                        }
                    }
                    return (mid, true);
                },
            }
        }
        proof {
            if self@.contains_key(k) {
                let i = keys.index_of(k);
                assert(keys[i] == k);
                K::lt_irreflexive(k);
                assert(false);
            }
        }
        (lo, false)
    }

    /// The value at `key`, if there is one.
    pub fn get(&self, key: &K) -> (r: Option<&V>)
        requires
            self.wf(),
        ensures
            r is Some == self@.contains_key(key.deep_view()),
            r is Some ==> *r->0 == self@[key.deep_view()],
    {
        let (at, found) = self.locate(key);
        if found {
            proof {
                self.lemma_at(at as int);
            }
            Some(&self.entries[at].1)
        } else {
            None
        }
    }

    pub fn contains_key(&self, key: &K) -> (r: bool)
        requires
            self.wf(),
        ensures
            r == self@.contains_key(key.deep_view()),
    {
        self.locate(key).1
    }

    /// Set `key` to `value`, handing back the value it replaces.
    pub fn insert(&mut self, key: K, value: V) -> (r: Option<V>)
        requires
            old(self).wf(),
        ensures
            final(self).wf(),
            final(self)@ == old(self)@.insert(key.deep_view(), value),
            r is Some == old(self)@.contains_key(key.deep_view()),
            r is Some ==> r->0 == old(self)@[key.deep_view()],
            old(self)@.contains_key(key.deep_view()) ==> final(self).key_seq() == old(
                self,
            ).key_seq(),
    {
        let ghost k = key.deep_view();
        let ghost keys = self.key_seq();
        let (at, found) = self.locate(&key);
        if found {
            proof {
                self.lemma_at(at as int);
            }
            let ghost before = *self;
            let old_entry = self.entries.remove(at);
            self.entries.insert(at, (key, value));
            proof {
                Self::lemma_updated(before, *self, at as int);
            }
            Some(old_entry.1)
        } else {
            let ghost before = *self;
            self.entries.insert(at, (key, value));
            proof {
                let now = self.key_seq();
                assert(now =~= keys.insert(at as int, k));
                assert(ascending::<K>(now)) by {
                    assert forall|i: int, j: int| 0 <= i < j < now.len() implies K::lt(
                        #[trigger] now[i],
                        #[trigger] now[j],
                    ) by {
                        let i0 = if i < at { i } else { i - 1 };
                        let j0 = if j < at { j } else { j - 1 };
                        if i == at {
                            assert(now[j] == keys[j0]);
                        } else if j == at {
                            assert(now[i] == keys[i0]);
                        } else {
                            assert(now[i] == keys[i0]);
                            assert(now[j] == keys[j0]);
                        }
                    }
                }
                let want = before@.insert(k, value);
                assert forall|c: K::V| #[trigger] want.contains_key(c) implies self@.contains_key(c)
                    && self@[c] == want[c] by {
                    if c == k {
                        self.lemma_at(at as int);
                    } else {
                        let i = keys.index_of(c);
                        assert(keys[i] == c);
                        before.lemma_at(i);
                        let i1 = if i < at { i } else { i + 1 };
                        assert(now[i1] == c);
                        self.lemma_at(i1);
                    }
                }
                assert forall|c: K::V| #[trigger] self@.contains_key(c) implies want.contains_key(
                    c,
                ) by {
                    let i = now.index_of(c);
                    assert(now[i] == c);
                    if i != at {
                        let i0 = if i < at { i } else { i - 1 };
                        assert(keys[i0] == c);
                        before.lemma_at(i0);
                    }
                }
                assert(self@ =~= want);
            }
            None
        }
    }

    /// Drop `key`, handing back its value.
    pub fn remove(&mut self, key: &K) -> (r: Option<V>)
        requires
            old(self).wf(),
        ensures
            final(self).wf(),
            final(self)@ == old(self)@.remove(key.deep_view()),
            r is Some == old(self)@.contains_key(key.deep_view()),
            r is Some ==> r->0 == old(self)@[key.deep_view()],
    {
        let ghost k = key.deep_view();
        let ghost keys = self.key_seq();
        let (at, found) = self.locate(key);
        if found {
            let ghost before = *self;
            let gone = self.entries.remove(at);
            proof {
                before.lemma_at(at as int);
                let now = self.key_seq();
                assert(now =~= keys.remove(at as int));
                assert(ascending::<K>(now)) by {
                    assert forall|i: int, j: int| 0 <= i < j < now.len() implies K::lt(
                        #[trigger] now[i],
                        #[trigger] now[j],
                    ) by {
                        let i0 = if i < at { i } else { i + 1 };
                        let j0 = if j < at { j } else { j + 1 };
                        assert(now[i] == keys[i0]);
                        assert(now[j] == keys[j0]);
                    }
                }
                lemma_ascending_distinct::<K>(keys);
                let want = before@.remove(k);
                assert forall|c: K::V| #[trigger] want.contains_key(c) implies self@.contains_key(c)
                    && self@[c] == want[c] by {
                    let i = keys.index_of(c);
                    assert(keys[i] == c);
                    before.lemma_at(i);
                    let i1 = if i < at { i } else { i - 1 };
                    assert(now[i1] == c);
                    self.lemma_at(i1);
                }
                assert forall|c: K::V| #[trigger] self@.contains_key(c) implies want.contains_key(
                    c,
                ) by {
                    let i = now.index_of(c);
                    assert(now[i] == c);
                    let i0 = if i < at { i } else { i + 1 };
                    assert(keys[i0] == c);
                    before.lemma_at(i0);
                }
                assert(self@ =~= want);
            }
            Some(gone.1)
        } else {
            assert(self@.remove(k) =~= self@);
            None
        }
    }

    /// A place to update the value at `key` in.
    pub fn get_mut(&mut self, key: &K) -> (r: Option<&mut V>)
        requires
            old(self).wf(),
        ensures
            final(self).wf(),
            final(self).key_seq() == old(self).key_seq(),
            r is Some == old(self)@.contains_key(key.deep_view()),
            match r {
                Some(v) => *v == old(self)@[key.deep_view()] && final(self)@ == old(self)@.insert(
                    key.deep_view(),
                    *final(v),
                ),
                None => final(self)@ == old(self)@,
            },
    {
        let ghost before = *self;
        let ghost after = *final(self);
        let (at, found) = self.locate(key);
        if found {
            proof {
                self.lemma_at(at as int);
            }
            let place = &mut self.entries[at].1;
            proof {
                Self::lemma_updated(before, after, at as int);
            }
            Some(place)
        } else {
            None
        }
    }
}

impl<K: OrdKey, V> OrdMap<K, V> {
    /// Every value of the map satisfies `p`.
    pub open spec fn all_values(&self, p: spec_fn(V) -> bool) -> bool {
        forall|k: K::V| #[trigger] self@.contains_key(k) ==> p(self@[k])
    }
}

impl<K: OrdKey, V: Dup> OrdMap<K, V> {
    /// A map with the same keys, each with a duplicate of its value.
    pub fn dup(&self) -> (r: Self)
        requires
            self.wf(),
            self.all_values(|v: V| v.dup_inv()),
        ensures
            r.wf(),
            r.all_values(|v: V| v.dup_inv()),
            r.key_seq() == self.key_seq(),
            r.deep_view() == self.deep_view(),
    {
        let mut entries: Vec<(K, V)> = Vec::new();
        let mut i: usize = 0;
        while i < self.entries.len()
            invariant
                self.wf(),
                self.all_values(|v: V| v.dup_inv()),
                i <= self.entries@.len(),
                entries@.len() == i,
                self.key_seq().len() == self.entries@.len(),
                forall|j: int|
                    0 <= j < i ==> (#[trigger] entries@[j]).0.deep_view()
                        == self.entries@[j].0.deep_view() && entries@[j].1.deep_view()
                        == self.entries@[j].1.deep_view() && entries@[j].1.dup_inv(),
            decreases self.entries@.len() - i,
        {
            proof {
                self.lemma_at(i as int);
            }
            let key = self.entries[i].0.dup();
            let value = self.entries[i].1.dup();
            entries.push((key, value));
            i = i + 1;
        }
        let r = OrdMap { entries };
        proof {
            assert(r.key_seq() =~= self.key_seq());
            assert forall|k: K::V| #[trigger] r@.contains_key(k) implies r@[k].dup_inv()
                && r@[k].deep_view() == self@[k].deep_view() by {
                let j = r.key_seq().index_of(k);
                assert(r.key_seq()[j] == k);
                r.lemma_at(j);
                self.lemma_at(j);
            }
            assert(r.deep_view() =~= self.deep_view());
        }
        r
    }
}

/// A set kept in ascending order.
#[derive(Clone, Debug, PartialEq, Eq)]
pub struct OrdSet<K> {
    map: OrdMap<K, ()>,
}

impl<K: OrdKey> View for OrdSet<K> {
    type V = Set<K::V>;

    closed spec fn view(&self) -> Set<K::V> {
        self.map@.dom()
    }
}

impl<K: OrdKey> OrdSet<K> {
    pub closed spec fn wf(&self) -> bool {
        self.map.wf()
    }

    /// The members in the order they are held.
    pub closed spec fn members(&self) -> Seq<K::V> {
        self.map.key_seq()
    }

    /// A well-formed set's members are its contents, ascending and each once.
    pub proof fn lemma_members(&self)
        requires
            self.wf(),
        ensures
            ascending::<K>(self.members()),
            self.members().no_duplicates(),
            self.members().to_set() == self@,
            self@.finite(),
            self@.len() == self.members().len(),
    {
        self.map.lemma_keys();
    }

    pub fn new() -> (r: Self)
        ensures
            r.wf(),
            r@ == Set::<K::V>::empty(),
    {
        let r = OrdSet { map: OrdMap::new() };
        assert(r@ =~= Set::<K::V>::empty());
        r
    }

    pub fn len(&self) -> (r: usize)
        requires
            self.wf(),
        ensures
            r == self@.len(),
            r == self.members().len(),
    {
        self.map.len()
    }

    pub fn is_empty(&self) -> (r: bool)
        requires
            self.wf(),
        ensures
            r == (self@ == Set::<K::V>::empty()),
    {
        proof {
            if self.map@ == Map::<K::V, ()>::empty() {
                assert(self@ =~= Set::<K::V>::empty());
            }
            if self@ == Set::<K::V>::empty() {
                assert(self.map@ =~= Map::<K::V, ()>::empty());
            }
        }
        self.map.is_empty()
    }

    pub fn contains(&self, key: &K) -> (r: bool)
        requires
            self.wf(),
        ensures
            r == self@.contains(key.deep_view()),
    {
        self.map.contains_key(key)
    }

    /// Add `key`; whether it was absent before.
    pub fn insert(&mut self, key: K) -> (r: bool)
        requires
            old(self).wf(),
        ensures
            final(self).wf(),
            final(self)@ == old(self)@.insert(key.deep_view()),
            r == !old(self)@.contains(key.deep_view()),
    {
        let ghost k = key.deep_view();
        let ghost before = self@;
        let gone = self.map.insert(key, ());
        assert(self@ =~= before.insert(k));
        gone.is_none()
    }

    /// The `i`-th member in ascending order.
    pub fn at(&self, i: usize) -> (r: &K)
        requires
            self.wf(),
            i < self.members().len(),
        ensures
            r.deep_view() == self.members()[i as int],
            self@.contains(r.deep_view()),
    {
        self.map.key_at(i)
    }

    /// Add every member of `other`.
    pub fn union(&mut self, other: &OrdSet<K>)
        requires
            old(self).wf(),
            other.wf(),
        ensures
            final(self).wf(),
            final(self)@ == old(self)@.union(other@),
    {
        let mut i: usize = 0;
        let ghost before = self@;
        proof {
            assert(before.union(other.members().take(0).to_set()) =~= before);
        }
        while i < other.len()
            invariant
                self.wf(),
                other.wf(),
                i <= other.members().len(),
                self@ == before.union(other.members().take(i as int).to_set()),
            decreases other.members().len() - i,
        {
            let member = other.at(i).dup();
            proof {
                let s = other.members();
                assert(s.take(i + 1) =~= s.take(i as int).push(s[i as int]));
                assert(s.take(i + 1).to_set() =~= s.take(i as int).to_set().insert(s[i as int]))
                    by {
                    assert forall|c: K::V|
                        s.take(i + 1).to_set().contains(c) == s.take(i as int).to_set().insert(
                            s[i as int],
                        ).contains(c) by {
                        if s.take(i as int).contains(c) {
                            let j = s.take(i as int).index_of(c);
                            assert(s.take(i + 1)[j] == c);
                        }
                        if c == s[i as int] {
                            assert(s.take(i + 1)[i as int] == c);
                        }
                        if s.take(i + 1).contains(c) {
                            let j = s.take(i + 1).index_of(c);
                            assert(s.take(i + 1)[j] == c);
                            if j < i {
                                assert(s.take(i as int)[j] == c);
                            }
                        }
                    }
                }
                assert(before.union(s.take(i as int).to_set()).insert(s[i as int])
                    =~= before.union(s.take(i + 1).to_set()));
            }
            self.insert(member);
            i = i + 1;
        }
        proof {
            other.lemma_members();
            assert(other.members().take(i as int) =~= other.members());
        }
    }

    /// A set with the same members.
    pub fn dup(&self) -> (r: Self)
        requires
            self.wf(),
        ensures
            r.wf(),
            r@ == self@,
    {
        let mut r = OrdSet::new();
        r.union(self);
        assert(r@ =~= self@);
        r
    }
}

} // verus!
