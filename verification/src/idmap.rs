//! Small verified collections keyed by 64-bit identifiers.
//!
//! The replicated view, the correlation tracker and the spatial index
//! all need a map from an entity or request identifier to a value, with
//! a stable, duplicate-free enumeration of its entries.  `IdMap` is an
//! association vector with pairwise-distinct keys whose mathematical
//! meaning is a `Map<i64, V>`; `IdSet` is the corresponding set.

use vstd::prelude::*;

verus! {

/// True when `s` holds an entry with key `k`.
pub open spec fn has_key<V>(s: Seq<(i64, V)>, k: i64) -> bool {
    exists|i: int| 0 <= i < s.len() && (#[trigger] s[i]).0 == k
}

/// The index of the entry with key `k`, when one exists.
pub open spec fn key_index<V>(s: Seq<(i64, V)>, k: i64) -> int {
    choose|i: int| 0 <= i < s.len() && (#[trigger] s[i]).0 == k
}

/// A map from `i64` identifiers to values, backed by a vector of
/// entries with pairwise-distinct keys, kept in insertion order.
pub struct IdMap<V> {
    entries: Vec<(i64, V)>,
}

impl<V> IdMap<V> {
    /// The sequence of entries, oldest insertion first.
    pub closed spec fn entries_seq(self) -> Seq<(i64, V)> {
        self.entries@
    }

    /// Keys are pairwise distinct.
    pub open spec fn wf(self) -> bool {
        forall|i: int, j: int|
            0 <= i < j < self.entries_seq().len() ==> (#[trigger] self.entries_seq()[i]).0 != (
            #[trigger] self.entries_seq()[j]).0
    }

    /// The map this structure represents.
    pub open spec fn view(self) -> Map<i64, V> {
        Map::new(
            |k: i64| has_key(self.entries_seq(), k),
            |k: i64| self.entries_seq()[key_index(self.entries_seq(), k)].1,
        )
    }

    /// Each entry is visible in the represented map.
    pub proof fn lemma_entry(self, i: int)
        requires
            self.wf(),
            0 <= i < self.entries_seq().len(),
        ensures
            self@.dom().contains(self.entries_seq()[i].0),
            self@[self.entries_seq()[i].0] == self.entries_seq()[i].1,
    {
        let s = self.entries_seq();
        let k = s[i].0;
        assert(has_key(s, k));
        let j = key_index(s, k);
        assert(j == i);
    }

    /// The represented domain is exactly the set of keys of the entries.
    pub proof fn lemma_dom(self)
        requires
            self.wf(),
        ensures
            forall|k: i64| self@.dom().contains(k) <==> has_key(self.entries_seq(), k),
            forall|i: int|
                0 <= i < self.entries_seq().len() ==> self@.dom().contains(
                    (#[trigger] self.entries_seq()[i]).0,
                ) && self@[self.entries_seq()[i].0] == self.entries_seq()[i].1,
    {
        assert forall|i: int| 0 <= i < self.entries_seq().len() implies self@.dom().contains(
            (#[trigger] self.entries_seq()[i]).0,
        ) && self@[self.entries_seq()[i].0] == self.entries_seq()[i].1 by {
            self.lemma_entry(i);
        }
    }

    /// An empty map.
    pub fn new() -> (r: IdMap<V>)
        ensures
            r.wf(),
            r@ == Map::<i64, V>::empty(),
            r.entries_seq().len() == 0,
    {
        let r = IdMap { entries: Vec::new() };
        proof {
            assert(r@ =~= Map::<i64, V>::empty());
        }
        r
    }

    /// Number of entries.
    pub fn len(&self) -> (r: usize)
        ensures
            r == self.entries_seq().len(),
    {
        self.entries.len()
    }

    /// The entry at position `i` of the enumeration.
    pub fn entry_at(&self, i: usize) -> (r: &(i64, V))
        requires
            self.wf(),
            i < self.entries_seq().len(),
        ensures
            *r == self.entries_seq()[i as int],
            self@.dom().contains(r.0),
            self@[r.0] == r.1,
    {
        proof {
            self.lemma_entry(i as int);
        }
        &self.entries[i]
    }

    /// Position of the entry with the given key, if any.
    fn find(&self, key: i64) -> (r: Option<usize>)
        requires
            self.wf(),
        ensures
            match r {
                Some(i) => i < self.entries_seq().len() && self.entries_seq()[i as int].0 == key
                    && self@.dom().contains(key) && self@[key] == self.entries_seq()[i as int].1,
                None => !self@.dom().contains(key),
            },
    {
        let n = self.entries.len();
        let mut i: usize = 0;
        while i < n
            invariant
                self.wf(),
                n == self.entries_seq().len(),
                i <= n,
                forall|j: int| 0 <= j < i ==> (#[trigger] self.entries_seq()[j]).0 != key,
            decreases n - i,
        {
            if self.entries[i].0 == key {
                proof {
                    self.lemma_entry(i as int);
                }
                return Some(i);
            }
            i = i + 1;
        }
        return None;
    }

    /// Whether the key is present.
    pub fn contains_key(&self, key: i64) -> (r: bool)
        requires
            self.wf(),
        ensures
            r == self@.dom().contains(key),
    {
        self.find(key).is_some()
    }

    /// The value stored under the key, if any.
    pub fn get(&self, key: i64) -> (r: Option<&V>)
        requires
            self.wf(),
        ensures
            match r {
                Some(v) => self@.dom().contains(key) && *v == self@[key],
                None => !self@.dom().contains(key),
            },
    {
        match self.find(key) {
            Some(i) => Some(&self.entries[i].1),
            None => None,
        }
    }

    /// Insert or overwrite the value under the key.
    pub fn insert(&mut self, key: i64, value: V)
        requires
            old(self).wf(),
        ensures
            final(self).wf(),
            final(self)@ == old(self)@.insert(key, value),
            final(self).entries_seq().len() <= old(self).entries_seq().len() + 1,
    {
        let ghost s0 = self.entries_seq();
        match self.find(key) {
            Some(i) => {
                self.entries.set(i, (key, value));
                proof {
                    let s = self.entries_seq();
                    assert forall|k: i64| #![auto] self@.dom().contains(k) <==> old(
                        self,
                    )@.insert(key, value).dom().contains(k) by {
                        if has_key(s, k) {
                            let j = key_index(s, k);
                            if j != i {
                                assert(s0[j].0 == k);
                            }
                        }
                        if k == key {
                            assert(s[i as int].0 == k);
                        } else if has_key(s0, k) {
                            let j = key_index(s0, k);
                            assert(j != i);
                            assert(s[j].0 == k);
                        }
                    }
                    assert forall|k: i64| self@.dom().contains(k) implies #[trigger] self@[k]
                        == old(self)@.insert(key, value)[k] by {
                        let s = self.entries_seq();
                        let j = key_index(s, k);
                        assert(0 <= j < s.len() && s[j].0 == k);
                        if k == key {
                            assert(j == i);
                        } else {
                            assert(j != i);
                            assert(s0[j].0 == k);
                            let j0 = key_index(s0, k);
                            assert(j0 == j);
                        }
                    }
                    assert(self@ =~= old(self)@.insert(key, value));
                }
            },
            None => {
                self.entries.push((key, value));
                proof {
                    let s = self.entries_seq();
                    assert(s =~= s0.push((key, value)));
                    assert forall|k: i64| #![auto] self@.dom().contains(k) <==> old(
                        self,
                    )@.insert(key, value).dom().contains(k) by {
                        if has_key(s, k) {
                            let j = key_index(s, k);
                            if j < s0.len() {
                                assert(s0[j].0 == k);
                            }
                        }
                        if k == key {
                            assert(s[s.len() - 1].0 == k);
                        } else if has_key(s0, k) {
                            let j = key_index(s0, k);
                            assert(s[j].0 == k);
                        }
                    }
                    assert forall|k: i64| self@.dom().contains(k) implies #[trigger] self@[k]
                        == old(self)@.insert(key, value)[k] by {
                        let j = key_index(s, k);
                        assert(0 <= j < s.len() && s[j].0 == k);
                        if k == key {
                            assert(j == s.len() - 1);
                        } else {
                            assert(j < s0.len());
                            assert(s0[j].0 == k);
                            let j0 = key_index(s0, k);
                            assert(j0 == j);
                        }
                    }
                    assert(self@ =~= old(self)@.insert(key, value));
                }
            },
        }
    }

    /// Remove the entry under the key, if any.
    pub fn remove(&mut self, key: i64)
        requires
            old(self).wf(),
        ensures
            final(self).wf(),
            final(self)@ == old(self)@.remove(key),
            final(self).entries_seq().len() <= old(self).entries_seq().len(),
    {
        let ghost s0 = self.entries_seq();
        match self.find(key) {
            Some(i) => {
                self.entries.remove(i);
                proof {
                    let s = self.entries_seq();
                    assert(s =~= s0.subrange(0, i as int) + s0.subrange(
                        i as int + 1,
                        s0.len() as int,
                    ));
                    assert forall|a: int, b: int|
                        0 <= a < b < s.len() implies (#[trigger] s[a]).0 != (#[trigger] s[b]).0 by {
                        let a0: int = if a < i { a } else { a + 1 };
                        let b0: int = if b < i { b } else { b + 1 };
                        assert(s[a] == s0[a0]);
                        assert(s[b] == s0[b0]);
                    }
                    assert forall|k: i64| #![auto] self@.dom().contains(k) <==> old(
                        self,
                    )@.remove(key).dom().contains(k) by {
                        if has_key(s, k) {
                            let j = key_index(s, k);
                            let j0: int = if j < i { j } else { j + 1 };
                            assert(s0[j0].0 == k);
                            assert(j0 != i || k == key);
                        }
                        if k != key && has_key(s0, k) {
                            let j0 = key_index(s0, k);
                            assert(j0 != i);
                            let j: int = if j0 < i { j0 } else { j0 - 1 };
                            assert(s[j].0 == k);
                        }
                    }
                    assert forall|k: i64| self@.dom().contains(k) implies #[trigger] self@[k]
                        == old(self)@.remove(key)[k] by {
                        let j = key_index(s, k);
                        assert(0 <= j < s.len() && s[j].0 == k);
                        let j0: int = if j < i { j } else { j + 1 };
                        assert(s0[j0].0 == k);
                        let jj = key_index(s0, k);
                        assert(jj == j0);
                    }
                    assert(self@ =~= old(self)@.remove(key));
                }
            },
            None => {
                proof {
                    assert(self@ =~= old(self)@.remove(key));
                }
            },
        }
    }

    /// Remove the entry under the key and hand its value out.
    pub fn take(&mut self, key: i64) -> (r: Option<V>)
        requires
            old(self).wf(),
        ensures
            final(self).wf(),
            final(self)@ == old(self)@.remove(key),
            match r {
                Some(v) => old(self)@.dom().contains(key) && v == old(self)@[key],
                None => !old(self)@.dom().contains(key),
            },
    {
        let ghost s0 = self.entries_seq();
        match self.find(key) {
            Some(i) => {
                let (_, v) = self.entries.remove(i);
                proof {
                    let s = self.entries_seq();
                    assert(s =~= s0.subrange(0, i as int) + s0.subrange(
                        i as int + 1,
                        s0.len() as int,
                    ));
                    assert forall|a: int, b: int|
                        0 <= a < b < s.len() implies (#[trigger] s[a]).0 != (#[trigger] s[b]).0 by {
                        let a0: int = if a < i { a } else { a + 1 };
                        let b0: int = if b < i { b } else { b + 1 };
                        assert(s[a] == s0[a0]);
                        assert(s[b] == s0[b0]);
                    }
                    assert forall|k: i64| #![auto] self@.dom().contains(k) <==> old(
                        self,
                    )@.remove(key).dom().contains(k) by {
                        if has_key(s, k) {
                            let j = key_index(s, k);
                            let j0: int = if j < i { j } else { j + 1 };
                            assert(s0[j0].0 == k);
                            assert(j0 != i || k == key);
                        }
                        if k != key && has_key(s0, k) {
                            let j0 = key_index(s0, k);
                            assert(j0 != i);
                            let j: int = if j0 < i { j0 } else { j0 - 1 };
                            assert(s[j].0 == k);
                        }
                    }
                    assert forall|k: i64| self@.dom().contains(k) implies #[trigger] self@[k]
                        == old(self)@.remove(key)[k] by {
                        let j = key_index(s, k);
                        assert(0 <= j < s.len() && s[j].0 == k);
                        let j0: int = if j < i { j } else { j + 1 };
                        assert(s0[j0].0 == k);
                        let jj = key_index(s0, k);
                        assert(jj == j0);
                    }
                    assert(self@ =~= old(self)@.remove(key));
                }
                Some(v)
            },
            None => {
                proof {
                    assert(self@ =~= old(self)@.remove(key));
                }
                None
            },
        }
    }

    /// The keys, in enumeration order.
    pub fn keys(&self) -> (r: Vec<i64>)
        requires
            self.wf(),
        ensures
            r@.len() == self.entries_seq().len(),
            forall|i: int| 0 <= i < r@.len() ==> r@[i] == (#[trigger] self.entries_seq()[i]).0,
            r@.no_duplicates(),
            forall|k: i64| r@.contains(k) <==> self@.dom().contains(k),
    {
        let n = self.entries.len();
        let mut r: Vec<i64> = Vec::new();
        let mut i: usize = 0;
        while i < n
            invariant
                n == self.entries_seq().len(),
                i <= n,
                r@.len() == i,
                forall|j: int| 0 <= j < i ==> r@[j] == (#[trigger] self.entries_seq()[j]).0,
            decreases n - i,
        {
            r.push(self.entries[i].0);
            i = i + 1;
        }
        proof {
            self.lemma_dom();
            assert forall|a: int, b: int|
                0 <= a < r@.len() && 0 <= b < r@.len() && a != b implies r@[a] != r@[b] by {
                assert(r@[a] == self.entries_seq()[a].0);
                assert(r@[b] == self.entries_seq()[b].0);
            }
            assert(r@.no_duplicates());
            assert forall|k: i64| r@.contains(k) <==> self@.dom().contains(k) by {
                if r@.contains(k) {
                    let j = choose|j: int| 0 <= j < r@.len() && r@[j] == k;
                    assert(self.entries_seq()[j].0 == k);
                }
                if has_key(self.entries_seq(), k) {
                    let j = key_index(self.entries_seq(), k);
                    assert(r@[j] == k);
                }
            }
        }
        r
    }
}

/// A set of `i64` identifiers, backed by a duplicate-free vector.
pub struct IdSet {
    items: Vec<i64>,
}

impl IdSet {
    /// The members, in insertion order.
    pub closed spec fn items_seq(self) -> Seq<i64> {
        self.items@
    }

    /// Members are pairwise distinct.
    pub open spec fn wf(self) -> bool {
        self.items_seq().no_duplicates()
    }

    /// The set this structure represents.
    pub open spec fn view(self) -> Set<i64> {
        self.items_seq().to_set()
    }

    /// An empty set.
    pub fn new() -> (r: IdSet)
        ensures
            r.wf(),
            r@ == Set::<i64>::empty(),
            r.items_seq().len() == 0,
    {
        let r = IdSet { items: Vec::new() };
        proof {
            assert(r@ =~= Set::<i64>::empty());
        }
        r
    }

    /// Number of members.
    pub fn len(&self) -> (r: usize)
        ensures
            r == self.items_seq().len(),
    {
        self.items.len()
    }

    /// The member at position `i` of the enumeration.
    pub fn item_at(&self, i: usize) -> (r: i64)
        requires
            i < self.items_seq().len(),
        ensures
            r == self.items_seq()[i as int],
            self@.contains(r),
    {
        let r = self.items[i];
        proof {
            assert(self.items_seq().contains(r));
        }
        r
    }

    /// Whether the identifier is a member.
    pub fn contains(&self, id: i64) -> (r: bool)
        ensures
            r == self@.contains(id),
    {
        let n = self.items.len();
        let mut i: usize = 0;
        while i < n
            invariant
                n == self.items_seq().len(),
                i <= n,
                forall|j: int| 0 <= j < i ==> self.items_seq()[j] != id,
            decreases n - i,
        {
            if self.items[i] == id {
                proof {
                    assert(self.items_seq().contains(id));
                }
                return true;
            }
            i = i + 1;
        }
        proof {
            if self@.contains(id) {
                let j = choose|j: int|
                    0 <= j < self.items_seq().len() && self.items_seq()[j] == id;
                assert(false);
            }
        }
        return false;
    }

    /// Add a member; adding an existing member changes nothing.
    pub fn insert(&mut self, id: i64)
        requires
            old(self).wf(),
        ensures
            final(self).wf(),
            final(self)@ == old(self)@.insert(id),
            final(self).items_seq().len() <= old(self).items_seq().len() + 1,
    {
        if !self.contains(id) {
            let ghost s0 = self.items_seq();
            self.items.push(id);
            proof {
                assert(self.items_seq() =~= s0.push(id));
                assert(self.items_seq().no_duplicates());
                assert(self@ =~= old(self)@.insert(id)) by {
                    assert forall|k: i64| self@.contains(k) <==> old(self)@.insert(id).contains(
                        k,
                    ) by {
                        if self.items_seq().contains(k) {
                            let j = choose|j: int|
                                0 <= j < self.items_seq().len() && self.items_seq()[j] == k;
                            if j < s0.len() {
                                assert(s0[j] == k);
                                assert(s0.contains(k));
                            }
                        }
                        if k == id {
                            assert(self.items_seq()[s0.len() as int] == k);
                            assert(self.items_seq().contains(k));
                        } else if s0.contains(k) {
                            let j = choose|j: int| 0 <= j < s0.len() && s0[j] == k;
                            assert(self.items_seq()[j] == k);
                            assert(self.items_seq().contains(k));
                        }
                    }
                }
            }
        } else {
            proof {
                assert(self@ =~= old(self)@.insert(id));
            }
        }
    }

    /// Empty the set.
    pub fn clear(&mut self)
        ensures
            final(self).wf(),
            final(self)@ == Set::<i64>::empty(),
            final(self).items_seq().len() == 0,
    {
        self.items.clear();
        proof {
            assert(self@ =~= Set::<i64>::empty());
        }
    }
}

} // verus!
