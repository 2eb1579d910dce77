//! In-memory keyed store.
//!
//! The repositories of the lifecycle core all follow one contract: a keyed
//! collection of records per user offering `upsert`, `load`, `list_ids` and
//! `remove`. [`Table`] is that contract made concrete: records are kept in
//! insertion order, keys are unique, and the abstract view of the whole
//! collection is a [`Map`] from key to record.

use vstd::prelude::*;

verus! {

/// A keyed record store with unique `u64` keys, kept in insertion order.
pub struct Table<V> {
    entries: Vec<(u64, V)>,
}

/// The map described by an association list: every pair binds its key to
/// its record, later pairs take precedence (the store never keeps two
/// pairs with one key, so precedence never matters there).
pub open spec fn map_of<V>(s: Seq<(u64, V)>) -> Map<u64, V>
    decreases s.len(),
{
    if s.len() == 0 {
        Map::empty()
    } else {
        map_of(s.drop_last()).insert(s.last().0, s.last().1)
    }
}

/// A key occurs in the map of an association list exactly when some pair
/// holds it.
pub proof fn lemma_map_of_contains<V>(s: Seq<(u64, V)>, k: u64)
    ensures
        map_of(s).contains_key(k) <==> exists|i: int| 0 <= i < s.len() && (#[trigger] s[i]).0 == k,
    decreases s.len(),
{
    if s.len() > 0 {
        lemma_map_of_contains(s.drop_last(), k);
        if map_of(s).contains_key(k) {
            if s.last().0 == k {
                assert(s[s.len() - 1].0 == k);
            } else {
                let i = choose|i: int| 0 <= i < s.drop_last().len() && (#[trigger] s.drop_last()[i]).0 == k;
                assert(s[i].0 == k);
            }
        }
        if exists|i: int| 0 <= i < s.len() && (#[trigger] s[i]).0 == k {
            let i = choose|i: int| 0 <= i < s.len() && (#[trigger] s[i]).0 == k;
            if i < s.len() - 1 {
                assert(s.drop_last()[i].0 == k);
            }
        }
    }
}

impl<V> Table<V> {
    /// The records as they are stored, in insertion order.
    pub closed spec fn entry_seq(self) -> Seq<(u64, V)> {
        self.entries@
    }

    /// The keys in insertion order.
    pub open spec fn key_seq(self) -> Seq<u64> {
        self.entry_seq().map_values(|e: (u64, V)| e.0)
    }

    /// Well-formed: no key occurs twice.
    pub open spec fn wf(self) -> bool {
        self.key_seq().no_duplicates()
    }

    /// An entry of a well-formed table is a binding of its map view.
    pub proof fn lemma_entry_in_map(self, i: int)
        requires
            0 <= i < self.entry_seq().len(),
        ensures
            self@.contains_key(self.entry_seq()[i].0),
            self.wf() ==> self@[self.entry_seq()[i].0] == self.entry_seq()[i].1,
    {
        lemma_map_of_contains(self.entry_seq(), self.entry_seq()[i].0);
        if self.wf() {
            lemma_first_match_value(self.entry_seq(), self.entry_seq()[i].0, i);
        }
    }

    /// Every binding of the map view comes from an entry.
    pub proof fn lemma_map_in_entries(self, k: u64)
        requires
            self@.contains_key(k),
        ensures
            exists|i: int|
                0 <= i < self.entry_seq().len() && (#[trigger] self.entry_seq()[i]).0 == k,
    {
        lemma_map_of_contains(self.entry_seq(), k);
    }
}

/// In a duplicate-free association list, the pair at any position holding
/// key `k` gives the map's value at `k`.
proof fn lemma_first_match_value<V>(s: Seq<(u64, V)>, k: u64, i: int)
    requires
        s.map_values(|e: (u64, V)| e.0).no_duplicates(),
        0 <= i < s.len(),
        s[i].0 == k,
    ensures
        map_of(s)[k] == s[i].1,
    decreases s.len(),
{
    let keys = s.map_values(|e: (u64, V)| e.0);
    if i == s.len() - 1 {
    } else {
        assert(keys[i] == k && keys[s.len() - 1] == s.last().0);
        assert(s.last().0 != k);
        assert(s.drop_last().map_values(|e: (u64, V)| e.0) =~= keys.drop_last());
        lemma_first_match_value(s.drop_last(), k, i);
    }
}

/// Appending a pair with a fresh key inserts that binding.
proof fn lemma_map_of_push<V>(s: Seq<(u64, V)>, k: u64, v: V)
    ensures
        map_of(s.push((k, v))) == map_of(s).insert(k, v),
{
    assert(s.push((k, v)).drop_last() =~= s);
}

/// Overwriting the pair that holds key `k` updates that binding, if no
/// other pair holds `k`.
proof fn lemma_map_of_update<V>(s: Seq<(u64, V)>, i: int, v: V)
    requires
        s.map_values(|e: (u64, V)| e.0).no_duplicates(),
        0 <= i < s.len(),
    ensures
        map_of(s.update(i, (s[i].0, v))) =~= map_of(s).insert(s[i].0, v),
    decreases s.len(),
{
    let k = s[i].0;
    let keys = s.map_values(|e: (u64, V)| e.0);
    if i == s.len() - 1 {
        assert(s.update(i, (k, v)).drop_last() =~= s.drop_last());
    } else {
        assert(keys[i] == k && keys[s.len() - 1] == s.last().0);
        assert(s.last().0 != k);
        assert(s.drop_last().map_values(|e: (u64, V)| e.0) =~= keys.drop_last());
        lemma_map_of_update(s.drop_last(), i, v);
        assert(s.update(i, (k, v)).drop_last() =~= s.drop_last().update(i, (k, v)));
        assert(s.update(i, (k, v)).last() == s.last());
    }
}

/// Removing the pair that holds key `k` removes that binding, if no other
/// pair holds `k`.
proof fn lemma_map_of_remove<V>(s: Seq<(u64, V)>, i: int)
    requires
        s.map_values(|e: (u64, V)| e.0).no_duplicates(),
        0 <= i < s.len(),
    ensures
        map_of(s.remove(i)) =~= map_of(s).remove(s[i].0),
    decreases s.len(),
{
    let k = s[i].0;
    let keys = s.map_values(|e: (u64, V)| e.0);
    assert(s.drop_last().map_values(|e: (u64, V)| e.0) =~= keys.drop_last());
    s.remove_ensures(i);
    if i == s.len() - 1 {
        assert(s.remove(i) =~= s.drop_last());
        lemma_map_of_contains(s.drop_last(), k);
        assert forall|j: int| 0 <= j < s.len() - 1 implies (#[trigger] s.drop_last()[j]).0 != k by {
            assert(keys[j] == s[j].0 && keys[s.len() - 1] == k);
        }
        assert(!map_of(s.drop_last()).contains_key(k));
    } else {
        assert(keys[i] == k && keys[s.len() - 1] == s.last().0);
        assert(s.last().0 != k);
        lemma_map_of_remove(s.drop_last(), i);
        assert(s.remove(i).len() == s.len() - 1);
        s.drop_last().remove_ensures(i);
        assert(s.remove(i).drop_last() =~= s.drop_last().remove(i));
        assert(s.remove(i).last() == s.last());
    }
}

impl<V> View for Table<V> {
    type V = Map<u64, V>;

    /// The abstract contents: a map from key to record.
    closed spec fn view(&self) -> Map<u64, V> {
        map_of(self.entries@)
    }
}

impl<V> Table<V> {
    /// An empty store.
    pub fn new() -> (r: Table<V>)
        ensures
            r.wf(),
            r@ == Map::<u64, V>::empty(),
            r.entry_seq() == Seq::<(u64, V)>::empty(),
    {
        let t = Table { entries: Vec::new() };
        proof {
            assert(t.key_seq() =~= Seq::<u64>::empty());
        }
        t
    }

    /// How many records the store holds.
    pub fn len(&self) -> (r: usize)
        ensures
            r == self.entry_seq().len(),
    {
        self.entries.len()
    }

    /// The record at a position of the insertion order, with its key.
    pub fn entry_at(&self, i: usize) -> (r: &(u64, V))
        requires
            i < self.entry_seq().len(),
        ensures
            *r == self.entry_seq()[i as int],
    {
        &self.entries[i]
    }

    /// Look a record up by its key.
    pub fn load(&self, id: u64) -> (r: Option<&V>)
        requires
            self.wf(),
        ensures
            match r {
                Some(v) => self@.contains_key(id) && *v == self@[id],
                None => !self@.contains_key(id),
            },
    {
        let n = self.entries.len();
        let mut i: usize = 0;
        while i < n
            invariant
                n == self.entries@.len(),
                i <= n,
                self.wf(),
                forall|j: int| 0 <= j < i ==> (#[trigger] self.entries@[j]).0 != id,
            decreases n - i,
        {
            if self.entries[i].0 == id {
                proof {
                    self.lemma_entry_in_map(i as int);
                }
                return Some(&self.entries[i].1);
            }
            i += 1;
        }
        proof {
            lemma_map_of_contains(self.entries@, id);
        }
        None
    }

    /// Insert a record under a key, replacing the record the key held
    /// before, if any. New keys go to the end of the insertion order.
    pub fn upsert(&mut self, id: u64, v: V)
        requires
            old(self).wf(),
        ensures
            final(self).wf(),
            final(self)@ == old(self)@.insert(id, v),
            old(self)@.contains_key(id) ==> final(self).key_seq() == old(self).key_seq(),
            !old(self)@.contains_key(id) ==> final(self).key_seq() == old(self).key_seq().push(
                id,
            ),
    {
        let n = self.entries.len();
        let mut i: usize = 0;
        while i < n
            invariant
                self == old(self),
                n == self.entries@.len(),
                i <= n,
                self.wf(),
                forall|j: int| 0 <= j < i ==> (#[trigger] self.entries@[j]).0 != id,
            decreases n - i,
        {
            if self.entries[i].0 == id {
                let ghost s0 = self.entries@;
                self.entries[i] = (id, v);
                proof {
                    assert(self.entries@ =~= s0.update(i as int, (id, v)));
                    lemma_map_of_update(s0, i as int, v);
                    lemma_map_of_contains(s0, id);
                    assert(self.key_seq() =~= s0.map_values(|e: (u64, V)| e.0));
                }
                return ;
            }
            i += 1;
        }
        let ghost s0 = self.entries@;
        self.entries.push((id, v));
        proof {
            lemma_map_of_push(s0, id, v);
            lemma_map_of_contains(s0, id);
            assert(self.key_seq() =~= s0.map_values(|e: (u64, V)| e.0).push(id));
        }
    }

    /// Remove the record a key holds, returning it; `None` when the key
    /// holds none.
    pub fn remove(&mut self, id: u64) -> (r: Option<V>)
        requires
            old(self).wf(),
        ensures
            final(self).wf(),
            final(self)@ == old(self)@.remove(id),
            match r {
                Some(v) => old(self)@.contains_key(id) && v == old(self)@[id],
                None => !old(self)@.contains_key(id) && final(self)@ == old(self)@,
            },
    {
        let n = self.entries.len();
        let mut i: usize = 0;
        while i < n
            invariant
                self == old(self),
                n == self.entries@.len(),
                i <= n,
                self.wf(),
                forall|j: int| 0 <= j < i ==> (#[trigger] self.entries@[j]).0 != id,
            decreases n - i,
        {
            if self.entries[i].0 == id {
                let ghost s0 = self.entries@;
                proof {
                    self.lemma_entry_in_map(i as int);
                    lemma_map_of_remove(s0, i as int);
                    let keys = s0.map_values(|e: (u64, V)| e.0);
                    s0.remove_ensures(i as int);
                    keys.remove_ensures(i as int);
                    assert(s0.remove(i as int).map_values(|e: (u64, V)| e.0) =~= keys.remove(
                        i as int,
                    ));
                    assert forall|a: int, b: int|
                        0 <= a < b < keys.remove(i as int).len() implies keys.remove(i as int)[a]
                        != keys.remove(i as int)[b] by {
                        let a2 = if a < i as int { a } else { a + 1 };
                        let b2 = if b < i as int { b } else { b + 1 };
                        assert(keys.remove(i as int)[a] == keys[a2]);
                        assert(keys.remove(i as int)[b] == keys[b2]);
                    }
                    assert(keys.remove(i as int).no_duplicates());
                }
                let e = self.entries.remove(i);
                return Some(e.1);
            }
            i += 1;
        }
        proof {
            lemma_map_of_contains(self.entries@, id);
            assert(self@ =~= self@.remove(id));
        }
        None
    }

    /// All keys, in insertion order.
    pub fn list_ids(&self) -> (r: Vec<u64>)
        ensures
            r@ == self.key_seq(),
    {
        let n = self.entries.len();
        let mut ids: Vec<u64> = Vec::new();
        let mut i: usize = 0;
        while i < n
            invariant
                n == self.entries@.len(),
                i <= n,
                ids@ =~= self.entries@.subrange(0, i as int).map_values(|e: (u64, V)| e.0),
            decreases n - i,
        {
            ids.push(self.entries[i].0);
            proof {
                assert(self.entries@.subrange(0, i + 1 as int).drop_last() =~= self.entries@
                    .subrange(0, i as int));
                assert(ids@ =~= self.entries@.subrange(0, i + 1 as int).map_values(
                    |e: (u64, V)| e.0,
                ));
            }
            i += 1;
        }
        proof {
            assert(self.entries@.subrange(0, n as int) =~= self.entries@);
        }
        ids
    }
}

} // verus!
