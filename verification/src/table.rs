use vstd::prelude::*;

use crate::salt::{salt_eq, Salt};

verus! {

/// Entries of a table as (byte-sequence key, value) pairs.
pub open spec fn entry_views<V>(entries: Seq<(Salt, V)>) -> Seq<(Seq<u8>, V)> {
    entries.map(|i: int, e: (Salt, V)| (e.0@, e.1))
}

/// The value that an entry sequence associates with `key`, the latest entry
/// winning.
pub open spec fn lookup<V>(entries: Seq<(Seq<u8>, V)>, key: Seq<u8>) -> Option<V>
    decreases entries.len(),
{
    if entries.len() == 0 {
        None
    } else if entries.last().0 == key {
        Some(entries.last().1)
    } else {
        lookup(entries.drop_last(), key)
    }
}

/// No key occurs twice.
pub open spec fn keys_distinct<V>(entries: Seq<(Seq<u8>, V)>) -> bool {
    forall|i: int, j: int| 0 <= i < j < entries.len() ==> entries[i].0 != entries[j].0
}

/// The mapping that an entry sequence stands for.
pub open spec fn map_of_entries<V>(entries: Seq<(Seq<u8>, V)>) -> Map<Seq<u8>, V> {
    Map::new(|k: Seq<u8>| lookup(entries, k) is Some, |k: Seq<u8>| lookup(entries, k)->0)
}

/// A key under no entry is not found.
pub proof fn lemma_lookup_absent<V>(entries: Seq<(Seq<u8>, V)>, key: Seq<u8>)
    requires
        forall|i: int| 0 <= i < entries.len() ==> entries[i].0 != key,
    ensures
        lookup(entries, key) is None,
    decreases entries.len(),
{
    if entries.len() > 0 {
        assert(entries[entries.len() - 1].0 != key);
        lemma_lookup_absent(entries.drop_last(), key);
    }
}

/// A key that is found is the key of some entry.
pub proof fn lemma_lookup_some_exists<V>(entries: Seq<(Seq<u8>, V)>, key: Seq<u8>)
    requires
        lookup(entries, key) is Some,
    ensures
        exists|i: int| 0 <= i < entries.len() && entries[i].0 == key,
    decreases entries.len(),
{
    if entries.last().0 == key {
        assert(entries[entries.len() - 1].0 == key);
    } else {
        lemma_lookup_some_exists(entries.drop_last(), key);
        let i = choose|i: int|
            0 <= i < entries.drop_last().len() && entries.drop_last()[i].0 == key;
        assert(entries[i].0 == key);
    }
}

/// With distinct keys, lookup returns the entry at `i` for that entry's key.
pub proof fn lemma_lookup_present<V>(entries: Seq<(Seq<u8>, V)>, i: int)
    requires
        keys_distinct(entries),
        0 <= i < entries.len(),
    ensures
        lookup(entries, entries[i].0) == Some(entries[i].1),
    decreases entries.len(),
{
    if i < entries.len() - 1 {
        assert(entries.last().0 != entries[i].0);
        assert(keys_distinct(entries.drop_last()));
        lemma_lookup_present(entries.drop_last(), i);
        assert(entries.drop_last()[i] == entries[i]);
    }
}

/// Replacing the entry at `i` by one with the same key rewrites lookup for
/// that key alone.
pub proof fn lemma_lookup_update<V>(
    entries: Seq<(Seq<u8>, V)>,
    i: int,
    e: (Seq<u8>, V),
    key: Seq<u8>,
)
    requires
        keys_distinct(entries),
        0 <= i < entries.len(),
        e.0 == entries[i].0,
    ensures
        lookup(entries.update(i, e), key) == if key == e.0 {
            Some(e.1)
        } else {
            lookup(entries, key)
        },
    decreases entries.len(),
{
    let upd = entries.update(i, e);
    if i == entries.len() - 1 {
        assert(upd.last() == e);
        assert(upd.drop_last() =~= entries.drop_last());
    } else {
        assert(upd.last() == entries.last());
        assert(upd.drop_last() =~= entries.drop_last().update(i, e));
        assert(keys_distinct(entries.drop_last()));
        assert(entries.last().0 != entries[i].0);
        lemma_lookup_update(entries.drop_last(), i, e, key);
    }
}

/// Removing the entry at `i` erases lookup for that key and no other.
pub proof fn lemma_lookup_remove<V>(entries: Seq<(Seq<u8>, V)>, i: int, key: Seq<u8>)
    requires
        keys_distinct(entries),
        0 <= i < entries.len(),
    ensures
        lookup(entries.remove(i), key) == if key == entries[i].0 {
            None
        } else {
            lookup(entries, key)
        },
    decreases entries.len(),
{
    let rem = entries.remove(i);
    entries.remove_ensures(i);
    if i == entries.len() - 1 {
        assert(rem =~= entries.drop_last());
        if key == entries[i].0 {
            assert(forall|j: int| 0 <= j < rem.len() ==> rem[j].0 != key);
            lemma_lookup_absent(rem, key);
        }
    } else {
        assert(rem.last() == entries.last());
        assert(rem.drop_last() =~= entries.drop_last().remove(i));
        assert(keys_distinct(entries.drop_last()));
        assert(entries.last().0 != entries[i].0);
        lemma_lookup_remove(entries.drop_last(), i, key);
    }
}

/// Mapping from salts to values, kept as a list with one entry per salt.
pub struct Table<V> {
    entries: Vec<(Salt, V)>,
}

impl<V: Copy> Table<V> {
    /// The table's entries as (byte-sequence key, value) pairs, oldest first.
    pub closed spec fn entries_seq(self) -> Seq<(Seq<u8>, V)> {
        entry_views(self.entries@)
    }

    /// Each salt has at most one entry.
    pub open spec fn wf(self) -> bool {
        keys_distinct(self.entries_seq())
    }

    /// The mapping that the table stands for.
    pub open spec fn as_map(self) -> Map<Seq<u8>, V> {
        map_of_entries(self.entries_seq())
    }

    /// Every key of the table is the eight-byte sequence of a salt.
    pub proof fn lemma_keys_len(self)
        ensures
            forall|i: int|
                0 <= i < self.entries_seq().len() ==> (#[trigger] self.entries_seq()[i].0).len()
                    == 8,
    {
        assert forall|i: int|
            0 <= i < self.entries_seq().len() implies (#[trigger] self.entries_seq()[i].0).len()
            == 8 by {
            assert(self.entries_seq()[i].0 == self.entries@[i].0@);
        }
    }

    /// An empty table.
    pub fn new() -> (r: Table<V>)
        ensures
            r.wf(),
            r.as_map() == Map::<Seq<u8>, V>::empty(),
            r.entries_seq() == Seq::<(Seq<u8>, V)>::empty(),
    {
        let r = Table { entries: Vec::new() };
        proof {
            assert(r.entries_seq() =~= Seq::<(Seq<u8>, V)>::empty());
            assert(r.as_map() =~= Map::<Seq<u8>, V>::empty());
        }
        r
    }

    /// Number of entries.
    pub fn len(&self) -> (r: usize)
        ensures
            r == self.entries_seq().len(),
    {
        self.entries.len()
    }

    /// The entry at position `i`, as stored.
    pub fn entry_at(&self, i: usize) -> (r: (Salt, V))
        requires
            i < self.entries_seq().len(),
        ensures
            r.0@ == self.entries_seq()[i as int].0,
            r.1 == self.entries_seq()[i as int].1,
    {
        self.entries[i]
    }

    /// Index of the entry for `salt`, if one is present.
    fn index_of(&self, salt: &Salt) -> (r: Option<usize>)
        ensures
            match r {
                Some(i) => i < self.entries_seq().len() && self.entries_seq()[i as int].0
                    == salt@,
                None => forall|j: int|
                    0 <= j < self.entries_seq().len() ==> self.entries_seq()[j].0 != salt@,
            },
    {
        let n = self.entries.len();
        let mut i: usize = 0;
        while i < n
            invariant
                0 <= i <= n,
                n == self.entries@.len(),
                forall|j: int| 0 <= j < i ==> self.entries_seq()[j].0 != salt@,
            decreases n - i,
        {
            let e = &self.entries[i];
            if salt_eq(&e.0, salt) {
                return Some(i);
            }
            i += 1;
        }
        None
    }

    /// The value recorded for `salt`, if any.
    pub fn get(&self, salt: &Salt) -> (r: Option<V>)
        requires
            self.wf(),
        ensures
            r == lookup(self.entries_seq(), salt@),
            self.as_map().contains_key(salt@) ==> r == Some(self.as_map()[salt@]),
            !self.as_map().contains_key(salt@) ==> r is None,
    {
        match self.index_of(salt) {
            Some(i) => {
                proof {
                    lemma_lookup_present(self.entries_seq(), i as int);
                }
                let e = &self.entries[i];
                Some(e.1)
            },
            None => {
                proof {
                    lemma_lookup_absent(self.entries_seq(), salt@);
                }
                None
            },
        }
    }

    /// Record `value` for `salt`, replacing any earlier value.
    pub fn set(&mut self, salt: &Salt, value: V)
        requires
            old(self).wf(),
        ensures
            final(self).wf(),
            final(self).as_map() == old(self).as_map().insert(salt@, value),
            !old(self).as_map().contains_key(salt@) ==> final(self).entries_seq() == old(
                self,
            ).entries_seq().push((salt@, value)),
    {
        let ghost pre = self.entries_seq();
        match self.index_of(salt) {
            Some(i) => {
                self.entries[i] = (*salt, value);
                proof {
                    lemma_lookup_present(pre, i as int);
                    assert(self.entries_seq() =~= pre.update(i as int, (salt@, value)));
                    assert forall|a: int, b: int|
                        0 <= a < b < self.entries_seq().len() implies self.entries_seq()[a].0
                        != self.entries_seq()[b].0 by {
                        assert(pre[a].0 != pre[b].0);
                    }
                    assert forall|k: Seq<u8>|
                        lookup(self.entries_seq(), k) == if k == salt@ {
                            Some(value)
                        } else {
                            lookup(pre, k)
                        } by {
                        lemma_lookup_update(pre, i as int, (salt@, value), k);
                    }
                    assert(self.as_map() =~= map_of_entries(pre).insert(salt@, value));
                }
            },
            None => {
                self.entries.push((*salt, value));
                proof {
                    assert(self.entries_seq() =~= pre.push((salt@, value)));
                    assert(self.entries_seq().drop_last() =~= pre);
                    assert forall|k: Seq<u8>|
                        lookup(self.entries_seq(), k) == if k == salt@ {
                            Some(value)
                        } else {
                            lookup(pre, k)
                        } by {}
                    assert(self.as_map() =~= map_of_entries(pre).insert(salt@, value));
                }
            },
        }
    }

    /// Remove the entry for `salt`, returning its value, if one was present.
    pub fn remove(&mut self, salt: &Salt) -> (r: Option<V>)
        requires
            old(self).wf(),
        ensures
            final(self).wf(),
            final(self).as_map() == old(self).as_map().remove(salt@),
            r == lookup(old(self).entries_seq(), salt@),
    {
        let ghost pre = self.entries_seq();
        match self.index_of(salt) {
            Some(i) => {
                let e = self.entries.remove(i);
                proof {
                    pre.remove_ensures(i as int);
                    assert(self.entries_seq() =~= pre.remove(i as int));
                    assert forall|a: int, b: int|
                        0 <= a < b < self.entries_seq().len() implies self.entries_seq()[a].0
                        != self.entries_seq()[b].0 by {
                        if b < i {
                            assert(pre[a].0 != pre[b].0);
                        } else if a < i {
                            assert(pre[a].0 != pre[b + 1].0);
                        } else {
                            assert(pre[a + 1].0 != pre[b + 1].0);
                        }
                    }
                    assert forall|k: Seq<u8>|
                        lookup(self.entries_seq(), k) == if k == salt@ {
                            None::<V>
                        } else {
                            lookup(pre, k)
                        } by {
                        lemma_lookup_remove(pre, i as int, k);
                    }
                    assert(self.as_map() =~= map_of_entries(pre).remove(salt@));
                    lemma_lookup_present(pre, i as int);
                }
                Some(e.1)
            },
            None => {
                proof {
                    lemma_lookup_absent(pre, salt@);
                    assert(self.as_map() =~= map_of_entries(pre).remove(salt@));
                }
                None
            },
        }
    }
}

} // verus!
