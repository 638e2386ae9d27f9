use vstd::prelude::*;

use crate::salt::Salt;
use crate::status::CommitmentStatus;
use crate::table::{lookup, map_of_entries, Table};

verus! {

/// The byte sequences that a list of salts stands for.
pub open spec fn salt_views(salts: Seq<Salt>) -> Seq<Seq<u8>> {
    salts.map(|i: int, s: Salt| s@)
}

/// The record that startup reconciliation keeps: only the salts that were
/// durably finished.
pub open spec fn created_only(record: Map<Seq<u8>, CommitmentStatus>) -> Map<
    Seq<u8>,
    CommitmentStatus,
> {
    Map::new(
        |k: Seq<u8>| record.contains_key(k) && record[k] == CommitmentStatus::Created,
        |k: Seq<u8>| record[k],
    )
}

/// Whether reconciliation of `record` deletes the directory of `salt`.
pub open spec fn is_stale(record: Map<Seq<u8>, CommitmentStatus>, salt: Seq<u8>) -> bool {
    record.contains_key(salt) && record[salt] != CommitmentStatus::Created
}

/// The record after a store for `salt` was opened: a salt already recorded as
/// `Created` keeps that status; any other salt is recorded as `InProgress`.
pub open spec fn opened_record(record: Map<Seq<u8>, CommitmentStatus>, salt: Seq<u8>) -> Map<
    Seq<u8>,
    CommitmentStatus,
> {
    if record.contains_key(salt) && record[salt] == CommitmentStatus::Created {
        record
    } else {
        record.insert(salt, CommitmentStatus::InProgress)
    }
}

/// The record after `salt` was finalized.
pub open spec fn finalized_record(record: Map<Seq<u8>, CommitmentStatus>, salt: Seq<u8>) -> Map<
    Seq<u8>,
    CommitmentStatus,
> {
    record.insert(salt, CommitmentStatus::Created)
}

/// The record after `salt` was removed.
pub open spec fn removed_record(record: Map<Seq<u8>, CommitmentStatus>, salt: Seq<u8>) -> Map<
    Seq<u8>,
    CommitmentStatus,
> {
    record.remove(salt)
}

/// The commitment-store registry: the lifecycle record of every salt, and a
/// numbered entry for every store whose handle is currently open.
///
/// The registry itself never touches the disk. The surrounding program reads
/// and writes the metadata file, opens stores, and deletes directories; each
/// operation here says exactly which of those actions its caller owes.
pub struct Commitments {
    record: Table<CommitmentStatus>,
    handles: Table<u64>,
    next_handle: u64,
}

impl Commitments {
    /// The lifecycle record, salt bytes to status.
    pub closed spec fn record(self) -> Map<Seq<u8>, CommitmentStatus> {
        self.record.as_map()
    }

    /// The open handles, salt bytes to handle number.
    pub closed spec fn handles(self) -> Map<Seq<u8>, u64> {
        self.handles.as_map()
    }

    /// Every handle number handed out so far lies below this bound, and the
    /// bound never decreases: a removed store's handle is never reissued.
    pub closed spec fn handle_bound(self) -> u64 {
        self.next_handle
    }

    /// Both tables hold one entry per salt.
    pub closed spec fn tables_wf(self) -> bool {
        self.record.wf() && self.handles.wf()
    }

    /// The registry's invariant: one entry per salt in both tables, every
    /// open handle's salt has a lifecycle entry, and every handle number lies
    /// below the issue bound.
    pub open spec fn wf(self) -> bool {
        &&& self.tables_wf()
        &&& forall|k: Seq<u8>| #[trigger]
            self.handles().contains_key(k) ==> self.record().contains_key(k)
        &&& forall|k: Seq<u8>| #[trigger]
            self.handles().contains_key(k) ==> self.handles()[k] < self.handle_bound()
    }

    /// Startup reconciliation. From the record read out of the metadata file,
    /// keep exactly the salts that are `Created` and return, beside the ready
    /// registry, the salts whose directories the caller must delete: exactly
    /// those present with any other status, each once.
    pub fn new(record: Table<CommitmentStatus>) -> (r: (Commitments, Vec<Salt>))
        requires
            record.wf(),
        ensures
            r.0.wf(),
            r.0.record() == created_only(record.as_map()),
            r.0.handles() == Map::<Seq<u8>, u64>::empty(),
            r.0.handle_bound() == 0,
            forall|k: Seq<u8>| #[trigger]
                salt_views(r.1@).contains(k) <==> is_stale(record.as_map(), k),
            forall|a: int, b: int| 0 <= a < b < r.1@.len() ==> r.1@[a]@ != r.1@[b]@,
    {
        let ghost es = record.entries_seq();
        let n = record.len();
        let mut kept: Table<CommitmentStatus> = Table::new();
        let mut stale: Vec<Salt> = Vec::new();
        let mut i: usize = 0;
        while i < n
            invariant
                0 <= i <= n,
                n == es.len(),
                record.wf(),
                es == record.entries_seq(),
                kept.wf(),
                kept.as_map() == created_only(map_of_entries(es.take(i as int))),
                forall|k: Seq<u8>| #[trigger]
                    salt_views(stale@).contains(k) <==> (map_of_entries(
                        es.take(i as int),
                    ).contains_key(k) && map_of_entries(es.take(i as int))[k]
                        != CommitmentStatus::Created),
                forall|a: int, b: int| 0 <= a < b < stale@.len() ==> stale@[a]@ != stale@[b]@,
            decreases n - i,
        {
            let (s, st) = record.entry_at(i);
            let ghost pm = map_of_entries(es.take(i as int));
            let ghost k = es[i as int].0;
            let ghost pre_stale = stale@;
            proof {
                assert forall|j: int| 0 <= j < i implies es.take(i as int)[j].0 != k by {
                    assert(es[j].0 != es[i as int].0);
                }
                crate::table::lemma_lookup_absent(es.take(i as int), k);
                assert(!pm.contains_key(k));
                assert(es.take(i as int + 1) =~= es.take(i as int).push(es[i as int]));
                assert forall|kk: Seq<u8>|
                    lookup(es.take(i as int + 1), kk) == (if kk == k {
                        Some(es[i as int].1)
                    } else {
                        lookup(es.take(i as int), kk)
                    }) by {
                    assert(es.take(i as int + 1).drop_last() =~= es.take(i as int));
                    assert(es.take(i as int + 1).last() == es[i as int]);
                }
                assert(map_of_entries(es.take(i as int + 1)) =~= pm.insert(k, es[i as int].1));
            }
            if st == CommitmentStatus::Created {
                kept.set(&s, st);
                proof {
                    assert(created_only(pm.insert(k, CommitmentStatus::Created)) =~= created_only(
                        pm,
                    ).insert(k, CommitmentStatus::Created));
                    // the stale set is unchanged, and so is its meaning
                    assert forall|kk: Seq<u8>| #[trigger]
                        salt_views(stale@).contains(kk) <==> (pm.insert(k, es[i as int].1).contains_key(
                            kk,
                        ) && pm.insert(k, es[i as int].1)[kk] != CommitmentStatus::Created) by {
                        if kk == k {
                            assert(!salt_views(stale@).contains(kk));
                        }
                    }
                }
            } else {
                stale.push(s);
                proof {
                    assert(created_only(pm.insert(k, es[i as int].1)) =~= created_only(pm));
                    assert(salt_views(stale@) =~= salt_views(pre_stale).push(k));
                    assert forall|kk: Seq<u8>| #[trigger]
                        salt_views(stale@).contains(kk) <==> (pm.insert(k, es[i as int].1).contains_key(
                            kk,
                        ) && pm.insert(k, es[i as int].1)[kk] != CommitmentStatus::Created) by {
                        let sv = salt_views(stale@);
                        if kk == k {
                            assert(sv[sv.len() - 1] == k);
                            assert(sv.contains(kk));
                        } else {
                            if sv.contains(kk) {
                                let w = choose|w: int| 0 <= w < sv.len() && sv[w] == kk;
                                assert(w < sv.len() - 1);
                                assert(salt_views(pre_stale)[w] == kk);
                                assert(salt_views(pre_stale).contains(kk));
                            }
                            if salt_views(pre_stale).contains(kk) {
                                let w = choose|w: int|
                                    0 <= w < salt_views(pre_stale).len() && salt_views(
                                        pre_stale,
                                    )[w] == kk;
                                assert(sv[w] == kk);
                                assert(sv.contains(kk));
                            }
                        }
                    }
                    // the new salt is distinct from every earlier stale salt
                    assert forall|a: int, b: int|
                        0 <= a < b < stale@.len() implies stale@[a]@ != stale@[b]@ by {
                        if b == stale@.len() - 1 {
                            assert(salt_views(pre_stale)[a] == stale@[a]@);
                            assert(salt_views(pre_stale).contains(stale@[a]@));
                            assert(!pm.contains_key(k));
                        }
                    }
                }
            }
            i += 1;
        }
        proof {
            assert(es.take(n as int) =~= es);
            assert(kept.as_map() =~= created_only(record.as_map()));
        }
        let registry = Commitments { record: kept, handles: Table::new(), next_handle: 0 };
        (registry, stale)
    }

    /// The handle number of the open store for `salt`, if one is open. A
    /// caller holding that handle needs no further work: repeated requests
    /// for one salt share one open store.
    pub fn lookup_handle(&self, salt: &Salt) -> (r: Option<u64>)
        requires
            self.wf(),
        ensures
            r == (if self.handles().contains_key(salt@) {
                Some(self.handles()[salt@])
            } else {
                None::<u64>
            }),
    {
        self.handles.get(salt)
    }

    /// Record that the caller opened the store for `salt`, and return the new
    /// handle's number. The salt's status becomes `InProgress` unless it was
    /// already `Created`, which reopening must never downgrade; the caller
    /// owes one write of the encoded record to the metadata file before it
    /// reports success.
    pub fn record_opened(&mut self, salt: &Salt) -> (r: u64)
        requires
            old(self).wf(),
            !old(self).handles().contains_key(salt@),
            old(self).handle_bound() < u64::MAX,
        ensures
            final(self).wf(),
            r == old(self).handle_bound(),
            final(self).handle_bound() == old(self).handle_bound() + 1,
            final(self).handles() == old(self).handles().insert(salt@, r),
            final(self).record() == opened_record(old(self).record(), salt@),
            forall|k: Seq<u8>| #[trigger]
                old(self).handles().contains_key(k) ==> old(self).handles()[k] != r,
    {
        let id = self.next_handle;
        self.next_handle = self.next_handle + 1;
        self.handles.set(salt, id);
        let cur = self.record.get(salt);
        let keep = match cur {
            Some(st) => st == CommitmentStatus::Created,
            None => false,
        };
        if !keep {
            self.record.set(salt, CommitmentStatus::InProgress);
        }
        id
    }

    /// Mark `salt` as a finished, whole commitment, whether or not a handle
    /// is open or the salt was ever seen before. The caller owes one write of
    /// the encoded record to the metadata file before it reports success.
    pub fn finalize(&mut self, salt: &Salt)
        requires
            old(self).wf(),
        ensures
            final(self).wf(),
            final(self).record() == finalized_record(old(self).record(), salt@),
            final(self).handles() == old(self).handles(),
            final(self).handle_bound() == old(self).handle_bound(),
    {
        self.record.set(salt, CommitmentStatus::Created);
        proof {
            assert forall|k: Seq<u8>| #[trigger]
                self.handles().contains_key(k) implies self.record().contains_key(k)
                && self.handles()[k] < self.handle_bound() by {
                assert(old(self).handles().contains_key(k));
                assert(old(self).record().contains_key(k));
            }
        }
    }

    /// Erase `salt` from the lifecycle record and release its handle entry.
    /// When a handle was open, its number is returned and the caller owes the
    /// deletion of the store's directory, after dropping every clone of the
    /// handle; otherwise there is nothing on disk to delete and the call
    /// changes nothing.
    pub fn remove(&mut self, salt: &Salt) -> (r: Option<u64>)
        requires
            old(self).wf(),
        ensures
            final(self).wf(),
            final(self).record() == removed_record(old(self).record(), salt@),
            final(self).handles() == old(self).handles().remove(salt@),
            final(self).handle_bound() == old(self).handle_bound(),
            r == (if old(self).handles().contains_key(salt@) {
                Some(old(self).handles()[salt@])
            } else {
                None::<u64>
            }),
    {
        self.record.remove(salt);
        let r = self.handles.remove(salt);
        proof {
            assert forall|k: Seq<u8>| #[trigger]
                self.handles().contains_key(k) implies self.record().contains_key(k)
                && self.handles()[k] < self.handle_bound() by {
                assert(k != salt@);
                assert(old(self).handles().contains_key(k));
                assert(old(self).record().contains_key(k));
            }
        }
        r
    }

    /// The lifecycle record as a table, for encoding into the metadata file.
    pub fn metadata(&self) -> (r: &Table<CommitmentStatus>)
        requires
            self.wf(),
        ensures
            r.wf(),
            r.as_map() == self.record(),
    {
        &self.record
    }
}

} // verus!
