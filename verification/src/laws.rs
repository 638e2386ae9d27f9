//! The guarantees that hold across sequences of registry operations, stated
//! over the record and handle mappings that the operations' contracts speak
//! of.

use vstd::prelude::*;

use crate::registry::{
    created_only, finalized_record, is_stale, opened_record, removed_record,
};
use crate::status::CommitmentStatus;

verus! {

/// A salt that no operation names is left alone: opening, finalizing or
/// removing a different salt neither adds, changes nor drops its entry, and
/// startup reconciliation never invents an entry for it.
pub proof fn lemma_untouched_salt(
    record: Map<Seq<u8>, CommitmentStatus>,
    salt: Seq<u8>,
    other: Seq<u8>,
)
    requires
        other != salt,
    ensures
        opened_record(record, salt).contains_key(other) == record.contains_key(other),
        record.contains_key(other) ==> opened_record(record, salt)[other] == record[other],
        finalized_record(record, salt).contains_key(other) == record.contains_key(other),
        record.contains_key(other) ==> finalized_record(record, salt)[other] == record[other],
        removed_record(record, salt).contains_key(other) == record.contains_key(other),
        record.contains_key(other) ==> removed_record(record, salt)[other] == record[other],
        created_only(record).contains_key(other) ==> record.contains_key(other),
{
}

/// A registry reconciled from an empty record holds no salt at all.
pub proof fn lemma_empty_record(salt: Seq<u8>)
    ensures
        !created_only(Map::<Seq<u8>, CommitmentStatus>::empty()).contains_key(salt),
        !is_stale(Map::<Seq<u8>, CommitmentStatus>::empty(), salt),
{
}

/// After a store for a salt is opened, the record holds that salt: as
/// `InProgress`, unless it was already `Created`, which opening preserves.
pub proof fn lemma_opened_status(record: Map<Seq<u8>, CommitmentStatus>, salt: Seq<u8>)
    ensures
        opened_record(record, salt).contains_key(salt),
        record.contains_key(salt) && record[salt] == CommitmentStatus::Created
            ==> opened_record(record, salt)[salt] == CommitmentStatus::Created,
        !(record.contains_key(salt) && record[salt] == CommitmentStatus::Created)
            ==> opened_record(record, salt)[salt] == CommitmentStatus::InProgress,
{
}

/// After a salt is finalized it stands in the record as `Created`, and a
/// fresh reconciliation of that record keeps it and does not delete its
/// directory.
pub proof fn lemma_finalized_survives_reconciliation(
    record: Map<Seq<u8>, CommitmentStatus>,
    salt: Seq<u8>,
)
    ensures
        finalized_record(record, salt).contains_key(salt),
        finalized_record(record, salt)[salt] == CommitmentStatus::Created,
        !is_stale(finalized_record(record, salt), salt),
        created_only(finalized_record(record, salt)).contains_key(salt),
        created_only(finalized_record(record, salt))[salt] == CommitmentStatus::Created,
{
}

/// Reconciliation splits the record cleanly: it keeps exactly the salts that
/// are `Created`, deletes exactly the salts present with any other status,
/// and no salt is both kept and deleted.
pub proof fn lemma_reconciliation_splits(record: Map<Seq<u8>, CommitmentStatus>, salt: Seq<u8>)
    ensures
        created_only(record).contains_key(salt) <==> (record.contains_key(salt) && record[salt]
            == CommitmentStatus::Created),
        created_only(record).contains_key(salt) ==> created_only(record)[salt]
            == CommitmentStatus::Created,
        is_stale(record, salt) <==> (record.contains_key(salt) && record[salt]
            != CommitmentStatus::Created),
        !(created_only(record).contains_key(salt) && is_stale(record, salt)),
{
}

/// Two get-or-create calls without an intervening removal share one store:
/// once a handle is recorded for a salt, looking that salt up yields that
/// same handle, also after a handle for another salt is recorded.
pub proof fn lemma_handle_shared(
    handles: Map<Seq<u8>, u64>,
    salt: Seq<u8>,
    id: u64,
    other: Seq<u8>,
    other_id: u64,
)
    requires
        other != salt,
    ensures
        handles.insert(salt, id).contains_key(salt),
        handles.insert(salt, id)[salt] == id,
        handles.insert(salt, id).insert(other, other_id)[salt] == id,
{
}

/// Removing a salt and then opening it again yields a brand-new `InProgress`
/// commitment, whatever stood in the record before, even `Created`.
pub proof fn lemma_remove_then_open(record: Map<Seq<u8>, CommitmentStatus>, salt: Seq<u8>)
    ensures
        opened_record(removed_record(record, salt), salt).contains_key(salt),
        opened_record(removed_record(record, salt), salt)[salt] == CommitmentStatus::InProgress,
{
}

/// A handle that was live when a store was removed is never the handle of a
/// store opened later: every issued handle lies below the issue bound of its
/// time, and the bound never decreases.
pub proof fn lemma_removed_handle_not_reused(
    removed_id: u64,
    bound_at_removal: u64,
    bound_at_reopen: u64,
)
    requires
        removed_id < bound_at_removal,
        bound_at_removal <= bound_at_reopen,
    ensures
        removed_id != bound_at_reopen,
{
}

/// Removing a salt that was never seen changes nothing: the record is the one
/// it was, and with no handle open there is no directory to delete.
pub proof fn lemma_remove_unknown_salt(record: Map<Seq<u8>, CommitmentStatus>, salt: Seq<u8>)
    requires
        !record.contains_key(salt),
    ensures
        removed_record(record, salt) == record,
{
    assert(removed_record(record, salt) =~= record);
}

/// Finalizing a salt twice is finalizing it once: the second call repeats the
/// first's record exactly, and the status is `Created` both times.
pub proof fn lemma_finalize_idempotent(record: Map<Seq<u8>, CommitmentStatus>, salt: Seq<u8>)
    ensures
        finalized_record(finalized_record(record, salt), salt) == finalized_record(record, salt),
        finalized_record(record, salt)[salt] == CommitmentStatus::Created,
{
    assert(finalized_record(finalized_record(record, salt), salt) =~= finalized_record(
        record,
        salt,
    ));
}

} // verus!
