use commitments::registry::Commitments;
use commitments::status::CommitmentStatus;
use commitments::table::Table;
use commitments::error::CommitmentError;
use commitments::Salt;

const A: Salt = [1, 1, 1, 1, 1, 1, 1, 1];
const B: Salt = [2, 2, 2, 2, 2, 2, 2, 2];

fn fresh() -> Commitments {
    let (registry, stale) = Commitments::new(Table::new());
    assert!(stale.is_empty());
    registry
}

#[test]
fn fresh_registry_has_no_salts() {
    let registry = fresh();
    assert_eq!(registry.metadata().len(), 0);
    assert_eq!(registry.metadata().get(&A), None);
    assert_eq!(registry.lookup_handle(&A), None);
}

#[test]
fn get_or_create_records_in_progress() {
    let mut registry = fresh();
    assert_eq!(registry.lookup_handle(&A), None);
    let id = registry.record_opened(&A);
    assert_eq!(registry.metadata().get(&A), Some(CommitmentStatus::InProgress));
    assert_eq!(registry.lookup_handle(&A), Some(id));
}

#[test]
fn finalize_records_created() {
    let mut registry = fresh();
    registry.record_opened(&A);
    registry.finalize(&A);
    assert_eq!(registry.metadata().get(&A), Some(CommitmentStatus::Created));
}

#[test]
fn finalized_salt_survives_reconciliation() {
    let mut registry = fresh();
    registry.record_opened(&A);
    registry.finalize(&A);
    let bytes = commitments::codec::encode_record(registry.metadata());
    let reread = commitments::codec::parse_record(&bytes).expect("own write must parse");
    let (after_restart, stale) = Commitments::new(reread);
    assert!(stale.is_empty());
    assert_eq!(after_restart.metadata().get(&A), Some(CommitmentStatus::Created));
}

#[test]
fn reconciliation_drops_in_progress_and_keeps_created() {
    let mut record: Table<CommitmentStatus> = Table::new();
    record.set(&A, CommitmentStatus::Created);
    record.set(&B, CommitmentStatus::InProgress);
    let (registry, stale) = Commitments::new(record);
    assert_eq!(stale, vec![B]);
    assert_eq!(registry.metadata().get(&A), Some(CommitmentStatus::Created));
    assert_eq!(registry.metadata().get(&B), None);
    assert_eq!(registry.metadata().len(), 1);
}

#[test]
fn reopening_preserves_created_status() {
    let mut record: Table<CommitmentStatus> = Table::new();
    record.set(&A, CommitmentStatus::Created);
    let (mut registry, _) = Commitments::new(record);
    assert_eq!(registry.lookup_handle(&A), None);
    registry.record_opened(&A);
    assert_eq!(registry.metadata().get(&A), Some(CommitmentStatus::Created));
}

#[test]
fn repeated_get_shares_one_handle() {
    let mut registry = fresh();
    let id = registry.record_opened(&A);
    assert_eq!(registry.lookup_handle(&A), Some(id));
    assert_eq!(registry.lookup_handle(&A), Some(id));
    let other = registry.record_opened(&B);
    assert_ne!(id, other);
    assert_eq!(registry.lookup_handle(&A), Some(id));
}

#[test]
fn remove_then_recreate_is_brand_new() {
    let mut registry = fresh();
    let first = registry.record_opened(&A);
    registry.finalize(&A);
    let removed = registry.remove(&A);
    assert_eq!(removed, Some(first));
    assert_eq!(registry.lookup_handle(&A), None);
    assert_eq!(registry.metadata().get(&A), None);
    let second = registry.record_opened(&A);
    assert_ne!(first, second);
    assert_eq!(registry.metadata().get(&A), Some(CommitmentStatus::InProgress));
}

#[test]
fn remove_of_unknown_salt_is_a_quiet_no_op() {
    let mut registry = fresh();
    let removed = registry.remove(&A);
    assert_eq!(removed, None);
    assert_eq!(registry.metadata().len(), 0);
    assert_eq!(registry.lookup_handle(&A), None);
}

#[test]
fn finalize_twice_equals_finalize_once() {
    let mut registry = fresh();
    registry.record_opened(&A);
    registry.finalize(&A);
    let once = commitments::codec::encode_record(registry.metadata());
    registry.finalize(&A);
    let twice = commitments::codec::encode_record(registry.metadata());
    assert_eq!(once, twice);
    assert_eq!(registry.metadata().get(&A), Some(CommitmentStatus::Created));
}

#[test]
fn finalize_of_unseen_salt_is_permitted() {
    let mut registry = fresh();
    registry.finalize(&B);
    assert_eq!(registry.metadata().get(&B), Some(CommitmentStatus::Created));
    assert_eq!(registry.lookup_handle(&B), None);
}

#[test]
fn error_kinds_are_told_apart() {
    let open = CommitmentError::StoreOpenFailure(String::from("store engine said no"));
    let meta = CommitmentError::MetadataIoFailure(String::from("disk full"));
    let dir = CommitmentError::DirectoryRemovalFailure(String::from("permission denied"));
    assert!(open.is_store_open_failure());
    assert!(!open.is_metadata_io_failure());
    assert!(meta.is_metadata_io_failure());
    assert!(!meta.is_directory_removal_failure());
    assert!(dir.is_directory_removal_failure());
    assert!(!dir.is_store_open_failure());
    assert_eq!(open.detail().as_str(), "store engine said no");
    assert_eq!(meta.detail().as_str(), "disk full");
    assert_eq!(dir.detail().as_str(), "permission denied");
}
