use vstd::prelude::*;

verus! {

/// What can go wrong around the registry. Every kind carries the reporting
/// collaborator's own message.
///
/// The registry's verified operations themselves never fail; these values are
/// built where the surrounding program's store-engine and filesystem calls
/// fail, and handed back to callers untouched.
#[derive(Debug, Clone)]
pub enum CommitmentError {
    /// The store engine could not open or create a store at the salt's
    /// directory. No handle exists and the record was not touched.
    StoreOpenFailure(String),
    /// The metadata file could not be written (or read where a read is
    /// required). The in-memory record is ahead of the disk until a later
    /// write succeeds.
    MetadataIoFailure(String),
    /// A salt's directory could not be deleted, during startup reconciliation
    /// or an explicit removal.
    DirectoryRemovalFailure(String),
}

impl CommitmentError {
    /// Whether the store engine failed to open a store.
    pub fn is_store_open_failure(&self) -> (r: bool)
        ensures
            r == (self is StoreOpenFailure),
    {
        match self {
            CommitmentError::StoreOpenFailure(_) => true,
            _ => false,
        }
    }

    /// Whether the metadata file could not be read or written.
    pub fn is_metadata_io_failure(&self) -> (r: bool)
        ensures
            r == (self is MetadataIoFailure),
    {
        match self {
            CommitmentError::MetadataIoFailure(_) => true,
            _ => false,
        }
    }

    /// Whether a salt's directory could not be deleted.
    pub fn is_directory_removal_failure(&self) -> (r: bool)
        ensures
            r == (self is DirectoryRemovalFailure),
    {
        match self {
            CommitmentError::DirectoryRemovalFailure(_) => true,
            _ => false,
        }
    }

    /// The collaborator's own message.
    pub fn detail(&self) -> (r: &String)
        ensures
            r@ == (match self {
                CommitmentError::StoreOpenFailure(m) => m@,
                CommitmentError::MetadataIoFailure(m) => m@,
                CommitmentError::DirectoryRemovalFailure(m) => m@,
            }),
    {
        match self {
            CommitmentError::StoreOpenFailure(m) => m,
            CommitmentError::MetadataIoFailure(m) => m,
            CommitmentError::DirectoryRemovalFailure(m) => m,
        }
    }
}

} // verus!
