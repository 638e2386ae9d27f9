//! Registry of per-salt commitment stores.
//!
//! Each commitment to a plot is backed by its own on-disk key-value store,
//! identified by a fixed-size salt and living in a directory named by the
//! salt's hexadecimal form. A commitment is first `InProgress` and becomes
//! `Created` once finalized; the registry persists this record after every
//! lifecycle change and, on startup, discards every store that was not
//! durably finished.
//!
//! This crate holds the verified core: the lifecycle record, the registry
//! state machine, and the byte-exact encoding of the metadata file. The
//! surrounding program performs the filesystem and store-engine calls and
//! feeds their outcomes back into the registry.

pub mod codec;
pub mod error;
pub mod laws;
pub mod registry;
pub mod salt;
pub mod status;
pub mod table;

pub use error::CommitmentError;
pub use registry::Commitments;
pub use salt::Salt;
pub use status::CommitmentStatus;
