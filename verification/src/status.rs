use vstd::prelude::*;

verus! {

/// Lifecycle stage of one commitment's store.
///
/// A store starts `InProgress` when it is first opened and becomes `Created`
/// once an explicit finalize call marks it as a commitment to the whole plot.
/// No transition leads back from `Created` to `InProgress`.
#[derive(Clone, Copy, Debug, PartialEq, Eq, Structural)]
pub enum CommitmentStatus {
    /// The store was opened but its commitment is not yet complete.
    InProgress,
    /// The store holds a finished, whole commitment.
    Created,
}

} // verus!
