use vstd::prelude::*;

verus! {

/// Why an ordering operation was refused.
#[derive(Debug, Clone, Copy, PartialEq, Eq, Structural)]
pub enum OrderError {
    /// The referenced item or scope does not exist.
    NotFound,
    /// The supplied parent id is not the item's current parent.
    OwnershipViolation,
    /// The destination scope has another top-level owner than the source.
    ScopeMismatch,
    /// The store could not carry out the write.
    StorageFailure,
}

} // verus!
