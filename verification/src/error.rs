//! What can end a pass early.

use vstd::prelude::*;

verus! {

/// The first failure of a pass, with the operation and the resource it struck.
#[derive(Debug, PartialEq, Eq)]
pub enum Error {
    /// Listing the actual resources failed; nothing that was listed is used.
    Fetch { cause: String },
    /// The provider did not create the named resource.
    Create { name: String, cause: String },
    /// The provider did not destroy the named resource.
    Destroy { name: String, cause: String },
    /// The provider did not bring the named resource in step.
    Sync { name: String, cause: String },
    /// One side of a diff holds the name twice.
    InvariantViolation { name: String },
}

} // verus!
