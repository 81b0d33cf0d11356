use vstd::prelude::*;

verus! {

/// Why an operation of the store failed, apart from I/O.
#[derive(Debug, Clone, Copy, PartialEq, Eq, Structural)]
pub enum Error {
    /// The id is absent from the page-location index.
    NotFound,
    /// A stored record failed its checks, or a location has no file holding it.
    Corruption,
    /// A reserved id (zero or the largest), an empty batch, or a batch too large for the location space.
    InvalidArgument,
}

} // verus!
