use vstd::prelude::*;

verus! {

/// Any error that may occur when building a pointer or inserting through one.
#[derive(Debug, Clone, Copy, PartialEq, Eq, Structural)]
pub enum Error {
    /// A non-empty pointer text does not start with `/`.
    MissingLeadingSlash,
    /// The addressed parent exists but cannot take a keyed insertion.
    UnsupportedInsertion,
    /// A segment on the path to the addressed parent does not exist.
    KeyNotFound,
}

} // verus!
