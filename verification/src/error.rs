//! Parse-level error kinds.

use vstd::prelude::*;

verus! {

/// What kind of text failed to parse.
#[derive(Clone, Copy, PartialEq, Eq, Structural, Debug)]
pub enum ParseError {
    /// A malformed `major.minor.patch` version string.
    Version,
    /// A malformed range-constraint string.
    Range,
    /// A malformed `author/name` package identifier.
    Package,
}

} // verus!
