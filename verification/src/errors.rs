//! Typed failures reported by route registration.

use vstd::prelude::*;

verus! {

/// The conditions under which registering a pattern fails.  None of them
/// corrupts the tree, and lookups never produce an error.
#[derive(Clone, Copy, Debug, PartialEq, Eq, Structural)]
pub enum RouterError {
    /// A node already has a wildcard child with a different name or kind.
    DuplicateParameter,
    /// A pattern continues past a `*name` token.
    RouteAfterCatchAll,
    /// The exact normalized pattern was registered twice on one method.
    DuplicateRoute,
    /// More than one `:`/`*` sigil appears within a single path fragment
    /// before a separator boundary.
    MultipleWildcardSegments,
}

} // verus!
