//! Why a lobby given by names cannot be searched.

use vstd::prelude::*;

verus! {

/// Why a lobby given by names cannot be searched.
#[derive(Clone, Copy, Debug, PartialEq, Eq, Structural)]
pub enum LobbyError {
    /// The text that should describe the lobby does not.
    Malformed,
    /// The edges do not agree on one place, outside the vertices, where
    /// every route ends: they lead to none, or to more than one.
    NoUniqueEnd,
    /// An edge activates a warp that no edge enters and that has no edges
    /// of its own.
    UnknownWarp,
    /// Costs or activation lists are so large that a route's total could
    /// not be held.
    CostOverflow,
}

} // verus!
