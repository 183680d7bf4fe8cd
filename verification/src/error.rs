//! The failures that the protocol core reports to its caller.

use vstd::prelude::*;
use crate::packet::NodeId;

verus! {

/// Every failure of the core is one of these recoverable results.
#[derive(Clone, Copy, Debug, PartialEq, Eq, Structural)]
pub enum ProtocolError {
    /// A fragment payload longer than the fragment buffer.
    FragmentTooLarge,
    /// A routing header whose cursor cannot move further.
    RouteExhausted,
    /// The fragments at hand do not make up one whole session.
    IncompleteSession,
    /// Two fragments carry the same index and differ in content.
    DuplicateFragment,
    /// A discovered fact gives this node a type other than the stored one.
    TypeConflict(NodeId),
    /// A flood was started without any neighbor to address.
    NoNeighbors,
    /// No admissible route leads to the destination.
    NoRouteFound,
    /// The transport did not take a packet.
    TransportUnavailable,
}

} // verus!
