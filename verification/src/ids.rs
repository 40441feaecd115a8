use vstd::prelude::*;

verus! {

/// Identifier of a node in a layout tree.
pub type NodeId = u64;

/// Monotone counter of structural edits made through a session.
pub type Revision = u64;

} // verus!
