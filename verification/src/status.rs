use vstd::prelude::*;

verus! {

/// The state of a combining node's request.
#[derive(Debug, Clone, Copy, PartialEq, Eq, Structural)]
pub enum Status {
    /// The node was registered; whoever holds it as predecessor has not been
    /// served yet.
    Wait,
    /// The walk of a combiner ended at this node; whoever holds it as
    /// predecessor is the next combiner.
    Ready,
    /// A combiner applied the request staged in this node.
    Done,
}

} // verus!
