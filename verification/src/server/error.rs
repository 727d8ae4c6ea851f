//! The conditions under which the engine declines an operation.

use vstd::prelude::*;

verus! {

/// Why an operation of the engine was declined.
///
/// Every kind is local and recoverable: the operation that reports it leaves
/// everything it did not explicitly document as changed untouched.
#[derive(Clone, Copy, Debug, PartialEq, Eq, Structural)]
pub enum EngineError {
    /// The keyframe store already holds history, so it cannot be seeded again.
    AlreadyBootstrapped,
    /// The requested tick precedes all known history.
    NoAnchor,
    /// A tick that is already cached was offered a different keyframe.
    NonMonotonicInsert,
    /// No keyframe is cached at exactly the requested tick.
    NotFound,
    /// A portal endpoint was given a lifetime of zero ticks.
    InvalidLifetime,
    /// A portal endpoint was given a scale of zero or less.
    InvalidScale,
    /// An agent id does not name an agent of the agent table.
    UnknownAgentId,
    /// A movement rule would leave the representable part of the world grid.
    CoordinateOverflow,
}

} // verus!
