//! The recoverable error taxonomy of the simulation core. No error here is
//! fatal to the tick loop: each is reported and the offending operation is
//! dropped.

use vstd::prelude::*;

verus! {

/// Everything that can go wrong during loading, instance creation or a tick.
#[derive(Clone, Copy, PartialEq, Eq, Structural, Debug)]
pub enum SimError {
    /// An unknown region, instance or behavior id was named.
    NotFound,
    /// A behavior graph is structurally invalid (dangling connection,
    /// duplicate id, misused connector, or no node at all).
    MalformedGraph,
    /// A behavior graph has no unique entry node.
    AmbiguousEntryPoint,
    /// A lifecycle transition would run backwards.
    InvalidTransition,
    /// A position change onto a blocking tile (or off the representable
    /// coordinate range) was dropped.
    BlockedMove,
    /// An interpreter walk was cut short by the per-tick step budget.
    GraphStepLimitExceeded,
}

/// One reported recoverable error: when, for whom, and what.
#[derive(Clone, Copy, PartialEq, Eq, Structural, Debug)]
pub struct Diagnostic {
    pub tick: u64,
    pub instance_id: usize,
    pub error: SimError,
}

} // verus!
