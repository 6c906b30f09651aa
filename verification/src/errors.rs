//! The failures the scheduler reports.  Each is a structured value the
//! caller can branch on, not a bare message.

use vstd::prelude::*;

use crate::key::NodeKey;

verus! {

/// Everything that can go wrong with a scheduler call.
#[derive(Clone, Debug, PartialEq)]
pub enum SorterError {
    /// `add` was called, or `prepare` called again, after the graph was
    /// sealed.
    AlreadyPrepared,
    /// An operation that needs a sealed graph ran before `prepare`.
    NotPrepared,
    /// `prepare` found a cycle.  The path lists the keys along it in
    /// traversal order; read as consecutive edges it is itself a cycle,
    /// with the first key repeated at the end.  Rendering the path as
    /// text is deliberately left to the embedding: only it can print the
    /// opaque values its keys stand for.
    CycleDetected(Vec<NodeKey>),
    /// A key or id that was never registered through `add`, or that was
    /// removed.
    UnknownNode,
    /// `done` on a node that `get_ready` never handed out.
    NodeNotReady,
    /// `done` on a node already marked done.
    NodeAlreadyDone,
    /// `remove` after `get_ready` had already been called.
    IterationStarted,
}

} // verus!
