//! Identifiers of the backward graph and the edges between its nodes.
use vstd::prelude::*;

use burn_common::id::StreamId;

verus! {

/// Declares burn_common's stream identifier so that edges can carry it.
/// The library never looks inside it.
#[verifier::external_type_specification]
#[verifier::external_body]
pub struct ExStreamId(StreamId);

/// Handle of one node of the backward graph (one operation's output).
///
/// The forward pass hands these out; a handle is used as the registry key
/// and as the unit of "already visited" bookkeeping.
pub type NodeID = u64;

/// One backward edge: the parent node, with the stream that produced it.
#[derive(Clone, Copy, Debug, PartialEq, Eq, Hash)]
pub struct Parent {
    pub id: NodeID,
    pub stream: StreamId,
}

impl Parent {
    pub fn new(id: NodeID, stream: StreamId) -> (r: Parent)
        ensures
            r.id == id,
            r.stream == stream,
    {
        Parent { id, stream }
    }
}

} // verus!
