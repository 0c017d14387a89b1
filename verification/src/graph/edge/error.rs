use vstd::prelude::*;
use vstd::std_specs::convert::FromSpecImpl;

use crate::storage::error::NexoraStorageError;
use crate::graph::node::error::NexoraGraphNodeError;

verus! {

#[derive(Debug, PartialEq, Eq, Clone, Copy, Structural)]
pub enum NexoraGraphEdgeError {
    Storage(NexoraStorageError),
    NoFreeSlot,
    EdgeNotFound,
    NodeNotFound,
}

/// A node error met while working on an edge: a missing node, or a node
/// page without room, counts as a missing node.
pub open spec fn edge_err_of_node(e: NexoraGraphNodeError) -> NexoraGraphEdgeError {
    match e {
        NexoraGraphNodeError::NodeNotFound => NexoraGraphEdgeError::NodeNotFound,
        NexoraGraphNodeError::NoFreeSlot => NexoraGraphEdgeError::NodeNotFound,
        NexoraGraphNodeError::Storage(s) => NexoraGraphEdgeError::Storage(s),
    }
}

impl From<NexoraGraphNodeError> for NexoraGraphEdgeError {
    fn from(e: NexoraGraphNodeError) -> (r: Self) {
        match e {
            NexoraGraphNodeError::NodeNotFound => NexoraGraphEdgeError::NodeNotFound,
            NexoraGraphNodeError::NoFreeSlot => NexoraGraphEdgeError::NodeNotFound,
            NexoraGraphNodeError::Storage(s) => NexoraGraphEdgeError::Storage(s),
        }
    }
}

impl FromSpecImpl<NexoraGraphNodeError> for NexoraGraphEdgeError {
    open spec fn obeys_from_spec() -> bool {
        true
    }

    open spec fn from_spec(e: NexoraGraphNodeError) -> NexoraGraphEdgeError {
        edge_err_of_node(e)
    }
}

} // verus!
