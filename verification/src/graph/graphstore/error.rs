use vstd::prelude::*;

use crate::storage::error::NexoraStorageError;
use crate::graph::node::error::NexoraGraphNodeError;
use crate::graph::edge::error::NexoraGraphEdgeError;
use crate::graph::label::error::NexoraGraphLabelError;

verus! {

#[derive(Debug, PartialEq, Eq, Clone, Copy, Structural)]
pub enum NexoraGraphStoreError {
    Storage(NexoraStorageError),
    Node(NexoraGraphNodeError),
    Edge(NexoraGraphEdgeError),
    Label(NexoraGraphLabelError),
    /// A label's stored bytes are not UTF-8 text.
    InvalidLabelText,
}

} // verus!
