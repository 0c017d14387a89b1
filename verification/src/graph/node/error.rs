use vstd::prelude::*;

use crate::storage::error::NexoraStorageError;

verus! {

#[derive(Debug, PartialEq, Eq, Clone, Copy, Structural)]
pub enum NexoraGraphNodeError {
    Storage(NexoraStorageError),
    NoFreeSlot,
    NodeNotFound,
}

} // verus!
