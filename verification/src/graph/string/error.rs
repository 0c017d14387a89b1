use vstd::prelude::*;

use crate::storage::error::NexoraStorageError;

verus! {

#[derive(Debug, PartialEq, Eq, Clone, Copy, Structural)]
pub enum NexoraGraphStringError {
    Storage(NexoraStorageError),
    NoFreeSlot,
    StringNotFound,
    SlotNotFound,
    StringTooLong,
    BufferTooSmall,
}

} // verus!
