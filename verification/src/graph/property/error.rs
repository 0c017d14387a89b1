use vstd::prelude::*;

use crate::storage::error::NexoraStorageError;

verus! {

#[derive(Debug, PartialEq, Eq, Clone, Copy, Structural)]
pub enum NexoraGraphPropertyError {
    Storage(NexoraStorageError),
    PageFull,
    RecordNotFound,
}

} // verus!
