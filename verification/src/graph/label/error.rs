use vstd::prelude::*;

use crate::storage::error::NexoraStorageError;
use crate::graph::string::error::NexoraGraphStringError;

verus! {

#[derive(Debug, PartialEq, Eq, Clone, Copy, Structural)]
pub enum NexoraGraphLabelError {
    Storage(NexoraStorageError),
    StringError(NexoraGraphStringError),
    LabelNotFound,
    PageFull,
}

} // verus!
