use vstd::prelude::*;

verus! {

/// What a visitor tells a traversal after seeing an item.
#[derive(Debug, Clone, Copy, PartialEq, Eq, Structural)]
pub enum Visit {
    Continue,
    Stop,
}

} // verus!
