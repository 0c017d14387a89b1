//! The values the graph API hands out.
use vstd::prelude::*;

verus! {

/// A node as the graph API shows it: its id and its label's text.
#[derive(Debug, Clone)]
pub struct Node {
    pub id: u64,
    pub label: String,
}

/// A property as the graph API shows it: key and value text.
#[derive(Debug, Clone)]
pub struct Property {
    pub key: String,
    pub value: String,
}

} // verus!
