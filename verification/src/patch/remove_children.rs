//! A patch that removes children of an element.
use crate::node::attribute::Tag;
use super::NodeIdx;
use vstd::prelude::*;

verus! {

/// Remove the children at the target indices of the element at node_idx
#[derive(Debug, PartialEq)]
pub struct RemoveChildren<'a> {
    /// the tag of the element at node_idx
    pub tag: &'a Tag,
    /// the index of the target element in a depth first traversal
    pub node_idx: NodeIdx,
    /// the positions of the children to be removed
    pub target_index: Vec<usize>,
}

impl<'a> RemoveChildren<'a> {
    /// create a new RemoveChildren patch
    pub fn new(tag: &'a Tag, node_idx: NodeIdx, target_index: Vec<usize>) -> (r: Self)
        ensures
            r.tag == tag,
            r.node_idx == node_idx,
            r.target_index == target_index,
    {
        RemoveChildren { tag, node_idx, target_index }
    }
}

} // verus!
