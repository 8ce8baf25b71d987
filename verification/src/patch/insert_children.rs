//! A patch that inserts children among those of an element.
use crate::node::Node;
use crate::node::attribute::Tag;
use super::NodeIdx;
use vstd::prelude::*;

verus! {

/// Insert the children at target_index among the children of the element at node_idx
#[derive(Debug, PartialEq)]
pub struct InsertChildren<'a> {
    /// the tag of the element at node_idx
    pub tag: &'a Tag,
    /// the index of the target element in a depth first traversal
    pub node_idx: NodeIdx,
    /// the position among the children where the new children go
    pub target_index: usize,
    /// the children to be inserted
    pub children: Vec<&'a Node>,
}

impl<'a> InsertChildren<'a> {
    /// create a new InsertChildren patch
    pub fn new(tag: &'a Tag, node_idx: NodeIdx, target_index: usize, children: Vec<&'a Node>) -> (r: Self)
        ensures
            r.tag == tag,
            r.node_idx == node_idx,
            r.target_index == target_index,
            r.children == children,
    {
        InsertChildren { tag, node_idx, target_index, children }
    }
}

} // verus!
