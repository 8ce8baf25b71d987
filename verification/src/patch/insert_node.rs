//! A patch that inserts a node before another.
use crate::node::Node;
use crate::node::attribute::Tag;
use super::TreePath;
use vstd::prelude::*;

verus! {

/// Insert the node before the node at patch_path
#[derive(Debug, PartialEq)]
pub struct InsertNode<'a> {
    /// the tag of the node at patch_path
    pub tag: Option<&'a Tag>,
    /// the path to traverse to get to the target node
    pub patch_path: TreePath,
    /// the node to be inserted
    pub node: &'a Node,
}

impl<'a> InsertNode<'a> {
    /// create a new InsertNode patch
    pub fn new(tag: Option<&'a Tag>, patch_path: TreePath, node: &'a Node) -> (r: Self)
        ensures
            r.tag == tag,
            r.patch_path == patch_path,
            r.node == node,
    {
        InsertNode { tag, patch_path, node }
    }
}

} // verus!
