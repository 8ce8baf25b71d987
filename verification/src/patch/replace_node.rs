//! A patch that replaces a node with another.
use crate::node::Node;
use crate::node::attribute::Tag;
use super::TreePath;
use vstd::prelude::*;

verus! {

/// Replace the node at patch_path with the replacement
#[derive(Debug, PartialEq)]
pub struct ReplaceNode<'a> {
    /// the tag of the node at patch_path
    pub tag: Option<&'a Tag>,
    /// the path to traverse to get to the target node
    pub patch_path: TreePath,
    /// the node that replaces the old one
    pub replacement: &'a Node,
}

impl<'a> ReplaceNode<'a> {
    /// create a new ReplaceNode patch
    pub fn new(tag: Option<&'a Tag>, patch_path: TreePath, replacement: &'a Node) -> (r: Self)
        ensures
            r.tag == tag,
            r.patch_path == patch_path,
            r.replacement == replacement,
    {
        ReplaceNode { tag, patch_path, replacement }
    }
}

} // verus!
