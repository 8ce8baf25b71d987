//! A patch that removes a node.
use crate::node::attribute::Tag;
use super::TreePath;
use vstd::prelude::*;

verus! {

/// Remove the node at patch_path
#[derive(Debug, PartialEq)]
pub struct RemoveNode<'a> {
    /// the tag of the node at patch_path
    pub tag: Option<&'a Tag>,
    /// the path to traverse to get to the target node
    pub patch_path: TreePath,
}

impl<'a> RemoveNode<'a> {
    /// create a new RemoveNode patch
    pub fn new(tag: Option<&'a Tag>, patch_path: TreePath) -> (r: Self)
        ensures
            r.tag == tag,
            r.patch_path == patch_path,
    {
        RemoveNode { tag, patch_path }
    }
}

} // verus!
