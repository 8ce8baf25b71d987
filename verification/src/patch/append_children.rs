//! A patch that appends children to an element.
use crate::node::Node;
use crate::node::attribute::Tag;
use super::NodeIdx;
use super::TreePath;
use vstd::prelude::*;

verus! {

/// Append the children to the element at patch_path, each with its index in a depth first traversal
#[derive(Debug, PartialEq)]
pub struct AppendChildren<'a> {
    /// the tag of the element at patch_path
    pub tag: &'a Tag,
    /// the path to traverse to get to the target element
    pub patch_path: TreePath,
    /// the children to be appended, each with its node index
    pub children: Vec<(NodeIdx, &'a Node)>,
}

impl<'a> AppendChildren<'a> {
    /// create a new AppendChildren patch
    pub fn new(tag: &'a Tag, patch_path: TreePath, children: Vec<(NodeIdx, &'a Node)>) -> (r: Self)
        ensures
            r.tag == tag,
            r.patch_path == patch_path,
            r.children == children,
    {
        AppendChildren { tag, patch_path, children }
    }
}

} // verus!
