//! A patch that changes the content of a leaf.
use crate::node::Leaf;
use super::TreePath;
use vstd::prelude::*;

verus! {

/// Change the content of a leaf
#[derive(Debug, PartialEq)]
pub struct ChangeText<'a> {
    /// the path to traverse to get to the target leaf
    pub patch_path: TreePath,
    /// the old leaf content
    pub old: &'a Leaf,
    /// the new leaf content
    pub new: &'a Leaf,
}

impl<'a> ChangeText<'a> {
    /// create a new ChangeText patch
    pub fn new(old: &'a Leaf, patch_path: TreePath, new: &'a Leaf) -> (r: Self)
        ensures
            r.patch_path == patch_path,
            r.old == old,
            r.new == new,
    {
        ChangeText { patch_path, old, new }
    }
}

} // verus!
