//! A patch that changes the content of a comment.
use super::TreePath;
use vstd::prelude::*;

verus! {

/// Change the content of a comment
#[derive(Debug, PartialEq)]
pub struct ChangeComment<'a> {
    /// the path to traverse to get to the target comment
    pub patch_path: TreePath,
    /// the old comment
    pub old: &'a String,
    /// the new comment
    pub new: &'a String,
}

impl<'a> ChangeComment<'a> {
    /// create a new ChangeComment patch
    pub fn new(old: &'a String, patch_path: TreePath, new: &'a String) -> (r: Self)
        ensures
            r.patch_path == patch_path,
            r.old == old,
            r.new == new,
    {
        ChangeComment { patch_path, old, new }
    }
}

} // verus!
