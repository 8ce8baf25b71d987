//! A patch that removes attributes from an element.
use crate::node::attribute::{Attribute, Tag};
use super::TreePath;
use vstd::prelude::*;

verus! {

/// Remove the attributes from the element at patch_path
#[derive(Debug, PartialEq)]
pub struct RemoveAttributes<'a> {
    /// the tag of the element at patch_path
    pub tag: &'a Tag,
    /// the path to traverse to get to the target element
    pub patch_path: TreePath,
    /// the attributes to be removed
    pub attrs: Vec<&'a Attribute>,
}

impl<'a> RemoveAttributes<'a> {
    /// create a new RemoveAttributes patch
    pub fn new(tag: &'a Tag, patch_path: TreePath, attrs: Vec<&'a Attribute>) -> (r: Self)
        ensures
            r.tag == tag,
            r.patch_path == patch_path,
            r.attrs == attrs,
    {
        RemoveAttributes { tag, patch_path, attrs }
    }
}

} // verus!
