//! A patch that adds attributes to an element.
use crate::node::attribute::{Attribute, Tag};
use super::TreePath;
use vstd::prelude::*;

verus! {

/// The attributes to be added to the element at patch_path
#[derive(Debug, PartialEq)]
pub struct AddAttributes<'a> {
    /// the tag of the element at patch_path
    pub tag: &'a Tag,
    /// the path to traverse to get to the target element
    pub patch_path: TreePath,
    /// the attributes to be added
    pub attrs: Vec<&'a Attribute>,
}

impl<'a> AddAttributes<'a> {
    /// create a new AddAttributes patch
    pub fn new(tag: &'a Tag, patch_path: TreePath, attrs: Vec<&'a Attribute>) -> (r: Self)
        ensures
            r.tag == tag,
            r.patch_path == patch_path,
            r.attrs == attrs,
    {
        AddAttributes { tag, patch_path, attrs }
    }
}

} // verus!
