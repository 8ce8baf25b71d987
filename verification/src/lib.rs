//! A virtual dom: a tree of elements and leaves, and the patches that turn one such tree into
//! another.
use vstd::prelude::*;

pub mod apply_patches;
pub mod diff;
pub mod diff_lis;
pub mod node;
pub mod patch;
pub mod text;
pub mod zipper;

pub use apply_patches::apply_patches;
pub use node::attribute::{
    attr, attr_ns, group_attributes_per_name, merge_attributes_of_same_name, Attribute,
};
pub use node::{element, element_ns, fragment, leaf, node_list, Element, Node};
pub use patch::{Patch, TreePath};

verus! {
} // verus!
