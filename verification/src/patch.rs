//! The patches that turn one tree into another.
use crate::node::attribute::{Attribute, Tag};
use crate::node::{Leaf, Node};
use vstd::prelude::*;

pub mod add_attributes;
pub mod append_children;
pub mod change_comment;
pub mod change_text;
pub mod insert_children;
pub mod insert_node;
pub mod remove_attributes;
pub mod remove_children;
pub mod remove_node;
pub mod replace_node;
pub mod tree_path;

pub use add_attributes::AddAttributes;
pub use append_children::AppendChildren;
pub use change_comment::ChangeComment;
pub use change_text::ChangeText;
pub use insert_children::InsertChildren;
pub use insert_node::InsertNode;
pub use remove_attributes::RemoveAttributes;
pub use remove_children::RemoveChildren;
pub use remove_node::RemoveNode;
pub use replace_node::ReplaceNode;
pub use tree_path::TreePath;

verus! {

/// The index of a node in a depth first traversal of a tree, the root being at 0.
pub type NodeIdx = usize;

/// A Patch encodes an operation that modifies a real DOM element or native UI element
///
/// To update the real DOM that a user sees you'll want to first diff your
/// old virtual dom and new virtual dom.
///
/// This diff operation will generate `Vec<Patch>` with zero or more patches that, when
/// applied to your real DOM, will make your real DOM look like your new virtual dom.
///
/// Each of the Patch contains `TreePath` which contains an array of indexes for each node
/// that we need to traverse to get the target element.
#[derive(Debug, PartialEq)]
pub enum Patch<'a> {
    /// insert the nodes before the node at patch_path
    InsertBeforeNode {
        /// the tag of the node at patch_path
        tag: Option<&'a Tag>,
        /// the path to traverse to get to the target element
        /// of which our nodes will be inserted before it.
        patch_path: TreePath,
        /// the nodes to be inserted before patch_path
        nodes: Vec<&'a Node>,
    },
    /// insert the nodes after the node at patch_path
    InsertAfterNode {
        /// the tag of the node at patch_path
        tag: Option<&'a Tag>,
        /// the path to traverse to get to the target element
        /// of which our nodes will be inserted after it.
        patch_path: TreePath,
        /// the nodes to be inserted after the patch_path
        nodes: Vec<&'a Node>,
    },
    /// Append a vector of child nodes to a parent node id at patch_path
    AppendChildren {
        /// the tag of the node we are appending the children into
        tag: &'a Tag,
        /// index of the node we are going to append the children into
        patch_path: TreePath,
        /// children nodes to be appended
        children: Vec<&'a Node>,
    },
    /// remove node
    RemoveNode {
        /// The tag of the node that is to be removed.
        /// This is only used for additional check where are removing the correct node.
        tag: Option<&'a Tag>,
        /// the path of the node to be removed
        patch_path: TreePath,
    },
    /// ReplaceNode a node with another node. This typically happens when a node's tag changes.
    /// ex: <div> becomes <span>
    ReplaceNode {
        /// The tag of the node we are going to replace.
        tag: Option<&'a Tag>,
        /// the traversal path of the node we are going to replace
        patch_path: TreePath,
        /// the nodes that will replace the target node, in their order
        replacement: Vec<&'a Node>,
    },
    /// move the nodes at nodes_path before the node at patch_path
    MoveBeforeNode {
        /// the tag of the node at patch_path
        tag: Option<&'a Tag>,
        /// the path of the node before which the nodes go
        patch_path: TreePath,
        /// the paths of the nodes to be moved
        nodes_path: Vec<TreePath>,
    },
    /// move the nodes at nodes_path after the node at patch_path
    MoveAfterNode {
        /// the tag of the node at patch_path
        tag: Option<&'a Tag>,
        /// the path of the node after which the nodes go
        patch_path: TreePath,
        /// the paths of the nodes to be moved
        nodes_path: Vec<TreePath>,
    },
    /// Add attributes that the new node has that the old node does not
    AddAttributes {
        /// node tag
        tag: &'a Tag,
        /// the path to traverse to get to the target lement of which we add the attributes.
        patch_path: TreePath,
        /// the attributes to be patched into the target node
        attrs: Vec<&'a Attribute>,
    },
    /// Remove attributes that the old node had that the new node doesn't
    RemoveAttributes {
        /// The tag of the node we are removing the attributes from.
        tag: &'a Tag,
        /// the path to traverse to get to the target lement of which we remove the attributes
        patch_path: TreePath,
        /// attributes that are to be removed from this target node
        attrs: Vec<&'a Attribute>,
    },
    /// Replace the old leaf with a new leaf
    ReplaceLeaf {
        /// the path to be traverse in order to replace this leaf
        patch_path: TreePath,
        /// the old leaf that will be replace
        old: &'a Leaf,
        /// the new leaf for replacement
        new: &'a Leaf,
    },
}

/// The abstract value of a patch: the paths as sequences, and the referenced nodes,
/// attributes and leaves as the values they are.
pub ghost enum PatchModel {
    /// insert `nodes` before the node at `patch_path`
    InsertBeforeNode { tag: Option<Tag>, patch_path: Seq<usize>, nodes: Seq<Node> },
    /// insert `nodes` after the node at `patch_path`
    InsertAfterNode { tag: Option<Tag>, patch_path: Seq<usize>, nodes: Seq<Node> },
    /// append `children` to the children of the node at `patch_path`
    AppendChildren { tag: Tag, patch_path: Seq<usize>, children: Seq<Node> },
    /// remove the node at `patch_path`
    RemoveNode { tag: Option<Tag>, patch_path: Seq<usize> },
    /// replace the node at `patch_path` with the nodes of `replacement`
    ReplaceNode { tag: Option<Tag>, patch_path: Seq<usize>, replacement: Seq<Node> },
    /// move the nodes at `nodes_path` before the node at `patch_path`
    MoveBeforeNode { tag: Option<Tag>, patch_path: Seq<usize>, nodes_path: Seq<Seq<usize>> },
    /// move the nodes at `nodes_path` after the node at `patch_path`
    MoveAfterNode { tag: Option<Tag>, patch_path: Seq<usize>, nodes_path: Seq<Seq<usize>> },
    /// add `attrs` to the element at `patch_path`
    AddAttributes { tag: Tag, patch_path: Seq<usize>, attrs: Seq<Attribute> },
    /// remove `attrs` from the element at `patch_path`
    RemoveAttributes { tag: Tag, patch_path: Seq<usize>, attrs: Seq<Attribute> },
    /// replace the leaf `old` at `patch_path` with `new`
    ReplaceLeaf { patch_path: Seq<usize>, old: Leaf, new: Leaf },
}

/// The tag an optional reference points at.
pub open spec fn opt_tag(t: Option<&Tag>) -> Option<Tag> {
    match t {
        Some(x) => Some(*x),
        None => None,
    }
}

/// The nodes a sequence of references points at.
pub open spec fn nodes_of(s: Seq<&Node>) -> Seq<Node> {
    s.map_values(|n: &Node| *n)
}

/// The index sequences of a sequence of paths.
pub open spec fn paths_of(s: Seq<TreePath>) -> Seq<Seq<usize>> {
    s.map_values(|p: TreePath| p@)
}

/// The attributes a sequence of references points at.
pub open spec fn attrs_of(s: Seq<&Attribute>) -> Seq<Attribute> {
    s.map_values(|a: &Attribute| *a)
}

impl<'a> View for Patch<'a> {
    type V = PatchModel;

    open spec fn view(&self) -> PatchModel {
        match self {
            Patch::InsertBeforeNode { tag, patch_path, nodes } => PatchModel::InsertBeforeNode {
                tag: opt_tag(*tag),
                patch_path: patch_path@,
                nodes: nodes_of(nodes@),
            },
            Patch::InsertAfterNode { tag, patch_path, nodes } => PatchModel::InsertAfterNode {
                tag: opt_tag(*tag),
                patch_path: patch_path@,
                nodes: nodes_of(nodes@),
            },
            Patch::AppendChildren { tag, patch_path, children } => PatchModel::AppendChildren {
                tag: **tag,
                patch_path: patch_path@,
                children: nodes_of(children@),
            },
            Patch::RemoveNode { tag, patch_path } => PatchModel::RemoveNode {
                tag: opt_tag(*tag),
                patch_path: patch_path@,
            },
            Patch::ReplaceNode { tag, patch_path, replacement } => PatchModel::ReplaceNode {
                tag: opt_tag(*tag),
                patch_path: patch_path@,
                replacement: nodes_of(replacement@),
            },
            Patch::MoveBeforeNode { tag, patch_path, nodes_path } => PatchModel::MoveBeforeNode {
                tag: opt_tag(*tag),
                patch_path: patch_path@,
                nodes_path: paths_of(nodes_path@),
            },
            Patch::MoveAfterNode { tag, patch_path, nodes_path } => PatchModel::MoveAfterNode {
                tag: opt_tag(*tag),
                patch_path: patch_path@,
                nodes_path: paths_of(nodes_path@),
            },
            Patch::AddAttributes { tag, patch_path, attrs } => PatchModel::AddAttributes {
                tag: **tag,
                patch_path: patch_path@,
                attrs: attrs_of(attrs@),
            },
            Patch::RemoveAttributes { tag, patch_path, attrs } => PatchModel::RemoveAttributes {
                tag: **tag,
                patch_path: patch_path@,
                attrs: attrs_of(attrs@),
            },
            Patch::ReplaceLeaf { patch_path, old, new } => PatchModel::ReplaceLeaf {
                patch_path: patch_path@,
                old: **old,
                new: **new,
            },
        }
    }
}

/// The abstract values of a sequence of patches.
pub open spec fn patches_view(s: Seq<Patch>) -> Seq<PatchModel> {
    s.map_values(|p: Patch| p@)
}

/// The path of a patch.
pub open spec fn model_path(p: PatchModel) -> Seq<usize> {
    match p {
        PatchModel::InsertBeforeNode { patch_path, .. } => patch_path,
        PatchModel::InsertAfterNode { patch_path, .. } => patch_path,
        PatchModel::AppendChildren { patch_path, .. } => patch_path,
        PatchModel::RemoveNode { patch_path, .. } => patch_path,
        PatchModel::ReplaceNode { patch_path, .. } => patch_path,
        PatchModel::MoveBeforeNode { patch_path, .. } => patch_path,
        PatchModel::MoveAfterNode { patch_path, .. } => patch_path,
        PatchModel::AddAttributes { patch_path, .. } => patch_path,
        PatchModel::RemoveAttributes { patch_path, .. } => patch_path,
        PatchModel::ReplaceLeaf { patch_path, .. } => patch_path,
    }
}

/// The tag of a patch, when it has one.
pub open spec fn model_tag(p: PatchModel) -> Option<Tag> {
    match p {
        PatchModel::InsertBeforeNode { tag, .. } => tag,
        PatchModel::InsertAfterNode { tag, .. } => tag,
        PatchModel::AppendChildren { tag, .. } => Some(tag),
        PatchModel::RemoveNode { tag, .. } => tag,
        PatchModel::ReplaceNode { tag, .. } => tag,
        PatchModel::MoveBeforeNode { tag, .. } => tag,
        PatchModel::MoveAfterNode { tag, .. } => tag,
        PatchModel::AddAttributes { tag, .. } => Some(tag),
        PatchModel::RemoveAttributes { tag, .. } => Some(tag),
        PatchModel::ReplaceLeaf { .. } => None,
    }
}

impl<'a> Patch<'a> {
    /// return the path to traverse for this patch to get to the target Node
    pub fn path(&self) -> (r: &TreePath)
        ensures
            r@ == model_path(self@),
    {
        match self {
            Patch::InsertBeforeNode { patch_path, .. } => patch_path,
            Patch::InsertAfterNode { patch_path, .. } => patch_path,
            Patch::AppendChildren { patch_path, .. } => patch_path,
            Patch::RemoveNode { patch_path, .. } => patch_path,
            Patch::ReplaceNode { patch_path, .. } => patch_path,
            Patch::MoveBeforeNode { patch_path, .. } => patch_path,
            Patch::MoveAfterNode { patch_path, .. } => patch_path,
            Patch::AddAttributes { patch_path, .. } => patch_path,
            Patch::RemoveAttributes { patch_path, .. } => patch_path,
            Patch::ReplaceLeaf { patch_path, .. } => patch_path,
        }
    }

    /// return the tag of this patch
    pub fn tag(&self) -> (r: Option<&Tag>)
        ensures
            opt_tag(r) == model_tag(self@),
    {
        match self {
            Patch::InsertBeforeNode { tag, .. } => *tag,
            Patch::InsertAfterNode { tag, .. } => *tag,
            Patch::AppendChildren { tag, .. } => Some(tag),
            Patch::RemoveNode { tag, .. } => *tag,
            Patch::ReplaceNode { tag, .. } => *tag,
            Patch::MoveBeforeNode { tag, .. } => *tag,
            Patch::MoveAfterNode { tag, .. } => *tag,
            Patch::AddAttributes { tag, .. } => Some(tag),
            Patch::RemoveAttributes { tag, .. } => Some(tag),
            Patch::ReplaceLeaf { .. } => None,
        }
    }

    /// create an InsertBeforeNode patch of a single node
    pub fn insert_node(tag: Option<&'a Tag>, patch_path: TreePath, node: &'a Node) -> (r: Patch<
        'a,
    >)
        ensures
            r@ == (PatchModel::InsertBeforeNode {
                tag: opt_tag(tag),
                patch_path: patch_path@,
                nodes: seq![*node],
            }),
    {
        let mut nodes = Vec::new();
        nodes.push(node);
        assert(nodes_of(nodes@) =~= seq![*node]);
        Patch::InsertBeforeNode { tag, patch_path, nodes }
    }

    /// create an InsertBeforeNode patch
    pub fn insert_before_node(
        tag: Option<&'a Tag>,
        patch_path: TreePath,
        nodes: Vec<&'a Node>,
    ) -> (r: Patch<'a>)
        ensures
            r == (Patch::InsertBeforeNode { tag, patch_path, nodes }),
    {
        Patch::InsertBeforeNode { tag, patch_path, nodes }
    }

    /// create an InsertAfterNode patch
    pub fn insert_after_node(
        tag: Option<&'a Tag>,
        patch_path: TreePath,
        nodes: Vec<&'a Node>,
    ) -> (r: Patch<'a>)
        ensures
            r == (Patch::InsertAfterNode { tag, patch_path, nodes }),
    {
        Patch::InsertAfterNode { tag, patch_path, nodes }
    }

    /// create a patch where we add children to the target node
    pub fn append_children(tag: &'a Tag, patch_path: TreePath, children: Vec<&'a Node>) -> (r:
        Patch<'a>)
        ensures
            r == (Patch::AppendChildren { tag, patch_path, children }),
    {
        Patch::AppendChildren { tag, patch_path, children }
    }

    /// create a patch where the target element that can be traverse
    /// using the patch path will be remove
    pub fn remove_node(tag: Option<&'a Tag>, patch_path: TreePath) -> (r: Patch<'a>)
        ensures
            r == (Patch::RemoveNode { tag, patch_path }),
    {
        Patch::RemoveNode { tag, patch_path }
    }

    /// create a patch where a node is replaced by the `replacement` node.
    /// The target node to be replace is traverse using the `patch_path`
    pub fn replace_node(tag: Option<&'a Tag>, patch_path: TreePath, replacement: &'a Node) -> (r:
        Patch<'a>)
        ensures
            r@ == (PatchModel::ReplaceNode {
                tag: opt_tag(tag),
                patch_path: patch_path@,
                replacement: seq![*replacement],
            }),
    {
        let mut nodes = Vec::new();
        nodes.push(replacement);
        assert(nodes_of(nodes@) =~= seq![*replacement]);
        Patch::ReplaceNode { tag, patch_path, replacement: nodes }
    }

    /// create a patch where a node is replaced by the `replacement` nodes, in their order.
    pub fn replace_with_nodes(
        tag: Option<&'a Tag>,
        patch_path: TreePath,
        replacement: Vec<&'a Node>,
    ) -> (r: Patch<'a>)
        ensures
            r == (Patch::ReplaceNode { tag, patch_path, replacement }),
    {
        Patch::ReplaceNode { tag, patch_path, replacement }
    }

    /// create a patch where the nodes at `nodes_path` are moved before the node at `patch_path`
    pub fn move_before_node(
        tag: Option<&'a Tag>,
        patch_path: TreePath,
        nodes_path: Vec<TreePath>,
    ) -> (r: Patch<'a>)
        ensures
            r == (Patch::MoveBeforeNode { tag, patch_path, nodes_path }),
    {
        Patch::MoveBeforeNode { tag, patch_path, nodes_path }
    }

    /// create a patch where the nodes at `nodes_path` are moved after the node at `patch_path`
    pub fn move_after_node(
        tag: Option<&'a Tag>,
        patch_path: TreePath,
        nodes_path: Vec<TreePath>,
    ) -> (r: Patch<'a>)
        ensures
            r == (Patch::MoveAfterNode { tag, patch_path, nodes_path }),
    {
        Patch::MoveAfterNode { tag, patch_path, nodes_path }
    }

    /// create a patch where a new attribute is added to the target element
    pub fn add_attributes(tag: &'a Tag, patch_path: TreePath, attrs: Vec<&'a Attribute>) -> (r:
        Patch<'a>)
        ensures
            r == (Patch::AddAttributes { tag, patch_path, attrs }),
    {
        Patch::AddAttributes { tag, patch_path, attrs }
    }

    /// create patch where it remove attributes of the target element that can be traversed by the
    /// patch_path.
    pub fn remove_attributes(tag: &'a Tag, patch_path: TreePath, attrs: Vec<&'a Attribute>) -> (r:
        Patch<'a>)
        ensures
            r == (Patch::RemoveAttributes { tag, patch_path, attrs }),
    {
        Patch::RemoveAttributes { tag, patch_path, attrs }
    }

    /// create a patch where the old leaf is replaced with a new one
    pub fn replace_leaf(patch_path: TreePath, old: &'a Leaf, new: &'a Leaf) -> (r: Patch<'a>)
        ensures
            r == (Patch::ReplaceLeaf { patch_path, old, new }),
    {
        Patch::ReplaceLeaf { patch_path, old, new }
    }
}

} // verus!
