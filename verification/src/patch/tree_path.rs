//! The path from the root of a tree to one of its nodes.
use crate::node::Node;
use vstd::prelude::*;
use vstd::std_specs::convert::FromSpecImpl;

verus! {

/// Describe the path traversal of a Node starting from the root node
///
/// Each element is the index of a child among its siblings, at each level of the dom tree,
/// so that the path `[0,1,2]` names the third child of the second child of the root, which is
/// always at index zero.
#[derive(Debug, Clone, PartialEq, PartialOrd, Eq, Ord)]
pub struct TreePath {
    /// An array of child index at each level of the dom tree.
    /// Empty path means root node
    pub path: Vec<usize>,
}

impl View for TreePath {
    type V = Seq<usize>;

    open spec fn view(&self) -> Seq<usize> {
        self.path@
    }
}

/// The node that a path of child indices leads to from `node`, if every index names a child.
pub open spec fn node_at(node: Node, path: Seq<usize>) -> Option<Node>
    decreases path.len(),
{
    if path.len() == 0 {
        Some(node)
    } else {
        match node {
            Node::Element(e) => if path[0] < e.children@.len() {
                node_at(e.children@[path[0] as int], path.drop_first())
            } else {
                None
            },
            _ => None,
        }
    }
}

/// Following a path extended by one index leads to that child of the node that the path leads
/// to, when the node is an element with such a child, and nowhere otherwise.
pub proof fn lemma_node_at_push(node: Node, path: Seq<usize>, idx: usize)
    ensures
        node_at(node, path.push(idx)) == (match node_at(node, path) {
            Some(n) => node_at(n, seq![idx]),
            None => None,
        }),
    decreases path.len(),
{
    if path.len() == 0 {
        assert(path.push(idx) =~= seq![idx]);
    } else {
        assert(path.push(idx).drop_first() =~= path.drop_first().push(idx));
        match node {
            Node::Element(e) => {
                if path[0] < e.children@.len() {
                    lemma_node_at_push(e.children@[path[0] as int], path.drop_first(), idx);
                }
            },
            _ => {},
        }
    }
}

/// Copies a sequence of indices and adds one at the end.
fn copy_and_push(path: &Vec<usize>, idx: usize) -> (r: Vec<usize>)
    ensures
        r@ == path@.push(idx),
{
    let mut r: Vec<usize> = Vec::new();
    let mut i: usize = 0;
    while i < path.len()
        invariant
            i <= path@.len(),
            r@ == path@.take(i as int),
        decreases path@.len() - i,
    {
        r.push(path[i]);
        assert(r@ =~= path@.take(i + 1));
        i += 1;
    }
    assert(path@.take(path@.len() as int) =~= path@);
    r.push(idx);
    r
}

impl TreePath {
    /// create a TreePath with the traversal path `path`
    pub fn new(path: Vec<usize>) -> (r: Self)
        ensures
            r.path == path,
    {
        Self { path }
    }

    /// create a TreePath which starts at empty vec which is the root node of a DOM tree
    pub fn root() -> (r: Self)
        ensures
            r@ == Seq::<usize>::empty(),
    {
        Self { path: Vec::new() }
    }

    /// add a path node idx
    pub fn push(&mut self, node_idx: usize)
        ensures
            final(self)@ == old(self)@.push(node_idx),
    {
        self.path.push(node_idx)
    }

    /// create a new TreePath with an added node_index
    /// This is used for traversing into child elements
    pub fn traverse(&self, node_idx: usize) -> (r: Self)
        ensures
            r@ == self@.push(node_idx),
    {
        Self { path: copy_and_push(&self.path, node_idx) }
    }

    /// remove first node index of this treepath
    /// Everytime a node is traversed, the first element should be removed
    /// until no more index is in this path
    pub fn remove_first(&mut self) -> (r: usize)
        requires
            old(self)@.len() > 0,
        ensures
            r == old(self)@[0],
            final(self)@ == old(self)@.drop_first(),
    {
        self.path.remove(0)
    }

    /// returns tree if the path is empty
    /// This is used for checking if the path has been traversed
    pub fn is_empty(&self) -> (r: bool)
        ensures
            r == (self@.len() == 0),
    {
        self.path.len() == 0
    }

    /// find the node using the path of this tree path: the empty path is the root, and so is a
    /// path whose only index is 0
    pub fn find_node_by_path<'a>(&self, node: &'a Node) -> (r: Option<&'a Node>)
        requires
            self@.len() > 0 ==> self@[0] == 0,
        ensures
            self@.len() == 0 ==> r == Some(node),
            self@.len() > 0 ==> r == (match node_at(*node, self@.drop_first()) {
                Some(n) => Some(&n),
                None => None::<&Node>,
            }),
    {
        find_node_by_path(node, self)
    }
}

impl From<Vec<usize>> for TreePath {
    fn from(vec: Vec<usize>) -> (r: Self) {
        Self { path: vec }
    }
}

impl FromSpecImpl<Vec<usize>> for TreePath {
    open spec fn obeys_from_spec() -> bool {
        true
    }

    open spec fn from_spec(v: Vec<usize>) -> Self {
        TreePath { path: v }
    }
}

/// Follows the indices of `path` from position `i` on.
fn traverse_node_by_path<'a>(node: &'a Node, path: &TreePath, i: usize) -> (r: Option<&'a Node>)
    requires
        i <= path@.len(),
    ensures
        r == (match node_at(*node, path@.skip(i as int)) {
            Some(n) => Some(&n),
            None => None::<&Node>,
        }),
    decreases path@.len() - i,
{
    if i == path.path.len() {
        assert(path@.skip(i as int).len() == 0);
        Some(node)
    } else {
        let idx = path.path[i];
        proof {
            assert(path@.skip(i as int)[0] == idx);
            assert(path@.skip(i as int).drop_first() =~= path@.skip(i + 1));
        }
        match node {
            Node::Element(element) => {
                if idx < element.children.len() {
                    traverse_node_by_path(&element.children[idx], path, i + 1)
                } else {
                    None
                }
            },
            _ => None,
        }
    }
}

/// find the node at `path`: the empty path is the root; otherwise the first index, 0, names the
/// root itself and the others lead down from it
pub fn find_node_by_path<'a>(node: &'a Node, path: &TreePath) -> (r: Option<&'a Node>)
    requires
        path@.len() > 0 ==> path@[0] == 0,
    ensures
        path@.len() == 0 ==> r == Some(node),
        path@.len() > 0 ==> r == (match node_at(*node, path@.drop_first()) {
            Some(n) => Some(&n),
            None => None::<&Node>,
        }),
{
    if path.path.len() == 0 {
        return Some(node);
    }
    assert(path@.skip(1) =~= path@.drop_first());
    traverse_node_by_path(node, path, 1)
}

} // verus!
