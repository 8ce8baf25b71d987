//! Applying patches to a tree, each at the node that its path leads to; and finding, removing
//! and inserting nodes of a tree by their index in a depth first traversal: the root is at 0,
//! then come the nodes of the tree of each child in turn.
use crate::diff::laws::{lemma_diff_self, plain};
use crate::diff::{never, spec_diff};
use crate::node::element::attrs_view;
use crate::node::{children_of, deep, deep_seq, lemma_deep_seq, node_count, nodes_count, Node, NodeView};
use crate::patch::{nodes_of, paths_of, patches_view, Patch, PatchModel, TreePath};
use at_path::{
    cloned_attrs, cloned_nodes, has_index, insert_all, keep_not_named, keep_unnamed, last_indices,
    lemma_deep_seq_concat, lemma_replace_at_same, move_at, node_at_mut, rearrange, replace_at,
    siblings_apart, splice, splice_at, view_at,
};
use vstd::prelude::*;

pub mod at_path;
pub mod attr_round_trip;
pub mod round_trip;

verus! {

/// The number of nodes of an abstract tree.
pub open spec fn view_count(n: NodeView) -> nat
    decreases n,
{
    match n {
        NodeView::Element { children, .. } => 1 + view_count_seq(children),
        _ => 1,
    }
}

/// The number of nodes of a sequence of abstract trees.
pub open spec fn view_count_seq(s: Seq<NodeView>) -> nat
    decreases s,
{
    if s.len() == 0 {
        0
    } else {
        view_count_seq(s.drop_last()) + view_count(s.last())
    }
}

/// Where the node at index `i` of the traversal of the trees of `s`, from position `k` on,
/// lies: the position of the tree that holds it, and its index in the traversal of that tree.
pub open spec fn locate(s: Seq<NodeView>, k: int, i: int) -> Option<(int, int)>
    decreases s.len() - k,
{
    if k < 0 || k >= s.len() || i < 0 {
        None
    } else if i < view_count(s[k]) {
        Some((k, i))
    } else {
        locate(s, k + 1, i - view_count(s[k]))
    }
}

/// The node at index `i` of the depth first traversal of a tree, if there is one.
pub open spec fn at_index(n: NodeView, i: int) -> Option<NodeView>
    decreases n,
{
    if i == 0 {
        Some(n)
    } else {
        match n {
            NodeView::Element { children, .. } => match locate(children, 0, i - 1) {
                Some((k, j)) => if 0 <= k < children.len() {
                    at_index(children[k], j)
                } else {
                    None
                },
                None => None,
            },
            _ => None,
        }
    }
}

/// The tree with the node at index `i` of its traversal replaced by `m`.
pub open spec fn replace_index(n: NodeView, i: int, m: NodeView) -> NodeView
    decreases n,
{
    if i == 0 {
        m
    } else {
        match n {
            NodeView::Element { namespace, tag, attrs, children, self_closing } => match locate(
                children,
                0,
                i - 1,
            ) {
                Some((k, j)) => if 0 <= k < children.len() {
                    NodeView::Element {
                        namespace,
                        tag,
                        attrs,
                        children: children.update(k, replace_index(children[k], j, m)),
                        self_closing,
                    }
                } else {
                    n
                },
                None => n,
            },
            _ => n,
        }
    }
}

/// The tree without the node at index `i` of its traversal, when that node is not the root.
pub open spec fn remove_index(n: NodeView, i: int) -> Option<NodeView>
    decreases n,
{
    match n {
        NodeView::Element { namespace, tag, attrs, children, self_closing } => if i <= 0 {
            None
        } else {
            match locate(children, 0, i - 1) {
                Some((k, j)) => if !(0 <= k < children.len()) {
                    None
                } else if j == 0 {
                    Some(
                        NodeView::Element {
                            namespace,
                            tag,
                            attrs,
                            children: children.remove(k),
                            self_closing,
                        },
                    )
                } else {
                    match remove_index(children[k], j) {
                        Some(c) => Some(
                            NodeView::Element {
                                namespace,
                                tag,
                                attrs,
                                children: children.update(k, c),
                                self_closing,
                            },
                        ),
                        None => None,
                    }
                },
                None => None,
            }
        },
        _ => None,
    }
}

/// The tree with `x` inserted just before the node at index `i` of its traversal, among the
/// children of the parent of that node, when that node is not the root.
pub open spec fn insert_index(n: NodeView, i: int, x: NodeView) -> Option<NodeView>
    decreases n,
{
    match n {
        NodeView::Element { namespace, tag, attrs, children, self_closing } => if i <= 0 {
            None
        } else {
            match locate(children, 0, i - 1) {
                Some((k, j)) => if !(0 <= k < children.len()) {
                    None
                } else if j == 0 {
                    Some(
                        NodeView::Element {
                            namespace,
                            tag,
                            attrs,
                            children: children.insert(k, x),
                            self_closing,
                        },
                    )
                } else {
                    match insert_index(children[k], j, x) {
                        Some(c) => Some(
                            NodeView::Element {
                                namespace,
                                tag,
                                attrs,
                                children: children.update(k, c),
                                self_closing,
                            },
                        ),
                        None => None,
                    }
                },
                None => None,
            }
        },
        _ => None,
    }
}

/// The number of nodes of a tree is that of its abstract value.
pub proof fn lemma_view_count(n: Node)
    ensures
        view_count(deep(n)) == node_count(n),
    decreases n, 1nat,
{
    if let Node::Element(e) = n {
        let ghost ch = e.children;
        assert(decreases_to!(n => e));
        assert(decreases_to!(e => ch));
        assert(decreases_to!(ch => ch@));
        lemma_view_count_seq(e.children@);
    }
}

/// The number of nodes of a sequence of trees is that of its abstract value.
pub proof fn lemma_view_count_seq(s: Seq<Node>)
    ensures
        view_count_seq(deep_seq(s)) == nodes_count(s),
    decreases s, 0nat,
{
    if s.len() > 0 {
        lemma_view_count_seq(s.drop_last());
        lemma_view_count(s.last());
        assert(deep_seq(s).drop_last() == deep_seq(s.drop_last()));
    }
}

/// A sequence of abstract trees counts at least as many nodes as any prefix of it.
proof fn lemma_view_count_seq_prefix(s: Seq<NodeView>, i: int)
    requires
        0 <= i <= s.len(),
    ensures
        view_count_seq(s.take(i)) <= view_count_seq(s),
    decreases s.len(),
{
    if i < s.len() {
        assert(s.drop_last().take(i) =~= s.take(i));
        lemma_view_count_seq_prefix(s.drop_last(), i);
    } else {
        assert(s.take(i) =~= s);
    }
}

/// A sequence of trees counts at least as many nodes as each of its trees.
proof fn lemma_nodes_count_index(s: Seq<Node>, k: int)
    requires
        0 <= k < s.len(),
    ensures
        node_count(s[k]) <= nodes_count(s),
    decreases s.len(),
{
    if k < s.len() - 1 {
        lemma_nodes_count_index(s.drop_last(), k);
    }
}

/// Changing, removing or inserting a tree of a sequence changes, removes or inserts its
/// abstract value alone.
pub(crate) proof fn lemma_deep_seq_edits()
    ensures
        forall|s: Seq<Node>, k: int, x: Node|
            0 <= k < s.len() ==> #[trigger] deep_seq(s.update(k, x)) == deep_seq(s).update(
                k,
                deep(x),
            ),
        forall|s: Seq<Node>, k: int|
            0 <= k < s.len() ==> #[trigger] deep_seq(s.remove(k)) == deep_seq(s).remove(k),
        forall|s: Seq<Node>, k: int, x: Node|
            0 <= k <= s.len() ==> #[trigger] deep_seq(s.insert(k, x)) == deep_seq(s).insert(
                k,
                deep(x),
            ),
{
    assert forall|s: Seq<Node>, k: int, x: Node| 0 <= k < s.len() implies #[trigger] deep_seq(
        s.update(k, x),
    ) == deep_seq(s).update(k, deep(x)) by {
        lemma_deep_seq(s);
        lemma_deep_seq(s.update(k, x));
        assert(s.update(k, x).map_values(|n: Node| deep(n)) =~= s.map_values(|n: Node| deep(n)).update(
            k,
            deep(x),
        ));
    }
    assert forall|s: Seq<Node>, k: int| 0 <= k < s.len() implies #[trigger] deep_seq(s.remove(k))
        == deep_seq(s).remove(k) by {
        lemma_deep_seq(s);
        lemma_deep_seq(s.remove(k));
        assert(s.remove(k).map_values(|n: Node| deep(n)) =~= s.map_values(|n: Node| deep(n)).remove(
            k,
        ));
    }
    assert forall|s: Seq<Node>, k: int, x: Node| 0 <= k <= s.len() implies #[trigger] deep_seq(
        s.insert(k, x),
    ) == deep_seq(s).insert(k, deep(x)) by {
        lemma_deep_seq(s);
        lemma_deep_seq(s.insert(k, x));
        assert(s.insert(k, x).map_values(|n: Node| deep(n)) =~= s.map_values(|n: Node| deep(n)).insert(
            k,
            deep(x),
        ));
    }
}

/// Counting the nodes of trees from the front.
proof fn lemma_view_count_seq_front(a: NodeView, t: Seq<NodeView>)
    ensures
        view_count_seq(seq![a] + t) == view_count(a) + view_count_seq(t),
    decreases t.len(),
{
    if t.len() == 0 {
        assert(seq![a] + t =~= seq![a]);
        assert(seq![a].drop_last() =~= Seq::<NodeView>::empty());
        assert(view_count_seq(Seq::<NodeView>::empty()) == 0);
        assert(view_count_seq(seq![a]) == view_count(a));
    } else {
        assert((seq![a] + t).drop_last() =~= seq![a] + t.drop_last());
        assert((seq![a] + t).last() == t.last());
        lemma_view_count_seq_front(a, t.drop_last());
    }
}

/// A located node lies in a tree of the sequence, at an index within that tree.
proof fn lemma_locate_bounds(s: Seq<NodeView>, k: int, i: int)
    ensures
        locate(s, k, i) matches Some((kk, j)) ==> k <= kk < s.len() && 0 <= j < view_count(s[kk])
            && 0 <= k,
    decreases s.len() - k,
{
    if 0 <= k < s.len() && i >= 0 && i >= view_count(s[k]) {
        lemma_locate_bounds(s, k + 1, i - view_count(s[k]));
    }
}

/// Every index below the number of nodes of the trees from position `k` on is located.
proof fn lemma_locate_some(s: Seq<NodeView>, k: int, i: int)
    requires
        0 <= k <= s.len(),
        0 <= i < view_count_seq(s.skip(k)),
    ensures
        locate(s, k, i) is Some,
    decreases s.len() - k,
{
    if k == s.len() {
        assert(s.skip(k) =~= Seq::<NodeView>::empty());
    } else {
        assert(s.skip(k) =~= seq![s[k]] + s.skip(k + 1));
        lemma_view_count_seq_front(s[k], s.skip(k + 1));
        if i >= view_count(s[k]) {
            lemma_locate_some(s, k + 1, i - view_count(s[k]));
        }
    }
}

/// Every index below the number of nodes of a tree is the index of one of its nodes.
pub proof fn lemma_at_index_some(v: NodeView, i: int)
    requires
        0 <= i < view_count(v),
    ensures
        at_index(v, i) is Some,
    decreases v,
{
    if i > 0 {
        match v {
            NodeView::Element { children, .. } => {
                assert(children.skip(0) =~= children);
                lemma_locate_some(children, 0, i - 1);
                lemma_locate_bounds(children, 0, i - 1);
                let (k, j) = locate(children, 0, i - 1)->0;
                lemma_at_index_some(children[k], j);
            },
            _ => {},
        }
    }
}

/// The number of nodes of two sequences of trees put together.
proof fn lemma_view_count_seq_concat(a: Seq<NodeView>, b: Seq<NodeView>)
    ensures
        view_count_seq(a + b) == view_count_seq(a) + view_count_seq(b),
    decreases b.len(),
{
    if b.len() == 0 {
        assert(a + b =~= a);
    } else {
        assert((a + b).drop_last() =~= a + b.drop_last());
        assert((a + b).last() == b.last());
        lemma_view_count_seq_concat(a, b.drop_last());
    }
}

/// The number of nodes of a single tree, as a sequence.
proof fn lemma_view_count_seq_one(x: NodeView)
    ensures
        view_count_seq(seq![x]) == view_count(x),
{
    assert(seq![x].drop_last() =~= Seq::<NodeView>::empty());
    assert(view_count_seq(Seq::<NodeView>::empty()) == 0);
}

/// Inserting a node adds its nodes to the count.
proof fn lemma_insert_count(n: NodeView, i: int, x: NodeView)
    requires
        insert_index(n, i, x) is Some,
    ensures
        view_count(insert_index(n, i, x)->0) == view_count(n) + view_count(x),
    decreases n,
{
    match n {
        NodeView::Element { children, .. } => {
            let (k, j) = locate(children, 0, i - 1)->0;
            let pre = children.take(k);
            let post = children.skip(k + 1);
            assert(children =~= pre + seq![children[k]] + post);
            lemma_view_count_seq_concat(pre + seq![children[k]], post);
            lemma_view_count_seq_concat(pre, seq![children[k]]);
            lemma_view_count_seq_one(children[k]);
            if j == 0 {
                let ins = children.insert(k, x);
                assert(ins =~= pre + seq![x] + (seq![children[k]] + post));
                lemma_view_count_seq_concat(pre + seq![x], seq![children[k]] + post);
                lemma_view_count_seq_concat(pre, seq![x]);
                lemma_view_count_seq_concat(seq![children[k]], post);
                lemma_view_count_seq_one(x);
            } else {
                let c = insert_index(children[k], j, x)->0;
                lemma_insert_count(children[k], j, x);
                let upd = children.update(k, c);
                assert(upd =~= pre + seq![c] + post);
                lemma_view_count_seq_concat(pre + seq![c], post);
                lemma_view_count_seq_concat(pre, seq![c]);
                lemma_view_count_seq_one(c);
            }
        },
        _ => {},
    }
}

/// Locating an index in a sequence that agrees with another up to the located tree, whose tree
/// there is at least as large, gives the same place.
proof fn lemma_locate_prefix(s: Seq<NodeView>, t: Seq<NodeView>, m: int, i: int, k: int, j: int)
    requires
        locate(s, m, i) == Some((k, j)),
        0 <= m <= k < t.len(),
        forall|p: int| m <= p < k ==> t[p] == s[p],
        j < view_count(t[k]),
    ensures
        locate(t, m, i) == Some((k, j)),
    decreases k - m,
{
    lemma_locate_bounds(s, m + 1, i - view_count(s[m]));
    if m < k {
        assert(t[m] == s[m]);
        lemma_locate_prefix(s, t, m + 1, i - view_count(s[m]), k, j);
    }
}

/// After inserting a node just before the node at index `i`, the inserted node is at index
/// `i`.
pub proof fn lemma_insert_then_find(v: NodeView, i: int, x: NodeView)
    requires
        insert_index(v, i, x) is Some,
    ensures
        at_index(insert_index(v, i, x)->0, i) == Some(x),
    decreases v,
{
    match v {
        NodeView::Element { namespace, tag, attrs, children, self_closing } => {
            let (k, j) = locate(children, 0, i - 1)->0;
            lemma_locate_bounds(children, 0, i - 1);
            if j == 0 {
                let ins = children.insert(k, x);
                lemma_locate_prefix(children, ins, 0, i - 1, k, 0);
                let w = NodeView::Element { namespace, tag, attrs, children: ins, self_closing };
                assert(insert_index(v, i, x)->0 == w);
                assert(at_index(w, i) == at_index(ins[k], 0));
            } else {
                let c = insert_index(children[k], j, x)->0;
                lemma_insert_count(children[k], j, x);
                let upd = children.update(k, c);
                lemma_locate_prefix(children, upd, 0, i - 1, k, j);
                lemma_insert_then_find(children[k], j, x);
                let w = NodeView::Element { namespace, tag, attrs, children: upd, self_closing };
                assert(insert_index(v, i, x)->0 == w);
                assert(at_index(w, i) == at_index(upd[k], j));
            }
        },
        _ => {},
    }
}

/// Finds where the node at index `i` of the traversal of the trees of `children` lies.
fn locate_child(children: &[Node], i: usize) -> (r: Option<(usize, usize)>)
    requires
        nodes_count(children@) <= usize::MAX,
    ensures
        r is Some <==> locate(deep_seq(children@), 0, i as int) is Some,
        r matches Some((k, j)) ==> k < children@.len() && locate(deep_seq(children@), 0, i as int)
            == Some((k as int, j as int)),
{
    let ghost d = deep_seq(children@);
    proof {
        lemma_deep_seq(children@);
        lemma_view_count_seq(children@);
    }
    let mut k: usize = 0;
    let mut off: usize = 0;
    while k < children.len()
        invariant
            d == deep_seq(children@),
            d == children@.map_values(|n: Node| deep(n)),
            view_count_seq(d) <= usize::MAX,
            k <= children@.len(),
            off == view_count_seq(d.take(k as int)),
            off <= i,
            locate(d, 0, i as int) == locate(d, k as int, i - off),
        decreases children@.len() - k,
    {
        proof {
            lemma_view_count_seq_prefix(d, k + 1);
            assert(d.take(k + 1).drop_last() =~= d.take(k as int));
            lemma_view_count(children@[k as int]);
        }
        let c = children[k].node_count();
        if i - off < c {
            return Some((k, i - off));
        }
        off = off + c;
        k += 1;
    }
    None
}

/// Finds the node at index `node_idx` of the depth first traversal of `node`, for reading it or
/// changing it in place.
pub fn find_node(node: &mut Node, node_idx: usize) -> (r: Option<&mut Node>)
    requires
        node_count(*old(node)) <= usize::MAX,
    ensures
        match at_index(deep(*old(node)), node_idx as int) {
            Some(v) => r matches Some(x) && deep(*x) == v && deep(*final(node)) == replace_index(
                deep(*old(node)),
                node_idx as int,
                deep(*final(x)),
            ),
            None => r is None && *final(node) == *old(node),
        },
    decreases *old(node),
{
    if node_idx == 0 {
        return Some(node);
    }
    proof {
        lemma_deep_seq(children_of(*node));
    }
    let found = locate_child(node.children(), node_idx - 1);
    match found {
        Some((k, j)) => {
            proof {
                let on = *old(node);
                let oe = on->Element_0;
                let ch = oe.children;
                assert(decreases_to!(on => oe));
                assert(decreases_to!(oe => ch));
                assert(decreases_to!(ch => ch@));
                assert(decreases_to!(ch@ => ch@[k as int]));
                lemma_nodes_count_index(ch@, k as int);
                let dcs = deep_seq(ch@);
                assert(dcs[k as int] == deep(ch@[k as int]));
                lemma_locate_bounds(dcs, 0, node_idx - 1);
                lemma_at_index_some(dcs[k as int], j as int);
                assert(at_index(deep(on), node_idx as int) == at_index(dcs[k as int], j as int));
                lemma_deep_seq_edits();
            }
            match node.element_mut() {
                Some(element) => {
                    let ghost oc = element.children@;
                    let child = &mut element.children[k];
                    proof {
                        assert(deep_seq(oc.update(k as int, *final(child))) == deep_seq(oc).update(
                            k as int,
                            deep(*final(child)),
                        ));
                    }
                    find_node(child, j)
                },
                None => None,
            }
        },
        None => None,
    }
}

/// Removes the node at index `node_idx` of the depth first traversal of `node` from the
/// children of its parent, and tells whether there was such a node other than the root.
pub fn remove_node(node: &mut Node, node_idx: usize) -> (r: bool)
    requires
        node_count(*old(node)) <= usize::MAX,
    ensures
        match remove_index(deep(*old(node)), node_idx as int) {
            Some(v) => r && deep(*final(node)) == v,
            None => !r && deep(*final(node)) == deep(*old(node)),
        },
    decreases *old(node),
{
    if node_idx == 0 {
        return false;
    }
    proof {
        lemma_deep_seq(children_of(*node));
    }
    let found = locate_child(node.children(), node_idx - 1);
    match found {
        Some((k, j)) => {
            proof {
                let on = *old(node);
                let oe = on->Element_0;
                let ch = oe.children;
                assert(decreases_to!(on => oe));
                assert(decreases_to!(oe => ch));
                assert(decreases_to!(ch => ch@));
                assert(decreases_to!(ch@ => ch@[k as int]));
                lemma_nodes_count_index(ch@, k as int);
                assert(deep_seq(ch@)[k as int] == deep(ch@[k as int]));
                lemma_deep_seq_edits();
            }
            match node.element_mut() {
                Some(element) => {
                    if j == 0 {
                        let ghost oc = element.children@;
                        element.children.remove(k);
                        assert(deep_seq(element.children@) == deep_seq(oc).remove(k as int));
                        true
                    } else {
                        let ghost oc = element.children@;
                        let child = &mut element.children[k];
                        proof {
                            assert(deep_seq(oc.update(k as int, *final(child))) == deep_seq(
                                oc,
                            ).update(k as int, deep(*final(child))));
                            assert(deep_seq(oc).update(k as int, deep(oc[k as int])) =~= deep_seq(
                                oc,
                            ));
                        }
                        remove_node(child, j)
                    }
                },
                None => false,
            }
        },
        None => false,
    }
}

/// Inserts a copy of `for_insert` just before the node at index `node_idx` of the depth first
/// traversal of `node`, among the children of its parent, and tells whether there was such a
/// node other than the root.
pub fn insert_node(node: &mut Node, node_idx: usize, for_insert: &Node) -> (r: bool)
    requires
        node_count(*old(node)) <= usize::MAX,
    ensures
        match insert_index(deep(*old(node)), node_idx as int, deep(*for_insert)) {
            Some(v) => r && deep(*final(node)) == v,
            None => !r && deep(*final(node)) == deep(*old(node)),
        },
    decreases *old(node),
{
    if node_idx == 0 {
        return false;
    }
    proof {
        lemma_deep_seq(children_of(*node));
    }
    let found = locate_child(node.children(), node_idx - 1);
    match found {
        Some((k, j)) => {
            proof {
                let on = *old(node);
                let oe = on->Element_0;
                let ch = oe.children;
                assert(decreases_to!(on => oe));
                assert(decreases_to!(oe => ch));
                assert(decreases_to!(ch => ch@));
                assert(decreases_to!(ch@ => ch@[k as int]));
                lemma_nodes_count_index(ch@, k as int);
                assert(deep_seq(ch@)[k as int] == deep(ch@[k as int]));
                lemma_deep_seq_edits();
            }
            match node.element_mut() {
                Some(element) => {
                    if j == 0 {
                        let ghost oc = element.children@;
                        let copy = for_insert.clone();
                        element.children.insert(k, copy);
                        assert(deep_seq(element.children@) == deep_seq(oc).insert(
                            k as int,
                            deep(*for_insert),
                        ));
                        true
                    } else {
                        let ghost oc = element.children@;
                        let child = &mut element.children[k];
                        proof {
                            assert(deep_seq(oc.update(k as int, *final(child))) == deep_seq(
                                oc,
                            ).update(k as int, deep(*final(child))));
                            assert(deep_seq(oc).update(k as int, deep(oc[k as int])) =~= deep_seq(
                                oc,
                            ));
                        }
                        insert_node(child, j, for_insert)
                    }
                },
                None => false,
            }
        },
        None => false,
    }
}

/// What one patch makes of a tree, and `None` where it cannot apply. The node that the path of
/// the patch leads to is the target:
/// - inserting nodes before or after the target, or removing it, changes the children of its
///   parent; where the path names no child of an element the tree stays as it is;
/// - replacing the target puts the replacement nodes in its place among the children of its
///   parent; the root can be replaced by exactly one node; the target must be there;
/// - appending children, adding attributes and removing the attributes of the names of the
///   patch's attributes change the target, which must be an element;
/// - replacing a leaf changes the target, which must be a leaf;
/// - moving nodes takes the nodes at the paths of the patch out of the children of the target's
///   parent and puts them, in the order of their paths, just before or just after the target;
///   they must all be other children of that parent, each named once.
pub open spec fn patch_result(v: NodeView, p: PatchModel) -> Option<NodeView> {
    match p {
        PatchModel::InsertBeforeNode { patch_path, nodes, .. } => match splice_at(
            v,
            patch_path,
            0,
            0,
            deep_seq(nodes),
        ) {
            Some(w) => Some(w),
            None => Some(v),
        },
        PatchModel::InsertAfterNode { patch_path, nodes, .. } => match splice_at(
            v,
            patch_path,
            1,
            1,
            deep_seq(nodes),
        ) {
            Some(w) => Some(w),
            None => Some(v),
        },
        PatchModel::RemoveNode { patch_path, .. } => match splice_at(
            v,
            patch_path,
            0,
            1,
            Seq::empty(),
        ) {
            Some(w) => Some(w),
            None => Some(v),
        },
        PatchModel::ReplaceNode { patch_path, replacement, .. } => if patch_path.len() == 0 {
            if replacement.len() == 1 {
                Some(deep(replacement[0]))
            } else {
                None
            }
        } else {
            splice_at(v, patch_path, 0, 1, deep_seq(replacement))
        },
        PatchModel::MoveBeforeNode { patch_path, nodes_path, .. } => move_at(
            v,
            patch_path,
            nodes_path,
            false,
        ),
        PatchModel::MoveAfterNode { patch_path, nodes_path, .. } => move_at(
            v,
            patch_path,
            nodes_path,
            true,
        ),
        PatchModel::AppendChildren { patch_path, children, .. } => match view_at(v, patch_path) {
            Some(NodeView::Element { namespace, tag, attrs, children: cs, self_closing }) => Some(
                replace_at(
                    v,
                    patch_path,
                    NodeView::Element {
                        namespace,
                        tag,
                        attrs,
                        children: cs + deep_seq(children),
                        self_closing,
                    },
                ),
            ),
            _ => None,
        },
        PatchModel::AddAttributes { patch_path, attrs, .. } => match view_at(v, patch_path) {
            Some(NodeView::Element { namespace, tag, attrs: av, children, self_closing }) => Some(
                replace_at(
                    v,
                    patch_path,
                    NodeView::Element {
                        namespace,
                        tag,
                        attrs: av + attrs_view(attrs),
                        children,
                        self_closing,
                    },
                ),
            ),
            _ => None,
        },
        PatchModel::RemoveAttributes { patch_path, attrs, .. } => match view_at(v, patch_path) {
            Some(NodeView::Element { namespace, tag, attrs: av, children, self_closing }) => Some(
                replace_at(
                    v,
                    patch_path,
                    NodeView::Element {
                        namespace,
                        tag,
                        attrs: keep_not_named(av, attrs),
                        children,
                        self_closing,
                    },
                ),
            ),
            _ => None,
        },
        PatchModel::ReplaceLeaf { patch_path, new, .. } => match view_at(v, patch_path) {
            Some(NodeView::Leaf(_)) => Some(replace_at(v, patch_path, NodeView::Leaf(new@))),
            _ => None,
        },
    }
}

/// What the patches make of a tree, applied one after the other, and `None` where one of them
/// cannot apply to the tree that the ones before it made.
pub open spec fn apply_all(v: NodeView, ps: Seq<PatchModel>) -> Option<NodeView>
    decreases ps.len(),
{
    if ps.len() == 0 {
        Some(v)
    } else {
        match patch_result(v, ps[0]) {
            Some(w) => apply_all(w, ps.drop_first()),
            None => None,
        }
    }
}

/// The first `n` indices of a path.
fn path_prefix(path: &Vec<usize>, n: usize) -> (r: Vec<usize>)
    requires
        n <= path@.len(),
    ensures
        r@ == path@.take(n as int),
{
    let mut r: Vec<usize> = Vec::new();
    let mut i: usize = 0;
    while i < n
        invariant
            i <= n,
            n <= path@.len(),
            r@ == path@.take(i as int),
        decreases n - i,
    {
        r.push(path[i]);
        assert(r@ =~= path@.take(i + 1));
        i += 1;
    }
    r
}

/// Changes the children of the parent of the node at `path`: from the position of that node,
/// or the one after it when `after` holds, copies of the nodes of `ins` take the place of
/// nothing, or of the child there when `drop` holds. Tells whether the path names a child of an
/// element; the tree stays as it is where it does not.
fn splice_at_path(root: &mut Node, path: &TreePath, after: bool, drop: bool, ins: &Vec<&Node>) -> (r:
    bool)
    requires
        !(after && drop),
    ensures
        match splice_at(
            deep(*old(root)),
            path@,
            if after {
                1int
            } else {
                0int
            },
            if after || drop {
                1int
            } else {
                0int
            },
            deep_seq(nodes_of(ins@)),
        ) {
            Some(w) => r && deep(*final(root)) == w,
            None => !r && deep(*final(root)) == deep(*old(root)),
        },
{
    let n = path.path.len();
    if n == 0 {
        return false;
    }
    let k = path.path[n - 1];
    let pp = path_prefix(&path.path, n - 1);
    proof {
        assert(pp@ =~= path@.drop_last());
        assert(pp@.skip(0) =~= pp@);
    }
    let ghost ov = deep(*root);
    match node_at_mut(root, &pp, 0) {
        Some(x) => {
            if k >= x.children().len() {
                proof {
                    lemma_deep_seq(children_of(*x));
                    lemma_replace_at_same(ov, pp@);
                }
                return false;
            }
            match x.element_mut() {
                Some(e) => {
                    let ghost oc = e.children@;
                    proof {
                        lemma_deep_seq_edits();
                    }
                    let from = if after {
                        k + 1
                    } else {
                        k
                    };
                    if drop {
                        e.children.remove(from);
                    }
                    insert_all(&mut e.children, from, ins);
                    proof {
                        let d = deep_seq(oc);
                        let i = deep_seq(nodes_of(ins@));
                        lemma_deep_seq(oc);
                        if drop {
                            assert(splice(d, from as int, from + 1, i) =~= splice(
                                d.remove(from as int),
                                from as int,
                                from as int,
                                i,
                            ));
                        }
                    }
                    true
                },
                None => {
                    proof {
                        lemma_replace_at_same(ov, pp@);
                    }
                    false
                },
            }
        },
        None => false,
    }
}

/// The last indices of the paths `qs`, when each of them leads to a child of the node at `pp`
/// other than its child at `t`, and no two of them to the same child.
fn sibling_indices(pp: &Vec<usize>, t: usize, qs: &Vec<TreePath>) -> (r: Option<Vec<usize>>)
    ensures
        r is Some <==> siblings_apart(paths_of(qs@), pp@, t),
        r matches Some(ms) ==> ms@ == last_indices(paths_of(qs@)),
{
    let ghost all = paths_of(qs@);
    let mut ms: Vec<usize> = Vec::new();
    let mut i: usize = 0;
    while i < qs.len()
        invariant
            all == paths_of(qs@),
            i <= qs@.len(),
            ms@ == last_indices(all.take(i as int)),
            siblings_apart(all.take(i as int), pp@, t),
        decreases qs@.len() - i,
    {
        let q = &qs[i].path;
        assert(all[i as int] == q@);
        let n = q.len();
        if n == 0 || n - 1 != pp.len() {
            assert(!siblings_apart(all, pp@, t)) by {
                if n > 0 {
                    assert(all[i as int].drop_last().len() != pp@.len());
                }
            }
            return None;
        }
        let mut k: usize = 0;
        while k < pp.len()
            invariant
                all == paths_of(qs@),
                all[i as int] == q@,
                0 <= i < all.len(),
                q@.len() == n,
                n - 1 == pp@.len(),
                k <= pp@.len(),
                forall|j: int| 0 <= j < k ==> q@[j] == pp@[j],
            decreases pp@.len() - k,
        {
            if q[k] != pp[k] {
                assert(!siblings_apart(all, pp@, t)) by {
                    assert(all[i as int].drop_last()[k as int] != pp@[k as int]);
                }
                return None;
            }
            k += 1;
        }
        assert(q@.drop_last() =~= pp@);
        let last = q[n - 1];
        if last == t {
            assert(!siblings_apart(all, pp@, t)) by {
                assert(all[i as int].last() == t);
            }
            return None;
        }
        if has_index(&ms, last) {
            assert(!siblings_apart(all, pp@, t)) by {
                let j = choose|j: int| 0 <= j < ms@.len() && ms@[j] == last;
                assert(all.take(i as int)[j] == all[j]);
                assert(all[j].last() == all[i as int].last());
            }
            return None;
        }
        let ghost before = ms@;
        ms.push(last);
        proof {
            let tk = all.take(i + 1);
            assert(tk.take(i as int) =~= all.take(i as int));
            assert(last_indices(tk) =~= before.push(last));
            assert forall|a: int, b: int| 0 <= a < b < tk.len() implies (#[trigger] tk[a]).last()
                != (#[trigger] tk[b]).last() by {
                if b == i {
                    assert(before[a] == all.take(i as int)[a].last());
                    assert(before.contains(before[a]));
                } else {
                    assert(tk[a] == all.take(i as int)[a] && tk[b] == all.take(i as int)[b]);
                }
            }
            assert forall|a: int| 0 <= a < tk.len() implies (#[trigger] tk[a]).len() > 0
                && tk[a].drop_last() == pp@ && tk[a].last() != t by {
                if a < i {
                    assert(tk[a] == all.take(i as int)[a]);
                }
            }
        }
        i += 1;
    }
    assert(all.take(i as int) =~= all);
    Some(ms)
}

/// Whether every position of `ms` is below `len`.
fn all_below(ms: &Vec<usize>, len: usize) -> (b: bool)
    ensures
        b == (forall|i: int| 0 <= i < ms@.len() ==> (#[trigger] ms@[i]) < len),
{
    let mut k: usize = 0;
    while k < ms.len()
        invariant
            k <= ms@.len(),
            forall|i: int| 0 <= i < k ==> (#[trigger] ms@[i]) < len,
        decreases ms@.len() - k,
    {
        if ms[k] >= len {
            return false;
        }
        k += 1;
    }
    true
}

/// Moves the nodes at the paths `nodes_path` just before the node at `path`, or just after it
/// when `after` holds, among the children of its parent; tells whether they could be moved.
fn move_at_path(root: &mut Node, path: &TreePath, nodes_path: &Vec<TreePath>, after: bool) -> (r:
    bool)
    ensures
        match move_at(deep(*old(root)), path@, paths_of(nodes_path@), after) {
            Some(w) => r && deep(*final(root)) == w,
            None => !r,
        },
{
    let n = path.path.len();
    if n == 0 {
        return false;
    }
    let t = path.path[n - 1];
    let pp = path_prefix(&path.path, n - 1);
    proof {
        assert(pp@ =~= path@.drop_last());
        assert(pp@.skip(0) =~= pp@);
    }
    let ms = match sibling_indices(&pp, t, nodes_path) {
        Some(ms) => ms,
        None => {
            return false;
        },
    };
    match node_at_mut(root, &pp, 0) {
        Some(x) => match x.element_mut() {
            Some(e) => {
                let ghost oc = e.children@;
                proof {
                    lemma_deep_seq(oc);
                }
                let len = e.children.len();
                if t >= len || !all_below(&ms, len) {
                    return false;
                }
                let s = if after {
                    t + 1
                } else {
                    t
                };
                let moved = rearrange(&e.children, &ms, s);
                e.children = moved;
                true
            },
            None => false,
        },
        None => false,
    }
}

/// Applies one patch to `root`, and tells whether it applied.
fn apply_patch(root: &mut Node, patch: &Patch) -> (r: bool)
    ensures
        match patch_result(deep(*old(root)), patch@) {
            Some(v) => r && deep(*final(root)) == v,
            None => !r,
        },
{
    match patch {
        Patch::InsertBeforeNode { patch_path, nodes, .. } => {
            splice_at_path(root, patch_path, false, false, nodes);
            true
        },
        Patch::InsertAfterNode { patch_path, nodes, .. } => {
            splice_at_path(root, patch_path, true, false, nodes);
            true
        },
        Patch::RemoveNode { patch_path, .. } => {
            let none: Vec<&Node> = Vec::new();
            assert(deep_seq(nodes_of(none@)) =~= Seq::<NodeView>::empty());
            splice_at_path(root, patch_path, false, true, &none);
            true
        },
        Patch::ReplaceNode { patch_path, replacement, .. } => {
            if patch_path.path.len() == 0 {
                if replacement.len() == 1 {
                    *root = replacement[0].clone();
                    true
                } else {
                    false
                }
            } else {
                splice_at_path(root, patch_path, false, true, replacement)
            }
        },
        Patch::MoveBeforeNode { patch_path, nodes_path, .. } => move_at_path(
            root,
            patch_path,
            nodes_path,
            false,
        ),
        Patch::MoveAfterNode { patch_path, nodes_path, .. } => move_at_path(
            root,
            patch_path,
            nodes_path,
            true,
        ),
        Patch::AppendChildren { patch_path, children, .. } => {
            assert(patch_path@.skip(0) =~= patch_path@);
            match node_at_mut(root, &patch_path.path, 0) {
                Some(x) => match x.element_mut() {
                    Some(e) => {
                        let ghost oc = e.children@;
                        let mut cs = cloned_nodes(children);
                        let ghost ncs = cs@;
                        e.children.append(&mut cs);
                        proof {
                            lemma_deep_seq_concat(oc, ncs);
                        }
                        true
                    },
                    None => false,
                },
                None => false,
            }
        },
        Patch::AddAttributes { patch_path, attrs, .. } => {
            assert(patch_path@.skip(0) =~= patch_path@);
            match node_at_mut(root, &patch_path.path, 0) {
                Some(x) => match x.element_mut() {
                    Some(e) => {
                        let ghost oa = e.attrs@;
                        let mut more = cloned_attrs(attrs);
                        let ghost na = more@;
                        e.attrs.append(&mut more);
                        assert(attrs_view(oa + na) =~= attrs_view(oa) + attrs_view(na));
                        true
                    },
                    None => false,
                },
                None => false,
            }
        },
        Patch::RemoveAttributes { patch_path, attrs, .. } => {
            assert(patch_path@.skip(0) =~= patch_path@);
            match node_at_mut(root, &patch_path.path, 0) {
                Some(x) => match x.element_mut() {
                    Some(e) => {
                        let kept = keep_unnamed(&e.attrs, attrs);
                        e.attrs = kept;
                        true
                    },
                    None => false,
                },
                None => false,
            }
        },
        Patch::ReplaceLeaf { patch_path, new, .. } => {
            assert(patch_path@.skip(0) =~= patch_path@);
            match node_at_mut(root, &patch_path.path, 0) {
                Some(x) => {
                    if x.is_leaf() {
                        let s: String = (**new).clone();
                        *x = Node::Leaf(s);
                        true
                    } else {
                        false
                    }
                },
                None => false,
            }
        },
    }
}

/// Applies the patches to `root_node` one after the other, so that a tree can be checked to
/// become the one that the patches were made for. Tells whether every patch applied; where one
/// does not, it stops there.
pub fn apply_patches(root_node: &mut Node, patches: &[Patch]) -> (r: bool)
    ensures
        match apply_all(deep(*old(root_node)), patches_view(patches@)) {
            Some(v) => r && deep(*final(root_node)) == v,
            None => !r,
        },
{
    let ghost ps = patches_view(patches@);
    let mut i: usize = 0;
    assert(ps.skip(0) =~= ps);
    while i < patches.len()
        invariant
            i <= patches@.len(),
            ps == patches_view(patches@),
            apply_all(deep(*old(root_node)), ps) == apply_all(deep(*root_node), ps.skip(i as int)),
        decreases patches@.len() - i,
    {
        proof {
            assert(ps.skip(i as int)[0] == patches@[i as int]@);
            assert(ps.skip(i as int).drop_first() =~= ps.skip(i + 1));
        }
        if !apply_patch(root_node, &patches[i]) {
            return false;
        }
        i += 1;
    }
    assert(ps.skip(i as int) =~= Seq::<PatchModel>::empty());
    true
}

/// Applying patches one part after the other is applying them all: the second part applies to
/// what the first one made.
pub proof fn lemma_apply_all_concat(v: NodeView, a: Seq<PatchModel>, b: Seq<PatchModel>)
    ensures
        apply_all(v, a + b) == (match apply_all(v, a) {
            Some(w) => apply_all(w, b),
            None => None,
        }),
    decreases a.len(),
{
    if a.len() == 0 {
        assert(a + b =~= b);
    } else {
        assert((a + b)[0] == a[0]);
        assert((a + b).drop_first() =~= a.drop_first() + b);
        if let Some(w) = patch_result(v, a[0]) {
            lemma_apply_all_concat(w, a.drop_first(), b);
        }
    }
}

/// Applying the diff of a tree of elements and leaves with itself, with neither skipping nor
/// forced replacing, leaves the tree as it is.
pub proof fn lemma_apply_diff_self(n: Node, key: Seq<char>)
    requires
        plain(n),
    ensures
        apply_all(
            deep(n),
            spec_diff(n, n, Seq::empty(), key, never(), never())->0,
        ) == Some(deep(n)),
{
    lemma_diff_self(n, Seq::empty(), key);
}

} // verus!
