//! A zipper over a tree: the node in focus, and the chain of its ancestors, each without the
//! child on the way down to the focus.
use crate::node::{
    deep, deep_seq, lemma_deep_seq, view_children, with_view_children, Node, NodeView,
};
use vstd::prelude::*;

verus! {

/// A zipper is a technique of representing an aggregate data structure so that it is convenient
/// for writing programs that traverse the structure arbitrarily and update its contents
#[derive(Debug, PartialEq)]
pub struct Zipper {
    node: Node,
    parent: Option<Box<Zipper>>,
    index_in_parent: usize,
}

/// The abstract value of a zipper: the tree in focus and, for each ancestor from the nearest
/// one up, that ancestor without the child on the way down, and the position of that child.
pub ghost struct ZipperView {
    /// the tree in focus
    pub focus: NodeView,
    /// the ancestors, nearest first, each with the position of the child on the way down
    pub frames: Seq<(NodeView, usize)>,
}

/// Focusing on the child at `i`: the child leaves the children of the focus, and the last child
/// takes its place.
pub open spec fn focus_child(v: ZipperView, i: usize) -> ZipperView {
    let cs = view_children(v.focus);
    ZipperView {
        focus: cs[i as int],
        frames: seq![(with_view_children(v.focus, cs.update(i as int, cs.last()).drop_last()), i)]
            + v.frames,
    }
}

/// Focusing on the parent: the focus goes back at the end of the children of the nearest
/// ancestor and then trades places with the child at its former position.
pub open spec fn focus_parent(v: ZipperView) -> ZipperView {
    let p = v.frames[0].0;
    let k = v.frames[0].1 as int;
    let last = view_children(p).len() as int;
    let cs = view_children(p).push(v.focus);
    ZipperView {
        focus: with_view_children(p, cs.update(k, cs[last]).update(last, cs[k])),
        frames: v.frames.drop_first(),
    }
}

/// Each ancestor is an element, and the position of the child on the way down is at most the
/// number of the remaining children of that ancestor.
pub open spec fn zipper_wf(v: ZipperView) -> bool {
    forall|k: int|
        0 <= k < v.frames.len() ==> (#[trigger] v.frames[k]).0 is Element && v.frames[k].1
            <= view_children(v.frames[k].0).len()
}

/// The tree that a zipper stands for: the focus put back into each ancestor in turn.
pub open spec fn rebuilt(v: ZipperView) -> NodeView
    decreases v.frames.len(),
{
    if v.frames.len() == 0 {
        v.focus
    } else {
        rebuilt(focus_parent(v))
    }
}

/// The ancestors of a zipper, nearest first, each with the position of the child on the way
/// down.
spec fn frames_of(z: Zipper) -> Seq<(NodeView, usize)>
    decreases z,
{
    match z.parent {
        Some(p) => seq![(deep(p.node), z.index_in_parent)] + frames_of(*p),
        None => Seq::empty(),
    }
}

impl View for Zipper {
    type V = ZipperView;

    closed spec fn view(&self) -> ZipperView {
        ZipperView { focus: deep(self.node), frames: frames_of(*self) }
    }
}

/// Focusing on a child keeps a well-formed zipper well formed.
proof fn lemma_child_wf(v: ZipperView, i: usize)
    requires
        zipper_wf(v),
        v.focus is Element,
        i < view_children(v.focus).len(),
    ensures
        zipper_wf(focus_child(v, i)),
{
    let c = focus_child(v, i);
    assert forall|k: int| 0 <= k < c.frames.len() implies (#[trigger] c.frames[k]).0 is Element
        && c.frames[k].1 <= view_children(c.frames[k].0).len() by {
        if k > 0 {
            assert(c.frames[k] == v.frames[k - 1]);
        }
    }
}

/// Focusing on the parent keeps a well-formed zipper well formed.
proof fn lemma_parent_wf(v: ZipperView)
    requires
        zipper_wf(v),
        v.frames.len() > 0,
    ensures
        zipper_wf(focus_parent(v)),
{
    let p = focus_parent(v);
    assert forall|k: int| 0 <= k < p.frames.len() implies (#[trigger] p.frames[k]).0 is Element
        && p.frames[k].1 <= view_children(p.frames[k].0).len() by {
        assert(p.frames[k] == v.frames[k + 1]);
    }
}

impl Zipper {
    /// Focus on the child at `index` of the node in focus, which leaves the children of that
    /// node: the last child takes its place.
    pub fn child(self, index: usize) -> (r: Zipper)
        requires
            self@.focus is Element,
            index < view_children(self@.focus).len(),
        ensures
            r@ == focus_child(self@, index),
            zipper_wf(self@) ==> zipper_wf(r@),
    {
        let mut this = self;
        proof {
            lemma_deep_seq(this.node->Element_0.children@);
        }
        let ghost cs = this.node->Element_0.children@;
        let child = this.node.swap_remove_child(index);
        let r = Zipper { node: child, parent: Some(Box::new(this)), index_in_parent: index };
        proof {
            let rest = cs.update(index as int, cs.last()).drop_last();
            lemma_deep_seq(rest);
            let dcs = deep_seq(cs);
            assert(deep_seq(rest) =~= dcs.update(index as int, dcs.last()).drop_last());
            assert(this.parent == self.parent);
            assert(frames_of(this) == frames_of(self));
            assert(deep(this.node) == with_view_children(
                deep(self.node),
                dcs.update(index as int, dcs.last()).drop_last(),
            ));
            assert(r@.frames =~= focus_child(self@, index).frames);
            if zipper_wf(self@) {
                lemma_child_wf(self@, index);
            }
        }
        r
    }

    /// Focus on the parent of the node in focus, which goes back to its position among the
    /// children of the parent.
    pub fn parent(self) -> (r: Zipper)
        requires
            self@.frames.len() > 0,
            zipper_wf(self@),
        ensures
            r@ == focus_parent(self@),
            zipper_wf(r@),
    {
        let ghost old_view = self@;
        let Zipper { node, parent, index_in_parent } = self;
        let p = parent.unwrap();
        let ghost old_p = *p;
        let Zipper { node: mut parent_node, parent: parent_parent, index_in_parent: parent_index } =
            *p;
        proof {
            assert(old_view.frames[0] == (deep(parent_node), index_in_parent));
            lemma_deep_seq(parent_node->Element_0.children@);
        }
        let ghost cs = parent_node->Element_0.children@;
        let _ = parent_node.add_children(vec![node]);
        let len = parent_node.children_count();
        parent_node.swap_children(index_in_parent, len - 1);
        let r = Zipper { node: parent_node, parent: parent_parent, index_in_parent: parent_index };
        proof {
            let c2 = cs + seq![node];
            let last = cs.len() as int;
            let k = index_in_parent as int;
            let fin = c2.update(k, c2[last]).update(last, c2[k]);
            assert(parent_node->Element_0.children@ =~= fin);
            lemma_deep_seq(fin);
            let d2 = deep_seq(cs).push(deep(node));
            assert(deep_seq(fin) =~= d2.update(k, d2[last]).update(last, d2[k]));
            assert(frames_of(r) == frames_of(old_p));
            assert(r@.frames =~= old_view.frames.drop_first());
            lemma_parent_wf(old_view);
        }
        r
    }

    /// Focus on the root, and give back the tree.
    pub fn finish(self) -> (r: Node)
        requires
            zipper_wf(self@),
        ensures
            deep(r) == rebuilt(self@),
    {
        let mut z = self;
        while z.parent.is_some()
            invariant
                zipper_wf(z@),
                rebuilt(z@) == rebuilt(self@),
            decreases z@.frames.len(),
        {
            z = z.parent();
        }
        z.node
    }
}

impl Node {
    /// create a Zipper for a Node
    pub fn zipper(self) -> (r: Zipper)
        ensures
            r@ == (ZipperView { focus: deep(self), frames: Seq::empty() }),
            zipper_wf(r@),
    {
        Zipper { node: self, parent: None, index_in_parent: 0 }
    }
}

/// Focusing on a child and then back on the parent gives back the same zipper.
pub proof fn lemma_child_then_parent(v: ZipperView, i: usize)
    requires
        v.focus is Element,
        i < view_children(v.focus).len(),
    ensures
        focus_parent(focus_child(v, i)) == v,
{
    let cs = view_children(v.focus);
    let c = focus_child(v, i);
    let p = focus_parent(c);
    let k = i as int;
    let rest = cs.update(k, cs.last()).drop_last();
    let c2 = rest.push(cs[k]);
    let last = rest.len() as int;
    assert(c2.update(k, c2[last]).update(last, c2[k]) =~= cs);
    assert(c.frames[0].0 == with_view_children(v.focus, rest));
    assert(view_children(c.frames[0].0) == rest);
    assert(p.focus == with_view_children(with_view_children(v.focus, rest), cs));
    assert(p.focus == v.focus);
    assert(p.frames =~= v.frames);
}

/// Focusing on a child keeps the tree that the zipper stands for.
pub proof fn lemma_child_keeps_tree(v: ZipperView, i: usize)
    requires
        v.focus is Element,
        i < view_children(v.focus).len(),
    ensures
        rebuilt(focus_child(v, i)) == rebuilt(v),
{
    lemma_child_then_parent(v, i);
}

/// A zipper made from a tree stands for that tree.
pub proof fn lemma_new_zipper_tree(n: Node)
    ensures
        rebuilt(ZipperView { focus: deep(n), frames: Seq::empty() }) == deep(n),
{
}

} // verus!
