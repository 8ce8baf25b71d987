//! Reaching, reading and changing the node that a path of child indices leads to.
use super::lemma_deep_seq_edits;
use crate::node::attribute::{Att, Attribute, Ns, Val};
use crate::node::element::{attr_view, attrs_view};
use crate::node::{deep, deep_seq, lemma_deep_seq, with_view_children, Node, NodeView};
use crate::patch::tree_path::node_at;
use crate::patch::{attrs_of, nodes_of};
use crate::text::str_eq;
use vstd::prelude::*;

verus! {

/// The abstract node that a path of child indices leads to from `v`: the empty path is `v`
/// itself, and each index names a child of the node reached so far.
pub open spec fn view_at(v: NodeView, path: Seq<usize>) -> Option<NodeView>
    decreases path.len(),
{
    if path.len() == 0 {
        Some(v)
    } else {
        match v {
            NodeView::Element { children, .. } => if path[0] < children.len() {
                view_at(children[path[0] as int], path.drop_first())
            } else {
                None
            },
            _ => None,
        }
    }
}

/// `v` with the node that `path` leads to replaced by `m`; `v` as it is where the path leads
/// nowhere.
pub open spec fn replace_at(v: NodeView, path: Seq<usize>, m: NodeView) -> NodeView
    decreases path.len(),
{
    if path.len() == 0 {
        m
    } else {
        match v {
            NodeView::Element { namespace, tag, attrs, children, self_closing } => if path[0]
                < children.len() {
                NodeView::Element {
                    namespace,
                    tag,
                    attrs,
                    children: children.update(
                        path[0] as int,
                        replace_at(children[path[0] as int], path.drop_first(), m),
                    ),
                    self_closing,
                }
            } else {
                v
            },
            _ => v,
        }
    }
}

/// A path leads to a node of a tree exactly when it leads to a node of its abstract value, and
/// to the node whose abstract value it leads to there.
pub proof fn lemma_view_at_node_at(n: Node, path: Seq<usize>)
    ensures
        view_at(deep(n), path) == (match node_at(n, path) {
            Some(m) => Some(deep(m)),
            None => None,
        }),
    decreases path.len(),
{
    if path.len() > 0 {
        if let Node::Element(e) = n {
            lemma_deep_seq(e.children@);
            if path[0] < e.children@.len() {
                lemma_view_at_node_at(e.children@[path[0] as int], path.drop_first());
            }
        }
    }
}

/// Putting back the node that a path leads to leaves the tree as it was.
pub proof fn lemma_replace_at_same(v: NodeView, path: Seq<usize>)
    requires
        view_at(v, path) is Some,
    ensures
        replace_at(v, path, view_at(v, path)->0) == v,
    decreases path.len(),
{
    if path.len() > 0 {
        match v {
            NodeView::Element { children, .. } => {
                lemma_replace_at_same(children[path[0] as int], path.drop_first());
                assert(children.update(path[0] as int, children[path[0] as int]) =~= children);
            },
            _ => {},
        }
    }
}

/// The trees of `cs` with those from position `from` up to `to` given way to `ins`.
pub open spec fn splice(cs: Seq<NodeView>, from: int, to: int, ins: Seq<NodeView>) -> Seq<
    NodeView,
> {
    cs.take(from) + ins + cs.skip(to)
}

/// `v` with the children of the parent of the node at `path`, from the position of that node
/// moved by `a` up to that position moved by `b`, given way to `ins`: when the path names a
/// child of an element.
pub open spec fn splice_at(v: NodeView, path: Seq<usize>, a: int, b: int, ins: Seq<NodeView>) -> Option<
    NodeView,
> {
    if path.len() == 0 {
        None
    } else {
        let k = path.last() as int;
        match view_at(v, path.drop_last()) {
            Some(p) => match p {
                NodeView::Element { children, .. } => if k < children.len() {
                    Some(
                        replace_at(
                            v,
                            path.drop_last(),
                            with_view_children(p, splice(children, k + a, k + b, ins)),
                        ),
                    )
                } else {
                    None
                },
                _ => None,
            },
            None => None,
        }
    }
}

/// The abstract attributes whose names are not among those of `rm`, in their order.
pub open spec fn keep_not_named(av: Seq<(Option<Ns>, Att, Seq<Val>)>, rm: Seq<Attribute>) -> Seq<
    (Option<Ns>, Att, Seq<Val>),
>
    decreases av.len(),
{
    if av.len() == 0 {
        Seq::empty()
    } else {
        keep_not_named(av.drop_last(), rm) + if named_among(av.last().1@, rm) {
            Seq::empty()
        } else {
            seq![av.last()]
        }
    }
}

/// Whether one of the attributes of `rm` is named `name`.
pub open spec fn named_among(name: Seq<char>, rm: Seq<Attribute>) -> bool {
    exists|j: int| 0 <= j < rm.len() && (#[trigger] rm[j]).name@ == name
}

/// The abstract values of two sequences of trees put together.
pub proof fn lemma_deep_seq_concat(a: Seq<Node>, b: Seq<Node>)
    ensures
        deep_seq(a + b) == deep_seq(a) + deep_seq(b),
{
    lemma_deep_seq(a);
    lemma_deep_seq(b);
    lemma_deep_seq(a + b);
    assert((a + b).map_values(|n: Node| deep(n)) =~= a.map_values(|n: Node| deep(n)) + b.map_values(
        |n: Node| deep(n),
    ));
}

/// Follows the indices of `path` from position `i` on, down from `node`, and gives the node it
/// leads to for reading it or changing it in place.
pub fn node_at_mut<'b>(node: &'b mut Node, path: &Vec<usize>, i: usize) -> (r: Option<&'b mut Node>)
    requires
        i <= path@.len(),
    ensures
        match view_at(deep(*old(node)), path@.skip(i as int)) {
            Some(t) => r matches Some(x) && deep(*x) == t && deep(*final(node)) == replace_at(
                deep(*old(node)),
                path@.skip(i as int),
                deep(*final(x)),
            ),
            None => r is None && deep(*final(node)) == deep(*old(node)),
        },
    decreases path@.len() - i,
{
    if i == path.len() {
        assert(path@.skip(i as int).len() == 0);
        return Some(node);
    }
    let idx = path[i];
    proof {
        assert(path@.skip(i as int)[0] == idx);
        assert(path@.skip(i as int).drop_first() =~= path@.skip(i + 1));
        lemma_deep_seq(crate::node::children_of(*node));
        lemma_deep_seq_edits();
    }
    if idx >= node.children().len() {
        return None;
    }
    match node.element_mut() {
        Some(element) => {
            let ghost oc = element.children@;
            let child = &mut element.children[idx];
            proof {
                assert(deep_seq(oc.update(idx as int, *final(child))) == deep_seq(oc).update(
                    idx as int,
                    deep(*final(child)),
                ));
                assert(deep_seq(oc).update(idx as int, deep(oc[idx as int])) =~= deep_seq(oc));
            }
            node_at_mut(child, path, i + 1)
        },
        None => None,
    }
}

/// Copies the trees that a sequence of references points at.
pub fn cloned_nodes(s: &Vec<&Node>) -> (r: Vec<Node>)
    ensures
        deep_seq(r@) == deep_seq(nodes_of(s@)),
{
    let mut r: Vec<Node> = Vec::new();
    let mut i: usize = 0;
    while i < s.len()
        invariant
            i <= s@.len(),
            r@.len() == i,
            forall|k: int| 0 <= k < i ==> deep(#[trigger] r@[k]) == deep(*s@[k]),
        decreases s@.len() - i,
    {
        let c = s[i].clone();
        r.push(c);
        i += 1;
    }
    proof {
        lemma_deep_seq(r@);
        lemma_deep_seq(nodes_of(s@));
        assert(r@.map_values(|n: Node| deep(n)) =~= nodes_of(s@).map_values(|n: Node| deep(n)));
    }
    r
}

/// Copies the attributes that a sequence of references points at.
pub fn cloned_attrs(s: &Vec<&Attribute>) -> (r: Vec<Attribute>)
    ensures
        attrs_view(r@) == attrs_view(attrs_of(s@)),
{
    let mut r: Vec<Attribute> = Vec::new();
    let mut i: usize = 0;
    while i < s.len()
        invariant
            i <= s@.len(),
            r@.len() == i,
            forall|k: int| 0 <= k < i ==> attr_view(#[trigger] r@[k]) == attr_view(*s@[k]),
        decreases s@.len() - i,
    {
        let c = s[i].clone();
        r.push(c);
        i += 1;
    }
    assert(attrs_view(r@) =~= attrs_view(attrs_of(s@)));
    r
}

/// Whether one of the attributes that `rm` points at is named `name`.
fn is_named_among(name: &Att, rm: &Vec<&Attribute>) -> (b: bool)
    ensures
        b == named_among((*name)@, attrs_of(rm@)),
{
    let mut i: usize = 0;
    while i < rm.len()
        invariant
            i <= rm@.len(),
            forall|j: int| 0 <= j < i ==> (*rm@[j]).name@ != (*name)@,
        decreases rm@.len() - i,
    {
        if str_eq(rm[i].name, name) {
            assert(attrs_of(rm@)[i as int].name@ == (*name)@);
            return true;
        }
        i += 1;
    }
    assert forall|j: int| 0 <= j < attrs_of(rm@).len() implies (#[trigger] attrs_of(rm@)[j]).name@
        != (*name)@ by {
        assert(attrs_of(rm@)[j] == *rm@[j]);
    }
    false
}

/// Copies of the attributes whose names are not among those of `rm`, in their order.
pub fn keep_unnamed(attrs: &Vec<Attribute>, rm: &Vec<&Attribute>) -> (r: Vec<Attribute>)
    ensures
        attrs_view(r@) == keep_not_named(attrs_view(attrs@), attrs_of(rm@)),
{
    let mut r: Vec<Attribute> = Vec::new();
    let mut i: usize = 0;
    while i < attrs.len()
        invariant
            i <= attrs@.len(),
            attrs_view(r@) == keep_not_named(attrs_view(attrs@.take(i as int)), attrs_of(rm@)),
        decreases attrs@.len() - i,
    {
        let named = is_named_among(&attrs[i].name, rm);
        proof {
            let t = attrs_view(attrs@.take(i + 1));
            assert(t.drop_last() =~= attrs_view(attrs@.take(i as int)));
            assert(t.last() == attr_view(attrs@[i as int]));
        }
        if !named {
            let c = attrs[i].clone();
            r.push(c);
            assert(attrs_view(r@) =~= keep_not_named(
                attrs_view(attrs@.take(i + 1)),
                attrs_of(rm@),
            ));
        } else {
            assert(attrs_view(r@) =~= keep_not_named(
                attrs_view(attrs@.take(i + 1)),
                attrs_of(rm@),
            ));
        }
        i += 1;
    }
    assert(attrs@.take(attrs@.len() as int) =~= attrs@);
    r
}

/// Inserts copies of the trees that `ins` points at into `cs`, from position `at` on, in their
/// order.
pub fn insert_all(cs: &mut Vec<Node>, at: usize, ins: &Vec<&Node>)
    requires
        at <= old(cs)@.len(),
    ensures
        deep_seq(final(cs)@) == splice(
            deep_seq(old(cs)@),
            at as int,
            at as int,
            deep_seq(nodes_of(ins@)),
        ),
{
    let ghost o = cs@;
    let mut j: usize = 0;
    while j < ins.len()
        invariant
            j <= ins@.len(),
            at <= o.len(),
            cs@.len() == o.len() + j,
            forall|p: int| 0 <= p < at ==> #[trigger] cs@[p] == o[p],
            forall|p: int| 0 <= p < j ==> deep(#[trigger] cs@[at + p]) == deep(*ins@[p]),
            forall|p: int| at <= p < o.len() ==> #[trigger] cs@[p + j] == o[p],
        decreases ins@.len() - j,
    {
        let c = ins[j].clone();
        let ghost before = cs@;
        let cur_len = cs.len();
        assert(at + j <= cur_len);
        cs.insert(at + j, c);
        proof {
            assert forall|p: int| at <= p < o.len() implies #[trigger] cs@[p + (j + 1)] == o[p] by {
                assert(cs@[p + (j + 1)] == before[p + j]);
            }
            assert forall|p: int| 0 <= p < j + 1 implies deep(#[trigger] cs@[at + p]) == deep(
                *ins@[p],
            ) by {
                if p < j {
                    assert(cs@[at + p] == before[at + p]);
                }
            }
        }
        j += 1;
    }
    proof {
        let d = deep_seq(o);
        let di = deep_seq(nodes_of(ins@));
        lemma_deep_seq(cs@);
        lemma_deep_seq(o);
        lemma_deep_seq(nodes_of(ins@));
        let want = splice(d, at as int, at as int, di);
        assert(deep_seq(cs@).len() == want.len());
        assert forall|p: int| 0 <= p < want.len() implies deep_seq(cs@)[p] == want[p] by {
            if p < at {
                assert(cs@[p] == o[p]);
            } else if p < at + ins@.len() {
                assert(deep(cs@[at + (p - at)]) == deep(*ins@[p - at]));
            } else {
                assert(cs@[(p - ins@.len()) + ins@.len()] == o[p - ins@.len()]);
            }
        }
        assert(deep_seq(cs@) =~= want);
    }
}

/// The last index of each path.
pub open spec fn last_indices(qs: Seq<Seq<usize>>) -> Seq<usize> {
    qs.map_values(|q: Seq<usize>| q.last())
}

/// Each path leads to a child of the node at `pp`, other than its child at `t`, and no two
/// paths lead to the same child.
pub open spec fn siblings_apart(qs: Seq<Seq<usize>>, pp: Seq<usize>, t: usize) -> bool {
    &&& forall|i: int|
        0 <= i < qs.len() ==> (#[trigger] qs[i]).len() > 0 && qs[i].drop_last() == pp
            && qs[i].last() != t
    &&& forall|i: int, j: int|
        0 <= i < j < qs.len() ==> (#[trigger] qs[i]).last() != (#[trigger] qs[j]).last()
}

/// The trees from position `lo` up to `hi` whose positions are not among `ms`, in their order.
pub open spec fn kept(cs: Seq<NodeView>, ms: Seq<usize>, lo: int, hi: int) -> Seq<NodeView>
    decreases hi - lo,
{
    if hi <= lo {
        Seq::empty()
    } else {
        kept(cs, ms, lo, hi - 1) + if ms.contains((hi - 1) as usize) {
            Seq::empty()
        } else {
            seq![cs[hi - 1]]
        }
    }
}

/// The trees at the positions of `ms`, in the order of `ms`.
pub open spec fn picked(cs: Seq<NodeView>, ms: Seq<usize>) -> Seq<NodeView> {
    Seq::new(ms.len(), |i: int| cs[ms[i] as int])
}

/// The trees with those at the positions of `ms` taken out and put, in the order of `ms`, just
/// before what was at position `s`.
pub open spec fn rearranged(cs: Seq<NodeView>, ms: Seq<usize>, s: int) -> Seq<NodeView> {
    kept(cs, ms, 0, s) + picked(cs, ms) + kept(cs, ms, s, cs.len() as int)
}

/// `v` with the nodes at the paths `qs` moved just before the node at `p`, or just after it when
/// `after` holds: when they are all children of the parent of that node, each another one.
pub open spec fn move_at(v: NodeView, p: Seq<usize>, qs: Seq<Seq<usize>>, after: bool) -> Option<
    NodeView,
> {
    if p.len() == 0 {
        None
    } else {
        let pp = p.drop_last();
        let t = p.last();
        let ms = last_indices(qs);
        match view_at(v, pp) {
            Some(w) => match w {
                NodeView::Element { children, .. } => if t < children.len() && siblings_apart(
                    qs,
                    pp,
                    t,
                ) && (forall|i: int| 0 <= i < ms.len() ==> (#[trigger] ms[i]) < children.len()) {
                    Some(
                        replace_at(
                            v,
                            pp,
                            with_view_children(
                                w,
                                rearranged(
                                    children,
                                    ms,
                                    if after {
                                        t + 1
                                    } else {
                                        t as int
                                    },
                                ),
                            ),
                        ),
                    )
                } else {
                    None
                },
                _ => None,
            },
            None => None,
        }
    }
}

/// Whether `i` is among `ms`.
pub(crate) fn has_index(ms: &Vec<usize>, i: usize) -> (b: bool)
    ensures
        b == ms@.contains(i),
{
    let mut k: usize = 0;
    while k < ms.len()
        invariant
            k <= ms@.len(),
            forall|j: int| 0 <= j < k ==> ms@[j] != i,
        decreases ms@.len() - k,
    {
        if ms[k] == i {
            assert(ms@[k as int] == i);
            return true;
        }
        k += 1;
    }
    false
}

/// Copies of the trees of `cs` with those at the positions of `ms` put, in the order of `ms`,
/// just before what was at position `s`.
pub fn rearrange(cs: &Vec<Node>, ms: &Vec<usize>, s: usize) -> (r: Vec<Node>)
    requires
        s <= cs@.len(),
        forall|i: int| 0 <= i < ms@.len() ==> (#[trigger] ms@[i]) < cs@.len(),
    ensures
        deep_seq(r@) == rearranged(deep_seq(cs@), ms@, s as int),
{
    let ghost d = deep_seq(cs@);
    proof {
        lemma_deep_seq(cs@);
    }
    let mut out: Vec<Node> = Vec::new();
    let mut i: usize = 0;
    while i < s
        invariant
            d == deep_seq(cs@),
            d == cs@.map_values(|n: Node| deep(n)),
            i <= s <= cs@.len(),
            deep_seq(out@) == kept(d, ms@, 0, i as int),
        decreases s - i,
    {
        if !has_index(ms, i) {
            let c = cs[i].clone();
            let ghost before = out@;
            out.push(c);
            assert(out@.drop_last() =~= before);
        }
        i += 1;
    }
    let ghost front = deep_seq(out@);
    let mut j: usize = 0;
    while j < ms.len()
        invariant
            d == deep_seq(cs@),
            d == cs@.map_values(|n: Node| deep(n)),
            forall|k: int| 0 <= k < ms@.len() ==> (#[trigger] ms@[k]) < cs@.len(),
            j <= ms@.len(),
            deep_seq(out@) == front + picked(d, ms@).take(j as int),
        decreases ms@.len() - j,
    {
        let c = cs[ms[j]].clone();
        let ghost before = out@;
        out.push(c);
        assert(out@.drop_last() =~= before);
        assert(front + picked(d, ms@).take(j + 1) =~= (front + picked(d, ms@).take(j as int)).push(
            d[ms@[j as int] as int],
        ));
        j += 1;
    }
    assert(picked(d, ms@).take(ms@.len() as int) =~= picked(d, ms@));
    let ghost middle = deep_seq(out@);
    let mut i: usize = s;
    while i < cs.len()
        invariant
            d == deep_seq(cs@),
            d == cs@.map_values(|n: Node| deep(n)),
            s <= i <= cs@.len(),
            deep_seq(out@) == middle + kept(d, ms@, s as int, i as int),
        decreases cs@.len() - i,
    {
        if !has_index(ms, i) {
            let c = cs[i].clone();
            let ghost before = out@;
            out.push(c);
            assert(out@.drop_last() =~= before);
            assert(middle + kept(d, ms@, s as int, i + 1) =~= (middle + kept(
                d,
                ms@,
                s as int,
                i as int,
            )).push(d[i as int]));
        } else {
            assert(middle + kept(d, ms@, s as int, i + 1) =~= middle + kept(
                d,
                ms@,
                s as int,
                i as int,
            ));
        }
        i += 1;
    }
    out
}

} // verus!
