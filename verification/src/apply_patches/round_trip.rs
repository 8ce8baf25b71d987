//! Applying the diff of two trees to the first one gives the second one, on the trees on which
//! the patches of the diff, applied one after the other, come back to the second tree.
use super::at_path::{keep_not_named, lemma_replace_at_same, replace_at, splice, view_at};
use super::{apply_all, lemma_apply_all_concat, patch_result};
use crate::diff_lis::{
    ends_offsets, lead, lemma_lead_bound, lemma_trail, lis_diff, middle, trail,
    trail_diff,
};
use crate::diff::{
    added_attrs, any_keyed, attribute_patches, children_diff, diff_elements, key_of, never, pairs_diff,
    remove_patch, removed_attrs, removes_range, should_replace, spec_diff,
};
use crate::node::attribute::{group_by_name, Att, Attribute, Ns, Tag, Val};
use crate::node::element::attrs_view;
use crate::node::{
    tag_of, deep, deep_seq, lemma_deep_seq, view_children, with_view_children, Element, Node, NodeView,
};
use crate::patch::PatchModel;
use vstd::prelude::*;

verus! {

/// Following a path and then another is following the two put together.
proof fn lemma_view_at_concat(v: NodeView, p: Seq<usize>, q: Seq<usize>)
    ensures
        view_at(v, p + q) == (match view_at(v, p) {
            Some(w) => view_at(w, q),
            None => None,
        }),
    decreases p.len(),
{
    if p.len() == 0 {
        assert(p + q =~= q);
    } else {
        assert((p + q)[0] == p[0]);
        assert((p + q).drop_first() =~= p.drop_first() + q);
        match v {
            NodeView::Element { children, .. } => {
                if p[0] < children.len() {
                    lemma_view_at_concat(children[p[0] as int], p.drop_first(), q);
                }
            },
            _ => {},
        }
    }
}

/// Replacing at a path that goes on from the node at `p` is replacing, at `p`, that node with
/// itself replaced at the rest of the path.
proof fn lemma_replace_at_concat(v: NodeView, p: Seq<usize>, q: Seq<usize>, c: NodeView)
    requires
        view_at(v, p) is Some,
    ensures
        replace_at(v, p + q, c) == replace_at(v, p, replace_at(view_at(v, p)->0, q, c)),
    decreases p.len(),
{
    if p.len() == 0 {
        assert(p + q =~= q);
    } else {
        assert((p + q)[0] == p[0]);
        assert((p + q).drop_first() =~= p.drop_first() + q);
        match v {
            NodeView::Element { children, .. } => {
                lemma_replace_at_concat(children[p[0] as int], p.drop_first(), q, c);
            },
            _ => {},
        }
    }
}

/// After replacing the node at `p` with `m`, the paths that go on from `p` lead into `m`.
proof fn lemma_view_at_replaced(v: NodeView, p: Seq<usize>, m: NodeView, q: Seq<usize>)
    requires
        view_at(v, p) is Some,
    ensures
        view_at(replace_at(v, p, m), p + q) == view_at(m, q),
    decreases p.len(),
{
    if p.len() == 0 {
        assert(p + q =~= q);
    } else {
        assert((p + q)[0] == p[0]);
        assert((p + q).drop_first() =~= p.drop_first() + q);
        match v {
            NodeView::Element { children, .. } => {
                lemma_view_at_replaced(children[p[0] as int], p.drop_first(), m, q);
            },
            _ => {},
        }
    }
}

/// Replacing twice at the same path is replacing with the second node.
proof fn lemma_replace_twice(v: NodeView, p: Seq<usize>, m: NodeView, m2: NodeView)
    requires
        view_at(v, p) is Some,
    ensures
        replace_at(replace_at(v, p, m), p, m2) == replace_at(v, p, m2),
    decreases p.len(),
{
    if p.len() > 0 {
        match v {
            NodeView::Element { children, .. } => {
                lemma_replace_twice(children[p[0] as int], p.drop_first(), m, m2);
                assert(children.update(p[0] as int, replace_at(children[p[0] as int], p.drop_first(), m)).update(
                    p[0] as int,
                    replace_at(
                        replace_at(children[p[0] as int], p.drop_first(), m),
                        p.drop_first(),
                        m2,
                    ),
                ) =~= children.update(
                    p[0] as int,
                    replace_at(children[p[0] as int], p.drop_first(), m2),
                ));
            },
            _ => {},
        }
    }
}

/// Replacing, inside the node `m` put at `p`, the node at `q`.
proof fn lemma_replace_inside(v: NodeView, p: Seq<usize>, m: NodeView, q: Seq<usize>, c: NodeView)
    requires
        view_at(v, p) is Some,
    ensures
        replace_at(replace_at(v, p, m), p + q, c) == replace_at(v, p, replace_at(m, q, c)),
{
    let w = replace_at(v, p, m);
    lemma_view_at_replaced(v, p, m, Seq::empty());
    assert(p + Seq::<usize>::empty() =~= p);
    lemma_replace_at_concat(w, p, q, c);
    lemma_replace_twice(v, p, m, replace_at(m, q, c));
}

/// A replacement of the node at `path` by one node puts that node there.
proof fn lemma_replace_node_patch(v: NodeView, path: Seq<usize>, tag: Option<&'static str>, b: Node)
    requires
        view_at(v, path) is Some,
    ensures
        apply_all(
            v,
            seq![PatchModel::ReplaceNode { tag, patch_path: path, replacement: seq![b] }],
        ) == Some(replace_at(v, path, deep(b))),
{
    let p = PatchModel::ReplaceNode { tag, patch_path: path, replacement: seq![b] };
    let w = replace_at(v, path, deep(b));
    assert(seq![p].drop_first() =~= Seq::<PatchModel>::empty());
    assert(seq![p][0] == p);
    assert(apply_all(w, Seq::<PatchModel>::empty()) == Some(w));
    lemma_deep_seq(seq![b]);
    assert(deep_seq(seq![b]) =~= seq![deep(b)]);
    if path.len() > 0 {
        let pp = path.drop_last();
        let k = path.last();
        assert(path =~= pp + seq![k]);
        lemma_view_at_concat(v, pp, seq![k]);
        let par = view_at(v, pp)->0;
        lemma_replace_at_concat(v, pp, seq![k], deep(b));
        match par {
            NodeView::Element { children, .. } => {
                assert(seq![k].drop_first() =~= Seq::<usize>::empty());
                assert(seq![k][0] == k);
                assert(replace_at(children[k as int], Seq::<usize>::empty(), deep(b)) == deep(b));
                assert(splice(children, k as int, k + 1, seq![deep(b)]) =~= children.update(
                    k as int,
                    deep(b),
                ));
                assert(patch_result(v, p) == Some(w));
            },
            _ => {},
        }
    } else {
        assert(patch_result(v, p) == Some(w));
    }
}


/// Applying one patch that applies is applying it alone.
proof fn lemma_apply_one(v: NodeView, p: PatchModel, w: NodeView)
    requires
        patch_result(v, p) == Some(w),
    ensures
        apply_all(v, seq![p]) == Some(w),
{
    assert(seq![p].drop_first() =~= Seq::<PatchModel>::empty());
    assert(seq![p][0] == p);
    assert(apply_all(w, Seq::<PatchModel>::empty()) == Some(w));
}

/// The element `e` with the children `cs`, put back with other children.
proof fn lemma_children_twice(e: NodeView, cs: Seq<NodeView>, ds: Seq<NodeView>)
    requires
        e is Element,
    ensures
        with_view_children(with_view_children(e, cs), ds) == with_view_children(e, ds),
        with_view_children(e, cs) is Element,
        view_children(with_view_children(e, cs)) == cs,
{
}

/// The node at `path.push(k)` is the `k`-th child of the element at `path`.
proof fn lemma_child_path(v: NodeView, path: Seq<usize>, e: NodeView, cs: Seq<NodeView>, k: usize)
    requires
        view_at(v, path) == Some(with_view_children(e, cs)),
        e is Element,
    ensures
        path.push(k).drop_last() == path,
        path.push(k).last() == k,
        path.push(k).len() > 0,
{
    assert(path.push(k).drop_last() =~= path);
}

/// Removing the `k`-th child of the element at `path`.
proof fn lemma_remove_child(v: NodeView, path: Seq<usize>, e: NodeView, cs: Seq<NodeView>, k: int, t: Option<&'static str>)
    requires
        view_at(v, path) == Some(with_view_children(e, cs)),
        e is Element,
        0 <= k < cs.len(),
        k <= usize::MAX,
    ensures
        apply_all(v, seq![PatchModel::RemoveNode { tag: t, patch_path: path.push(k as usize) }])
            == Some(replace_at(v, path, with_view_children(e, cs.remove(k)))),
{
    lemma_child_path(v, path, e, cs, k as usize);
    lemma_children_twice(e, cs, cs.remove(k));
    assert(splice(cs, k, k + 1, Seq::<NodeView>::empty()) =~= cs.remove(k));
    lemma_apply_one(
        v,
        PatchModel::RemoveNode { tag: t, patch_path: path.push(k as usize) },
        replace_at(v, path, with_view_children(e, cs.remove(k))),
    );
}

/// Inserting nodes just before the `k`-th child of the element at `path`, or just after it.
proof fn lemma_insert_children(
    v: NodeView,
    path: Seq<usize>,
    e: NodeView,
    cs: Seq<NodeView>,
    k: int,
    t: Option<&'static str>,
    nodes: Seq<Node>,
    after: bool,
)
    requires
        view_at(v, path) == Some(with_view_children(e, cs)),
        e is Element,
        0 <= k < cs.len(),
        k <= usize::MAX,
    ensures
        apply_all(
            v,
            seq![
                if after {
                    PatchModel::InsertAfterNode { tag: t, patch_path: path.push(k as usize), nodes }
                } else {
                    PatchModel::InsertBeforeNode { tag: t, patch_path: path.push(k as usize), nodes }
                },
            ],
        ) == Some(
            replace_at(
                v,
                path,
                with_view_children(
                    e,
                    splice(
                        cs,
                        if after {
                            k + 1
                        } else {
                            k
                        },
                        if after {
                            k + 1
                        } else {
                            k
                        },
                        deep_seq(nodes),
                    ),
                ),
            ),
        ),
{
    lemma_child_path(v, path, e, cs, k as usize);
    let at = if after {
        k + 1
    } else {
        k
    };
    lemma_children_twice(e, cs, splice(cs, at, at, deep_seq(nodes)));
    let p = if after {
        PatchModel::InsertAfterNode { tag: t, patch_path: path.push(k as usize), nodes }
    } else {
        PatchModel::InsertBeforeNode { tag: t, patch_path: path.push(k as usize), nodes }
    };
    lemma_apply_one(v, p, replace_at(v, path, with_view_children(e, splice(cs, at, at, deep_seq(nodes)))));
}

/// Appending nodes to the children of the element at `path`.
proof fn lemma_append_children(v: NodeView, path: Seq<usize>, e: NodeView, cs: Seq<NodeView>, t: &'static str, nodes: Seq<Node>)
    requires
        view_at(v, path) == Some(with_view_children(e, cs)),
        e is Element,
    ensures
        apply_all(v, seq![PatchModel::AppendChildren { tag: t, patch_path: path, children: nodes }])
            == Some(replace_at(v, path, with_view_children(e, cs + deep_seq(nodes)))),
{
    lemma_children_twice(e, cs, cs + deep_seq(nodes));
    lemma_apply_one(
        v,
        PatchModel::AppendChildren { tag: t, patch_path: path, children: nodes },
        replace_at(v, path, with_view_children(e, cs + deep_seq(nodes))),
    );
}

/// The abstract attributes of `x` once the attribute patches of the diff of `x` into `y` have
/// applied: the added attributes go last, then those of the removed names go.
pub open spec fn attrs_after(x: Element, y: Element) -> Seq<(Option<Ns>, Att, Seq<Val>)> {
    let og = group_by_name(x.attrs@);
    let ng = group_by_name(y.attrs@);
    keep_not_named(
        attrs_view(x.attrs@) + attrs_view(added_attrs(og, ng, ng.len() as int)),
        removed_attrs(og, ng, og.len() as int),
    )
}

/// Keeping the attributes whose names are not among none keeps them all.
proof fn lemma_keep_all(av: Seq<(Option<Ns>, Att, Seq<Val>)>)
    ensures
        keep_not_named(av, Seq::<Attribute>::empty()) == av,
    decreases av.len(),
{
    if av.len() > 0 {
        lemma_keep_all(av.drop_last());
        assert(av.drop_last().push(av.last()) =~= av);
    }
}

/// Applying the attribute patches of the diff of `x` into `y`, at `path`, where `x` stands,
/// gives `x` the attributes `attrs_after(x, y)`.
proof fn lemma_attrs_apply(v: NodeView, path: Seq<usize>, x: Element, y: Element)
    requires
        view_at(v, path) == Some(deep(Node::Element(x))),
    ensures
        apply_all(v, attribute_patches(x, y, path)) == Some(
            replace_at(
                v,
                path,
                NodeView::Element {
                    namespace: x.namespace,
                    tag: x.tag,
                    attrs: attrs_after(x, y),
                    children: deep_seq(x.children@),
                    self_closing: x.self_closing,
                },
            ),
        ),
{
    let og = group_by_name(x.attrs@);
    let ng = group_by_name(y.attrs@);
    let add = added_attrs(og, ng, ng.len() as int);
    let rem = removed_attrs(og, ng, og.len() as int);
    let av = attrs_view(x.attrs@);
    let dc = deep_seq(x.children@);
    let mid = NodeView::Element {
        namespace: x.namespace,
        tag: x.tag,
        attrs: av + attrs_view(add),
        children: dc,
        self_closing: x.self_closing,
    };
    let fin = NodeView::Element {
        namespace: x.namespace,
        tag: x.tag,
        attrs: attrs_after(x, y),
        children: dc,
        self_closing: x.self_closing,
    };
    let a_part: Seq<PatchModel> = if add.len() > 0 {
        seq![PatchModel::AddAttributes { tag: x.tag, patch_path: path, attrs: add }]
    } else {
        Seq::empty()
    };
    let r_part: Seq<PatchModel> = if rem.len() > 0 {
        seq![PatchModel::RemoveAttributes { tag: x.tag, patch_path: path, attrs: rem }]
    } else {
        Seq::empty()
    };
    assert(attribute_patches(x, y, path) == a_part + r_part);
    let v2 = replace_at(v, path, mid);
    if add.len() > 0 {
        lemma_apply_one(v, a_part[0], v2);
        assert(a_part == seq![a_part[0]]);
    } else {
        assert(attrs_view(add) =~= Seq::<(Option<Ns>, Att, Seq<Val>)>::empty());
        assert(av + attrs_view(add) =~= av);
        lemma_replace_at_same(v, path);
        assert(apply_all(v, a_part) == Some(v));
    }
    lemma_view_at_replaced(v, path, mid, Seq::empty());
    assert(path + Seq::<usize>::empty() =~= path);
    let v3 = replace_at(v2, path, fin);
    if rem.len() > 0 {
        lemma_apply_one(v2, r_part[0], v3);
        assert(r_part == seq![r_part[0]]);
    } else {
        lemma_keep_all(av + attrs_view(add));
        assert(rem =~= Seq::<Attribute>::empty());
        assert(fin == mid);
        lemma_replace_at_same(v2, path);
        assert(apply_all(v2, r_part) == Some(v2));
    }
    lemma_replace_twice(v, path, mid, fin);
    lemma_apply_all_concat(v, a_part, r_part);
}

/// The diff of `a` into `b`, applied to `a`, comes back to `b`: `b` replaces `a`, or they are
/// leaves, or they are elements with the same namespace, tag and closing, whose attributes come
/// back (`attrs_after`) and whose children come back.
pub open spec fn round_trips(a: Node, b: Node, key: Seq<char>) -> bool
    decreases a, 0nat,
{
    if should_replace(a, b, key, never()) {
        true
    } else {
        match (a, b) {
            (Node::Leaf(_), Node::Leaf(_)) => true,
            (Node::Element(x), Node::Element(y)) => {
                &&& x.namespace == y.namespace
                &&& x.tag == y.tag
                &&& x.self_closing == y.self_closing
                &&& attrs_after(x, y) == attrs_view(y.attrs@)
                &&& children_round_trip(x.children@, y.children@, key)
            },
            _ => false,
        }
    }
}

/// The `n` pairs of children from `xs[dx]` and `ys[dy]` on all come back.
pub open spec fn pairs_round_trip(
    xs: Seq<Node>,
    ys: Seq<Node>,
    key: Seq<char>,
    dx: int,
    dy: int,
    n: int,
) -> bool
    decreases xs, if n > 0 {
        n as nat
    } else {
        0nat
    },
{
    if n <= 0 {
        true
    } else if 0 <= dx + n - 1 < xs.len() && 0 <= dy + n - 1 < ys.len() {
        pairs_round_trip(xs, ys, key, dx, dy, n - 1) && round_trips(
            xs[dx + n - 1],
            ys[dy + n - 1],
            key,
        )
    } else {
        false
    }
}

/// The diff of the children `xs` into `ys`, applied, comes back to `ys`. Without keys: the
/// pairs at the same positions come back, and at most one old child is left over. With keys:
/// the leading pairs with the same key come back; then either all the old children are
/// matched (the other new ones are appended), or all the new ones are and at most one old child
/// is left over, or the trailing pairs with the same key come back too and between the two ends
/// either only new children are left, which are inserted, or only new children are not and at
/// most one old child is left over.
pub open spec fn children_round_trip(xs: Seq<Node>, ys: Seq<Node>, key: Seq<char>) -> bool
    decreases xs, xs.len() + 1,
{
    if any_keyed(xs, key) || any_keyed(ys, key) {
        proof {
            lemma_lead_bound(xs, ys, key, 0);
        }
        let l = lead(xs, ys, key, 0);
        if !pairs_round_trip(xs, ys, key, 0, 0, l) {
            false
        } else if l == xs.len() {
            true
        } else if l == ys.len() {
            xs.len() <= l + 1
        } else {
            proof {
                lemma_trail(xs, ys, key, l, 0);
            }
            let r = trail(xs, ys, key, l, 0);
            &&& pairs_round_trip(xs, ys, key, xs.len() - r, ys.len() - r, r)
            &&& ys.len() >= l + r
            &&& (xs.len() == l + r || (ys.len() == l + r && xs.len() <= l + r + 1))
        }
    } else {
        let m = if xs.len() < ys.len() {
            xs.len()
        } else {
            ys.len()
        };
        pairs_round_trip(xs, ys, key, 0, 0, m as int) && xs.len() <= ys.len() + 1
    }
}

/// Each pair of children that comes back, among `n`, is in range.
proof fn lemma_pairs_at(xs: Seq<Node>, ys: Seq<Node>, key: Seq<char>, dx: int, dy: int, n: int, i: int)
    requires
        pairs_round_trip(xs, ys, key, dx, dy, n),
        0 <= i < n,
    ensures
        0 <= dx + i < xs.len(),
        0 <= dy + i < ys.len(),
        round_trips(xs[dx + i], ys[dy + i], key),
    decreases n,
{
    if i < n - 1 {
        lemma_pairs_at(xs, ys, key, dx, dy, n - 1, i);
    }
}

/// The trailing pairs stay clear of the leading ones, old and new.
proof fn lemma_trail_clear(olds: Seq<Node>, news: Seq<Node>, key: Seq<char>, l: int, t: int)
    requires
        0 <= t,
        0 <= l <= olds.len(),
        l <= news.len(),
        t <= olds.len() - l,
        t <= news.len() - l,
    ensures
        trail(olds, news, key, l, t) <= olds.len() - l,
        trail(olds, news, key, l, t) <= news.len() - l,
    decreases olds.len() - t,
{
    if 0 <= t < olds.len() && t < news.len() && olds.len() - 1 - t >= l && news.len() - 1 - t
        >= l && key_of(olds[olds.len() - 1 - t], key) == key_of(news[news.len() - 1 - t], key) {
        lemma_trail_clear(olds, news, key, l, t + 1);
    }
}

/// The abstract values of part of a sequence of trees are that part of its abstract values.
proof fn lemma_deep_seq_subrange(s: Seq<Node>, i: int, j: int)
    requires
        0 <= i <= j <= s.len(),
    ensures
        deep_seq(s.subrange(i, j)) == deep_seq(s).subrange(i, j),
        deep_seq(s).len() == s.len(),
{
    lemma_deep_seq(s);
    lemma_deep_seq(s.subrange(i, j));
    assert(s.subrange(i, j).map_values(|n: Node| deep(n)) =~= s.map_values(|n: Node| deep(n)).subrange(i, j));
}

/// The diff of `a` into `b`, which come back, at `path` where `a` stands, applied, puts `b`
/// there.
proof fn lemma_round_trip(a: Node, b: Node, v: NodeView, path: Seq<usize>, key: Seq<char>)
    requires
        round_trips(a, b, key),
        view_at(v, path) == Some(deep(a)),
    ensures
        spec_diff(a, b, path, key, never(), never()) matches Some(ps) && apply_all(v, ps) == Some(
            replace_at(v, path, deep(b)),
        ),
    decreases a, 0nat,
{
    assert(!never()(a, b));
    if should_replace(a, b, key, never()) {
        lemma_replace_node_patch(v, path, tag_of(a), b);
    } else {
        match (a, b) {
            (Node::Leaf(x), Node::Leaf(y)) => {
                if x@ != y@ {
                    lemma_replace_node_patch(v, path, None, b);
                } else {
                    assert(deep(a) == deep(b));
                    lemma_replace_at_same(v, path);
                }
            },
            (Node::Element(x), Node::Element(y)) => {
                lemma_elements_round_trip(x, y, v, path, key);
            },
            _ => {},
        }
    }
}

/// One pair of children that comes back: the diff of the pair, at the position `i` of the
/// children `cs` of the element at `path`, applied, puts the new child there.
proof fn lemma_child_step(
    v0: NodeView,
    path: Seq<usize>,
    e: NodeView,
    cs: Seq<NodeView>,
    i: int,
    a: Node,
    b: Node,
    key: Seq<char>,
)
    requires
        view_at(v0, path) is Some,
        e is Element,
        0 <= i < cs.len(),
        i <= usize::MAX,
        cs[i] == deep(a),
        round_trips(a, b, key),
    ensures
        spec_diff(a, b, path.push(i as usize), key, never(), never()) matches Some(d) && apply_all(
            replace_at(v0, path, with_view_children(e, cs)),
            d,
        ) == Some(replace_at(v0, path, with_view_children(e, cs.update(i, deep(b))))),
    decreases a, 1nat,
{
    let t = with_view_children(e, cs);
    let w = replace_at(v0, path, t);
    lemma_children_twice(e, cs, cs);
    lemma_view_at_replaced(v0, path, t, seq![i as usize]);
    assert(path + seq![i as usize] =~= path.push(i as usize));
    assert(seq![i as usize].drop_first() =~= Seq::<usize>::empty());
    assert(seq![i as usize][0] as int == i);
    assert(view_at(cs[i], Seq::<usize>::empty()) == Some(cs[i]));
    assert(view_at(t, seq![i as usize]) == Some(deep(a)));
    lemma_round_trip(a, b, w, path.push(i as usize), key);
    lemma_replace_inside(v0, path, t, seq![i as usize], deep(b));
    assert(replace_at(cs[i], Seq::<usize>::empty(), deep(b)) == deep(b));
    assert(replace_at(t, seq![i as usize], deep(b)) == with_view_children(e, cs.update(i, deep(b))));
}

/// The diffs of the first `k` pairs of children, which come back, applied, make those the new
/// children.
proof fn lemma_pairs_round_trip(
    xs: Seq<Node>,
    ys: Seq<Node>,
    e: NodeView,
    v: NodeView,
    path: Seq<usize>,
    key: Seq<char>,
    k: int,
)
    requires
        pairs_round_trip(xs, ys, key, 0, 0, k),
        e is Element,
        view_at(v, path) == Some(with_view_children(e, deep_seq(xs))),
        0 <= k <= xs.len(),
        k <= ys.len(),
        xs.len() <= usize::MAX,
    ensures
        pairs_diff(xs, ys, path, key, never(), never(), k) matches Some(ps) && apply_all(v, ps)
            == Some(
            replace_at(
                v,
                path,
                with_view_children(e, deep_seq(ys).take(k) + deep_seq(xs).skip(k)),
            ),
        ),
    decreases xs, if k > 0 {
        k as nat
    } else {
        0
    },
{
    lemma_deep_seq(xs);
    lemma_deep_seq(ys);
    if k == 0 {
        assert(deep_seq(ys).take(0) + deep_seq(xs).skip(0) =~= deep_seq(xs));
        lemma_replace_at_same(v, path);
    } else {
        let j = k - 1;
        lemma_pairs_round_trip(xs, ys, e, v, path, key, j);
        let ps = pairs_diff(xs, ys, path, key, never(), never(), j)->0;
        let s = deep_seq(ys).take(j) + deep_seq(xs).skip(j);
        assert(s[j] == deep(xs[j]));
        lemma_child_step(v, path, e, s, j, xs[j], ys[j], key);
        let d = spec_diff(xs[j], ys[j], path.push(j as usize), key, never(), never())->0;
        lemma_apply_all_concat(v, ps, d);
        assert(s.update(j, deep(ys[j])) =~= deep_seq(ys).take(k) + deep_seq(xs).skip(k));
    }
}

/// The diffs of the last `n` of the `r` trailing pairs, which come back, applied to children
/// whose last `n` are still the old ones, make those the new ones.
proof fn lemma_trail_round_trip(
    xs: Seq<Node>,
    ys: Seq<Node>,
    e: NodeView,
    v0: NodeView,
    path: Seq<usize>,
    key: Seq<char>,
    s: Seq<NodeView>,
    r: int,
    n: int,
)
    requires
        pairs_round_trip(xs, ys, key, xs.len() - r, ys.len() - r, r),
        e is Element,
        view_at(v0, path) is Some,
        0 <= n <= r,
        r <= xs.len(),
        r <= ys.len(),
        xs.len() <= usize::MAX,
        s.len() == xs.len(),
        s.subrange(xs.len() - n, xs.len() as int) == deep_seq(xs).subrange(
            xs.len() - n,
            xs.len() as int,
        ),
    ensures
        trail_diff(xs, ys, path, key, never(), never(), n) matches Some(td) && apply_all(
            replace_at(v0, path, with_view_children(e, s)),
            td,
        ) == Some(
            replace_at(
                v0,
                path,
                with_view_children(
                    e,
                    s.take(xs.len() - n) + deep_seq(ys).subrange(ys.len() - n, ys.len() as int),
                ),
            ),
        ),
    decreases xs, if n > 0 {
        n as nat
    } else {
        0
    },
{
    lemma_deep_seq(xs);
    lemma_deep_seq(ys);
    let xl = xs.len() as int;
    let yl = ys.len() as int;
    if n == 0 {
        assert(s.take(xl) + deep_seq(ys).subrange(yl, yl) =~= s);
        assert(apply_all(replace_at(v0, path, with_view_children(e, s)), Seq::<PatchModel>::empty())
            == Some(replace_at(v0, path, with_view_children(e, s))));
    } else {
        let oi = xl - n;
        lemma_pairs_at(xs, ys, key, xl - r, yl - r, r, r - n);
        assert(s.subrange(xl - n, xl)[0] == s[oi]);
        assert(s[oi] == deep(xs[oi]));
        lemma_child_step(v0, path, e, s, oi, xs[oi], ys[yl - n], key);
        let d = spec_diff(xs[oi], ys[yl - n], path.push(oi as usize), key, never(), never())->0;
        let s1 = s.update(oi, deep(ys[yl - n]));
        assert(s1.subrange(xl - (n - 1), xl) =~= s.subrange(xl - (n - 1), xl));
        assert(s.subrange(xl - (n - 1), xl) =~= deep_seq(xs).subrange(xl - (n - 1), xl)) by {
            assert forall|q: int| 0 <= q < n - 1 implies #[trigger] s.subrange(xl - (n - 1), xl)[q]
                == deep_seq(xs).subrange(xl - (n - 1), xl)[q] by {
                assert(s.subrange(xl - n, xl)[q + 1] == deep_seq(xs).subrange(xl - n, xl)[q + 1]);
            }
        }
        lemma_trail_round_trip(xs, ys, e, v0, path, key, s1, r, n - 1);
        let td = trail_diff(xs, ys, path, key, never(), never(), n - 1)->0;
        lemma_apply_all_concat(replace_at(v0, path, with_view_children(e, s)), d, td);
        assert(s1.take(xl - (n - 1)) + deep_seq(ys).subrange(yl - (n - 1), yl) =~= s.take(xl - n)
            + deep_seq(ys).subrange(yl - n, yl));
    }
}

/// After putting `t` at `path`, the path leads to `t`.
proof fn lemma_view_at_put(v: NodeView, path: Seq<usize>, t: NodeView)
    requires
        view_at(v, path) is Some,
    ensures
        view_at(replace_at(v, path, t), path) == Some(t),
{
    lemma_view_at_replaced(v, path, t, Seq::empty());
    assert(path + Seq::<usize>::empty() =~= path);
}

/// Patches that put `t1` at `path`, then patches that put `t2` there, put `t2` there.
proof fn lemma_then(
    v: NodeView,
    path: Seq<usize>,
    t1: NodeView,
    t2: NodeView,
    ps1: Seq<PatchModel>,
    ps2: Seq<PatchModel>,
)
    requires
        view_at(v, path) is Some,
        apply_all(v, ps1) == Some(replace_at(v, path, t1)),
        apply_all(replace_at(v, path, t1), ps2) == Some(
            replace_at(replace_at(v, path, t1), path, t2),
        ),
    ensures
        apply_all(v, ps1 + ps2) == Some(replace_at(v, path, t2)),
{
    lemma_apply_all_concat(v, ps1, ps2);
    lemma_replace_twice(v, path, t1, t2);
}

/// The diff of children without keys, which come back, applied, makes them the new ones.
proof fn lemma_plain_children_round_trip(
    tag: Tag,
    xs: Seq<Node>,
    ys: Seq<Node>,
    e: NodeView,
    v: NodeView,
    path: Seq<usize>,
    key: Seq<char>,
)
    requires
        !(any_keyed(xs, key) || any_keyed(ys, key)),
        children_round_trip(xs, ys, key),
        e is Element,
        view_at(v, path) == Some(with_view_children(e, deep_seq(xs))),
        xs.len() <= usize::MAX,
    ensures
        children_diff(tag, xs, ys, path, key, never(), never()) matches Some(c) && apply_all(v, c)
            == Some(replace_at(v, path, with_view_children(e, deep_seq(ys)))),
    decreases xs, xs.len() + 1,
{
    let xl = xs.len() as int;
    let yl = ys.len() as int;
    let m = if xl < yl {
        xl
    } else {
        yl
    };
    lemma_deep_seq(xs);
    lemma_deep_seq(ys);
    lemma_pairs_round_trip(xs, ys, e, v, path, key, m);
    let ps = pairs_diff(xs, ys, path, key, never(), never(), m)->0;
    let s = deep_seq(ys).take(m) + deep_seq(xs).skip(m);
    let t1 = with_view_children(e, s);
    let t2 = with_view_children(e, deep_seq(ys));
    let w1 = replace_at(v, path, t1);
    lemma_view_at_put(v, path, t1);
    lemma_children_twice(e, s, s);
    let app: Seq<PatchModel> = if yl > xl {
        seq![PatchModel::AppendChildren { tag, patch_path: path, children: ys.skip(xl) }]
    } else {
        Seq::empty()
    };
    let rem = removes_range(xs, path, yl, xl);
    if yl > xl {
        assert(rem =~= Seq::<PatchModel>::empty());
        lemma_append_children(w1, path, e, s, tag, ys.skip(xl));
        lemma_deep_seq_subrange(ys, xl, yl);
        assert(ys.skip(xl) =~= ys.subrange(xl, yl));
        assert(s + deep_seq(ys.skip(xl)) =~= deep_seq(ys));
        assert(app + rem =~= app);
        lemma_then(v, path, t1, t2, ps, app + rem);
    } else if yl == xl {
        assert(rem =~= Seq::<PatchModel>::empty());
        assert(app + rem =~= Seq::<PatchModel>::empty());
        assert(s =~= deep_seq(ys));
        assert(ps + (app + rem) =~= ps);
    } else {
        assert(xl == yl + 1);
        assert(rem =~= seq![remove_patch(xs[yl], path.push(yl as usize))]);
        lemma_remove_child(w1, path, e, s, yl, tag_of(xs[yl]));
        assert(s.remove(yl) =~= deep_seq(ys));
        assert(app + rem =~= rem);
        lemma_then(v, path, t1, t2, ps, app + rem);
    }
}

/// The keyed diff of children, which come back, applied, makes them the new ones.
proof fn lemma_keyed_children_round_trip(
    tag: Tag,
    xs: Seq<Node>,
    ys: Seq<Node>,
    e: NodeView,
    v: NodeView,
    path: Seq<usize>,
    key: Seq<char>,
)
    requires
        any_keyed(xs, key) || any_keyed(ys, key),
        children_round_trip(xs, ys, key),
        e is Element,
        view_at(v, path) == Some(with_view_children(e, deep_seq(xs))),
        xs.len() <= usize::MAX,
    ensures
        lis_diff(tag, xs, ys, path, key, never(), never()) matches Some(c) && apply_all(v, c)
            == Some(replace_at(v, path, with_view_children(e, deep_seq(ys)))),
    decreases xs, xs.len() + 1,
{
    let xl = xs.len() as int;
    let yl = ys.len() as int;
    lemma_lead_bound(xs, ys, key, 0);
    let l = lead(xs, ys, key, 0);
    lemma_deep_seq(xs);
    lemma_deep_seq(ys);
    let dxs = deep_seq(xs);
    let dys = deep_seq(ys);
    lemma_pairs_round_trip(xs, ys, e, v, path, key, l);
    let lp = pairs_diff(xs, ys, path, key, never(), never(), l)->0;
    let s = dys.take(l) + dxs.skip(l);
    let t1 = with_view_children(e, s);
    let tn = with_view_children(e, dys);
    let w1 = replace_at(v, path, t1);
    lemma_view_at_put(v, path, t1);
    lemma_children_twice(e, s, s);
    if l == xl {
        assert(ends_offsets(xs, ys, key) is None);
        if yl > l {
            let app = seq![PatchModel::AppendChildren { tag, patch_path: path, children: ys.skip(l) }];
            lemma_append_children(w1, path, e, s, tag, ys.skip(l));
            lemma_deep_seq_subrange(ys, l, yl);
            assert(ys.skip(l) =~= ys.subrange(l, yl));
            assert(s + deep_seq(ys.skip(l)) =~= dys);
            lemma_then(v, path, t1, tn, lp, app);
        } else {
            assert(s =~= dys);
            assert(lp + Seq::<PatchModel>::empty() =~= lp);
        }
    } else if l == yl {
        assert(ends_offsets(xs, ys, key) is None);
        assert(xl == l + 1);
        let rem = removes_range(xs, path, l, xl);
        assert(rem =~= seq![remove_patch(xs[l], path.push(l as usize))]);
        lemma_remove_child(w1, path, e, s, l, tag_of(xs[l]));
        assert(s.remove(l) =~= dys);
        lemma_then(v, path, t1, tn, lp, rem);
    } else {
        lemma_trail(xs, ys, key, l, 0);
        lemma_trail_clear(xs, ys, key, l, 0);
        let r = trail(xs, ys, key, l, 0);
        assert(ends_offsets(xs, ys, key) == Some((l, r)));
        assert(s.subrange(xl - r, xl) =~= dxs.subrange(xl - r, xl));
        lemma_trail_round_trip(xs, ys, e, v, path, key, s, r, r);
        let td = trail_diff(xs, ys, path, key, never(), never(), r)->0;
        let s2 = s.take(xl - r) + dys.subrange(yl - r, yl);
        let t2 = with_view_children(e, s2);
        lemma_replace_twice(v, path, t1, t2);
        lemma_then(v, path, t1, t2, lp, td);
        lemma_view_at_put(v, path, t2);
        assert(s2 =~= dys.take(l) + dxs.subrange(l, xl - r) + dys.subrange(yl - r, yl));
        lemma_middle_round_trip(tag, xs, ys, e, replace_at(v, path, t2), path, key, l, r, s2);
        let mp = middle(xs, ys, path, key, never(), never(), l, r)->0;
        lemma_then(v, path, t2, tn, lp + td, mp);
    }
}

/// The patches of the middle, between the `l` leading and the `r` trailing pairs, applied to
/// children whose ends are already the new ones, make them all the new ones.
proof fn lemma_middle_round_trip(
    tag: Tag,
    xs: Seq<Node>,
    ys: Seq<Node>,
    e: NodeView,
    w: NodeView,
    path: Seq<usize>,
    key: Seq<char>,
    l: int,
    r: int,
    s2: Seq<NodeView>,
)
    requires
        0 <= l < xs.len(),
        l < ys.len(),
        0 <= r,
        xs.len() - r >= l,
        ys.len() >= l + r,
        xs.len() == l + r || (ys.len() == l + r && xs.len() <= l + r + 1),
        xs.len() <= usize::MAX,
        e is Element,
        s2 == deep_seq(ys).take(l) + deep_seq(xs).subrange(l, xs.len() - r) + deep_seq(
            ys,
        ).subrange(ys.len() - r, ys.len() as int),
        view_at(w, path) == Some(with_view_children(e, s2)),
    ensures
        middle(xs, ys, path, key, never(), never(), l, r) matches Some(mp) && apply_all(w, mp)
            == Some(replace_at(w, path, with_view_children(e, deep_seq(ys)))),
{
    let xl = xs.len() as int;
    let yl = ys.len() as int;
    lemma_deep_seq(xs);
    lemma_deep_seq(ys);
    let dys = deep_seq(ys);
    if yl == l + r {
        let rem = removes_range(xs, path, l, xl - r);
        assert(middle(xs, ys, path, key, never(), never(), l, r) == Some(rem));
        if xl - r == l {
            assert(rem =~= Seq::<PatchModel>::empty());
            assert(s2 =~= dys);
            lemma_children_twice(e, s2, s2);
            lemma_replace_at_same(w, path);
        } else {
            assert(xl - r == l + 1);
            assert(rem =~= seq![remove_patch(xs[l], path.push(l as usize))]);
            lemma_remove_child(w, path, e, s2, l, tag_of(xs[l]));
            assert(s2.remove(l) =~= dys);
        }
    } else {
        assert(xl == l + r);
        let nm = ys.subrange(l, yl - r);
        lemma_deep_seq_subrange(ys, l, yl - r);
        let mid = seq![
            PatchModel::InsertBeforeNode {
                tag: tag_of(xs[l]),
                patch_path: path.push(l as usize),
                nodes: nm,
            },
        ];
        assert(middle(xs, ys, path, key, never(), never(), l, r) == Some(mid));
        lemma_insert_children(w, path, e, s2, l, tag_of(xs[l]), nm, false);
        assert(splice(s2, l, l, deep_seq(nm)) =~= dys);
    }
}

/// The diff of two elements, which come back, at `path` where the first stands, applied, puts
/// the second there.
proof fn lemma_elements_round_trip(x: Element, y: Element, v: NodeView, path: Seq<usize>, key: Seq<char>)
    requires
        !should_replace(Node::Element(x), Node::Element(y), key, never()),
        round_trips(Node::Element(x), Node::Element(y), key),
        view_at(v, path) == Some(deep(Node::Element(x))),
    ensures
        diff_elements(x, y, path, key, never(), never()) matches Some(ps) && apply_all(v, ps)
            == Some(replace_at(v, path, deep(Node::Element(y)))),
    decreases x, 0nat,
{
    let ghost ch = x.children;
    assert(decreases_to!(x => ch));
    assert(decreases_to!(ch => ch@));
    let xs = x.children@;
    let ys = y.children@;
    assert(xs.len() == x.children.len());
    lemma_attrs_apply(v, path, x, y);
    let e1 = NodeView::Element {
        namespace: x.namespace,
        tag: x.tag,
        attrs: attrs_view(y.attrs@),
        children: deep_seq(xs),
        self_closing: x.self_closing,
    };
    let v1 = replace_at(v, path, e1);
    lemma_view_at_put(v, path, e1);
    assert(with_view_children(e1, deep_seq(xs)) == e1);
    let ap = attribute_patches(x, y, path);
    let tn = with_view_children(e1, deep_seq(ys));
    if any_keyed(xs, key) || any_keyed(ys, key) {
        lemma_keyed_children_round_trip(x.tag, xs, ys, e1, v1, path, key);
        let c = lis_diff(x.tag, xs, ys, path, key, never(), never())->0;
        lemma_then(v, path, e1, tn, ap, c);
    } else {
        lemma_plain_children_round_trip(x.tag, xs, ys, e1, v1, path, key);
        let c = children_diff(x.tag, xs, ys, path, key, never(), never())->0;
        lemma_then(v, path, e1, tn, ap, c);
    }
    assert(tn == deep(Node::Element(y)));
}

/// Applying the diff of `old` into `new` to `old` gives `new`, with neither skipping nor forced
/// replacing, when the diff comes back (`round_trips`): `new` replaces `old` (another variant,
/// another tag, another key), or both are leaves, or both are elements with the same namespace,
/// tag and closing, whose attributes, once those of the diff are added and those of the
/// removed names taken out, are those of `new` (as when attributes are taken out and attributes
/// of new names added after the others: `lemma_trimmed_then_added`), and whose children come
/// back in turn: without keys, pair by pair
/// with children appended or one left over; with keys, matched from both ends with children
/// appended, inserted between the ends, or one left over.
pub proof fn lemma_apply_diff(old: Node, new: Node, key: Seq<char>)
    requires
        round_trips(old, new, key),
    ensures
        spec_diff(old, new, Seq::empty(), key, never(), never()) matches Some(ps) && apply_all(
            deep(old),
            ps,
        ) == Some(deep(new)),
{
    lemma_round_trip(old, new, deep(old), Seq::empty(), key);
}

} // verus!
