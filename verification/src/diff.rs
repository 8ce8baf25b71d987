//! provides diffing algorithm which returns patches
use crate::node::attribute::{
    group_attributes_per_name, group_by_name, group_index, groups_view, has_attr_named,
    lemma_group_index_in_range, Att,
    Attribute, Tag, Val,
};
use crate::diff_lis::{lis_diff, lis_diff_core};
use crate::node::{node_attr_vals, tag_of, Element, Node};
use crate::patch::{attrs_of, nodes_of, patches_view, Patch, PatchModel, TreePath};
use crate::text::{opt_strs_eq, opt_strs_view, str_eq, strings_view, strs_eq, strs_view};
use std::collections::BTreeMap;
use vstd::prelude::*;
use vstd::std_specs::cmp::OrdSpec;
use vstd::std_specs::iter::IteratorSpec;

pub mod keyed;
pub mod keyed_elements;
pub mod laws;
pub mod middle_laws;
pub mod reorder;

verus! {

/// Concatenation of two outcomes, either of which may be a refusal.
pub open spec fn opt_concat(a: Option<Seq<PatchModel>>, b: Option<Seq<PatchModel>>) -> Option<
    Seq<PatchModel>,
> {
    match (a, b) {
        (Some(x), Some(y)) => Some(x + y),
        _ => None,
    }
}

/// Whether two nodes are of the same variant.
pub open spec fn same_variant(a: Node, b: Node) -> bool {
    match (a, b) {
        (Node::Element(_), Node::Element(_)) => true,
        (Node::NodeList(_), Node::NodeList(_)) => true,
        (Node::Fragment(_), Node::Fragment(_)) => true,
        (Node::Leaf(_), Node::Leaf(_)) => true,
        _ => false,
    }
}

/// The key of a node: the characters of the values of its attributes named `key`, when it is
/// an element that has at least one such value.
pub open spec fn key_of(n: Node, key: Seq<char>) -> Option<Seq<Seq<char>>> {
    match node_attr_vals(n, key) {
        Some(v) => Some(strings_view(v)),
        None => None,
    }
}

/// Whether a node is an element with an attribute named `key`.
pub open spec fn is_keyed(n: Node, key: Seq<char>) -> bool {
    match n {
        Node::Element(e) => has_attr_named(e.attrs@, key),
        _ => false,
    }
}

/// Whether some node of the sequence is keyed.
pub open spec fn any_keyed(children: Seq<Node>, key: Seq<char>) -> bool {
    exists|i: int| 0 <= i < children.len() && is_keyed(#[trigger] children[i], key)
}

/// Whether the old node is to be replaced by the new one rather than patched: when they are
/// of different variants, when `rp` says so, when both have keys and these differ, or when both
/// are elements with different tags.
pub open spec fn should_replace(
    old: Node,
    new: Node,
    key: Seq<char>,
    rp: spec_fn(Node, Node) -> bool,
) -> bool {
    if !same_variant(old, new) {
        true
    } else if rp(old, new) {
        true
    } else if key_of(old, key) is Some && key_of(new, key) is Some && key_of(old, key) != key_of(
        new,
        key,
    ) {
        true
    } else {
        match (old, new) {
            (Node::Element(o), Node::Element(n)) => o.tag@ != n.tag@,
            _ => false,
        }
    }
}

/// The patch that replaces the node at `path` with `new`.
pub open spec fn replace_patch(old: Node, new: Node, path: Seq<usize>) -> PatchModel {
    PatchModel::ReplaceNode { tag: tag_of(old), patch_path: path, replacement: seq![new] }
}

/// The patch that removes the node at `path`.
pub open spec fn remove_patch(old: Node, path: Seq<usize>) -> PatchModel {
    PatchModel::RemoveNode { tag: tag_of(old), patch_path: path }
}

/// The patches that remove the children from position `lo` to position `hi`, excluded.
pub open spec fn removes_range(olds: Seq<Node>, path: Seq<usize>, lo: int, hi: int) -> Seq<
    PatchModel,
> {
    if lo < hi {
        Seq::new((hi - lo) as nat, |t: int| remove_patch(olds[lo + t], path.push((lo + t) as usize)))
    } else {
        Seq::empty()
    }
}

/// The characters of the values of each attribute of a sequence.
pub open spec fn values_view(attrs: Seq<Attribute>) -> Seq<Seq<Seq<char>>> {
    attrs.map_values(|a: Attribute| strings_view(a.value@))
}

/// The attributes of the groups of `ng` from position 0 to `n`, excluded, whose name is not in
/// `og` or whose values differ from those of the group of that name in `og`.
pub open spec fn added_attrs(
    og: Seq<(Seq<char>, Seq<Attribute>)>,
    ng: Seq<(Seq<char>, Seq<Attribute>)>,
    n: int,
) -> Seq<Attribute>
    decreases n,
{
    if n <= 0 {
        Seq::empty()
    } else {
        added_attrs(og, ng, n - 1) + match group_index(og, ng[n - 1].0) {
            Some(j) => if values_view(og[j].1) != values_view(ng[n - 1].1) {
                ng[n - 1].1
            } else {
                Seq::empty()
            },
            None => ng[n - 1].1,
        }
    }
}

/// The attributes of the groups of `og` from position 0 to `n`, excluded, whose name is not in
/// `ng`.
pub open spec fn removed_attrs(
    og: Seq<(Seq<char>, Seq<Attribute>)>,
    ng: Seq<(Seq<char>, Seq<Attribute>)>,
    n: int,
) -> Seq<Attribute>
    decreases n,
{
    if n <= 0 {
        Seq::empty()
    } else {
        removed_attrs(og, ng, n - 1) + match group_index(ng, og[n - 1].0) {
            Some(_) => Seq::empty(),
            None => og[n - 1].1,
        }
    }
}

/// The patches on the attributes of an element: first the attributes to add, when there are
/// any, then those to remove, when there are any.
pub open spec fn attribute_patches(old: Element, new: Element, path: Seq<usize>) -> Seq<PatchModel> {
    let og = group_by_name(old.attrs@);
    let ng = group_by_name(new.attrs@);
    let add = added_attrs(og, ng, ng.len() as int);
    let remove = removed_attrs(og, ng, og.len() as int);
    (if add.len() > 0 {
        seq![PatchModel::AddAttributes { tag: old.tag, patch_path: path, attrs: add }]
    } else {
        Seq::empty()
    }) + (if remove.len() > 0 {
        seq![PatchModel::RemoveAttributes { tag: old.tag, patch_path: path, attrs: remove }]
    } else {
        Seq::empty()
    })
}

/// The patches of the diff of `old` into `new` at `path`, or `None` where diffing panics:
/// nothing when `sk` says to skip, a replacement when `should_replace` says so, a replacement
/// of a leaf whose text changed, and for two elements the diff of their attributes followed by
/// that of their children, keyed when a child of either is keyed.
pub open spec fn spec_diff(
    old: Node,
    new: Node,
    path: Seq<usize>,
    key: Seq<char>,
    sk: spec_fn(Node, Node) -> bool,
    rp: spec_fn(Node, Node) -> bool,
) -> Option<Seq<PatchModel>>
    decreases old, 0nat,
{
    if sk(old, new) {
        Some(Seq::empty())
    } else if should_replace(old, new, key, rp) {
        Some(seq![replace_patch(old, new, path)])
    } else {
        match (old, new) {
            (Node::Leaf(a), Node::Leaf(b)) => if a@ != b@ {
                Some(seq![replace_patch(old, new, path)])
            } else {
                Some(Seq::empty())
            },
            (Node::Element(o), Node::Element(n)) => diff_elements(o, n, path, key, sk, rp),
            _ => None,
        }
    }
}

/// The diff of two elements: the diff of their attributes, followed by the keyed diff of their
/// children, along a longest increasing subsequence, when a child of either is keyed, and
/// otherwise by the diff of their children at the same positions.
pub open spec fn diff_elements(
    o: Element,
    n: Element,
    path: Seq<usize>,
    key: Seq<char>,
    sk: spec_fn(Node, Node) -> bool,
    rp: spec_fn(Node, Node) -> bool,
) -> Option<Seq<PatchModel>>
    decreases o, 0nat,
{
    if any_keyed(o.children@, key) || any_keyed(n.children@, key) {
        opt_concat(
            Some(attribute_patches(o, n, path)),
            lis_diff(o.tag, o.children@, n.children@, path, key, sk, rp),
        )
    } else {
        opt_concat(
            Some(attribute_patches(o, n, path)),
            children_diff(o.tag, o.children@, n.children@, path, key, sk, rp),
        )
    }
}

/// The diff of non keyed children: each pair of children at the same position, then the
/// appending of the extra new children, or the removal of the extra old ones.
pub open spec fn children_diff(
    tag: Tag,
    olds: Seq<Node>,
    news: Seq<Node>,
    path: Seq<usize>,
    key: Seq<char>,
    sk: spec_fn(Node, Node) -> bool,
    rp: spec_fn(Node, Node) -> bool,
) -> Option<Seq<PatchModel>>
    decreases olds, news.len() + 1,
{
    let m = if olds.len() < news.len() {
        olds.len()
    } else {
        news.len()
    };
    opt_concat(
        pairs_diff(olds, news, path, key, sk, rp, m as int),
        Some(
            (if news.len() > olds.len() {
                seq![
                    PatchModel::AppendChildren {
                        tag,
                        patch_path: path,
                        children: news.skip(olds.len() as int),
                    },
                ]
            } else {
                Seq::empty()
            }) + removes_range(olds, path, news.len() as int, olds.len() as int),
        ),
    )
}

/// The diffs of the pairs of children at the same positions, from 0 to `n`, excluded.
pub open spec fn pairs_diff(
    olds: Seq<Node>,
    news: Seq<Node>,
    path: Seq<usize>,
    key: Seq<char>,
    sk: spec_fn(Node, Node) -> bool,
    rp: spec_fn(Node, Node) -> bool,
    n: int,
) -> Option<Seq<PatchModel>>
    decreases olds, if n > 0 { n as nat } else { 0 },
{
    if n <= 0 || n > olds.len() || n > news.len() {
        Some(Seq::empty())
    } else {
        opt_concat(
            pairs_diff(olds, news, path, key, sk, rp, n - 1),
            spec_diff(olds[n - 1], news[n - 1], path.push((n - 1) as usize), key, sk, rp),
        )
    }
}

/// Whether position `i` comes after the optional last matched position.
pub open spec fn is_fwd(than: Option<int>, i: int) -> bool {
    match than {
        Some(t) => i > t,
        None => true,
    }
}

/// The first position after the optional last matched position.
pub open spec fn after(last: Option<int>) -> int {
    match last {
        Some(t) => t + 1,
        None => 0,
    }
}

/// The first old position from `i` on that comes after `last_old` and holds the key `nk`.
pub open spec fn first_match_from(
    olds: Seq<Node>,
    key: Seq<char>,
    nk: Seq<Seq<char>>,
    last_old: Option<int>,
    i: int,
) -> Option<int>
    decreases olds.len() - i,
{
    if i < 0 || i >= olds.len() {
        None
    } else if is_fwd(last_old, i) && key_of(olds[i], key) == Some(nk) {
        Some(i)
    } else {
        first_match_from(olds, key, nk, last_old, i + 1)
    }
}

/// The old position that the new child at `j` is matched to, given the last matched old
/// position: the first later old child with the same key.
pub open spec fn matched_old(
    olds: Seq<Node>,
    news: Seq<Node>,
    key: Seq<char>,
    last_old: Option<int>,
    j: int,
) -> Option<int> {
    match key_of(news[j], key) {
        Some(nk) => first_match_from(olds, key, nk, last_old, 0),
        None => None,
    }
}

/// Whether some new key is also an old key.
pub open spec fn has_match(olds: Seq<Node>, news: Seq<Node>, key: Seq<char>) -> bool {
    exists|i: int, j: int|
        0 <= i < olds.len() && 0 <= j < news.len() && key_of(#[trigger] news[j], key) is Some
            && key_of(news[j], key) == key_of(#[trigger] olds[i], key)
}

/// The patches after the last match: the removal of the old children after the last matched
/// old one, and the insertion of the new children after the last matched new one, after the
/// last matched old child.
pub open spec fn keyed_tail(
    olds: Seq<Node>,
    news: Seq<Node>,
    path: Seq<usize>,
    last_old: Option<int>,
    last_new: Option<int>,
) -> Seq<PatchModel> {
    let marked = match last_old {
        Some(t) => t,
        None => 0,
    };
    let rest = news.subrange(after(last_new), news.len() as int);
    removes_range(olds, path, after(last_old), olds.len() as int) + if rest.len() > 0 {
        seq![
            PatchModel::InsertAfterNode {
                tag: if 0 <= marked < olds.len() {
                    tag_of(olds[marked])
                } else {
                    None
                },
                patch_path: path.push(marked as usize),
                nodes: rest,
            },
        ]
    } else {
        Seq::empty()
    }
}

/// The patches of the matching of the new child at `j` with the old child at `i`: the diff of
/// the pair, the removal of the old children between the last matched old one and `i`, and the
/// insertion, before the old child at `i`, of the new children between the last matched new
/// one and `j`.
pub open spec fn keyed_step(
    olds: Seq<Node>,
    news: Seq<Node>,
    path: Seq<usize>,
    key: Seq<char>,
    sk: spec_fn(Node, Node) -> bool,
    rp: spec_fn(Node, Node) -> bool,
    i: int,
    j: int,
    last_old: Option<int>,
    last_new: Option<int>,
) -> Option<Seq<PatchModel>>
    decreases olds, 0nat,
{
    let ins = news.subrange(after(last_new), j);
    if 0 <= i < olds.len() && 0 <= j < news.len() {
        opt_concat(
            spec_diff(olds[i], news[j], path.push(i as usize), key, sk, rp),
            Some(
                removes_range(olds, path, after(last_old), i) + if ins.len() > 0 {
                    seq![
                        PatchModel::InsertBeforeNode {
                            tag: tag_of(olds[i]),
                            patch_path: path.push(i as usize),
                            nodes: ins,
                        },
                    ]
                } else {
                    Seq::empty()
                },
            ),
        )
    } else {
        None
    }
}

/// The keyed matching of the new children from position `j` on, given the last matched
/// positions.
pub open spec fn keyed_loop(
    olds: Seq<Node>,
    news: Seq<Node>,
    path: Seq<usize>,
    key: Seq<char>,
    sk: spec_fn(Node, Node) -> bool,
    rp: spec_fn(Node, Node) -> bool,
    j: int,
    last_old: Option<int>,
    last_new: Option<int>,
) -> Option<Seq<PatchModel>>
    decreases olds, if j < news.len() { (news.len() - j) as nat + 1 } else { 1 },
{
    if j < 0 || j >= news.len() {
        Some(keyed_tail(olds, news, path, last_old, last_new))
    } else {
        match matched_old(olds, news, key, last_old, j) {
            Some(i) => opt_concat(
                keyed_step(olds, news, path, key, sk, rp, i, j, last_old, last_new),
                keyed_loop(olds, news, path, key, sk, rp, j + 1, Some(i), Some(j)),
            ),
            None => keyed_loop(olds, news, path, key, sk, rp, j + 1, last_old, last_new),
        }
    }
}

/// The keyed diff of children: when no new key is an old key, the removal of every old child
/// and the appending of every new one; otherwise the keyed matching.
pub open spec fn keyed_diff(
    tag: Tag,
    olds: Seq<Node>,
    news: Seq<Node>,
    path: Seq<usize>,
    key: Seq<char>,
    sk: spec_fn(Node, Node) -> bool,
    rp: spec_fn(Node, Node) -> bool,
) -> Option<Seq<PatchModel>>
    decreases olds, news.len() + 2,
{
    if !has_match(olds, news, key) {
        Some(
            removes_range(olds, path, 0, olds.len() as int) + if news.len() > 0 {
                seq![PatchModel::AppendChildren { tag, patch_path: path, children: news }]
            } else {
                Seq::empty()
            },
        )
    } else {
        keyed_loop(olds, news, path, key, sk, rp, 0, None, None)
    }
}


/// A closure can be called on any pair of nodes.
pub open spec fn callable<F: Fn(&Node, &Node) -> bool>(f: F) -> bool {
    forall|a: &Node, b: &Node| #[trigger] f.requires((a, b))
}

/// A closure gives one answer for a given pair of nodes.
pub open spec fn deterministic<F: Fn(&Node, &Node) -> bool>(f: F) -> bool {
    forall|a: &Node, b: &Node, r1: bool, r2: bool|
        #![trigger f.ensures((a, b), r1), f.ensures((a, b), r2)]
        f.ensures((a, b), r1) && f.ensures((a, b), r2) ==> r1 == r2
}

/// The answers of a closure, as a predicate on pairs of nodes: whether it can answer `true`.
pub open spec fn decision<F: Fn(&Node, &Node) -> bool>(f: F) -> spec_fn(Node, Node) -> bool {
    |a: Node, b: Node| f.ensures((&a, &b), true)
}

/// The predicate that holds of no pair of nodes.
pub open spec fn never() -> spec_fn(Node, Node) -> bool {
    |a: Node, b: Node| false
}

/// The closures that `diff_recursive` can be given.
pub open spec fn well_behaved<F: Fn(&Node, &Node) -> bool>(f: F) -> bool {
    callable(f) && deterministic(f)
}

/// The answer of a deterministic closure is its decision.
pub(crate) proof fn lemma_decision<F: Fn(&Node, &Node) -> bool>(f: F, a: &Node, b: &Node, r: bool)
    requires
        f.ensures((a, b), r),
        deterministic(f),
    ensures
        r == decision(f)(*a, *b),
{
    if !r {
        if f.ensures((a, b), true) {
            assert(r == true);
        }
    }
}

/// A refusal of a prefix of pairs is a refusal of the longer prefix.
pub(crate) proof fn lemma_pairs_diff_prefix(
    olds: Seq<Node>,
    news: Seq<Node>,
    path: Seq<usize>,
    key: Seq<char>,
    sk: spec_fn(Node, Node) -> bool,
    rp: spec_fn(Node, Node) -> bool,
    k: int,
    n: int,
)
    requires
        0 <= k <= n <= olds.len(),
        n <= news.len(),
        pairs_diff(olds, news, path, key, sk, rp, n) is Some,
    ensures
        pairs_diff(olds, news, path, key, sk, rp, k) is Some,
    decreases n - k,
{
    if k < n {
        lemma_pairs_diff_prefix(olds, news, path, key, sk, rp, k, n - 1);
    }
}

/// The abstract values of concatenated patches are the concatenation of their values.
pub(crate) proof fn lemma_patches_view_add(a: Seq<Patch>, b: Seq<Patch>)
    ensures
        patches_view(a + b) == patches_view(a) + patches_view(b),
{
    assert(patches_view(a + b) =~= patches_view(a) + patches_view(b));
}

/// Removing one more child adds its removal at the end.
pub proof fn lemma_removes_range_push(olds: Seq<Node>, path: Seq<usize>, lo: int, k: int)
    requires
        0 <= lo <= k < olds.len(),
    ensures
        removes_range(olds, path, lo, k + 1) == removes_range(olds, path, lo, k).push(
            remove_patch(olds[k], path.push(k as usize)),
        ),
{
    assert(removes_range(olds, path, lo, k + 1) =~= removes_range(olds, path, lo, k).push(
        remove_patch(olds[k], path.push(k as usize)),
    ));
}

/// Copies a path.
pub fn copy_path(p: &TreePath) -> (r: TreePath)
    ensures
        r@ == p@,
{
    let mut v: Vec<usize> = Vec::new();
    let mut i: usize = 0;
    while i < p.path.len()
        invariant
            i <= p@.len(),
            v@ == p@.take(i as int),
        decreases p@.len() - i,
    {
        v.push(p.path[i]);
        assert(v@ =~= p@.take(i + 1));
        i += 1;
    }
    assert(p@.take(p@.len() as int) =~= p@);
    TreePath::new(v)
}

/// References to the nodes from position `lo` to position `hi`, excluded.
pub fn node_refs<'a>(v: &'a Vec<Node>, lo: usize, hi: usize) -> (r: Vec<&'a Node>)
    requires
        lo <= hi <= v@.len(),
    ensures
        nodes_of(r@) == v@.subrange(lo as int, hi as int),
{
    let mut r: Vec<&'a Node> = Vec::new();
    let mut i: usize = lo;
    while i < hi
        invariant
            lo <= i <= hi,
            hi <= v@.len(),
            nodes_of(r@) == v@.subrange(lo as int, i as int),
        decreases hi - i,
    {
        let ghost before = r@;
        r.push(&v[i]);
        assert(r@ == before.push(&v@[i as int]));
        assert(nodes_of(r@) =~= nodes_of(before).push(v@[i as int]));
        assert(nodes_of(r@) =~= v@.subrange(lo as int, i + 1));
        i += 1;
    }
    r
}

/// Appends references to attributes.
fn push_all<'a>(dst: &mut Vec<&'a Attribute>, src: &Vec<&'a Attribute>)
    ensures
        final(dst)@ == old(dst)@ + src@,
{
    let mut i: usize = 0;
    while i < src.len()
        invariant
            i <= src@.len(),
            dst@ == old(dst)@ + src@.take(i as int),
        decreases src@.len() - i,
    {
        dst.push(src[i]);
        assert(dst@ =~= old(dst)@ + src@.take(i + 1));
        i += 1;
    }
    assert(src@.take(src@.len() as int) =~= src@);
}

/// Compares two sequences of strings.
fn vals_eq(x: &Vec<Val>, y: &Vec<Val>) -> (r: bool)
    ensures
        r == (strings_view(x@) == strings_view(y@)),
{
    if x.len() != y.len() {
        assert(strings_view(x@).len() != strings_view(y@).len());
        return false;
    }
    let mut i: usize = 0;
    while i < x.len()
        invariant
            x@.len() == y@.len(),
            i <= x@.len(),
            forall|k: int| 0 <= k < i ==> x@[k]@ == y@[k]@,
        decreases x@.len() - i,
    {
        if !x[i].eq(&y[i]) {
            assert(strings_view(x@)[i as int] != strings_view(y@)[i as int]);
            return false;
        }
        i += 1;
    }
    assert(strings_view(x@) =~= strings_view(y@));
    true
}

/// Compares the values of two sequences of attributes.
fn group_values_eq(a: &Vec<&Attribute>, b: &Vec<&Attribute>) -> (r: bool)
    ensures
        r == (values_view(attrs_of(a@)) == values_view(attrs_of(b@))),
{
    if a.len() != b.len() {
        assert(values_view(attrs_of(a@)).len() != values_view(attrs_of(b@)).len());
        return false;
    }
    let mut i: usize = 0;
    while i < a.len()
        invariant
            a@.len() == b@.len(),
            i <= a@.len(),
            forall|k: int|
                0 <= k < i ==> strings_view(a@[k].value@) == strings_view(b@[k].value@),
        decreases a@.len() - i,
    {
        if !vals_eq(&a[i].value, &b[i].value) {
            assert(values_view(attrs_of(a@))[i as int] != values_view(attrs_of(b@))[i as int]);
            return false;
        }
        i += 1;
    }
    assert(values_view(attrs_of(a@)) =~= values_view(attrs_of(b@)));
    true
}

/// The first match in a sequence of groups is the first match in any prefix that holds it.
proof fn lemma_group_prefix_index(g: Seq<(Seq<char>, Seq<Attribute>)>, i: int, name: Seq<char>)
    requires
        0 <= i < g.len(),
        group_index(g.take(i), name) is None,
        g[i].0 == name,
    ensures
        group_index(g, name) == Some(i),
    decreases g.len(),
{
    assert(g.take(i + 1).drop_last() =~= g.take(i));
    if g.len() > i + 1 {
        assert(g.drop_last().take(i) =~= g.take(i));
        lemma_group_prefix_index(g.drop_last(), i, name);
    } else {
        assert(g.take(i + 1) =~= g);
    }
}

/// Finds the first group named `name`, if any.
fn find_group(groups: &Vec<(&Att, Vec<&Attribute>)>, name: &Att) -> (r: Option<usize>)
    ensures
        r == (match group_index(groups_view(groups@), (*name)@) {
            Some(i) => Some(i as usize),
            None => None,
        }),
        r matches Some(i) ==> i < groups@.len(),
{
    let ghost g = groups_view(groups@);
    let mut i: usize = 0;
    while i < groups.len()
        invariant
            g == groups_view(groups@),
            i <= groups@.len(),
            group_index(g.take(i as int), (*name)@) is None,
        decreases groups@.len() - i,
    {
        proof {
            assert(g.take(i + 1).drop_last() =~= g.take(i as int));
        }
        if str_eq(groups[i].0, name) {
            proof {
                lemma_group_prefix_index(g, i as int, (*name)@);
            }
            return Some(i);
        }
        i += 1;
    }
    assert(g.take(g.len() as int) =~= g);
    None
}

/// The patches on the attributes of an element: the attributes of the names whose values
/// changed or that are new, then the attributes of the names that are gone.
pub(crate) fn create_attribute_patches<'a>(old_element: &'a Element, new_element: &'a Element, path: &TreePath) -> (r:
    Vec<Patch<'a>>)
    ensures
        patches_view(r@) == attribute_patches(*old_element, *new_element, path@),
{
    let new_groups = group_attributes_per_name(new_element.attrs.as_slice());
    let old_groups = group_attributes_per_name(old_element.attrs.as_slice());
    let ghost ng = groups_view(new_groups@);
    let ghost og = groups_view(old_groups@);
    let mut add: Vec<&'a Attribute> = Vec::new();
    let mut i: usize = 0;
    while i < new_groups.len()
        invariant
            i <= new_groups@.len(),
            ng == groups_view(new_groups@),
            og == groups_view(old_groups@),
            attrs_of(add@) == added_attrs(og, ng, i as int),
        decreases new_groups@.len() - i,
    {
        let ghost before = add@;
        proof {
            lemma_group_index_in_range(og, ng[i as int].0);
        }
        let found = find_group(&old_groups, new_groups[i].0);
        let wanted = match found {
            Some(j) => !group_values_eq(&old_groups[j].1, &new_groups[i].1),
            None => true,
        };
        proof {
            assert(attrs_of(new_groups@[i as int].1@) == ng[i as int].1);
            if let Some(j) = found {
                assert(attrs_of(old_groups@[j as int].1@) == og[j as int].1);
            }
        }
        proof {
            assert(ng[i as int].0 == (*new_groups@[i as int].0)@);
        }
        if wanted {
            push_all(&mut add, &new_groups[i].1);
            assert(attrs_of(add@) =~= attrs_of(before) + attrs_of(new_groups@[i as int].1@));
            assert(attrs_of(add@) =~= added_attrs(og, ng, i + 1));
        } else {
            assert(attrs_of(add@) =~= added_attrs(og, ng, i + 1));
        }
        i += 1;
    }
    let mut remove: Vec<&'a Attribute> = Vec::new();
    let mut k: usize = 0;
    while k < old_groups.len()
        invariant
            k <= old_groups@.len(),
            ng == groups_view(new_groups@),
            og == groups_view(old_groups@),
            attrs_of(remove@) == removed_attrs(og, ng, k as int),
        decreases old_groups@.len() - k,
    {
        let ghost before = remove@;
        proof {
            lemma_group_index_in_range(ng, og[k as int].0);
        }
        let found = find_group(&new_groups, old_groups[k].0);
        proof {
            assert(attrs_of(old_groups@[k as int].1@) == og[k as int].1);
        }
        proof {
            assert(og[k as int].0 == (*old_groups@[k as int].0)@);
        }
        if found.is_none() {
            push_all(&mut remove, &old_groups[k].1);
            assert(attrs_of(remove@) =~= attrs_of(before) + attrs_of(old_groups@[k as int].1@));
            assert(attrs_of(remove@) =~= removed_attrs(og, ng, k + 1));
        } else {
            assert(attrs_of(remove@) =~= removed_attrs(og, ng, k + 1));
        }
        k += 1;
    }
    let mut patches: Vec<Patch<'a>> = Vec::new();
    let ghost add_v = attrs_of(add@);
    let ghost remove_v = attrs_of(remove@);
    if add.len() > 0 {
        patches.push(Patch::add_attributes(&old_element.tag, copy_path(path), add));
    }
    if remove.len() > 0 {
        patches.push(Patch::remove_attributes(&old_element.tag, copy_path(path), remove));
    }
    assert(patches_view(patches@) =~= attribute_patches(*old_element, *new_element, path@));
    patches
}


/// returns true any attributes of this node attribute has key in it
fn is_keyed_node(node: &Node, key: &Att) -> (r: bool)
    ensures
        r == is_keyed(*node, (*key)@),
{
    match node {
        Node::Element(element) => {
            let mut i: usize = 0;
            while i < element.attrs.len()
                invariant
                    *node == Node::Element(*element),
                    i <= element.attrs@.len(),
                    forall|k: int| 0 <= k < i ==> element.attrs@[k].name@ != (*key)@,
                decreases element.attrs@.len() - i,
            {
                if str_eq(element.attrs[i].name, key) {
                    assert(element.attrs@[i as int].name@ == (*key)@);
                    assert(has_attr_named(element.attrs@, (*key)@));
                    return true;
                }
                i += 1;
            }
            false
        },
        _ => false,
    }
}

/// returns true if any of the children of this element has key in their attributes
fn is_any_children_keyed(element: &Element, key: &Att) -> (r: bool)
    ensures
        r == any_keyed(element.children@, (*key)@),
{
    let mut i: usize = 0;
    while i < element.children.len()
        invariant
            i <= element.children@.len(),
            forall|k: int| 0 <= k < i ==> !is_keyed(element.children@[k], (*key)@),
        decreases element.children@.len() - i,
    {
        if is_keyed_node(&element.children[i], key) {
            return true;
        }
        i += 1;
    }
    false
}

/// Whether two nodes are of the same variant.
fn is_same_variant(a: &Node, b: &Node) -> (r: bool)
    ensures
        r == same_variant(*a, *b),
{
    match (a, b) {
        (Node::Element(_), Node::Element(_)) => true,
        (Node::NodeList(_), Node::NodeList(_)) => true,
        (Node::Fragment(_), Node::Fragment(_)) => true,
        (Node::Leaf(_), Node::Leaf(_)) => true,
        _ => false,
    }
}

/// The key of a node, as the references to its values.
pub fn node_key<'a>(node: &'a Node, key: &Att) -> (r: Option<Vec<&'a Val>>)
    ensures
        opt_strs_view(r) == key_of(*node, (*key)@),
{
    let r = node.attribute_value(key);
    proof {
        if r is Some {
            let x = r->0;
            assert(strs_view(x@) =~= strings_view(x@.map_values(|s: &Val| *s)));
        }
    }
    r
}

/// Whether two nodes have the same key, both having none included.
pub fn same_key(a: &Node, b: &Node, key: &Att) -> (r: bool)
    ensures
        r == (key_of(*a, (*key)@) == key_of(*b, (*key)@)),
{
    let ka = node_key(a, key);
    let kb = node_key(b, key);
    opt_strs_eq(&ka, &kb)
}

/// Whether position `p` comes after the optional position `last`.
pub open spec fn after_position(last: Option<usize>, p: usize) -> bool {
    match last {
        Some(t) => p > t,
        None => true,
    }
}

/// `m` maps the position, counted from `lo`, of each node from `lo` to `hi`, excluded, that has
/// a key value to the characters of its key values.
pub open spec fn keys_by_position(
    m: Map<usize, Vec<&Val>>,
    nodes: Seq<Node>,
    lo: int,
    hi: int,
    key: Seq<char>,
) -> bool {
    &&& forall|p: usize| #[trigger] m.contains_key(p) <==> (p < hi - lo && key_of(nodes[lo + p], key) is Some)
    &&& forall|p: usize| #[trigger] m.contains_key(p) ==> Some(strs_view(m[p]@)) == key_of(nodes[lo + p], key)
}

/// The keys of a `BTreeMap` of positions are ordered as numbers.
pub(crate) proof fn lemma_position_keys_ordered()
    ensures
        vstd::laws_cmp::obeys_cmp::<usize>(),
{
    broadcast use vstd::laws_cmp::group_laws_cmp;

}

/// The ordered map from the position, counted from `lo`, of each node from `lo` to `hi`,
/// excluded, that has a key value, to its key values.
pub(crate) fn build_keys_by_position<'a>(nodes: &'a Vec<Node>, lo: usize, hi: usize, key: &Att) -> (m: BTreeMap<
    usize,
    Vec<&'a Val>,
>)
    requires
        lo <= hi <= nodes@.len(),
    ensures
        keys_by_position(m@, nodes@, lo as int, hi as int, (*key)@),
{
    let mut m: BTreeMap<usize, Vec<&'a Val>> = BTreeMap::new();
    let mut i: usize = 0;
    while i < hi - lo
        invariant
            lo <= hi <= nodes@.len(),
            i <= hi - lo,
            forall|p: usize| #[trigger] m@.contains_key(p) <==> (p < i && key_of(nodes@[lo + p], (*key)@) is Some),
            forall|p: usize| #[trigger] m@.contains_key(p) ==> Some(strs_view(m@[p]@)) == key_of(nodes@[lo + p], (*key)@),
        decreases hi - lo - i,
    {
        if let Some(values) = node_key(&nodes[lo + i], key) {
            proof {
                lemma_position_keys_ordered();
            }
            m.insert(i, values);
        }
        i += 1;
    }
    m
}

/// The first position of `m`, in increasing order and after `last`, whose entry holds the key
/// values `k`.
pub(crate) fn first_entry_with_key<'a>(
    m: &BTreeMap<usize, Vec<&'a Val>>,
    k: &Vec<&Val>,
    last: Option<usize>,
) -> (r: Option<usize>)
    ensures
        r matches Some(p) ==> {
            &&& m@.contains_key(p)
            &&& after_position(last, p)
            &&& strs_view(m@[p]@) == strs_view(k@)
            &&& forall|q: usize|
                q < p && #[trigger] m@.contains_key(q) && after_position(last, q) ==> strs_view(m@[q]@)
                    != strs_view(k@)
        },
        r is None ==> forall|q: usize|
            #[trigger] m@.contains_key(q) && after_position(last, q) ==> strs_view(m@[q]@) != strs_view(
                k@,
            ),
{
    broadcast use vstd::std_specs::btree::group_btree_axioms;

    proof {
        lemma_position_keys_ordered();
    }
    let ghost s = vstd::std_specs::btree::spec_btree_map_iter(m).remaining();
    let ghost kv = strs_view(k@);
    let mut found: Option<usize> = None;
    for entry in it: m.iter()
        invariant
            it.seq() == s,
            kv == strs_view(k@),
            found is None ==> forall|t: int|
                0 <= t < it.index() && after_position(last, *(#[trigger] s[t]).0) ==> strs_view((*s[t].1)@) != kv,
            found matches Some(p) ==> exists|t0: int|
                0 <= t0 < it.index() && *(#[trigger] s[t0]).0 == p && after_position(last, p) && strs_view(
                    (*s[t0].1)@,
                ) == kv && forall|t: int|
                    0 <= t < t0 && after_position(last, *(#[trigger] s[t]).0) ==> strs_view((*s[t].1)@) != kv,
    {
        let (position, values) = entry;
        let forward = match last {
            Some(l) => *position > l,
            None => true,
        };
        if found.is_none() && forward && strs_eq(values, k) {
            found = Some(*position);
        }
    }
    proof {
        vstd::std_specs::btree::axiom_spec_btree_map_iter(m);
        let ks = s.map_values(|e: (&usize, &Vec<&Val>)| *e.0);
        vstd::std_specs::btree::axiom_increasing_seq_meaning(ks);
        if let Some(p) = found {
            let t0 = choose|t0: int|
                0 <= t0 < s.len() && *(#[trigger] s[t0]).0 == p && after_position(last, p) && strs_view(
                    (*s[t0].1)@,
                ) == kv && forall|t: int|
                    0 <= t < t0 && after_position(last, *(#[trigger] s[t]).0) ==> strs_view((*s[t].1)@) != kv;
            assert forall|q: usize|
                q < p && #[trigger] m@.contains_key(q) && after_position(last, q) implies strs_view(m@[q]@)
                != kv by {
                assert(s.contains((&q, &m@[q])));
                let t1 = choose|t1: int| 0 <= t1 < s.len() && s[t1] == (&q, &m@[q]);
                assert(ks[t1] == q && ks[t0] == p);
                if t1 >= t0 {
                    if t1 > t0 {
                        assert(ks[t0].cmp_spec(&ks[t1]) is Less);
                    }
                    assert(false);
                }
            }
        } else {
            assert forall|q: usize| #[trigger] m@.contains_key(q) && after_position(last, q) implies strs_view(
                m@[q]@,
            ) != kv by {
                assert(s.contains((&q, &m@[q])));
                let t1 = choose|t1: int| 0 <= t1 < s.len() && s[t1] == (&q, &m@[q]);
            }
        }
    }
    found
}

/// Whether the old node is replaced rather than patched.
fn should_replace_nodes<Rep: Fn(&Node, &Node) -> bool>(
    old_node: &Node,
    new_node: &Node,
    key: &Att,
    rep: &Rep,
) -> (r: bool)
    requires
        well_behaved(*rep),
    ensures
        r == should_replace(*old_node, *new_node, (*key)@, decision(*rep)),
{
    // replace if they have different enum variants
    if !is_same_variant(old_node, new_node) {
        return true;
    }
    // handle explicit replace if the Rep fn evaluates to true

    let replace = rep(old_node, new_node);
    proof {
        lemma_decision(*rep, old_node, new_node, replace);
    }
    if replace {
        return true;
    }
    // replace if the old key does not match the new key
    let old_key = node_key(old_node, key);
    let new_key = node_key(new_node, key);
    if old_key.is_some() && new_key.is_some() {
        if !opt_strs_eq(&old_key, &new_key) {
            return true;
        }
    }
    // replace if they have different element tag
    match (old_node, new_node) {
        (Node::Element(old_element), Node::Element(new_element)) => {
            !str_eq(old_element.tag, new_element.tag)
        },
        _ => false,
    }
}

/// The patches that turn `old_node` into `new_node`, the nodes being at `path`, or `None` where
/// diffing them panics.
pub(crate) fn try_diff_recursive<'a, Skip: Fn(&Node, &Node) -> bool, Rep: Fn(&Node, &Node) -> bool>(
    old_node: &'a Node,
    new_node: &'a Node,
    path: &TreePath,
    key: &Att,
    skip: &Skip,
    rep: &Rep,
) -> (r: Option<Vec<Patch<'a>>>)
    requires
        well_behaved(*skip),
        well_behaved(*rep),
    ensures
        ({
            let d = spec_diff(*old_node, *new_node, path@, (*key)@, decision(*skip), decision(*rep));
            &&& r is Some <==> d is Some
            &&& r matches Some(v) ==> patches_view(v@) == d->0
        }),
    decreases old_node, 2nat,
{
    // skip diffing if the function evaluates to true
    let skipped = skip(old_node, new_node);
    proof {
        lemma_decision(*skip, old_node, new_node, skipped);
    }
    if skipped {
        let patches: Vec<Patch<'a>> = Vec::new();
        assert(patches_view(patches@) =~= Seq::<PatchModel>::empty());
        return Some(patches);
    }
    // replace node and return early

    if should_replace_nodes(old_node, new_node, key, rep) {
        let mut patches = Vec::new();
        patches.push(Patch::replace_node(old_node.tag(), copy_path(path), new_node));
        assert(patches_view(patches@) =~= seq![replace_patch(*old_node, *new_node, path@)]);
        return Some(patches);
    }
    match (old_node, new_node) {
        (Node::Leaf(old_leaf), Node::Leaf(new_leaf)) => {
            let mut patches = Vec::new();
            if !old_leaf.eq(new_leaf) {
                patches.push(Patch::replace_node(old_node.tag(), copy_path(path), new_node));
                assert(patches_view(patches@) =~= seq![replace_patch(*old_node, *new_node, path@)]);
            } else {
                assert(patches_view(patches@) =~= Seq::<PatchModel>::empty());
            }
            Some(patches)
        },
        // We're comparing two element nodes
        (Node::Element(old_element), Node::Element(new_element)) => {
            let diff_as_keyed = is_any_children_keyed(old_element, key) || is_any_children_keyed(
                new_element,
                key,
            );
            if diff_as_keyed {
                let mut patches = create_attribute_patches(old_element, new_element, path);
                let ghost first = patches@;
                let mut more = match lis_diff_core(old_element, new_element, key, path, skip, rep) {
                    Some(v) => v,
                    None => {
                        return None;
                    },
                };
                let ghost second = more@;
                patches.append(&mut more);
                proof {
                    lemma_patches_view_add(first, second);
                }
                Some(patches)
            } else {
                diff_non_keyed_elements(old_element, new_element, key, path, skip, rep)
            }
        },
        // node lists must have been unrolled when their element was made
        _ => None,
    }
}

/// The patches that turn `old_node` into `new_node`, the nodes being at `path`.
pub(crate) fn diff_recursive<'a, Skip: Fn(&Node, &Node) -> bool, Rep: Fn(&Node, &Node) -> bool>(
    old_node: &'a Node,
    new_node: &'a Node,
    path: &TreePath,
    key: &Att,
    skip: &Skip,
    rep: &Rep,
) -> (r: Vec<Patch<'a>>)
    requires
        well_behaved(*skip),
        well_behaved(*rep),
        spec_diff(*old_node, *new_node, path@, (*key)@, decision(*skip), decision(*rep)) is Some,
    ensures
        patches_view(r@) == spec_diff(
            *old_node,
            *new_node,
            path@,
            (*key)@,
            decision(*skip),
            decision(*rep),
        )->0,
{
    try_diff_recursive(old_node, new_node, path, key, skip, rep).unwrap()
}

/// In diffing non_keyed elements, we reuse existing DOM elements as much as possible: the
/// attributes are patched, the children at the same positions are diffed, the excess new
/// children are appended and the excess old children are removed.
fn diff_non_keyed_elements<'a, Skip: Fn(&Node, &Node) -> bool, Rep: Fn(&Node, &Node) -> bool>(
    old_element: &'a Element,
    new_element: &'a Element,
    key: &Att,
    path: &TreePath,
    skip: &Skip,
    rep: &Rep,
) -> (r: Option<Vec<Patch<'a>>>)
    requires
        well_behaved(*skip),
        well_behaved(*rep),
    ensures
        ({
            let d = children_diff(
                old_element.tag,
                old_element.children@,
                new_element.children@,
                path@,
                (*key)@,
                decision(*skip),
                decision(*rep),
            );
            &&& r is Some <==> d is Some
            &&& r matches Some(v) ==> patches_view(v@) == attribute_patches(
                *old_element,
                *new_element,
                path@,
            ) + d->0
        }),
    decreases old_element, 1nat,
{
    let mut patches = create_attribute_patches(old_element, new_element, path);
    let ghost first = patches@;
    let mut more_patches = match diff_non_keyed_children(
        &old_element.tag,
        &old_element.children,
        &new_element.children,
        key,
        path,
        skip,
        rep,
    ) {
        Some(v) => v,
        None => {
            return None;
        },
    };
    let ghost second = more_patches@;
    patches.append(&mut more_patches);
    proof {
        lemma_patches_view_add(first, second);
    }
    Some(patches)
}

/// The diff of non keyed children.
fn diff_non_keyed_children<'a, Skip: Fn(&Node, &Node) -> bool, Rep: Fn(&Node, &Node) -> bool>(
    old_element_tag: &'a Tag,
    old_children: &'a Vec<Node>,
    new_children: &'a Vec<Node>,
    key: &Att,
    path: &TreePath,
    skip: &Skip,
    rep: &Rep,
) -> (r: Option<Vec<Patch<'a>>>)
    requires
        well_behaved(*skip),
        well_behaved(*rep),
    ensures
        ({
            let d = children_diff(
                *old_element_tag,
                old_children@,
                new_children@,
                path@,
                (*key)@,
                decision(*skip),
                decision(*rep),
            );
            &&& r is Some <==> d is Some
            &&& r matches Some(v) ==> patches_view(v@) == d->0
        }),
    decreases old_children, 0nat,
{
    let ghost sk = decision(*skip);
    let ghost rp = decision(*rep);
    let mut patches: Vec<Patch<'a>> = Vec::new();
    let old_child_count = old_children.len();
    let new_child_count = new_children.len();
    let min_count = if old_child_count < new_child_count {
        old_child_count
    } else {
        new_child_count
    };
    let mut index: usize = 0;
    while index < min_count
        invariant
            well_behaved(*skip),
            well_behaved(*rep),
            sk == decision(*skip),
            rp == decision(*rep),
            index <= min_count,
            min_count == (if old_children@.len() < new_children@.len() {
                old_children@.len()
            } else {
                new_children@.len()
            }),
            pairs_diff(old_children@, new_children@, path@, (*key)@, sk, rp, index as int) is Some,
            patches_view(patches@) == pairs_diff(
                old_children@,
                new_children@,
                path@,
                (*key)@,
                sk,
                rp,
                index as int,
            )->0,
        decreases min_count - index,
    {
        let child_path = path.traverse(index);
        let ghost before = patches@;
        let mut more_patches = match try_diff_recursive(
            &old_children[index],
            &new_children[index],
            &child_path,
            key,
            skip,
            rep,
        ) {
            Some(v) => v,
            None => {
                proof {
                    if pairs_diff(old_children@, new_children@, path@, (*key)@, sk, rp, min_count as int) is Some {
                        lemma_pairs_diff_prefix(
                            old_children@,
                            new_children@,
                            path@,
                            (*key)@,
                            sk,
                            rp,
                            index + 1,
                            min_count as int,
                        );
                    }
                }
                return None;
            },
        };
        let ghost more = more_patches@;
        patches.append(&mut more_patches);
        proof {
            lemma_patches_view_add(before, more);
        }
        index += 1;
    }
    // If there are more new child than old_node child, we make a patch to append the excess element
    // starting from old_child_count to the last item of the new_elements

    let ghost pairs = patches@;
    if new_child_count > old_child_count {
        patches.push(
            Patch::append_children(
                old_element_tag,
                copy_path(path),
                node_refs(new_children, old_child_count, new_child_count),
            ),
        );
        proof {
            assert(new_children@.subrange(old_child_count as int, new_child_count as int)
                =~= new_children@.skip(old_child_count as int));
        }
    }
    let ghost appended = patches@;
    if new_child_count < old_child_count {
        let mut i: usize = new_child_count;
        while i < old_child_count
            invariant
                new_child_count <= i <= old_child_count,
                old_child_count == old_children@.len(),
                patches_view(patches@) == patches_view(appended) + removes_range(
                    old_children@,
                    path@,
                    new_child_count as int,
                    i as int,
                ),
            decreases old_child_count - i,
        {
            let ghost before = patches@;
            patches.push(Patch::remove_node(old_children[i].tag(), path.traverse(i)));
            proof {
                lemma_removes_range_push(old_children@, path@, new_child_count as int, i as int);
                assert(patches_view(patches@) =~= patches_view(before).push(
                    remove_patch(old_children@[i as int], path@.push(i)),
                ));
            }
            assert(patches_view(patches@) =~= patches_view(appended) + removes_range(
                old_children@,
                path@,
                new_child_count as int,
                i + 1,
            ));
            i += 1;
        }
    }
    assert(patches_view(patches@) =~= children_diff(
        *old_element_tag,
        old_children@,
        new_children@,
        path@,
        (*key)@,
        sk,
        rp,
    )->0);
    Some(patches)
}


/// Return the patches needed for `old_node` to have the same DOM as `new_node`
///
/// # Arguments
/// * old_node - the old virtual dom node
/// * new_node - the new virtual dom node
/// * key - the literal name of key attribute, ie: "key"
pub fn diff_with_key<'a>(old_node: &'a Node, new_node: &'a Node, key: &Att) -> (r: Vec<Patch<'a>>)
    requires
        spec_diff(*old_node, *new_node, Seq::empty(), (*key)@, never(), never()) is Some,
    ensures
        patches_view(r@) == spec_diff(
            *old_node,
            *new_node,
            Seq::empty(),
            (*key)@,
            never(),
            never(),
        )->0,
{
    try_diff_with_key(old_node, new_node, key).unwrap()
}

/// The patches of `diff_with_key`, or `None` on the trees on which it panics.
pub fn try_diff_with_key<'a>(old_node: &'a Node, new_node: &'a Node, key: &Att) -> (r: Option<
    Vec<Patch<'a>>,
>)
    ensures
        ({
            let d = spec_diff(*old_node, *new_node, Seq::empty(), (*key)@, never(), never());
            &&& r is Some <==> d is Some
            &&& r matches Some(v) ==> patches_view(v@) == d->0
        }),
{
    let skip = |_old: &Node, _new: &Node| -> (r: bool)
        ensures
            !r,
        { false };
    let rep = |_old: &Node, _new: &Node| -> (r: bool)
        ensures
            !r,
        { false };
    assert(decision(skip) =~= never());
    assert(decision(rep) =~= never());
    let root = TreePath::root();
    try_diff_recursive(old_node, new_node, &root, key, &skip, &rep)
}

/// calculate the difference of 2 nodes
/// if the skip function evaluates to true, then diffing of
/// the node and all of it's descendant will be skipped entirely and then proceed to the next node.
///
/// The Skip fn is passed to check whether the diffing of the old and new element should be
/// skipped, and assumed no changes. This is for optimization where the developer is sure that
/// the dom tree hasn't change.
///
/// Rep fn stands for replace function which decides if the new element should
/// just replace the old element without diffing
pub fn diff_with_functions<
    'a,
    Skip: Fn(&Node, &Node) -> bool,
    Rep: Fn(&Node, &Node) -> bool,
>(old_node: &'a Node, new_node: &'a Node, key: &Att, skip: &Skip, rep: &Rep) -> (r: Vec<Patch<'a>>)
    requires
        well_behaved(*skip),
        well_behaved(*rep),
        spec_diff(*old_node, *new_node, Seq::empty(), (*key)@, decision(*skip), decision(*rep)) is Some,
    ensures
        patches_view(r@) == spec_diff(
            *old_node,
            *new_node,
            Seq::empty(),
            (*key)@,
            decision(*skip),
            decision(*rep),
        )->0,
{
    try_diff_with_functions(old_node, new_node, key, skip, rep).unwrap()
}

/// The patches of `diff_with_functions`, or `None` on the trees on which it panics.
pub fn try_diff_with_functions<
    'a,
    Skip: Fn(&Node, &Node) -> bool,
    Rep: Fn(&Node, &Node) -> bool,
>(old_node: &'a Node, new_node: &'a Node, key: &Att, skip: &Skip, rep: &Rep) -> (r: Option<
    Vec<Patch<'a>>,
>)
    requires
        well_behaved(*skip),
        well_behaved(*rep),
    ensures
        ({
            let d = spec_diff(
                *old_node,
                *new_node,
                Seq::empty(),
                (*key)@,
                decision(*skip),
                decision(*rep),
            );
            &&& r is Some <==> d is Some
            &&& r matches Some(v) ==> patches_view(v@) == d->0
        }),
{
    let root = TreePath::root();
    try_diff_recursive(old_node, new_node, &root, key, skip, rep)
}

} // verus!
