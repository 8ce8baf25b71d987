//! What holds of every diff: when it is defined, and what the diff of a tree with itself is.
use super::{
    added_attrs, after, any_keyed, attribute_patches, children_diff, diff_elements,
    first_match_from, has_match, is_fwd, key_of, keyed_diff, keyed_loop, keyed_step,
    keyed_tail, matched_old, never, pairs_diff, removed_attrs, removes_range, replace_patch,
    should_replace, spec_diff,
};
use crate::diff_lis::lemma_lis_diff_self;
use crate::node::attribute::{
    group_by_name, group_index, lemma_group_by_name_distinct, Attribute, Tag,
};
use crate::node::{Element, Node};
use crate::patch::PatchModel;
use vstd::prelude::*;

verus! {

/// A tree with neither node lists nor fragments: only elements and leaves.
pub open spec fn plain(n: Node) -> bool
    decreases n,
{
    match n {
        Node::Element(e) => all_plain(e.children@),
        Node::Leaf(_) => true,
        _ => false,
    }
}

/// Every tree of the sequence is plain.
pub open spec fn all_plain(s: Seq<Node>) -> bool
    decreases s,
{
    if s.len() == 0 {
        true
    } else {
        all_plain(s.drop_last()) && plain(s.last())
    }
}

/// Each tree of a sequence of plain trees is plain.
pub proof fn lemma_all_plain_index(s: Seq<Node>, i: int)
    requires
        all_plain(s),
        0 <= i < s.len(),
    ensures
        plain(s[i]),
    decreases s.len(),
{
    if i < s.len() - 1 {
        lemma_all_plain_index(s.drop_last(), i);
    }
}

/// The old position that a keyed search finds is in range.
pub(crate) proof fn lemma_first_match_in_range(
    olds: Seq<Node>,
    key: Seq<char>,
    nk: Seq<Seq<char>>,
    last_old: Option<int>,
    i: int,
)
    ensures
        first_match_from(olds, key, nk, last_old, i) matches Some(k) ==> 0 <= k < olds.len(),
    decreases olds.len() - i,
{
    if 0 <= i < olds.len() {
        lemma_first_match_in_range(olds, key, nk, last_old, i + 1);
    }
}

/// A plain tree in which no element has a child with a key value.
pub open spec fn keyless(n: Node, key: Seq<char>) -> bool
    decreases n,
{
    match n {
        Node::Element(e) => !any_keyed(e.children@, key) && all_keyless(e.children@, key),
        Node::Leaf(_) => true,
        _ => false,
    }
}

/// Every tree of the sequence is keyless.
pub open spec fn all_keyless(s: Seq<Node>, key: Seq<char>) -> bool
    decreases s,
{
    if s.len() == 0 {
        true
    } else {
        all_keyless(s.drop_last(), key) && keyless(s.last(), key)
    }
}

/// Each tree of a sequence of keyless trees is keyless.
pub proof fn lemma_all_keyless_index(s: Seq<Node>, key: Seq<char>, i: int)
    requires
        all_keyless(s, key),
        0 <= i < s.len(),
    ensures
        keyless(s[i], key),
    decreases s.len(),
{
    if i < s.len() - 1 {
        lemma_all_keyless_index(s.drop_last(), key, i);
    }
}

/// Diffing two keyless trees never reaches a case where diffing panics.
pub proof fn lemma_diff_total(
    old: Node,
    new: Node,
    path: Seq<usize>,
    key: Seq<char>,
    sk: spec_fn(Node, Node) -> bool,
    rp: spec_fn(Node, Node) -> bool,
)
    requires
        keyless(old, key),
        keyless(new, key),
    ensures
        spec_diff(old, new, path, key, sk, rp) is Some,
    decreases old, 0nat,
{
    if !sk(old, new) && !should_replace(old, new, key, rp) {
        match (old, new) {
            (Node::Element(o), Node::Element(n)) => {
                lemma_elements_total(o, n, path, key, sk, rp);
            },
            _ => {},
        }
    }
}

/// Diffing two elements whose children are keyless and have no key is defined.
proof fn lemma_elements_total(
    o: Element,
    n: Element,
    path: Seq<usize>,
    key: Seq<char>,
    sk: spec_fn(Node, Node) -> bool,
    rp: spec_fn(Node, Node) -> bool,
)
    requires
        !any_keyed(o.children@, key),
        !any_keyed(n.children@, key),
        all_keyless(o.children@, key),
        all_keyless(n.children@, key),
    ensures
        diff_elements(o, n, path, key, sk, rp) is Some,
    decreases o, 0nat,
{
    let ghost ch = o.children;
    assert(decreases_to!(o => ch));
    assert(decreases_to!(ch => ch@));
    let m = if o.children@.len() < n.children@.len() {
        o.children@.len()
    } else {
        n.children@.len()
    };
    lemma_pairs_total(o.children@, n.children@, path, key, sk, rp, m as int);
}

/// The diffs of pairs of keyless children are defined.
proof fn lemma_pairs_total(
    olds: Seq<Node>,
    news: Seq<Node>,
    path: Seq<usize>,
    key: Seq<char>,
    sk: spec_fn(Node, Node) -> bool,
    rp: spec_fn(Node, Node) -> bool,
    n: int,
)
    requires
        all_keyless(olds, key),
        all_keyless(news, key),
    ensures
        pairs_diff(olds, news, path, key, sk, rp, n) is Some,
    decreases olds, if n > 0 { n as nat } else { 0 },
{
    if !(n <= 0 || n > olds.len() || n > news.len()) {
        lemma_pairs_total(olds, news, path, key, sk, rp, n - 1);
        lemma_all_keyless_index(olds, key, n - 1);
        lemma_all_keyless_index(news, key, n - 1);
        lemma_diff_total(olds[n - 1], news[n - 1], path.push((n - 1) as usize), key, sk, rp);
    }
}

/// The groups of a sequence of groups with distinct names add nothing to themselves.
proof fn lemma_added_self(g: Seq<(Seq<char>, Seq<Attribute>)>, n: int)
    requires
        0 <= n <= g.len(),
        forall|k: int| 0 <= k < g.len() ==> group_index(g, (#[trigger] g[k]).0) == Some(k),
    ensures
        added_attrs(g, g, n) == Seq::<Attribute>::empty(),
    decreases n,
{
    if n > 0 {
        lemma_added_self(g, n - 1);
        assert(group_index(g, g[n - 1].0) == Some(n - 1));
        assert(added_attrs(g, g, n) =~= Seq::<Attribute>::empty());
    }
}

/// The groups of a sequence of groups with distinct names remove nothing from themselves.
proof fn lemma_removed_self(g: Seq<(Seq<char>, Seq<Attribute>)>, n: int)
    requires
        0 <= n <= g.len(),
        forall|k: int| 0 <= k < g.len() ==> group_index(g, (#[trigger] g[k]).0) == Some(k),
    ensures
        removed_attrs(g, g, n) == Seq::<Attribute>::empty(),
    decreases n,
{
    if n > 0 {
        lemma_removed_self(g, n - 1);
        assert(group_index(g, g[n - 1].0) == Some(n - 1));
        assert(removed_attrs(g, g, n) =~= Seq::<Attribute>::empty());
    }
}

/// An element has no attribute patches against an element with the same attributes.
pub(crate) proof fn lemma_attribute_patches_same(o: Element, n: Element, path: Seq<usize>)
    requires
        o.attrs@ == n.attrs@,
    ensures
        attribute_patches(o, n, path) == Seq::<PatchModel>::empty(),
{
    let g = group_by_name(o.attrs@);
    lemma_group_by_name_distinct(o.attrs@);
    lemma_added_self(g, g.len() as int);
    lemma_removed_self(g, g.len() as int);
    assert(attribute_patches(o, n, path) =~= Seq::<PatchModel>::empty());
}

/// Diffing a plain tree with itself, with neither skipping nor forced replacing, gives no patch.
pub proof fn lemma_diff_self(n: Node, path: Seq<usize>, key: Seq<char>)
    requires
        plain(n),
    ensures
        spec_diff(n, n, path, key, never(), never()) == Some(Seq::<PatchModel>::empty()),
    decreases n, 0nat,
{
    assert(!never()(n, n));
    assert(!should_replace(n, n, key, never()));
    match n {
        Node::Element(o) => {
            lemma_elements_self(o, path, key);
        },
        _ => {},
    }
}

/// Diffing an element with plain children with itself gives no patch.
proof fn lemma_elements_self(o: Element, path: Seq<usize>, key: Seq<char>)
    requires
        all_plain(o.children@),
    ensures
        diff_elements(o, o, path, key, never(), never()) == Some(Seq::<PatchModel>::empty()),
    decreases o, 0nat,
{
    let ghost ch = o.children;
    assert(decreases_to!(o => ch));
    assert(decreases_to!(ch => ch@));
    let cs = o.children@;
    let len = cs.len() as int;
    if any_keyed(cs, key) {
        lemma_attribute_patches_same(o, o, path);
        lemma_lis_diff_self(o.tag, cs, path, key);
        assert(Seq::<PatchModel>::empty() + Seq::<PatchModel>::empty() =~= Seq::<
            PatchModel,
        >::empty());
    } else {
        lemma_attribute_patches_same(o, o, path);
        lemma_pairs_self(cs, path, key, len);
        assert(removes_range(cs, path, len, len) =~= Seq::<PatchModel>::empty());
        assert(children_diff(o.tag, cs, cs, path, key, never(), never()) == Some(
            Seq::<PatchModel>::empty() + Seq::<PatchModel>::empty(),
        ));
        assert(Seq::<PatchModel>::empty() + Seq::<PatchModel>::empty() =~= Seq::<
            PatchModel,
        >::empty());
    }
}

/// The pairs of plain children with themselves give no patch.
pub(crate) proof fn lemma_pairs_self(cs: Seq<Node>, path: Seq<usize>, key: Seq<char>, n: int)
    requires
        0 <= n <= cs.len(),
        all_plain(cs),
    ensures
        pairs_diff(cs, cs, path, key, never(), never(), n) == Some(Seq::<PatchModel>::empty()),
    decreases cs, if n > 0 { n as nat } else { 0 },
{
    if n > 0 {
        lemma_pairs_self(cs, path, key, n - 1);
        lemma_all_plain_index(cs, n - 1);
        lemma_diff_self(cs[n - 1], path.push((n - 1) as usize), key);
        assert(Seq::<PatchModel>::empty() + Seq::<PatchModel>::empty() =~= Seq::<
            PatchModel,
        >::empty());
    }
}

/// Every node of the sequence has a key value.
pub open spec fn all_have_key(s: Seq<Node>, key: Seq<char>) -> bool {
    forall|i: int| 0 <= i < s.len() ==> key_of(#[trigger] s[i], key) is Some
}

/// The last matched position, in the forward keyed matching of a sequence with itself, before
/// position `j`.
pub open spec fn prev(j: int) -> Option<int> {
    if j == 0 {
        None
    } else {
        Some(j - 1)
    }
}

/// Searching a sequence for the key of its own child at `j`, after the child before it, finds
/// that child.
proof fn lemma_first_match_self(
    cs: Seq<Node>,
    key: Seq<char>,
    nk: Seq<Seq<char>>,
    j: int,
    i: int,
)
    requires
        0 <= i <= j < cs.len(),
        key_of(cs[j], key) == Some(nk),
    ensures
        first_match_from(cs, key, nk, prev(j), i) == Some(j),
    decreases j - i,
{
    if i < j {
        assert(!is_fwd(prev(j), i));
        lemma_first_match_self(cs, key, nk, j, i + 1);
    }
}

/// The forward keyed matching of plain children that all have a key with themselves, from
/// position `j` on, matches each child with itself and gives no patch.
proof fn lemma_keyed_loop_self(cs: Seq<Node>, path: Seq<usize>, key: Seq<char>, j: int)
    requires
        0 <= j <= cs.len(),
        all_plain(cs),
        all_have_key(cs, key),
    ensures
        keyed_loop(cs, cs, path, key, never(), never(), j, prev(j), prev(j)) == Some(
            Seq::<PatchModel>::empty(),
        ),
    decreases cs.len() - j,
{
    let e = Seq::<PatchModel>::empty();
    if j == cs.len() {
        assert(removes_range(cs, path, after(prev(j)), cs.len() as int) =~= e);
        assert(cs.subrange(after(prev(j)), cs.len() as int).len() == 0);
        assert(keyed_tail(cs, cs, path, prev(j), prev(j)) =~= e);
    } else {
        let nk = key_of(cs[j], key)->0;
        lemma_first_match_self(cs, key, nk, j, 0);
        assert(matched_old(cs, cs, key, prev(j), j) == Some(j));
        lemma_all_plain_index(cs, j);
        lemma_diff_self(cs[j], path.push(j as usize), key);
        assert(removes_range(cs, path, after(prev(j)), j) =~= e);
        assert(cs.subrange(after(prev(j)), j).len() == 0);
        assert(e + (e + e) =~= e);
        assert(keyed_step(cs, cs, path, key, never(), never(), j, j, prev(j), prev(j)) == Some(e));
        lemma_keyed_loop_self(cs, path, key, j + 1);
        assert(prev(j + 1) == Some(j));
        assert(e + e =~= e);
    }
}

/// The forward keyed diff of plain children that all have a key with themselves, with neither
/// skipping nor forced replacing, gives no patch.
pub proof fn lemma_keyed_diff_self(tag: Tag, cs: Seq<Node>, path: Seq<usize>, key: Seq<char>)
    requires
        all_plain(cs),
        all_have_key(cs, key),
    ensures
        keyed_diff(tag, cs, cs, path, key, never(), never()) == Some(Seq::<PatchModel>::empty()),
{
    if cs.len() > 0 {
        assert(key_of(cs[0], key) is Some);
        assert(has_match(cs, cs, key));
        lemma_keyed_loop_self(cs, path, key, 0);
    } else {
        assert(removes_range(cs, path, 0, 0) =~= Seq::<PatchModel>::empty());
        assert(Seq::<PatchModel>::empty() + Seq::<PatchModel>::empty() =~= Seq::<PatchModel>::empty());
    }
}

/// When the skip decision holds of two trees, diffing them and all their descendants is skipped
/// entirely: no patch.
pub proof fn lemma_skip_gives_nothing(
    old: Node,
    new: Node,
    path: Seq<usize>,
    key: Seq<char>,
    sk: spec_fn(Node, Node) -> bool,
    rp: spec_fn(Node, Node) -> bool,
)
    requires
        sk(old, new),
    ensures
        spec_diff(old, new, path, key, sk, rp) == Some(Seq::<PatchModel>::empty()),
{
}

/// When the replace decision holds of two trees and the skip decision does not, the new tree
/// just replaces the old one, without diffing: one replacement patch.
pub proof fn lemma_rep_replaces(
    old: Node,
    new: Node,
    path: Seq<usize>,
    key: Seq<char>,
    sk: spec_fn(Node, Node) -> bool,
    rp: spec_fn(Node, Node) -> bool,
)
    requires
        !sk(old, new),
        rp(old, new),
    ensures
        spec_diff(old, new, path, key, sk, rp) == Some(seq![replace_patch(old, new, path)]),
{
}

} // verus!
