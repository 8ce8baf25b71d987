//! The diff of two trees that differ only in the order of the attributes of some elements,
//! where the names of the attributes of each such element are distinct.
use super::{
    added_attrs, any_keyed, attribute_patches, children_diff, diff_elements, key_of, never,
    pairs_diff, removed_attrs, removes_range, should_replace, spec_diff, values_view,
};
use super::laws::lemma_attribute_patches_same;
use crate::diff_lis::{ends_offsets, ends_patches, lead, lis_diff};
use crate::node::attribute::{
    attr_vals, group_by_name, group_index, has_attr_named, lemma_group_index_in_range, Attribute,
};
use crate::node::{node_attr_vals, Element, Node};
use crate::patch::PatchModel;
use vstd::prelude::*;

verus! {

/// The names of the attributes are pairwise distinct.
pub open spec fn distinct_names(s: Seq<Attribute>) -> bool {
    forall|i: int, j: int|
        0 <= i < j < s.len() ==> (#[trigger] s[i]).name@ != (#[trigger] s[j]).name@
}

/// `b` holds the attributes of `a`, each once, maybe in another order, the names of the
/// attributes of each being distinct.
pub open spec fn reordered(a: Seq<Attribute>, b: Seq<Attribute>) -> bool {
    &&& a.len() == b.len()
    &&& distinct_names(a)
    &&& distinct_names(b)
    &&& forall|i: int|
        #![trigger b[i]]
        0 <= i < b.len() ==> exists|j: int| #![trigger a[j]] 0 <= j < a.len() && a[j] == b[i]
    &&& forall|j: int|
        #![trigger a[j]]
        0 <= j < a.len() ==> exists|i: int| #![trigger b[i]] 0 <= i < b.len() && a[j] == b[i]
}

/// The attributes of two elements are the same, or the same but for their order, the names of
/// each element's attributes being distinct.
pub open spec fn attrs_alike(a: Seq<Attribute>, b: Seq<Attribute>) -> bool {
    a == b || reordered(a, b)
}

/// Two trees of elements and leaves that are equal but for the order of the attributes of some
/// of their elements, the names of the attributes of each of those being distinct.
pub open spec fn same_but_attr_order(a: Node, b: Node) -> bool
    decreases a,
{
    match (a, b) {
        (Node::Element(x), Node::Element(y)) => {
            &&& x.namespace == y.namespace
            &&& x.tag == y.tag
            &&& x.self_closing == y.self_closing
            &&& attrs_alike(x.attrs@, y.attrs@)
            &&& all_same_but_attr_order(x.children@, y.children@)
        },
        (Node::Leaf(p), Node::Leaf(q)) => p == q,
        _ => false,
    }
}

/// Two sequences of trees of the same length, equal pairwise but for the order of attributes.
pub open spec fn all_same_but_attr_order(xs: Seq<Node>, ys: Seq<Node>) -> bool
    decreases xs,
{
    if xs.len() != ys.len() {
        false
    } else if xs.len() == 0 {
        true
    } else {
        all_same_but_attr_order(xs.drop_last(), ys.drop_last()) && same_but_attr_order(
            xs.last(),
            ys.last(),
        )
    }
}

/// Each pair of two sequences of trees equal but for the order of attributes is such a pair.
proof fn lemma_all_same_index(xs: Seq<Node>, ys: Seq<Node>, i: int)
    requires
        all_same_but_attr_order(xs, ys),
        0 <= i < xs.len(),
    ensures
        xs.len() == ys.len(),
        same_but_attr_order(xs[i], ys[i]),
    decreases xs.len(),
{
    if i < xs.len() - 1 {
        lemma_all_same_index(xs.drop_last(), ys.drop_last(), i);
    }
}

/// The attributes of distinct names, grouped by name, make one group each, in their order.
pub(crate) proof fn lemma_group_distinct(s: Seq<Attribute>)
    requires
        distinct_names(s),
    ensures
        group_by_name(s) == Seq::new(s.len(), |i: int| (s[i].name@, seq![s[i]])),
    decreases s.len(),
{
    if s.len() > 0 {
        let p = s.drop_last();
        assert(distinct_names(p)) by {
            assert forall|i: int, j: int| 0 <= i < j < p.len() implies (#[trigger] p[i]).name@
                != (#[trigger] p[j]).name@ by {
                assert(p[i] == s[i] && p[j] == s[j]);
            }
        }
        lemma_group_distinct(p);
        let g = group_by_name(p);
        lemma_group_index_in_range(g, s.last().name@);
        if let Some(i) = group_index(g, s.last().name@) {
            assert(s[i].name@ == s[s.len() - 1].name@);
        }
        assert(group_by_name(s) =~= Seq::new(s.len(), |i: int| (s[i].name@, seq![s[i]])));
    }
}

/// A name that some group has is found.
pub(crate) proof fn lemma_group_index_found(g: Seq<(Seq<char>, Seq<Attribute>)>, name: Seq<char>, k: int)
    requires
        0 <= k < g.len(),
        g[k].0 == name,
    ensures
        group_index(g, name) is Some,
    decreases g.len(),
{
    if k < g.len() - 1 {
        lemma_group_index_found(g.drop_last(), name, k);
    }
}

/// The values of the attributes named `name`, among attributes of distinct names: those of
/// the one attribute of that name, if any.
proof fn lemma_vals_distinct(s: Seq<Attribute>, name: Seq<char>)
    requires
        distinct_names(s),
    ensures
        forall|k: int| 0 <= k < s.len() && (#[trigger] s[k]).name@ == name ==> attr_vals(s, name) == s[k].value@,
        (forall|k: int| 0 <= k < s.len() ==> (#[trigger] s[k]).name@ != name) ==> attr_vals(s, name)
            == Seq::<String>::empty(),
    decreases s.len(),
{
    if s.len() > 0 {
        let p = s.drop_last();
        assert(distinct_names(p)) by {
            assert forall|i: int, j: int| 0 <= i < j < p.len() implies (#[trigger] p[i]).name@
                != (#[trigger] p[j]).name@ by {
                assert(p[i] == s[i] && p[j] == s[j]);
            }
        }
        lemma_vals_distinct(p, name);
        if s.last().name@ == name {
            assert forall|k: int| 0 <= k < p.len() implies (#[trigger] p[k]).name@ != name by {
                assert(p[k] == s[k]);
            }
            assert(attr_vals(p, name) =~= Seq::<String>::empty());
            assert(attr_vals(s, name) =~= s.last().value@);
        } else {
            assert(attr_vals(s, name) =~= attr_vals(p, name));
            assert forall|k: int| 0 <= k < s.len() && (#[trigger] s[k]).name@ == name implies attr_vals(
                s,
                name,
            ) == s[k].value@ by {
                assert(k < p.len());
                assert(p[k] == s[k]);
            }
            if forall|k: int| 0 <= k < s.len() ==> (#[trigger] s[k]).name@ != name {
                assert forall|k: int| 0 <= k < p.len() implies (#[trigger] p[k]).name@ != name by {
                    assert(p[k] == s[k]);
                }
            }
        }
    }
}

/// Reordered attributes have the same values for any name, and the same names.
proof fn lemma_vals_reordered(a: Seq<Attribute>, b: Seq<Attribute>, name: Seq<char>)
    requires
        reordered(a, b),
    ensures
        attr_vals(a, name) == attr_vals(b, name),
        has_attr_named(a, name) == has_attr_named(b, name),
{
    lemma_vals_distinct(a, name);
    lemma_vals_distinct(b, name);
    if exists|k: int| 0 <= k < a.len() && (#[trigger] a[k]).name@ == name {
        let k = choose|k: int| 0 <= k < a.len() && (#[trigger] a[k]).name@ == name;
        let i = choose|i: int| 0 <= i < b.len() && a[k] == #[trigger] b[i];
        assert(b[i].name@ == name);
        assert(has_attr_named(a, name));
        assert(has_attr_named(b, name));
    } else {
        assert forall|i: int| 0 <= i < b.len() implies (#[trigger] b[i]).name@ != name by {
            let j = choose|j: int| 0 <= j < a.len() && #[trigger] a[j] == b[i];
            assert(a[j].name@ != name);
        }
        if has_attr_named(b, name) {
            let i = choose|i: int| 0 <= i < b.len() && (#[trigger] b[i]).name@ == name;
            assert(false);
        }
    }
}

/// The groups of `b` from 0 to `k` add nothing to the groups of `a`.
proof fn lemma_added_reordered(a: Seq<Attribute>, b: Seq<Attribute>, k: int)
    requires
        reordered(a, b),
        0 <= k <= b.len(),
    ensures
        added_attrs(group_by_name(a), group_by_name(b), k) == Seq::<Attribute>::empty(),
    decreases k,
{
    if k > 0 {
        lemma_added_reordered(a, b, k - 1);
        lemma_group_distinct(a);
        lemma_group_distinct(b);
        let og = group_by_name(a);
        let ng = group_by_name(b);
        let name = b[k - 1].name@;
        assert(ng[k - 1] == (name, seq![b[k - 1]]));
        let j = choose|j: int| 0 <= j < a.len() && #[trigger] a[j] == b[k - 1];
        assert(og[j] == (a[j].name@, seq![a[j]]));
        lemma_group_index_found(og, name, j);
        lemma_group_index_in_range(og, name);
        let jj = group_index(og, name)->0;
        assert(og[jj] == (a[jj].name@, seq![a[jj]]));
        assert(jj == j) by {
            if jj < j {
                assert(a[jj].name@ != a[j].name@);
            } else if j < jj {
                assert(a[j].name@ != a[jj].name@);
            }
        }
        assert(values_view(og[jj].1) =~= values_view(ng[k - 1].1));
        assert(added_attrs(og, ng, k) =~= Seq::<Attribute>::empty());
    }
}

/// The groups of `a` from 0 to `k` are all in the groups of `b`.
proof fn lemma_removed_reordered(a: Seq<Attribute>, b: Seq<Attribute>, k: int)
    requires
        reordered(a, b),
        0 <= k <= a.len(),
    ensures
        removed_attrs(group_by_name(a), group_by_name(b), k) == Seq::<Attribute>::empty(),
    decreases k,
{
    if k > 0 {
        lemma_removed_reordered(a, b, k - 1);
        lemma_group_distinct(a);
        lemma_group_distinct(b);
        let og = group_by_name(a);
        let ng = group_by_name(b);
        let name = a[k - 1].name@;
        assert(og[k - 1] == (name, seq![a[k - 1]]));
        let i = choose|i: int| 0 <= i < b.len() && a[k - 1] == #[trigger] b[i];
        assert(ng[i] == (b[i].name@, seq![b[i]]));
        lemma_group_index_found(ng, name, i);
        assert(removed_attrs(og, ng, k) =~= Seq::<Attribute>::empty());
    }
}

/// Elements whose attributes are reordered have no attribute patches.
proof fn lemma_attribute_patches_reordered(o: Element, n: Element, path: Seq<usize>)
    requires
        reordered(o.attrs@, n.attrs@),
    ensures
        attribute_patches(o, n, path) == Seq::<PatchModel>::empty(),
{
    lemma_group_distinct(o.attrs@);
    lemma_group_distinct(n.attrs@);
    lemma_added_reordered(o.attrs@, n.attrs@, n.attrs@.len() as int);
    lemma_removed_reordered(o.attrs@, n.attrs@, o.attrs@.len() as int);
    assert(attribute_patches(o, n, path) =~= Seq::<PatchModel>::empty());
}

/// Trees equal but for the order of attributes have the same key, and are keyed alike.
proof fn lemma_key_same(a: Node, b: Node, key: Seq<char>)
    requires
        same_but_attr_order(a, b),
    ensures
        key_of(a, key) == key_of(b, key),
        super::is_keyed(a, key) == super::is_keyed(b, key),
{
    match (a, b) {
        (Node::Element(x), Node::Element(y)) => {
            if x.attrs@ != y.attrs@ {
                lemma_vals_reordered(x.attrs@, y.attrs@, key);
            }
            assert(node_attr_vals(a, key) == node_attr_vals(b, key));
        },
        _ => {},
    }
}

/// All the pairs from position `i` on have the same key, so the leading pairs with the same
/// key are all of them.
proof fn lemma_lead_same(xs: Seq<Node>, ys: Seq<Node>, key: Seq<char>, i: int)
    requires
        all_same_but_attr_order(xs, ys),
        0 <= i <= xs.len(),
    ensures
        lead(xs, ys, key, i) == xs.len(),
    decreases xs.len() - i,
{
    if i < xs.len() {
        lemma_all_same_index(xs, ys, i);
        lemma_key_same(xs[i], ys[i], key);
        lemma_lead_same(xs, ys, key, i + 1);
    }
}

/// Diffing two trees that are equal but for the order of the attributes of some of their
/// elements, the names of the attributes of each of those being distinct, with neither skipping
/// nor forced replacing, gives no patch.
pub proof fn lemma_diff_reordered(old: Node, new: Node, path: Seq<usize>, key: Seq<char>)
    requires
        same_but_attr_order(old, new),
    ensures
        spec_diff(old, new, path, key, never(), never()) == Some(Seq::<PatchModel>::empty()),
    decreases old, 0nat,
{
    assert(!never()(old, new));
    lemma_key_same(old, new, key);
    assert(!should_replace(old, new, key, never()));
    match (old, new) {
        (Node::Element(x), Node::Element(y)) => {
            lemma_elements_reordered(x, y, path, key);
        },
        _ => {},
    }
}

/// Diffing two elements equal but maybe for the order of their attributes gives no patch.
proof fn lemma_elements_reordered(x: Element, y: Element, path: Seq<usize>, key: Seq<char>)
    requires
        attrs_alike(x.attrs@, y.attrs@),
        all_same_but_attr_order(x.children@, y.children@),
    ensures
        diff_elements(x, y, path, key, never(), never()) == Some(Seq::<PatchModel>::empty()),
    decreases x, 0nat,
{
    let ghost ch = x.children;
    assert(decreases_to!(x => ch));
    assert(decreases_to!(ch => ch@));
    let xs = x.children@;
    let ys = y.children@;
    let len = xs.len() as int;
    let e = Seq::<PatchModel>::empty();
    if x.attrs@ == y.attrs@ {
        lemma_attribute_patches_same(x, y, path);
    } else {
        lemma_attribute_patches_reordered(x, y, path);
    }
    lemma_pairs_reordered(xs, ys, path, key, len);
    assert(xs.len() == ys.len()) by {
        if len > 0 {
            lemma_all_same_index(xs, ys, 0);
        } else {
            assert(all_same_but_attr_order(xs, ys));
        }
    }
    assert(e + e =~= e);
    if any_keyed(xs, key) || any_keyed(ys, key) {
        lemma_lead_same(xs, ys, key, 0);
        assert(ends_offsets(xs, ys, key) is None);
        assert(ends_patches(x.tag, xs, ys, path, key, never(), never()) == Some(e));
        assert(lis_diff(x.tag, xs, ys, path, key, never(), never()) == Some(e));
    } else {
        assert(removes_range(xs, path, len, len) =~= e);
        assert(children_diff(x.tag, xs, ys, path, key, never(), never()) == Some(e));
    }
}

/// The pairs of children equal but for the order of attributes give no patch.
proof fn lemma_pairs_reordered(xs: Seq<Node>, ys: Seq<Node>, path: Seq<usize>, key: Seq<char>, n: int)
    requires
        all_same_but_attr_order(xs, ys),
        0 <= n <= xs.len(),
    ensures
        pairs_diff(xs, ys, path, key, never(), never(), n) == Some(Seq::<PatchModel>::empty()),
    decreases xs, if n > 0 { n as nat } else { 0 },
{
    if n > 0 {
        lemma_pairs_reordered(xs, ys, path, key, n - 1);
        lemma_all_same_index(xs, ys, n - 1);
        lemma_diff_reordered(xs[n - 1], ys[n - 1], path.push((n - 1) as usize), key);
        assert(Seq::<PatchModel>::empty() + Seq::<PatchModel>::empty() =~= Seq::<
            PatchModel,
        >::empty());
    }
}

} // verus!
