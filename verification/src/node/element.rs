//! The elements of a virtual dom.
use super::attribute::{attr_vals, Att, Attribute, Ns, Tag, Val};
use super::Node;
use crate::text::str_eq;
use vstd::prelude::*;

verus! {

/// Represents an element of the virtual node
/// An element has a tag, such as `div`, `a`, `input`, `img` in an html dom, or a widget name
/// in a native toolkit. An element can have an optional namespace, such as SVG in an html dom.
#[derive(Debug, PartialEq)]
pub struct Element {
    /// namespace of this element,
    /// svg elements requires namespace to render correcly in the browser
    pub namespace: Option<Ns>,
    /// the element tag, such as div, a, button
    pub tag: Tag,
    /// attributes for this element
    pub attrs: Vec<Attribute>,
    /// children elements of this element
    pub children: Vec<Node>,
    /// is the element has a self closing tag
    pub self_closing: bool,
}

/// A node list in a sequence of children gives way to its own nodes: the children once
/// unrolled, one level deep.
pub open spec fn unroll(children: Seq<Node>) -> Seq<Node>
    decreases children.len(),
{
    if children.len() == 0 {
        Seq::empty()
    } else {
        unroll(children.drop_last()) + match children.last() {
            Node::NodeList(list) => list@,
            other => seq![other],
        }
    }
}

/// The attributes without those named `name`.
pub open spec fn without_name(attrs: Seq<Attribute>, name: Seq<char>) -> Seq<Attribute>
    decreases attrs.len(),
{
    if attrs.len() == 0 {
        Seq::empty()
    } else {
        without_name(attrs.drop_last(), name) + if attrs.last().name@ == name {
            Seq::empty()
        } else {
            seq![attrs.last()]
        }
    }
}

/// Setting each new attribute in turn: the attributes of its name are removed and it goes last.
pub open spec fn set_all(cur: Seq<Attribute>, news: Seq<Attribute>) -> Seq<Attribute>
    decreases news.len(),
{
    if news.len() == 0 {
        cur
    } else {
        without_name(set_all(cur, news.drop_last()), news.last().name@).push(news.last())
    }
}

/// The last attribute of the sequence that is named `name`, if any.
pub open spec fn last_named(attrs: Seq<Attribute>, name: Seq<char>) -> Option<Attribute>
    decreases attrs.len(),
{
    if attrs.len() == 0 {
        None
    } else if attrs.last().name@ == name {
        Some(attrs.last())
    } else {
        last_named(attrs.drop_last(), name)
    }
}

/// Without the attributes named `n`, there are no values named `n`, and the values of any
/// other name are kept.
proof fn lemma_without_name_vals(attrs: Seq<Attribute>, n: Seq<char>, name: Seq<char>)
    ensures
        attr_vals(without_name(attrs, n), name) == if n == name {
            Seq::<Val>::empty()
        } else {
            attr_vals(attrs, name)
        },
    decreases attrs.len(),
{
    if attrs.len() > 0 {
        lemma_without_name_vals(attrs.drop_last(), n, name);
        let w = without_name(attrs.drop_last(), n);
        if attrs.last().name@ == n {
            assert(without_name(attrs, n) == w + Seq::<Attribute>::empty());
            assert(w + Seq::<Attribute>::empty() =~= w);
        } else {
            assert(without_name(attrs, n) == w + seq![attrs.last()]);
            assert(w + seq![attrs.last()] =~= w.push(attrs.last()));
            assert(w.push(attrs.last()).drop_last() =~= w);
        }
        assert(attr_vals(without_name(attrs, n), name) =~= if n == name {
            Seq::<Val>::empty()
        } else {
            attr_vals(attrs, name)
        });
    }
}

/// Setting attributes: the values of a name that is set are those of the last attribute of
/// that name that is set, and the values of any other name are kept.
pub proof fn lemma_set_then_read(cur: Seq<Attribute>, news: Seq<Attribute>, name: Seq<char>)
    ensures
        attr_vals(set_all(cur, news), name) == match last_named(news, name) {
            Some(a) => a.value@,
            None => attr_vals(cur, name),
        },
    decreases news.len(),
{
    if news.len() > 0 {
        let a = news.last();
        let w = without_name(set_all(cur, news.drop_last()), a.name@);
        lemma_set_then_read(cur, news.drop_last(), name);
        lemma_without_name_vals(set_all(cur, news.drop_last()), a.name@, name);
        assert(w.push(a).drop_last() =~= w);
        if a.name@ == name {
            assert(Seq::<Val>::empty() + a.value@ =~= a.value@);
        } else {
            assert(attr_vals(w, name) + Seq::<Val>::empty() =~= attr_vals(w, name));
        }
    }
}

/// The abstract value of an attribute: its namespace, its name and its values.
pub open spec fn attr_view(a: Attribute) -> (Option<Ns>, Att, Seq<Val>) {
    (a.namespace, a.name, a.value@)
}

/// The abstract values of a sequence of attributes.
pub open spec fn attrs_view(attrs: Seq<Attribute>) -> Seq<(Option<Ns>, Att, Seq<Val>)> {
    attrs.map_values(|a: Attribute| attr_view(a))
}

/// The position of the first attribute whose name is `name`, if any.
pub open spec fn view_index(attrs: Seq<(Option<Ns>, Att, Seq<Val>)>, name: Seq<char>) -> Option<
    int,
>
    decreases attrs.len(),
{
    if attrs.len() == 0 {
        None
    } else {
        match view_index(attrs.drop_last(), name) {
            Some(i) => Some(i),
            None => if attrs.last().1@ == name {
                Some(attrs.len() - 1)
            } else {
                None
            },
        }
    }
}

/// Merging each new attribute in turn: its values extend those of the first attribute of its
/// name, or it goes last when there is none.
pub open spec fn merge_all(cur: Seq<(Option<Ns>, Att, Seq<Val>)>, news: Seq<Attribute>) -> Seq<
    (Option<Ns>, Att, Seq<Val>),
>
    decreases news.len(),
{
    if news.len() == 0 {
        cur
    } else {
        let c = merge_all(cur, news.drop_last());
        let a = news.last();
        match view_index(c, a.name@) {
            Some(j) => c.update(j, (c[j].0, c[j].1, c[j].2 + a.value@)),
            None => c.push(attr_view(a)),
        }
    }
}

/// A found position is in range and names the attribute.
proof fn lemma_view_index_in_range(attrs: Seq<(Option<Ns>, Att, Seq<Val>)>, name: Seq<char>)
    ensures
        view_index(attrs, name) matches Some(i) ==> 0 <= i < attrs.len() && attrs[i].1@ == name,
    decreases attrs.len(),
{
    if attrs.len() > 0 {
        lemma_view_index_in_range(attrs.drop_last(), name);
    }
}

/// The values of all the abstract attributes named `name`, in their order.
pub open spec fn view_vals(attrs: Seq<(Option<Ns>, Att, Seq<Val>)>, name: Seq<char>) -> Seq<Val>
    decreases attrs.len(),
{
    if attrs.len() == 0 {
        Seq::empty()
    } else {
        view_vals(attrs.drop_last(), name) + if attrs.last().1@ == name {
            attrs.last().2
        } else {
            Seq::empty()
        }
    }
}

/// No two abstract attributes have the same name.
pub open spec fn names_distinct(attrs: Seq<(Option<Ns>, Att, Seq<Val>)>) -> bool {
    forall|i: int, j: int| 0 <= i < j < attrs.len() ==> (#[trigger] attrs[i]).1@ != (#[trigger] attrs[j]).1@
}

/// Without an attribute of the name, there are no values of the name.
proof fn lemma_view_vals_absent(attrs: Seq<(Option<Ns>, Att, Seq<Val>)>, name: Seq<char>)
    requires
        forall|k: int| 0 <= k < attrs.len() ==> (#[trigger] attrs[k]).1@ != name,
    ensures
        view_vals(attrs, name) == Seq::<Val>::empty(),
    decreases attrs.len(),
{
    if attrs.len() > 0 {
        lemma_view_vals_absent(attrs.drop_last(), name);
        assert(view_vals(attrs, name) =~= Seq::<Val>::empty());
    }
}

/// With distinct names, the values of a name are those of its one attribute.
proof fn lemma_view_vals_unique(attrs: Seq<(Option<Ns>, Att, Seq<Val>)>, j: int, name: Seq<char>)
    requires
        names_distinct(attrs),
        0 <= j < attrs.len(),
        attrs[j].1@ == name,
    ensures
        view_vals(attrs, name) == attrs[j].2,
    decreases attrs.len(),
{
    let d = attrs.drop_last();
    if j == attrs.len() - 1 {
        assert forall|k: int| 0 <= k < d.len() implies (#[trigger] d[k]).1@ != name by {
            assert(attrs[k].1@ != attrs[j].1@);
        }
        lemma_view_vals_absent(d, name);
        assert(Seq::<Val>::empty() + attrs[j].2 =~= attrs[j].2);
    } else {
        assert(attrs.last().1@ != attrs[j].1@);
        lemma_view_vals_unique(d, j, name);
        assert(view_vals(d, name) + Seq::<Val>::empty() =~= view_vals(d, name));
    }
}

/// Changing the values of an attribute of another name keeps the values of a name.
proof fn lemma_view_vals_other(
    attrs: Seq<(Option<Ns>, Att, Seq<Val>)>,
    j: int,
    e: (Option<Ns>, Att, Seq<Val>),
    name: Seq<char>,
)
    requires
        0 <= j < attrs.len(),
        attrs[j].1@ != name,
        e.1@ != name,
    ensures
        view_vals(attrs.update(j, e), name) == view_vals(attrs, name),
    decreases attrs.len(),
{
    let u = attrs.update(j, e);
    if j < attrs.len() - 1 {
        assert(u.drop_last() =~= attrs.drop_last().update(j, e));
        lemma_view_vals_other(attrs.drop_last(), j, e, name);
    } else {
        assert(u.drop_last() =~= attrs.drop_last());
    }
}

/// A name that is not found is the name of no attribute.
proof fn lemma_view_index_none(attrs: Seq<(Option<Ns>, Att, Seq<Val>)>, name: Seq<char>)
    requires
        view_index(attrs, name) is None,
    ensures
        forall|k: int| 0 <= k < attrs.len() ==> (#[trigger] attrs[k]).1@ != name,
    decreases attrs.len(),
{
    if attrs.len() > 0 {
        lemma_view_index_none(attrs.drop_last(), name);
        assert forall|k: int| 0 <= k < attrs.len() implies (#[trigger] attrs[k]).1@ != name by {
            if k < attrs.len() - 1 {
                assert(attrs[k] == attrs.drop_last()[k]);
            }
        }
    }
}

/// Merging attributes into attributes of distinct names keeps the names distinct, and the
/// values of each name become those it had followed by those merged in.
pub proof fn lemma_merge_then_read(
    cur: Seq<(Option<Ns>, Att, Seq<Val>)>,
    news: Seq<Attribute>,
    name: Seq<char>,
)
    requires
        names_distinct(cur),
    ensures
        names_distinct(merge_all(cur, news)),
        view_vals(merge_all(cur, news), name) == view_vals(cur, name) + attr_vals(news, name),
    decreases news.len(),
{
    if news.len() == 0 {
        assert(view_vals(cur, name) + Seq::<Val>::empty() =~= view_vals(cur, name));
    } else {
        let c = merge_all(cur, news.drop_last());
        let a = news.last();
        lemma_merge_then_read(cur, news.drop_last(), name);
        lemma_view_index_in_range(c, a.name@);
        match view_index(c, a.name@) {
            Some(j) => {
                let e = (c[j].0, c[j].1, c[j].2 + a.value@);
                let u = c.update(j, e);
                assert forall|i: int, k: int| 0 <= i < k < u.len() implies (#[trigger] u[i]).1@
                    != (#[trigger] u[k]).1@ by {
                    assert(u[i].1 == c[i].1);
                    assert(u[k].1 == c[k].1);
                }
                if a.name@ == name {
                    lemma_view_vals_unique(c, j, name);
                    lemma_view_vals_unique(u, j, name);
                    assert(view_vals(cur, name) + attr_vals(news, name) =~= view_vals(cur, name)
                        + attr_vals(news.drop_last(), name) + a.value@);
                } else {
                    lemma_view_vals_other(c, j, e, name);
                    assert(attr_vals(news, name) =~= attr_vals(news.drop_last(), name));
                }
            },
            None => {
                lemma_view_index_none(c, a.name@);
                let u = c.push(attr_view(a));
                assert(u.drop_last() =~= c);
                assert forall|i: int, k: int| 0 <= i < k < u.len() implies (#[trigger] u[i]).1@
                    != (#[trigger] u[k]).1@ by {
                    if k == u.len() - 1 {
                        assert(u[i] == c[i]);
                    } else {
                        assert(u[i] == c[i]);
                        assert(u[k] == c[k]);
                    }
                }
                if a.name@ == name {
                    assert(view_vals(cur, name) + attr_vals(news, name) =~= view_vals(cur, name)
                        + attr_vals(news.drop_last(), name) + a.value@);
                } else {
                    assert(attr_vals(news, name) =~= attr_vals(news.drop_last(), name));
                    assert(view_vals(u, name) =~= view_vals(c, name));
                }
            },
        }
    }
}

/// Finds the first attribute named `name`, if any.
fn find_attribute_index(attrs: &Vec<Attribute>, name: &Att) -> (r: Option<usize>)
    ensures
        r == (match view_index(attrs_view(attrs@), (*name)@) {
            Some(i) => Some(i as usize),
            None => None,
        }),
{
    let mut i: usize = 0;
    while i < attrs.len()
        invariant
            i <= attrs@.len(),
            view_index(attrs_view(attrs@).take(i as int), (*name)@) is None,
        decreases attrs@.len() - i,
    {
        proof {
            assert(attrs_view(attrs@).take(i + 1).drop_last() =~= attrs_view(attrs@).take(i as int));
        }
        if str_eq(attrs[i].name, name) {
            proof {
                lemma_prefix_index(attrs_view(attrs@), i as int, (*name)@);
            }
            return Some(i);
        }
        i += 1;
    }
    assert(attrs_view(attrs@).take(attrs@.len() as int) =~= attrs_view(attrs@));
    None
}

/// The first match in a sequence is the first match in any prefix that holds it.
proof fn lemma_prefix_index(attrs: Seq<(Option<Ns>, Att, Seq<Val>)>, i: int, name: Seq<char>)
    requires
        0 <= i < attrs.len(),
        view_index(attrs.take(i), name) is None,
        attrs[i].1@ == name,
    ensures
        view_index(attrs, name) == Some(i),
    decreases attrs.len(),
{
    assert(attrs.take(i + 1).drop_last() =~= attrs.take(i));
    if attrs.len() > i + 1 {
        assert(attrs.drop_last().take(i) =~= attrs.take(i));
        lemma_prefix_index(attrs.drop_last(), i, name);
    } else {
        assert(attrs.take(i + 1) =~= attrs);
    }
}

impl Element {
    /// create a new instance of an element
    pub fn new(
        namespace: Option<Ns>,
        tag: Tag,
        attrs: Vec<Attribute>,
        children: Vec<Node>,
        self_closing: bool,
    ) -> (r: Self)
        ensures
            r.namespace == namespace,
            r.tag == tag,
            r.attrs == attrs,
            r.children@ == unroll(children@),
            r.self_closing == self_closing,
    {
        let n = children.len();
        let ghost all = children@;
        let mut rest = children;
        let mut unrolled: Vec<Node> = Vec::new();
        let mut i: usize = 0;
        let len = rest.len();
        // consume the children from the front, in order
        let mut reversed: Vec<Node> = Vec::new();
        while rest.len() > 0
            invariant
                reversed@.len() + rest@.len() == all.len(),
                forall|k: int| 0 <= k < rest@.len() ==> rest@[k] == all[k],
                forall|k: int|
                    0 <= k < reversed@.len() ==> reversed@[k] == all[all.len() - 1 - k],
            decreases rest@.len(),
        {
            let c = rest.pop().unwrap();
            reversed.push(c);
        }
        while reversed.len() > 0
            invariant
                i <= all.len(),
                all.len() == n,
                reversed@.len() == all.len() - i,
                forall|k: int| 0 <= k < reversed@.len() ==> reversed@[k] == all[all.len() - 1 - k],
                unrolled@ == unroll(all.take(i as int)),
            decreases reversed@.len(),
        {
            let c = reversed.pop().unwrap();
            proof {
                assert(c == all[i as int]);
                assert(all.take(i + 1).drop_last() =~= all.take(i as int));
            }
            match c {
                Node::NodeList(mut list) => {
                    let ghost l = list@;
                    unrolled.append(&mut list);
                    proof {
                        assert(unrolled@ =~= unroll(all.take(i + 1)));
                    }
                },
                other => {
                    unrolled.push(other);
                    proof {
                        assert(unrolled@ =~= unroll(all.take(i + 1)));
                    }
                },
            }
            i += 1;
        }
        assert(all.take(all.len() as int) =~= all);
        Self { namespace, tag, attrs, children: unrolled, self_closing }
    }

    /// add attributes to this element
    pub fn add_attributes(&mut self, attrs: Vec<Attribute>)
        ensures
            final(self).attrs@ == old(self).attrs@ + attrs@,
            final(self).children == old(self).children,
            final(self).tag == old(self).tag,
            final(self).namespace == old(self).namespace,
            final(self).self_closing == old(self).self_closing,
    {
        let mut attrs = attrs;
        self.attrs.append(&mut attrs);
    }

    /// add children virtual node to this element
    pub fn add_children(&mut self, children: Vec<Node>)
        ensures
            final(self).children@ == old(self).children@ + children@,
            final(self).attrs == old(self).attrs,
            final(self).tag == old(self).tag,
            final(self).namespace == old(self).namespace,
            final(self).self_closing == old(self).self_closing,
    {
        let mut children = children;
        self.children.append(&mut children);
    }

    /// returns a refernce to the children of this node
    pub fn children(&self) -> (r: &[Node])
        ensures
            r@ == self.children@,
    {
        self.children.as_slice()
    }

    /// returns a mutable reference to the children of this node
    pub fn children_mut(&mut self) -> (r: &mut [Node])
        ensures
            r@ == old(self).children@,
            final(r)@ == final(self).children@,
            final(self).attrs == old(self).attrs,
            final(self).tag == old(self).tag,
            final(self).namespace == old(self).namespace,
            final(self).self_closing == old(self).self_closing,
    {
        self.children.as_mut_slice()
    }

    /// Removes an child node  from this element and returns it.
    ///
    /// The removed child is replaced by the last child of the element's children.
    pub fn swap_remove_child(&mut self, index: usize) -> (r: Node)
        requires
            index < old(self).children@.len(),
        ensures
            r == old(self).children@[index as int],
            final(self).children@ == old(self).children@.update(
                index as int,
                old(self).children@.last(),
            ).drop_last(),
            final(self).attrs == old(self).attrs,
            final(self).tag == old(self).tag,
            final(self).namespace == old(self).namespace,
            final(self).self_closing == old(self).self_closing,
    {
        self.children.swap_remove(index)
    }

    /// Swaps the 2 child node in this element; when only one of `a` and `b` is in bounds the
    /// children stay as they are.
    ///
    /// # Panics
    /// Panics if both `a` and `b` are out of bounds
    pub fn swap_children(&mut self, a: usize, b: usize)
        requires
            a < old(self).children@.len() || b < old(self).children@.len(),
        ensures
            final(self).children@ == (if a < old(self).children@.len() && b < old(
                self,
            ).children@.len() {
                old(self).children@.update(a as int, old(self).children@[b as int]).update(
                    b as int,
                    old(self).children@[a as int],
                )
            } else {
                old(self).children@
            }),
            final(self).attrs == old(self).attrs,
            final(self).tag == old(self).tag,
            final(self).namespace == old(self).namespace,
            final(self).self_closing == old(self).self_closing,
    {
        if !(a < self.children.len() && b < self.children.len()) {
            return ;
        }
        if a == b {
            assert(self.children@ =~= self.children@.update(a as int, self.children@[b as int]).update(
                b as int,
                self.children@[a as int],
            ));
            return ;
        }
        let (lo, hi) = if a < b { (a, b) } else { (b, a) };
        let ghost before = self.children@;
        let at_hi = self.children.remove(hi);
        let at_lo = self.children.remove(lo);
        self.children.insert(lo, at_hi);
        self.children.insert(hi, at_lo);
        assert(self.children@ =~= before.update(a as int, before[b as int]).update(
            b as int,
            before[a as int],
        ));
    }

    /// consume self and return the children
    pub fn take_children(self) -> (r: Vec<Node>)
        ensures
            r == self.children,
    {
        self.children
    }

    /// return a reference to the attribute of this element
    pub fn attributes(&self) -> (r: &[Attribute])
        ensures
            r@ == self.attrs@,
    {
        self.attrs.as_slice()
    }

    /// consume self and return the attributes
    pub fn take_attributes(self) -> (r: Vec<Attribute>)
        ensures
            r == self.attrs,
    {
        self.attrs
    }

    /// return the namespace of this element
    pub fn namespace(&self) -> (r: Option<&Ns>)
        ensures
            r == (match self.namespace {
                Some(n) => Some(&n),
                None => None::<&Ns>,
            }),
    {
        match &self.namespace {
            Some(n) => Some(n),
            None => None,
        }
    }

    /// return the tag of this element
    pub fn tag(&self) -> (r: &Tag)
        ensures
            *r == self.tag,
    {
        &self.tag
    }

    /// consume self and return the tag of this element
    pub fn take_tag(self) -> (r: Tag)
        ensures
            r == self.tag,
    {
        self.tag
    }

    /// change the tag of this element
    pub fn set_tag(&mut self, tag: Tag)
        ensures
            final(self).tag == tag,
            final(self).attrs == old(self).attrs,
            final(self).children == old(self).children,
            final(self).namespace == old(self).namespace,
            final(self).self_closing == old(self).self_closing,
    {
        self.tag = tag;
    }

    /// remove the attributes with this key
    pub fn remove_attribute(&mut self, name: &Att)
        ensures
            final(self).attrs@ == without_name(old(self).attrs@, (*name)@),
            final(self).children == old(self).children,
            final(self).tag == old(self).tag,
            final(self).namespace == old(self).namespace,
            final(self).self_closing == old(self).self_closing,
    {
        let mut taken: Vec<Attribute> = Vec::new();
        std::mem::swap(&mut taken, &mut self.attrs);
        let n = taken.len();
        let ghost all = taken@;
        let mut reversed: Vec<Attribute> = Vec::new();
        while taken.len() > 0
            invariant
                reversed@.len() + taken@.len() == all.len(),
                forall|k: int| 0 <= k < taken@.len() ==> taken@[k] == all[k],
                forall|k: int|
                    0 <= k < reversed@.len() ==> reversed@[k] == all[all.len() - 1 - k],
            decreases taken@.len(),
        {
            let a = taken.pop().unwrap();
            reversed.push(a);
        }
        let mut kept: Vec<Attribute> = Vec::new();
        let mut i: usize = 0;
        while reversed.len() > 0
            invariant
                i <= all.len(),
                all.len() == n,
                reversed@.len() == all.len() - i,
                forall|k: int| 0 <= k < reversed@.len() ==> reversed@[k] == all[all.len() - 1 - k],
                kept@ == without_name(all.take(i as int), (*name)@),
            decreases reversed@.len(),
        {
            let a = reversed.pop().unwrap();
            proof {
                assert(a == all[i as int]);
                assert(all.take(i + 1).drop_last() =~= all.take(i as int));
            }
            if !str_eq(a.name, name) {
                kept.push(a);
            }
            proof {
                assert(kept@ =~= without_name(all.take(i + 1), (*name)@));
            }
            i += 1;
        }
        assert(all.take(all.len() as int) =~= all);
        self.attrs = kept;
    }

    /// remove the existing values of this attribute
    /// and add the new values
    pub fn set_attributes(&mut self, attrs: Vec<Attribute>)
        ensures
            final(self).attrs@ == set_all(old(self).attrs@, attrs@),
            final(self).children == old(self).children,
            final(self).tag == old(self).tag,
            final(self).namespace == old(self).namespace,
            final(self).self_closing == old(self).self_closing,
    {
        let ghost start = self.attrs@;
        let n = attrs.len();
        let ghost all = attrs@;
        let mut rest = attrs;
        let mut reversed: Vec<Attribute> = Vec::new();
        while rest.len() > 0
            invariant
                reversed@.len() + rest@.len() == all.len(),
                forall|k: int| 0 <= k < rest@.len() ==> rest@[k] == all[k],
                forall|k: int|
                    0 <= k < reversed@.len() ==> reversed@[k] == all[all.len() - 1 - k],
            decreases rest@.len(),
        {
            let a = rest.pop().unwrap();
            reversed.push(a);
        }
        let mut i: usize = 0;
        while reversed.len() > 0
            invariant
                i <= all.len(),
                all.len() == n,
                reversed@.len() == all.len() - i,
                forall|k: int| 0 <= k < reversed@.len() ==> reversed@[k] == all[all.len() - 1 - k],
                self.attrs@ == set_all(start, all.take(i as int)),
                self.children == old(self).children,
                self.tag == old(self).tag,
                self.namespace == old(self).namespace,
                self.self_closing == old(self).self_closing,
            decreases reversed@.len(),
        {
            let a = reversed.pop().unwrap();
            proof {
                assert(a == all[i as int]);
                assert(all.take(i + 1).drop_last() =~= all.take(i as int));
            }
            self.remove_attribute(&a.name);
            self.attrs.push(a);
            i += 1;
        }
        assert(all.take(all.len() as int) =~= all);
    }

    /// merge to existing attributes if it exist
    pub fn merge_attributes(&mut self, new_attrs: Vec<Attribute>)
        ensures
            attrs_view(final(self).attrs@) == merge_all(attrs_view(old(self).attrs@), new_attrs@),
            final(self).children == old(self).children,
            final(self).tag == old(self).tag,
            final(self).namespace == old(self).namespace,
            final(self).self_closing == old(self).self_closing,
    {
        let ghost start = attrs_view(self.attrs@);
        let n = new_attrs.len();
        let ghost all = new_attrs@;
        let mut rest = new_attrs;
        let mut reversed: Vec<Attribute> = Vec::new();
        while rest.len() > 0
            invariant
                reversed@.len() + rest@.len() == all.len(),
                forall|k: int| 0 <= k < rest@.len() ==> rest@[k] == all[k],
                forall|k: int|
                    0 <= k < reversed@.len() ==> reversed@[k] == all[all.len() - 1 - k],
            decreases rest@.len(),
        {
            let a = rest.pop().unwrap();
            reversed.push(a);
        }
        let mut i: usize = 0;
        while reversed.len() > 0
            invariant
                i <= all.len(),
                all.len() == n,
                reversed@.len() == all.len() - i,
                forall|k: int| 0 <= k < reversed@.len() ==> reversed@[k] == all[all.len() - 1 - k],
                attrs_view(self.attrs@) == merge_all(start, all.take(i as int)),
                self.children == old(self).children,
                self.tag == old(self).tag,
                self.namespace == old(self).namespace,
                self.self_closing == old(self).self_closing,
            decreases reversed@.len(),
        {
            let mut a = reversed.pop().unwrap();
            let alen = self.attrs.len();
            let ghost c = attrs_view(self.attrs@);
            proof {
                assert(a == all[i as int]);
                assert(all.take(i + 1).drop_last() =~= all.take(i as int));
                assert(all.take(i + 1).last() == all[i as int]);
                lemma_view_index_in_range(c, a.name@);
            }
            match find_attribute_index(&self.attrs, &a.name) {
                Some(j) => {
                    let ghost before = self.attrs@[j as int];
                    let mut values: Vec<Val> = Vec::new();
                    std::mem::swap(&mut values, &mut self.attrs[j].value);
                    values.append(&mut a.value);
                    std::mem::swap(&mut values, &mut self.attrs[j].value);
                    proof {
                        assert(attrs_view(self.attrs@) =~= c.update(
                            j as int,
                            (c[j as int].0, c[j as int].1, c[j as int].2 + all[i as int].value@),
                        ));
                        assert(view_index(c, all[i as int].name@) == Some(j as int));
                        assert(merge_all(start, all.take(i + 1)) == c.update(
                            j as int,
                            (c[j as int].0, c[j as int].1, c[j as int].2 + all[i as int].value@),
                        ));
                    }
                },
                None => {
                    self.attrs.push(a);
                    proof {
                        assert(attrs_view(self.attrs@) =~= c.push(attr_view(all[i as int])));
                        assert(merge_all(start, all.take(i + 1)) == c.push(attr_view(all[i as int])));
                    }
                },
            }
            i += 1;
        }
        assert(all.take(all.len() as int) =~= all);
    }

    /// return all the attribute values which the name &Att
    pub fn attribute_value(&self, name: &Att) -> (r: Option<Vec<&Val>>)
        ensures
            r matches Some(v) ==> v@.len() > 0 && v@.map_values(|s: &Val| *s) == attr_vals(
                self.attrs@,
                (*name)@,
            ),
            r is None ==> attr_vals(self.attrs@, (*name)@).len() == 0,
    {
        let mut result: Vec<&Val> = Vec::new();
        let mut i: usize = 0;
        while i < self.attrs.len()
            invariant
                i <= self.attrs@.len(),
                result@.map_values(|s: &Val| *s) == attr_vals(self.attrs@.take(i as int), (*name)@),
            decreases self.attrs@.len() - i,
        {
            let att = &self.attrs[i];
            proof {
                assert(self.attrs@.take(i + 1).drop_last() =~= self.attrs@.take(i as int));
            }
            if str_eq(att.name, name) {
                let ghost before = result@;
                let mut j: usize = 0;
                while j < att.value.len()
                    invariant
                        j <= att.value@.len(),
                        result@.map_values(|s: &Val| *s) == attr_vals(
                            self.attrs@.take(i as int),
                            (*name)@,
                        ) + att.value@.take(j as int),
                    decreases att.value@.len() - j,
                {
                    let ghost prev = result@;
                    result.push(&att.value[j]);
                    proof {
                        assert(result@.map_values(|s: &Val| *s) =~= prev.map_values(|s: &Val| *s).push(att.value@[j as int]));
                        assert(att.value@.take(j + 1) =~= att.value@.take(j as int).push(att.value@[j as int]));
                        assert(result@.map_values(|s: &Val| *s) =~= attr_vals(
                            self.attrs@.take(i as int),
                            (*name)@,
                        ) + att.value@.take(j + 1));
                    }
                    j += 1;
                }
                assert(att.value@.take(j as int) =~= att.value@);
            }
            proof {
                assert(result@.map_values(|s: &Val| *s) =~= attr_vals(
                    self.attrs@.take(i + 1),
                    (*name)@,
                ));
            }
            i += 1;
        }
        assert(self.attrs@.take(self.attrs@.len() as int) =~= self.attrs@);
        if result.len() == 0 {
            None
        } else {
            Some(result)
        }
    }
}

} // verus!
