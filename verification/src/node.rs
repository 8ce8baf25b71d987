//! The nodes of a virtual dom.
use vstd::prelude::*;
use vstd::string::*;

pub mod attribute;
pub mod element;

use attribute::{attr_vals, Att, Attribute, Ns, Tag, Val};
pub use element::Element;
use element::{attr_view, attrs_view, merge_all, set_all, unroll};

verus! {

/// represents a node in a virtual dom
/// A node could be an element which can contain one or more children of nodes.
/// A node could also be just a text node which contains a string
#[derive(Debug, PartialEq)]
pub enum Node {
    /// Element variant of a virtual node
    Element(Element),
    /// A node containing nodes, this will be unrolled together with the rest of the children of
    /// the node
    NodeList(Vec<Node>),
    /// A document fragment node, will be created using fragment node and attached to the dom
    Fragment(Vec<Node>),
    /// A Leaf node
    Leaf(Leaf),
}

/// The content of a leaf node.
pub type Leaf = String;

/// The refusals of the operations that only an element allows.
#[derive(Debug, Copy, Clone, PartialEq, Eq)]
pub enum Error {
    /// children can only be added to an element
    AddChildrenNotAllowed,
    /// attributes can only be added to or set on an element
    AttributesNotAllowed,
}

impl Error {
    /// A sentence that describes the refusal.
    pub fn message(&self) -> (r: String)
        ensures
            r@ == (match self {
                Error::AddChildrenNotAllowed => "Adding children on this node variant is not allowed"@,
                Error::AttributesNotAllowed => "Adding or setting attibutes on this node variant is not allowed"@,
            }),
    {
        match self {
            Error::AddChildrenNotAllowed => String::from_str(
                "Adding children on this node variant is not allowed",
            ),
            Error::AttributesNotAllowed => String::from_str(
                "Adding or setting attibutes on this node variant is not allowed",
            ),
        }
    }
}

/// The number of nodes of a tree: the node itself and, for an element, the nodes of the trees
/// of its children.
pub open spec fn node_count(n: Node) -> nat
    decreases n,
{
    match n {
        Node::Element(e) => 1 + nodes_count(e.children@),
        _ => 1,
    }
}

/// The number of nodes of a sequence of trees.
pub open spec fn nodes_count(s: Seq<Node>) -> nat
    decreases s,
{
    if s.len() == 0 {
        0
    } else {
        nodes_count(s.drop_last()) + node_count(s.last())
    }
}

/// The abstract value of a tree: a node whose children are sequences of abstract values.
pub ghost enum NodeView {
    /// an element, with its children as abstract values
    Element {
        namespace: Option<Ns>,
        tag: Tag,
        attrs: Seq<(Option<Ns>, Att, Seq<Val>)>,
        children: Seq<NodeView>,
        self_closing: bool,
    },
    /// a node list
    NodeList(Seq<NodeView>),
    /// a fragment
    Fragment(Seq<NodeView>),
    /// a leaf, with its characters
    Leaf(Seq<char>),
}

/// The abstract value of a tree.
pub open spec fn deep(n: Node) -> NodeView
    decreases n,
{
    match n {
        Node::Element(e) => NodeView::Element {
            namespace: e.namespace,
            tag: e.tag,
            attrs: attrs_view(e.attrs@),
            children: deep_seq(e.children@),
            self_closing: e.self_closing,
        },
        Node::NodeList(l) => NodeView::NodeList(deep_seq(l@)),
        Node::Fragment(f) => NodeView::Fragment(deep_seq(f@)),
        Node::Leaf(l) => NodeView::Leaf(l@),
    }
}

/// The abstract values of a sequence of trees.
pub open spec fn deep_seq(s: Seq<Node>) -> Seq<NodeView>
    decreases s,
{
    if s.len() == 0 {
        Seq::empty()
    } else {
        deep_seq(s.drop_last()).push(deep(s.last()))
    }
}

/// The children of an abstract element; no other abstract node has any.
pub open spec fn view_children(n: NodeView) -> Seq<NodeView> {
    match n {
        NodeView::Element { children, .. } => children,
        _ => Seq::empty(),
    }
}

/// An abstract element with other children; any other abstract node as it is.
pub open spec fn with_view_children(n: NodeView, cs: Seq<NodeView>) -> NodeView {
    match n {
        NodeView::Element { namespace, tag, attrs, self_closing, .. } => NodeView::Element {
            namespace,
            tag,
            attrs,
            children: cs,
            self_closing,
        },
        _ => n,
    }
}

/// The abstract values of a sequence of trees are those of each tree, position by position.
pub proof fn lemma_deep_seq(s: Seq<Node>)
    ensures
        deep_seq(s) == s.map_values(|n: Node| deep(n)),
    decreases s.len(),
{
    if s.len() > 0 {
        lemma_deep_seq(s.drop_last());
        assert(deep_seq(s) =~= s.map_values(|n: Node| deep(n)));
    } else {
        assert(deep_seq(s) =~= s.map_values(|n: Node| deep(n)));
    }
}

/// The children of an element; no other node has any.
pub open spec fn children_of(n: Node) -> Seq<Node> {
    match n {
        Node::Element(e) => e.children@,
        _ => Seq::empty(),
    }
}

/// The tag of an element; no other node has one.
pub open spec fn tag_of(n: Node) -> Option<Tag> {
    match n {
        Node::Element(e) => Some(e.tag),
        _ => None,
    }
}

/// The values of the attributes named `name` of an element, when there is at least one.
pub open spec fn node_attr_vals(n: Node, name: Seq<char>) -> Option<Seq<Val>> {
    match n {
        Node::Element(e) => if attr_vals(e.attrs@, name).len() == 0 {
            None
        } else {
            Some(attr_vals(e.attrs@, name))
        },
        _ => None,
    }
}

/// The element after some change of its attributes: all else is kept.
pub open spec fn same_but_attrs(a: Element, b: Element) -> bool {
    &&& a.namespace == b.namespace
    &&& a.tag == b.tag
    &&& a.children == b.children
    &&& a.self_closing == b.self_closing
}

/// The element after some change of its children: all else is kept.
pub open spec fn same_but_children(a: Element, b: Element) -> bool {
    &&& a.namespace == b.namespace
    &&& a.tag == b.tag
    &&& a.attrs == b.attrs
    &&& a.self_closing == b.self_closing
}

/// A sequence of trees counts at least as many nodes as any prefix of it.
proof fn lemma_nodes_count_prefix(s: Seq<Node>, i: int)
    requires
        0 <= i <= s.len(),
    ensures
        nodes_count(s.take(i)) <= nodes_count(s),
    decreases s.len(),
{
    if i < s.len() {
        assert(s.drop_last().take(i) =~= s.take(i));
        lemma_nodes_count_prefix(s.drop_last(), i);
    } else {
        assert(s.take(i) =~= s);
    }
}

impl Node {
    /// consume self and return the element if it is an element variant
    /// None if it is a text node
    pub fn take_element(self) -> (r: Option<Element>)
        ensures
            r == (match self {
                Node::Element(e) => Some(e),
                _ => None,
            }),
    {
        match self {
            Node::Element(element) => Some(element),
            _ => None,
        }
    }

    /// returns a reference to the Leaf if the node is a Leaf variant
    pub fn leaf(&self) -> (r: Option<&Leaf>)
        ensures
            r == (match self {
                Node::Leaf(l) => Some(l),
                _ => None::<&Leaf>,
            }),
    {
        match self {
            Node::Leaf(leaf) => Some(leaf),
            _ => None,
        }
    }

    /// returns true if the node is an element variant
    pub fn is_element(&self) -> (r: bool)
        ensures
            r == self is Element,
    {
        matches!(self, Node::Element(_))
    }

    /// returns true if the node is a Leaf
    pub fn is_leaf(&self) -> (r: bool)
        ensures
            r == self is Leaf,
    {
        matches!(self, Node::Leaf(_))
    }

    /// returns true if the Node is a fragment variant
    pub fn is_fragment(&self) -> (r: bool)
        ensures
            r == self is Fragment,
    {
        matches!(self, Node::Fragment(_))
    }

    /// Get a mutable reference to the element, if this node is an element node
    pub fn element_mut(&mut self) -> (r: Option<&mut Element>)
        ensures
            match *old(self) {
                Node::Element(e) => r matches Some(x) && *x == e && *final(self) == Node::Element(
                    *final(x),
                ),
                _ => r is None && *final(self) == *old(self),
            },
    {
        match self {
            Node::Element(element) => Some(element),
            _ => None,
        }
    }

    /// returns a reference to the element if this is an element node
    pub fn element_ref(&self) -> (r: Option<&Element>)
        ensures
            r == (match self {
                Node::Element(e) => Some(e),
                _ => None::<&Element>,
            }),
    {
        match self {
            Node::Element(element) => Some(element),
            _ => None,
        }
    }

    /// Consume a mutable self and add a children to this node it if is an element
    /// will have no effect if it is not an element node.
    /// This is used in building the nodes in a builder pattern
    pub fn with_children(self, children: Vec<Node>) -> (r: Self)
        ensures
            !(self is Element) ==> r == self,
            self is Element ==> {
                &&& r is Element
                &&& same_but_children(r->Element_0, self->Element_0)
                &&& r->Element_0.children@ == self->Element_0.children@ + children@
            },
    {
        let mut this = self;
        match &mut this {
            Node::Element(element) => element.add_children(children),
            _ => {},
        }
        this
    }

    /// add children but not consume self
    pub fn add_children(&mut self, children: Vec<Node>) -> (r: Result<(), Error>)
        ensures
            *old(self) is Element ==> {
                &&& r is Ok
                &&& *final(self) is Element
                &&& same_but_children((*final(self))->Element_0, (*old(self))->Element_0)
                &&& (*final(self))->Element_0.children@ == (*old(self))->Element_0.children@ + children@
            },
            !(*old(self) is Element) ==> r == Err::<(), Error>(Error::AddChildrenNotAllowed) && *final(self) == *old(self),
    {
        match self {
            Node::Element(element) => {
                element.add_children(children);
                Ok(())
            },
            _ => Err(Error::AddChildrenNotAllowed),
        }
    }

    /// add attributes to the node and returns itself
    /// this is used in view building
    pub fn with_attributes(self, attributes: Vec<Attribute>) -> (r: Self)
        requires
            self is Element,
        ensures
            r is Element,
            same_but_attrs(r->Element_0, self->Element_0),
            r->Element_0.attrs@ == self->Element_0.attrs@ + attributes@,
    {
        let mut this = self;
        match &mut this {
            Node::Element(element) => element.add_attributes(attributes),
            _ => {},
        }
        this
    }

    /// add attributes using a mutable reference to self
    pub fn add_attributes(&mut self, attributes: Vec<Attribute>) -> (r: Result<(), Error>)
        ensures
            *old(self) is Element ==> {
                &&& r is Ok
                &&& *final(self) is Element
                &&& same_but_attrs((*final(self))->Element_0, (*old(self))->Element_0)
                &&& (*final(self))->Element_0.attrs@ == (*old(self))->Element_0.attrs@ + attributes@
            },
            !(*old(self) is Element) ==> r == Err::<(), Error>(Error::AttributesNotAllowed) && *final(self) == *old(self),
    {
        match self {
            Node::Element(element) => {
                element.add_attributes(attributes);
                Ok(())
            },
            _ => Err(Error::AttributesNotAllowed),
        }
    }

    /// get the attributes of this node
    /// returns None if it is a text node
    pub fn attributes(&self) -> (r: Option<&[Attribute]>)
        ensures
            match self {
                Node::Element(e) => r matches Some(a) && a@ == e.attrs@,
                _ => r is None,
            },
    {
        match self {
            Node::Element(element) => Some(element.attributes()),
            _ => None,
        }
    }

    /// returns the tag of this node if it is an element
    /// otherwise None if it is a text node
    pub fn tag(&self) -> (r: Option<&Tag>)
        ensures
            r == (match self {
                Node::Element(e) => Some(&e.tag),
                _ => None::<&Tag>,
            }),
    {
        match self {
            Node::Element(e) => Some(&e.tag),
            _ => None,
        }
    }

    /// return the children of this node if it is an element
    /// returns an empty slice if it is a text node
    pub fn children(&self) -> (r: &[Node])
        ensures
            r@ == children_of(*self),
    {
        match self {
            Node::Element(element) => element.children(),
            _ => &[],
        }
    }

    /// Return the count of the children of this node
    pub fn children_count(&self) -> (r: usize)
        ensures
            r == children_of(*self).len(),
    {
        self.children().len()
    }

    /// return the children of this node if it is an element
    /// returns None if it is a text node
    pub fn children_mut(&mut self) -> (r: Option<&mut [Node]>)
        ensures
            match *old(self) {
                Node::Element(e) => r matches Some(x) && x@ == e.children@ && *final(self) is Element
                    && same_but_children((*final(self))->Element_0, e) && final(x)@ == (
                *final(self))->Element_0.children@,
                _ => r is None && *final(self) == *old(self),
            },
    {
        match self {
            Node::Element(element) => Some(element.children_mut()),
            _ => None,
        }
    }

    /// Removes an child node  from this element and returns it.
    ///
    /// The removed child is replaced by the last child of the element's children.
    pub fn swap_remove_child(&mut self, index: usize) -> (r: Node)
        requires
            *old(self) is Element,
            index < (*old(self))->Element_0.children@.len(),
        ensures
            r == (*old(self))->Element_0.children@[index as int],
            *final(self) is Element,
            same_but_children((*final(self))->Element_0, (*old(self))->Element_0),
            (*final(self))->Element_0.children@ == (*old(self))->Element_0.children@.update(
                index as int,
                (*old(self))->Element_0.children@.last(),
            ).drop_last(),
    {
        match self {
            Node::Element(element) => element.swap_remove_child(index),
            _ => {
                assert(false);
                Node::Fragment(Vec::new())
            },
        }
    }

    /// Swaps the 2 child node in this element; when only one of `a` and `b` is in bounds the
    /// children stay as they are.
    ///
    /// # Panics
    /// Panics if both `a` and `b` are out of bounds
    /// Panics if this is a text node
    pub fn swap_children(&mut self, a: usize, b: usize)
        requires
            *old(self) is Element,
            a < (*old(self))->Element_0.children@.len() || b < (
            *old(self))->Element_0.children@.len(),
        ensures
            *final(self) is Element,
            same_but_children((*final(self))->Element_0, (*old(self))->Element_0),
            (*final(self))->Element_0.children@ == (if a < (*old(self))->Element_0.children@.len()
                && b < (*old(self))->Element_0.children@.len() {
                (*old(self))->Element_0.children@.update(
                    a as int,
                    (*old(self))->Element_0.children@[b as int],
                ).update(b as int, (*old(self))->Element_0.children@[a as int])
            } else {
                (*old(self))->Element_0.children@
            }),
    {
        match self {
            Node::Element(element) => element.swap_children(a, b),
            _ => {},
        }
    }

    /// Returns the total number of nodes on this node tree, that is counting the direct and
    /// indirect child nodes of this node.
    pub fn node_count(&self) -> (r: usize)
        requires
            node_count(*self) <= usize::MAX,
        ensures
            r == node_count(*self),
        decreases *self, 1nat,
    {
        1 + self.descendant_node_count()
    }

    /// only count the descendant node
    pub fn descendant_node_count(&self) -> (r: usize)
        requires
            node_count(*self) <= usize::MAX,
        ensures
            r == node_count(*self) - 1,
        decreases *self, 0nat,
    {
        let mut cnt: usize = 0;
        if let Node::Element(element) = self {
            let ghost cs = element.children@;
            let mut i: usize = 0;
            while i < element.children.len()
                invariant
                    *self == Node::Element(*element),
                    cs == element.children@,
                    i <= cs.len(),
                    cnt == nodes_count(cs.take(i as int)),
                    1 + nodes_count(cs) <= usize::MAX,
                decreases cs.len() - i,
            {
                proof {
                    assert(cs.take(i + 1).drop_last() =~= cs.take(i as int));
                    lemma_nodes_count_prefix(cs, i + 1);
                    let ch = element.children;
                    assert((*self)->Element_0 == *element);
                    assert(decreases_to!(*self => (*self)->Element_0));
                    assert(decreases_to!(*element => ch));
                    assert(decreases_to!(ch => ch@));
                    assert(decreases_to!(ch@ => ch@[i as int]));
                    assert(decreases_to!(*self => element.children@[i as int]));
                }
                let c = element.children[i].node_count();
                cnt = cnt + c;
                i += 1;
            }
            assert(cs.take(cs.len() as int) =~= cs);
        }
        cnt
    }

    /// remove the existing attributes and set with the new value
    pub fn set_attributes(&mut self, attributes: Vec<Attribute>) -> (r: Result<(), Error>)
        ensures
            *old(self) is Element ==> {
                &&& r is Ok
                &&& *final(self) is Element
                &&& same_but_attrs((*final(self))->Element_0, (*old(self))->Element_0)
                &&& (*final(self))->Element_0.attrs@ == set_all((*old(self))->Element_0.attrs@, attributes@)
            },
            !(*old(self) is Element) ==> r == Err::<(), Error>(Error::AttributesNotAllowed) && *final(self) == *old(self),
    {
        match self {
            Node::Element(element) => {
                element.set_attributes(attributes);
                Ok(())
            },
            _ => Err(Error::AttributesNotAllowed),
        }
    }

    /// merge to existing attributes if the attribute name already exist
    pub fn merge_attributes(self, attributes: Vec<Attribute>) -> (r: Self)
        ensures
            self is Element ==> {
                &&& r is Element
                &&& same_but_attrs(r->Element_0, self->Element_0)
                &&& attrs_view(r->Element_0.attrs@) == merge_all(attrs_view(self->Element_0.attrs@), attributes@)
            },
            !(self is Element) ==> r == self,
    {
        let mut this = self;
        match &mut this {
            Node::Element(element) => element.merge_attributes(attributes),
            _ => {},
        }
        this
    }

    /// returh the attribute values of this node which match the attribute name `name`
    pub fn attribute_value(&self, name: &Att) -> (r: Option<Vec<&Val>>)
        ensures
            match node_attr_vals(*self, (*name)@) {
                Some(v) => r matches Some(x) && x@.map_values(|s: &Val| *s) == v,
                None => r is None,
            },
    {
        match self {
            Node::Element(element) => element.attribute_value(name),
            _ => None,
        }
    }
}

/// Copies a tree.
fn clone_node(n: &Node) -> (r: Node)
    ensures
        deep(r) == deep(*n),
    decreases *n, 2nat,
{
    match n {
        Node::Element(e) => Node::Element(clone_element(e)),
        Node::NodeList(l) => Node::NodeList(clone_nodes(l)),
        Node::Fragment(f) => Node::Fragment(clone_nodes(f)),
        Node::Leaf(l) => Node::Leaf(l.clone()),
    }
}

/// Copies an element and its children.
fn clone_element(e: &Element) -> (r: Element)
    ensures
        r.namespace == e.namespace,
        r.tag == e.tag,
        attrs_view(r.attrs@) == attrs_view(e.attrs@),
        deep_seq(r.children@) == deep_seq(e.children@),
        r.self_closing == e.self_closing,
    decreases *e, 1nat,
{
    Element {
        namespace: e.namespace,
        tag: e.tag,
        attrs: clone_attrs(&e.attrs),
        children: clone_nodes(&e.children),
        self_closing: e.self_closing,
    }
}

/// Copies a sequence of attributes.
fn clone_attrs(attrs: &Vec<Attribute>) -> (r: Vec<Attribute>)
    ensures
        attrs_view(r@) == attrs_view(attrs@),
{
    let mut r: Vec<Attribute> = Vec::new();
    let mut i: usize = 0;
    while i < attrs.len()
        invariant
            i <= attrs@.len(),
            r@.len() == i,
            forall|k: int| 0 <= k < i ==> attr_view(#[trigger] r@[k]) == attr_view(attrs@[k]),
        decreases attrs@.len() - i,
    {
        let c = attrs[i].clone();
        assert(attr_view(c) == attr_view(attrs@[i as int]));
        r.push(c);
        i += 1;
    }
    assert(attrs_view(r@) =~= attrs_view(attrs@));
    r
}

/// Copies a sequence of trees.
fn clone_nodes(s: &Vec<Node>) -> (r: Vec<Node>)
    ensures
        deep_seq(r@) == deep_seq(s@),
    decreases *s, 0nat,
{
    let mut r: Vec<Node> = Vec::new();
    let mut i: usize = 0;
    while i < s.len()
        invariant
            i <= s@.len(),
            r@.len() == i,
            forall|k: int| 0 <= k < i ==> deep(#[trigger] r@[k]) == deep(s@[k]),
        decreases s@.len() - i,
    {
        proof {
            assert(decreases_to!(*s => s@));
            assert(decreases_to!(s@ => s@[i as int]));
        }
        let c = clone_node(&s[i]);
        r.push(c);
        i += 1;
    }
    proof {
        lemma_deep_seq(r@);
        lemma_deep_seq(s@);
        assert(r@.map_values(|n: Node| deep(n)) =~= s@.map_values(|n: Node| deep(n)));
    }
    r
}

/// The element that `element_ref` gives, cloned, is the element of a clone of the node, in
/// views: `e` stands for what `Element::clone` gives of the element of `n`, and `c` for what
/// `Node::clone` gives of `n`; the clone is an element exactly when `n` is, and its element has
/// the view of `e`.
pub proof fn lemma_element_ref_cloned(n: Node, e: Element, c: Node)
    requires
        n matches Node::Element(x) ==> {
            &&& e.namespace == x.namespace
            &&& e.tag == x.tag
            &&& attrs_view(e.attrs@) == attrs_view(x.attrs@)
            &&& deep_seq(e.children@) == deep_seq(x.children@)
            &&& e.self_closing == x.self_closing
        },
        deep(c) == deep(n),
    ensures
        (c is Element) == (n is Element),
        n is Element ==> deep(Node::Element(e)) == deep(c),
{
}

impl Clone for Node {
    fn clone(&self) -> (r: Self)
        ensures
            deep(r) == deep(*self),
    {
        clone_node(self)
    }
}

impl Clone for Element {
    fn clone(&self) -> (r: Self)
        ensures
            r.namespace == self.namespace,
            r.tag == self.tag,
            attrs_view(r.attrs@) == attrs_view(self.attrs@),
            deep_seq(r.children@) == deep_seq(self.children@),
            r.self_closing == self.self_closing,
    {
        clone_element(self)
    }
}

/// create a virtual node with tag, attrs and children
pub fn element(tag: Tag, attrs: Vec<Attribute>, children: Vec<Node>) -> (r: Node)
    ensures
        r == Node::Element(Element { namespace: None, tag, attrs, children: r->Element_0.children, self_closing: false }),
        r->Element_0.children@ == unroll(children@),
{
    element_ns(None, tag, attrs, children, false)
}

/// create a virtual node with namespace, tag, attrs and children
pub fn element_ns(
    namespace: Option<Ns>,
    tag: Tag,
    attrs: Vec<Attribute>,
    children: Vec<Node>,
    self_closing: bool,
) -> (r: Node)
    ensures
        r == Node::Element(Element { namespace, tag, attrs, children: r->Element_0.children, self_closing }),
        r->Element_0.children@ == unroll(children@),
{
    Node::Element(Element::new(namespace, tag, attrs, children, self_closing))
}

/// create a leaf node
pub fn leaf(content: &str) -> (r: Node)
    ensures
        r is Leaf,
        r->Leaf_0@ == content@,
{
    Node::Leaf(String::from_str(content))
}

/// create a node list
pub fn node_list(nodes: Vec<Node>) -> (r: Node)
    ensures
        r == Node::NodeList(nodes),
{
    Node::NodeList(nodes)
}

/// create fragment node
pub fn fragment(nodes: Vec<Node>) -> (r: Node)
    ensures
        r == Node::Fragment(nodes),
{
    Node::Fragment(nodes)
}

} // verus!
