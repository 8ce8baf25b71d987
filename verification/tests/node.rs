use mt_dom::node::Error;
use mt_dom::{
    attr, element, element_ns, fragment, group_attributes_per_name, leaf,
    merge_attributes_of_same_name, node_list, Attribute, Element, Node,
};

#[test]
fn node_count1() {
    let old = element("div", vec![], vec![]);
    assert_eq!(1, old.node_count());
    assert_eq!(0, old.descendant_node_count());
}

#[test]
fn node_count3() {
    let old = element("div", vec![], vec![leaf("0"), leaf("1")]);
    assert_eq!(3, old.node_count());
}

#[test]
fn node_count5() {
    let old = element(
        "div",
        vec![],
        vec![
            element("b", vec![], vec![element("i", vec![], vec![]), element("i", vec![], vec![])]),
            element("b", vec![], vec![]),
        ],
    );
    assert_eq!(5, old.node_count());
    assert_eq!(4, old.descendant_node_count());
}

#[test]
fn node_count6() {
    let old = element(
        "div",
        vec![],
        vec![
            element(
                "b",
                vec![],
                vec![element("i", vec![], vec![]), element("i", vec![], vec![leaf("hi")])],
            ),
            element("b", vec![], vec![]),
        ],
    );
    assert_eq!(6, old.node_count());
    assert_eq!(5, old.descendant_node_count());
}

#[test]
fn element_unrolls_node_lists() {
    let node = element(
        "ul",
        vec![],
        vec![
            element("li", vec![], vec![]),
            node_list(vec![leaf("a"), leaf("b")]),
            fragment(vec![leaf("c")]),
        ],
    );
    assert_eq!(
        node.children(),
        &[element("li", vec![], vec![]), leaf("a"), leaf("b"), fragment(vec![leaf("c")])]
    );
    assert_eq!(node.children_count(), 4);
}

#[test]
fn element_ns_keeps_namespace_and_self_closing() {
    let node = element_ns(Some("svg"), "circle", vec![attr("r", "5")], vec![], true);
    let e = node.element_ref().unwrap();
    assert_eq!(e.namespace(), Some(&"svg"));
    assert_eq!(e.tag(), &"circle");
    assert!(e.self_closing);
}

#[test]
fn node_variants() {
    let e = element("div", vec![], vec![]);
    assert!(e.is_element() && !e.is_leaf() && !e.is_fragment());
    assert_eq!(e.tag(), Some(&"div"));
    let l = leaf("text");
    assert!(l.is_leaf() && !l.is_element());
    assert_eq!(l.leaf(), Some(&"text".to_string()));
    assert_eq!(l.tag(), None);
    assert_eq!(l.children().len(), 0);
    assert!(fragment(vec![]).is_fragment());
    assert_eq!(l.take_element(), None);
}

#[test]
fn add_children_only_on_elements() {
    let mut e = element("div", vec![], vec![leaf("a")]);
    assert_eq!(e.add_children(vec![leaf("b")]), Ok(()));
    assert_eq!(e, element("div", vec![], vec![leaf("a"), leaf("b")]));
    let mut l = leaf("a");
    assert_eq!(l.add_children(vec![leaf("b")]), Err(Error::AddChildrenNotAllowed));
    assert_eq!(l, leaf("a"));
    assert_eq!(
        Error::AddChildrenNotAllowed.message(),
        "Adding children on this node variant is not allowed"
    );
}

#[test]
fn attributes_only_on_elements() {
    let mut l = leaf("a");
    assert_eq!(l.add_attributes(vec![attr("class", "x")]), Err(Error::AttributesNotAllowed));
    assert_eq!(l.set_attributes(vec![attr("class", "x")]), Err(Error::AttributesNotAllowed));
    assert_eq!(l.attributes(), None);
    assert_eq!(
        Error::AttributesNotAllowed.message(),
        "Adding or setting attibutes on this node variant is not allowed"
    );
}

#[test]
fn with_children_and_attributes_build_up() {
    let node = element("div", vec![], vec![])
        .with_children(vec![leaf("a")])
        .with_attributes(vec![attr("class", "x")]);
    assert_eq!(node, element("div", vec![attr("class", "x")], vec![leaf("a")]));
}

#[test]
fn set_attributes_replaces_the_values_of_a_name() {
    let mut node = element("div", vec![attr("class", "a"), attr("id", "x"), attr("class", "b")], vec![]);
    node.set_attributes(vec![attr("class", "c")]).unwrap();
    assert_eq!(node.attribute_value(&"class").unwrap(), vec![&"c".to_string()]);
    assert_eq!(node.attribute_value(&"id").unwrap(), vec![&"x".to_string()]);
    assert_eq!(node, element("div", vec![attr("id", "x"), attr("class", "c")], vec![]));
}

#[test]
fn set_attributes_keeps_the_last_of_a_name() {
    let mut node = element("div", vec![], vec![]);
    node.set_attributes(vec![attr("class", "a"), attr("class", "b")]).unwrap();
    assert_eq!(node.attribute_value(&"class").unwrap(), vec![&"b".to_string()]);
}

#[test]
fn merge_attributes_extends_the_first_of_a_name() {
    let node = element("div", vec![attr("class", "a"), attr("id", "x")], vec![]);
    let node = node.merge_attributes(vec![attr("class", "b"), attr("title", "t")]);
    assert_eq!(
        node.attribute_value(&"class").unwrap(),
        vec![&"a".to_string(), &"b".to_string()]
    );
    assert_eq!(
        node.attributes().unwrap(),
        &[
            Attribute::with_multiple_values(None, "class", vec!["a".to_string(), "b".to_string()]),
            attr("id", "x"),
            attr("title", "t"),
        ]
    );
}

#[test]
fn attribute_value_gathers_all_values() {
    let node = element("div", vec![attr("class", "a"), attr("id", "x"), attr("class", "b")], vec![]);
    assert_eq!(
        node.attribute_value(&"class").unwrap(),
        vec![&"a".to_string(), &"b".to_string()]
    );
    assert_eq!(node.attribute_value(&"title"), None);
    assert_eq!(leaf("a").attribute_value(&"class"), None);
}

#[test]
fn element_attribute_editing() {
    let mut e = Element::new(None, "div", vec![attr("class", "a"), attr("id", "x")], vec![], false);
    e.remove_attribute(&"class");
    assert_eq!(e.attributes(), &[attr("id", "x")]);
    e.add_attributes(vec![attr("title", "t")]);
    assert_eq!(e.attributes(), &[attr("id", "x"), attr("title", "t")]);
    e.set_tag("span");
    assert_eq!(e.tag(), &"span");
    assert_eq!(e.take_attributes(), vec![attr("id", "x"), attr("title", "t")]);
}

#[test]
fn swap_children_and_swap_remove() {
    let mut node = element("div", vec![], vec![leaf("a"), leaf("b"), leaf("c")]);
    node.swap_children(0, 2);
    assert_eq!(node.children(), &[leaf("c"), leaf("b"), leaf("a")]);
    let removed = node.swap_remove_child(0);
    assert_eq!(removed, leaf("c"));
    assert_eq!(node.children(), &[leaf("a"), leaf("b")]);
}

#[test]
fn swap_children_with_one_index_out_of_bounds_keeps_them() {
    let mut node = element("div", vec![], vec![leaf("a"), leaf("b")]);
    node.swap_children(1, 7);
    assert_eq!(node.children(), &[leaf("a"), leaf("b")]);
    node.swap_children(9, 0);
    assert_eq!(node.children(), &[leaf("a"), leaf("b")]);
}

#[test]
fn mutable_access_to_the_element_and_children() {
    let mut node = element("div", vec![], vec![leaf("a"), leaf("b")]);
    node.element_mut().unwrap().self_closing = true;
    node.children_mut().unwrap()[1] = leaf("z");
    assert_eq!(node, element_ns(None, "div", vec![], vec![leaf("a"), leaf("z")], true));
    assert!(leaf("a").children_mut().is_none());
    assert!(leaf("a").element_mut().is_none());
}

#[test]
fn clone_is_equal() {
    let node = element("div", vec![attr("class", "a")], vec![leaf("x"), element("p", vec![], vec![])]);
    assert_eq!(node.clone(), node);
}

#[test]
fn group_attributes_by_name_in_first_occurrence_order() {
    let attrs = vec![attr("class", "a"), attr("id", "x"), attr("class", "b")];
    let groups = group_attributes_per_name(&attrs);
    assert_eq!(groups.len(), 2);
    assert_eq!(groups[0], (&"class", vec![&attrs[0], &attrs[2]]));
    assert_eq!(groups[1], (&"id", vec![&attrs[1]]));
}

#[test]
fn merge_attributes_of_the_same_name() {
    let a = attr("class", "a");
    let b = attr("id", "x");
    let c = attr("class", "b");
    let merged = merge_attributes_of_same_name(&[&a, &b, &c]);
    assert_eq!(
        merged,
        vec![
            Attribute::with_multiple_values(None, "class", vec!["a".to_string(), "b".to_string()]),
            attr("id", "x"),
        ]
    );
}

#[test]
fn with_children_leaves_a_leaf_unchanged() {
    assert_eq!(leaf("x").with_children(vec![leaf("y")]), leaf("x"));
}

#[test]
fn element_ref_cloned_is_the_element_of_a_clone() {
    let n = element("div", vec![attr("class", "a")], vec![leaf("x")]);
    assert_eq!(n.element_ref().cloned(), n.clone().take_element());
    assert!(n.element_ref().is_some() == n.is_element());
    let l = leaf("y");
    assert_eq!(l.element_ref().cloned(), l.clone().take_element());
    assert!(l.element_ref().is_none());
}
