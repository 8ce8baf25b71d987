use mt_dom::diff::keyed_elements::{diff_keyed_elements, try_diff_keyed_elements};
use mt_dom::{attr, element, fragment, leaf, Node, Patch, TreePath};

fn never(_old: &Node, _new: &Node) -> bool {
    false
}

fn keyed(k: &str) -> Node {
    element("div", vec![attr("key", k)], vec![])
}

fn reconcile<'a>(old: &'a Node, new: &'a Node) -> Vec<Patch<'a>> {
    diff_keyed_elements(
        old.element_ref().unwrap(),
        new.element_ref().unwrap(),
        &"key",
        &[],
        &never,
        &never,
    )
}

#[test]
fn reconcile_removes_the_unmatched_old_child() {
    let old = element("main", vec![], vec![keyed("1"), keyed("2")]);
    let new = element("main", vec![], vec![keyed("2")]);
    assert_eq!(
        reconcile(&old, &new),
        vec![Patch::remove_node(Some(&"div"), TreePath::new(vec![0]))]
    );
}

#[test]
fn reconcile_appends_the_left_over_new_child() {
    let old = element("main", vec![], vec![keyed("1")]);
    let new = element("main", vec![], vec![keyed("1"), keyed("2")]);
    assert_eq!(
        reconcile(&old, &new),
        vec![Patch::append_children(&"main", TreePath::new(vec![]), vec![&keyed("2")])]
    );
}

#[test]
fn reconcile_matches_unkeyed_children_by_position() {
    let old = element("main", vec![], vec![leaf("a"), leaf("b")]);
    let new = element("main", vec![], vec![leaf("a"), leaf("c")]);
    assert_eq!(
        reconcile(&old, &new),
        vec![Patch::replace_node(None, TreePath::new(vec![1]), &leaf("c"))]
    );
}

#[test]
fn reconcile_inserts_before_the_matched_child() {
    let old = element("main", vec![], vec![keyed("2")]);
    let new = element("main", vec![], vec![leaf("x"), keyed("2")]);
    assert_eq!(
        reconcile(&old, &new),
        vec![Patch::insert_node(Some(&"main"), TreePath::new(vec![0]), &leaf("x"))]
    );
}

#[test]
fn reconcile_diffs_the_attributes_of_the_parent() {
    let old = element("ul", vec![attr("class", "original")], vec![keyed("0"), keyed("1")]);
    let new = element("ul", vec![attr("class", "changed")], vec![keyed("0"), keyed("1")]);
    assert_eq!(
        reconcile(&old, &new),
        vec![Patch::add_attributes(&"ul", TreePath::new(vec![]), vec![&attr("class", "changed")])]
    );
}

#[test]
fn reconcile_try_fails_on_fragments_under_a_matched_pair() {
    let old = element(
        "main",
        vec![],
        vec![element("div", vec![attr("key", "1")], vec![fragment(vec![])])],
    );
    let new = element(
        "main",
        vec![],
        vec![element("div", vec![attr("key", "1")], vec![fragment(vec![leaf("x")])])],
    );
    let r = try_diff_keyed_elements(
        old.element_ref().unwrap(),
        new.element_ref().unwrap(),
        &"key",
        &[],
        &never,
        &never,
    );
    assert_eq!(r, None);
}

#[test]
fn reconcile_try_agrees_when_defined() {
    let old = element("main", vec![], vec![keyed("1"), keyed("2")]);
    let new = element("main", vec![], vec![keyed("2")]);
    let r = try_diff_keyed_elements(
        old.element_ref().unwrap(),
        new.element_ref().unwrap(),
        &"key",
        &[],
        &never,
        &never,
    );
    assert_eq!(r, Some(reconcile(&old, &new)));
}
