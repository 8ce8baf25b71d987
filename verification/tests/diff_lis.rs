use mt_dom::diff_lis::{diff_around_lis, diff_keyed_elements, try_diff_keyed_elements};
use mt_dom::{attr, element, Node, Patch, TreePath};

fn never(_old: &Node, _new: &Node) -> bool {
    false
}

fn keyed(k: &str) -> Node {
    element("div", vec![attr("key", k)], vec![])
}

fn list(keys: &[&str]) -> Node {
    element("main", vec![], keys.iter().map(|k| keyed(k)).collect())
}

fn diff<'a>(old: &'a Node, new: &'a Node) -> Option<Vec<Patch<'a>>> {
    try_diff_keyed_elements(
        old.element_ref().unwrap(),
        new.element_ref().unwrap(),
        &"key",
        &TreePath::root(),
        &never,
        &never,
    )
}

#[test]
fn lis_same_children_give_nothing() {
    let old = list(&["1", "2", "3"]);
    let new = list(&["1", "2", "3"]);
    assert_eq!(diff(&old, &new), Some(vec![]));
}

#[test]
fn lis_removed_at_start() {
    let old = list(&["1", "2"]);
    let new = list(&["2"]);
    assert_eq!(diff(&old, &new), Some(vec![Patch::remove_node(Some(&"div"), TreePath::new(vec![0]))]));
}

#[test]
fn lis_removed_at_end() {
    let old = list(&["1", "2"]);
    let new = list(&["1"]);
    assert_eq!(diff(&old, &new), Some(vec![Patch::remove_node(Some(&"div"), TreePath::new(vec![1]))]));
}

#[test]
fn lis_appended_at_end() {
    let old = list(&["1"]);
    let new = list(&["1", "2"]);
    assert_eq!(
        diff(&old, &new),
        Some(vec![Patch::append_children(&"main", TreePath::new(vec![]), vec![&keyed("2")])])
    );
}

#[test]
fn lis_inserted_in_the_middle() {
    let old = list(&["1", "3"]);
    let new = list(&["1", "2", "3"]);
    assert_eq!(
        diff(&old, &new),
        Some(vec![Patch::insert_before_node(Some(&"div"), TreePath::new(vec![1]), vec![&keyed("2")])])
    );
}

#[test]
fn lis_inserted_at_start() {
    let old = list(&["2"]);
    let new = list(&["1", "2"]);
    assert_eq!(
        diff(&old, &new),
        Some(vec![Patch::insert_before_node(Some(&"div"), TreePath::new(vec![0]), vec![&keyed("1")])])
    );
}

#[test]
fn lis_no_shared_key_replaces_the_first() {
    let old = list(&["a", "b"]);
    let new = list(&["c", "d"]);
    assert_eq!(
        diff(&old, &new),
        Some(vec![
            Patch::remove_node(Some(&"div"), TreePath::new(vec![1])),
            Patch::replace_with_nodes(Some(&"div"), TreePath::new(vec![0]), vec![&keyed("c"), &keyed("d")]),
        ])
    );
}

#[test]
fn lis_no_shared_key_after_a_match_cannot_be_diffed() {
    let old = list(&["a", "x"]);
    let new = list(&["a", "y"]);
    assert_eq!(diff(&old, &new), None);
}

#[test]
fn lis_swapped_children_are_moved() {
    let old = list(&["1", "2", "3"]);
    let new = list(&["1", "3", "2"]);
    assert_eq!(
        diff(&old, &new),
        Some(vec![Patch::move_before_node(
            Some(&"div"),
            TreePath::new(vec![1]),
            vec![TreePath::new(vec![2])]
        )])
    );
}

#[test]
fn lis_diff_keyed_elements_agrees_when_defined() {
    let old = list(&["1", "2", "3"]);
    let new = list(&["1", "3", "2"]);
    let patches = diff_keyed_elements(
        old.element_ref().unwrap(),
        new.element_ref().unwrap(),
        &"key",
        &TreePath::root(),
        &never,
        &never,
    );
    assert_eq!(Some(patches), diff(&old, &new));
}

#[test]
fn lis_given_subsequence_keeps_its_children_in_place() {
    let old = list(&["1", "2", "3"]);
    let new = list(&["1", "3", "2"]);
    let olds = &old.element_ref().unwrap().children;
    let news = &new.element_ref().unwrap().children;
    // the middle is from position 1 on; the new "3" was at 1 there, the new "2" at 0, and the
    // subsequence keeps the new "2"
    let patches = diff_around_lis(
        olds,
        news,
        &vec![1, 0],
        &vec![1],
        1,
        3,
        3,
        &"key",
        &TreePath::root(),
        &never,
        &never,
    );
    assert_eq!(
        patches,
        Some(vec![Patch::move_before_node(
            Some(&"div"),
            TreePath::new(vec![1]),
            vec![TreePath::new(vec![2])]
        )])
    );
}
