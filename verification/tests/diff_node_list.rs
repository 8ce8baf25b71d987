use mt_dom::diff::diff_with_key;
use mt_dom::{attr, element, node_list, Node, Patch, TreePath};

#[test]
fn test_node_list() {
    let old_list = node_list(vec![
        element("li", vec![attr("key", "1")], vec![]),
        element("li", vec![attr("key", "2")], vec![]),
    ]);

    let old: Node = element(
        "div",
        vec![],
        vec![element("li", vec![attr("key", "0")], vec![]), old_list, element("li", vec![attr("key", "3")], vec![])],
    );

    let new_list = node_list(vec![element("li", vec![attr("key", "1")], vec![])]);
    let new: Node = element(
        "div",
        vec![],
        vec![element("li", vec![attr("key", "0")], vec![]), new_list, element("li", vec![attr("key", "3")], vec![])],
    );

    let diff = diff_with_key(&old, &new, &"key");
    assert_eq!(diff, vec![Patch::remove_node(Some(&"li"), TreePath::new(vec![2]))],);
}
