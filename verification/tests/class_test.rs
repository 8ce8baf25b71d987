use mt_dom::diff::diff_with_key;
use mt_dom::{attr, element, leaf, Node, Patch, TreePath};

#[test]
fn parent_of_matching_keyed_are_ignored() {
    let old: Node = element(
        "ul",
        vec![attr("class", "original")],
        vec![
            element("li", vec![attr("key", "0")], vec![leaf("text0")]),
            element("li", vec![attr("key", "1")], vec![leaf("text1")]),
            element("li", vec![attr("key", "2")], vec![leaf("text2")]),
        ],
    );

    let new: Node = element(
        "ul",
        vec![attr("class", "changed")],
        vec![
            element("li", vec![attr("key", "0")], vec![leaf("text0")]),
            element("li", vec![attr("key", "1")], vec![leaf("text1")]),
            element("li", vec![attr("key", "2")], vec![leaf("text2")]),
        ],
    );

    let patches = diff_with_key(&old, &new, &"key");

    assert_eq!(
        patches,
        vec![Patch::add_attributes(&"ul", TreePath::new(vec![]), vec![&attr("class", "changed")])],
        "Should add the new attributes"
    );
}
