use mt_dom::diff::diff_with_key;
use mt_dom::{attr, element, leaf, Node, Patch, TreePath};

type MyNode = Node;

#[test]
fn swap_rows_non_keyed() {
    let old: Node = element(
        "main",
        vec![attr("class", "container")],
        vec![
            element("div", vec![attr("class", "1")], vec![leaf("line1")]),
            element("div", vec![attr("class", "2")], vec![leaf("line2")]),
            element("div", vec![attr("class", "3")], vec![leaf("line3")]),
            element("div", vec![attr("class", "4")], vec![leaf("line4")]),
            element("div", vec![attr("class", "5")], vec![leaf("line5")]),
        ],
    );

    let new: Node = element(
        "main",
        vec![attr("class", "container")],
        vec![
            element("div", vec![attr("class", "1")], vec![leaf("line1")]),
            element("div", vec![attr("class", "4")], vec![leaf("line4")]),
            element("div", vec![attr("class", "3")], vec![leaf("line3")]),
            element("div", vec![attr("class", "2")], vec![leaf("line2")]),
            element("div", vec![attr("class", "5")], vec![leaf("line5")]),
        ],
    );

    let diff = diff_with_key(&old, &new, &"key");

    assert_eq!(
        diff,
        vec![
            Patch::add_attributes(&"div", TreePath::new(vec![1]), vec![&attr("class", "4")],),
            Patch::replace_with_nodes(None, TreePath::new(vec![1, 0]), vec![&leaf("line4")]),
            Patch::add_attributes(&"div", TreePath::new(vec![3],), vec![&attr("class", "2")],),
            Patch::replace_with_nodes(None, TreePath::new(vec![3, 0],), vec![&leaf("line2")],)
        ]
    );
}

