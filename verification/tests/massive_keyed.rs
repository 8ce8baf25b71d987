use mt_dom::diff::diff_with_key;
use mt_dom::{attr, element, leaf, Node, Patch, TreePath};

fn txt<T: ToString>(t: T) -> Node {
    leaf(&t.to_string())
}


type MyNode = Node;

#[test]
fn text_changed() {
    let old: MyNode = element(
        "article",
        vec![],
        vec![element(
            "main",
            vec![attr("class", "container")],
            vec![
                element("div", vec![attr("key", "1")], vec![txt("line1")]),
                element("div", vec![attr("key", "2")], vec![txt("line2")]),
                element("div", vec![attr("key", "3")], vec![txt("line3")]),
                element("div", vec![attr("key", "4")], vec![txt("line4")]),
                element("div", vec![attr("key", "5")], vec![txt("line5")]),
                element("div", vec![attr("key", "6")], vec![txt("line6")]),
                element("div", vec![attr("key", "7")], vec![txt("line7")]),
                element("div", vec![attr("key", "8")], vec![txt("line8")]),
                element("div", vec![attr("key", "9")], vec![txt("line9")]),
            ],
        )],
    );

    let new: MyNode = element(
        "article",
        vec![],
        vec![element(
            "main",
            vec![attr("class", "container")],
            vec![
                element("div", vec![attr("key", "1")], vec![txt("line1")]),
                element("div", vec![attr("key", "2")], vec![txt("line2")]),
                element("div", vec![attr("key", "3")], vec![txt("line3")]),
                element("div", vec![attr("key", "4")], vec![txt("line4")]),
                element("div", vec![attr("key", "5")], vec![txt("line5")]),
                element("div", vec![attr("key", "6")], vec![txt("line6")]),
                element(
                    "div",
                    vec![attr("key", "7")],
                    vec![txt("line7_changed")],
                ),
                element("div", vec![attr("key", "8")], vec![txt("line8")]),
                element("div", vec![attr("key", "9")], vec![txt("line9")]),
            ],
        )],
    );

    let diff = diff_with_key(&old, &new, &"key");
    assert_eq!(
        diff,
        vec![Patch::replace_node(None, TreePath::new(vec![0, 6, 0]), &leaf("line7_changed"))]
    );
}

#[test]
fn text_changed_non_keyed() {
    let old: MyNode = element(
        "article",
        vec![],
        vec![element(
            "main",
            vec![attr("class", "container")],
            vec![
                element("div", vec![], vec![txt("line1")]),
                element("div", vec![], vec![txt("line2")]),
                element("div", vec![], vec![txt("line3")]),
                element("div", vec![], vec![txt("line4")]),
                element("div", vec![], vec![txt("line5")]),
                element("div", vec![], vec![txt("line6")]),
                element("div", vec![], vec![txt("line7")]),
                element("div", vec![], vec![txt("line8")]),
                element("div", vec![], vec![txt("line9")]),
            ],
        )],
    );

    let new: MyNode = element(
        "article",
        vec![],
        vec![element(
            "main",
            vec![attr("class", "container")],
            vec![
                element("div", vec![], vec![txt("line1")]),
                element("div", vec![], vec![txt("line2")]),
                element("div", vec![], vec![txt("line3")]),
                element("div", vec![], vec![txt("line4")]),
                element("div", vec![], vec![txt("line5")]),
                element("div", vec![], vec![txt("line6")]),
                element("div", vec![], vec![txt("line7_changed")]),
                element("div", vec![], vec![txt("line8")]),
                element("div", vec![], vec![txt("line9")]),
            ],
        )],
    );

    let diff = diff_with_key(&old, &new, &"key");

    assert_eq!(
        diff,
        vec![Patch::replace_node(None, TreePath::new(vec![0, 6, 0]), &leaf("line7_changed"))]
    );
}


// the paths start below the root, a changed text is a replaced leaf, and the tag of an
// insertion is that of the node it goes before

#[test]
fn key_inserted_at_start() {
    let old: MyNode = element(
        "main",
        vec![attr("class", "container")],
        vec![
            element("div", vec![attr("key", "1")], vec![txt("line1")]),
            element("div", vec![attr("key", "2")], vec![txt("line2")]),
            element("div", vec![attr("key", "3")], vec![txt("line3")]),
            element("div", vec![attr("key", "4")], vec![txt("line4")]),
            element("div", vec![attr("key", "5")], vec![txt("line5")]),
            element("div", vec![attr("key", "6")], vec![txt("line6")]),
            element("div", vec![attr("key", "7")], vec![txt("line7")]),
            element("div", vec![attr("key", "8")], vec![txt("line8")]),
            element("div", vec![attr("key", "9")], vec![txt("line9")]),
        ],
    );
    let new: MyNode = element(
        "main",
        vec![attr("class", "container")],
        vec![
            element("div", vec![attr("key", "XXX")], vec![txt("lineXXX")]),
            element("div", vec![attr("key", "1")], vec![txt("line1")]),
            element("div", vec![attr("key", "2")], vec![txt("line2")]),
            element("div", vec![attr("key", "3")], vec![txt("line3")]),
            element("div", vec![attr("key", "4")], vec![txt("line4")]),
            element("div", vec![attr("key", "5")], vec![txt("line5")]),
            element("div", vec![attr("key", "6")], vec![txt("line6")]),
            element("div", vec![attr("key", "7")], vec![txt("line7")]),
            element("div", vec![attr("key", "8")], vec![txt("line8")]),
            element("div", vec![attr("key", "9")], vec![txt("line9")]),
        ],
    );
    let diff = diff_with_key(&old, &new, &"key");
    assert_eq!(
        diff,
        vec![Patch::insert_node(
            Some(&"div"),
            TreePath::new(vec![0]),
            &element("div", vec![attr("key", "XXX")], vec![txt("lineXXX")])
        )]
    );
}

#[test]
fn key_inserted_at_middle() {
    let old: MyNode = element(
        "main",
        vec![attr("class", "container")],
        vec![
            element("div", vec![attr("key", "1")], vec![txt("line1")]),
            element("div", vec![attr("key", "2")], vec![txt("line2")]),
            element("div", vec![attr("key", "3")], vec![txt("line3")]),
            element("div", vec![attr("key", "4")], vec![txt("line4")]),
            element("div", vec![attr("key", "5")], vec![txt("line5")]),
            element("div", vec![attr("key", "6")], vec![txt("line6")]),
            element("div", vec![attr("key", "7")], vec![txt("line7")]),
            element("div", vec![attr("key", "8")], vec![txt("line8")]),
            element("div", vec![attr("key", "9")], vec![txt("line9")]),
        ],
    );
    let new: MyNode = element(
        "main",
        vec![attr("class", "container")],
        vec![
            element("div", vec![attr("key", "1")], vec![txt("line1")]),
            element("div", vec![attr("key", "2")], vec![txt("line2")]),
            element("div", vec![attr("key", "3")], vec![txt("line3")]),
            element("div", vec![attr("key", "4")], vec![txt("line4")]),
            element("div", vec![attr("key", "5")], vec![txt("line5")]),
            element("div", vec![attr("key", "XXX")], vec![txt("lineXXX")]),
            element("div", vec![attr("key", "6")], vec![txt("line6")]),
            element("div", vec![attr("key", "7")], vec![txt("line7")]),
            element("div", vec![attr("key", "8")], vec![txt("line8")]),
            element("div", vec![attr("key", "9")], vec![txt("line9")]),
        ],
    );
    let diff = diff_with_key(&old, &new, &"key");
    assert_eq!(
        diff,
        vec![Patch::insert_node(
            Some(&"div"),
            TreePath::new(vec![5]),
            &element("div", vec![attr("key", "XXX")], vec![txt("lineXXX")])
        )]
    );
}

#[test]
fn wrapped_elements() {
    let old: MyNode = element("article", vec![], vec![element(
        "main",
        vec![attr("class", "container")],
        vec![
            element("div", vec![attr("key", "1")], vec![txt("line1")]),
            element("div", vec![attr("key", "2")], vec![txt("line2")]),
            element("div", vec![attr("key", "3")], vec![txt("line3")]),
            element("div", vec![attr("key", "4")], vec![txt("line4")]),
            element("div", vec![attr("key", "5")], vec![txt("line5")]),
            element("div", vec![attr("key", "6")], vec![txt("line6")]),
            element("div", vec![attr("key", "7")], vec![txt("line7")]),
            element("div", vec![attr("key", "8")], vec![txt("line8")]),
            element("div", vec![attr("key", "9")], vec![txt("line9")]),
        ],
    )]);
    let new: MyNode = element("article", vec![], vec![element(
        "main",
        vec![attr("class", "container")],
        vec![
            element("div", vec![attr("key", "1")], vec![txt("line1")]),
            element("div", vec![attr("key", "2")], vec![txt("line2")]),
            element("div", vec![attr("key", "3")], vec![txt("line3")]),
            element("div", vec![attr("key", "4")], vec![txt("line4")]),
            element("div", vec![attr("key", "5")], vec![txt("line5")]),
            element("div", vec![attr("key", "XXX")], vec![txt("lineXXX")]),
            element("div", vec![attr("key", "6")], vec![txt("line6")]),
            element("div", vec![attr("key", "7")], vec![txt("line7")]),
            element("div", vec![attr("key", "8")], vec![txt("line8")]),
            element("div", vec![attr("key", "9")], vec![txt("line9")]),
        ],
    )]);
    let diff = diff_with_key(&old, &new, &"key");
    assert_eq!(
        diff,
        vec![Patch::insert_node(
            Some(&"div"),
            TreePath::new(vec![0, 5]),
            &element("div", vec![attr("key", "XXX")], vec![txt("lineXXX")])
        )]
    );
}

#[test]
fn insert_one_line_at_start() {
    let old: MyNode = element(
        "article",
        vec![],
        vec![element(
            "main",
            vec![attr("class", "container")],
            vec![
                element(
                    "div",
                    vec![attr("key", "hash1")],
                    vec![
                        element("div", vec![], vec![txt(1)]),
                        element("div", vec![], vec![txt("line1")]),
                    ],
                ),
                element(
                    "div",
                    vec![attr("key", "hash2")],
                    vec![
                        element("div", vec![], vec![txt(2)]),
                        element("div", vec![], vec![txt("line3")]),
                    ],
                ),
                element(
                    "div",
                    vec![attr("key", "hash3")],
                    vec![
                        element("div", vec![], vec![txt(3)]),
                        element("div", vec![], vec![txt("line3")]),
                    ],
                ),
            ],
        )],
    );
    let new: MyNode = element(
        "article",
        vec![],
        vec![element(
            "main",
            vec![attr("class", "container")],
            vec![
                element(
                    "div",
                    vec![attr("key", "hashXXX")],
                    vec![
                        element("div", vec![], vec![txt(1)]),
                        element("div", vec![], vec![txt("XXX")]),
                    ],
                ),
                element(
                    "div",
                    vec![attr("key", "hash1")],
                    vec![
                        element("div", vec![], vec![txt(2)]),
                        element("div", vec![], vec![txt("line1")]),
                    ],
                ),
                element(
                    "div",
                    vec![attr("key", "hash2")],
                    vec![
                        element("div", vec![], vec![txt(3)]),
                        element("div", vec![], vec![txt("line3")]),
                    ],
                ),
                element(
                    "div",
                    vec![attr("key", "hash3")],
                    vec![
                        element("div", vec![], vec![txt(4)]),
                        element("div", vec![], vec![txt("line3")]),
                    ],
                ),
            ],
        )],
    );
    let diff = diff_with_key(&old, &new, &"key");
    assert_eq!(
        diff,
        vec![
            Patch::replace_node(None, TreePath::new(vec![0, 0, 0, 0]), &txt(2)),
            Patch::replace_node(None, TreePath::new(vec![0, 1, 0, 0]), &txt(3)),
            Patch::replace_node(None, TreePath::new(vec![0, 2, 0, 0]), &txt(4)),
            Patch::insert_node(
                Some(&"div"),
                TreePath::new(vec![0, 0]),
                &element(
                    "div",
                    vec![attr("key", "hashXXX")],
                    vec![
                        element("div", vec![], vec![txt(1)]),
                        element("div", vec![], vec![txt("XXX")]),
                    ],
                ),
            ),
        ]
    );
}
