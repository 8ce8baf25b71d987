use mt_dom::diff::diff_with_key;
use mt_dom::{attr, element, leaf, Node, Patch, TreePath};

fn txt<T: ToString>(t: T) -> Node {
    leaf(&t.to_string())
}


type MyNode = Node;

#[test]
fn keyed_no_changed() {
    let old: MyNode = element(
        "div",
        vec![attr("class", "container")],
        vec![element("div", vec![attr("key", "1")], vec![])],
    );

    let new: MyNode = element(
        "div",
        vec![attr("class", "container")],
        vec![element("div", vec![attr("key", "1")], vec![])],
    );

    let diff = diff_with_key(&old, &new, &"key");
    assert_eq!(diff, vec![]);
}

#[test]
fn key_1_removed_at_start() {
    let old: MyNode = element(
        "main",
        vec![attr("class", "container")],
        vec![
            element("div", vec![attr("key", "1")], vec![]),
            element("div", vec![attr("key", "2")], vec![]),
        ],
    );

    let new: MyNode = element(
        "main",
        vec![attr("class", "container")],
        vec![element("div", vec![attr("key", "2")], vec![])],
    );

    let diff = diff_with_key(&old, &new, &"key");
    assert_eq!(
        diff,
        vec![Patch::remove_node(Some(&"div"), TreePath::new(vec![0]))]
    );
}

#[test]
fn non_unique_keys_matched_at_old() {
    let old: MyNode = element(
        "main",
        vec![attr("class", "container")],
        vec![
            element("div", vec![attr("key", "2")], vec![]),
            element("div", vec![attr("key", "2")], vec![]),
        ],
    );

    let new: MyNode = element(
        "main",
        vec![attr("class", "container")],
        vec![element("div", vec![attr("key", "2")], vec![])],
    );

    let diff = diff_with_key(&old, &new, &"key");
    assert_eq!(
        diff,
        vec![Patch::remove_node(Some(&"div"), TreePath::new(vec![1]))]
    );
}

#[test]
fn key_2_removed_at_the_end() {
    let old: MyNode = element(
        "main",
        vec![attr("class", "container")],
        vec![
            element("div", vec![attr("key", "1")], vec![]),
            element("div", vec![attr("key", "2")], vec![]),
        ],
    );

    let new: MyNode = element(
        "main",
        vec![attr("class", "container")],
        vec![element("div", vec![attr("key", "1")], vec![])],
    );

    let diff = diff_with_key(&old, &new, &"key");
    assert_eq!(
        diff,
        vec![Patch::remove_node(Some(&"div"), TreePath::new(vec![1]))]
    );
}

#[test]
fn key_2_removed_at_the_middle() {
    let old: MyNode = element(
        "main",
        vec![attr("class", "container")],
        vec![
            element("div", vec![attr("key", "1")], vec![]),
            element("div", vec![attr("key", "2")], vec![]),
            element("div", vec![attr("key", "3")], vec![]),
        ],
    );

    let new: MyNode = element(
        "main",
        vec![attr("class", "container")],
        vec![
            element("div", vec![attr("key", "1")], vec![]),
            element("div", vec![attr("key", "3")], vec![]),
        ],
    );

    let diff = diff_with_key(&old, &new, &"key");
    assert_eq!(
        diff,
        vec![Patch::remove_node(Some(&"div"), TreePath::new(vec![1]))]
    );
}

#[test]
fn keyed_element_not_reused() {
    let old: MyNode = element(
        "main",
        vec![attr("class", "container")],
        vec![element("div", vec![attr("key", "1")], vec![])],
    );

    let new: MyNode = element(
        "main",
        vec![attr("class", "container")],
        vec![element("div", vec![attr("key", "2")], vec![])],
    );

    let diff = diff_with_key(&old, &new, &"key");

    assert_eq!(
        diff,
        vec![Patch::replace_node(Some(&"div"), TreePath::new(vec![0]), &element("div", vec![attr("key", "2")], vec![]))]
    );
}

#[test]
fn key_2_inserted_at_the_end() {
    let old: MyNode = element(
        "main",
        vec![attr("class", "container")],
        vec![element("div", vec![attr("key", "1")], vec![])],
    );

    let new: MyNode = element(
        "main",
        vec![attr("class", "container")],
        vec![
            element("div", vec![attr("key", "1")], vec![]),
            element("div", vec![attr("key", "2")], vec![]),
        ],
    );

    let diff = diff_with_key(&old, &new, &"key");

    assert_eq!(
        diff,
        vec![Patch::append_children(&"main", TreePath::new(vec![]), vec![&element("div", vec![attr("key", "2")], vec![])])]
    );
}

#[test]
fn key1_removed_at_start_then_key2_has_additional_attributes() {
    let old: MyNode = element(
        "main",
        vec![attr("class", "container")],
        vec![
            element("div", vec![attr("key", "1")], vec![]),
            element("div", vec![attr("key", "2")], vec![]),
        ],
    );

    let new: MyNode = element(
        "main",
        vec![attr("class", "container")],
        vec![element(
            "div",
            vec![attr("key", "2"), attr("class", "some-class")],
            vec![],
        )],
    );

    let diff = diff_with_key(&old, &new, &"key");
    // we add attrubytes at NodeIdx 2, and this will become a NodeIdx 1
    assert_eq!(
        diff,
        vec![
            Patch::add_attributes(&"div", TreePath::new(vec![1]), vec![&attr("class", "some-class")]),
            Patch::remove_node(Some(&"div"), TreePath::new(vec![0])),
        ]
    );
}

#[test]
fn deep_nested_key1_removed_at_start_then_key2_has_additional_attributes() {
    let old: MyNode = element(
        "main",
        vec![attr("class", "container")],
        vec![element(
            "article",
            vec![],
            vec![
                element("div", vec![attr("key", "1")], vec![]),
                element("div", vec![attr("key", "2")], vec![]),
            ],
        )],
    );

    let new: MyNode = element(
        "main",
        vec![attr("class", "container")],
        vec![element(
            "article",
            vec![],
            vec![element(
                "div",
                vec![attr("key", "2"), attr("class", "some-class")],
                vec![],
            )],
        )],
    );

    let diff = diff_with_key(&old, &new, &"key");
    assert_eq!(
        diff,
        vec![
            Patch::add_attributes(&"div", TreePath::new(vec![0, 1]), vec![&attr("class", "some-class")]),
            Patch::remove_node(Some(&"div"), TreePath::new(vec![0, 0])),
        ]
    );
}

#[test]
fn deep_nested_more_children_key0_and_key1_removed_at_start_then_key2_has_additional_attributes(
) {
    let old: MyNode = element(
        "main",
        vec![attr("class", "container")],
        vec![element(
            "article",
            vec![],
            vec![
                element("div", vec![attr("key", "0")], vec![]),
                element("div", vec![attr("key", "1")], vec![]),
                element("div", vec![attr("key", "2")], vec![]),
            ],
        )],
    );

    let new: MyNode = element(
        "main",
        vec![attr("class", "container")],
        vec![element(
            "article",
            vec![],
            vec![element(
                "div",
                vec![attr("key", "2"), attr("class", "some-class")],
                vec![],
            )],
        )],
    );

    let diff = diff_with_key(&old, &new, &"key");
    assert_eq!(
        diff,
        vec![
            Patch::add_attributes(&"div", TreePath::new(vec![0, 2]), vec![&attr("class", "some-class")]),
            Patch::remove_node(Some(&"div"), TreePath::new(vec![0, 0])),
            Patch::remove_node(Some(&"div"), TreePath::new(vec![0, 1])),
        ]
    );
}

#[test]
fn deep_nested_keyed_with_non_keyed_children() {
    let old: MyNode = element(
        "main",
        vec![attr("class", "container")],
        vec![element(
            "article",
            vec![],
            vec![
                element("div", vec![attr("key", "0")], vec![]),
                element("div", vec![attr("key", "1")], vec![]),
                element(
                    "div",
                    vec![attr("key", "2")],
                    vec![
                        element("p", vec![], vec![txt("paragraph1")]),
                        element(
                            "a",
                            vec![attr("href", "#link1")],
                            vec![txt("Click here")],
                        ),
                    ],
                ),
            ],
        )],
    );

    let new: MyNode = element(
        "main",
        vec![attr("class", "container")],
        vec![element(
            "article",
            vec![],
            vec![element(
                "div",
                vec![attr("key", "2"), attr("class", "some-class")],
                vec![
                    element(
                        "p",
                        vec![],
                        vec![txt("paragraph1, with added content")],
                    ),
                    element(
                        "a",
                        vec![attr("href", "#link1")],
                        vec![txt("Click here to continue")],
                    ),
                ],
            )],
        )],
    );

    let diff = diff_with_key(&old, &new, &"key");
    assert_eq!(
        diff,
        vec![
            Patch::add_attributes(&"div", TreePath::new(vec![0, 2]), vec![&attr("class", "some-class")]),
            Patch::replace_node(None, TreePath::new(vec![0, 2, 0, 0]), &leaf("paragraph1, with added content")),
            Patch::replace_node(None, TreePath::new(vec![0, 2, 1, 0]), &leaf("Click here to continue")),
            Patch::remove_node(Some(&"div"), TreePath::new(vec![0, 0])),
            Patch::remove_node(Some(&"div"), TreePath::new(vec![0, 1])),
        ]
    );
}

#[test]
fn text_changed_in_keyed_elements() {
    let old: MyNode = element(
        "main",
        vec![attr("class", "test4")],
        vec![element(
            "section",
            vec![attr("class", "todo")],
            vec![
                element("article", vec![attr("key", "1")], vec![txt("item1")]),
                element("article", vec![attr("key", "2")], vec![txt("item2")]),
                element("article", vec![attr("key", "3")], vec![txt("item3")]),
            ],
        )],
    );

    // we remove the key1, and change the text in item3
    let update1: MyNode = element(
        "main",
        vec![attr("class", "test4")],
        vec![element(
            "section",
            vec![attr("class", "todo")],
            vec![
                element("article", vec![attr("key", "2")], vec![txt("item2")]),
                element(
                    "article",
                    vec![attr("key", "3")],
                    vec![txt("item3 with changes")],
                ),
            ],
        )],
    );

    let patch = diff_with_key(&old, &update1, &"key");

    assert_eq!(
        patch,
        vec![
            Patch::replace_node(None, TreePath::new(vec![0, 2, 0]), &leaf("item3 with changes")),
            Patch::remove_node(Some(&"article"), TreePath::new(vec![0, 0]))
        ]
    );
}

#[test]
fn text_changed_in_mixed_keyed_and_non_keyed_elements() {
    let old: MyNode = element(
        "main",
        vec![attr("class", "test4")],
        vec![
            element(
                "section",
                vec![attr("class", "todo")],
                vec![
                    element(
                        "article",
                        vec![attr("key", "1")],
                        vec![txt("item1")],
                    ),
                    element(
                        "article",
                        vec![attr("key", "2")],
                        vec![txt("item2")],
                    ),
                    element(
                        "article",
                        vec![attr("key", "3")],
                        vec![txt("item3")],
                    ),
                ],
            ),
            element("footer", vec![], vec![txt("3 items left")]),
        ],
    );

    // we remove the key1, and change the text in item3
    let update1: MyNode = element(
        "main",
        vec![attr("class", "test4")],
        vec![
            element(
                "section",
                vec![attr("class", "todo")],
                vec![
                    element(
                        "article",
                        vec![attr("key", "2")],
                        vec![txt("item2")],
                    ),
                    element(
                        "article",
                        vec![attr("key", "3")],
                        vec![txt("item3 with changes")],
                    ),
                ],
            ),
            element("footer", vec![], vec![txt("2 items left")]),
        ],
    );

    let patch = diff_with_key(&old, &update1, &"key");
    assert_eq!(
        patch,
        vec![
            Patch::replace_node(None, TreePath::new(vec![0, 2, 0]), &leaf("item3 with changes")),
            Patch::remove_node(Some(&"article"), TreePath::new(vec![0, 0])),
            Patch::replace_node(None, TreePath::new(vec![1, 0]), &leaf("2 items left")),
        ]
    );
}

/// mixed of keyed and non-keyed elements
#[test]
fn test12() {
    let old: MyNode = element(
        "main",
        vec![attr("class", "test4")],
        vec![
            element("header", vec![], vec![txt("Items:")]),
            element(
                "section",
                vec![attr("class", "todo")],
                vec![
                    element(
                        "article",
                        vec![attr("key", "1")],
                        vec![txt("item1")],
                    ),
                    element(
                        "article",
                        vec![attr("key", "2")],
                        vec![txt("item2")],
                    ),
                    element(
                        "article",
                        vec![attr("key", "3")],
                        vec![txt("item3")],
                    ),
                ],
            ),
            element("footer", vec![], vec![txt("3 items left")]),
        ],
    );

    // we remove the key1, and change the text in item3
    let update1: MyNode = element(
        "main",
        vec![attr("class", "test4")],
        vec![
            element("header", vec![], vec![txt("Items:")]),
            element(
                "section",
                vec![attr("class", "todo")],
                vec![
                    element(
                        "article",
                        vec![attr("key", "2")],
                        vec![txt("item2")],
                    ),
                    element(
                        "article",
                        vec![attr("key", "3")],
                        vec![txt("item3 with changes")],
                    ),
                ],
            ),
            element("footer", vec![], vec![txt("2 items left")]),
        ],
    );

    let patch = diff_with_key(&old, &update1, &"key");
    assert_eq!(
        patch,
        vec![
            Patch::replace_node(None, TreePath::new(vec![1, 2, 0]), &leaf("item3 with changes")),
            Patch::remove_node(Some(&"article"), TreePath::new(vec![1, 0])),
            Patch::replace_node(None, TreePath::new(vec![2, 0]), &leaf("2 items left")),
        ]
    );
}

#[test]
fn remove_first() {
    let old: MyNode = element(
        "div",
        vec![attr("id", "some-id"), attr("class", "some-class")],
        vec![
            element("div", vec![attr("key", "1")], vec![txt(1)]),
            element("div", vec![attr("key", "2")], vec![txt(2)]),
            element("div", vec![attr("key", "3")], vec![txt(3)]),
        ],
    );

    let new: MyNode = element(
        "div",
        vec![attr("id", "some-id"), attr("class", "some-class")],
        vec![
            element("div", vec![attr("key", "2")], vec![txt(2)]),
            element("div", vec![attr("key", "3")], vec![txt(3)]),
        ],
    );

    let diff = diff_with_key(&old, &new, &"key");
    assert_eq!(
        diff,
        vec![Patch::remove_node(Some(&"div"), TreePath::new(vec![0]))]
    )
}


#[test]
fn key_2_inserted_at_start() {
    let old: MyNode = element(
        "main",
        vec![attr("class", "container")],
        vec![element("div", vec![attr("key", "1")], vec![])],
    );

    let new: MyNode = element(
        "main",
        vec![attr("class", "container")],
        vec![
            element("div", vec![attr("key", "2")], vec![]),
            element("div", vec![attr("key", "1")], vec![]),
        ],
    );

    let diff = diff_with_key(&old, &new, &"key");

    // the tag of an insertion is that of the node it goes before
    assert_eq!(
        diff,
        vec![Patch::insert_node(
            Some(&"div"),
            TreePath::new(vec![0]),
            &element("div", vec![attr("key", "2")], vec![])
        )]
    );
}

#[test]
fn key_2_inserted_in_the_middle() {
    let old: MyNode = element(
        "main",
        vec![attr("class", "container")],
        vec![
            element("div", vec![attr("key", "1")], vec![]),
            element("div", vec![attr("key", "3")], vec![]),
        ],
    );

    let new: MyNode = element(
        "main",
        vec![attr("class", "container")],
        vec![
            element("div", vec![attr("key", "1")], vec![]),
            element("div", vec![attr("key", "2")], vec![]),
            element("div", vec![attr("key", "3")], vec![]),
        ],
    );

    let diff = diff_with_key(&old, &new, &"key");

    // the tag of an insertion is that of the node it goes before
    assert_eq!(
        diff,
        vec![Patch::insert_node(
            Some(&"div"),
            TreePath::new(vec![1]),
            &element("div", vec![attr("key", "2")], vec![])
        )]
    );
}

#[test]
fn there_are_2_exact_same_keys_in_the_old() {
    let old: MyNode = element(
        "main",
        vec![attr("class", "container")],
        vec![
            element("div", vec![attr("key", "1")], vec![txt(0)]),
            element("div", vec![attr("key", "1")], vec![txt(1)]),
            element("div", vec![attr("key", "3")], vec![txt(2)]),
        ],
    );

    let new: MyNode = element(
        "main",
        vec![attr("class", "container")],
        vec![
            element("div", vec![attr("key", "1")], vec![txt(1)]),
            element("div", vec![attr("key", "3")], vec![txt(2)]),
        ],
    );

    let diff = diff_with_key(&old, &new, &"key");
    // a changed text is a replaced leaf
    assert_eq!(
        diff,
        vec![
            Patch::replace_node(None, TreePath::new(vec![0, 0]), &txt(1)),
            Patch::remove_node(Some(&"div"), TreePath::new(vec![1])),
        ]
    );
}

#[test]
fn there_are_2_exact_same_keys_in_the_new() {
    let old: MyNode = element(
        "main",
        vec![attr("class", "container")],
        vec![
            element("div", vec![attr("key", "1")], vec![txt(0)]),
            element("div", vec![attr("key", "3")], vec![txt(2)]),
        ],
    );

    let new: MyNode = element(
        "main",
        vec![attr("class", "container")],
        vec![
            element("div", vec![attr("key", "1")], vec![txt(1)]),
            element("div", vec![attr("key", "1")], vec![txt(1)]),
            element("div", vec![attr("key", "3")], vec![txt(2)]),
        ],
    );

    let diff = diff_with_key(&old, &new, &"key");
    assert_eq!(
        diff,
        vec![
            Patch::replace_node(None, TreePath::new(vec![0, 0]), &txt(1)),
            Patch::insert_node(
                Some(&"div"),
                TreePath::new(vec![1]),
                &element("div", vec![attr("key", "1")], vec![txt(1)])
            ),
        ]
    );
}
