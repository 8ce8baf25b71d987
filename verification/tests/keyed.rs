use mt_dom::diff::keyed::{diff_keyed_elements, try_diff_keyed_elements};
use mt_dom::{attr, element, fragment, leaf, Node, Patch, TreePath};

fn never(_old: &Node, _new: &Node) -> bool {
    false
}

fn diff<'a>(old: &'a Node, new: &'a Node) -> Vec<Patch<'a>> {
    diff_keyed_elements(
        old.element_ref().unwrap(),
        new.element_ref().unwrap(),
        &"key",
        &TreePath::root(),
        &never,
        &never,
    )
}

#[test]
fn keyed_test_empty() {
    let old = element("div", vec![], vec![]);
    let new = element("div", vec![], vec![]);
    let patches = diff(&old, &new);
    assert_eq!(patches, vec![]);
}

#[test]
fn keyed_no_difference() {
    let old = element("div", vec![attr("key", "1")], vec![]);
    let new = element("div", vec![attr("key", "1")], vec![]);
    let patches = diff_keyed_elements(
        old.element_ref().unwrap(),
        new.element_ref().unwrap(),
        &"key",
        &TreePath::from(vec![]),
        &never,
        &never,
    );
    assert_eq!(patches, vec![]);
}

#[test]
fn no_difference_matching_key() {
    let old = element("main", vec![], vec![element("div", vec![attr("key", "1")], vec![])]);
    let new = element("main", vec![], vec![element("div", vec![attr("key", "1")], vec![])]);
    let patches = diff(&old, &new);
    assert_eq!(patches, vec![]);
}

#[test]
fn keyed_not_matched() {
    let old = element("main", vec![], vec![element("div", vec![attr("key", "1")], vec![])]);
    let new = element("main", vec![], vec![element("div", vec![attr("key", "2")], vec![])]);
    let patches = diff(&old, &new);
    assert_eq!(
        patches,
        vec![
            Patch::remove_node(Some(&"div"), TreePath::new(vec![0])),
            Patch::append_children(
                &"main",
                TreePath::new(vec![]),
                vec![&element("div", vec![attr("key", "2")], vec![])]
            )
        ]
    );
}

#[test]
fn keyed_inserted_at_the_end() {
    let old = element("main", vec![], vec![element("div", vec![attr("key", "1")], vec![])]);
    let new = element(
        "main",
        vec![],
        vec![
            element("div", vec![attr("key", "1")], vec![]),
            element("div", vec![attr("key", "2")], vec![]),
        ],
    );
    let patches = diff(&old, &new);
    assert_eq!(
        patches,
        vec![Patch::insert_after_node(
            Some(&"div"),
            TreePath::new(vec![0]),
            vec![&element("div", vec![attr("key", "2")], vec![])]
        )]
    );
}

#[test]
fn keyed_remove_at_start() {
    let old = element(
        "main",
        vec![],
        vec![
            element("div", vec![attr("key", "1")], vec![]),
            element("div", vec![attr("key", "2")], vec![]),
        ],
    );
    let new = element("main", vec![], vec![element("div", vec![attr("key", "2")], vec![])]);
    let patches = diff(&old, &new);
    assert_eq!(patches, vec![Patch::remove_node(Some(&"div"), vec![0].into())]);
}

#[test]
fn keyed_remove_at_end() {
    let old = element(
        "main",
        vec![],
        vec![
            element("div", vec![attr("key", "1")], vec![]),
            element("div", vec![attr("key", "2")], vec![]),
        ],
    );
    let new = element("main", vec![], vec![element("div", vec![attr("key", "1")], vec![])]);
    let patches = diff(&old, &new);
    assert_eq!(patches, vec![Patch::remove_node(Some(&"div"), vec![1].into())]);
}

#[test]
fn keyed_all_matched() {
    let old = element(
        "main",
        vec![],
        vec![
            element("div", vec![attr("key", "1")], vec![]),
            element("div", vec![attr("key", "2")], vec![]),
            element("div", vec![attr("key", "3")], vec![]),
        ],
    );
    let new = element(
        "main",
        vec![],
        vec![
            element("div", vec![attr("key", "1")], vec![]),
            element("div", vec![attr("key", "2")], vec![]),
            element("div", vec![attr("key", "3")], vec![]),
        ],
    );
    let patches = diff(&old, &new);
    assert_eq!(patches, vec![]);
}

#[test]
fn keyed_child_differs() {
    let old = element(
        "main",
        vec![],
        vec![
            element("div", vec![attr("key", "1")], vec![leaf("10")]),
            element("div", vec![attr("key", "2")], vec![leaf("20")]),
            element("div", vec![attr("key", "3")], vec![leaf("30")]),
        ],
    );
    let new = element(
        "main",
        vec![],
        vec![
            element("div", vec![attr("key", "1")], vec![leaf("1000")]),
            element("div", vec![attr("key", "2")], vec![leaf("2000")]),
            element("div", vec![attr("key", "3")], vec![leaf("3000")]),
        ],
    );
    let patches = diff(&old, &new);
    assert_eq!(
        patches,
        vec![
            Patch::replace_node(None, vec![0, 0].into(), &leaf("1000")),
            Patch::replace_node(None, vec![1, 0].into(), &leaf("2000")),
            Patch::replace_node(None, vec![2, 0].into(), &leaf("3000")),
        ]
    );
}

#[test]
fn keyed_rearranged() {
    let old = element(
        "main",
        vec![],
        vec![
            element("div", vec![attr("key", "1")], vec![]),
            element("div", vec![attr("key", "2")], vec![]),
            element("div", vec![attr("key", "3")], vec![]),
        ],
    );
    let new = element(
        "main",
        vec![],
        vec![
            element("div", vec![attr("key", "3")], vec![]),
            element("div", vec![attr("key", "2")], vec![]),
            element("div", vec![attr("key", "1")], vec![]),
        ],
    );
    let patches = diff(&old, &new);
    assert_eq!(
        patches,
        vec![
            Patch::remove_node(Some(&"div"), TreePath::new(vec![0])),
            Patch::remove_node(Some(&"div"), TreePath::new(vec![1])),
            Patch::insert_after_node(
                Some(&"div"),
                TreePath::new(vec![2]),
                vec![
                    &element("div", vec![attr("key", "2")], vec![]),
                    &element("div", vec![attr("key", "1")], vec![])
                ]
            )
        ]
    );
}

#[test]
fn keyed_inserted_at_the_middle() {
    let old = element(
        "main",
        vec![],
        vec![
            element("div", vec![attr("key", "1")], vec![]),
            element("div", vec![attr("key", "3")], vec![]),
        ],
    );
    let new = element(
        "main",
        vec![],
        vec![
            element("div", vec![attr("key", "1")], vec![]),
            element("div", vec![attr("key", "2")], vec![]),
            element("div", vec![attr("key", "3")], vec![]),
        ],
    );
    let patches = diff(&old, &new);
    assert_eq!(
        patches,
        vec![Patch::insert_before_node(
            Some(&"div"),
            TreePath::new(vec![1]),
            vec![&element("div", vec![attr("key", "2")], vec![])]
        )]
    );
}

#[test]
fn keyed_multiple_matches_start_and_end() {
    let old = element(
        "main",
        vec![],
        vec![
            element("div", vec![attr("key", "1")], vec![]),
            element("div", vec![attr("key", "2")], vec![]),
            element("div", vec![attr("key", "3")], vec![]),
            element("div", vec![attr("key", "4")], vec![]),
        ],
    );
    let new = element(
        "main",
        vec![],
        vec![
            element("div", vec![attr("key", "1")], vec![]),
            element("div", vec![attr("key", "20")], vec![]),
            element("div", vec![attr("key", "30")], vec![]),
            element("div", vec![attr("key", "4")], vec![]),
        ],
    );
    let patches = diff(&old, &new);
    assert_eq!(
        patches,
        vec![
            Patch::remove_node(Some(&"div"), TreePath::new(vec![1])),
            Patch::remove_node(Some(&"div"), TreePath::new(vec![2])),
            Patch::insert_before_node(
                Some(&"div"),
                TreePath::new(vec![3]),
                vec![
                    &element("div", vec![attr("key", "20")], vec![]),
                    &element("div", vec![attr("key", "30")], vec![])
                ]
            )
        ]
    );
}

#[test]
fn keyed_multiple_matches_at_middle() {
    let old = element(
        "main",
        vec![],
        vec![
            element("div", vec![attr("key", "1")], vec![]),
            element("div", vec![attr("key", "2")], vec![]),
            element("div", vec![attr("key", "3")], vec![]),
            element("div", vec![attr("key", "4")], vec![]),
        ],
    );
    let new = element(
        "main",
        vec![],
        vec![
            element("div", vec![attr("key", "10")], vec![]),
            element("div", vec![attr("key", "2")], vec![]),
            element("div", vec![attr("key", "3")], vec![]),
            element("div", vec![attr("key", "40")], vec![]),
        ],
    );
    let patches = diff(&old, &new);
    assert_eq!(
        patches,
        vec![
            Patch::remove_node(Some(&"div"), TreePath::new(vec![0])),
            Patch::insert_before_node(
                Some(&"div"),
                TreePath::new(vec![1]),
                vec![&element("div", vec![attr("key", "10")], vec![]),]
            ),
            Patch::remove_node(Some(&"div"), TreePath::new(vec![3])),
            Patch::insert_after_node(
                Some(&"div"),
                TreePath::new(vec![2]),
                vec![&element("div", vec![attr("key", "40")], vec![])]
            ),
        ]
    );
}

#[test]
fn keyed_try_diff_fails_on_fragments_under_a_matched_pair() {
    let old = element(
        "main",
        vec![],
        vec![element("div", vec![attr("key", "1")], vec![fragment(vec![])])],
    );
    let new = element(
        "main",
        vec![],
        vec![element("div", vec![attr("key", "1")], vec![fragment(vec![leaf("x")])])],
    );
    let r = try_diff_keyed_elements(
        old.element_ref().unwrap(),
        new.element_ref().unwrap(),
        &"key",
        &TreePath::root(),
        &never,
        &never,
    );
    assert_eq!(r, None);
}

#[test]
fn keyed_try_diff_agrees_when_defined() {
    let old = element("main", vec![], vec![element("div", vec![attr("key", "1")], vec![])]);
    let new = element(
        "main",
        vec![],
        vec![
            element("div", vec![attr("key", "0")], vec![]),
            element("div", vec![attr("key", "1")], vec![]),
        ],
    );
    let r = try_diff_keyed_elements(
        old.element_ref().unwrap(),
        new.element_ref().unwrap(),
        &"key",
        &TreePath::root(),
        &never,
        &never,
    );
    assert_eq!(r, Some(diff(&old, &new)));
}
