use mt_dom::apply_patches::{find_node, insert_node, remove_node};
use mt_dom::{attr, element, leaf, Node};

#[test]
fn test_find_node_simple() {
    let mut old: Node = element(
        "main",
        vec![attr("class", "test4")],
        vec![
            element("header", vec![], vec![leaf("Items:")]),
            element(
                "section",
                vec![attr("class", "todo")],
                vec![
                    element("article", vec![], vec![leaf("item1")]),
                    element("article", vec![], vec![leaf("item2")]),
                    element("article", vec![], vec![leaf("item3")]),
                ],
            ),
            element("footer", vec![], vec![leaf("3 items left")]),
        ],
    );
    let found = find_node(&mut old, 11);
    assert_eq!(found, Some(&mut leaf("3 items left")));
}

#[test]
fn test_find_node_numbered() {
    let mut old: Node = element(
        "elm0",
        vec![attr("node", "0")],
        vec![
            element("elm1", vec![attr("node", "1")], vec![leaf("Elm2")]),
            element(
                "elm3",
                vec![attr("node", "3")],
                vec![
                    element("elm4", vec![attr("node", "4")], vec![leaf("Elm5")]),
                    element("elm6", vec![attr("node", "6")], vec![leaf("Elm7")]),
                    element("elm8", vec![attr("node", "8")], vec![leaf("Elm9")]),
                ],
            ),
            element("elm10", vec![attr("node", "10")], vec![leaf("Elm11")]),
        ],
    );

    let found = find_node(&mut old, 9).expect("must find the 9th node");
    assert_eq!(found, &leaf("Elm9"));
    assert_eq!(find_node(&mut old, 11).unwrap(), &leaf("Elm11"));
}

fn numbered() -> Node {
    element(
        "elm0",
        vec![],
        vec![
            element("elm1", vec![], vec![leaf("Elm2")]),
            element("elm3", vec![], vec![leaf("Elm4")]),
        ],
    )
}

#[test]
fn find_node_at_root_and_past_the_end() {
    let mut tree = numbered();
    let copy = numbered();
    assert_eq!(find_node(&mut tree, 0), Some(&mut numbered()));
    assert_eq!(find_node(&mut tree, 5), None);
    assert_eq!(tree, copy);
}

#[test]
fn find_node_changes_in_place() {
    let mut tree = numbered();
    if let Some(found) = find_node(&mut tree, 4) {
        *found = leaf("changed");
    }
    assert_eq!(
        tree,
        element(
            "elm0",
            vec![],
            vec![
                element("elm1", vec![], vec![leaf("Elm2")]),
                element("elm3", vec![], vec![leaf("changed")]),
            ],
        )
    );
}

#[test]
fn remove_node_by_index() {
    let mut tree = numbered();
    assert!(remove_node(&mut tree, 2));
    assert_eq!(
        tree,
        element(
            "elm0",
            vec![],
            vec![element("elm1", vec![], vec![]), element("elm3", vec![], vec![leaf("Elm4")])],
        )
    );
    assert!(remove_node(&mut tree, 1));
    assert_eq!(tree, element("elm0", vec![], vec![element("elm3", vec![], vec![leaf("Elm4")])]));
}

#[test]
fn remove_node_refuses_root_and_missing() {
    let mut tree = numbered();
    assert!(!remove_node(&mut tree, 0));
    assert!(!remove_node(&mut tree, 9));
    assert_eq!(tree, numbered());
}

#[test]
fn insert_node_before_index() {
    let mut tree = numbered();
    let new_node = element("new", vec![attr("class", "x")], vec![]);
    assert!(insert_node(&mut tree, 3, &new_node));
    assert_eq!(
        tree,
        element(
            "elm0",
            vec![],
            vec![
                element("elm1", vec![], vec![leaf("Elm2")]),
                element("new", vec![attr("class", "x")], vec![]),
                element("elm3", vec![], vec![leaf("Elm4")]),
            ],
        )
    );
    assert_eq!(find_node(&mut tree, 3), Some(&mut element("new", vec![attr("class", "x")], vec![])));
}

#[test]
fn insert_node_refuses_root_and_missing() {
    let mut tree = numbered();
    let new_node = leaf("x");
    assert!(!insert_node(&mut tree, 0, &new_node));
    assert!(!insert_node(&mut tree, 7, &new_node));
    assert_eq!(tree, numbered());
}
