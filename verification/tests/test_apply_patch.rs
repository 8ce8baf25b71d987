use mt_dom::diff::diff_with_key;
use mt_dom::{apply_patches, attr, element, leaf, Node, Patch, TreePath};

type MyNode = Node;

#[test]
fn append_children() {
    let old: MyNode = element(
        "main",
        vec![attr("class", "container")],
        vec![element("div", vec![attr("key", "1")], vec![])],
    );

    let new: MyNode = element(
        "main",
        vec![attr("class", "container")],
        vec![
            element("div", vec![attr("key", "1")], vec![]),
            element("div", vec![attr("key", "2")], vec![]),
        ],
    );

    let patches = diff_with_key(&old, &new, &"key");

    let appended = element("div", vec![attr("key", "2")], vec![]);
    assert_eq!(
        patches,
        vec![Patch::append_children(
            &"main",
            TreePath::new(vec![]),
            vec![&appended]
        )]
    );
    let mut old_clone = old.clone();
    assert!(apply_patches(&mut old_clone, &patches));
    assert_eq!(&old_clone, &new);
}

#[test]
fn remove_children() {
    let old: MyNode = element(
        "main",
        vec![attr("class", "container")],
        vec![
            element("div", vec![attr("key", "1")], vec![]),
            element("div", vec![attr("key", "2")], vec![]),
        ],
    );

    let new: MyNode = element(
        "main",
        vec![attr("class", "container")],
        vec![element("div", vec![attr("key", "2")], vec![])],
    );

    let patches = diff_with_key(&old, &new, &"key");

    assert_eq!(
        patches,
        vec![Patch::remove_node(Some(&"div"), TreePath::new(vec![0]))]
    );

    let mut old_clone = old.clone();
    assert!(apply_patches(&mut old_clone, &patches));
    assert_eq!(&old_clone, &new);
}

#[test]
fn test_apply_patch_test_replace_node() {
    let old: MyNode = element("div", vec![], vec![]);
    let new = element("span", vec![], vec![]);

    let patches = diff_with_key(&old, &new, &"key");
    assert_eq!(
        patches,
        vec![Patch::replace_node(Some(&"div"), TreePath::new(vec![]), &new)],
    );

    let mut old_clone = old.clone();
    assert!(apply_patches(&mut old_clone, &patches));
    assert_eq!(&old_clone, &new);
}

#[test]
fn change_text() {
    let old: MyNode = element(
        "div",
        vec![attr("id", "some-id"), attr("class", "some-class")],
        vec![leaf("text1")],
    );

    let new = element(
        "div",
        vec![attr("id", "some-id"), attr("class", "some-class")],
        vec![leaf("text2")],
    );

    let patches = diff_with_key(&old, &new, &"key");
    let text2 = leaf("text2");
    assert_eq!(
        patches,
        vec![Patch::replace_node(None, TreePath::new(vec![0]), &text2)]
    );

    let mut old_clone = old.clone();
    assert!(apply_patches(&mut old_clone, &patches));
    assert_eq!(&old_clone, &new);
}

#[test]
fn remove_attributes() {
    let old: MyNode = element(
        "div",
        vec![attr("id", "some-id"), attr("class", "some-class")],
        vec![],
    );

    let new = element("div", vec![attr("id", "some-id")], vec![]);

    let patches = diff_with_key(&old, &new, &"key");
    let class = attr("class", "some-class");
    assert_eq!(
        patches,
        vec![Patch::remove_attributes(
            &"div",
            TreePath::new(vec![]),
            vec![&class]
        )]
    );

    let mut old_clone = old.clone();
    assert!(apply_patches(&mut old_clone, &patches));
    assert_eq!(&old_clone, &new);
}

#[test]
fn insert_children() {
    let old: MyNode = element(
        "main",
        vec![attr("class", "container")],
        vec![element("div", vec![attr("key", "1")], vec![])],
    );

    let new: MyNode = element(
        "main",
        vec![attr("class", "container")],
        vec![
            element("div", vec![attr("key", "2")], vec![]),
            element("div", vec![attr("key", "1")], vec![]),
        ],
    );

    let patches = diff_with_key(&old, &new, &"key");

    let inserted = element("div", vec![attr("key", "2")], vec![]);
    assert_eq!(
        patches,
        vec![Patch::insert_before_node(
            Some(&"div"),
            TreePath::new(vec![0]),
            vec![&inserted]
        )]
    );

    let mut old_clone = old.clone();
    assert!(apply_patches(&mut old_clone, &patches));
    assert_eq!(&old_clone, &new);
}

fn todo_list(items: Vec<MyNode>, footer: &str) -> MyNode {
    element(
        "main",
        vec![attr("class", "test4")],
        vec![
            element("header", vec![], vec![leaf("Items:")]),
            element("section", vec![attr("class", "todo")], items),
            element("footer", vec![], vec![leaf(footer)]),
        ],
    )
}

#[test]
fn test_multiple_patch_non_keyed() {
    let old: MyNode = todo_list(
        vec![
            element("article", vec![], vec![leaf("item1")]),
            element("article", vec![], vec![leaf("item2")]),
            element("article", vec![], vec![leaf("item3")]),
        ],
        "3 items left",
    );

    // we remove the key1, and change the text in item3
    let update1: MyNode = todo_list(
        vec![
            element("article", vec![], vec![leaf("item2")]),
            element("article", vec![], vec![leaf("item3 with changes")]),
        ],
        "2 items left",
    );

    let patch = diff_with_key(&old, &update1, &"key");
    let item2 = leaf("item2");
    let item3_changed = leaf("item3 with changes");
    let left2 = leaf("2 items left");
    assert_eq!(
        patch,
        vec![
            Patch::replace_node(None, TreePath::new(vec![1, 0, 0]), &item2),
            Patch::replace_node(None, TreePath::new(vec![1, 1, 0]), &item3_changed),
            Patch::remove_node(Some(&"article"), TreePath::new(vec![1, 2])),
            Patch::replace_node(None, TreePath::new(vec![2, 0]), &left2),
        ]
    );

    let mut old_clone = old.clone();
    assert!(apply_patches(&mut old_clone, &patch));
    assert_eq!(&old_clone, &update1);
}

#[test]
fn test_multiple_patch_keyed() {
    let old: MyNode = todo_list(
        vec![
            element("article", vec![attr("key", "1")], vec![leaf("item1")]),
            element("article", vec![attr("key", "2")], vec![leaf("item2")]),
            element("article", vec![attr("key", "3")], vec![leaf("item3")]),
        ],
        "3 items left",
    );

    // we remove the key1, and change the text in item3
    let update1: MyNode = todo_list(
        vec![
            element("article", vec![attr("key", "2")], vec![leaf("item2")]),
            element(
                "article",
                vec![attr("key", "3")],
                vec![leaf("item3 with changes")],
            ),
        ],
        "2 items left",
    );

    let patch = diff_with_key(&old, &update1, &"key");
    let item3_changed = leaf("item3 with changes");
    let left2 = leaf("2 items left");
    assert_eq!(
        patch,
        vec![
            Patch::replace_node(None, TreePath::new(vec![1, 2, 0]), &item3_changed),
            Patch::remove_node(Some(&"article"), TreePath::new(vec![1, 0])),
            Patch::replace_node(None, TreePath::new(vec![2, 0]), &left2),
        ]
    );

    let mut old_clone = old.clone();
    assert!(apply_patches(&mut old_clone, &patch));
    assert_eq!(&old_clone, &update1);
}

#[test]
fn swapped_keyed_children_are_moved_back() {
    let keyed = |k: &str| element("div", vec![attr("key", k)], vec![leaf(k)]);
    let old: MyNode = element("main", vec![], vec![keyed("1"), keyed("2"), keyed("3")]);
    let new: MyNode = element("main", vec![], vec![keyed("1"), keyed("3"), keyed("2")]);
    let patches = diff_with_key(&old, &new, &"key");
    assert_eq!(
        patches,
        vec![Patch::move_before_node(
            Some(&"div"),
            TreePath::new(vec![1]),
            vec![TreePath::new(vec![2])]
        )]
    );
    let mut old_clone = old.clone();
    assert!(apply_patches(&mut old_clone, &patches));
    assert_eq!(&old_clone, &new);
}

#[test]
fn applying_the_diff_of_a_tree_with_itself_keeps_it() {
    let tree: MyNode = element(
        "main",
        vec![attr("class", "container")],
        vec![element("div", vec![attr("key", "1")], vec![leaf("x")]), leaf("y")],
    );
    let patches = diff_with_key(&tree, &tree, &"key");
    assert_eq!(patches, vec![]);
    let mut copy = tree.clone();
    assert!(apply_patches(&mut copy, &patches));
    assert_eq!(copy, tree);
}

#[test]
fn changed_texts_in_a_tree_of_the_same_shape_come_back() {
    let make = |a: &str, b: &str, c: &str| -> MyNode {
        element(
            "main",
            vec![attr("class", "page")],
            vec![
                element("div", vec![], vec![leaf(a)]),
                element("p", vec![attr("id", "x")], vec![leaf(b), element("span", vec![], vec![leaf(c)])]),
            ],
        )
    };
    let old = make("one", "two", "three");
    let new = make("one", "deux", "trois");
    let patches = diff_with_key(&old, &new, &"key");
    let deux = leaf("deux");
    let trois = leaf("trois");
    assert_eq!(
        patches,
        vec![
            Patch::replace_node(None, TreePath::new(vec![1, 0]), &deux),
            Patch::replace_node(None, TreePath::new(vec![1, 1, 0]), &trois),
        ]
    );
    let mut old_clone = old.clone();
    assert!(apply_patches(&mut old_clone, &patches));
    assert_eq!(old_clone, new);
}

#[test]
fn appended_children_at_two_levels_come_back() {
    let old: MyNode = element(
        "ul",
        vec![],
        vec![element("li", vec![], vec![leaf("a")])],
    );
    let new: MyNode = element(
        "ul",
        vec![],
        vec![
            element("li", vec![], vec![leaf("a"), leaf("a2")]),
            element("li", vec![], vec![leaf("b")]),
        ],
    );
    let patches = diff_with_key(&old, &new, &"key");
    let a2 = leaf("a2");
    let b = element("li", vec![], vec![leaf("b")]);
    assert_eq!(
        patches,
        vec![
            Patch::append_children(&"li", TreePath::new(vec![0]), vec![&a2]),
            Patch::append_children(&"ul", TreePath::new(vec![]), vec![&b]),
        ]
    );
    let mut old_clone = old.clone();
    assert!(apply_patches(&mut old_clone, &patches));
    assert_eq!(old_clone, new);
}

#[test]
fn two_trailing_removals_do_not_come_back() {
    // the removals name positions of the tree before any of them applied
    let old: MyNode = element("ul", vec![], vec![leaf("a"), leaf("b"), leaf("c")]);
    let new: MyNode = element("ul", vec![], vec![leaf("a")]);
    let patches = diff_with_key(&old, &new, &"key");
    assert_eq!(
        patches,
        vec![
            Patch::remove_node(None, TreePath::new(vec![1])),
            Patch::remove_node(None, TreePath::new(vec![2])),
        ]
    );
    let mut old_clone = old.clone();
    assert!(apply_patches(&mut old_clone, &patches));
    assert_eq!(old_clone, element("ul", vec![], vec![leaf("a"), leaf("c")]));
}

#[test]
fn attributes_taken_out_and_added_and_keyed_children_come_back() {
    let old: MyNode = element(
        "ul",
        vec![attr("id", "list"), attr("class", "a"), attr("title", "t")],
        vec![
            element("li", vec![attr("key", "1")], vec![leaf("one")]),
            element("li", vec![attr("key", "2")], vec![leaf("two")]),
            element("li", vec![attr("key", "4")], vec![leaf("four")]),
        ],
    );
    let new: MyNode = element(
        "ul",
        vec![attr("id", "list"), attr("title", "t"), attr("role", "menu")],
        vec![
            element("li", vec![attr("key", "1")], vec![leaf("uno")]),
            element("li", vec![attr("key", "2")], vec![leaf("two")]),
            element("li", vec![attr("key", "3")], vec![leaf("three")]),
            element("li", vec![attr("key", "4")], vec![leaf("four")]),
        ],
    );
    let patches = diff_with_key(&old, &new, &"key");
    let mut old_clone = old.clone();
    assert!(apply_patches(&mut old_clone, &patches));
    assert_eq!(old_clone, new);
}

#[test]
fn swapped_keyed_rows_come_back() {
    let row = |k: &str| element("div", vec![attr("key", k)], vec![leaf(&format!("line{}", k))]);
    let old: MyNode = element(
        "main",
        vec![attr("class", "container")],
        ["1", "2", "3", "4", "5", "6", "7", "8", "9"].iter().map(|k| row(k)).collect(),
    );
    let new: MyNode = element(
        "main",
        vec![attr("class", "container")],
        ["1", "7", "3", "4", "5", "6", "2", "8", "9"].iter().map(|k| row(k)).collect(),
    );
    let patches = diff_with_key(&old, &new, &"key");
    assert_eq!(
        patches,
        vec![
            Patch::move_after_node(Some(&"div"), TreePath::new(vec![5]), vec![TreePath::new(vec![1])]),
            Patch::move_before_node(Some(&"div"), TreePath::new(vec![1]), vec![TreePath::new(vec![6])]),
        ]
    );
    let mut old_clone = old.clone();
    assert!(apply_patches(&mut old_clone, &patches));
    assert_eq!(old_clone, new);
}
