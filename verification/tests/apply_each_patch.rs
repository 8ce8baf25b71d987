use mt_dom::{apply_patches, attr, element, leaf, Node, Patch, TreePath};

fn list() -> Node {
    element(
        "ul",
        vec![attr("class", "list")],
        vec![
            element("li", vec![], vec![leaf("a")]),
            element("li", vec![], vec![leaf("b")]),
        ],
    )
}

#[test]
fn no_patch_keeps_the_tree() {
    let mut n = list();
    assert!(apply_patches(&mut n, &[]));
    assert_eq!(n, list());
}

#[test]
fn insert_after_puts_the_nodes_after_the_target() {
    let x = element("li", vec![], vec![leaf("x")]);
    let y = element("li", vec![], vec![leaf("y")]);
    let patches = vec![Patch::insert_after_node(
        Some(&"li"),
        TreePath::new(vec![0]),
        vec![&x, &y],
    )];
    let mut n = list();
    assert!(apply_patches(&mut n, &patches));
    let expected = element(
        "ul",
        vec![attr("class", "list")],
        vec![
            element("li", vec![], vec![leaf("a")]),
            element("li", vec![], vec![leaf("x")]),
            element("li", vec![], vec![leaf("y")]),
            element("li", vec![], vec![leaf("b")]),
        ],
    );
    assert_eq!(n, expected);
}

#[test]
fn insert_before_a_missing_node_keeps_the_tree() {
    let x = leaf("x");
    let patches = vec![Patch::insert_node(Some(&"li"), TreePath::new(vec![5]), &x)];
    let mut n = list();
    assert!(apply_patches(&mut n, &patches));
    assert_eq!(n, list());
}

#[test]
fn removing_the_root_keeps_the_tree() {
    let patches = vec![Patch::remove_node(Some(&"ul"), TreePath::new(vec![]))];
    let mut n = list();
    assert!(apply_patches(&mut n, &patches));
    assert_eq!(n, list());
}

#[test]
fn remove_takes_out_the_nested_node() {
    let patches = vec![Patch::remove_node(None, TreePath::new(vec![1, 0]))];
    let mut n = list();
    assert!(apply_patches(&mut n, &patches));
    let expected = element(
        "ul",
        vec![attr("class", "list")],
        vec![
            element("li", vec![], vec![leaf("a")]),
            element("li", vec![], vec![]),
        ],
    );
    assert_eq!(n, expected);
}

#[test]
fn replace_puts_several_nodes_in_place() {
    let x = leaf("x");
    let y = leaf("y");
    let patches = vec![Patch::replace_with_nodes(
        Some(&"li"),
        TreePath::new(vec![0]),
        vec![&x, &y],
    )];
    let mut n = list();
    assert!(apply_patches(&mut n, &patches));
    let expected = element(
        "ul",
        vec![attr("class", "list")],
        vec![leaf("x"), leaf("y"), element("li", vec![], vec![leaf("b")])],
    );
    assert_eq!(n, expected);
}

#[test]
fn the_root_is_replaced_by_one_node_only() {
    let x = leaf("x");
    let y = leaf("y");
    let two = vec![Patch::replace_with_nodes(None, TreePath::new(vec![]), vec![&x, &y])];
    let mut n = list();
    assert!(!apply_patches(&mut n, &two));
    let one = vec![Patch::replace_node(None, TreePath::new(vec![]), &x)];
    let mut m = list();
    assert!(apply_patches(&mut m, &one));
    assert_eq!(m, leaf("x"));
}

#[test]
fn replacing_a_missing_node_is_refused() {
    let x = leaf("x");
    let patches = vec![Patch::replace_node(None, TreePath::new(vec![2]), &x)];
    let mut n = list();
    assert!(!apply_patches(&mut n, &patches));
}

#[test]
fn appending_to_a_leaf_is_refused() {
    let x = leaf("x");
    let patches = vec![Patch::append_children(&"li", TreePath::new(vec![0, 0]), vec![&x])];
    let mut n = list();
    assert!(!apply_patches(&mut n, &patches));
}

#[test]
fn add_attributes_puts_them_last() {
    let id = attr("id", "main");
    let class = attr("class", "wide");
    let patches = vec![Patch::add_attributes(
        &"ul",
        TreePath::new(vec![]),
        vec![&id, &class],
    )];
    let mut n = list();
    assert!(apply_patches(&mut n, &patches));
    let expected = element(
        "ul",
        vec![attr("class", "list"), attr("id", "main"), attr("class", "wide")],
        vec![
            element("li", vec![], vec![leaf("a")]),
            element("li", vec![], vec![leaf("b")]),
        ],
    );
    assert_eq!(n, expected);
}

#[test]
fn remove_attributes_goes_by_name() {
    let class = attr("class", "other value");
    let patches = vec![Patch::remove_attributes(&"ul", TreePath::new(vec![]), vec![&class])];
    let mut n = list();
    assert!(apply_patches(&mut n, &patches));
    let expected = element(
        "ul",
        vec![],
        vec![
            element("li", vec![], vec![leaf("a")]),
            element("li", vec![], vec![leaf("b")]),
        ],
    );
    assert_eq!(n, expected);
}

#[test]
fn replacing_an_element_as_a_leaf_is_refused() {
    let old = String::from("a");
    let new = String::from("z");
    let patches = vec![Patch::replace_leaf(TreePath::new(vec![0]), &old, &new)];
    let mut n = list();
    assert!(!apply_patches(&mut n, &patches));
    let at_leaf = vec![Patch::replace_leaf(TreePath::new(vec![0, 0]), &old, &new)];
    let mut m = list();
    assert!(apply_patches(&mut m, &at_leaf));
    let expected = element(
        "ul",
        vec![attr("class", "list")],
        vec![
            element("li", vec![], vec![leaf("z")]),
            element("li", vec![], vec![leaf("b")]),
        ],
    );
    assert_eq!(m, expected);
}

#[test]
fn move_before_and_after_reorder_the_siblings() {
    let before = vec![Patch::move_before_node(
        None,
        TreePath::new(vec![0]),
        vec![TreePath::new(vec![1])],
    )];
    let mut n = list();
    assert!(apply_patches(&mut n, &before));
    let swapped = element(
        "ul",
        vec![attr("class", "list")],
        vec![
            element("li", vec![], vec![leaf("b")]),
            element("li", vec![], vec![leaf("a")]),
        ],
    );
    assert_eq!(n, swapped);
    let after = vec![Patch::move_after_node(
        None,
        TreePath::new(vec![1]),
        vec![TreePath::new(vec![0])],
    )];
    let mut m = list();
    assert!(apply_patches(&mut m, &after));
    assert_eq!(m, swapped);
}

#[test]
fn moves_that_name_no_other_sibling_are_refused() {
    let itself = vec![Patch::move_before_node(
        None,
        TreePath::new(vec![0]),
        vec![TreePath::new(vec![0])],
    )];
    let mut n = list();
    assert!(!apply_patches(&mut n, &itself));
    let twice = vec![Patch::move_before_node(
        None,
        TreePath::new(vec![0]),
        vec![TreePath::new(vec![1]), TreePath::new(vec![1])],
    )];
    let mut m = list();
    assert!(!apply_patches(&mut m, &twice));
    let nephew = vec![Patch::move_after_node(
        None,
        TreePath::new(vec![0]),
        vec![TreePath::new(vec![1, 0])],
    )];
    let mut k = list();
    assert!(!apply_patches(&mut k, &nephew));
    let missing = vec![Patch::move_after_node(
        None,
        TreePath::new(vec![0]),
        vec![TreePath::new(vec![4])],
    )];
    let mut l = list();
    assert!(!apply_patches(&mut l, &missing));
}

#[test]
fn patches_apply_one_after_the_other() {
    let x = element("li", vec![], vec![leaf("x")]);
    let patches = vec![
        Patch::remove_node(None, TreePath::new(vec![0])),
        Patch::insert_after_node(None, TreePath::new(vec![0]), vec![&x]),
    ];
    let mut n = list();
    assert!(apply_patches(&mut n, &patches));
    let expected = element(
        "ul",
        vec![attr("class", "list")],
        vec![
            element("li", vec![], vec![leaf("b")]),
            element("li", vec![], vec![leaf("x")]),
        ],
    );
    assert_eq!(n, expected);
}
