use mt_dom::diff::{diff_with_functions, diff_with_key, try_diff_with_functions, try_diff_with_key};
use mt_dom::{attr, element, leaf, Node, Patch, TreePath};

fn sample() -> Node {
    element(
        "main",
        vec![attr("class", "container"), attr("id", "top")],
        vec![
            element("header", vec![], vec![leaf("Items:")]),
            element(
                "ul",
                vec![],
                vec![
                    element("li", vec![attr("key", "1")], vec![leaf("one")]),
                    element("li", vec![attr("key", "2")], vec![leaf("two")]),
                ],
            ),
        ],
    )
}

#[test]
fn diff_of_a_tree_with_itself_is_empty() {
    let old = sample();
    let new = sample();
    assert_eq!(diff_with_key(&old, &new, &"key"), vec![]);
}

#[test]
fn class_changed() {
    let old = element("main", vec![attr("class", "class1")], vec![leaf("Content of class")]);
    let new = element("main", vec![attr("class", "class2")], vec![leaf("Content of class")]);
    assert_eq!(
        diff_with_key(&old, &new, &"key"),
        vec![Patch::add_attributes(&"main", TreePath::new(vec![]), vec![&attr("class", "class2")])]
    );
}

#[test]
fn attribute_removed() {
    let old = element("main", vec![attr("class", "a"), attr("id", "x")], vec![]);
    let new = element("main", vec![attr("class", "a")], vec![]);
    assert_eq!(
        diff_with_key(&old, &new, &"key"),
        vec![Patch::remove_attributes(&"main", TreePath::new(vec![]), vec![&attr("id", "x")])]
    );
}

#[test]
fn attribute_added_then_removed() {
    let old = element("main", vec![attr("id", "x")], vec![]);
    let new = element("main", vec![attr("class", "a")], vec![]);
    assert_eq!(
        diff_with_key(&old, &new, &"key"),
        vec![
            Patch::add_attributes(&"main", TreePath::new(vec![]), vec![&attr("class", "a")]),
            Patch::remove_attributes(&"main", TreePath::new(vec![]), vec![&attr("id", "x")]),
        ]
    );
}

#[test]
fn leaf_changed_is_replaced() {
    let old = element("div", vec![], vec![leaf("a")]);
    let new = element("div", vec![], vec![leaf("b")]);
    assert_eq!(
        diff_with_key(&old, &new, &"key"),
        vec![Patch::replace_node(None, TreePath::new(vec![0]), &leaf("b"))]
    );
}

#[test]
fn tag_changed_is_replaced() {
    let old = element("div", vec![], vec![]);
    let new = element("span", vec![], vec![]);
    assert_eq!(
        diff_with_key(&old, &new, &"key"),
        vec![Patch::replace_node(Some(&"div"), TreePath::new(vec![]), &new)]
    );
}

#[test]
fn leaf_against_element_is_replaced() {
    let old = element("div", vec![], vec![leaf("a")]);
    let new = element("div", vec![], vec![element("b", vec![], vec![])]);
    assert_eq!(
        diff_with_key(&old, &new, &"key"),
        vec![Patch::replace_node(None, TreePath::new(vec![0]), &element("b", vec![], vec![]))]
    );
}

#[test]
fn extra_new_children_are_appended() {
    let old = element("div", vec![], vec![leaf("a")]);
    let new = element("div", vec![], vec![leaf("a"), leaf("b"), element("i", vec![], vec![])]);
    assert_eq!(
        diff_with_key(&old, &new, &"key"),
        vec![Patch::append_children(
            &"div",
            TreePath::new(vec![]),
            vec![&leaf("b"), &element("i", vec![], vec![])]
        )]
    );
}

#[test]
fn extra_old_children_are_removed() {
    let old = element("div", vec![], vec![leaf("a"), element("b", vec![], vec![]), leaf("c")]);
    let new = element("div", vec![], vec![leaf("a")]);
    assert_eq!(
        diff_with_key(&old, &new, &"key"),
        vec![
            Patch::remove_node(Some(&"b"), TreePath::new(vec![1])),
            Patch::remove_node(None, TreePath::new(vec![2])),
        ]
    );
}

#[test]
fn nested_change_has_the_nested_path() {
    let old = element("div", vec![], vec![element("p", vec![], vec![leaf("x"), leaf("y")])]);
    let new = element("div", vec![], vec![element("p", vec![], vec![leaf("x"), leaf("z")])]);
    assert_eq!(
        diff_with_key(&old, &new, &"key"),
        vec![Patch::replace_node(None, TreePath::new(vec![0, 1]), &leaf("z"))]
    );
}

#[test]
fn keyed_node_removed_at_start() {
    let old = element(
        "main",
        vec![attr("class", "container")],
        vec![element("div", vec![attr("key", "1")], vec![]), element("div", vec![attr("key", "2")], vec![])],
    );
    let new = element(
        "main",
        vec![attr("class", "container")],
        vec![element("div", vec![attr("key", "2")], vec![])],
    );
    assert_eq!(
        diff_with_key(&old, &new, &"key"),
        vec![Patch::remove_node(Some(&"div"), TreePath::new(vec![0]))]
    );
}

#[test]
fn force_replace() {
    let old = element("div", vec![attr("class", "[0]"), attr("id", "0")], vec![]);
    let new = element("div", vec![attr("class", "[0]"), attr("id", "0")], vec![]);
    let skip = |_old: &Node, _new: &Node| false;
    let replace = |_old: &Node, _new: &Node| true;
    assert_eq!(
        diff_with_functions(&old, &new, &"key", &skip, &replace),
        vec![Patch::replace_node(Some(&"div"), TreePath::new(vec![]), &new)]
    );
}

#[test]
fn force_skip() {
    let old = element("div", vec![attr("class", "[0]"), attr("id", "0")], vec![]);
    let new = element("div", vec![attr("class", "[1]"), attr("id", "1")], vec![]);
    let skip = |_old: &Node, _new: &Node| true;
    let replace = |_old: &Node, _new: &Node| false;
    assert_eq!(diff_with_functions(&old, &new, &"key", &skip, &replace), vec![]);
}

fn has_true(node: &Node, name: &'static str) -> bool {
    match node.attribute_value(&name) {
        Some(values) => values.iter().any(|v| v.as_str() == "true"),
        None => false,
    }
}

#[test]
fn skip_and_replace_in_sub_nodes() {
    let old = element(
        "div",
        vec![],
        vec![
            element("p", vec![attr("class", "a")], vec![]),
            element("p", vec![attr("class", "b")], vec![]),
        ],
    );
    let new = element(
        "div",
        vec![],
        vec![
            element("p", vec![attr("skip", "true"), attr("class", "changed")], vec![]),
            element("p", vec![attr("replace", "true"), attr("class", "b")], vec![]),
        ],
    );
    let skip = |_old: &Node, new: &Node| has_true(new, "skip");
    let replace = |_old: &Node, new: &Node| has_true(new, "replace");
    assert_eq!(
        diff_with_functions(&old, &new, &"key", &skip, &replace),
        vec![Patch::replace_node(
            Some(&"p"),
            TreePath::new(vec![1]),
            &element("p", vec![attr("replace", "true"), attr("class", "b")], vec![])
        )]
    );
}

#[test]
fn try_diff_gives_the_diff_where_it_is_defined() {
    let old = sample();
    let new = sample().with_children(vec![leaf("more")]);
    assert_eq!(try_diff_with_key(&old, &new, &"key"), Some(diff_with_key(&old, &new, &"key")));
    assert_eq!(
        try_diff_with_key(&old, &new, &"key"),
        Some(vec![Patch::append_children(&"main", TreePath::new(vec![]), vec![&leaf("more")])])
    );
}

#[test]
fn try_diff_refuses_what_panics() {
    // the keyed children in the middle share no key and lie after a matched child: the
    // replacement of the first of them is looked up past the end of the middle
    let old = element(
        "ul",
        vec![],
        vec![element("li", vec![attr("key", "a")], vec![]), element("li", vec![attr("key", "x")], vec![])],
    );
    let new = element(
        "ul",
        vec![],
        vec![element("li", vec![attr("key", "a")], vec![]), element("li", vec![attr("key", "y")], vec![])],
    );
    assert_eq!(try_diff_with_key(&old, &new, &"key"), None);
    let never = |_old: &Node, _new: &Node| false;
    assert_eq!(try_diff_with_functions(&old, &new, &"key", &never, &never), None);
}

#[test]
fn node_lists_are_refused() {
    let old = element("div", vec![], vec![]);
    let list = mt_dom::node_list(vec![leaf("a")]);
    let list_too = mt_dom::node_list(vec![leaf("b")]);
    assert_eq!(try_diff_with_key(&list, &list_too, &"key"), None);
    assert!(try_diff_with_key(&old, &old, &"key").is_some());
}

#[test]
fn different_keys_are_replaced() {
    let old = element("div", vec![attr("key", "1")], vec![]);
    let new = element("div", vec![attr("key", "2")], vec![]);
    assert_eq!(
        diff_with_key(&old, &new, &"key"),
        vec![Patch::replace_node(Some(&"div"), TreePath::new(vec![]), &new)]
    );
}

#[test]
fn reordered_attributes_in_keyed_children_give_no_patch() {
    let old = element(
        "ul",
        vec![attr("class", "list"), attr("id", "l")],
        vec![
            element("li", vec![attr("key", "1"), attr("class", "a")], vec![leaf("one")]),
            element("li", vec![attr("key", "2"), attr("class", "b")], vec![leaf("two")]),
        ],
    );
    let new = element(
        "ul",
        vec![attr("id", "l"), attr("class", "list")],
        vec![
            element("li", vec![attr("class", "a"), attr("key", "1")], vec![leaf("one")]),
            element("li", vec![attr("class", "b"), attr("key", "2")], vec![leaf("two")]),
        ],
    );
    assert_eq!(diff_with_key(&old, &new, &"key"), vec![]);
}
