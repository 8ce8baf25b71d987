use mt_dom::patch::tree_path::find_node_by_path;
use mt_dom::{attr, element, Node, TreePath};

#[test]
fn test_traverse() {
    let path = TreePath::from(vec![0]);

    assert_eq!(path.traverse(1), TreePath::from(vec![0, 1]));
}

fn sample_node() -> Node {
    let node: Node = element(
        "div",
        vec![attr("class", "[0]"), attr("id", "0")],
        vec![
            element(
                "div",
                vec![attr("class", "[0,0]"), attr("id", "1")],
                vec![
                    element("div", vec![attr("class", "[0,0,0]"), attr("id", "2")], vec![]),
                    element("div", vec![attr("class", "[0,0,1]"), attr("id", "3")], vec![]),
                ],
            ),
            element(
                "div",
                vec![attr("class", "[0,1]"), attr("id", "4")],
                vec![
                    element("div", vec![attr("class", "[0,1,0]"), attr("id", "5")], vec![]),
                    element("div", vec![attr("class", "[0,1,1]"), attr("id", "6")], vec![]),
                    element("div", vec![attr("class", "[0,1,2]"), attr("id", "7")], vec![]),
                ],
            ),
        ],
    );
    node
}

fn format_vec(v: &[usize]) -> String {
    format!("[{}]", v.iter().map(|v| v.to_string()).collect::<Vec<_>>().join(","))
}

// index is the index of this code with respect to it's sibling
fn assert_traverse_match(node: &Node, node_idx: &mut usize, path: Vec<usize>) {
    let id = node.attribute_value(&"id").unwrap()[0].clone();
    let class = node.attribute_value(&"class").unwrap()[0].clone();
    println!("\tid: {:?} class: {:?}", id, class);
    println!("\tnode_idx: {} = {}", node_idx, format_vec(&path));
    assert_eq!(id.to_string(), node_idx.to_string());
    assert_eq!(class.to_string(), format_vec(&path));
    for (i, child) in node.children().iter().enumerate() {
        *node_idx += 1;
        let mut child_path = path.clone();
        child_path.push(i);
        assert_traverse_match(child, node_idx, child_path);
    }
}

fn traverse_tree_path(node: &Node, path: &TreePath, node_idx: &mut usize) {
    let id = node.attribute_value(&"id").unwrap()[0].clone();
    let class = node.attribute_value(&"class").unwrap()[0].clone();
    println!("\tid: {:?} class: {:?}", id, class);
    println!("\tnode_idx: {} = {}", node_idx, format_vec(&path.path));
    assert_eq!(id.to_string(), node_idx.to_string());
    assert_eq!(class.to_string(), format_vec(&path.path));
    for (i, child) in node.children().iter().enumerate() {
        *node_idx += 1;
        let mut child_path = path.clone();
        child_path.path.push(i);
        traverse_tree_path(child, &child_path, node_idx);
    }
}

#[test]
fn should_match_paths() {
    let node = sample_node();
    assert_traverse_match(&node, &mut 0, vec![0]);
    traverse_tree_path(&node, &TreePath::new(vec![0]), &mut 0);
}

#[test]
fn should_find_root_node() {
    let node = sample_node();
    let path = TreePath::new(vec![0]);
    let root = find_node_by_path(&node, &path);
    assert_eq!(Some(&node), root);
}

#[test]
fn should_find_node1() {
    let node = sample_node();
    let path = TreePath::new(vec![0, 0]);
    let found = find_node_by_path(&node, &path);
    let expected = element(
        "div",
        vec![attr("class", "[0,0]"), attr("id", "1")],
        vec![
            element("div", vec![attr("class", "[0,0,0]"), attr("id", "2")], vec![]),
            element("div", vec![attr("class", "[0,0,1]"), attr("id", "3")], vec![]),
        ],
    );
    assert_eq!(Some(&expected), found);
}

#[test]
fn should_find_node2() {
    let node = sample_node();
    let path = TreePath::new(vec![0, 0, 0]);
    let found = find_node_by_path(&node, &path);
    let expected = element("div", vec![attr("class", "[0,0,0]"), attr("id", "2")], vec![]);
    assert_eq!(Some(&expected), found);
}

#[test]
fn should_find_node3() {
    let node = sample_node();
    let path = TreePath::new(vec![0, 0, 1]);
    let found = find_node_by_path(&node, &path);
    let expected = element("div", vec![attr("class", "[0,0,1]"), attr("id", "3")], vec![]);
    assert_eq!(Some(&expected), found);
}

#[test]
fn should_find_node4() {
    let node = sample_node();
    let path = TreePath::new(vec![0, 1]);
    let found = find_node_by_path(&node, &path);
    let expected = element(
        "div",
        vec![attr("class", "[0,1]"), attr("id", "4")],
        vec![
            element("div", vec![attr("class", "[0,1,0]"), attr("id", "5")], vec![]),
            element("div", vec![attr("class", "[0,1,1]"), attr("id", "6")], vec![]),
            element("div", vec![attr("class", "[0,1,2]"), attr("id", "7")], vec![]),
        ],
    );
    assert_eq!(Some(&expected), found);
}

#[test]
fn should_find_node5() {
    let node = sample_node();
    let path = TreePath::new(vec![0, 1, 0]);
    let found = find_node_by_path(&node, &path);
    let expected = element("div", vec![attr("class", "[0,1,0]"), attr("id", "5")], vec![]);
    assert_eq!(Some(&expected), found);
}

#[test]
fn should_find_node6() {
    let node = sample_node();
    let path = TreePath::new(vec![0, 1, 1]);
    let found = find_node_by_path(&node, &path);
    let expected = element("div", vec![attr("class", "[0,1,1]"), attr("id", "6")], vec![]);
    assert_eq!(Some(&expected), found);
}

#[test]
fn should_find_none_in_013() {
    let node = sample_node();
    let path = TreePath::new(vec![0, 1, 3]);
    let found = find_node_by_path(&node, &path);
    assert_eq!(None, found);
}

#[test]
fn should_find_none_in_00000() {
    let node = sample_node();
    let path = TreePath::new(vec![0, 0, 0, 0]);
    let found = find_node_by_path(&node, &path);
    assert_eq!(None, found);
}

#[test]
fn should_find_none_in_007() {
    let node = sample_node();
    let path = TreePath::new(vec![0, 0, 7]);
    let bond = find_node_by_path(&node, &path);
    assert_eq!(None, bond);
}

#[test]
fn find_node_by_path_method_agrees() {
    let node = sample_node();
    let path = TreePath::new(vec![0, 1, 2]);
    let expected = element("div", vec![attr("class", "[0,1,2]"), attr("id", "7")], vec![]);
    assert_eq!(path.find_node_by_path(&node), Some(&expected));
}

#[test]
fn tree_path_push_and_remove_first() {
    let mut path = TreePath::root();
    assert!(path.is_empty());
    path.push(0);
    path.push(3);
    assert_eq!(path, TreePath::new(vec![0, 3]));
    assert_eq!(path.remove_first(), 0);
    assert_eq!(path.remove_first(), 3);
    assert!(path.is_empty());
}

#[test]
fn empty_path_finds_the_root() {
    let node = sample_node();
    assert_eq!(TreePath::root().find_node_by_path(&node), Some(&node));
    assert_eq!(find_node_by_path(&node, &TreePath::new(vec![])), Some(&node));
}
