use mt_dom::{attr, element, leaf, Node};

fn tree() -> Node {
    element(
        "main",
        vec![attr("class", "app")],
        vec![
            element("header", vec![], vec![leaf("title")]),
            element("section", vec![], vec![leaf("a"), leaf("b"), leaf("c")]),
            element("footer", vec![], vec![]),
        ],
    )
}

#[test]
fn zipper_then_finish_gives_the_tree_back() {
    assert_eq!(tree().zipper().finish(), tree());
}

#[test]
fn descending_then_finishing_gives_the_tree_back() {
    let z = tree().zipper().child(1).child(0);
    assert_eq!(z.finish(), tree());
}

#[test]
fn child_then_parent_gives_the_same_zipper() {
    let z = tree().zipper().child(2);
    let back = tree().zipper().child(2).parent().child(2);
    assert_eq!(back, z);
    assert_eq!(z.parent(), tree().zipper());
}

#[test]
fn child_takes_out_the_focused_child() {
    let z = tree().zipper().child(0);
    let parent = z.parent();
    assert_eq!(parent.finish(), tree());
}

#[test]
fn every_child_and_back() {
    for i in 0..3 {
        let z = tree().zipper().child(i).parent();
        assert_eq!(z, tree().zipper());
    }
}
