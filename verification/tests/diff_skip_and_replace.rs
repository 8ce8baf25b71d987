use mt_dom::diff::diff_with_functions;
use mt_dom::{attr, element, Node, Patch, TreePath};

fn has_true_attribute(node: &Node, name: &str) -> bool {
    if let Some(attributes) = node.attributes() {
        attributes
            .iter()
            .filter(|a| *a.name() == name)
            .flat_map(|a| a.value())
            .any(|v| *v == "true")
    } else {
        false
    }
}

#[test]
fn skip_in_attribute() {
    let old: Node = element("div", vec![attr("class", "[0]"), attr("id", "0")], vec![]);
    let new = element(
        "div",
        vec![attr("skip", "true"), attr("class", "[1]"), attr("id", "1")],
        vec![],
    );

    let skip = |_old: &Node, new: &Node| has_true_attribute(new, "skip");
    let replace = |_old: &Node, _new: &Node| false;

    let diff = diff_with_functions(&old, &new, &"key", &skip, &replace);
    assert_eq!(diff, vec![],);
}

#[test]
fn replace_true_in_attribute_must_replace_old_node_regardless() {
    let old: Node = element("div", vec![attr("class", "[0]"), attr("id", "0")], vec![]);
    let new = element(
        "div",
        vec![attr("replace", "true"), attr("class", "[1]"), attr("id", "1")],
        vec![],
    );

    let skip = |_old: &Node, _new: &Node| false;
    let replace = |_old: &Node, new: &Node| has_true_attribute(new, "replace");

    let diff = diff_with_functions(&old, &new, &"key", &skip, &replace);
    assert_eq!(diff, vec![Patch::replace_with_nodes(Some(&"div"), TreePath::new(vec![]), vec![&new])],);
}

#[test]
fn replace_and_skip_in_sub_nodes() {
    let old: Node = element(
        "div",
        vec![attr("class", "[0]"), attr("id", "0")],
        vec![
            element(
                "div",
                vec![attr("class", "[0,0]"), attr("id", "1")],
                vec![
                    element("div", vec![attr("class", "[0,0,0]"), attr("id", "2")], vec![]),
                    element("div", vec![attr("class", "[0,0,1]"), attr("id", "3")], vec![]),
                ],
            ),
            element(
                "div",
                vec![attr("class", "[0,1]"), attr("id", "4")],
                vec![
                    element("div", vec![attr("class", "[0,1,0]"), attr("id", "5")], vec![]),
                    element("div", vec![attr("class", "[0,1,1]"), attr("id", "6")], vec![]),
                    element("div", vec![attr("class", "[0,1,2]"), attr("id", "7")], vec![]),
                ],
            ),
        ],
    );

    let new: Node = element(
        "div",
        vec![attr("class", "[0]"), attr("id", "0")],
        vec![
            element(
                "div",
                vec![attr("skip", "true"), attr("class", "[0,0]-differs"), attr("id", "1")],
                vec![
                    element("div", vec![attr("class", "[0,0,0]"), attr("id", "2")], vec![]),
                    element("div", vec![attr("class", "[0,0,1]"), attr("id", "3")], vec![]),
                ],
            ),
            element(
                "div",
                vec![attr("replace", "true"), attr("class", "[0,1]"), attr("id", "4")],
                vec![
                    element("div", vec![attr("class", "[0,1,0]"), attr("id", "5")], vec![]),
                    element("div", vec![attr("class", "[0,1,1]"), attr("id", "6")], vec![]),
                    element("div", vec![attr("class", "[0,1,2]"), attr("id", "7")], vec![]),
                ],
            ),
        ],
    );

    let skip = |_old: &Node, new: &Node| has_true_attribute(new, "skip");
    let replace = |_old: &Node, new: &Node| has_true_attribute(new, "replace");

    let diff = diff_with_functions(&old, &new, &"key", &skip, &replace);
    assert_eq!(
        diff,
        vec![Patch::replace_with_nodes(
            Some(&"div"),
            TreePath::new(vec![1]),
            vec![&element(
                "div",
                vec![attr("replace", "true"), attr("class", "[0,1]"), attr("id", "4")],
                vec![
                    element("div", vec![attr("class", "[0,1,0]"), attr("id", "5")], vec![]),
                    element("div", vec![attr("class", "[0,1,1]"), attr("id", "6")], vec![]),
                    element("div", vec![attr("class", "[0,1,2]"), attr("id", "7")], vec![]),
                ],
            )]
        )],
    );
}
