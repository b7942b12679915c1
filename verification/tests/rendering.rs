use treedraw::render::{render_line, render_tree};
use treedraw::tree::Tree;

fn leaf2(value: &str) -> Tree<String> {
    Tree::leaf(String::from(value))
}

fn node2(value: &str, children: Vec<Tree<String>>) -> Tree<String> {
    Tree::new(String::from(value), children)
}

#[test]
fn root_line_is_value_alone() {
    let lines = render_tree(leaf2("root"));
    assert_eq!(lines, vec![String::from("root")]);
}

#[test]
fn render_line_empty_path_has_no_connector() {
    assert_eq!(render_line(&Vec::new(), "top"), "top");
}

#[test]
fn render_line_connector_follows_innermost_flag() {
    assert_eq!(render_line(&vec![false], "a"), "├─ a");
    assert_eq!(render_line(&vec![true], "a"), "└─ a");
}

#[test]
fn render_line_outer_flags_drive_indentation() {
    // innermost first: the node is last among its siblings, its parent was
    // not last (bar), its grandparent was last (blank, printed leftmost)
    assert_eq!(render_line(&vec![true, false, true], "n"), "   │  └─ n");
    assert_eq!(render_line(&vec![false, true], "n"), "   ├─ n");
}

#[test]
fn only_child_then_two_grandchildren() {
    let t = node2("r", vec![node2("c", vec![leaf2("g1"), leaf2("g2")])]);
    let lines = render_tree(t);
    let expected: Vec<String> = vec![
        String::from("r"),
        String::from("└─ c"),
        String::from("   ├─ g1"),
        String::from("   └─ g2"),
    ];
    assert_eq!(lines, expected);
}

#[test]
fn example_tree_renders_verbatim() {
    let t = node2(
        "top",
        vec![
            leaf2("1"),
            node2(
                "2",
                vec![
                    node2("A", vec![leaf2("()")]),
                    leaf2("B"),
                    node2("C", vec![leaf2("i"), leaf2("ii")]),
                ],
            ),
            node2("3", vec![node2("x", vec![leaf2("α"), leaf2("β")])]),
        ],
    );
    let lines = render_tree(t);
    let expected: Vec<String> = vec![
        String::from("top"),
        String::from("├─ 1"),
        String::from("├─ 2"),
        String::from("│  ├─ A"),
        String::from("│  │  └─ ()"),
        String::from("│  ├─ B"),
        String::from("│  └─ C"),
        String::from("│     ├─ i"),
        String::from("│     └─ ii"),
        String::from("└─ 3"),
        String::from("   └─ x"),
        String::from("      ├─ α"),
        String::from("      └─ β"),
    ];
    assert_eq!(lines, expected);
}
