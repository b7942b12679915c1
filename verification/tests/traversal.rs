use treedraw::traverse::TreeIter;
use treedraw::tree::Tree;

fn leaf(value: &str) -> Tree<String> {
    Tree::leaf(String::from(value))
}

fn node(value: &str, children: Vec<Tree<String>>) -> Tree<String> {
    Tree::new(String::from(value), children)
}

fn example_tree() -> Tree<String> {
    node(
        "top",
        vec![
            leaf("1"),
            node(
                "2",
                vec![
                    node("A", vec![leaf("()")]),
                    leaf("B"),
                    node("C", vec![leaf("i"), leaf("ii")]),
                ],
            ),
            node("3", vec![node("x", vec![leaf("α"), leaf("β")])]),
        ],
    )
}

#[test]
fn single_node_yields_once() {
    let mut it = leaf("root").into_traversal();
    let (path, value) = it.advance().unwrap();
    assert!(path.is_empty());
    assert_eq!(value, "root");
    assert!(it.advance().is_none());
    assert!(it.advance().is_none());
}

#[test]
fn preorder_pairs_of_small_tree() {
    let t = node("a", vec![leaf("b"), node("c", vec![leaf("d")])]);
    let mut it = t.into_traversal();
    let expected: Vec<(Vec<bool>, &str)> = vec![
        (vec![], "a"),
        (vec![false], "b"),
        (vec![true], "c"),
        (vec![true, true], "d"),
    ];
    for (path, value) in expected {
        let (p, v) = it.advance().unwrap();
        assert_eq!(p, path);
        assert_eq!(v, value);
    }
    assert!(it.advance().is_none());
}

#[test]
fn example_tree_preorder_values_and_depths() {
    let mut it = example_tree().into_traversal();
    let expected: Vec<(usize, &str)> = vec![
        (0, "top"),
        (1, "1"),
        (1, "2"),
        (2, "A"),
        (3, "()"),
        (2, "B"),
        (2, "C"),
        (3, "i"),
        (3, "ii"),
        (1, "3"),
        (2, "x"),
        (3, "α"),
        (3, "β"),
    ];
    for (depth, value) in expected {
        let (p, v) = it.advance().unwrap();
        assert_eq!(p.len(), depth);
        assert_eq!(v, value);
    }
    assert!(it.advance().is_none());
}

#[test]
fn pair_count_matches_node_count() {
    let mut it = example_tree().into_traversal();
    let mut pairs: usize = 0;
    while it.advance().is_some() {
        pairs += 1;
    }
    assert_eq!(pairs, 13);
}

#[test]
fn last_sibling_flags_in_example_tree() {
    let mut it = example_tree().into_traversal();
    let mut flags: Vec<Option<bool>> = Vec::new();
    while let Some((path, _)) = it.advance() {
        flags.push(path.first().copied());
    }
    let expected: Vec<Option<bool>> = vec![
        None,        // top: the root has an empty branch path
        Some(false), // 1
        Some(false), // 2
        Some(false), // A
        Some(true),  // ()
        Some(false), // B
        Some(true),  // C
        Some(false), // i
        Some(true),  // ii
        Some(true),  // 3
        Some(true),  // x
        Some(false), // α
        Some(true),  // β
    ];
    assert_eq!(flags, expected);
}

#[test]
fn from_children_walks_forest() {
    let mut it = TreeIter::from_children(vec![leaf("a"), leaf("b")]);
    let (p, v) = it.advance().unwrap();
    assert_eq!(p, vec![false]);
    assert_eq!(v, "a");
    let (p, v) = it.advance().unwrap();
    assert_eq!(p, vec![true]);
    assert_eq!(v, "b");
    assert!(it.advance().is_none());
}

#[test]
fn from_children_of_nothing_is_exhausted() {
    let mut it: TreeIter<String> = TreeIter::from_children(Vec::new());
    assert!(it.advance().is_none());
    assert!(it.advance().is_none());
}

#[test]
fn exhaustion_is_idempotent() {
    let mut it = example_tree().into_traversal();
    while it.advance().is_some() {}
    assert!(it.advance().is_none());
    assert!(it.advance().is_none());
    assert!(it.advance().is_none());
}
