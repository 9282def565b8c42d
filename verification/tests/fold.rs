use test_by_a11y::fold::fold;
use test_by_a11y::snapshot::TreeNode;

fn leaf(path: &str) -> TreeNode {
    TreeNode {
        destination: ":1.7".to_string(),
        path: path.to_string(),
        accessible_id: None,
        name: Some(path.to_uppercase()),
        role: 7,
        children: vec![],
    }
}

fn tree(path: &str, children: Vec<TreeNode>) -> TreeNode {
    let mut node = leaf(path);
    node.children = children;
    node
}

fn entry(path: &str, placeholders: &[&str]) -> TreeNode {
    tree(path, placeholders.iter().map(|p| leaf(p)).collect())
}

#[test]
fn folding_nothing_yields_no_root() {
    assert_eq!(fold(vec![]), None);
}

#[test]
fn folding_one_entry_yields_it() {
    assert_eq!(fold(vec![leaf("/r")]), Some(leaf("/r")));
}

#[test]
fn folding_attaches_children_in_their_order() {
    let flat = vec![entry("/r", &["/a", "/b", "/c"]), leaf("/c"), leaf("/b"), leaf("/a")];
    let expected = tree("/r", vec![leaf("/a"), leaf("/b"), leaf("/c")]);
    assert_eq!(fold(flat), Some(expected));
}

#[test]
fn folding_rebuilds_a_deep_tree() {
    let flat = vec![
        entry("/r", &["/a", "/b"]),
        entry("/b", &["/b/1", "/b/2"]),
        leaf("/b/2"),
        entry("/b/1", &["/b/1/x"]),
        leaf("/b/1/x"),
        entry("/a", &["/a/1"]),
        leaf("/a/1"),
    ];
    let expected = tree(
        "/r",
        vec![
            tree("/a", vec![leaf("/a/1")]),
            tree("/b", vec![tree("/b/1", vec![leaf("/b/1/x")]), leaf("/b/2")]),
        ],
    );
    assert_eq!(fold(flat), Some(expected));
}

#[test]
fn folding_goes_by_the_number_of_placeholders_only() {
    let flat = vec![entry("/r", &["/stale", "/gone"]), leaf("/b"), leaf("/a")];
    assert_eq!(fold(flat), Some(tree("/r", vec![leaf("/a"), leaf("/b")])));
}

#[test]
fn an_entry_that_asks_for_too_many_takes_what_is_there() {
    let flat = vec![entry("/r", &["/a", "/b", "/c"]), leaf("/only")];
    assert_eq!(fold(flat), Some(tree("/r", vec![leaf("/only")])));
    let flat = vec![entry("/r", &["/a", "/b"])];
    assert_eq!(fold(flat), Some(tree("/r", vec![])));
}

#[test]
fn an_entry_that_asks_for_too_few_leaves_the_rest_below() {
    let flat = vec![entry("/r", &["/a"]), leaf("/near"), leaf("/far")];
    assert_eq!(fold(flat), Some(tree("/r", vec![leaf("/near")])));
    let flat = vec![leaf("/top"), leaf("/under")];
    assert_eq!(fold(flat), Some(leaf("/top")));
}
