use test_by_a11y::prelude::By;
use test_by_a11y::snapshot::TreeNode;

fn node(path: &str, id: Option<&str>, name: Option<&str>, children: Vec<TreeNode>) -> TreeNode {
    TreeNode {
        destination: ":1.7".to_string(),
        path: path.to_string(),
        accessible_id: id.map(|s| s.to_string()),
        name: name.map(|s| s.to_string()),
        role: 43,
        children,
    }
}

fn calculator() -> TreeNode {
    node(
        "/root",
        None,
        None,
        vec![node("/a", None, Some("9"), vec![]), node("/b", None, Some("+"), vec![])],
    )
}

#[test]
fn search_by_text_returns_the_named_child() {
    let tree = calculator();
    let found = tree.bfs(&By::Text("9".to_string()));
    assert_eq!(found, Some(node("/a", None, Some("9"), vec![])));
    let found = tree.bfs(&By::Text("+".to_string()));
    assert_eq!(found.unwrap().path, "/b");
}

#[test]
fn search_for_missing_text_returns_nothing() {
    assert_eq!(calculator().bfs(&By::Text("missing".to_string())), None);
}

#[test]
fn search_by_tag_without_identifiers_returns_nothing() {
    assert_eq!(calculator().bfs(&By::Tag("9".to_string())), None);
    assert_eq!(calculator().bfs(&By::Tag("".to_string())), None);
}

#[test]
fn search_by_tag_reads_the_identifier_not_the_name() {
    let tree = node(
        "/root",
        None,
        None,
        vec![
            node("/a", None, Some("ok"), vec![]),
            node("/b", Some("ok"), Some("other"), vec![]),
        ],
    );
    assert_eq!(tree.bfs(&By::Tag("ok".to_string())).unwrap().path, "/b");
    assert_eq!(tree.bfs(&By::Text("ok".to_string())).unwrap().path, "/a");
}

#[test]
fn search_tests_a_node_before_its_children() {
    let tree = node("/root", None, Some("x"), vec![node("/a", None, Some("x"), vec![])]);
    assert_eq!(tree.bfs(&By::Text("x".to_string())).unwrap().path, "/root");
}

#[test]
fn search_goes_deep_before_it_goes_wide() {
    let tree = node(
        "/root",
        None,
        None,
        vec![
            node("/a", None, None, vec![node("/a/deep", None, Some("x"), vec![])]),
            node("/b", None, Some("x"), vec![]),
        ],
    );
    assert_eq!(tree.bfs(&By::Text("x".to_string())).unwrap().path, "/a/deep");
}

#[test]
fn search_takes_children_in_stored_order() {
    let tree = node(
        "/root",
        None,
        None,
        vec![node("/first", None, Some("x"), vec![]), node("/second", None, Some("x"), vec![])],
    );
    assert_eq!(tree.bfs(&By::Text("x".to_string())).unwrap().path, "/first");
}

#[test]
fn search_returns_the_whole_subtree_of_the_hit() {
    let inner = node("/a", None, Some("x"), vec![node("/a/1", Some("id"), None, vec![])]);
    let tree = node("/root", None, None, vec![inner.clone()]);
    assert_eq!(tree.bfs(&By::Text("x".to_string())), Some(inner));
}

#[test]
fn search_matches_text_exactly() {
    let tree = node("/root", None, Some("nine 9"), vec![]);
    assert_eq!(tree.bfs(&By::Text("9".to_string())), None);
    assert_eq!(tree.bfs(&By::Text("Nine 9".to_string())), None);
    assert!(tree.bfs(&By::Text("nine 9".to_string())).is_some());
}

#[test]
fn search_is_repeatable() {
    let tree = calculator();
    let by = By::Text("+".to_string());
    let first = tree.bfs(&by);
    let second = tree.bfs(&by.clone());
    assert!(first.is_some());
    assert_eq!(first, second);
}

#[test]
fn a_copy_of_a_tree_equals_it() {
    let tree = calculator();
    assert_eq!(tree.clone(), tree);
    assert!(tree.is_answer(&By::Text("9".to_string())) == false);
    assert!(tree.children[0].is_answer(&By::Text("9".to_string())));
}

#[test]
fn a_node_leads_back_to_its_object() {
    let tree = calculator();
    let place = tree.children[1].remote_ref();
    assert_eq!(place.destination, ":1.7");
    assert_eq!(place.path, "/b");
}

#[test]
fn locating_gives_the_place_of_the_first_hit() {
    let tree = calculator();
    let place = tree.locate(&By::Text("+".to_string())).unwrap();
    assert_eq!(place.destination, ":1.7");
    assert_eq!(place.path, "/b");
    assert_eq!(tree.locate(&By::Text("missing".to_string())), None);
    assert_eq!(tree.locate(&By::Tag("+".to_string())), None);
}
