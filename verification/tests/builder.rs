use test_by_a11y::builder::{NodeDetails, TreeBuilder, Verdict, MAX_CHILDREN};
use test_by_a11y::error::TestByATSPIError;
use test_by_a11y::snapshot::TreeNode;

struct Remote {
    path: String,
    reported: u64,
    children: Vec<Remote>,
}

fn remote(path: &str, children: Vec<Remote>) -> Remote {
    Remote { path: path.to_string(), reported: children.len() as u64, children }
}

fn crowded(path: &str, reported: u64, children: Vec<Remote>) -> Remote {
    Remote { path: path.to_string(), reported, children }
}

fn details(object: &Remote) -> NodeDetails {
    NodeDetails {
        destination: ":1.9".to_string(),
        path: object.path.clone(),
        accessible_id: Some(format!("id{}", object.path)),
        name: None,
        role: 11,
    }
}

fn lookup<'a>(object: &'a Remote, path: &str) -> Option<&'a Remote> {
    if object.path == path {
        return Some(object);
    }
    for child in &object.children {
        if let Some(hit) = lookup(child, path) {
            return Some(hit);
        }
    }
    None
}

fn walk(root: &Remote, visits: &mut Vec<String>) -> Result<TreeNode, TestByATSPIError> {
    let mut builder = TreeBuilder::new(details(root));
    while let Some(place) = builder.next_target() {
        assert_eq!(place.destination, ":1.9");
        visits.push(place.path.clone());
        let object = lookup(root, &place.path).unwrap();
        if builder.on_child_count(object.reported) == Verdict::Expand {
            builder.on_expanded(details(object), object.children.iter().map(details).collect());
        }
    }
    builder.finish()
}

fn snapshot(path: &str, children: Vec<TreeNode>) -> TreeNode {
    TreeNode {
        destination: ":1.9".to_string(),
        path: path.to_string(),
        accessible_id: Some(format!("id{}", path)),
        name: None,
        role: 11,
        children,
    }
}

#[test]
fn a_walk_rebuilds_the_remote_tree() {
    let root = remote(
        "/r",
        vec![
            remote("/a", vec![remote("/a/1", vec![]), remote("/a/2", vec![])]),
            remote("/b", vec![]),
            remote("/c", vec![remote("/c/1", vec![remote("/c/1/x", vec![])])]),
        ],
    );
    let expected = snapshot(
        "/r",
        vec![
            snapshot("/a", vec![snapshot("/a/1", vec![]), snapshot("/a/2", vec![])]),
            snapshot("/b", vec![]),
            snapshot("/c", vec![snapshot("/c/1", vec![snapshot("/c/1/x", vec![])])]),
        ],
    );
    let mut visits = Vec::new();
    assert_eq!(walk(&root, &mut visits), Ok(expected));
}

#[test]
fn a_walk_visits_the_child_listed_last_first() {
    let root = remote(
        "/r",
        vec![remote("/a", vec![remote("/a/1", vec![])]), remote("/b", vec![remote("/b/1", vec![])])],
    );
    let mut visits = Vec::new();
    assert!(walk(&root, &mut visits).is_ok());
    assert_eq!(visits, vec!["/r", "/b", "/b/1", "/a", "/a/1"]);
}

#[test]
fn a_crowded_object_becomes_a_childless_node() {
    let root = remote(
        "/r",
        vec![
            remote("/a", vec![remote("/a/1", vec![])]),
            crowded("/big", MAX_CHILDREN + 1, vec![remote("/big/1", vec![]), remote("/big/2", vec![])]),
            remote("/c", vec![]),
        ],
    );
    let expected = snapshot(
        "/r",
        vec![snapshot("/a", vec![snapshot("/a/1", vec![])]), snapshot("/big", vec![]), snapshot("/c", vec![])],
    );
    let mut visits = Vec::new();
    assert_eq!(walk(&root, &mut visits), Ok(expected));
    assert_eq!(visits, vec!["/r", "/c", "/big", "/a", "/a/1"]);
}

#[test]
fn a_crowded_root_becomes_a_childless_root() {
    let root = crowded("/r", u64::MAX, vec![remote("/a", vec![])]);
    let mut visits = Vec::new();
    assert_eq!(walk(&root, &mut visits), Ok(snapshot("/r", vec![])));
    assert_eq!(visits, vec!["/r"]);
}

#[test]
fn the_limit_itself_is_still_expanded() {
    assert_eq!(MAX_CHILDREN, 65536);
    let mut builder = TreeBuilder::new(details(&remote("/r", vec![])));
    assert_eq!(builder.on_child_count(65536), Verdict::Expand);
    assert_eq!(builder.on_child_count(0), Verdict::Expand);
    assert_eq!(builder.next_target().unwrap().path, "/r");
    assert_eq!(builder.on_child_count(65537), Verdict::Skipped);
    assert_eq!(builder.next_target(), None);
    assert_eq!(builder.on_child_count(3), Verdict::Idle);
    assert_eq!(builder.on_child_count(65537), Verdict::Idle);
}

#[test]
fn the_entry_carries_the_details_fetched_at_the_visit() {
    let mut builder = TreeBuilder::new(details(&remote("/r", vec![])));
    assert_eq!(builder.on_child_count(1), Verdict::Expand);
    let mut fresh = details(&remote("/r", vec![]));
    fresh.name = Some("renamed".to_string());
    builder.on_expanded(fresh, vec![details(&remote("/a", vec![]))]);
    assert_eq!(builder.next_target().unwrap().path, "/a");
    assert_eq!(builder.on_child_count(MAX_CHILDREN + 1), Verdict::Skipped);
    let mut expected = snapshot("/r", vec![snapshot("/a", vec![])]);
    expected.name = Some("renamed".to_string());
    assert_eq!(builder.finish(), Ok(expected));
}

#[test]
fn expanding_with_nothing_waiting_changes_nothing() {
    let mut builder = TreeBuilder::new(details(&remote("/r", vec![])));
    assert_eq!(builder.on_child_count(MAX_CHILDREN + 1), Verdict::Skipped);
    builder.on_expanded(details(&remote("/x", vec![])), vec![details(&remote("/y", vec![]))]);
    assert_eq!(builder.next_target(), None);
    assert_eq!(builder.finish(), Ok(snapshot("/r", vec![])));
}

#[test]
fn a_walk_that_visited_nothing_has_no_root() {
    let builder = TreeBuilder::new(details(&remote("/r", vec![])));
    assert_eq!(builder.finish(), Err(TestByATSPIError::Atspi("No root node built".to_string())));
}

#[test]
fn details_become_a_childless_node() {
    assert_eq!(details(&remote("/r", vec![remote("/a", vec![])])).into_leaf(), snapshot("/r", vec![]));
}
