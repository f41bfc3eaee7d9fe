use folder_scan::folder::FolderNode;
use folder_scan::scan::{filter_hierarchy, prune_threshold};

fn node(name: &str, size: u64) -> FolderNode {
    FolderNode::new(name.to_string(), format!("/{}", name), size)
}

#[test]
fn new_node_has_no_children() {
    let n = node("root", 42);
    assert_eq!(n.name, "root");
    assert_eq!(n.path, "/root");
    assert_eq!(n.size, 42);
    assert!(n.children.is_empty());
}

#[test]
fn add_child_appends_in_order() {
    let mut n = node("root", 0);
    n.add_child(node("a", 1));
    n.add_child(node("b", 2));
    assert_eq!(n.children.len(), 2);
    assert_eq!(n.children[0].name, "a");
    assert_eq!(n.children[1].name, "b");
}

#[test]
fn sort_children_orders_by_size_descending() {
    let mut n = node("root", 10);
    n.add_child(node("small", 1));
    n.add_child(node("big", 7));
    n.add_child(node("mid", 2));
    n.sort_children();
    let sizes: Vec<u64> = n.children.iter().map(|c| c.size).collect();
    assert_eq!(sizes, vec![7, 2, 1]);
    assert_eq!(n.children[0].name, "big");
    assert_eq!(n.size, 10);
}

#[test]
fn sort_children_is_stable_for_equal_sizes() {
    let mut n = node("root", 10);
    n.add_child(node("first", 3));
    n.add_child(node("second", 3));
    n.add_child(node("third", 5));
    n.sort_children();
    let names: Vec<&str> = n.children.iter().map(|c| c.name.as_str()).collect();
    assert_eq!(names, vec!["third", "first", "second"]);
}

#[test]
fn sort_children_recurses_into_children() {
    let mut inner = node("inner", 6);
    inner.add_child(node("x", 1));
    inner.add_child(node("y", 5));
    let mut n = node("root", 6);
    n.add_child(inner);
    n.sort_children();
    let inner_sizes: Vec<u64> = n.children[0].children.iter().map(|c| c.size).collect();
    assert_eq!(inner_sizes, vec![5, 1]);
}

#[test]
fn prune_threshold_is_one_hundredth_of_a_percent() {
    assert_eq!(prune_threshold(1_000_000), 100);
    assert_eq!(prune_threshold(9_999), 0);
    assert_eq!(prune_threshold(10_000), 1);
    assert_eq!(prune_threshold(0), 0);
}

#[test]
fn filter_removes_children_below_threshold() {
    let mut root = node("root", 1_000_000);
    root.add_child(node("tiny", 50));
    root.add_child(node("kept", 200));
    filter_hierarchy(&mut root, 100);
    assert_eq!(root.children.len(), 1);
    assert_eq!(root.children[0].name, "kept");
}

#[test]
fn filter_keeps_child_exactly_at_threshold() {
    let mut root = node("root", 1_000_000);
    root.add_child(node("edge", 100));
    root.add_child(node("below", 99));
    filter_hierarchy(&mut root, 100);
    assert_eq!(root.children.len(), 1);
    assert_eq!(root.children[0].name, "edge");
}

#[test]
fn filter_never_removes_the_root() {
    let mut root = node("root", 1);
    root.add_child(node("a", 0));
    filter_hierarchy(&mut root, 1_000);
    assert_eq!(root.name, "root");
    assert_eq!(root.size, 1);
    assert!(root.children.is_empty());
}

#[test]
fn filter_recurses_into_surviving_children() {
    let mut mid = node("mid", 500);
    mid.add_child(node("deep_small", 10));
    mid.add_child(node("deep_big", 400));
    let mut root = node("root", 1_000);
    root.add_child(mid);
    filter_hierarchy(&mut root, 100);
    assert_eq!(root.children.len(), 1);
    let survivor = &root.children[0];
    assert_eq!(survivor.name, "mid");
    assert_eq!(survivor.children.len(), 1);
    assert_eq!(survivor.children[0].name, "deep_big");
}
