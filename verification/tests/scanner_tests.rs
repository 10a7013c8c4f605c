use dustbunny::model::{NodeId, NodeKind, ScanError};
use dustbunny::scanner::{build_tree, display_name, node_kind, sort_all_children, Listing, RawEntry};

fn file(path: &str, len: u64) -> Listing {
    Listing::Entry(RawEntry { path: path.to_string(), kind: NodeKind::File, len, read_error: None, items: Vec::new() })
}

fn dir(path: &str, items: Vec<Listing>) -> RawEntry {
    RawEntry { path: path.to_string(), kind: NodeKind::Directory, len: 4096, read_error: None, items }
}

fn find(tree: &dustbunny::model::FileTree, parent: NodeId, name: &str) -> NodeId {
    tree.children_sorted(parent).into_iter().find(|id| tree.get(*id).name == name).unwrap()
}

#[test]
fn aggregates_nested_directory_sizes() {
    let b = dir("/t/a/b", vec![file("/t/a/b/two.bin", 15)]);
    let a = dir("/t/a", vec![file("/t/a/one.bin", 10), Listing::Entry(b)]);
    let root = dir("/t", vec![Listing::Entry(a), file("/t/root.bin", 5)]);
    let tree = build_tree(&root);
    assert_eq!(tree.get(tree.root()).size_bytes, 30);
    let a = find(&tree, tree.root(), "a");
    assert_eq!(tree.get(a).size_bytes, 25);
}

#[test]
fn sorts_children_largest_first() {
    let root = dir("/t", vec![file("/t/small.bin", 1), file("/t/large.bin", 9)]);
    let tree = build_tree(&root);
    let names: Vec<&str> = tree.children_sorted(tree.root()).iter().map(|id| tree.get(*id).name.as_str()).collect();
    assert_eq!(names, ["large.bin", "small.bin"]);
}

#[test]
fn build_tree_numbers_entries_depth_first() {
    let sub = dir("/t/sub", vec![file("/t/sub/x", 3)]);
    let root = dir("/t", vec![Listing::Entry(sub), file("/t/y", 7)]);
    let tree = build_tree(&root);
    assert_eq!(tree.get(NodeId(0)).name, "t");
    assert_eq!(tree.get(NodeId(1)).path, "/t/sub");
    assert_eq!(tree.get(NodeId(2)).path, "/t/sub/x");
    assert_eq!(tree.get(NodeId(2)).parent, Some(NodeId(1)));
    assert_eq!(tree.get(NodeId(3)).path, "/t/y");
    assert_eq!(tree.get(NodeId(0)).children, vec![NodeId(3), NodeId(1)]);
    assert_eq!(tree.get(NodeId(0)).size_bytes, 10);
    assert_eq!(tree.item_count(NodeId(0)), 3);
}

#[test]
fn build_tree_records_errors_in_order() {
    let mut locked = dir("/t/locked", vec![file("/t/locked/never", 100)]);
    locked.read_error = Some("permission denied".to_string());
    let root = dir(
        "/t",
        vec![
            Listing::Failure(ScanError { path: "/t".to_string(), message: "bad entry".to_string() }),
            Listing::Entry(locked),
            file("/t/ok", 2),
        ],
    );
    let tree = build_tree(&root);
    assert_eq!(tree.errors().len(), 2);
    assert_eq!(tree.errors()[0].message, "bad entry");
    assert_eq!(tree.errors()[1].path, "/t/locked");
    assert_eq!(tree.errors()[1].message, "permission denied");
    let locked = find(&tree, tree.root(), "locked");
    assert_eq!(tree.get(locked).size_bytes, 0);
    assert!(tree.get(locked).children.is_empty());
    assert_eq!(tree.get(tree.root()).size_bytes, 2);
}

#[test]
fn files_keep_their_length_and_sizes_saturate() {
    let root = RawEntry { path: "/f".to_string(), kind: NodeKind::File, len: 42, read_error: None, items: Vec::new() };
    assert_eq!(build_tree(&root).get(NodeId(0)).size_bytes, 42);
    let root = dir("/t", vec![file("/t/a", u64::MAX), file("/t/b", 1)]);
    assert_eq!(build_tree(&root).get(NodeId(0)).size_bytes, u64::MAX);
}

#[test]
fn display_name_is_the_last_name() {
    assert_eq!(display_name("/home/user/file.txt"), "file.txt");
    assert_eq!(display_name("/home/user/"), "user");
    assert_eq!(display_name("a/."), "a");
    assert_eq!(display_name("/"), "/");
    assert_eq!(display_name("a/.."), "a/..");
    assert_eq!(display_name(""), "");
}

#[test]
fn node_kind_follows_the_file_type() {
    assert_eq!(node_kind(true, false, false), NodeKind::Directory);
    assert_eq!(node_kind(false, true, false), NodeKind::File);
    assert_eq!(node_kind(false, false, true), NodeKind::Symlink);
    assert_eq!(node_kind(false, false, false), NodeKind::Other);
}

#[test]
fn sort_all_children_orders_every_level() {
    let inner = dir("/t/d", vec![file("/t/d/b", 1), file("/t/d/a", 1), file("/t/d/c", 5)]);
    let root = dir("/t", vec![file("/t/z", 1), Listing::Entry(inner)]);
    let mut tree = build_tree(&root);
    assert_eq!(tree.get(NodeId(2)).children, vec![NodeId(5), NodeId(4), NodeId(3)]);
    sort_all_children(&mut tree, NodeId(0));
    assert_eq!(tree.get(NodeId(0)).children, vec![NodeId(2), NodeId(1)]);
}
