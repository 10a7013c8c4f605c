use dustbunny::model::{format_size, FileNode, FileTree, NodeId, NodeKind, ScanError};

fn node(name: &str, parent: Option<NodeId>, kind: NodeKind, size: u64) -> FileNode {
    FileNode {
        id: NodeId(0),
        parent,
        name: name.to_string(),
        path: format!("/scan/{name}"),
        kind,
        size_bytes: size,
        children: Vec::new(),
    }
}

fn add(tree: &mut FileTree, parent: NodeId, name: &str, kind: NodeKind, size: u64) -> NodeId {
    let id = tree.add_node(node(name, Some(parent), kind, size));
    tree.get_mut(parent).children.push(id);
    id
}

fn sample() -> FileTree {
    let mut tree = FileTree::new(node("scan", None, NodeKind::Directory, 30));
    let root = tree.root();
    let a = add(&mut tree, root, "a", NodeKind::Directory, 25);
    add(&mut tree, a, "one.bin", NodeKind::File, 10);
    let b = add(&mut tree, a, "b", NodeKind::Directory, 15);
    add(&mut tree, b, "two.bin", NodeKind::File, 15);
    add(&mut tree, root, "root.bin", NodeKind::File, 5);
    tree
}

#[test]
fn format_size_bytes_below_one_kilobyte() {
    assert_eq!(format_size(0), "0 B");
    assert_eq!(format_size(1), "1 B");
    assert_eq!(format_size(1023), "1023 B");
}

#[test]
fn format_size_one_decimal_below_ten() {
    assert_eq!(format_size(1024), "1.0 KB");
    assert_eq!(format_size(1536), "1.5 KB");
    assert_eq!(format_size(1280), "1.2 KB");
    assert_eq!(format_size(1792), "1.8 KB");
    assert_eq!(format_size(1024 * 1024), "1.0 MB");
    assert_eq!(format_size(900 * 1024 * 1024), "900 MB");
}

#[test]
fn format_size_whole_numbers_from_ten() {
    assert_eq!(format_size(10 * 1024), "10 KB");
    assert_eq!(format_size(198 * 1024 * 1024 * 1024), "198 GB");
    assert_eq!(format_size(512 * 1024 * 1024 * 1024), "512 GB");
    assert_eq!(format_size(1024 * 1024 * 1024 * 1024), "1.0 TB");
}

#[test]
fn format_size_stops_at_petabytes() {
    assert_eq!(format_size(u64::MAX), "16384 PB");
    assert_eq!(format_size(1u64 << 50), "1.0 PB");
}

#[test]
fn icons_name_each_kind() {
    assert_eq!(NodeKind::Directory.icon(), "[D]");
    assert_eq!(NodeKind::File.icon(), "[F]");
    assert_eq!(NodeKind::Symlink.icon(), "[L]");
    assert_eq!(NodeKind::Other.icon(), "[?]");
}

#[test]
fn add_node_assigns_the_next_id() {
    let tree = sample();
    assert_eq!(tree.root(), NodeId(0));
    assert_eq!(tree.get(NodeId(3)).name, "b");
    assert_eq!(tree.get(NodeId(3)).id, NodeId(3));
    assert_eq!(tree.get(NodeId(3)).parent, Some(NodeId(1)));
    assert_eq!(tree.get(NodeId(1)).children, vec![NodeId(2), NodeId(3)]);
}

#[test]
fn children_sorted_largest_first_then_by_name() {
    let tree = sample();
    assert_eq!(tree.children_sorted(NodeId(0)), vec![NodeId(1), NodeId(5)]);
    assert_eq!(tree.children_sorted(NodeId(1)), vec![NodeId(3), NodeId(2)]);

    let mut tree = FileTree::new(node("scan", None, NodeKind::Directory, 0));
    let root = tree.root();
    let small = add(&mut tree, root, "small.bin", NodeKind::File, 1);
    let zeta = add(&mut tree, root, "zeta", NodeKind::File, 9);
    let alpha = add(&mut tree, root, "alpha", NodeKind::File, 9);
    let names: Vec<NodeId> = tree.children_sorted(root);
    assert_eq!(names, vec![alpha, zeta, small]);
}

#[test]
fn item_count_counts_everything_below() {
    let tree = sample();
    assert_eq!(tree.item_count(NodeId(0)), 5);
    assert_eq!(tree.item_count(NodeId(1)), 3);
    assert_eq!(tree.item_count(NodeId(4)), 0);
}

#[test]
fn breadcrumb_joins_names_from_the_root() {
    let tree = sample();
    assert_eq!(tree.breadcrumb(NodeId(0)), "scan");
    assert_eq!(tree.breadcrumb(NodeId(4)), "scan / a / b / two.bin");
}

#[test]
fn errors_are_kept_in_order() {
    let mut tree = sample();
    assert!(tree.errors().is_empty());
    tree.add_error(ScanError { path: "/scan/x".to_string(), message: "denied".to_string() });
    tree.add_error(ScanError { path: "/scan/y".to_string(), message: "gone".to_string() });
    assert_eq!(tree.errors().len(), 2);
    assert_eq!(tree.errors()[0].path, "/scan/x");
    assert_eq!(tree.errors()[1].message, "gone");
}
