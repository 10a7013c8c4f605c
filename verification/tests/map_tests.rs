use dustbunny::model::{FileNode, FileTree, NodeId, NodeKind};
use dustbunny::ui::{map_children, map_total, palette_color, ring_color};

fn tree_with(sizes: &[u64]) -> FileTree {
    let mut tree = FileTree::new(FileNode {
        id: NodeId(0),
        parent: None,
        name: "r".to_string(),
        path: "/r".to_string(),
        kind: NodeKind::Directory,
        size_bytes: sizes.iter().sum(),
        children: Vec::new(),
    });
    for (i, size) in sizes.iter().enumerate() {
        let id = tree.add_node(FileNode {
            id: NodeId(0),
            parent: Some(NodeId(0)),
            name: format!("c{i}"),
            path: format!("/r/c{i}"),
            kind: NodeKind::File,
            size_bytes: *size,
            children: Vec::new(),
        });
        tree.get_mut(NodeId(0)).children.push(id);
    }
    tree
}

#[test]
fn map_children_skip_empty_entries() {
    let tree = tree_with(&[0, 5, 9, 0]);
    assert_eq!(map_children(&tree, NodeId(0)), vec![NodeId(3), NodeId(2)]);
    assert!(map_children(&tree, NodeId(1)).is_empty());
}

#[test]
fn map_total_counts_each_entry_as_at_least_one() {
    let tree = tree_with(&[0, 5, 9]);
    assert_eq!(map_total(&tree, &vec![NodeId(1), NodeId(2), NodeId(3)]), 15);
    assert_eq!(map_total(&tree, &Vec::new()), 0);
}

#[test]
fn ring_colours_follow_the_palette_then_darken() {
    assert_eq!(ring_color(0, 0, 0), 119);
    assert_eq!(ring_color(0, 13, 0), palette_color(3));
    assert_eq!(ring_color(0, 3, 0), 75);
    assert_eq!(ring_color(1, 7, 100), 94);
    assert_eq!(ring_color(2, 0, 10), 0);
    assert_eq!(ring_color(300, 0, 255), 255 - 255);
    assert_eq!(ring_color(256, 0, 200), 200);
}
