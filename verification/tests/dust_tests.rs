use std::collections::HashSet;

use dustbunny::dust::{
    allocated_size, clean_inodes, collect_children, kind_from_flags, path_before, scan, sort_by_inode, DustError,
    DustKind, DustNode, WalkResult,
};

fn file(path: &str, size: u64, inode: Option<(u64, u64)>) -> DustNode {
    DustNode::leaf(path.to_string(), size, DustKind::File, inode)
}

fn error(path: &str, message: &str) -> DustError {
    DustError { path: path.to_string(), message: message.to_string() }
}

#[test]
fn deduplicates_hard_links() {
    let children = vec![
        file("/root/original.bin", 12288, Some((5, 7))),
        file("/root/linked.bin", 12288, Some((5, 7))),
    ];
    let root = DustNode::directory("/root".to_string(), 4096, DustKind::Directory, Some((1, 7)), children);
    assert_eq!(root.size_bytes, 4096 + 2 * 12288);
    let scan = scan(root, Vec::new()).unwrap();
    assert_eq!(scan.root.children.len(), 1);
    assert_eq!(scan.root.size_bytes, 4096 + 12288);
}

#[test]
fn hard_links_across_directories_are_counted_once() {
    let a = DustNode::directory(
        "/r/a".to_string(),
        10,
        DustKind::Directory,
        Some((2, 1)),
        vec![file("/r/a/x", 100, Some((9, 1)))],
    );
    let b = DustNode::directory(
        "/r/b".to_string(),
        10,
        DustKind::Directory,
        Some((3, 1)),
        vec![file("/r/b/y", 100, Some((9, 1))), file("/r/b/z", 5, Some((8, 1)))],
    );
    let root = DustNode::directory("/r".to_string(), 1, DustKind::Directory, Some((1, 1)), vec![b, a]);
    let mut seen = HashSet::new();
    let cleaned = clean_inodes(root, &mut seen).unwrap();
    assert_eq!(cleaned.children[0].path, "/r/a");
    assert_eq!(cleaned.children[0].size_bytes, 110);
    assert_eq!(cleaned.children[1].path, "/r/b");
    assert_eq!(cleaned.children[1].children.len(), 1);
    assert_eq!(cleaned.children[1].children[0].path, "/r/b/z");
    assert_eq!(cleaned.children[1].size_bytes, 15);
    assert_eq!(cleaned.size_bytes, 126);
    assert_eq!(seen.len(), 5);
    let again = DustNode::leaf("/r".to_string(), 1, DustKind::Directory, Some((1, 1)));
    assert!(clean_inodes(again, &mut seen).is_none());
}

#[test]
fn sort_by_inode_puts_entries_without_inode_first() {
    let nodes = vec![
        file("/d/c", 1, Some((3, 1))),
        file("/d/b", 1, None),
        file("/d/e", 1, Some((1, 2))),
        file("/d/a", 1, None),
        file("/d/f", 1, Some((2, 1))),
    ];
    let sorted = sort_by_inode(nodes);
    let paths: Vec<&str> = sorted.iter().map(|n| n.path.as_str()).collect();
    assert_eq!(paths, vec!["/d/a", "/d/b", "/d/f", "/d/c", "/d/e"]);
}

#[test]
fn paths_compare_by_component() {
    assert!(path_before("/a/b", "/a-b"));
    assert!(!path_before("/a-b", "/a/b"));
    assert!(!path_before("a/./b", "a/b"));
    assert!(!path_before("a/b", "a//b/"));
    assert!(path_before("..", "a"));
    assert!(path_before("/z", "a"));
    assert!(path_before("./x", "../x"));
    assert!(path_before("a", "a/b"));
}

#[test]
fn allocated_size_uses_blocks_unless_implausible() {
    assert_eq!(allocated_size(10, 4096, 8), 4096);
    assert_eq!(allocated_size(0, 0, 0), 0);
    assert_eq!(allocated_size(5000, 4096, 16), 8192);
    assert_eq!(allocated_size(100, 512, 1_000_000_000), 512);
    assert_eq!(allocated_size(1, 1, 3), 1536);
}

#[test]
fn kinds_follow_the_file_type() {
    assert_eq!(kind_from_flags(true, false, false), DustKind::Directory);
    assert_eq!(kind_from_flags(false, true, false), DustKind::File);
    assert_eq!(kind_from_flags(false, false, true), DustKind::Symlink);
    assert_eq!(kind_from_flags(false, false, false), DustKind::Other);
}

#[test]
fn collect_children_keeps_entries_and_errors_in_order() {
    let results: Vec<WalkResult> = vec![
        Ok((file("/p/one", 1, None), vec![error("/p/one/x", "denied")])),
        Err(error("/p/two", "gone")),
        Ok((file("/p/three", 3, None), Vec::new())),
    ];
    let mut errors = vec![error("/p", "first")];
    let children = collect_children(results, &mut errors);
    assert_eq!(children.len(), 2);
    assert_eq!(children[0].path, "/p/one");
    assert_eq!(children[1].path, "/p/three");
    let messages: Vec<&str> = errors.iter().map(|e| e.message.as_str()).collect();
    assert_eq!(messages, vec!["first", "denied", "gone"]);
}

#[test]
fn directory_size_saturates() {
    let big = DustNode::directory("/big".to_string(), u64::MAX, DustKind::Directory, None, vec![file("/big/f", 5, None)]);
    assert_eq!(big.size_bytes, u64::MAX);
}

#[test]
fn own_totals_add_up_the_whole_tree() {
    let tree = DustNode::directory(
        "/t".to_string(),
        10,
        DustKind::Directory,
        None,
        vec![file("/t/a", 5, None), file("/t/b", 7, None)],
    );
    assert_eq!(dustbunny::dust::own_total_of(&tree), Some(22));
    let huge = DustNode::directory(
        "/h".to_string(),
        u64::MAX,
        DustKind::Directory,
        None,
        vec![file("/h/a", 1, None)],
    );
    assert_eq!(dustbunny::dust::own_total_of(&huge), None);
}

#[test]
fn sizes_total_detects_overflow() {
    let nodes = vec![file("/a", 3, None), file("/b", 4, None)];
    assert_eq!(dustbunny::dust::sizes_total_of(&nodes), Some(7));
    let nodes = vec![file("/a", u64::MAX, None), file("/b", 1, None)];
    assert_eq!(dustbunny::dust::sizes_total_of(&nodes), None);
}
