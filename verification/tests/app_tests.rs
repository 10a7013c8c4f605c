use dustbunny::app::{App, Focus, KeyAction};
use dustbunny::demo;
use dustbunny::model::{FileNode, FileTree, NodeId, NodeKind};
use dustbunny::terminal::Key;

fn leaf_tree() -> FileTree {
    FileTree::new(FileNode {
        id: NodeId(0),
        parent: None,
        name: "empty".to_string(),
        path: "/empty".to_string(),
        kind: NodeKind::Directory,
        size_bytes: 0,
        children: Vec::new(),
    })
}

#[test]
fn demo_app_selects_the_largest_child() {
    let app = demo::app();
    assert_eq!(app.root_path, "/Volumes/DustBunny Demo");
    assert_eq!(app.view_root, NodeId(0));
    assert_eq!(app.selected, NodeId(1));
    assert_eq!(app.selected_index(), Some(0));
    assert_eq!(app.focus, Focus::List);
    assert_eq!(app.message, "ready");
    assert!(!app.show_help);
    assert!(!app.should_quit);
    assert_eq!(app.tree.item_count(NodeId(0)), 51);
    assert_eq!(app.tree.get(NodeId(9)).path, "/Volumes/DustBunny Demo/Users/dunc");
}

#[test]
fn demo_root_children_are_ordered_by_size() {
    let app = demo::app();
    assert_eq!(
        app.visible_children(),
        vec![NodeId(1), NodeId(2), NodeId(3), NodeId(4), NodeId(5), NodeId(6), NodeId(7), NodeId(8)]
    );
}

#[test]
fn new_app_on_an_empty_tree_selects_the_root() {
    let app = App::new(leaf_tree(), "/empty".to_string());
    assert_eq!(app.selected, NodeId(0));
    assert_eq!(app.selected_index(), None);
}

#[test]
fn arrows_move_and_stop_at_the_ends() {
    let mut app = demo::app();
    app.handle_key(Key::Up);
    assert_eq!(app.selected, NodeId(1));
    app.handle_key(Key::Down);
    assert_eq!(app.selected, NodeId(2));
    app.handle_key(Key::Right);
    assert_eq!(app.selected, NodeId(3));
    app.handle_key(Key::Left);
    assert_eq!(app.selected, NodeId(2));
    for _ in 0..20 {
        app.handle_key(Key::Down);
    }
    assert_eq!(app.selected, NodeId(8));
    assert_eq!(app.selected_index(), Some(7));
}

#[test]
fn enter_drills_in_and_backspace_goes_back() {
    let mut app = demo::app();
    app.handle_key(Key::Enter);
    assert_eq!(app.view_root, NodeId(1));
    assert_eq!(app.selected, NodeId(9));
    assert_eq!(app.tree.breadcrumb(app.selected), "DustBunny Demo / Users / dunc");
    app.handle_key(Key::Backspace);
    assert_eq!(app.view_root, NodeId(0));
    assert_eq!(app.selected, NodeId(1));
    assert_eq!(app.message, "went to parent");
    app.handle_key(Key::Backspace);
    assert_eq!(app.view_root, NodeId(0));
    assert_eq!(app.message, "already at scan root");
}

#[test]
fn enter_on_a_file_reports_it() {
    let mut app = demo::app();
    app.handle_key(Key::Enter);
    for _ in 0..3 {
        app.handle_key(Key::Down);
    }
    assert_eq!(app.selected, NodeId(12));
    app.handle_key(Key::Enter);
    assert_eq!(app.view_root, NodeId(1));
    assert_eq!(app.message, "photo-library.photoslibrary is not a directory");
}

#[test]
fn tab_twice_restores_focus() {
    let mut app = demo::app();
    app.handle_key(Key::Tab);
    assert_eq!(app.focus, Focus::MapPane);
    app.handle_key(Key::Tab);
    assert_eq!(app.focus, Focus::List);
}

#[test]
fn quit_help_and_delete_keys() {
    let mut app = demo::app();
    app.handle_key(Key::Char('?'));
    assert!(app.show_help);
    app.handle_key(Key::Char('?'));
    assert!(!app.show_help);
    app.handle_key(Key::Char('d'));
    assert_eq!(app.message, "delete is intentionally not implemented yet; use your file manager");
    let action = app.handle_key(Key::Char('x'));
    assert!(matches!(action, KeyAction::Nothing));
    app.handle_key(Key::Esc);
    assert!(app.should_quit);
    let mut other = demo::app();
    other.handle_key(Key::Char('q'));
    assert!(other.should_quit);
}

#[test]
fn open_and_rescan_ask_for_outside_work() {
    let mut app = demo::app();
    match app.handle_key(Key::Char('o')) {
        KeyAction::Open(path) => assert_eq!(path, "/Volumes/DustBunny Demo/Users"),
        _ => panic!("expected an open request"),
    }
    assert!(matches!(app.handle_key(Key::Char('r')), KeyAction::Rescan));
    app.open_selected(Ok(()));
    assert_eq!(app.message, "opened /Volumes/DustBunny Demo/Users");
    app.open_selected(Err("no opener".to_string()));
    assert_eq!(app.message, "open failed: no opener");
}

#[test]
fn rescan_replaces_the_tree_or_reports_failure() {
    let mut app = demo::app();
    app.handle_key(Key::Enter);
    app.rescan(Err("denied".to_string()));
    assert_eq!(app.message, "rescan failed: denied");
    assert_eq!(app.view_root, NodeId(1));
    app.rescan(Ok(leaf_tree()));
    assert_eq!(app.message, "rescan complete");
    assert_eq!(app.view_root, NodeId(0));
    assert_eq!(app.selected, NodeId(0));
    assert_eq!(app.root_path, "/Volumes/DustBunny Demo");
}
