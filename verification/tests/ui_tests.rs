use dustbunny::demo;
use dustbunny::model::{FileNode, FileTree, NodeId, NodeKind, ScanError};
use dustbunny::ui::{ansi_style, frame_layout, render, summary, truncate, Canvas, Paint, Rect, Style};

fn strip(frame: &str) -> String {
    let mut out = String::new();
    let mut escape = false;
    for ch in frame.chars() {
        if ch == '\x1b' {
            escape = true;
        } else if escape {
            if ch == 'm' {
                escape = false;
            }
        } else {
            out.push(ch);
        }
    }
    out
}

fn small_tree() -> FileTree {
    let mut tree = FileTree::new(FileNode {
        id: NodeId(0),
        parent: None,
        name: "scan".to_string(),
        path: "/scan".to_string(),
        kind: NodeKind::Directory,
        size_bytes: 30,
        children: Vec::new(),
    });
    for (name, kind, size) in [("a", NodeKind::Directory, 25), ("root.bin", NodeKind::File, 5)] {
        let id = tree.add_node(FileNode {
            id: NodeId(0),
            parent: Some(NodeId(0)),
            name: name.to_string(),
            path: format!("/scan/{name}"),
            kind,
            size_bytes: size,
            children: Vec::new(),
        });
        tree.get_mut(NodeId(0)).children.push(id);
    }
    tree
}

#[test]
fn ansi_style_lists_codes_in_order() {
    assert_eq!(ansi_style(Style::new(None, None, false, false)), "\x1b[0m");
    assert_eq!(ansi_style(Style::fg(81)), "\x1b[0;38;5;81m");
    assert_eq!(ansi_style(Style::bg(235).bold()), "\x1b[0;1;48;5;235m");
    assert_eq!(ansi_style(Style::new(Some(1), Some(2), true, true)), "\x1b[0;1;2;38;5;1;48;5;2m");
    assert_eq!(ansi_style(Style::fg(7).on_bg(9)), "\x1b[0;38;5;7;48;5;9m");
}

#[test]
fn truncate_marks_cuts_with_a_dot() {
    assert_eq!(truncate("hello", 0), "");
    assert_eq!(truncate("hello", 1), ".");
    assert_eq!(truncate("hello", 3), "he.");
    assert_eq!(truncate("hi", 5), "hi");
    assert_eq!(truncate("héllo", 5), "héllo");
}

#[test]
fn canvas_finish_emits_style_changes() {
    let mut canvas = Canvas::new(2, 1, Style::new(None, None, false, false));
    canvas.write(0, 0, "ab", Style::fg(1));
    assert_eq!(canvas.finish(), "\x1b[0m\x1b[0;38;5;1mab\x1b[0m\x1b[0m");

    let mut canvas = Canvas::new(2, 2, Style::bg(3));
    canvas.put(1, 1, 'x', Style::bg(3));
    canvas.put(5, 5, 'y', Style::bg(4));
    assert_eq!(canvas.finish(), "\x1b[0;48;5;3m  \x1b[0m\r\n\x1b[0;48;5;3m x\x1b[0m\x1b[0m");
}

#[test]
fn canvas_write_clips_at_the_edge() {
    let mut canvas = Canvas::new(3, 1, Style::new(None, None, false, false));
    canvas.write(1, 0, "wxyz", Style::new(None, None, false, false));
    canvas.write_right(1, 0, "q", Style::new(None, None, false, false));
    assert_eq!(strip(&canvas.finish()), "qwx");
}

#[test]
fn layout_splits_the_screen() {
    let (header, map, side, status) = frame_layout(140, 42);
    assert_eq!(header, Rect { x: 0, y: 0, width: 140, height: 4 });
    assert_eq!(side, Rect { x: 97, y: 4, width: 43, height: 36 });
    assert_eq!(map, Rect { x: 0, y: 4, width: 97, height: 36 });
    assert_eq!(status, Rect { x: 0, y: 40, width: 140, height: 2 });
    let (_, map, side, _) = frame_layout(10, 10);
    assert_eq!(side.width, 30);
    assert_eq!(map.width, 50);
    let (_, _, side, _) = frame_layout(200, 50);
    assert_eq!(side.width, 44);
}

#[test]
fn render_draws_every_row() {
    let app = demo::app();
    let paints: Vec<Paint> = Vec::new();
    let frame = render(&app, 140, 42, &paints);
    let rows: Vec<&str> = frame.split("\r\n").collect();
    assert_eq!(rows.len(), 42);
    let text = strip(&frame);
    assert!(text.contains("Dustbunny"));
    assert!(text.contains("Disks and Folders"));
    assert!(text.contains("q quit   enter drill"));
    assert!(text.contains("ready"));
    assert!(text.contains("map"));
    assert!(text.contains("drag and drop files here to collect them"));
}

#[test]
fn render_applies_map_paints() {
    let app = demo::app();
    let paints = vec![
        Paint::Text { x: 10, y: 10, text: "LABEL".to_string(), style: Style::fg(1) },
        Paint::Half { x: 11, y: 11, upper: Some(5), lower: None },
    ];
    let frame = render(&app, 100, 30, &paints);
    assert!(strip(&frame).contains("LABEL"));
    assert!(frame.contains("\x1b[0;38;5;5;48;5;235m\u{2580}"));
}

#[test]
fn render_shows_help_on_request() {
    let mut app = demo::app();
    app.show_help = true;
    let paints: Vec<Paint> = Vec::new();
    let text = strip(&render(&app, 80, 24, &paints));
    assert!(text.contains(" help "));
    assert!(text.contains("?             close this help"));
}

#[test]
fn summary_lists_children_and_errors() {
    let mut tree = small_tree();
    assert_eq!(
        summary(&tree),
        "/scan\nTotal: 30 B across 2 items\n\nLargest children:\n      25 B  [D] a\n       5 B  [F] root.bin\n"
    );
    tree.add_error(ScanError { path: "/scan/locked".to_string(), message: "denied".to_string() });
    assert!(summary(&tree).ends_with("\nScan errors:\n/scan/locked: denied\n"));
}

#[test]
fn sidebar_list_scrolls_with_the_selection() {
    let mut tree = FileTree::new(FileNode {
        id: NodeId(0),
        parent: None,
        name: "many".to_string(),
        path: "/many".to_string(),
        kind: NodeKind::Directory,
        size_bytes: 1000,
        children: Vec::new(),
    });
    for i in 0..30u64 {
        let id = tree.add_node(FileNode {
            id: NodeId(0),
            parent: Some(NodeId(0)),
            name: format!("f{i:02}"),
            path: format!("/many/f{i:02}"),
            kind: NodeKind::File,
            size_bytes: 100 - i,
            children: Vec::new(),
        });
        tree.get_mut(NodeId(0)).children.push(id);
    }
    let mut app = dustbunny::app::App::new(tree, "/many".to_string());
    for _ in 0..10 {
        app.handle_key(dustbunny::terminal::Key::Down);
    }
    assert_eq!(app.selected_index(), Some(10));
    let paints: Vec<Paint> = Vec::new();
    let text = strip(&render(&app, 80, 24, &paints));
    assert!(text.contains("\u{2191} 10 above"));
    assert!(text.contains("\u{2193} 19 below"));
    assert!(text.contains("f10"));
    assert!(!text.contains("f09"));
}
