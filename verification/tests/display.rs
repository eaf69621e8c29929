use rusize::chars::{ascii_chars, get, unicode_chars};
use rusize::display::{
    banner_lines, child_breakdown, count_descendants, count_descendants_inclusive, drawer_marker, is_near,
    node_key, point_in_rect, root_key, tree_depth, App, ItemKind, Key, LayoutCache, LoadRequest, Mouse,
    FrameAreas, MouseKind, Rect, ScanTarget,
};
use rusize::scanner::{scan_tree, sort_recursive, tracks_children, DirNode, ScanEntry, ScanResult};

fn folder(name: &str, size: u64, loaded: bool, children: Vec<DirNode>) -> DirNode {
    DirNode {
        name: name.to_string(),
        path: format!("/r/{}", name),
        size,
        has_children: !children.is_empty() || !loaded,
        children_loaded: loaded,
        is_loading: false,
        children,
    }
}

fn sample_app() -> App {
    let nodes = vec![
        folder("a", 300, true, vec![folder("a1", 100, true, vec![]), folder("a2", 200, false, vec![])]),
        folder("tiny", 1, true, vec![]),
        folder("b", 50, true, vec![]),
    ];
    let target = ScanTarget { root_display: "/r".to_string(), nodes, total_size: 351 };
    App::new(vec![target], 10)
}

fn titles(app: &App) -> Vec<String> {
    app.visible_items().iter().map(|i| i.title.clone()).collect()
}

#[test]
fn keys_name_roots_and_folders() {
    assert_eq!(root_key("/r"), "root::/r");
    assert_eq!(node_key(&folder("a", 1, true, vec![])), "node::/r/a");
}

#[test]
fn new_app_opens_every_root() {
    let app = sample_app();
    assert_eq!(app.status_message, "Ready. 1 roots loaded. Press ? for help.");
    assert_eq!(app.pane_ratio, 38);
    assert_eq!(app.selected, 0);
    assert_eq!(titles(&app), vec!["/r", "a", "b"]);
    let items = app.visible_items();
    assert_eq!(items[1].depth, 1);
    assert!(items[1].expandable);
    assert!(!items[1].expanded);
}

#[test]
fn keys_move_expand_and_collapse() {
    let mut app = sample_app();
    let mut loads: Vec<LoadRequest> = Vec::new();
    app.handle_key(Key::Down, &mut loads);
    assert_eq!(app.selected, 1);
    app.handle_key(Key::Char('e'), &mut loads);
    assert_eq!(app.status_message, "Expanded a");
    assert_eq!(titles(&app), vec!["/r", "a", "a1", "a2", "b"]);
    assert!(loads.is_empty());
    app.handle_key(Key::Down, &mut loads);
    app.handle_key(Key::Down, &mut loads);
    // Selecting the unloaded folder asks for its subfolders once.
    assert_eq!(loads.len(), 1);
    assert_eq!(loads[0].dir_path, "/r/a2");
    assert_eq!(loads[0].node_path, vec![0, 1]);
    assert_eq!(app.status_message, "Loading a2...");
    app.handle_key(Key::Up, &mut loads);
    app.handle_key(Key::Down, &mut loads);
    assert_eq!(loads.len(), 1);
    // Collapsing a closed folder moves to its parent.
    app.handle_key(Key::Left, &mut loads);
    assert_eq!(app.selected, 1);
    assert_eq!(app.status_message, "Moved to parent a");
    app.handle_key(Key::Char('c'), &mut loads);
    assert_eq!(app.status_message, "Collapsed a");
    assert_eq!(titles(&app), vec!["/r", "a", "b"]);
    app.handle_key(Key::Char('h'), &mut loads);
    assert_eq!(app.selected, 0);
    assert_eq!(app.status_message, "Moved to parent /r");
    app.handle_key(Key::End, &mut loads);
    assert_eq!(app.selected, 2);
    app.handle_key(Key::Down, &mut loads);
    assert_eq!(app.selected, 2);
    app.handle_key(Key::Home, &mut loads);
    app.handle_key(Key::Up, &mut loads);
    assert_eq!(app.selected, 0);
    app.handle_key(Key::Enter, &mut loads);
    assert_eq!(app.status_message, "Collapsed /r");
    assert_eq!(titles(&app), vec!["/r"]);
    app.handle_key(Key::Char('q'), &mut loads);
    assert!(app.should_quit);
}

#[test]
fn help_and_resize_keys() {
    let mut app = sample_app();
    let mut loads = Vec::new();
    app.handle_key(Key::Char('?'), &mut loads);
    assert!(app.show_help);
    assert_eq!(app.status_message, "Opened help drawer");
    app.handle_key(Key::Char('?'), &mut loads);
    assert_eq!(app.status_message, "Closed help drawer");
    app.handle_key(Key::Char('+'), &mut loads);
    assert_eq!(app.pane_ratio, 41);
    assert_eq!(app.status_message, "Pane ratio set to 41% / 59%");
    for _ in 0..20 {
        app.handle_key(Key::Char(']'), &mut loads);
    }
    assert_eq!(app.pane_ratio, 65);
    for _ in 0..30 {
        app.handle_key(Key::Char('-'), &mut loads);
    }
    assert_eq!(app.pane_ratio, 25);
    assert_eq!(app.status_message, "Pane ratio set to 25% / 75%");
}

#[test]
fn scan_results_fill_in_folders() {
    let mut app = sample_app();
    let mut loads = Vec::new();
    app.handle_key(Key::Down, &mut loads);
    app.handle_key(Key::Right, &mut loads);
    app.handle_key(Key::Down, &mut loads);
    app.handle_key(Key::Down, &mut loads);
    app.handle_key(Key::Enter, &mut loads);
    assert_eq!(app.status_message, "Expanded a2");
    let result = ScanResult { target_idx: 0, node_path: vec![0, 1], children: vec![folder("deep", 20, true, vec![])] };
    assert!(app.result_target_exists(&result));
    app.handle_scan_result(result);
    assert_eq!(app.status_message, "Loaded a2");
    assert_eq!(titles(&app), vec!["/r", "a", "a1", "a2", "deep", "b"]);
    let n = app.node_at(0, &vec![0, 1]);
    assert!(n.children_loaded && !n.is_loading && n.has_children);
    // An empty result closes the drawer.
    let empty = ScanResult { target_idx: 0, node_path: vec![0, 1], children: vec![] };
    app.handle_scan_result(empty);
    assert_eq!(titles(&app), vec!["/r", "a", "a1", "a2", "b"]);
    assert!(!app.visible_items()[3].expandable);
    let bad = ScanResult { target_idx: 0, node_path: vec![7], children: vec![] };
    assert!(!app.result_target_exists(&bad));
}

#[test]
fn frames_lay_out_the_panes() {
    let mut app = sample_app();
    let mut loads = Vec::new();
    let areas = app.prepare_frame(Rect { x: 0, y: 0, width: 100, height: 40 }, &mut loads);
    assert_eq!(areas.header, Rect { x: 0, y: 0, width: 100, height: 3 });
    assert_eq!(areas.footer, Rect { x: 0, y: 36, width: 100, height: 4 });
    assert_eq!(areas.drawers, Rect { x: 0, y: 3, width: 38, height: 33 });
    assert_eq!(areas.details, Rect { x: 38, y: 3, width: 62, height: 33 });
    assert_eq!(areas.help_height, 4);
    assert_eq!(areas.pane_ratio, 38);
    assert_eq!(app.layout.divider_x, 38);
    assert_eq!(app.layout.drawer_rows, 31);
    assert!(app.is_on_divider(37) && app.is_on_divider(39) && !app.is_on_divider(40));
    assert_eq!(app.drawer_index_at_row(4), Some(0));
    assert_eq!(app.drawer_index_at_row(6), Some(2));
    assert_eq!(app.drawer_index_at_row(7), None);
    assert_eq!(app.drawer_index_at_row(3), None);
    // Clicking a row selects it; clicking it again toggles it.
    app.handle_mouse(Mouse { kind: MouseKind::LeftDown, column: 5, row: 5 }, &mut loads);
    assert_eq!(app.selected, 1);
    assert_eq!(app.status_message, "Selected a");
    app.handle_mouse(Mouse { kind: MouseKind::LeftDown, column: 5, row: 5 }, &mut loads);
    assert_eq!(app.status_message, "Expanded a");
    app.handle_mouse(Mouse { kind: MouseKind::ScrollDown, column: 5, row: 5 }, &mut loads);
    assert_eq!(app.selected, 2);
    // Dragging the divider.
    app.handle_mouse(Mouse { kind: MouseKind::LeftDown, column: 38, row: 10 }, &mut loads);
    assert!(app.resizing);
    assert_eq!(app.status_message, "Resizing panes: 38% / 62%");
    app.handle_mouse(Mouse { kind: MouseKind::LeftDrag, column: 50, row: 10 }, &mut loads);
    assert_eq!(app.pane_ratio, 50);
    app.handle_mouse(Mouse { kind: MouseKind::LeftDrag, column: 90, row: 10 }, &mut loads);
    assert_eq!(app.pane_ratio, 65);
    app.handle_mouse(Mouse { kind: MouseKind::LeftUp, column: 90, row: 10 }, &mut loads);
    assert!(!app.resizing);
    assert_eq!(app.status_message, "Pane ratio set to 65% / 35%");
    app.handle_mouse(Mouse { kind: MouseKind::LeftDown, column: 5, row: 37 }, &mut loads);
    assert!(app.show_help);
    // The next frame has the taller help drawer and the new pane ratio.
    let areas = app.prepare_frame(Rect { x: 0, y: 0, width: 100, height: 40 }, &mut loads);
    assert_eq!(areas.help_height, 7);
    assert_eq!(areas.pane_ratio, 65);
    assert_eq!(areas.footer, Rect { x: 0, y: 33, width: 100, height: 7 });
    assert_eq!(areas.drawers.width, 65);
}

#[test]
fn details_describe_roots_and_folders() {
    let app = sample_app();
    let items = app.visible_items();
    let root = app.detail_data(&items[0]).unwrap();
    assert_eq!(root.title, "/r");
    assert_eq!(root.kind_label, "scan root");
    assert_eq!(root.size, 351);
    assert_eq!(root.root_share, (351, 351));
    assert_eq!(root.total_share, (351, 351));
    assert_eq!(root.direct_children, 3);
    assert_eq!(root.visible_children, 2);
    assert_eq!(root.descendants, 5);
    assert_eq!(root.tracked_depth, 2);
    assert_eq!(root.largest_child, Some(("a".to_string(), 300)));
    assert_eq!(root.breakdown, vec![("a".to_string(), 300), ("b".to_string(), 50)]);
    let a = app.detail_data(&items[1]).unwrap();
    assert_eq!(a.kind_label, "folder drawer");
    assert_eq!(a.path, "/r/a");
    assert_eq!(a.root_label, "/r");
    assert_eq!(a.root_share, (300, 351));
    assert_eq!(a.descendants, 2);
    assert_eq!(a.tracked_depth, 2);
    assert_eq!(a.largest_child, Some(("a2".to_string(), 200)));
    let bogus = rusize::display::VisibleItem {
        key: String::new(),
        title: String::new(),
        depth: 0,
        expandable: false,
        expanded: false,
        is_loading: false,
        kind: ItemKind::Target(9),
    };
    assert!(app.detail_data(&bogus).is_none());
}

#[test]
fn breakdown_is_largest_first_and_at_most_eight() {
    let nodes: Vec<DirNode> = (0..12u64).map(|i| folder(&format!("f{}", i), (i % 4) * 10, true, vec![])).collect();
    let b = child_breakdown(&nodes, 10);
    assert_eq!(b.len(), 8);
    assert_eq!(b[0], ("f3".to_string(), 30));
    assert_eq!(b[1], ("f7".to_string(), 30));
    assert_eq!(b[2], ("f11".to_string(), 30));
    assert_eq!(b[3], ("f2".to_string(), 20));
    assert_eq!(b[7], ("f5".to_string(), 10));
}

#[test]
fn counts_and_depths() {
    let t = folder("t", 1, true, vec![folder("x", 1, true, vec![folder("y", 1, true, vec![])]), folder("z", 1, true, vec![])]);
    assert_eq!(count_descendants(&t), Some(3));
    assert_eq!(count_descendants_inclusive(&t), Some(4));
    assert_eq!(tree_depth(&t), Some(3));
    assert_eq!(tree_depth(&folder("leaf", 1, true, vec![])), Some(1));
}

#[test]
fn geometry_helpers() {
    assert!(is_near(10, 11, 1) && is_near(12, 11, 1) && !is_near(13, 11, 1));
    assert!(is_near(0, 0, 1) && is_near(65535, 65535, 1));
    let r = Rect { x: 2, y: 3, width: 4, height: 5 };
    assert!(point_in_rect(2, 3, r) && point_in_rect(5, 7, r));
    assert!(!point_in_rect(6, 3, r) && !point_in_rect(2, 8, r) && !point_in_rect(1, 3, r));
    assert_eq!(LayoutCache::empty().drawer_rows, 0);
}

#[test]
fn character_sets_and_markers() {
    let a = ascii_chars();
    let u = unicode_chars();
    assert_eq!(a.branch, "|-- ");
    assert_eq!(u.branch, "\u{251C}\u{2500}\u{2500} ");
    assert_eq!(get(true).check, "[OK]");
    assert_eq!(get(false).check, "\u{2713}");
    assert_eq!(drawer_marker(false, false, &a), "|-- ");
    assert_eq!(drawer_marker(true, true, &a), "[-]");
    assert_eq!(drawer_marker(true, false, &a), "[+]");
    assert_eq!(drawer_marker(true, true, &u), "\u{25BC}");
    assert_eq!(drawer_marker(true, false, &u), "\u{25B6}");
    let lines = banner_lines(&a);
    assert_eq!(lines[0], format!("+{}+", "=".repeat(50)));
    assert_eq!(lines[1], "|  >> rusize -- Disk Scanner                       |");
    assert_eq!(lines[2], "|  High-Speed  |  Multi-Threaded  |  Drawer View   |");
    assert_eq!(lines[3], format!("+{}+", "=".repeat(50)));
}

fn sizes(nodes: &[DirNode]) -> Vec<u64> {
    nodes.iter().map(|n| n.size).collect()
}

#[test]
fn explorer_sort_orders_every_level_and_is_stable() {
    let mut nodes = vec![
        folder("s", 5, true, vec![]),
        folder("x", 9, true, vec![folder("x1", 1, true, vec![]), folder("x2", 8, true, vec![])]),
        folder("t", 5, true, vec![]),
    ];
    sort_recursive(&mut nodes);
    assert_eq!(sizes(&nodes), vec![9, 5, 5]);
    // Equal sizes keep their order.
    assert_eq!(nodes[1].name, "s");
    assert_eq!(nodes[2].name, "t");
    assert_eq!(sizes(&nodes[0].children), vec![8, 1]);

    let before: Vec<String> = nodes.iter().map(|n| n.name.clone()).collect();
    sort_recursive(&mut nodes);
    let after: Vec<String> = nodes.iter().map(|n| n.name.clone()).collect();
    assert_eq!(before, after);
}

#[test]
fn explorer_scan_tree_marks_what_is_loaded() {
    assert!(tracks_children(1, 2));
    assert!(!tracks_children(2, 2));
    let sub = folder("sub", 10, true, vec![]);
    let node = scan_tree(
        "d".to_string(),
        "/d".to_string(),
        1,
        2,
        Some(vec![ScanEntry::File { len: 5 }, ScanEntry::Subdir { node: sub }]),
    )
    .unwrap();
    assert_eq!(node.size, 15);
    assert!(node.has_children);
    assert!(node.children_loaded);
    assert_eq!(node.children.len(), 1);

    let deep = scan_tree("e".to_string(), "/e".to_string(), 2, 2, Some(vec![ScanEntry::DeepDir { size: 7 }])).unwrap();
    assert_eq!(deep.size, 7);
    assert!(deep.has_children);
    assert!(!deep.children_loaded);
    assert!(deep.children.is_empty());

    let files = scan_tree("f".to_string(), "/f".to_string(), 2, 2, Some(vec![ScanEntry::File { len: 3 }])).unwrap();
    assert!(!files.has_children);
    assert!(files.children_loaded);

    let over = scan_tree(
        "o".to_string(),
        "/o".to_string(),
        1,
        2,
        Some(vec![ScanEntry::File { len: u64::MAX }, ScanEntry::File { len: 1 }]),
    );
    assert!(over.is_none());

    // A directory that cannot be read: empty, and its children not loaded.
    let shut = scan_tree("s".to_string(), "/s".to_string(), 1, 2, None).unwrap();
    assert_eq!(shut.size, 0);
    assert!(!shut.has_children);
    assert!(!shut.children_loaded);
    assert!(shut.children.is_empty());
}

fn open_keys(app: &App) -> Vec<String> {
    let mut v = app.expanded.clone();
    v.sort();
    v
}

#[test]
fn toggling_twice_restores_the_open_drawers() {
    let mut app = sample_app();
    let mut loads: Vec<LoadRequest> = Vec::new();
    let before = open_keys(&app);
    // An open root closes and opens again.
    app.toggle_current(&mut loads);
    assert_eq!(titles(&app), vec!["/r"]);
    app.toggle_current(&mut loads);
    assert_eq!(open_keys(&app), before);
    assert_eq!(titles(&app), vec!["/r", "a", "b"]);
    // A closed folder opens (asking for nothing, it is loaded) and closes again.
    app.selected = 1;
    app.toggle_current(&mut loads);
    assert_eq!(titles(&app), vec!["/r", "a", "a1", "a2", "b"]);
    app.toggle_current(&mut loads);
    assert_eq!(open_keys(&app), before);
    // An unloaded folder: its scan is asked for on opening, and closing undoes the opening.
    app.toggle_current(&mut loads);
    app.selected = 3;
    app.toggle_current(&mut loads);
    assert_eq!(loads.len(), 1);
    assert_eq!(loads[0].dir_path, "/r/a2");
    app.toggle_current(&mut loads);
    assert_eq!(loads.len(), 1);
    assert!(!app.expanded.contains(&"node::/r/a2".to_string()));
}

#[test]
fn laying_out_given_panes() {
    let mut app = sample_app();
    let mut loads = Vec::new();
    let areas = FrameAreas {
        header: Rect { x: 0, y: 0, width: 80, height: 3 },
        drawers: Rect { x: 0, y: 3, width: 30, height: 1 },
        details: Rect { x: 30, y: 3, width: 50, height: 1 },
        footer: Rect { x: 0, y: 4, width: 80, height: 4 },
        help_height: 4,
        pane_ratio: 38,
    };
    app.selected = 7;
    app.lay_out_frame(&areas, &mut loads);
    // The selection is kept on the list and scrolled into view.
    assert_eq!(app.selected, 2);
    assert_eq!(app.layout.divider_x, 30);
    assert_eq!(app.layout.drawer_rows, 0);
    assert_eq!(app.drawer_scroll, 2);
    assert_eq!(app.layout.help_area, Rect { x: 0, y: 4, width: 80, height: 4 });
}

#[test]
fn a_folder_is_asked_for_once_while_it_loads() {
    let mut app = sample_app();
    let mut loads: Vec<LoadRequest> = Vec::new();
    let kind = ItemKind::Node { target_idx: 0, node_path: vec![0, 1] };
    app.ensure_item_loaded(&kind, &mut loads);
    assert_eq!(loads.len(), 1);
    assert_eq!(loads[0].dir_path, "/r/a2");
    assert_eq!(app.status_message, "Loading a2...");
    app.status_message = "other".to_string();
    app.ensure_item_loaded(&kind, &mut loads);
    assert_eq!(loads.len(), 1);
    assert_eq!(app.status_message, "other");
    // A loaded folder is never asked for.
    app.ensure_item_loaded(&ItemKind::Node { target_idx: 0, node_path: vec![0, 0] }, &mut loads);
    app.ensure_item_loaded(&ItemKind::Target(0), &mut loads);
    assert_eq!(loads.len(), 1);
}

#[test]
fn a_frame_keeps_the_selection_in_view() {
    let mut app = sample_app();
    let mut loads = Vec::new();
    app.selected = 2;
    app.drawer_scroll = 9;
    let areas = app.prepare_frame(Rect { x: 0, y: 0, width: 100, height: 40 }, &mut loads);
    assert_eq!(app.layout.drawers_area, areas.drawers);
    assert!(app.drawer_scroll <= app.selected);
    assert!(app.selected < app.drawer_scroll + app.layout.drawer_rows.max(1));
    assert_eq!(app.visible_items().len(), 3);
}

#[test]
fn the_drawers_pane_shows_a_window_of_rows() {
    let mut app = sample_app();
    assert_eq!(app.drawer_window(3, 10), (0, 3));
    assert_eq!(app.drawer_window(3, 3), (0, 1));
    assert_eq!(app.drawer_window(3, 1), (0, 0));
    app.drawer_scroll = 2;
    assert_eq!(app.drawer_window(3, 10), (2, 3));
    app.drawer_scroll = 5;
    assert_eq!(app.drawer_window(3, 10), (3, 3));
}
