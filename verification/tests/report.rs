use rusize::models::dir_node::DirNode;
use rusize::services::report::{generate_report, ReportBody, ReportFormat};
use rusize::services::scanner::{scan_tree, sort_recursive, tracks_children, ScanEntry};

fn node(name: &str, size: u64, children: Vec<DirNode>) -> DirNode {
    DirNode { name: name.to_string(), path: format!("/r/{}", name), size, children }
}

fn sample() -> Vec<DirNode> {
    vec![
        node("a", 3 << 30, vec![node("a1", 1 << 30, vec![]), node("a2", 2 << 30, vec![node("a21", 1 << 20, vec![])])]),
        node("b", 1 << 20, vec![]),
    ]
}

#[test]
fn text_report_draws_the_tree() {
    let r = generate_report(&sample(), &ReportFormat::Text, None);
    assert_eq!(r.output_path, "rusize_report.txt");
    match r.body {
        ReportBody::Text(lines) => assert_eq!(
            lines,
            vec![
                " a (3.00 GB)",
                "\u{251C}\u{2500}\u{2500}  a1 (1.00 GB)",
                "\u{2514}\u{2500}\u{2500}  a2 (2.00 GB)",
                "    \u{2514}\u{2500}\u{2500}  a21 (1.00 MB)",
                " b (1.00 MB)",
            ]
        ),
        _ => panic!("expected a text report"),
    }
}

#[test]
fn csv_report_lists_nodes_in_preorder() {
    let r = generate_report(&sample(), &ReportFormat::Csv, Some("out.csv"));
    assert_eq!(r.output_path, "out.csv");
    match r.body {
        ReportBody::Csv(rows) => {
            let names: Vec<&str> = rows.iter().map(|r| r.name.as_str()).collect();
            assert_eq!(names, vec!["a", "a1", "a2", "a21", "b"]);
            assert_eq!(rows[0].path, "/r/a");
            assert_eq!(rows[0].size_gb, "3.00 GB");
            assert_eq!(rows[3].size_gb, "1.00 MB");
        },
        _ => panic!("expected a CSV report"),
    }
}

#[test]
fn json_report_keeps_the_tree() {
    let r = generate_report(&sample(), &ReportFormat::Json, None);
    assert_eq!(r.output_path, "rusize_report.json");
    match r.body {
        ReportBody::Json(tree) => {
            assert_eq!(tree.len(), 2);
            assert_eq!(tree[0].name, "a");
            assert_eq!(tree[0].size_gb, "3.00 GB");
            assert_eq!(tree[0].children.len(), 2);
            assert_eq!(tree[0].children[1].children[0].name, "a21");
            assert_eq!(tree[1].children.len(), 0);
        },
        _ => panic!("expected a JSON report"),
    }
}

#[test]
fn empty_tree_gives_empty_reports() {
    match generate_report(&vec![], &ReportFormat::Text, None).body {
        ReportBody::Text(lines) => assert!(lines.is_empty()),
        _ => panic!(),
    }
}

#[test]
fn sort_orders_every_level_largest_first() {
    let mut nodes = vec![
        node("small", 1, vec![]),
        node("big", 10, vec![node("x", 1, vec![]), node("y", 5, vec![]), node("z", 5, vec![])]),
        node("mid", 5, vec![]),
        node("mid2", 5, vec![]),
    ];
    sort_recursive(&mut nodes);
    let names: Vec<&str> = nodes.iter().map(|n| n.name.as_str()).collect();
    assert_eq!(names, vec!["big", "mid", "mid2", "small"]);
    let kids: Vec<&str> = nodes[0].children.iter().map(|n| n.name.as_str()).collect();
    assert_eq!(kids, vec!["y", "z", "x"]);
}

#[test]
fn sorting_twice_changes_nothing() {
    let mut once = sample();
    sort_recursive(&mut once);
    let mut twice = sample();
    sort_recursive(&mut twice);
    sort_recursive(&mut twice);
    let a: Vec<(String, u64)> = once.iter().map(|n| (n.name.clone(), n.size)).collect();
    let b: Vec<(String, u64)> = twice.iter().map(|n| (n.name.clone(), n.size)).collect();
    assert_eq!(a, b);
    assert_eq!(once[0].children[0].name, "a2");
    assert_eq!(twice[0].children[0].name, "a2");
}

#[test]
fn scan_tree_counts_every_entry() {
    assert!(tracks_children(1, 2));
    assert!(!tracks_children(2, 2));
    let entries = vec![
        ScanEntry::File { len: 100 },
        ScanEntry::Subdir { node: node("s", 50, vec![]) },
        ScanEntry::File { len: 7 },
    ];
    let n = scan_tree("d".to_string(), "/d".to_string(), 1, 2, entries).unwrap();
    assert_eq!(n.size, 157);
    assert_eq!(n.children.len(), 1);
    assert_eq!(n.children[0].name, "s");
    let deep = vec![ScanEntry::DeepDir { size: 1000 }, ScanEntry::File { len: 1 }];
    let m = scan_tree("d".to_string(), "/d".to_string(), 2, 2, deep).unwrap();
    assert_eq!(m.size, 1001);
    assert!(m.children.is_empty());
}

#[test]
fn scan_tree_reports_overflow() {
    let entries = vec![ScanEntry::File { len: u64::MAX }, ScanEntry::File { len: 1 }];
    assert!(scan_tree("d".to_string(), "/d".to_string(), 1, 1, entries).is_none());
}

#[test]
fn assemble_target_sorts_filters_and_sums() {
    let nodes = vec![node("s", 1, vec![]), node("l", 100, vec![]), node("m", 50, vec![])];
    let root = rusize::assemble_target("/r".to_string(), "/r".to_string(), nodes, true, 10).unwrap();
    let names: Vec<&str> = root.children.iter().map(|n| n.name.as_str()).collect();
    assert_eq!(names, vec!["l", "m"]);
    assert_eq!(root.size, 150);
    let nodes = vec![node("s", 1, vec![]), node("l", 100, vec![])];
    let root = rusize::assemble_target("/r".to_string(), "/r".to_string(), nodes, false, 0).unwrap();
    let names: Vec<&str> = root.children.iter().map(|n| n.name.as_str()).collect();
    assert_eq!(names, vec!["s", "l"]);
    assert_eq!(root.size, 101);
    let nodes = vec![node("a", u64::MAX, vec![]), node("b", 1, vec![])];
    assert!(rusize::assemble_target("/r".to_string(), "/r".to_string(), nodes, false, 0).is_none());
}

#[test]
fn assemble_target_filters_at_every_depth() {
    let nodes = vec![node("big", 100, vec![node("tiny", 1, vec![]), node("half", 60, vec![node("dust", 2, vec![])])])];
    let root = rusize::assemble_target("/r".to_string(), "/r".to_string(), nodes, true, 50).unwrap();
    assert_eq!(root.size, 100);
    assert_eq!(root.children.len(), 1);
    let big = &root.children[0];
    assert_eq!(big.size, 100);
    assert_eq!(big.children.len(), 1);
    assert_eq!(big.children[0].name, "half");
    assert!(big.children[0].children.is_empty());
}
