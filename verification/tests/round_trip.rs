use rusize::models::dir_node::DirNode;
use rusize::services::gui::{parse_text_report, report_is_readable};
use rusize::services::report::{generate_report, ReportBody, ReportFormat};

fn node(name: &str, size: u64, children: Vec<DirNode>) -> DirNode {
    DirNode { name: name.to_string(), path: format!("/r/{}", name), size, children }
}

fn text_lines(nodes: &Vec<DirNode>) -> Vec<String> {
    match generate_report(nodes, &ReportFormat::Text, Some("report.txt")).body {
        ReportBody::Text(lines) => lines,
        _ => panic!("a text report was asked for"),
    }
}

#[test]
fn written_text_report_reads_back() {
    let nodes = vec![
        node("data (old)", 3 << 30, vec![
            node("x", 1 << 30, vec![node("deep", 5 << 20, vec![node("deeper", 1 << 20, vec![])])]),
            node("y (2)", 2 << 30, vec![]),
        ]),
        node("  b", 1 << 20, vec![]),
        node("é", 0, vec![node("ü", 0, vec![])]),
    ];
    let lines = text_lines(&nodes);
    assert!(report_is_readable(&lines));
    let roots = parse_text_report(&lines);
    assert_eq!(roots.len(), 3);

    assert_eq!(roots[0].name, "data (old)");
    assert_eq!(roots[0].path, "data (old)");
    assert_eq!(roots[0].size_str, "3.00 GB");
    assert_eq!(roots[0].children.len(), 2);
    assert_eq!(roots[0].children[0].name, "x");
    assert_eq!(roots[0].children[0].size_str, "1.00 GB");
    let deep = &roots[0].children[0].children;
    assert_eq!(deep.len(), 1);
    assert_eq!(deep[0].name, "deep");
    assert_eq!(deep[0].size_str, "5.00 MB");
    assert_eq!(deep[0].children.len(), 1);
    assert_eq!(deep[0].children[0].name, "deeper");
    assert_eq!(roots[0].children[1].name, "y (2)");
    assert_eq!(roots[0].children[1].size_str, "2.00 GB");

    assert_eq!(roots[1].name, "  b");
    assert_eq!(roots[1].size_str, "1.00 MB");
    assert!(roots[1].children.is_empty());

    assert_eq!(roots[2].name, "é");
    assert_eq!(roots[2].size_str, "0.00 MB");
    assert_eq!(roots[2].children.len(), 1);
    assert_eq!(roots[2].children[0].name, "ü");
}

#[test]
fn top_name_with_three_blanks_does_not_read_back() {
    let nodes = vec![node("top", 1 << 20, vec![]), node("   c", 1 << 20, vec![])];
    let lines = text_lines(&nodes);
    let roots = parse_text_report(&lines);
    // The second line is taken for a line one level down: the folder comes
    // back as a subfolder of the first, without its blanks.
    assert!(report_is_readable(&lines));
    assert_eq!(roots.len(), 1);
    assert_eq!(roots[0].name, "top");
    assert_eq!(roots[0].children.len(), 1);
    assert_eq!(roots[0].children[0].name, "c");
}
