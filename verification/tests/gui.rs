use rusize::services::gui::{line_is_readable, parse_text_report, report_is_readable, respond};

fn lines(v: &[&str]) -> Vec<String> {
    v.iter().map(|s| s.to_string()).collect()
}

#[test]
fn parse_reads_the_whole_tree() {
    let report = lines(&[
        " a (3.00 GB)",
        "\u{251C}\u{2500}\u{2500}  a1 (1.00 GB)",
        "\u{2514}\u{2500}\u{2500}  a2 (2.00 GB)",
        "    \u{2514}\u{2500}\u{2500}  a21 (1.00 MB)",
        "",
        " b (1.00 MB)",
    ]);
    assert!(report_is_readable(&report));
    let roots = parse_text_report(&report);
    assert_eq!(roots.len(), 2);
    assert_eq!(roots[0].name, "a");
    assert_eq!(roots[0].path, "a");
    assert_eq!(roots[0].size_str, "3.00 GB");
    assert_eq!(roots[0].children.len(), 2);
    assert_eq!(roots[0].children[0].name, "a1");
    assert_eq!(roots[0].children[0].size_str, "1.00 GB");
    assert_eq!(roots[0].children[1].name, "a2");
    let a21 = &roots[0].children[1].children;
    assert_eq!(a21.len(), 1);
    assert_eq!(a21[0].name, "a21");
    assert_eq!(a21[0].size_str, "1.00 MB");
    let p = &a21[0].path;
    assert!(p == "a/a2/a21" || p == "a\\a2\\a21", "path = {}", p);
    assert_eq!(roots[1].name, "b");
    assert!(roots[1].children.is_empty());
}

#[test]
fn parse_keeps_grandchildren() {
    let report = lines(&[
        " R (3.00 GB)",
        "\u{2514}\u{2500}\u{2500}  A (2.00 GB)",
        "    \u{2514}\u{2500}\u{2500}  X (1.00 GB)",
    ]);
    let g = parse_text_report(&report);
    assert_eq!(g.len(), 1);
    assert_eq!(g[0].children.len(), 1);
    assert_eq!(g[0].children[0].size_str, "2.00 GB");
    assert_eq!(g[0].children[0].children.len(), 1);
    assert_eq!(g[0].children[0].children[0].size_str, "1.00 GB");
}

#[test]
fn child_paths_join_under_a_root_ending_in_a_slash() {
    let g = parse_text_report(&lines(&[" / (3.00 GB)", "\u{2514}\u{2500}\u{2500}  usr (2.00 GB)"]));
    assert_eq!(g[0].path, "/");
    assert_eq!(g[0].children[0].path, "/usr");
}

#[test]
fn parse_joins_child_paths() {
    let roots = parse_text_report(&lines(&["root (1.00 MB)", "\u{251C}\u{2500}\u{2500} kid (1.00 MB)"]));
    assert_eq!(roots[0].name, "root");
    let child = &roots[0].children[0];
    assert_eq!(child.name, "kid");
    let p = &child.path;
    assert!(p == "root/kid" || p == "root\\kid", "path = {}", p);
}

#[test]
fn parse_keeps_lines_without_sizes() {
    let roots = parse_text_report(&lines(&["plain name"]));
    assert_eq!(roots[0].name, "plain name");
    assert_eq!(roots[0].size_str, "");
    let roots = parse_text_report(&lines(&[" x (1 GB) extra (2 GB)"]));
    assert_eq!(roots[0].name, "x (1 GB) extra");
    assert_eq!(roots[0].size_str, "2 GB");
}

#[test]
fn orphan_children_are_dropped() {
    let roots = parse_text_report(&lines(&["\u{251C}\u{2500}\u{2500}  kid (1.00 MB)", " r (1.00 MB)"]));
    assert_eq!(roots.len(), 1);
    assert!(roots[0].children.is_empty());
}

#[test]
fn unreadable_lines_are_detected() {
    assert!(line_is_readable(" a (1 GB)"));
    assert!(line_is_readable("   "));
    // The size's " (" comes before the name would start.
    assert!(!line_is_readable("\u{251C}\u{2500}\u{2500} (x)"));
    // Without a size, the name starts inside a box-drawing character.
    assert!(!line_is_readable("\u{251C}\u{2500}\u{2500} name"));
    let deep = format!("{}\u{2514}\u{2500}\u{2500} x (1 GB)", "    ".repeat(99));
    assert!(!line_is_readable(&deep));
    let ok = format!("{}\u{2514}\u{2500}\u{2500} x (1 GB)", "    ".repeat(98));
    assert!(line_is_readable(&ok));
    assert!(!report_is_readable(&lines(&[" a (1 GB)", "\u{251C}\u{2500}\u{2500} (x)"])));
}

#[test]
fn get_serves_the_page_with_the_tree() {
    let r = respond("GET / HTTP/1.1\r\n\r\n", "<p>\"INJECT_TREE_DATA_HERE\"</p>", "[1]");
    assert_eq!(
        r.response,
        "HTTP/1.1 200 OK\r\nContent-Length: 10\r\nContent-Type: text/html; charset=utf-8\r\nConnection: close\r\n\r\n<p>[1]</p>"
    );
    assert!(r.open_path.is_none());
    let r = respond("GET / x", "\u{00e9}", "");
    assert!(r.response.starts_with("HTTP/1.1 200 OK\r\nContent-Length: 2\r\n"));
}

#[test]
fn post_open_names_the_decoded_path() {
    let r = respond("POST /open HTTP/1.1\r\nHost: x\r\n\r\n  %2Ftmp%2Fa%20b \0\0\0", "", "");
    assert_eq!(r.response, "HTTP/1.1 200 OK\r\nContent-Length: 2\r\nConnection: close\r\n\r\nOK");
    assert_eq!(r.open_path, Some("/tmp/a b".to_string()));
    let r = respond("POST /open HTTP/1.1\r\n", "", "");
    assert!(r.open_path.is_none());
    let r = respond("POST /open x\r\n\r\n%FF", "", "");
    assert!(r.open_path.is_none());
}

#[test]
fn other_requests_are_not_found() {
    let r = respond("GET /favicon.ico HTTP/1.1", "page", "[]");
    assert_eq!(r.response, "HTTP/1.1 404 NOT FOUND\r\nContent-Length: 9\r\nConnection: close\r\n\r\nNot Found");
    assert!(r.open_path.is_none());
}
