use treewalker::node::{Node, NodeKind};
use treewalker::render::{layout_listing, render_line, child_prefix};
use treewalker::listing::prepare_listing;
use treewalker::errors::{TreeError, error_message};

fn file(name: &str) -> Node {
    Node { name: String::from(name), kind: NodeKind::File }
}

fn dir(name: &str) -> Node {
    Node { name: String::from(name), kind: NodeKind::Dir(Vec::new()) }
}

#[test]
fn prepare_listing_filters_and_sorts() {
    let raw = vec![file("b"), dir("z"), file(".h"), dir("a"), file("a")];
    let prepared = prepare_listing(raw, true);
    let names: Vec<String> = prepared.iter().map(|n| n.name.clone()).collect();
    assert_eq!(
        names,
        vec![String::from("a"), String::from("z"), String::from("a"), String::from("b")]
    );
    assert!(matches!(prepared[0].kind, NodeKind::Dir(_)));
    assert!(matches!(prepared[1].kind, NodeKind::Dir(_)));
    assert!(matches!(prepared[2].kind, NodeKind::File));
    assert!(matches!(prepared[3].kind, NodeKind::File));
}

#[test]
fn prepare_listing_keeps_hidden_without_flag() {
    let raw = vec![file(".h"), file("a")];
    let prepared = prepare_listing(raw, false);
    let names: Vec<String> = prepared.iter().map(|n| n.name.clone()).collect();
    assert_eq!(names, vec![String::from(".h"), String::from("a")]);
}

#[test]
fn layout_gives_lines_and_child_prefixes() {
    let raw = vec![file("note"), dir("docs")];
    let items = layout_listing(raw, "│   ", false);
    assert_eq!(items.len(), 2);
    assert_eq!(items[0].name, String::from("docs"));
    assert!(items[0].is_dir);
    assert_eq!(items[0].line, String::from("│   ├── docs/"));
    assert_eq!(items[0].child_prefix, String::from("│   │   "));
    assert_eq!(items[1].name, String::from("note"));
    assert!(!items[1].is_dir);
    assert_eq!(items[1].line, String::from("│   └── note"));
    assert_eq!(items[1].child_prefix, String::from("│       "));
}

#[test]
fn render_line_marks_last_and_directories() {
    assert_eq!(render_line("", "x", false, true), String::from("└── x"));
    assert_eq!(render_line("", "x", false, false), String::from("├── x"));
    assert_eq!(render_line("", "d", true, false), String::from("├── d/"));
    assert_eq!(render_line("│   ", "d", true, true), String::from("│   └── d/"));
}

#[test]
fn child_prefix_blank_after_last_bar_otherwise() {
    assert_eq!(child_prefix("", true), String::from("    "));
    assert_eq!(child_prefix("", false), String::from("│   "));
    assert_eq!(child_prefix("│   ", true), String::from("│       "));
    assert_eq!(child_prefix("    ", false), String::from("    │   "));
}

#[test]
fn error_messages_match_reporting_format() {
    assert_eq!(
        error_message(&TreeError::Io(String::from("gone")), "somewhere"),
        String::from("Error reading the directory: gone")
    );
    assert_eq!(
        error_message(&TreeError::Walkdir(String::from("loop detected")), "somewhere"),
        String::from("Error walking the directory: loop detected")
    );
    assert_eq!(
        error_message(&TreeError::InvalidPath, "no/such/dir"),
        String::from("Invalid directory path: no/such/dir")
    );
}
