use treewalker::node::{Node, NodeKind};
use treewalker::render::render;

fn file(name: &str) -> Node {
    Node { name: String::from(name), kind: NodeKind::File }
}

fn dir(name: &str, children: Vec<Node>) -> Node {
    Node { name: String::from(name), kind: NodeKind::Dir(children) }
}

fn unreadable(name: &str, cause: &str) -> Node {
    Node { name: String::from(name), kind: NodeKind::Unreadable(String::from(cause)) }
}

fn lines_of(root: Node, ignore_hidden: bool) -> Vec<String> {
    let mut out: Vec<String> = Vec::new();
    let r = render(root, "", ignore_hidden, &mut out);
    assert!(r.is_ok());
    out
}

#[test]
fn directory_before_file_with_connectors() {
    let root = dir("root", vec![dir("b", vec![]), file("a.txt")]);
    let out = lines_of(root, false);
    assert_eq!(out, vec![String::from("├── b/"), String::from("└── a.txt")]);
}

#[test]
fn hidden_entries_skipped_when_asked() {
    let root = dir("root", vec![file(".hidden"), file("visible")]);
    let out = lines_of(root, true);
    assert_eq!(out, vec![String::from("└── visible")]);
}

#[test]
fn hidden_entries_kept_by_default() {
    let root = dir("root", vec![file(".hidden"), file("visible")]);
    let out = lines_of(root, false);
    assert_eq!(out, vec![String::from("├── .hidden"), String::from("└── visible")]);
}

#[test]
fn empty_directory_renders_nothing() {
    let root = dir("root", vec![]);
    let out = lines_of(root, false);
    assert!(out.is_empty());
}

#[test]
fn directories_sort_before_files_and_names_ascend() {
    let root = dir(
        "root",
        vec![file("zeta"), dir("omega", vec![]), file("alpha"), dir("delta", vec![])],
    );
    let out = lines_of(root, false);
    assert_eq!(
        out,
        vec![
            String::from("├── delta/"),
            String::from("├── omega/"),
            String::from("├── alpha"),
            String::from("└── zeta"),
        ]
    );
}

#[test]
fn names_sort_by_codepoint_not_case_folded() {
    let root = dir("root", vec![file("a"), file("B")]);
    let out = lines_of(root, false);
    assert_eq!(out, vec![String::from("├── B"), String::from("└── a")]);
}

#[test]
fn shorter_prefix_name_sorts_first() {
    let root = dir("root", vec![file("ab"), file("a")]);
    let out = lines_of(root, false);
    assert_eq!(out, vec![String::from("├── a"), String::from("└── ab")]);
}

#[test]
fn nested_listing_extends_prefix() {
    let root = dir(
        "root",
        vec![dir("sub", vec![file("one"), file("two")]), file("z")],
    );
    let out = lines_of(root, false);
    assert_eq!(
        out,
        vec![
            String::from("├── sub/"),
            String::from("│   ├── one"),
            String::from("│   └── two"),
            String::from("└── z"),
        ]
    );
}

#[test]
fn last_directory_gets_blank_continuation() {
    let root = dir(
        "root",
        vec![dir("sub", vec![dir("inner", vec![file("leaf")])])],
    );
    let out = lines_of(root, false);
    assert_eq!(
        out,
        vec![
            String::from("└── sub/"),
            String::from("    └── inner/"),
            String::from("        └── leaf"),
        ]
    );
}

#[test]
fn hidden_entries_skipped_at_every_depth() {
    let root = dir(
        "root",
        vec![
            dir("sub", vec![file(".deep_hidden"), file("kept")]),
            file(".top_hidden"),
        ],
    );
    let out = lines_of(root, true);
    // The filtered top-level entry does not count as a sibling, so "sub"
    // is last and its children sit under a blank continuation.
    assert_eq!(out, vec![String::from("└── sub/"), String::from("    └── kept")]);
}

#[test]
fn hidden_directory_not_descended_into() {
    let root = dir(
        "root",
        vec![dir(".secrets", vec![file("inside")]), file("seen")],
    );
    let out = lines_of(root, true);
    assert_eq!(out, vec![String::from("└── seen")]);
}

#[test]
fn file_root_is_invalid_path_and_prints_nothing() {
    let mut out: Vec<String> = Vec::new();
    let r = render(file("plain.txt"), "", false, &mut out);
    assert!(matches!(r, Err(treewalker::errors::TreeError::InvalidPath)));
    assert!(out.is_empty());
}

#[test]
fn unreadable_root_fails_and_prints_nothing() {
    let mut out: Vec<String> = Vec::new();
    let r = render(unreadable("root", "permission denied"), "", false, &mut out);
    match r {
        Err(treewalker::errors::TreeError::Walkdir(m)) => {
            assert_eq!(m, String::from("permission denied"));
        }
        _ => panic!("expected a walk failure"),
    }
    assert!(out.is_empty());
}

#[test]
fn unreadable_child_keeps_earlier_lines_and_stops() {
    let root = dir(
        "root",
        vec![
            dir("early", vec![file("inside")]),
            unreadable("locked", "permission denied"),
            file("never_reached_sibling_after_error"),
        ],
    );
    let mut out: Vec<String> = Vec::new();
    let r = render(root, "", false, &mut out);
    match r {
        Err(treewalker::errors::TreeError::Walkdir(m)) => {
            assert_eq!(m, String::from("permission denied"));
        }
        _ => panic!("expected a walk failure"),
    }
    // The two directories sort first; "early" and its contents render, the
    // unreadable directory's own line renders, then the render stops: no
    // line for the later file sibling.
    assert_eq!(
        out,
        vec![
            String::from("├── early/"),
            String::from("│   └── inside"),
            String::from("├── locked/"),
        ]
    );
}

#[test]
fn filtered_hidden_entry_does_not_shift_last_marker() {
    // With the filter on, the hidden entry must not count as the last
    // sibling: "visible" is last and gets the closing elbow.
    let root = dir("root", vec![file("visible"), file(".zzz")]);
    let out = lines_of(root, true);
    assert_eq!(out, vec![String::from("└── visible")]);
}
