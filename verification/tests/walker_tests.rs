use vokobe::fstree::{FsEntry, FsKind, FsNode};
use vokobe::text::sanitize;
use vokobe::walker::walk;

fn file(name: &str) -> FsNode {
    FsNode {
        name: name.to_string(),
        kind: FsKind::File,
        ignore_rules: None,
        children: Vec::new(),
    }
}

fn dir(name: &str, children: Vec<FsNode>) -> FsNode {
    FsNode {
        name: name.to_string(),
        kind: FsKind::Directory,
        ignore_rules: None,
        children,
    }
}

fn dir_ign(name: &str, rules: &str, children: Vec<FsNode>) -> FsNode {
    FsNode {
        name: name.to_string(),
        kind: FsKind::Directory,
        ignore_rules: Some(rules.to_string()),
        children,
    }
}

fn paths(entries: &[FsEntry]) -> Vec<String> {
    entries.iter().map(|e| e.path.join("/")).collect()
}

#[test]
fn sanitize_hello_world() {
    assert_eq!(sanitize("Hello World!".to_string()), "hello-world");
}

#[test]
fn sanitize_separators_removed() {
    assert_eq!(sanitize("A/B_C".to_string()), "abc");
}

#[test]
fn sanitize_empty() {
    assert_eq!(sanitize(String::new()), "");
}

#[test]
fn sanitize_keeps_digits_and_hyphens() {
    assert_eq!(sanitize("Step 2-b (draft)".to_string()), "step-2-b-draft");
}

#[test]
fn walk_clean_tree_preorder() {
    let tree = dir(
        "root",
        vec![
            dir("a", vec![file("x.txt"), dir("b", vec![file("y.txt")])]),
            file("top.txt"),
        ],
    );
    let entries = walk(&vec!["root".to_string()], &tree, false);
    assert_eq!(
        paths(&entries),
        vec![
            "root/a",
            "root/a/x.txt",
            "root/a/b",
            "root/a/b/y.txt",
            "root/top.txt",
        ]
    );
}

#[test]
fn walk_no_duplicates() {
    let tree = dir(
        "root",
        vec![dir("a", vec![file("n")]), dir("b", vec![file("n")])],
    );
    let entries = walk(&vec!["root".to_string()], &tree, false);
    let mut ps = paths(&entries);
    let before = ps.len();
    ps.sort();
    ps.dedup();
    assert_eq!(ps.len(), before);
}

#[test]
fn walk_dirs_only_still_descends() {
    let tree = dir(
        "root",
        vec![dir("a", vec![file("x"), dir("c", vec![])]), file("top")],
    );
    let entries = walk(&vec!["root".to_string()], &tree, true);
    assert_eq!(paths(&entries), vec!["root/a", "root/a/c"]);
}

#[test]
fn walk_non_directory_is_empty() {
    let tree = file("plain");
    let entries = walk(&vec!["plain".to_string()], &tree, false);
    assert!(entries.is_empty());
}

#[test]
fn walk_hidden_entry_aborts_siblings() {
    let tree = dir(
        "root",
        vec![dir("a", vec![]), file(".hidden"), dir("b", vec![])],
    );
    let entries = walk(&vec!["root".to_string()], &tree, false);
    assert_eq!(paths(&entries), vec!["root/a"]);
}

#[test]
fn walk_hidden_root_yields_nothing() {
    let tree = dir(".site", vec![dir("a", vec![])]);
    let entries = walk(&vec![".site".to_string()], &tree, false);
    assert!(entries.is_empty());
}

#[test]
fn ignored_child_and_descendants_absent() {
    let tree = dir_ign(
        "root",
        "skip\n",
        vec![
            dir("keep", vec![file("k.txt")]),
            dir("skip", vec![file("s.txt")]),
        ],
    );
    let entries = walk(&vec!["root".to_string()], &tree, false);
    assert_eq!(paths(&entries), vec!["root/keep", "root/keep/k.txt"]);
}

#[test]
fn ignore_blank_lines_match_nothing() {
    let tree = dir_ign("root", "\n\n", vec![dir("a", vec![]), file("b")]);
    let entries = walk(&vec!["root".to_string()], &tree, false);
    assert_eq!(paths(&entries), vec!["root/a", "root/b"]);
}

#[test]
fn ignore_multi_component_pattern() {
    let tree = dir_ign(
        "sub",
        "sub/gone\n",
        vec![dir("gone", vec![]), dir("stay", vec![])],
    );
    let entries = walk(&vec!["top".to_string(), "sub".to_string()], &tree, false);
    assert_eq!(paths(&entries), vec!["top/sub/stay"]);
}

#[test]
fn ignore_rules_are_local_to_their_directory() {
    // A rule at the root names a deep entry's suffix, but each directory
    // consults only its own ignore file: the deep entry stays.
    let tree = dir_ign(
        "root",
        "b\n",
        vec![dir("x", vec![file("b")]), file("b")],
    );
    let entries = walk(&vec!["root".to_string()], &tree, false);
    assert_eq!(paths(&entries), vec!["root/x", "root/x/b"]);
}

#[test]
fn nested_ignore_file_filters_its_own_level() {
    let tree = dir(
        "root",
        vec![dir_ign(
            "sub",
            "x\n",
            vec![dir("x", vec![]), dir("y", vec![])],
        )],
    );
    let entries = walk(&vec!["root".to_string()], &tree, false);
    assert_eq!(paths(&entries), vec!["root/sub", "root/sub/y"]);
}

#[test]
fn ignore_crlf_lines() {
    let tree = dir_ign("root", "skip\r\n", vec![dir("skip", vec![]), file("a")]);
    let entries = walk(&vec!["root".to_string()], &tree, false);
    assert_eq!(paths(&entries), vec!["root/a"]);
}
