use vokobe::fstree::{BuildError, FsKind, FsNode};
use vokobe::nav::{build_breadcrumbs, nav_html};
use vokobe::page::page_html;
use vokobe::render::render;
use vokobe::same_level::{build_sibling_listing, listing_to_html};

fn file(name: &str) -> FsNode {
    FsNode {
        name: name.to_string(),
        kind: FsKind::File,
        ignore_rules: None,
        children: Vec::new(),
    }
}

fn dir(name: &str, children: Vec<FsNode>) -> FsNode {
    FsNode {
        name: name.to_string(),
        kind: FsKind::Directory,
        ignore_rules: None,
        children,
    }
}

fn hblock(tag: &str, close: &str, id: &str, num: &str, text: &str) -> String {
    format!(
        "</pre>\n            <span id=\"{}\"></span>\n            <{}><a href=\"#{}\">{}. {}</a></{}>\n            <pre>",
        id, tag, id, num, text, close
    )
}

fn empty_root() -> FsNode {
    dir("content", vec![])
}

#[test]
fn heading_numbering_sequence() {
    let out = render(&empty_root(), &vec![], "# A\n## B\n## C\n# D");
    let expected = format!(
        "<pre>{}{}{}{}",
        hblock("h1", "h1", "a", "1", "A"),
        hblock("h2", "h2", "b", "1.1", "B"),
        hblock("h2", "h2", "c", "1.2", "C"),
        hblock("h1", "h1", "d", "2", "D"),
    );
    assert_eq!(out, expected);
}

#[test]
fn deep_headings_share_closing_tag() {
    let out = render(&empty_root(), &vec![], "### X");
    let expected = format!("<pre>{}", hblock("h3", "h3", "x", "0.0.1", "X"));
    assert_eq!(out, expected);
}

#[test]
fn toc_reproduces_main_numbering() {
    let out = render(&empty_root(), &vec![], "# A\n## B\n:::toc\n# C");
    let toc = "<a href=\"#a\">1. A</a>\n    <a href=\"#b\">1.1. B</a>\n<a href=\"#c\">2. C</a>\n";
    let expected = format!(
        "<pre>{}{}{}{}",
        hblock("h1", "h1", "a", "1", "A"),
        hblock("h2", "h2", "b", "1.1", "B"),
        toc,
        hblock("h1", "h1", "c", "2", "C"),
    );
    assert_eq!(out, expected);
}

#[test]
fn toc_trims_heading_text() {
    let out = render(&empty_root(), &vec![], "# A  \n:::toc");
    let expected = format!(
        "<pre>{}{}",
        hblock("h1", "h1", "a--", "1", "A  "),
        "<a href=\"#a\">1. A</a>\n",
    );
    assert_eq!(out, expected);
}

#[test]
fn numbering_reaches_two_digits() {
    let content = (0..12).map(|_| "# x").collect::<Vec<_>>().join("\n");
    let out = render(&empty_root(), &vec![], &content);
    assert!(out.contains("\">12. x</a>"));
    assert!(!out.contains("\">13. x</a>"));
}

#[test]
fn heading_marker_alone_gives_empty_heading() {
    let out = render(&empty_root(), &vec![], "#");
    let expected = format!("<pre>{}", hblock("h1", "h1", "", "1", ""));
    assert_eq!(out, expected);
}

#[test]
fn first_rule_swallowed_later_rules_render() {
    let out = render(&empty_root(), &vec![], "---\nfoo\n---");
    assert_eq!(out, "<pre>foo\n\n            <hr>");
}

#[test]
fn quote_line_escapes_lt() {
    let out = render(&empty_root(), &vec![], "> x<y");
    assert_eq!(out, "<pre></pre><pre class=\"code\">x&lty</pre><pre>\n");
}

#[test]
fn plain_lines_pass_through_verbatim() {
    let out = render(&empty_root(), &vec![], "hello <b>\nworld");
    assert_eq!(out, "<pre>hello <b>\nworld\n");
}

#[test]
fn tree_directive_lists_nested_assets() {
    let root = dir(
        "content",
        vec![dir(
            "blog",
            vec![dir(
                "post1",
                vec![
                    dir("img", vec![file("photo.png")]),
                    file("other.txt"),
                ],
            )],
        )],
    );
    let position = vec!["blog".to_string(), "post1".to_string()];
    let out = render(&root, &position, ":::tree");
    let expected = "<pre><a href=\"/blog/post1/img\">img</a>\n    <a href=\"/blog/post1/img/photo.png\">photo.png</a>\n<a href=\"/blog/post1/other.txt\">other.txt</a>\n";
    assert_eq!(out, expected);
}

#[test]
fn nav_breadcrumbs_with_dropdown() {
    let root = dir(
        "content",
        vec![
            dir("a", vec![dir("sub1", vec![]), dir("sub2", vec![])]),
            dir("b", vec![]),
            dir(".h", vec![]),
            file("style.css"),
        ],
    );
    let out = nav_html(&root, &vec!["a".to_string()], 42).unwrap();
    let expected = "\n  <nav>\n    <ul>\n        <li>\n            <a href=\"/a\">a</a>\n            <ul>\n                <li><a href=\"/b\">b/</a></li>\n            </ul>\n        </li>\n    </ul>\n    <ul style=\"float: right\">\n        <li>42</li>\n        <li>\n            <a href=\"README.md\">.md</a>\n        </li>\n    </ul>\n  </nav>";
    assert_eq!(out, expected);
}

#[test]
fn breadcrumb_structure() {
    let root = dir(
        "content",
        vec![
            dir("a", vec![dir("b", vec![]), dir("c", vec![])]),
            dir("d", vec![]),
        ],
    );
    let crumbs = build_breadcrumbs(&root, &vec!["a".to_string(), "b".to_string()]).unwrap();
    assert_eq!(crumbs.len(), 2);
    assert_eq!(crumbs[0].label, "a");
    assert_eq!(crumbs[0].link, "/a");
    let names0: Vec<&str> = crumbs[0].dropdown.iter().map(|e| e.name.as_str()).collect();
    assert_eq!(names0, vec!["d"]);
    assert_eq!(crumbs[0].dropdown[0].link, "/d");
    assert_eq!(crumbs[1].label, "b");
    assert_eq!(crumbs[1].link, "/a/b");
    let names1: Vec<&str> = crumbs[1].dropdown.iter().map(|e| e.name.as_str()).collect();
    assert_eq!(names1, vec!["c"]);
    assert_eq!(crumbs[1].dropdown[0].link, "/a/c");
}

#[test]
fn nav_missing_position_fails() {
    let root = dir("content", vec![dir("a", vec![])]);
    let err = nav_html(&root, &vec!["missing".to_string()], 0).unwrap_err();
    assert_eq!(err, BuildError::PathStructure);
}

#[test]
fn nav_position_through_file_fails() {
    let root = dir("content", vec![file("a")]);
    let err = nav_html(&root, &vec!["a".to_string()], 0).unwrap_err();
    assert_eq!(err, BuildError::PathStructure);
}

#[test]
fn vertical_sentinel_switches_orientation() {
    let root = dir(
        "content",
        vec![dir("page", vec![dir("z", vec![]), file("vertical")])],
    );
    let l = build_sibling_listing(&root, &vec!["page".to_string()]).unwrap();
    assert!(l.vertical);
    let html = listing_to_html(&l, &vec!["page".to_string()]);
    assert!(html.starts_with("\n  <ul class=\"vert\">"));
}

#[test]
fn default_orientation_without_sentinel() {
    let root = dir("content", vec![dir("page", vec![dir("z", vec![])])]);
    let l = build_sibling_listing(&root, &vec!["page".to_string()]).unwrap();
    assert!(!l.vertical);
    let html = listing_to_html(&l, &vec!["page".to_string()]);
    assert!(html.starts_with("\n  <ul>"));
}

#[test]
fn files_listed_only_with_show_files() {
    let pos = vec!["page".to_string()];
    let without = dir(
        "content",
        vec![dir("page", vec![file("README.md"), file("notes.txt")])],
    );
    let l = build_sibling_listing(&without, &pos).unwrap();
    assert!(!l.show_files);
    assert!(!listing_to_html(&l, &pos).contains("notes.txt"));

    let with = dir(
        "content",
        vec![dir(
            "page",
            vec![
                file("README.md"),
                file("notes.txt"),
                file("show_files"),
                file("vertical"),
                file(".secret"),
            ],
        )],
    );
    let l2 = build_sibling_listing(&with, &pos).unwrap();
    assert!(l2.show_files);
    let html = listing_to_html(&l2, &pos);
    assert!(html.contains("\n        <li><a href=\"/page/notes.txt\">notes.txt</a></li>"));
    assert!(!html.contains("README.md"));
    assert!(!html.contains("show_files"));
    assert!(!html.contains("vertical"));
    assert!(!html.contains(".secret"));
}

#[test]
fn sibling_listing_full_html() {
    let root = dir(
        "content",
        vec![dir(
            "page",
            vec![
                dir("z", vec![]),
                file("README.md"),
                file("vertical"),
                file("show_files"),
                file("notes.txt"),
            ],
        )],
    );
    let pos = vec!["page".to_string()];
    let l = build_sibling_listing(&root, &pos).unwrap();
    let html = listing_to_html(&l, &pos);
    let expected = "\n  <ul class=\"vert\">\n    <li><a href=\"/page/z\">z/</a></li>\n  </ul><br>\n    <ul>\n        <li><a href=\"/page/notes.txt\">notes.txt</a></li>\n    </ul>";
    assert_eq!(html, expected);
}

#[test]
fn conversion_is_deterministic() {
    let make = || {
        dir(
            "content",
            vec![dir(
                "page",
                vec![dir("z", vec![]), file("README.md")],
            )],
        )
    };
    let pos = vec!["page".to_string()];
    let a = page_html(&make(), &pos, "# T\n:::toc", 7).unwrap();
    let b = page_html(&make(), &pos, "# T\n:::toc", 7).unwrap();
    assert_eq!(a, b);
}

#[test]
fn page_html_concatenates_fragments() {
    let root = dir("content", vec![dir("page", vec![])]);
    let pos = vec!["page".to_string()];
    let whole = page_html(&root, &pos, "x", 3).unwrap();
    let nav = nav_html(&root, &pos, 3).unwrap();
    let l = build_sibling_listing(&root, &pos).unwrap();
    let sl = listing_to_html(&l, &pos);
    let body = render(&root, &pos, "x");
    assert_eq!(whole, format!("{}{}{}", nav, sl, body));
}
