//! Scrubbing, with the real matcher.
use sprout::scrub::{asked, load, pattern_builder, scrub_entry, Child, LoadError, Node, Problem};

fn leaf(name: &str) -> Child {
    Child { name: name.as_bytes().to_vec(), node: Node::Leaf }
}

fn dir(name: &str, children: Vec<Child>) -> Child {
    Child { name: name.as_bytes().to_vec(), node: Node::Dir(children) }
}

/// A `node_modules` with a cache in it and in a package of it.
fn node_modules() -> Node {
    Node::Dir(vec![
        dir(".pnpm", vec![leaf("index.js")]),
        dir(".bin", vec![leaf("foo")]),
        dir(".cache", vec![dir("babel", vec![leaf("x.json")])]),
        dir("pkg", vec![dir("node_modules", vec![dir(".cache", vec![leaf("y")]), leaf("z")])]),
        leaf("escape"),
    ])
}

fn scrubbed(patterns: &str, rel: &str, node: &Node) -> Vec<(String, bool)> {
    let matcher = match load("/r/.sprout/feat", Some(patterns.as_bytes())) {
        Ok(Some(m)) => m,
        _ => panic!("{patterns}"),
    };
    scrub_entry(&matcher, rel.as_bytes(), node)
        .iter()
        .map(|x| (String::from_utf8(x.path.clone()).unwrap(), x.is_dir))
        .collect()
}

#[test]
fn no_file_no_matcher() {
    assert!(matches!(load("/d", None), Ok(None)));
}

#[test]
fn only_matching_paths_go() {
    assert_eq!(
        scrubbed("node_modules/.cache\n", "node_modules", &node_modules()),
        vec![("node_modules/.cache".to_string(), true)]
    );
    assert_eq!(
        scrubbed("**/node_modules/.cache\n", "node_modules", &node_modules()),
        vec![
            ("node_modules/.cache".to_string(), true),
            ("node_modules/pkg/node_modules/.cache".to_string(), true)
        ]
    );
    assert_eq!(scrubbed("node_modules\n", "node_modules", &node_modules()), vec![("node_modules".to_string(), true)]);
    assert_eq!(scrubbed("*.log\n", "node_modules", &node_modules()), vec![]);
}

#[test]
fn a_link_is_a_leaf() {
    // A pattern for directories does not match it; one for any path does.
    assert_eq!(scrubbed("node_modules/escape/\n", "node_modules", &node_modules()), vec![]);
    assert_eq!(
        scrubbed("node_modules/escape\n", "node_modules", &node_modules()),
        vec![("node_modules/escape".to_string(), false)]
    );
}

#[test]
fn entries_that_are_files_or_gone() {
    assert_eq!(scrubbed(".env\n", ".env", &Node::Leaf), vec![(".env".to_string(), false)]);
    assert_eq!(scrubbed(".env\n", ".env", &Node::Missing), vec![]);
    assert_eq!(scrubbed(".env\n!.env\n", ".env", &Node::Leaf), vec![]);
}

#[test]
fn comments_and_blank_lines_ask_for_nothing() {
    assert_eq!(scrubbed("# a\n\n   \n#node_modules\n", "node_modules", &node_modules()), vec![]);
    assert_eq!(scrubbed("", "node_modules", &node_modules()), vec![]);
    // White space at the end of a pattern does not count.
    assert_eq!(scrubbed(".env  \n", ".env", &Node::Leaf), vec![(".env".to_string(), false)]);
}

#[test]
fn line_ends_and_marks() {
    assert_eq!(scrubbed("\u{feff}.env\r\n", ".env", &Node::Leaf), vec![(".env".to_string(), false)]);
    assert_eq!(scrubbed("x\n.env", ".env", &Node::Leaf), vec![(".env".to_string(), false)]);
}

#[test]
fn bad_patterns_are_errors() {
    match load("/d", Some(b"ok\n[z-a\nfine\n{a\n")) {
        Err(LoadError::Lines(bad)) => {
            assert_eq!(bad.iter().map(|l| l.number).collect::<Vec<_>>(), vec![2, 4]);
            for line in &bad {
                assert!(matches!(&line.problem, Problem::Pattern(m) if !m.is_empty()));
            }
            assert_eq!(LoadError::Lines(bad).describe(), "failed to parse .sproutignore");
        }
        _ => panic!(),
    }
    assert_eq!(LoadError::Build("too large".to_string()).describe(), "too large");
}

#[test]
fn bytes_that_are_not_text_are_errors() {
    match load("/d", Some(b"ok\n\xff\n[z-a\n")) {
        Err(LoadError::Lines(bad)) => {
            // The reading ends there.
            assert_eq!(bad.len(), 1);
            assert_eq!(bad[0].number, 2);
            assert!(matches!(bad[0].problem, Problem::NotText));
        }
        _ => panic!(),
    }
}

#[test]
fn building_patterns() {
    assert!(pattern_builder("/d", b"ok\n# fine\n").is_ok());
    match pattern_builder("/d", b"ok\n{a\n") {
        Err(bad) => {
            assert_eq!(bad.len(), 1);
            assert_eq!(bad[0].number, 2);
        }
        Ok(_) => panic!(),
    }
}

#[test]
fn a_second_scrub_finds_nothing() {
    let patterns = "node_modules/.cache\nz\n";
    let gone = scrubbed(patterns, "node_modules", &node_modules());
    assert_eq!(
        gone,
        vec![
            ("node_modules/.cache".to_string(), true),
            ("node_modules/pkg/node_modules/z".to_string(), false)
        ]
    );
    let rest = Node::Dir(vec![
        dir(".pnpm", vec![leaf("index.js")]),
        dir(".bin", vec![leaf("foo")]),
        dir("pkg", vec![dir("node_modules", vec![dir(".cache", vec![leaf("y")])])]),
        leaf("escape"),
    ]);
    assert_eq!(scrubbed(patterns, "node_modules", &rest), vec![]);
}

#[test]
fn only_the_topmost_of_nested_matches_is_counted() {
    assert_eq!(
        scrubbed("pkg\n.cache\n*.json\n", "node_modules", &node_modules()),
        vec![("node_modules/.cache".to_string(), true), ("node_modules/pkg".to_string(), true)]
    );
}

#[test]
fn asking_about_one_path() {
    let matcher = match load("./d", Some(b"cache/\n")) {
        Ok(Some(m)) => m,
        _ => panic!(),
    };
    assert!(asked(&matcher, b"a/cache", true));
    assert!(!asked(&matcher, b"a/cache", false));
    assert!(!asked(&matcher, b"a/cached", true));
}

#[test]
fn patterns_are_taken_from_the_root() {
    let rooted = |root: &str| match load(root, Some(b"/top\n")) {
        Ok(Some(m)) => m,
        _ => panic!(),
    };
    assert!(asked(&rooted("./d"), b"d/top", false));
    assert!(asked(&rooted("/r/.sprout/feat"), b"/r/.sprout/feat/top", false));
    assert!(asked(&rooted("/r/.sprout/feat"), b"top", false));
    assert!(!asked(&rooted("/elsewhere"), b"d/top", false));
}

#[test]
fn names_that_are_not_text() {
    let matcher = match load("/d", Some("a\u{fffd}\n".as_bytes())) {
        Ok(Some(m)) => m,
        _ => panic!(),
    };
    assert!(asked(&matcher, b"a\xff", false));
    assert!(!asked(&matcher, b"a", false));
}
