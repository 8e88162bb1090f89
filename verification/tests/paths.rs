//! Paths, held against those of the standard library.
use sprout::path::{file_name, join, parent, parts, same_path, strip_dir, Part};
use std::path::{Component, Path};

/// All texts over a small alphabet, up to a length.
fn samples(len: usize) -> Vec<String> {
    let mut all = vec![String::new()];
    let mut last = vec![String::new()];
    for _ in 0..len {
        let mut next = vec![];
        for s in &last {
            for c in ["/", ".", "a"] {
                next.push(format!("{s}{c}"));
            }
        }
        all.extend(next.iter().cloned());
        last = next;
    }
    all
}

fn shown(part: &Part) -> String {
    match part {
        Part::Root => "/".to_string(),
        Part::Current => ".".to_string(),
        Part::Up => "..".to_string(),
        Part::Normal(n) => format!("<{}>", String::from_utf8(n.clone()).unwrap()),
    }
}

fn expected(component: Component) -> String {
    match component {
        Component::RootDir => "/".to_string(),
        Component::CurDir => ".".to_string(),
        Component::ParentDir => "..".to_string(),
        Component::Normal(n) => format!("<{}>", n.to_str().unwrap()),
        Component::Prefix(_) => unreachable!(),
    }
}

#[test]
fn components_agree() {
    for s in samples(7) {
        let ours: Vec<String> = parts(s.as_bytes()).iter().map(shown).collect();
        let theirs: Vec<String> = Path::new(&s).components().map(expected).collect();
        assert_eq!(ours, theirs, "{s:?}");
    }
}

#[test]
fn parents_agree() {
    for s in samples(7) {
        let ours = parent(s.as_bytes());
        let theirs = Path::new(&s).parent().map(|p| p.to_str().unwrap().as_bytes().to_vec());
        assert_eq!(ours, theirs, "{s:?}");
    }
}

#[test]
fn file_names_agree() {
    for s in samples(7) {
        let ours = file_name(s.as_bytes());
        let theirs = Path::new(&s).file_name().map(|n| n.to_str().unwrap().as_bytes().to_vec());
        assert_eq!(ours, theirs, "{s:?}");
    }
}

#[test]
fn joins_agree() {
    for a in samples(3) {
        for c in samples(3) {
            let ours = join(a.as_bytes(), c.as_bytes());
            let theirs = Path::new(&a).join(&c).to_str().unwrap().as_bytes().to_vec();
            assert_eq!(ours, theirs, "{a:?} {c:?}");
        }
    }
}

#[test]
fn equality_agrees() {
    for a in samples(4) {
        for c in samples(4) {
            assert_eq!(same_path(a.as_bytes(), c.as_bytes()), Path::new(&a) == Path::new(&c), "{a:?} {c:?}");
        }
    }
}

#[test]
fn stripping_a_directory() {
    assert_eq!(strip_dir(b"/r/.sprout", b"/r/.sprout/feat/x"), Some(b"feat/x".to_vec()));
    assert_eq!(strip_dir(b"/r/.sprout/", b"/r//.sprout/./feat/"), Some(b"feat".to_vec()));
    assert_eq!(strip_dir(b"/r/.sprout", b"/r/.sprout"), None);
    assert_eq!(strip_dir(b"/r/.sprout", b"/r"), None);
    assert_eq!(strip_dir(b"/r/.sprout", b"/r/.sproutling/x"), None);
    assert_eq!(strip_dir(b"/r/.sprout", b"/r/.sprout/../x"), None);
    assert_eq!(strip_dir(b"/r/.sprout", b"r/.sprout/x"), None);
}
