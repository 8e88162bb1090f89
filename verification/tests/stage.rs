//! Staging entries: their names, their owners, and who may delete them.
use sprout::path::file_name;
use sprout::stage::{
    discard, in_staging_root, is_stale, owner_pid, pid_alive, repo_device_dir, run_sweeper, same_device, slot, slot_in,
    staging_root, sweep, sweep_roots, tidy, tidy_local_root, Entry, MAX_AGE,
};

fn b(s: &str) -> Vec<u8> {
    s.as_bytes().to_vec()
}

#[test]
fn owner_pid_reads_leading_component_only() {
    assert_eq!(owner_pid(b"/x/sprout-staging/123.feat"), Some(123));
    // dots in the branch name don't confuse the parse
    assert_eq!(owner_pid(b"/x/.staging/42.v1.2.3"), Some(42));
    // collision suffix keeps the pid first
    assert_eq!(owner_pid(b"/x/sprout-staging/42.feat.1"), Some(42));
    assert_eq!(owner_pid(b"/x/sprout-staging/not-ours"), None);
}

#[test]
fn owner_pid_edges() {
    assert_eq!(owner_pid(b"/x/sprout-staging/2147483647.feat"), Some(2147483647));
    assert_eq!(owner_pid(b"/x/sprout-staging/2147483648.feat"), None);
    assert_eq!(owner_pid(b"/x/sprout-staging/-2147483648.feat"), Some(-2147483648));
    assert_eq!(owner_pid(b"/x/sprout-staging/+7.feat"), Some(7));
    assert_eq!(owner_pid(b"/x/sprout-staging/7"), Some(7));
    assert_eq!(owner_pid(b"/x/sprout-staging/.feat"), None);
    assert_eq!(owner_pid(b"/x/sprout-staging/-.feat"), None);
    assert_eq!(owner_pid(b"/x/sprout-staging/7\xff.feat"), None);
    assert_eq!(owner_pid(b"/"), None);
    assert_eq!(owner_pid(b"/x/.."), None);
}

#[test]
fn sweeper_only_touches_staging_roots() {
    assert!(in_staging_root(b"/tmp/sprout-staging/1.x"));
    assert!(in_staging_root(b"/repo/.sprout/.staging/1.x"));
    assert!(!in_staging_root(b"/home/user/project"));
    assert!(!in_staging_root(b"/"));
}

#[test]
fn sweeper_refuses_what_is_not_directly_inside() {
    assert!(!in_staging_root(b"/tmp/sprout-staging"));
    assert!(!in_staging_root(b"/tmp/sprout-staging/"));
    assert!(!in_staging_root(b"/tmp/sprout-staging/.."));
    assert!(!in_staging_root(b"/tmp/sprout-staging/1.x/node_modules"));
    assert!(!in_staging_root(b"/tmp/sprout-staging/../x"));
    assert!(in_staging_root(b"/tmp/sprout-staging//1.x/"));
    assert!(in_staging_root(b"sprout-staging/1.x"));

    let given = vec![b("/tmp/sprout-staging/1.x"), b("/etc"), b("/r/.sprout/.staging/2.y"), b("/tmp/sprout-staging")];
    assert_eq!(run_sweeper(&given), vec![b("/tmp/sprout-staging/1.x"), b("/r/.sprout/.staging/2.y")]);
    assert!(run_sweeper(&vec![]).is_empty());
}

#[test]
fn dead_pid_is_stale_live_pid_is_not() {
    let live = b("/tmp/sprout-stale-test-77/77.feat");
    // i32::MAX is far above any real pid space (macOS ~1e5, Linux ~4e6)
    let dead = b("/tmp/sprout-stale-test-77/2147483647.feat");
    assert!(!is_stale(&live, pid_alive(0, None), Some(0)));
    assert!(is_stale(&dead, pid_alive(-1, Some(3)), Some(0)));
}

#[test]
fn staleness_by_age() {
    let ours = b("/tmp/sprout-staging/77.feat");
    let odd = b("/tmp/sprout-staging/not-ours");
    // A day to the nanosecond is not yet old.
    assert!(!is_stale(&ours, true, Some(MAX_AGE)));
    assert!(is_stale(&ours, true, Some(MAX_AGE + 1)));
    assert!(!is_stale(&odd, false, Some(MAX_AGE)));
    assert!(is_stale(&odd, false, Some(MAX_AGE + 1)));
    assert!(!is_stale(&odd, false, None));
    assert!(is_stale(&ours, false, None));
    assert_eq!(MAX_AGE, 24 * 60 * 60 * 1_000_000_000);
}

#[test]
fn probing_a_process() {
    assert!(pid_alive(0, None));
    assert!(pid_alive(0, Some(3)));
    // It exists and belongs to someone else.
    assert!(pid_alive(-1, Some(1)));
    // There is no such process.
    assert!(!pid_alive(-1, Some(3)));
    assert!(!pid_alive(-1, None));
}

#[test]
fn devices() {
    assert!(same_device(Some(5), Some(5)));
    assert!(!same_device(Some(5), Some(6)));
    assert!(!same_device(None, Some(5)));
    assert!(!same_device(Some(5), None));
    assert!(!same_device(None, None));
    assert_eq!(repo_device_dir(b"/repo/.sprout"), b("/repo"));
    assert_eq!(repo_device_dir(b"/"), b("/"));
}

#[test]
fn staging_roots() {
    assert_eq!(staging_root(b"/tmp", b"/repo/.sprout", true), b("/tmp/sprout-staging"));
    assert_eq!(staging_root(b"/tmp", b"/repo/.sprout", false), b("/repo/.sprout/.staging"));
    assert_eq!(sweep_roots(b"/tmp/", b"/repo/.sprout"), vec![b("/tmp/sprout-staging"), b("/repo/.sprout/.staging")]);
    assert_eq!(tidy_local_root(b"/repo/.sprout"), b("/repo/.sprout/.staging"));
}

#[test]
fn tidying_goes_from_the_inside_out() {
    assert_eq!(
        tidy(b"/r/.sprout", b"/r/.sprout/a/b/c"),
        vec![b("/r/.sprout/a/b"), b("/r/.sprout/a"), b("/r/.sprout/.staging"), b("/r/.sprout")]
    );
    assert_eq!(tidy(b"/r/.sprout", b"/r/.sprout/feat"), vec![b("/r/.sprout/.staging"), b("/r/.sprout")]);
}

#[test]
fn slots_flatten_names_and_step_around_leftovers() {
    let root = b("/tmp/sprout-staging");
    assert_eq!(slot(&root, 42, "feat/login\\x", &vec![]), b("/tmp/sprout-staging/42.feat-login-x"));
    assert_eq!(slot(&root, 42, "feat", &vec![b("42.feat")]), b("/tmp/sprout-staging/42.feat.1"));
    assert_eq!(
        slot(&root, 42, "feat", &vec![b("42.feat.1"), b("7.other"), b("42.feat")]),
        b("/tmp/sprout-staging/42.feat.2")
    );
    // A gap is filled.
    assert_eq!(
        slot(&root, 42, "feat", &vec![b("42.feat"), b("42.feat.2")]),
        b("/tmp/sprout-staging/42.feat.1")
    );
    let many: Vec<Vec<u8>> =
        std::iter::once(b("9.x")).chain((1..=11).map(|n| format!("9.x.{n}").into_bytes())).collect();
    assert_eq!(slot(&root, 9, "x", &many), b("/tmp/sprout-staging/9.x.12"));
}

#[test]
fn slots_follow_the_device() {
    let find = |temp: Option<u64>, repo: Option<u64>, taken: Vec<Vec<u8>>| {
        slot_in(b"/tmp", b"/r/.sprout", temp, repo, 7, "feat/x", &taken)
    };
    assert_eq!(find(Some(1), Some(1), vec![]), b("/tmp/sprout-staging/7.feat-x"));
    assert_eq!(find(Some(1), Some(2), vec![]), b("/r/.sprout/.staging/7.feat-x"));
    assert_eq!(find(None, None, vec![]), b("/r/.sprout/.staging/7.feat-x"));
    assert_eq!(find(Some(1), Some(1), vec![b("7.feat-x")]), b("/tmp/sprout-staging/7.feat-x.1"));
}

#[test]
fn slots_are_owned_staged_and_free() {
    let mut taken: Vec<Vec<u8>> = vec![];
    for name in ["feat", "feat/x", "v1.2.3", "../..", "", "é/ü", ".staging"] {
        for _ in 0..3 {
            let path = slot(b"/r/.sprout/.staging", 4711, name, &taken);
            assert_eq!(owner_pid(&path), Some(4711), "{name:?}");
            assert!(in_staging_root(&path), "{name:?}");
            let leaf = file_name(&path).unwrap();
            assert!(!taken.contains(&leaf));
            assert!(!is_stale(&path, true, Some(0)));
            assert!(is_stale(&path, false, Some(0)));
            assert_eq!(run_sweeper(&discard(&path)[1..].to_vec()), vec![path]);
            taken.push(leaf);
        }
    }
}

#[test]
fn sweeping() {
    assert_eq!(discard(b"/tmp/sprout-staging/1.x"), vec![b("__sweep"), b("/tmp/sprout-staging/1.x")]);
    let entry = |path: &str, alive: bool, age: Option<u128>| Entry { path: b(path), alive, age };
    assert_eq!(sweep(&vec![]), None);
    assert_eq!(sweep(&vec![entry("/tmp/sprout-staging/1.x", true, Some(5))]), None);
    assert_eq!(
        sweep(&vec![
            entry("/tmp/sprout-staging/1.x", true, Some(5)),
            entry("/tmp/sprout-staging/2.x", false, Some(5)),
            entry("/tmp/sprout-staging/odd", false, Some(5)),
            entry("/r/.sprout/.staging/3.x", true, Some(MAX_AGE + 1)),
        ]),
        Some(vec![b("__sweep"), b("/tmp/sprout-staging/2.x"), b("/r/.sprout/.staging/3.x")])
    );
}
