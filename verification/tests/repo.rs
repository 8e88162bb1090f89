//! Git's replies and the layout of worktrees.
use sprout::path::strip_dir;
use sprout::repo::{
    add_existing_args, add_new_args, branch_exists, branch_exists_args, default_base, delete_branch_args,
    ensure_sprout_excluded, exclude_file, fnv1a, git, git_passthrough, home_namespace, ignored_entries, ignored_entries_args,
    main_repo_root, main_repo_root_args, prune_args, prune_empty_parents, remove_args, repo_namespace,
    sprout_worktree_names, status_args, worktree_dir, worktree_dir_args, worktree_list_args, worktree_root,
    worktree_root_args, GitReply, HomeError, RootError,
};

fn b(s: &str) -> Vec<u8> {
    s.as_bytes().to_vec()
}

fn ok(stdout: &str) -> GitReply {
    GitReply { success: true, stdout: b(stdout), stderr: vec![] }
}

fn failed(stderr: &str) -> GitReply {
    GitReply { success: false, stdout: vec![], stderr: b(stderr) }
}

fn words(list: &[&str]) -> Vec<String> {
    list.iter().map(|w| w.to_string()).collect()
}

#[test]
fn git_trims_output_and_reports_failure() {
    let args = words(&["status", "--short"]);
    assert_eq!(git(&args, &ok(" out\n\n")), Ok("out".to_string()));
    assert_eq!(git(&args, &failed("fatal: no\n")), Err("git status --short failed:\nfatal: no".to_string()));
    // Output that is not UTF-8 is shown as well as it can be.
    let odd = GitReply { success: true, stdout: vec![b'a', 0xff, b'\n'], stderr: vec![] };
    assert_eq!(git(&args, &odd), Ok("a\u{fffd}".to_string()));
    assert_eq!(git_passthrough(&args, true), Ok(()));
    assert_eq!(git_passthrough(&args, false), Err("git status --short failed".to_string()));
}

#[test]
fn the_words_of_commands() {
    assert_eq!(worktree_root_args(), words(&["rev-parse", "--show-toplevel"]));
    assert_eq!(main_repo_root_args(), words(&["rev-parse", "--path-format=absolute", "--git-common-dir"]));
    assert_eq!(worktree_dir_args("x"), words(&["check-ref-format", "--branch", "x"]));
    assert_eq!(
        ignored_entries_args(),
        words(&["ls-files", "--others", "--ignored", "--exclude-standard", "--directory", "-z"])
    );
    assert_eq!(branch_exists_args("a/b"), words(&["show-ref", "--verify", "--quiet", "refs/heads/a/b"]));
    assert_eq!(add_existing_args("f", b"/r/.sprout/f"), words(&["worktree", "add", "/r/.sprout/f", "f"]));
    assert_eq!(add_new_args("f", b"/d", "main"), words(&["worktree", "add", "-b", "f", "/d", "main"]));
    assert_eq!(remove_args(b"/d"), words(&["worktree", "remove", "--force", "/d"]));
    assert_eq!(prune_args(), words(&["worktree", "prune"]));
    assert_eq!(status_args(), words(&["status", "--porcelain", "--untracked-files=no"]));
    assert_eq!(delete_branch_args("f", false), words(&["branch", "-d", "f"]));
    assert_eq!(delete_branch_args("f", true), words(&["branch", "-D", "f"]));
    assert_eq!(worktree_list_args(), words(&["worktree", "list", "--porcelain"]));
}

#[test]
fn roots() {
    assert_eq!(worktree_root(&ok("/home/u/repo\n")), Ok(b("/home/u/repo")));
    assert_eq!(
        worktree_root(&failed("fatal: not a git repository")),
        Err("git rev-parse --show-toplevel failed:\nfatal: not a git repository".to_string())
    );
    assert!(matches!(main_repo_root(&ok("/home/u/repo/.git\n")), Ok(r) if r == b("/home/u/repo")));
    match main_repo_root(&failed("fatal: x")) {
        Err(RootError::Git(m)) => {
            assert_eq!(m, "git rev-parse --path-format=absolute --git-common-dir failed:\nfatal: x");
            assert_eq!(RootError::Git(m.clone()).describe(), m);
        }
        _ => panic!(),
    }
    match main_repo_root(&ok("/\n")) {
        Err(e) => {
            assert!(matches!(e, RootError::NoParent));
            assert_eq!(e.describe(), "could not determine main repository root");
        }
        Ok(_) => panic!(),
    }
}

#[test]
fn hashing() {
    // Published values of the 64-bit FNV-1a hash.
    assert_eq!(fnv1a(b""), 0xcbf29ce484222325);
    assert_eq!(fnv1a(b"a"), 0xaf63dc4c8601ec8c);
    assert_eq!(fnv1a(b"foobar"), 0x85944171f73967e8);
}

#[test]
fn home_directories() {
    let dir = home_namespace(Some(b"/home/u"), b"foobar");
    assert!(matches!(dir, Ok(d) if d == b("/home/u/.sprout/foobar-85944171f73967e8")));
    assert!(matches!(home_namespace(None, b"/r"), Err(HomeError::NoHome)));
    assert!(matches!(home_namespace(Some(b"/home/u"), b"/"), Err(HomeError::NoName)));
}

#[test]
fn worktree_directories_nest() {
    assert_eq!(repo_namespace(b"/r"), b("/r/.sprout"));
    assert_eq!(worktree_dir(b"/r", "feat/login-page", true), Ok(b("/r/.sprout/feat/login-page")));
    assert_eq!(worktree_dir(b"/r", "../evil", false), Err("'../evil' is not a valid branch name".to_string()));
    let dir = worktree_dir(b"/r", "feat/x", true).unwrap();
    assert_eq!(strip_dir(&repo_namespace(b"/r"), &dir), Some(b("feat/x")));
}

#[test]
fn pruning_goes_up_to_the_namespace() {
    assert_eq!(
        prune_empty_parents(b"/r/.sprout", b"/r/.sprout/a/b/c"),
        vec![b("/r/.sprout/a/b"), b("/r/.sprout/a")]
    );
    assert!(prune_empty_parents(b"/r/.sprout", b"/r/.sprout/feat").is_empty());
    // The way up from elsewhere ends at the root.
    assert_eq!(prune_empty_parents(b"/r/.sprout", b"/x/y"), vec![b("/x"), b("/")]);
}

#[test]
fn ignored_entries_are_stripped_and_leave_worktrees_out() {
    let listing = GitReply {
        success: true,
        stdout: b("node_modules/\0.env\0.sprout/\0pkg/a/node_modules/\0.sprout/config.json\0.sproutling\0"),
        stderr: vec![],
    };
    assert_eq!(
        ignored_entries(&listing),
        Ok(vec![b("node_modules"), b(".env"), b("pkg/a/node_modules"), b(".sproutling")])
    );
    assert_eq!(ignored_entries(&ok("")), Ok(vec![]));
    assert_eq!(ignored_entries(&failed(" bad\n")), Err("git ls-files failed:\nbad".to_string()));
    // Names need not be UTF-8.
    let odd = GitReply { success: true, stdout: vec![0xff, b'/', 0], stderr: vec![] };
    assert_eq!(ignored_entries(&odd), Ok(vec![vec![0xff]]));
}

#[test]
fn branches() {
    assert!(branch_exists(&ok("")));
    assert!(!branch_exists(&failed("")));
    assert_eq!(default_base(true, true), "main");
    assert_eq!(default_base(true, false), "main");
    assert_eq!(default_base(false, true), "master");
    assert_eq!(default_base(false, false), "origin/HEAD");
}

#[test]
fn the_exclude_line_is_added_once() {
    let first = ensure_sprout_excluded(b"").unwrap();
    assert_eq!(first, b("/.sprout/\n"));
    assert_eq!(ensure_sprout_excluded(&first), None);
    assert_eq!(ensure_sprout_excluded(b"*.log").unwrap(), b("*.log\n/.sprout/\n"));
    assert_eq!(ensure_sprout_excluded(b"*.log\n").unwrap(), b("*.log\n/.sprout/\n"));
    assert_eq!(ensure_sprout_excluded(b"a\n/.sprout/"), None);
    assert_eq!(exclude_file(b"/r"), b("/r/.git/info/exclude"));
    // Another pattern that only holds the line does not count.
    assert!(ensure_sprout_excluded(b"x/.sprout/\n").is_some());
}

#[test]
fn listed_worktrees() {
    let listing = "worktree /r\nHEAD 1\nbranch refs/heads/main\n\nworktree /r/.sprout/feat\nHEAD 2\n\
                   branch refs/heads/feat\n\nworktree /r/.sprout/a/b\nHEAD 3\ndetached\n\nworktree /other\n";
    assert_eq!(sprout_worktree_names(b"/r/.sprout", &ok(listing)), vec![b("feat"), b("a/b")]);
    assert!(sprout_worktree_names(b"/r/.sprout", &failed("x")).is_empty());
}
