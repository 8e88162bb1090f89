//! Removing worktrees, step by step.
use sprout::remove::{Phase, Removal};
use sprout::repo::GitReply;
use sprout::steps::{Action, Event};

fn b(s: &str) -> Vec<u8> {
    s.as_bytes().to_vec()
}

fn ok(stdout: &str) -> Event {
    Event::Git(GitReply { success: true, stdout: b(stdout), stderr: vec![] })
}

fn no(stderr: &str) -> Event {
    Event::Git(GitReply { success: false, stdout: vec![], stderr: b(stderr) })
}

fn removal(force: bool, keep_branch: bool) -> Removal {
    Removal::new("feat/x", force, keep_branch, b"/here", b"/r", b"/r/.sprout/feat/x")
}

fn git_words(run: &Removal, expected: &str) -> Vec<String> {
    match run.action() {
        Action::Git(dir, args) => {
            assert_eq!(dir, b(expected));
            args
        }
        _ => panic!("not a git command"),
    }
}

/// The run once the worktree is renamed away and forgotten.
fn at_tidy(force: bool, keep_branch: bool) -> Removal {
    let mut run = removal(force, keep_branch);
    run.advance(Event::Exists(true));
    if !force {
        assert_eq!(
            git_words(&run, "/r/.sprout/feat/x"),
            vec!["status", "--porcelain", "--untracked-files=no"]
        );
        run.advance(ok("\n"));
    }
    assert!(matches!(run.action(), Action::Reserve(ns, name, false) if ns == b("/r/.sprout") && name == "feat/x"));
    run.advance(Event::Reserved(Ok(b("/tmp/sprout-staging/7.feat-x"))));
    match run.action() {
        Action::Rename(from, to) => {
            assert_eq!(from, b("/r/.sprout/feat/x"));
            assert_eq!(to, b("/tmp/sprout-staging/7.feat-x"));
        }
        _ => panic!(),
    }
    run.advance(Event::Ready(Ok(())));
    assert_eq!(git_words(&run, "/r"), vec!["worktree", "prune"]);
    run.advance(ok(""));
    match run.action() {
        Action::Tidy(ns, dest) => {
            assert_eq!(ns, b("/r/.sprout"));
            assert_eq!(dest, b("/r/.sprout/feat/x"));
        }
        _ => panic!(),
    }
    run
}

/// The run at the question about the branch, or past it.
fn past_discard(force: bool, keep_branch: bool) -> Removal {
    let mut run = at_tidy(force, keep_branch);
    run.advance(Event::Finished);
    assert_eq!(run.said(), &vec!["removed /r/.sprout/feat/x".to_string()]);
    assert!(matches!(run.action(), Action::Discard(p) if p == b("/tmp/sprout-staging/7.feat-x")));
    run.advance(Event::Finished);
    run
}

#[test]
fn rm_of_a_missing_worktree_fails() {
    let mut run = removal(true, false);
    run.advance(Event::Exists(false));
    assert!(run.phase() == Phase::Failed);
    assert_eq!(run.error(), "no worktree at /r/.sprout/feat/x");
}

#[test]
fn rm_guards_dirty_tracked_files_and_prunes_empty_parents() {
    let mut run = removal(false, false);
    run.advance(Event::Exists(true));
    run.advance(ok(" M src/lib.ts\n"));
    assert!(run.phase() == Phase::Failed);
    assert!(run.error().contains("uncommitted changes"));
    assert_eq!(
        run.error(),
        "worktree has uncommitted changes to tracked files (use --force to remove anyway):\nM src/lib.ts"
    );
    assert!(matches!(run.action(), Action::Stop));

    // With force nobody asks.
    let run = at_tidy(true, false);
    assert!(matches!(run.action(), Action::Tidy(_, _)));
}

#[test]
fn rm_allows_worktree_with_untracked_files_when_tracked_clean() {
    let run = past_discard(false, false);
    assert!(run.phase() == Phase::Branch);
}

#[test]
fn rm_fails_where_status_fails() {
    let mut run = removal(false, false);
    run.advance(Event::Exists(true));
    run.advance(no("fatal: not a git repository"));
    assert_eq!(
        run.error(),
        "git status --porcelain --untracked-files=no failed:\nfatal: not a git repository"
    );
}

#[test]
fn rm_deletes_the_branch_by_default() {
    let mut run = past_discard(false, false);
    assert_eq!(git_words(&run, "/r"), vec!["show-ref", "--verify", "--quiet", "refs/heads/feat/x"]);
    run.advance(ok(""));
    assert_eq!(git_words(&run, "/r"), vec!["branch", "-d", "feat/x"]);
    run.advance(ok("Deleted branch feat/x\n"));
    assert!(run.phase() == Phase::Done);
    assert_eq!(run.said().last().unwrap(), "deleted branch feat/x");
}

#[test]
fn rm_without_a_branch_is_done() {
    let mut run = past_discard(false, false);
    run.advance(no(""));
    assert!(run.phase() == Phase::Done);
    assert_eq!(run.said().len(), 1);
}

#[test]
fn rm_keep_branch_leaves_the_branch() {
    let run = past_discard(false, true);
    assert!(run.phase() == Phase::Done);
    assert_eq!(run.said().len(), 1);
}

#[test]
fn rm_keeps_unmerged_branch_without_force_and_warns() {
    let mut run = past_discard(false, false);
    run.advance(ok(""));
    run.advance(no("error: the branch 'feat/x' is not fully merged\n"));
    assert!(run.phase() == Phase::Done, "worktree removal must still succeed");
    let stderr = run.said().last().unwrap();
    assert!(stderr.contains("kept branch"), "must warn the branch was kept: {stderr}");
    assert_eq!(stderr, "warning: kept branch 'feat/x':\nerror: the branch 'feat/x' is not fully merged");
}

#[test]
fn rm_force_deletes_even_an_unmerged_branch() {
    let mut run = past_discard(true, false);
    run.advance(ok(""));
    assert_eq!(git_words(&run, "/r"), vec!["branch", "-D", "feat/x"]);
}

#[test]
fn rm_falls_back_to_git() {
    for stage in 0..2 {
        let mut run = removal(true, true);
        run.advance(Event::Exists(true));
        if stage == 0 {
            run.advance(Event::Reserved(Err("no staging".to_string())));
        } else {
            run.advance(Event::Reserved(Ok(b("/tmp/sprout-staging/7.feat-x"))));
            run.advance(Event::Ready(Err("cross-device link".to_string())));
        }
        assert_eq!(git_words(&run, "/here"), vec!["worktree", "remove", "--force", "/r/.sprout/feat/x"]);
        run.advance(ok(""));
        run.advance(Event::Finished);
        assert!(run.phase() == Phase::Done);
        assert_eq!(run.said(), &vec!["removed /r/.sprout/feat/x".to_string()]);
    }
    let mut run = removal(true, true);
    run.advance(Event::Exists(true));
    run.advance(Event::Reserved(Err("no staging".to_string())));
    run.advance(no("fatal: locked"));
    assert_eq!(run.error(), "git worktree remove --force /r/.sprout/feat/x failed:\nfatal: locked");
}
