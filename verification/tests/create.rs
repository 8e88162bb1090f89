//! Building worktrees, step by step.
use sprout::clonefile::{Copied, Fault};
use sprout::create::{resolve_base, summary, Creation, Phase, INTERRUPTED};
use sprout::repo::GitReply;
use sprout::steps::{Action, Event};

fn b(s: &str) -> Vec<u8> {
    s.as_bytes().to_vec()
}

fn ok(stdout: &str) -> Event {
    Event::Git(GitReply { success: true, stdout: b(stdout), stderr: vec![] })
}

fn no(stderr: &str) -> Event {
    Event::Git(GitReply { success: false, stdout: vec![], stderr: b(stderr) })
}

fn creation(base: Option<&str>) -> Creation {
    Creation::new("feat", base, b"/r", b"/r", b"/r/.sprout/feat")
}

fn fault() -> Fault {
    Fault { code: Some(13), message: "Permission denied (os error 13)".to_string() }
}

/// The run up to the question about the branch.
fn at_branch(base: Option<&str>) -> Creation {
    let mut run = creation(base);
    assert!(matches!(run.action(), Action::Probe(p) if p == b("/r/.sprout/feat")));
    run.advance(Event::Exists(false), false);
    assert!(matches!(run.action(), Action::Exclude(p) if p == b("/r")));
    run.advance(Event::Ready(Ok(())), false);
    assert!(matches!(run.action(), Action::MakeParent(p) if p == b("/r/.sprout/feat")));
    run.advance(Event::Ready(Ok(())), false);
    assert_eq!(git_words(&run), vec!["show-ref", "--verify", "--quiet", "refs/heads/feat"]);
    run
}

/// The run up to git's adding of the worktree for a new branch.
fn at_add() -> Creation {
    let mut run = at_branch(Some("v2"));
    run.advance(no(""), false);
    run
}

/// The run up to the first entry that is cloned.
fn at_stage(listing: &str) -> Creation {
    let mut run = at_add();
    run.advance(ok("Preparing worktree\n"), false);
    assert_eq!(git_words(&run)[0], "ls-files");
    run.advance(ok(listing), false);
    assert!(matches!(run.action(), Action::Reserve(ns, name, true) if ns == b("/r/.sprout") && name == "feat"));
    run.advance(Event::Reserved(Ok(b("/tmp/sprout-staging/7.feat"))), false);
    run
}

fn git_words(run: &Creation) -> Vec<String> {
    match run.action() {
        Action::Git(dir, args) => {
            assert_eq!(dir, b("/r"));
            args
        }
        _ => panic!("not a git command"),
    }
}

#[test]
fn new_clones_ignored_state_and_stdout_is_only_the_path() {
    let mut run = at_stage("node_modules/\0.env\0");
    assert_eq!(run.total(), 2);
    match run.action() {
        Action::Clone(rel, from, to) => {
            assert_eq!(rel, b("node_modules"));
            assert_eq!(from, b("/r/node_modules"));
            assert_eq!(to, b("/tmp/sprout-staging/7.feat/node_modules"));
        }
        _ => panic!(),
    }
    run.advance(Event::Copied(Copied::Fresh), false);
    assert!(matches!(run.action(), Action::Clone(rel, _, _) if rel == b(".env")));
    run.advance(Event::Copied(Copied::Fresh), false);
    for rel in ["node_modules", ".env"] {
        assert!(run.stdout().is_none());
        match run.action() {
            Action::Move(r, from, to) => {
                assert_eq!(r, b(rel));
                assert_eq!(from, b(&format!("/tmp/sprout-staging/7.feat/{rel}")));
                assert_eq!(to, b(&format!("/r/.sprout/feat/{rel}")));
            }
            _ => panic!(),
        }
        run.advance(Event::Copied(Copied::Fresh), false);
    }
    assert!(matches!(run.action(), Action::Discard(p) if p == b("/tmp/sprout-staging/7.feat")));
    run.advance(Event::Finished, false);
    assert!(matches!(run.action(), Action::Patterns(p) if p == b("/r/.sproutignore")));
    assert_eq!(run.exit_code(), None);
    run.advance(Event::Patterns(Ok(false)), false);
    assert_eq!(run.exit_code(), Some(0));
    assert_eq!(run.stdout(), Some("/r/.sprout/feat".to_string()));
    assert_eq!(run.said(), &vec!["Preparing worktree".to_string()]);
    assert_eq!(run.summary("1.20s"), "cloned 2 ignored entries in 1.20s");
    assert!(matches!(run.action(), Action::Stop));
}

#[test]
fn new_fails_if_worktree_exists() {
    let mut run = creation(None);
    run.advance(Event::Exists(true), false);
    assert!(run.phase() == Phase::Failed);
    assert!(run.error().contains("already exists"));
    assert_eq!(run.error(), "worktree already exists at /r/.sprout/feat");
    assert_eq!(run.exit_code(), Some(1));
    assert!(run.stdout().is_none());
}

#[test]
fn base_flag_branches_from_ref() {
    let mut run = at_branch(Some("HEAD~1"));
    run.advance(no(""), false);
    assert_eq!(git_words(&run), vec!["worktree", "add", "-b", "feat", "/r/.sprout/feat", "HEAD~1"]);
}

#[test]
fn config_json_sets_default_base() {
    let mut run = at_branch(None);
    run.advance(no(""), false);
    assert!(matches!(run.action(), Action::Config(p) if p == b("/r/.sprout/config.json")));
    run.advance(Event::Configured(Ok(Some("development".to_string()))), false);
    assert_eq!(git_words(&run), vec!["worktree", "add", "-b", "feat", "/r/.sprout/feat", "development"]);
}

#[test]
fn base_flag_overrides_config_default() {
    let mut run = at_branch(Some("main"));
    run.advance(no(""), false);
    // The config is not even read.
    assert_eq!(git_words(&run), vec!["worktree", "add", "-b", "feat", "/r/.sprout/feat", "main"]);
    assert_eq!(resolve_base(Some("main"), Some("development"), true, true), "main");
    assert_eq!(resolve_base(None, Some("development"), true, true), "development");
    assert_eq!(resolve_base(None, None, true, true), "main");
    assert_eq!(resolve_base(None, None, false, true), "master");
    assert_eq!(resolve_base(None, None, false, false), "origin/HEAD");
}

#[test]
fn new_branches_from_default_branch_not_current_branch() {
    for (main, master, base) in [(true, false, "main"), (false, true, "master"), (false, false, "origin/HEAD")] {
        let mut run = at_branch(None);
        run.advance(no(""), false);
        run.advance(Event::Configured(Ok(None)), false);
        assert_eq!(git_words(&run)[3], "refs/heads/main");
        run.advance(if main { ok("") } else { no("") }, false);
        if !main {
            assert_eq!(git_words(&run)[3], "refs/heads/master");
            run.advance(if master { ok("") } else { no("") }, false);
        }
        assert_eq!(git_words(&run), vec!["worktree", "add", "-b", "feat", "/r/.sprout/feat", base]);
    }
}

#[test]
fn malformed_config_is_a_clear_error() {
    for found in [ok(""), no("")] {
        let mut run = at_branch(None);
        run.advance(found, false);
        run.advance(Event::Configured(Err("failed to parse /r/.sprout/config.json".to_string())), false);
        assert!(run.phase() == Phase::Failed, "malformed config must fail loudly");
        assert!(run.error().contains("config.json"), "error must name the file");
    }
}

#[test]
fn explicit_base_on_existing_branch_warns_and_checks_out_as_is() {
    let mut run = at_branch(Some("development"));
    run.advance(ok(""), false);
    let stderr = &run.said()[0];
    assert!(stderr.contains("already exists") && stderr.contains("ignoring --base"));
    assert_eq!(
        stderr,
        "warning: branch 'feat' already exists — ignoring --base development (--base only applies when creating \
         a new branch; use a new name, or delete 'feat' to recreate it from development)"
    );
    assert_eq!(git_words(&run), vec!["worktree", "add", "/r/.sprout/feat", "feat"]);
}

#[test]
fn configured_base_on_existing_branch_warns() {
    let mut run = at_branch(None);
    // `feat` already exists (from main); no --base flag, just the config default.
    run.advance(ok(""), false);
    run.advance(Event::Configured(Ok(Some("development".to_string()))), false);
    let stderr = &run.said()[0];
    assert!(
        stderr.contains("already exists") && stderr.contains("configured base"),
        "must warn the configured base was not applied: {stderr}"
    );
    assert_eq!(
        stderr,
        "warning: branch 'feat' already exists — checking it out as-is, not from the configured base 'development' \
         (a branch's base is fixed at creation; use a new name, or delete 'feat' to recut it from 'development')"
    );
    assert_eq!(git_words(&run), vec!["worktree", "add", "/r/.sprout/feat", "feat"]);
}

#[test]
fn an_existing_branch_without_any_base() {
    let mut run = at_branch(None);
    run.advance(ok(""), false);
    run.advance(Event::Configured(Ok(None)), false);
    assert!(run.said().is_empty());
    assert_eq!(git_words(&run), vec!["worktree", "add", "/r/.sprout/feat", "feat"]);
}

#[test]
fn failures_on_the_way() {
    let mut run = creation(None);
    run.advance(Event::Exists(false), false);
    run.advance(Event::Ready(Err("no exclude".to_string())), false);
    assert_eq!(run.error(), "no exclude");

    let mut run = creation(None);
    run.advance(Event::Exists(false), false);
    run.advance(Event::Ready(Ok(())), false);
    run.advance(Event::Ready(Err("no parent".to_string())), false);
    assert_eq!(run.error(), "no parent");

    let mut run = Creation::new("x", None, b"/r", b"/r", b"/");
    run.advance(Event::Exists(false), false);
    run.advance(Event::Ready(Ok(())), false);
    assert_eq!(run.error(), "destination has no parent");

    let mut run = at_add();
    run.advance(no("fatal: invalid reference: v2\n"), false);
    assert_eq!(
        run.error(),
        "git worktree add -b feat /r/.sprout/feat v2 failed:\nfatal: invalid reference: v2"
    );

    let mut run = at_add();
    run.advance(ok(""), false);
    assert!(run.said().is_empty());
    run.advance(no("fatal: bad index"), false);
    assert_eq!(run.error(), "git ls-files failed:\nfatal: bad index");

    let mut run = at_add();
    run.advance(ok(""), false);
    run.advance(ok(".env\0"), false);
    run.advance(Event::Reserved(Err("no staging".to_string())), false);
    assert_eq!(run.error(), "no staging");

    let mut run = at_stage(".env\0");
    run.advance(Event::Copied(Copied::Fatal("no directory".to_string())), false);
    assert_eq!(run.error(), "no directory");

    let mut run = at_stage(".env\0");
    run.advance(Event::Copied(Copied::Fresh), false);
    run.advance(Event::Copied(Copied::Fatal("no directory".to_string())), false);
    assert_eq!(run.error(), "no directory");
    assert_eq!(run.exit_code(), Some(1));
}

#[test]
fn nothing_to_clone() {
    let mut run = at_add();
    run.advance(ok(""), false);
    run.advance(ok(".sprout/\0"), false);
    assert!(matches!(run.action(), Action::Patterns(_)));
    run.advance(Event::Patterns(Ok(true)), false);
    assert!(run.phase() == Phase::Done);
    assert_eq!(run.summary("3.00ms"), "cloned 0 ignored entries in 3.00ms");
}

#[test]
fn every_entry_is_accounted_for() {
    let mut run = at_stage("a\0b\0c\0d\0e\0");
    run.advance(Event::Copied(Copied::Fresh), false);
    run.advance(Event::Copied(Copied::Present), false);
    run.advance(Event::Copied(Copied::Failed(fault())), false);
    run.advance(Event::Copied(Copied::Fresh), false);
    run.advance(Event::Copied(Copied::Fresh), false);
    // Three clones are moved.
    assert!(matches!(run.action(), Action::Move(rel, _, _) if rel == b("a")));
    run.advance(Event::Copied(Copied::Fresh), false);
    assert!(matches!(run.action(), Action::Move(rel, _, _) if rel == b("d")));
    run.advance(Event::Copied(Copied::Present), false);
    assert!(matches!(run.action(), Action::Move(rel, _, _) if rel == b("e")));
    run.advance(Event::Copied(Copied::Failed(fault())), false);
    run.advance(Event::Finished, false);
    run.advance(Event::Patterns(Ok(false)), false);
    assert_eq!(
        run.said()[1..].to_vec(),
        vec![
            "warn: could not clone c: Permission denied (os error 13)".to_string(),
            "warn: could not clone e: Permission denied (os error 13)".to_string()
        ]
    );
    assert_eq!(run.summary("1s"), "cloned 1 ignored entry in 1s, 2 failed");
}

#[test]
fn no_clone_to_move() {
    let mut run = at_stage("a\0");
    run.advance(Event::Copied(Copied::Failed(fault())), false);
    assert!(matches!(run.action(), Action::Discard(_)));
}

#[test]
fn scrubbing_counts() {
    let mut run = at_stage("a\0b\0");
    for _ in 0..4 {
        run.advance(Event::Copied(Copied::Fresh), false);
    }
    run.advance(Event::Finished, false);
    run.advance(Event::Patterns(Ok(true)), false);
    assert!(matches!(run.action(), Action::Scrub(rel) if rel == b("a")));
    run.advance(Event::Scrubbed(Ok(2)), false);
    assert!(matches!(run.action(), Action::Scrub(rel) if rel == b("b")));
    run.advance(Event::Scrubbed(Ok(5)), false);
    assert!(run.phase() == Phase::Done);
    assert_eq!(run.summary("1s"), "cloned 2 ignored entries in 1s, scrubbed 7");

    let mut run = at_stage("a\0");
    run.advance(Event::Copied(Copied::Fresh), false);
    run.advance(Event::Copied(Copied::Fresh), false);
    run.advance(Event::Finished, false);
    run.advance(Event::Patterns(Err("failed to parse .sproutignore".to_string())), false);
    assert_eq!(run.error(), "failed to parse .sproutignore");
}

#[test]
fn only_what_was_moved_is_scrubbed() {
    // Git has checked something out where the one clone belongs.
    let mut run = at_stage("build/\0");
    run.advance(Event::Copied(Copied::Fresh), false);
    run.advance(Event::Copied(Copied::Present), false);
    run.advance(Event::Finished, false);
    run.advance(Event::Patterns(Ok(true)), false);
    assert!(run.phase() == Phase::Done);
    assert_eq!(run.summary("1s"), "cloned 0 ignored entries in 1s");

    // Of five entries, two are moved.
    let mut run = at_stage("a\0b\0c\0d\0e\0");
    run.advance(Event::Copied(Copied::Fresh), false);
    run.advance(Event::Copied(Copied::Present), false);
    run.advance(Event::Copied(Copied::Failed(fault())), false);
    run.advance(Event::Copied(Copied::Fresh), false);
    run.advance(Event::Copied(Copied::Fresh), false);
    run.advance(Event::Copied(Copied::Fresh), false);
    run.advance(Event::Copied(Copied::Present), false);
    run.advance(Event::Copied(Copied::Fresh), false);
    run.advance(Event::Finished, false);
    run.advance(Event::Patterns(Ok(true)), false);
    assert!(matches!(run.action(), Action::Scrub(rel) if rel == b("a")));
    run.advance(Event::Scrubbed(Ok(1)), false);
    assert!(matches!(run.action(), Action::Scrub(rel) if rel == b("e")));
    run.advance(Event::Scrubbed(Ok(0)), false);
    assert!(run.phase() == Phase::Done);
    assert_eq!(run.summary("1s"), "cloned 2 ignored entries in 1s, scrubbed 1, 1 failed");
}

#[test]
fn summaries() {
    assert_eq!(summary(1, 0, 0, "1s"), "cloned 1 ignored entry in 1s");
    assert_eq!(summary(0, 0, 0, "1s"), "cloned 0 ignored entries in 1s");
    assert_eq!(summary(12, 3, 4, "1s"), "cloned 12 ignored entries in 1s, scrubbed 3, 4 failed");
}

#[test]
fn an_interrupt_before_the_worktree_is_there() {
    let mut run = at_add();
    // Git itself was interrupted: that is no failure.
    run.advance(no("interrupted"), true);
    assert!(matches!(run.action(), Action::Probe(_)));
    run.advance(Event::Exists(false), true);
    // The directories that were made for it go all the same.
    match run.action() {
        Action::Tidy(ns, dest) => {
            assert_eq!(ns, b("/r/.sprout"));
            assert_eq!(dest, b("/r/.sprout/feat"));
        }
        _ => panic!(),
    }
    assert!(run.said().is_empty());
    run.advance(Event::Finished, true);
    assert!(run.phase() == Phase::Aborted);
    assert_eq!(run.said(), &vec!["aborted".to_string()]);
    assert_eq!(run.exit_code(), Some(130));
    assert_eq!(INTERRUPTED, 130);
    assert!(run.stdout().is_none());
}

#[test]
fn an_interrupt_while_cloning_takes_everything_back() {
    let mut run = at_stage("a\0b\0");
    run.advance(Event::Copied(Copied::Fresh), false);
    run.advance(Event::Copied(Copied::Failed(fault())), true);
    assert!(matches!(run.action(), Action::Discard(p) if p == b("/tmp/sprout-staging/7.feat")));
    run.advance(Event::Finished, true);
    run.advance(Event::Exists(true), true);
    assert_eq!(git_words(&run), vec!["worktree", "remove", "--force", "/r/.sprout/feat"]);
    run.advance(ok(""), true);
    match run.action() {
        Action::Tidy(ns, dest) => {
            assert_eq!(ns, b("/r/.sprout"));
            assert_eq!(dest, b("/r/.sprout/feat"));
        }
        _ => panic!(),
    }
    run.advance(Event::Finished, true);
    assert!(run.phase() == Phase::Aborted);
    // The interrupted clone is not warned about.
    assert_eq!(run.said().last().unwrap(), "aborted: removed partial worktree /r/.sprout/feat");
    assert_eq!(run.said().len(), 2);
    assert!(run.stdout().is_none());
}

#[test]
fn an_interrupt_after_the_last_clone_counts() {
    let mut run = at_stage("a\0");
    run.advance(Event::Copied(Copied::Fresh), true);
    assert!(run.phase() == Phase::AbortDiscard);
}

#[test]
fn an_interrupt_while_a_slot_is_found() {
    let mut run = at_add();
    run.advance(ok(""), false);
    run.advance(ok("a\0"), false);
    run.advance(Event::Reserved(Ok(b("/tmp/sprout-staging/7.feat"))), true);
    assert!(matches!(run.action(), Action::Discard(p) if p == b("/tmp/sprout-staging/7.feat")));

    let mut run = at_add();
    run.advance(ok(""), false);
    run.advance(no("interrupted"), true);
    assert!(matches!(run.action(), Action::Probe(_)));
}

#[test]
fn a_worktree_that_git_does_not_remove_is_wiped() {
    let mut run = at_add();
    run.advance(ok(""), true);
    run.advance(Event::Exists(true), true);
    run.advance(no("fatal: not a working tree"), true);
    assert!(matches!(run.action(), Action::Wipe(p) if p == b("/r/.sprout/feat")));
    run.advance(Event::Finished, true);
    assert_eq!(git_words(&run), vec!["worktree", "prune"]);
    run.advance(no(""), true);
    assert!(matches!(run.action(), Action::Tidy(_, _)));
    run.advance(Event::Finished, true);
    assert_eq!(run.exit_code(), Some(130));
}

#[test]
fn an_interrupt_during_setup_only_tidies_up() {
    // Each row of events ends in one that comes with the interrupt.
    let rows: Vec<Vec<Event>> = vec![
        vec![Event::Exists(false)],
        vec![Event::Exists(false), Event::Ready(Ok(()))],
        vec![Event::Exists(false), Event::Ready(Ok(())), Event::Ready(Err("no parent".to_string()))],
        vec![Event::Exists(false), Event::Ready(Ok(())), Event::Ready(Ok(())), no("")],
        vec![
            Event::Exists(false),
            Event::Ready(Ok(())),
            Event::Ready(Ok(())),
            no(""),
            Event::Configured(Err("failed to parse".to_string())),
        ],
        vec![
            Event::Exists(false),
            Event::Ready(Ok(())),
            Event::Ready(Ok(())),
            no(""),
            Event::Configured(Ok(None)),
            no(""),
        ],
        vec![
            Event::Exists(false),
            Event::Ready(Ok(())),
            Event::Ready(Ok(())),
            no(""),
            Event::Configured(Ok(None)),
            no(""),
            no(""),
        ],
    ];
    for row in rows {
        let mut run = creation(None);
        let last = row.len() - 1;
        for (i, event) in row.into_iter().enumerate() {
            run.advance(event, i == last);
        }
        assert!(matches!(run.action(), Action::Tidy(_, _)));
        run.advance(Event::Finished, false);
        assert_eq!(run.exit_code(), Some(130));
        assert_eq!(run.said(), &vec!["aborted".to_string()]);
    }
}

#[test]
fn an_interrupt_does_not_touch_a_worktree_that_was_there() {
    let mut run = creation(None);
    run.advance(Event::Exists(true), true);
    assert!(run.phase() == Phase::Failed);
    assert!(matches!(run.action(), Action::Stop));
}

#[test]
fn late_interrupts_take_everything_back() {
    // While the clones are moved.
    let mut run = at_stage("a\0b\0");
    run.advance(Event::Copied(Copied::Fresh), false);
    run.advance(Event::Copied(Copied::Fresh), false);
    run.advance(Event::Copied(Copied::Fresh), true);
    assert!(matches!(run.action(), Action::Discard(p) if p == b("/tmp/sprout-staging/7.feat")));
    run.advance(Event::Finished, true);
    run.advance(Event::Exists(true), true);
    assert_eq!(git_words(&run), vec!["worktree", "remove", "--force", "/r/.sprout/feat"]);
    run.advance(ok(""), true);
    run.advance(Event::Finished, true);
    assert_eq!(run.exit_code(), Some(130));
    assert!(run.stdout().is_none());

    // Once the staging directory is handed over, and at the patterns and the scrub.
    for late in 0..3 {
        let mut run = at_stage("a\0");
        run.advance(Event::Copied(Copied::Fresh), false);
        run.advance(Event::Copied(Copied::Fresh), false);
        run.advance(Event::Finished, late == 0);
        if late > 0 {
            run.advance(Event::Patterns(Ok(true)), late == 1);
        }
        if late > 1 {
            run.advance(Event::Scrubbed(Ok(1)), true);
        }
        assert!(run.phase() == Phase::AbortProbe, "{late}");
    }
}

#[test]
fn odd_events_change_nothing() {
    let mut run = at_stage("a\0");
    run.advance(Event::Exists(true), true);
    assert!(run.phase() == Phase::Stage);
    run.advance(Event::Copied(Copied::Fresh), false);
    run.advance(Event::Copied(Copied::Fresh), false);
    run.advance(Event::Finished, false);
    run.advance(Event::Patterns(Ok(false)), false);
    assert!(run.phase() == Phase::Done);
    // It is over: an interrupt comes too late.
    run.advance(Event::Finished, true);
    run.advance(Event::Exists(true), false);
    assert!(run.phase() == Phase::Done);
    assert_eq!(run.stdout(), Some("/r/.sprout/feat".to_string()));
}
