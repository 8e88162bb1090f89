//! Commands that take no more than an answer or two.
use sprout::commands::{cmd_complete, cmd_list, cmd_main, cmd_path, cmd_shell_init, cmd_switch, list_args, Switch};
use sprout::repo::GitReply;

fn listing(text: &str) -> GitReply {
    GitReply { success: true, stdout: text.as_bytes().to_vec(), stderr: vec![] }
}

#[test]
fn shell_init_registers_completion_for_both_shells() {
    let init = cmd_shell_init();
    assert!(init.contains("compdef _sprout sprout"), "zsh completion missing");
    assert!(init.contains("complete -F _sprout sprout"), "bash completion missing");
    assert!(init.contains("__complete"), "completion must call back into the binary");
    assert!(init.starts_with("sprout() {\n  case \"$1\" in\n    new|switch|main)\n"));
    assert!(init.ends_with("fi\n"));
    assert!(init.contains("names=(${(f)\"$(command sprout __complete ${words[2]} 2>/dev/null)\"})"));
    assert!(!init.contains("{{"));
}

#[test]
fn listing_worktrees() {
    assert_eq!(list_args(), vec!["worktree".to_string(), "list".to_string()]);
    assert_eq!(cmd_list(true), Ok(()));
    assert_eq!(cmd_list(false), Err("git worktree list failed".to_string()));
}

#[test]
fn printing_paths() {
    assert_eq!(cmd_path(b"/r/.sprout/feat", true), Ok("/r/.sprout/feat".to_string()));
    assert_eq!(cmd_path(b"/r/.sprout/feat", false), Err("no worktree at /r/.sprout/feat".to_string()));
    assert_eq!(cmd_main(b"/r"), "/r");
}

#[test]
fn switching() {
    assert!(matches!(cmd_switch("feat", None, b"/r/.sprout/feat", false), Switch::Create));
    match cmd_switch("feat", None, b"/r/.sprout/feat", true) {
        Switch::There(path, None) => assert_eq!(path, "/r/.sprout/feat"),
        _ => panic!(),
    }
}

#[test]
fn explicit_base_on_existing_worktree_warns() {
    match cmd_switch("feat", Some("development"), b"/r/.sprout/feat", true) {
        Switch::There(_, Some(stderr)) => {
            assert!(stderr.contains("already exists") && stderr.contains("ignoring --base"));
            assert_eq!(
                stderr,
                "warning: worktree 'feat' already exists — ignoring --base development (nothing to create; \
                 `sprout rm feat` first to recreate it from development)"
            );
        }
        _ => panic!(),
    }
}

#[test]
fn completion_suggests_worktrees() {
    let git = listing("worktree /r\n\nworktree /r/.sprout/feat\n\nworktree /r/.sprout/a/b\n");
    for target in ["switch", "rm", "path"] {
        assert_eq!(cmd_complete(target, Some(b"/r"), &git), vec![b"feat".to_vec(), b"a/b".to_vec()]);
    }
    for target in ["new", "list", "", "switch "] {
        assert!(cmd_complete(target, Some(b"/r"), &git).is_empty());
    }
}

#[test]
fn complete_outside_a_repo_is_silent() {
    let git = listing("worktree /r/.sprout/feat\n");
    assert!(cmd_complete("switch", None, &git).is_empty());
    let failed = GitReply { success: false, stdout: b"worktree /r/.sprout/feat\n".to_vec(), stderr: vec![] };
    assert!(cmd_complete("switch", Some(b"/r"), &failed).is_empty());
}
