//! The commands that take no more than an answer or two.
use crate::bytes::contents;
use crate::create::{after, start};
use crate::repo::{git_passthrough, listed_names, namespace, repo_namespace, sprout_worktree_names, GitReply};
use crate::steps::{slice_in, Event};
use crate::text::{from_utf8_lossy, same_text, spaced, texts, shown};
use vstd::prelude::*;
use vstd::string::*;

verus! {

/// The shell integration: a function around the program that changes the
/// directory after the commands that print one, and completion for two shells,
/// which asks the program for the names to suggest.
pub const SHELL_INIT: &'static str = r#"sprout() {
  case "$1" in
    new|switch|main)
      local out
      out="$(command sprout "$@")" || return $?
      builtin cd "$out"
      ;;
    *)
      command sprout "$@"
      ;;
  esac
}

if [ -n "$ZSH_VERSION" ]; then
  if whence compdef >/dev/null 2>&1; then
    _sprout() {
      if (( CURRENT == 2 )); then
        compadd -- new switch rm list ls path main shell-init
        return
      fi
      case ${words[2]} in
        switch|rm|path)
          (( CURRENT == 3 )) || return
          local -a names
          names=(${(f)"$(command sprout __complete ${words[2]} 2>/dev/null)"})
          compadd -- $names
          ;;
      esac
    }
    compdef _sprout sprout
  fi
elif [ -n "$BASH_VERSION" ]; then
  _sprout() {
    local cur="${COMP_WORDS[COMP_CWORD]}"
    if [ "$COMP_CWORD" -eq 1 ]; then
      COMPREPLY=( $(compgen -W "new switch rm list ls path main shell-init" -- "$cur") )
      return
    fi
    case "${COMP_WORDS[1]}" in
      switch|rm|path)
        [ "$COMP_CWORD" -eq 2 ] || return
        local names
        names="$(command sprout __complete "${COMP_WORDS[1]}" 2>/dev/null)"
        COMPREPLY=( $(compgen -W "$names" -- "$cur") )
        ;;
    esac
  }
  complete -F _sprout sprout
fi
"#;

/// The shell integration.
pub fn cmd_shell_init() -> (r: &'static str)
    ensures
        r@ == SHELL_INIT@,
{
    SHELL_INIT
}

/// Asks git to show the worktrees of a repository to the user.
pub open spec fn list_words() -> Seq<Seq<char>> {
    seq!["worktree"@, "list"@]
}

/// The words of the git command that lists worktrees for the user.
pub fn list_args() -> (r: Vec<String>)
    ensures
        texts(r@) == list_words(),
{
    let r = vec!["worktree".to_owned(), "list".to_owned()];
    assert(texts(r@) =~= list_words());
    r
}

/// What comes of listing the worktrees, given whether git succeeded.
pub fn cmd_list(success: bool) -> (r: Result<(), String>)
    ensures
        match r {
            Ok(_) => success,
            Err(message) => !success && message@ == "git "@ + spaced(list_words()) + " failed"@,
        },
{
    git_passthrough(&list_args(), success)
}

/// The message for a worktree that is not there.
pub open spec fn missing_note(dest: Seq<u8>) -> Seq<char> {
    "no worktree at "@ + shown(dest)
}

/// The path of a worktree, given whether it is there.
pub fn cmd_path(dest: &[u8], exists: bool) -> (r: Result<String, String>)
    ensures
        match r {
            Ok(line) => exists && line@ == shown(dest@),
            Err(message) => !exists && message@ == missing_note(dest@),
        },
{
    if !exists {
        let mut message = "no worktree at ".to_owned();
        message.append(from_utf8_lossy(dest).as_str());
        return Err(message);
    }
    Ok(from_utf8_lossy(dest))
}

/// The path of the main worktree.
pub fn cmd_main(main_root: &[u8]) -> (r: String)
    ensures
        r@ == shown(main_root@),
{
    from_utf8_lossy(main_root)
}

/// What switching to a worktree comes down to.
pub enum Switch {
    /// It is there: its path, and a warning for a base that does not count.
    There(String, Option<String>),
    /// It is to be created.
    Create,
}

/// The warning that a base was asked for in vain, since the worktree is there.
pub open spec fn switch_note(name: Seq<char>, base: Seq<char>) -> Seq<char> {
    "warning: worktree '"@ + name + "' already exists — ignoring --base "@ + base
        + " (nothing to create; `sprout rm "@ + name + "` first to recreate it from "@ + base + ")"@
}

/// Whether `r` is what switching comes down to for a worktree that is there or
/// not.
pub open spec fn is_switch(name: Seq<char>, base: Option<Seq<char>>, dest: Seq<u8>, exists: bool, r: Switch) -> bool {
    match r {
        Switch::There(path, warning) => exists && path@ == shown(dest) && match base {
            Some(b) => warning matches Some(w) && w@ == switch_note(name, b),
            None => warning is None,
        },
        Switch::Create => !exists,
    }
}

/// What switching to a worktree comes down to, given whether it is there.
pub fn cmd_switch(name: &str, base: Option<&str>, dest: &[u8], exists: bool) -> (r: Switch)
    ensures
        is_switch(name@, slice_in(base), dest@, exists, r),
{
    if !exists {
        return Switch::Create;
    }
    let warning = match base {
        Some(b) => {
            let mut w = "warning: worktree '".to_owned();
            w.append(name);
            w.append("' already exists — ignoring --base ");
            w.append(b);
            w.append(" (nothing to create; `sprout rm ");
            w.append(name);
            w.append("` first to recreate it from ");
            w.append(b);
            w.append(")");
            Some(w)
        },
        None => None,
    };
    Switch::There(from_utf8_lossy(dest), warning)
}

/// Whether a command acts on a worktree that is there, so that there are names
/// to suggest.
pub open spec fn acts_on_worktree(target: Seq<char>) -> bool {
    target == "switch"@ || target == "rm"@ || target == "path"@
}

/// The names to suggest for a command: those of the worktrees, where it acts
/// on one. Outside of a repository there are none.
pub fn cmd_complete(target: &str, main_root: Option<&[u8]>, reply: &GitReply) -> (r: Vec<Vec<u8>>)
    ensures
        contents(r@) == (match main_root {
            Some(root) if acts_on_worktree(target@) && reply.success => listed_names(
                namespace(root@),
                reply.stdout@,
            ),
            _ => Seq::empty(),
        }),
{
    match main_root {
        Some(root) => if same_text(target, "switch") || same_text(target, "rm") || same_text(target, "path") {
            return sprout_worktree_names(repo_namespace(root).as_slice(), reply);
        },
        None => {},
    }
    let none: Vec<Vec<u8>> = Vec::new();
    assert(contents(none@) =~= Seq::empty());
    none
}

/// Switching to a worktree that was created leads to the path that creating it
/// printed.
pub proof fn lemma_switch_again(
    name: Seq<char>,
    base: Option<Seq<char>>,
    source: Seq<u8>,
    main_root: Seq<u8>,
    dest: Seq<u8>,
    events: Seq<(Event, bool)>,
    r: Switch,
)
    requires
        is_switch(name, base, dest, true, r),
    ensures
        r matches Switch::There(path, _) && path@ == shown(
            after(start(name, base, source, main_root, dest), events).dest,
        ),
    decreases events.len(),
{
    if events.len() > 0 {
        lemma_switch_again(name, base, source, main_root, dest, events.drop_last(), r);
    }
}

/// The texts of the commands, in full.
pub proof fn lemma_command_texts(name: Seq<char>, base: Seq<char>, dest: Seq<u8>)
    ensures
        list_words() == seq!["worktree"@, "list"@],
        missing_note(dest) == "no worktree at "@ + shown(dest),
        switch_note(name, base) == "warning: worktree '"@ + name + "' already exists — ignoring --base "@ + base
            + " (nothing to create; `sprout rm "@ + name + "` first to recreate it from "@ + base + ")"@,
{
}

/// Switching leads to the worktree where it is there, with a warning exactly
/// where a base was asked for; and creates it where it is not.
pub proof fn lemma_switch(name: Seq<char>, base: Option<Seq<char>>, dest: Seq<u8>, exists: bool, r: Switch)
    requires
        is_switch(name, base, dest, exists, r),
    ensures
        !exists <==> r is Create,
        exists ==> (r matches Switch::There(path, warning) && path@ == shown(dest) && (warning is Some <==> base
            is Some)),
        exists ==> (base matches Some(b) ==> (r matches Switch::There(_, Some(w)) && w@ == switch_note(name, b))),
{
}

/// The commands that act on a worktree that is there are three.
pub proof fn lemma_completed_commands(target: Seq<char>)
    ensures
        acts_on_worktree("switch"@),
        acts_on_worktree("rm"@),
        acts_on_worktree("path"@),
        target != "switch"@ && target != "rm"@ && target != "path"@ ==> !acts_on_worktree(target),
{
}

} // verus!
