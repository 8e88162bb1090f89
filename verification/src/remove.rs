//! Removing a worktree and its branch.
//!
//! A `Removal` decides what is to be done next; whoever runs it does that and
//! reports what came of it. The worktree is renamed into a staging root, which
//! takes no time, and deleted later by the sweeper; where it cannot be renamed,
//! git removes it. The branch goes last, since git does not delete a branch
//! that is checked out.
use crate::path::joined;
use crate::repo::{branch_exists, branch_exists_args, branch_words, delete_branch_args, delete_words, git, git_failure, lemma_command_words, lemma_namespace_place, namespace, output_text, prune_args, prune_words, remove_args, remove_words, repo_namespace, status_args, status_words, GitReply};
use crate::steps::{bytes_in, Act, Action, Event};
use crate::text::{from_utf8_lossy, texts, trim, shown};
use vstd::prelude::*;
use vstd::slice::slice_to_vec;
use vstd::string::*;
use vstd::utf8::encode_utf8;

verus! {

/// How far the removal of a worktree has come.
#[derive(Clone, Copy, PartialEq, Eq, Structural)]
pub enum Phase {
    /// Whether the worktree is there is to be found out.
    Probe,
    /// Whether tracked files have changed is to be found out.
    Status,
    /// A free path in a staging root is to be found.
    Reserve,
    /// The worktree is to be renamed to that path.
    Trash,
    /// Git is to remove the worktree.
    Remove,
    /// Git is to forget the worktree that is gone.
    Prune,
    /// Directories that are now empty are to be removed.
    Tidy,
    /// The renamed worktree is to be handed to the sweeper.
    Discard,
    /// Whether the branch is there is to be found out.
    Branch,
    /// Git is to delete the branch.
    Delete,
    /// The worktree is gone.
    Done,
    /// The worktree is still there.
    Failed,
}

/// The removal of a worktree, as a model.
#[verifier::ext_equal]
pub struct Run {
    /// The name of the branch and of the worktree.
    pub name: Seq<char>,
    /// Whether changes and commits may be lost.
    pub force: bool,
    /// Whether the branch is to stay.
    pub keep_branch: bool,
    /// The root of the worktree that this was asked from.
    pub source: Seq<u8>,
    /// The root of the main repository.
    pub main_root: Seq<u8>,
    /// The path of the worktree.
    pub dest: Seq<u8>,
    pub phase: Phase,
    /// Where the worktree was renamed to, or is to be.
    pub slot: Option<Seq<u8>>,
    /// Whether git has said that no tracked file has changed.
    pub clean: bool,
    /// Whether the worktree is gone.
    pub gone: bool,
    /// What the user was told.
    pub said: Seq<Seq<char>>,
    /// Why it did not work out.
    pub error: Seq<char>,
}

/// The run with an error.
pub open spec fn fail(run: Run, error: Seq<char>) -> Run {
    Run { phase: Phase::Failed, error, ..run }
}

/// The run with something more said.
pub open spec fn say(run: Run, line: Seq<char>) -> Run {
    Run { said: run.said.push(line), ..run }
}

/// Whether the event is one that the phase waits for.
pub open spec fn fits(phase: Phase, event: Event) -> bool {
    match phase {
        Phase::Probe => event is Exists,
        Phase::Reserve => event is Reserved,
        Phase::Trash => event is Ready,
        Phase::Status | Phase::Remove | Phase::Prune | Phase::Branch | Phase::Delete => event is Git,
        Phase::Tidy | Phase::Discard => event is Finished,
        Phase::Done | Phase::Failed => false,
    }
}

/// The run once git has said what has changed.
pub open spec fn status_step(run: Run, reply: GitReply) -> Run {
    let dirty = output_text(reply.stdout@);
    if !reply.success {
        fail(run, git_failure(status_words(), reply.stderr@))
    } else if dirty.len() > 0 {
        fail(
            run,
            "worktree has uncommitted changes to tracked files (use --force to remove anyway):\n"@ + dirty,
        )
    } else {
        Run { clean: true, phase: Phase::Reserve, ..run }
    }
}

/// Where the run goes once nothing is left of the worktree.
pub open spec fn branch_phase(run: Run) -> Phase {
    if run.keep_branch {
        Phase::Done
    } else {
        Phase::Branch
    }
}

/// The run once the empty directories are gone.
pub open spec fn tidy_step(run: Run) -> Run {
    say(
        Run { phase: if run.slot is Some { Phase::Discard } else { branch_phase(run) }, ..run },
        "removed "@ + shown(run.dest),
    )
}

/// The run once git has tried to delete the branch. A branch that git keeps is
/// a matter for a warning: the worktree is gone all the same.
pub open spec fn delete_step(run: Run, reply: GitReply) -> Run {
    say(
        Run { phase: Phase::Done, ..run },
        if reply.success {
            "deleted branch "@ + run.name
        } else {
            "warning: kept branch '"@ + run.name + "':\n"@ + output_text(reply.stderr@)
        },
    )
}

/// The run after an event. What it does not wait for changes nothing.
pub open spec fn step(run: Run, event: Event) -> Run {
    match (run.phase, event) {
        (Phase::Probe, Event::Exists(found)) => if found {
            Run { phase: if run.force { Phase::Reserve } else { Phase::Status }, ..run }
        } else {
            fail(run, "no worktree at "@ + shown(run.dest))
        },
        (Phase::Status, Event::Git(reply)) => status_step(run, reply),
        (Phase::Reserve, Event::Reserved(Ok(p))) => Run { slot: Some(p@), phase: Phase::Trash, ..run },
        (Phase::Reserve, Event::Reserved(Err(_))) => Run { phase: Phase::Remove, ..run },
        (Phase::Trash, Event::Ready(Ok(_))) => Run { gone: true, phase: Phase::Prune, ..run },
        (Phase::Trash, Event::Ready(Err(_))) => Run { slot: None, phase: Phase::Remove, ..run },
        (Phase::Remove, Event::Git(reply)) => if reply.success {
            Run { gone: true, phase: Phase::Tidy, ..run }
        } else {
            fail(run, git_failure(remove_words(run.dest), reply.stderr@))
        },
        (Phase::Prune, Event::Git(_)) => Run { phase: Phase::Tidy, ..run },
        (Phase::Tidy, Event::Finished) => tidy_step(run),
        (Phase::Discard, Event::Finished) => Run { slot: None, phase: branch_phase(run), ..run },
        (Phase::Branch, Event::Git(reply)) => Run {
            phase: if reply.success { Phase::Delete } else { Phase::Done },
            ..run
        },
        (Phase::Delete, Event::Git(reply)) => delete_step(run, reply),
        _ => run,
    }
}

/// What is to be done next.
pub open spec fn act_of(run: Run) -> Act {
    match run.phase {
        Phase::Probe => Act::Probe(run.dest),
        Phase::Status => Act::Git(run.dest, status_words()),
        Phase::Reserve => Act::Reserve(namespace(run.main_root), run.name, false),
        Phase::Trash => Act::Rename(run.dest, run.slot->0),
        Phase::Remove => Act::Git(run.source, remove_words(run.dest)),
        Phase::Prune => Act::Git(run.main_root, prune_words()),
        Phase::Tidy => Act::Tidy(namespace(run.main_root), run.dest),
        Phase::Discard => Act::Discard(run.slot->0),
        Phase::Branch => Act::Git(run.main_root, branch_words(run.name)),
        Phase::Delete => Act::Git(run.main_root, delete_words(run.name, run.force)),
        Phase::Done | Phase::Failed => Act::Stop,
    }
}

/// What holds of every run.
pub open spec fn valid(run: Run) -> bool {
    match run.phase {
        Phase::Probe | Phase::Status => !run.gone && run.slot is None,
        Phase::Reserve | Phase::Remove => !run.gone && run.slot is None && (run.force || run.clean),
        Phase::Trash => !run.gone && run.slot is Some && (run.force || run.clean),
        Phase::Prune | Phase::Discard => run.gone && run.slot is Some && (run.force || run.clean),
        Phase::Tidy => run.gone && (run.force || run.clean),
        Phase::Branch | Phase::Delete => {
            &&& run.gone
            &&& run.slot is None
            &&& !run.keep_branch
            &&& run.force || run.clean
        },
        Phase::Done => run.gone && run.slot is None && (run.force || run.clean),
        Phase::Failed => !run.gone && run.slot is None,
    }
}

/// The start of a run.
pub open spec fn start(
    name: Seq<char>,
    force: bool,
    keep_branch: bool,
    source: Seq<u8>,
    main_root: Seq<u8>,
    dest: Seq<u8>,
) -> Run {
    Run {
        name,
        force,
        keep_branch,
        source,
        main_root,
        dest,
        phase: Phase::Probe,
        slot: None,
        clean: false,
        gone: false,
        said: Seq::empty(),
        error: Seq::empty(),
    }
}

/// What holds of every run goes on holding.
pub proof fn lemma_step_valid(run: Run, event: Event)
    requires
        valid(run),
    ensures
        valid(step(run, event)),
{
}

/// The run after a row of events.
pub open spec fn after(run: Run, events: Seq<Event>) -> Run
    decreases events.len(),
{
    if events.len() == 0 {
        run
    } else {
        step(after(run, events.drop_last()), events.last())
    }
}

/// Whether an action takes the worktree away.
pub open spec fn takes_away(run: Run, act: Act) -> bool {
    ||| act matches Act::Rename(from, _) && from == run.dest
    ||| act == Act::Git(run.source, remove_words(run.dest))
}

/// Whether an action deletes the branch.
pub open spec fn deletes_branch(run: Run, act: Act) -> bool {
    act matches Act::Git(_, words) && (words == delete_words(run.name, true) || words == delete_words(
        run.name,
        false,
    ))
}

proof fn lemma_after_kept(run: Run, events: Seq<Event>)
    requires
        valid(run),
    ensures
        valid(after(run, events)),
        after(run, events).force == run.force,
        after(run, events).keep_branch == run.keep_branch,
        after(run, events).name == run.name,
        after(run, events).dest == run.dest,
        after(run, events).source == run.source,
        after(run, events).main_root == run.main_root,
    decreases events.len(),
{
    if events.len() > 0 {
        lemma_after_kept(run, events.drop_last());
        lemma_step_valid(after(run, events.drop_last()), events.last());
    }
}

proof fn lemma_words_apart(name: Seq<char>, other: Seq<char>, dest: Seq<u8>, force: bool)
    ensures
        delete_words(name, force) != status_words(),
        delete_words(name, force) != remove_words(dest),
        delete_words(name, force) != prune_words(),
        delete_words(name, force) != branch_words(other),
        delete_words(name, true) != delete_words(name, false),
        branch_words(name) != remove_words(dest),
        prune_words() != remove_words(dest),
        status_words() != remove_words(dest),
{
    reveal_strlit("branch");
    reveal_strlit("status");
    reveal_strlit("worktree");
    reveal_strlit("show-ref");
    reveal_strlit("-d");
    reveal_strlit("-D");
    assert("branch"@.len() == 6);
    assert("status"@[0] == 's' && "branch"@[0] == 'b');
    assert(delete_words(name, force)[0] == "branch"@);
    assert(status_words()[0] == "status"@);
    assert(remove_words(dest)[0] == "worktree"@);
    assert(prune_words()[0] == "worktree"@);
    assert(branch_words(other)[0] == "show-ref"@);
    assert(branch_words(name)[0] == "show-ref"@);
    assert("show-ref"@[0] == 's' && "worktree"@[0] == 'w');
    assert(delete_words(name, true)[1] == "-D"@);
    assert(delete_words(name, false)[1] == "-d"@);
    assert("-D"@[1] == 'D' && "-d"@[1] == 'd');
    assert(prune_words().len() == 2 && remove_words(dest).len() == 4);
}

/// Whatever happens on the way: the worktree is taken away only where changes
/// may be lost or git has said that there are none; the branch is deleted only
/// once the worktree is gone, never where it is to stay, and by force only
/// where that was asked for. A removal that failed has taken nothing away.
pub proof fn lemma_every_removal(
    name: Seq<char>,
    force: bool,
    keep_branch: bool,
    source: Seq<u8>,
    main_root: Seq<u8>,
    dest: Seq<u8>,
    events: Seq<Event>,
)
    ensures
        ({
            let run = after(start(name, force, keep_branch, source, main_root, dest), events);
            &&& valid(run)
            &&& takes_away(run, act_of(run)) ==> force || run.clean
            &&& deletes_branch(run, act_of(run)) ==> run.gone && !keep_branch
            &&& act_of(run) == Act::Git(main_root, delete_words(name, true)) ==> force
            &&& run.phase is Failed ==> !run.gone
            &&& run.phase is Done ==> run.gone
        }),
{
    let first = start(name, force, keep_branch, source, main_root, dest);
    let run = after(first, events);
    lemma_after_kept(first, events);
    lemma_words_apart(name, name, dest, true);
    lemma_words_apart(name, name, dest, false);
}

/// The worktree is gone only once it was taken away, and where it was, it is.
pub proof fn lemma_gone_by_taking(run: Run, event: Event)
    requires
        valid(run),
    ensures
        step(run, event).gone && !run.gone ==> takes_away(run, act_of(run)),
        run.phase is Trash && (event matches Event::Ready(Ok(_))) ==> step(run, event).gone,
        run.phase is Remove && (event matches Event::Git(reply) && reply.success) ==> step(run, event).gone,
{
}

/// Git knows that the worktree is gone before anything else is done about it:
/// git removed it, or was told to forget it.
pub proof fn lemma_forgotten_first(run: Run, event: Event)
    requires
        run.phase !is Tidy,
        step(run, event).phase is Tidy,
    ensures
        act_of(run) == Act::Git(run.source, remove_words(run.dest)) || act_of(run) == Act::Git(
            run.main_root,
            prune_words(),
        ),
{
}

/// Whether the empty directories have been seen to.
pub open spec fn is_tidied(phase: Phase) -> bool {
    phase is Discard || phase is Branch || phase is Delete || phase is Done
}

/// A removal goes on past the empty directories only by having them removed:
/// those between the worktrees and the path, and that of the worktrees.
pub proof fn lemma_removed_is_tidied(run: Run, event: Event)
    requires
        !is_tidied(run.phase),
        is_tidied(step(run, event).phase),
    ensures
        act_of(run) == Act::Tidy(namespace(run.main_root), run.dest),
        event is Finished,
        step(run, event).said == run.said.push("removed "@ + shown(run.dest)),
{
}

/// The run once the empty directories are gone, and the renamed worktree was
/// handed over where there is one.
pub open spec fn cleared(run: Run) -> Run {
    let tidied = step(run, Event::Finished);
    if tidied.phase is Discard {
        step(tidied, Event::Finished)
    } else {
        tidied
    }
}

/// The branch goes with its worktree, unless it is to stay: once the worktree
/// is gone, git is asked whether the branch is there; where it is, git is told
/// to delete it, by force where that was asked for; and the user is told what
/// came of it.
pub proof fn lemma_branch_follows(run: Run, found: GitReply, deleted: GitReply)
    requires
        valid(run),
        run.phase is Tidy,
    ensures
        ({
            let asking = cleared(run);
            let told = step(asking, Event::Git(found));
            let end = step(told, Event::Git(deleted));
            if run.keep_branch {
                asking.phase is Done
            } else {
                &&& act_of(asking) == Act::Git(run.main_root, branch_words(run.name))
                &&& !found.success ==> told.phase is Done
                &&& found.success ==> act_of(told) == Act::Git(run.main_root, delete_words(run.name, run.force))
                &&& found.success ==> end.phase is Done && end.said == asking.said.push(
                    if deleted.success {
                        "deleted branch "@ + run.name
                    } else {
                        "warning: kept branch '"@ + run.name + "':\n"@ + output_text(deleted.stderr@)
                    },
                )
            }
        }),
{
}

/// A removal is not done before it has seen to the branch: it ends where the
/// branch is to stay, where git knows of no such branch, or once git was told to
/// delete it.
pub proof fn lemma_done_by_branch(run: Run, event: Event)
    requires
        valid(run),
        run.phase !is Done,
        step(run, event).phase is Done,
    ensures
        ({
            ||| run.keep_branch
            ||| act_of(run) == Act::Git(run.main_root, branch_words(run.name)) && (event matches Event::Git(reply)
                && !reply.success)
            ||| act_of(run) == Act::Git(run.main_root, delete_words(run.name, run.force))
        }),
{
}

/// A removal fails only where there is no worktree, where git does not say what
/// has changed or says that something has, and where git does not remove what
/// could not be renamed. By force, nobody asks what has changed. In any other
/// case it goes on; and since every removal ends, the worktree goes.
pub proof fn lemma_fails_only_for_cause(run: Run, event: Event)
    requires
        fits(run.phase, event),
    ensures
        step(run, event).phase is Failed <==> (match (run.phase, event) {
            (Phase::Probe, Event::Exists(found)) => !found,
            (Phase::Status, Event::Git(reply)) => !reply.success || output_text(reply.stdout@).len() > 0,
            (Phase::Remove, Event::Git(reply)) => !reply.success,
            _ => false,
        }),
        step(run, event).phase is Status ==> !run.force,
{
}

/// A worktree with changes to tracked files is not removed unless by force.
pub proof fn lemma_dirty_refused(run: Run, reply: GitReply, rest: Seq<Event>)
    requires
        valid(run),
        run.phase is Status,
        reply.success,
        output_text(reply.stdout@).len() > 0,
    ensures
        ({
            let end = after(step(run, Event::Git(reply)), rest);
            &&& end.phase is Failed
            &&& !end.gone
            &&& act_of(end) is Stop
        }),
    decreases rest.len(),
{
    if rest.len() > 0 {
        lemma_dirty_refused(run, reply, rest.drop_last());
    }
}

/// Once the worktree is gone, nothing that follows is a failure: neither a
/// branch that git keeps nor anything else.
pub proof fn lemma_gone_is_success(run: Run, rest: Seq<Event>)
    requires
        valid(run),
        run.gone,
    ensures
        after(run, rest).gone,
        after(run, rest).phase !is Failed,
    decreases rest.len(),
{
    if rest.len() > 0 {
        lemma_gone_is_success(run, rest.drop_last());
        lemma_after_kept(run, rest.drop_last());
    }
}

/// A worktree that was renamed away is not left behind: the path it was
/// renamed to is only given up by handing it to the sweeper, and a removal
/// that is over has given it up. A path that the worktree could not be renamed
/// to holds nothing.
pub proof fn lemma_trash_swept(run: Run, event: Event)
    requires
        valid(run),
    ensures
        ({
            let next = step(run, event);
            &&& run.gone && run.slot is Some && next.slot is None ==> act_of(run) == Act::Discard(run.slot->0)
            &&& run.gone && next.slot is Some ==> next.slot == run.slot
            &&& next.phase is Done || next.phase is Failed ==> next.slot is None
        }),
{
    lemma_step_valid(run, event);
}

/// The place of a phase on the way, counted from the end.
pub open spec fn rank(phase: Phase) -> nat {
    match phase {
        Phase::Probe => 10,
        Phase::Status => 9,
        Phase::Reserve => 8,
        Phase::Trash => 7,
        Phase::Remove => 6,
        Phase::Prune => 5,
        Phase::Tidy => 4,
        Phase::Discard => 3,
        Phase::Branch => 2,
        Phase::Delete => 1,
        Phase::Done | Phase::Failed => 0,
    }
}

/// Every removal ends: each event that it waits for brings it nearer to its
/// end.
pub proof fn lemma_progress(run: Run, event: Event)
    requires
        fits(run.phase, event),
    ensures
        rank(step(run, event).phase) < rank(run.phase),
{
}

/// What a removal asks for, word by word. Git is asked about changes in the
/// worktree itself, wherever the removal was asked for; it removes the worktree
/// from where that was; and it sees to what it knows of worktrees and branches
/// in the main repository.
pub proof fn lemma_asks(run: Run)
    requires
        valid(run),
    ensures
        run.phase is Probe ==> act_of(run) == Act::Probe(run.dest),
        run.phase is Status ==> act_of(run) == Act::Git(
            run.dest,
            seq!["status"@, "--porcelain"@, "--untracked-files=no"@],
        ),
        run.phase is Reserve ==> act_of(run) == Act::Reserve(
            joined(run.main_root, encode_utf8(".sprout"@)),
            run.name,
            false,
        ),
        run.phase is Trash ==> (run.slot matches Some(path) && act_of(run) == Act::Rename(run.dest, path)),
        run.phase is Remove ==> act_of(run) == Act::Git(
            run.source,
            seq!["worktree"@, "remove"@, "--force"@, shown(run.dest)],
        ),
        run.phase is Prune ==> act_of(run) == Act::Git(run.main_root, seq!["worktree"@, "prune"@]),
        run.phase is Tidy ==> act_of(run) == Act::Tidy(joined(run.main_root, encode_utf8(".sprout"@)), run.dest),
        run.phase is Discard ==> (run.slot matches Some(path) && act_of(run) == Act::Discard(path)),
        run.phase is Branch ==> act_of(run) == Act::Git(
            run.main_root,
            seq!["show-ref"@, "--verify"@, "--quiet"@, "refs/heads/"@ + run.name],
        ),
        run.phase is Delete && run.force ==> act_of(run) == Act::Git(
            run.main_root,
            seq!["branch"@, "-D"@, run.name],
        ),
        run.phase is Delete && !run.force ==> act_of(run) == Act::Git(
            run.main_root,
            seq!["branch"@, "-d"@, run.name],
        ),
        run.phase is Done || run.phase is Failed ==> act_of(run) == Act::Stop,
{
    lemma_command_words(run.name, run.dest, run.name, run.force);
    lemma_namespace_place(run.main_root);
}

/// A worktree counts as clean only where git, asked in the worktree itself for
/// the tracked files that have changed, succeeded and named none; and where it
/// did, the worktree does.
pub proof fn lemma_clean_by_status(run: Run, event: Event)
    requires
        valid(run),
    ensures
        step(run, event).clean && !run.clean ==> {
            &&& act_of(run) == Act::Git(run.dest, seq!["status"@, "--porcelain"@, "--untracked-files=no"@])
            &&& event matches Event::Git(reply) && reply.success && output_text(reply.stdout@).len() == 0
        },
        run.clean ==> step(run, event).clean,
        run.phase is Status ==> (event matches Event::Git(reply) ==> (step(run, event).clean || run.clean <==> run.clean
            || (reply.success && output_text(reply.stdout@).len() == 0))),
{
    lemma_asks(run);
}

/// What a removal was started for stays as it is, and what was said stays said.
pub proof fn lemma_stays(run: Run, event: Event)
    ensures
        ({
            let next = step(run, event);
            &&& next.name == run.name
            &&& next.force == run.force
            &&& next.keep_branch == run.keep_branch
            &&& next.source == run.source
            &&& next.main_root == run.main_root
            &&& next.dest == run.dest
            &&& run.gone ==> next.gone
            &&& next.said.len() == run.said.len() || next.said.len() == run.said.len() + 1
            &&& next.said.take(run.said.len() as int) == run.said
        }),
{
    assert(step(run, event).said.take(run.said.len() as int) =~= run.said);
}

/// What is recorded on the way is what was reported of the action that was asked
/// for: the path to rename to, that the worktree is gone, what the user is told,
/// and why it did not work out.
#[verifier::spinoff_prover]
#[verifier::rlimit(40)]
pub proof fn lemma_recorded(run: Run, event: Event)
    requires
        valid(run),
    ensures
        ({
            let next = step(run, event);
            let ns = joined(run.main_root, encode_utf8(".sprout"@));
            let remove = seq!["worktree"@, "remove"@, "--force"@, shown(run.dest)];
            let status = seq!["status"@, "--porcelain"@, "--untracked-files=no"@];
            &&& next.slot is Some && next.slot != run.slot ==> {
                &&& act_of(run) == Act::Reserve(ns, run.name, false)
                &&& event matches Event::Reserved(Ok(path)) && next.slot == Some(path@)
            }
            &&& next.gone && !run.gone ==> {
                ||| act_of(run) == Act::Git(run.source, remove) && (event matches Event::Git(reply) && reply.success)
                ||| act_of(run) == Act::Rename(run.dest, run.slot->0) && (event matches Event::Ready(Ok(_)))
            }
            &&& next.said != run.said ==> {
                ||| act_of(run) == Act::Tidy(ns, run.dest) && next.said == run.said.push(
                    "removed "@ + shown(run.dest),
                )
                ||| act_of(run) == Act::Git(
                    run.main_root,
                    seq!["branch"@, if run.force { "-D"@ } else { "-d"@ }, run.name],
                ) && (event matches Event::Git(reply) && next.said == run.said.push(
                    if reply.success {
                        "deleted branch "@ + run.name
                    } else {
                        "warning: kept branch '"@ + run.name + "':\n"@ + output_text(reply.stderr@)
                    },
                ))
            }
            &&& next.phase is Failed && run.phase !is Failed ==> {
                ||| act_of(run) == Act::Probe(run.dest) && event == Event::Exists(false) && next.error
                    == "no worktree at "@ + shown(run.dest)
                ||| act_of(run) == Act::Git(run.dest, status) && (event matches Event::Git(reply) && !reply.success
                    && next.error == git_failure(status, reply.stderr@))
                ||| act_of(run) == Act::Git(run.dest, status) && (event matches Event::Git(reply) && reply.success
                    && output_text(reply.stdout@).len() > 0 && next.error
                    == "worktree has uncommitted changes to tracked files (use --force to remove anyway):\n"@
                    + output_text(reply.stdout@))
                ||| act_of(run) == Act::Git(run.source, remove) && (event matches Event::Git(reply)
                    && !reply.success && next.error == git_failure(remove, reply.stderr@))
            }
            &&& next.phase !is Failed ==> next.error == run.error
        }),
{
    lemma_asks(run);
}

/// What is asked for next, given what was asked for and what came of it.
#[verifier::spinoff_prover]
#[verifier::rlimit(40)]
pub proof fn lemma_goes_on(run: Run, event: Event)
    requires
        valid(run),
    ensures
        ({
            let next = step(run, event);
            let act = act_of(next);
            let ns = joined(run.main_root, encode_utf8(".sprout"@));
            let reserve = Act::Reserve(ns, run.name, false);
            let remove = Act::Git(run.source, seq!["worktree"@, "remove"@, "--force"@, shown(run.dest)]);
            let tidy = Act::Tidy(ns, run.dest);
            let ask = Act::Git(run.main_root, seq!["show-ref"@, "--verify"@, "--quiet"@, "refs/heads/"@ + run.name]);
            let delete = Act::Git(
                run.main_root,
                seq!["branch"@, if run.force { "-D"@ } else { "-d"@ }, run.name],
            );
            match (run.phase, event) {
                (Phase::Probe, Event::Exists(found)) => {
                    &&& !found ==> act == Act::Stop
                    &&& found && run.force ==> act == reserve
                    &&& found && !run.force ==> act == Act::Git(
                        run.dest,
                        seq!["status"@, "--porcelain"@, "--untracked-files=no"@],
                    )
                },
                (Phase::Status, Event::Git(reply)) => if reply.success && output_text(reply.stdout@).len() == 0 {
                    act == reserve
                } else {
                    act == Act::Stop
                },
                (Phase::Reserve, Event::Reserved(outcome)) => match outcome {
                    Ok(path) => act == Act::Rename(run.dest, path@),
                    Err(_) => act == remove,
                },
                (Phase::Trash, Event::Ready(outcome)) => match outcome {
                    Ok(_) => act == Act::Git(run.main_root, seq!["worktree"@, "prune"@]) && next.slot == run.slot,
                    Err(_) => act == remove,
                },
                (Phase::Remove, Event::Git(reply)) => act == (if reply.success { tidy } else { Act::Stop }),
                (Phase::Prune, Event::Git(_)) => act == tidy && next.slot == run.slot,
                (Phase::Tidy, Event::Finished) => {
                    &&& next.said == run.said.push("removed "@ + shown(run.dest))
                    &&& run.slot matches Some(path) ==> act == Act::Discard(path)
                    &&& run.slot is None && run.keep_branch ==> act == Act::Stop
                    &&& run.slot is None && !run.keep_branch ==> act == ask
                },
                (Phase::Discard, Event::Finished) => act == (if run.keep_branch { Act::Stop } else { ask }),
                (Phase::Branch, Event::Git(reply)) => act == (if reply.success { delete } else { Act::Stop }),
                (Phase::Delete, Event::Git(_)) => act == Act::Stop && next.said.len() == run.said.len() + 1,
                _ => next == run,
            }
        }),
{
    lemma_step_valid(run, event);
    lemma_asks(run);
    lemma_asks(step(run, event));
    lemma_stays(run, event);
}

/// That git succeeded and named nothing.
pub open spec fn named_nothing() -> spec_fn(Event) -> bool {
    |e: Event| e matches Event::Git(reply) && reply.success && output_text(reply.stdout@).len() == 0
}

/// That git succeeded, or that it did not.
pub open spec fn git_said(yes: bool) -> spec_fn(Event) -> bool {
    |e: Event| e matches Event::Git(reply) && reply.success == yes
}

/// That git ran.
pub open spec fn git_ran() -> spec_fn(Event) -> bool {
    |e: Event| e is Git
}

/// That something was prepared.
pub open spec fn was_ready() -> spec_fn(Event) -> bool {
    |e: Event| e matches Event::Ready(Ok(_))
}

/// That something was done.
pub open spec fn was_finished() -> spec_fn(Event) -> bool {
    |e: Event| e is Finished
}

/// Whether, in the course of a removal, an action was asked for and something
/// good came of it.
pub open spec fn reported(run: Run, events: Seq<Event>, act: Act, good: spec_fn(Event) -> bool) -> bool {
    exists|j: int|
        0 <= j < events.len() && #[trigger] act_of(after(run, events.take(j))) == act && good(events[j])
}

proof fn lemma_reported_more(run: Run, events: Seq<Event>, act: Act, good: spec_fn(Event) -> bool)
    requires
        events.len() > 0,
    ensures
        reported(run, events.drop_last(), act, good) ==> reported(run, events, act, good),
        act_of(after(run, events.drop_last())) == act && good(events.last()) ==> reported(run, events, act, good),
{
    let before = events.drop_last();
    if reported(run, before, act, good) {
        let j = choose|j: int|
            0 <= j < before.len() && #[trigger] act_of(after(run, before.take(j))) == act && good(before[j]);
        assert(before.take(j) =~= events.take(j));
        assert(act_of(after(run, events.take(j))) == act && good(events[j]));
    }
    if act_of(after(run, before)) == act && good(events.last()) {
        let j = events.len() - 1;
        assert(before =~= events.take(j));
        assert(act_of(after(run, events.take(j))) == act && good(events[j]));
    }
}

/// Whether git reported that no tracked file has changed in the worktree, when
/// it was asked there.
pub open spec fn found_clean(run: Run, events: Seq<Event>) -> bool {
    reported(
        run,
        events,
        Act::Git(run.dest, seq!["status"@, "--porcelain"@, "--untracked-files=no"@]),
        named_nothing(),
    )
}

/// Whether git removed the worktree.
pub open spec fn removed_by_git(run: Run, events: Seq<Event>) -> bool {
    reported(
        run,
        events,
        Act::Git(run.source, seq!["worktree"@, "remove"@, "--force"@, shown(run.dest)]),
        git_said(true),
    )
}

/// Whether the worktree was renamed to a path.
pub open spec fn renamed_to(run: Run, events: Seq<Event>, path: Seq<u8>) -> bool {
    reported(run, events, Act::Rename(run.dest, path), was_ready())
}

/// Whether git was told to forget worktrees that are gone.
pub open spec fn pruned(run: Run, events: Seq<Event>) -> bool {
    reported(run, events, Act::Git(run.main_root, seq!["worktree"@, "prune"@]), git_ran())
}

/// Whether a path was handed to the sweeper.
pub open spec fn discarded(run: Run, events: Seq<Event>, path: Seq<u8>) -> bool {
    reported(run, events, Act::Discard(path), was_finished())
}

/// Whether the directories that are empty without the worktree were removed.
pub open spec fn tidied(run: Run, events: Seq<Event>) -> bool {
    reported(
        run,
        events,
        Act::Tidy(joined(run.main_root, encode_utf8(".sprout"@)), run.dest),
        was_finished(),
    )
}

/// Whether git said that the branch is there, or that it is not.
pub open spec fn branch_found(run: Run, events: Seq<Event>, found: bool) -> bool {
    reported(
        run,
        events,
        Act::Git(run.main_root, seq!["show-ref"@, "--verify"@, "--quiet"@, "refs/heads/"@ + run.name]),
        git_said(found),
    )
}

/// Whether git was told to delete the branch, by force where that was asked for.
pub open spec fn branch_deleted(run: Run, events: Seq<Event>) -> bool {
    reported(
        run,
        events,
        Act::Git(run.main_root, seq!["branch"@, if run.force { "-D"@ } else { "-d"@ }, run.name]),
        git_ran(),
    )
}

/// What must have been reported for a removal to have come as far as it has.
spec fn is_earned(first: Run, events: Seq<Event>) -> bool {
    let run = after(first, events);
    let over = run.phase is Branch || run.phase is Delete || run.phase is Done;
    let forgotten = run.phase is Tidy || run.phase is Discard || over;
    &&& run.clean ==> found_clean(first, events)
    &&& run.gone && run.slot is Some ==> renamed_to(first, events, run.slot->0)
    &&& run.gone && run.slot is None ==> removed_by_git(first, events) || exists|path: Seq<u8>| #[trigger]
        renamed_to(first, events, path) && discarded(first, events, path)
    &&& forgotten ==> removed_by_git(first, events) || pruned(first, events)
    &&& run.phase is Discard || over ==> tidied(first, events)
    &&& run.phase is Delete ==> branch_found(first, events, true)
    &&& run.phase is Done ==> {
        ||| run.keep_branch
        ||| branch_found(first, events, false)
        ||| branch_found(first, events, true) && branch_deleted(first, events)
    }
}

#[verifier::spinoff_prover]
#[verifier::rlimit(60)]
proof fn lemma_earned(first: Run, events: Seq<Event>)
    requires
        valid(first),
        first.phase is Probe,
        !first.clean,
    ensures
        valid(after(first, events)),
        is_earned(first, events),
    decreases events.len(),
{
    if events.len() > 0 {
        let less = events.drop_last();
        let run = after(first, less);
        let event = events.last();
        lemma_earned(first, less);
        lemma_after_kept(first, less);
        lemma_step_valid(run, event);
        lemma_asks(run);
        let ns = joined(first.main_root, encode_utf8(".sprout"@));
        lemma_reported_more(
            first,
            events,
            Act::Git(first.dest, seq!["status"@, "--porcelain"@, "--untracked-files=no"@]),
            named_nothing(),
        );
        lemma_reported_more(
            first,
            events,
            Act::Git(first.source, seq!["worktree"@, "remove"@, "--force"@, shown(first.dest)]),
            git_said(true),
        );
        lemma_reported_more(
            first,
            events,
            Act::Git(first.main_root, seq!["worktree"@, "prune"@]),
            git_ran(),
        );
        lemma_reported_more(first, events, Act::Tidy(ns, first.dest), was_finished());
        lemma_reported_more(
            first,
            events,
            Act::Git(first.main_root, seq!["branch"@, if first.force { "-D"@ } else { "-d"@ }, first.name]),
            git_ran(),
        );
        assert forall|found: bool| branch_found(first, less, found) implies branch_found(first, events, found) by {
            lemma_reported_more(
                first,
                events,
                Act::Git(first.main_root, seq!["show-ref"@, "--verify"@, "--quiet"@, "refs/heads/"@ + first.name]),
                git_said(found),
            );
        }
        assert forall|path: Seq<u8>| renamed_to(first, less, path) implies #[trigger] renamed_to(
            first,
            events,
            path,
        ) by {
            lemma_reported_more(
                first,
                events,
                Act::Rename(first.dest, path),
                was_ready(),
            );
        }
        assert forall|path: Seq<u8>| discarded(first, less, path) implies #[trigger] discarded(
            first,
            events,
            path,
        ) by {
            lemma_reported_more(first, events, Act::Discard(path), was_finished());
        }
        match (run.phase, event) {
            (Phase::Trash, Event::Ready(Ok(_))) => {
                lemma_reported_more(
                    first,
                    events,
                    Act::Rename(first.dest, run.slot->0),
                    was_ready(),
                );
            },
            (Phase::Discard, Event::Finished) => {
                lemma_reported_more(first, events, Act::Discard(run.slot->0), was_finished());
                assert(renamed_to(first, events, run.slot->0));
            },
            (Phase::Branch, Event::Git(reply)) => {
                lemma_reported_more(
                    first,
                    events,
                    Act::Git(
                        first.main_root,
                        seq!["show-ref"@, "--verify"@, "--quiet"@, "refs/heads/"@ + first.name],
                    ),
                    git_said(reply.success),
                );
                assert(branch_found(first, events, reply.success));
            },
            _ => {},
        }
        if run.gone && run.slot is None && exists|path: Seq<u8>| #[trigger]
            renamed_to(first, less, path) && discarded(first, less, path) {
            let path = choose|path: Seq<u8>| #[trigger]
                renamed_to(first, less, path) && discarded(first, less, path);
            assert(renamed_to(first, events, path) && discarded(first, events, path));
        }
    }
}

/// The worktree is taken away only by force, or after git, asked in the worktree
/// itself, has said that no tracked file has changed.
pub proof fn lemma_taken_when_clean(
    name: Seq<char>,
    force: bool,
    keep_branch: bool,
    source: Seq<u8>,
    main_root: Seq<u8>,
    dest: Seq<u8>,
    events: Seq<Event>,
)
    ensures
        ({
            let first = start(name, force, keep_branch, source, main_root, dest);
            let act = act_of(after(first, events));
            (act matches Act::Rename(from, _) && from == dest) || act == Act::Git(
                source,
                seq!["worktree"@, "remove"@, "--force"@, shown(dest)],
            ) ==> force || found_clean(first, events)
        }),
{
    let first = start(name, force, keep_branch, source, main_root, dest);
    lemma_earned(first, events);
    lemma_every_removal(name, force, keep_branch, source, main_root, dest, events);
    lemma_after_kept(first, events);
    lemma_command_words(name, dest, name, force);
}

/// A removal that is done has done all of it: the worktree was removed by git, or
/// was renamed to a path that went to the sweeper, and then git was told to
/// forget it; the empty directories were removed; and unless the branch was to
/// stay, git either said that there is none or was told to delete it.
pub proof fn lemma_done_is_earned(
    name: Seq<char>,
    force: bool,
    keep_branch: bool,
    source: Seq<u8>,
    main_root: Seq<u8>,
    dest: Seq<u8>,
    events: Seq<Event>,
)
    ensures
        ({
            let first = start(name, force, keep_branch, source, main_root, dest);
            after(first, events).phase is Done ==> {
                &&& force || found_clean(first, events)
                &&& removed_by_git(first, events) || exists|path: Seq<u8>| #[trigger]
                    renamed_to(first, events, path) && discarded(first, events, path)
                &&& removed_by_git(first, events) || pruned(first, events)
                &&& tidied(first, events)
                &&& {
                    ||| keep_branch
                    ||| branch_found(first, events, false)
                    ||| branch_found(first, events, true) && branch_deleted(first, events)
                }
            }
        }),
{
    let first = start(name, force, keep_branch, source, main_root, dest);
    lemma_earned(first, events);
    lemma_after_kept(first, events);
}

/// The state of the removal of a worktree.
struct State {
    name: String,
    force: bool,
    keep_branch: bool,
    source: Vec<u8>,
    main_root: Vec<u8>,
    dest: Vec<u8>,
    phase: Phase,
    slot: Option<Vec<u8>>,
    clean: bool,
    gone: bool,
    said: Vec<String>,
    error: String,
}

impl View for State {
    type V = Run;

    closed spec fn view(&self) -> Run {
        Run {
            name: self.name@,
            force: self.force,
            keep_branch: self.keep_branch,
            source: self.source@,
            main_root: self.main_root@,
            dest: self.dest@,
            phase: self.phase,
            slot: bytes_in(self.slot),
            clean: self.clean,
            gone: self.gone,
            said: texts(self.said@),
            error: self.error@,
        }
    }
}

impl State {
    fn new(
        name: &str,
        force: bool,
        keep_branch: bool,
        source: &[u8],
        main_root: &[u8],
        dest: &[u8],
    ) -> (r: State)
        ensures
            r@ == start(name@, force, keep_branch, source@, main_root@, dest@),
            valid(r@),
    {
        let r = State {
            name: name.to_owned(),
            force,
            keep_branch,
            source: slice_to_vec(source),
            main_root: slice_to_vec(main_root),
            dest: slice_to_vec(dest),
            phase: Phase::Probe,
            slot: None,
            clean: false,
            gone: false,
            said: Vec::new(),
            error: String::new(),
        };
        assert(r@ =~= start(name@, force, keep_branch, source@, main_root@, dest@));
        r
    }

    fn fail(&mut self, error: String)
        ensures
            final(self)@ == fail(old(self)@, error@),
    {
        self.phase = Phase::Failed;
        self.error = error;
    }

    fn say(&mut self, line: String)
        ensures
            final(self)@ == say(old(self)@, line@),
    {
        let ghost l = line@;
        self.said.push(line);
        assert(texts(self.said@) =~= texts(old(self).said@).push(l));
    }

    fn slot_copy(&self) -> (r: Vec<u8>)
        requires
            self@.slot is Some,
        ensures
            r@ == self@.slot->0,
    {
        match &self.slot {
            Some(slot) => slice_to_vec(slot.as_slice()),
            None => Vec::new(),
        }
    }

    fn action(&self) -> (r: Action)
        requires
            valid(self@),
        ensures
            r@ == act_of(self@),
    {
        let dest: &[u8] = self.dest.as_slice();
        let main_root: &[u8] = self.main_root.as_slice();
        match self.phase {
            Phase::Probe => Action::Probe(slice_to_vec(dest)),
            Phase::Status => Action::Git(slice_to_vec(dest), status_args()),
            Phase::Reserve => Action::Reserve(repo_namespace(main_root), self.name.as_str().to_owned(), false),
            Phase::Trash => Action::Rename(slice_to_vec(dest), self.slot_copy()),
            Phase::Remove => Action::Git(slice_to_vec(self.source.as_slice()), remove_args(dest)),
            Phase::Prune => Action::Git(slice_to_vec(main_root), prune_args()),
            Phase::Tidy => Action::Tidy(repo_namespace(main_root), slice_to_vec(dest)),
            Phase::Discard => Action::Discard(self.slot_copy()),
            Phase::Branch => Action::Git(slice_to_vec(main_root), branch_exists_args(self.name.as_str())),
            Phase::Delete => Action::Git(
                slice_to_vec(main_root),
                delete_branch_args(self.name.as_str(), self.force),
            ),
            Phase::Done | Phase::Failed => Action::Stop,
        }
    }

    fn learn_status(&mut self, reply: &GitReply)
        ensures
            final(self)@ == status_step(old(self)@, *reply),
    {
        match git(&status_args(), reply) {
            Err(message) => self.fail(message),
            Ok(dirty) => {
                if dirty.as_str().is_empty() {
                    self.clean = true;
                    self.phase = Phase::Reserve;
                } else {
                    let mut message =
                        "worktree has uncommitted changes to tracked files (use --force to remove anyway):\n".to_owned();
                    message.append(dirty.as_str());
                    self.fail(message);
                }
            },
        }
    }

    fn turn_to_branch(&mut self)
        ensures
            final(self)@ == (Run { phase: branch_phase(old(self)@), ..old(self)@ }),
    {
        self.phase = if self.keep_branch { Phase::Done } else { Phase::Branch };
    }

    fn learn_tidied(&mut self)
        ensures
            final(self)@ == tidy_step(old(self)@),
    {
        let mut line = "removed ".to_owned();
        line.append(from_utf8_lossy(self.dest.as_slice()).as_str());
        match &self.slot {
            Some(_) => {
                self.phase = Phase::Discard;
            },
            None => self.turn_to_branch(),
        }
        self.say(line);
    }

    fn learn_deleted(&mut self, reply: &GitReply)
        ensures
            final(self)@ == delete_step(old(self)@, *reply),
    {
        self.phase = Phase::Done;
        let mut line = String::new();
        if reply.success {
            line.append("deleted branch ");
            line.append(self.name.as_str());
            assert(line@ =~= "deleted branch "@ + self.name@);
        } else {
            line.append("warning: kept branch '");
            line.append(self.name.as_str());
            line.append("':\n");
            line.append(trim(from_utf8_lossy(reply.stderr.as_slice()).as_str()).as_str());
            assert(line@ =~= "warning: kept branch '"@ + self.name@ + "':\n"@ + output_text(reply.stderr@));
        }
        self.say(line);
    }

    fn advance(&mut self, event: Event)
        requires
            valid(old(self)@),
        ensures
            final(self)@ == step(old(self)@, event),
            valid(final(self)@),
    {
        proof {
            lemma_step_valid(self@, event);
        }
        match (self.phase, event) {
            (Phase::Probe, Event::Exists(found)) => {
                if found {
                    self.phase = if self.force { Phase::Reserve } else { Phase::Status };
                } else {
                    let mut message = "no worktree at ".to_owned();
                    message.append(from_utf8_lossy(self.dest.as_slice()).as_str());
                    self.fail(message);
                }
            },
            (Phase::Status, Event::Git(reply)) => self.learn_status(&reply),
            (Phase::Reserve, Event::Reserved(outcome)) => match outcome {
                Ok(path) => {
                    self.slot = Some(path);
                    self.phase = Phase::Trash;
                },
                Err(_) => {
                    self.phase = Phase::Remove;
                },
            },
            (Phase::Trash, Event::Ready(outcome)) => match outcome {
                Ok(_) => {
                    self.gone = true;
                    self.phase = Phase::Prune;
                },
                Err(_) => {
                    self.slot = None;
                    self.phase = Phase::Remove;
                },
            },
            (Phase::Remove, Event::Git(reply)) => match git(&remove_args(self.dest.as_slice()), &reply) {
                Ok(_) => {
                    self.gone = true;
                    self.phase = Phase::Tidy;
                },
                Err(message) => self.fail(message),
            },
            (Phase::Prune, Event::Git(_)) => {
                self.phase = Phase::Tidy;
            },
            (Phase::Tidy, Event::Finished) => self.learn_tidied(),
            (Phase::Discard, Event::Finished) => {
                self.slot = None;
                self.turn_to_branch();
            },
            (Phase::Branch, Event::Git(reply)) => {
                self.phase = if branch_exists(&reply) { Phase::Delete } else { Phase::Done };
            },
            (Phase::Delete, Event::Git(reply)) => self.learn_deleted(&reply),
            _ => {},
        }
    }
}

/// The removal of a worktree.
pub struct Removal {
    state: State,
}

impl View for Removal {
    type V = Run;

    closed spec fn view(&self) -> Run {
        self.state@
    }
}

impl Removal {
    #[verifier::type_invariant]
    closed spec fn is_sound(self) -> bool {
        valid(self.state@)
    }

    /// Starts on the removal of the worktree `name` at `dest`.
    pub fn new(
        name: &str,
        force: bool,
        keep_branch: bool,
        source: &[u8],
        main_root: &[u8],
        dest: &[u8],
    ) -> (r: Removal)
        ensures
            r@ == start(name@, force, keep_branch, source@, main_root@, dest@),
    {
        Removal { state: State::new(name, force, keep_branch, source, main_root, dest) }
    }

    /// How far the removal has come.
    pub fn phase(&self) -> (r: Phase)
        ensures
            r == self@.phase,
    {
        self.state.phase
    }

    /// What the user is to be told, from the beginning on.
    pub fn said(&self) -> (r: &Vec<String>)
        ensures
            texts(r@) == self@.said,
    {
        &self.state.said
    }

    /// Why it did not work out; empty unless it failed.
    pub fn error(&self) -> (r: &str)
        ensures
            r@ == self@.error,
    {
        self.state.error.as_str()
    }

    /// What is to be done next.
    pub fn action(&self) -> (r: Action)
        ensures
            r@ == act_of(self@),
    {
        proof {
            use_type_invariant(self);
        }
        self.state.action()
    }

    /// Takes note of what came of the last action.
    pub fn advance(&mut self, event: Event)
        ensures
            final(self)@ == step(old(self)@, event),
            valid(final(self)@),
    {
        proof {
            use_type_invariant(&*self);
        }
        let mut state = State::new("", false, false, &[], &[], &[]);
        std::mem::swap(&mut state, &mut self.state);
        state.advance(event);
        self.state = state;
    }
}

} // verus!
