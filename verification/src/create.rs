//! Building a worktree.
//!
//! A `Creation` decides what is to be done next; whoever runs it does that and
//! reports what came of it. Ignored state is cloned into a staging directory
//! first, and moved into the worktree once all of it is there. An interrupt at
//! any point hands the staging directory to the sweeper and takes the worktree
//! back out.
use crate::bytes::contents;
use crate::clonefile::{clone_note, clone_warning, Copied};
use crate::config::{config_file, FILE};
use crate::path::{has_parent, join, joined, parent};
use crate::repo::{add_existing_args, add_new_args, add_words, branch_exists, branch_exists_args, branch_words, default_base, entries, git, git_failure, ignored_entries, ignored_entries_args, in_namespace, lemma_worktrees_not_entries, listing_words, mainline, namespace, output_text, prune_args, prune_words, remove_args, remove_words, repo_namespace, GitReply};
use crate::scrub::IGNORE_FILE;
use crate::steps::{bytes_in, slice_in, text_in, Act, Action, Event};
use crate::text::{decimal, from_utf8_lossy, texts, to_decimal, shown};
use vstd::prelude::*;
use vstd::slice::slice_to_vec;
use vstd::string::*;
use vstd::utf8::encode_utf8;

verus! {

/// How far the building of a worktree has come.
#[derive(Clone, Copy, PartialEq, Eq, Structural)]
pub enum Phase {
    /// Whether the worktree is there already is to be found out.
    Probe,
    /// Git is to be kept from seeing the worktrees.
    Exclude,
    /// The directory that the worktree belongs in is to be made.
    Parent,
    /// Whether the branch is there already is to be found out.
    Branch,
    /// The config is to be read.
    Config,
    /// Whether there is a branch `main` is to be found out.
    Mainline,
    /// Whether there is a branch `master` is to be found out.
    Master,
    /// Git is to add the worktree.
    Add,
    /// Git is to list what it ignores.
    Entries,
    /// A staging directory is to be made.
    Reserve,
    /// The entries are being cloned into the staging directory.
    Stage,
    /// The clones are being moved into the worktree.
    Promote,
    /// What is left of the staging directory is to be discarded.
    Clear,
    /// The scrub patterns are to be read.
    Patterns,
    /// The entries that were moved into the worktree are being scrubbed.
    Scrub,
    /// The worktree is there.
    Done,
    /// Interrupted: the staging directory is to be discarded.
    AbortDiscard,
    /// Interrupted: whether there is a worktree yet is to be found out.
    AbortProbe,
    /// Interrupted: git is to remove the worktree.
    AbortRemove,
    /// Interrupted: git did not, so that its directory is to be deleted.
    AbortWipe,
    /// Interrupted: git is to forget the worktree that is gone.
    AbortPrune,
    /// Interrupted: directories that are now empty are to be removed.
    AbortTidy,
    /// Interrupted before there was a worktree: directories that were made for
    /// it and are empty are to be removed.
    AbortClean,
    /// Interrupted, and nothing is left.
    Aborted,
    /// It did not work out.
    Failed,
}

/// The building of a worktree, as a model.
#[verifier::ext_equal]
pub struct Run {
    /// The name of the branch and of the worktree.
    pub name: Seq<char>,
    /// The base that was asked for.
    pub base: Option<Seq<char>>,
    /// The root of the worktree to clone from.
    pub source: Seq<u8>,
    /// The root of the main repository.
    pub main_root: Seq<u8>,
    /// The path of the new worktree.
    pub dest: Seq<u8>,
    pub phase: Phase,
    /// The base to cut a new branch from; none for a branch that was there.
    pub from: Option<Seq<char>>,
    /// Whether the branch was there.
    pub existing: bool,
    /// What git ignores.
    pub entries: Seq<Seq<u8>>,
    /// The staging directory.
    pub slot: Option<Seq<u8>>,
    /// The entries that were cloned into the staging directory.
    pub staged: Seq<Seq<u8>>,
    /// The number of entries that the current phase is done with.
    pub next: int,
    /// The entries that were moved into the worktree.
    pub moved: Seq<Seq<u8>>,
    /// The number of entries that were moved into the worktree.
    pub cloned: int,
    /// The number of entries that were there already.
    pub present: int,
    /// The number of entries that there was a warning about.
    pub failed: int,
    /// The number of paths that were scrubbed.
    pub scrubbed: int,
    /// What the user was told.
    pub said: Seq<Seq<char>>,
    /// Why it did not work out.
    pub error: Seq<char>,
}

/// The base ref for a new branch: the one that was asked for, else the
/// configured one, else the mainline.
pub open spec fn resolved(
    flag: Option<Seq<char>>,
    configured: Option<Seq<char>>,
    main: bool,
    master: bool,
) -> Seq<char> {
    match (flag, configured) {
        (Some(b), _) => b,
        (None, Some(b)) => b,
        (None, None) => mainline(main, master),
    }
}

/// The warning that a base was asked for in vain, since the branch is there.
pub open spec fn ignored_base_note(name: Seq<char>, base: Seq<char>) -> Seq<char> {
    "warning: branch '"@ + name + "' already exists — ignoring --base "@ + base
        + " (--base only applies when creating a new branch; use a new name, or delete '"@ + name
        + "' to recreate it from "@ + base + ")"@
}

/// The warning that the configured base does not count, since the branch is
/// there.
pub open spec fn configured_base_note(name: Seq<char>, base: Seq<char>) -> Seq<char> {
    "warning: branch '"@ + name + "' already exists — checking it out as-is, not from the configured base '"@
        + base + "' (a branch's base is fixed at creation; use a new name, or delete '"@ + name
        + "' to recut it from '"@ + base + "')"@
}

/// The run with an error.
pub open spec fn fail(run: Run, error: Seq<char>) -> Run {
    Run { phase: Phase::Failed, error, ..run }
}

/// The run with something more said.
pub open spec fn say(run: Run, line: Seq<char>) -> Run {
    Run { said: run.said.push(line), ..run }
}

/// Whether an interrupt in this phase takes everything back: it does until the
/// run is over or is being taken back already.
pub open spec fn is_building(phase: Phase) -> bool {
    !is_over(phase) && !is_backing_out(phase)
}

/// Whether git has not been told to add the worktree yet.
pub open spec fn is_setup(phase: Phase) -> bool {
    ||| phase is Probe
    ||| phase is Exclude
    ||| phase is Parent
    ||| phase is Branch
    ||| phase is Config
    ||| phase is Mainline
    ||| phase is Master
}

/// Whether the run takes everything back.
pub open spec fn is_backing_out(phase: Phase) -> bool {
    ||| phase is AbortDiscard
    ||| phase is AbortProbe
    ||| phase is AbortRemove
    ||| phase is AbortWipe
    ||| phase is AbortPrune
    ||| phase is AbortTidy
    ||| phase is AbortClean
    ||| phase is Aborted
}

/// Whether the run is over.
pub open spec fn is_over(phase: Phase) -> bool {
    phase is Done || phase is Aborted || phase is Failed
}

/// Whether the event is one that the phase waits for.
pub open spec fn fits(phase: Phase, event: Event) -> bool {
    match phase {
        Phase::Probe | Phase::AbortProbe => event is Exists,
        Phase::Exclude | Phase::Parent => event is Ready,
        Phase::Branch | Phase::Mainline | Phase::Master | Phase::Add | Phase::Entries => event is Git,
        Phase::AbortRemove | Phase::AbortPrune => event is Git,
        Phase::Config => event is Configured,
        Phase::Reserve => event is Reserved,
        Phase::Stage | Phase::Promote => event is Copied,
        Phase::Patterns => event is Patterns,
        Phase::Scrub => event is Scrubbed,
        Phase::Clear | Phase::AbortDiscard | Phase::AbortWipe | Phase::AbortTidy | Phase::AbortClean => {
            event is Finished
        },
        Phase::Done | Phase::Aborted | Phase::Failed => false,
    }
}

/// The staging directory once the event is known.
pub open spec fn slot_after(run: Run, event: Event) -> Option<Seq<u8>> {
    match (run.phase, event) {
        (Phase::Reserve, Event::Reserved(Ok(p))) => Some(p@),
        (Phase::Clear, Event::Finished) => None,
        _ => run.slot,
    }
}

/// The run on its way back. Before git was told to add the worktree there is
/// only to tidy up; after that the staging directory goes first, if there is
/// one.
pub open spec fn backed_out(run: Run, slot: Option<Seq<u8>>) -> Run {
    Run {
        slot,
        phase: if is_setup(run.phase) {
            Phase::AbortClean
        } else if slot is Some {
            Phase::AbortDiscard
        } else {
            Phase::AbortProbe
        },
        ..run
    }
}

/// Whether the event takes the run back: there was an interrupt, and it is not
/// one of finding the worktree there at the start, which is refused in any
/// case.
pub open spec fn turns_back(run: Run, event: Event, interrupted: bool) -> bool {
    &&& interrupted
    &&& is_building(run.phase)
    &&& fits(run.phase, event)
    &&& !(run.phase is Probe && event == Event::Exists(true))
}

/// The run once git has said whether the branch is there.
pub open spec fn branch_step(run: Run, found: bool) -> Run {
    match run.base {
        Some(b) => if found {
            say(Run { existing: true, phase: Phase::Add, ..run }, ignored_base_note(run.name, b))
        } else {
            Run { existing: false, from: Some(resolved(Some(b), None, false, false)), phase: Phase::Add, ..run }
        },
        None => Run { existing: found, phase: Phase::Config, ..run },
    }
}

/// The run once the config is known.
pub open spec fn config_step(run: Run, configured: Option<Seq<char>>) -> Run {
    match configured {
        Some(b) => if run.existing {
            say(Run { phase: Phase::Add, ..run }, configured_base_note(run.name, b))
        } else {
            Run { from: Some(resolved(None, Some(b), false, false)), phase: Phase::Add, ..run }
        },
        None => Run { phase: if run.existing { Phase::Add } else { Phase::Mainline }, ..run },
    }
}

/// The run once git has tried to add the worktree.
pub open spec fn add_step(run: Run, reply: GitReply) -> Run {
    let out = output_text(reply.stdout@);
    if !reply.success {
        fail(run, git_failure(add_words(run.name, run.dest, run.from), reply.stderr@))
    } else if out.len() > 0 {
        say(Run { phase: Phase::Entries, ..run }, out)
    } else {
        Run { phase: Phase::Entries, ..run }
    }
}

/// The run once git has listed what it ignores.
pub open spec fn entries_step(run: Run, reply: GitReply) -> Run {
    if !reply.success {
        fail(run, "git ls-files failed:\n"@ + output_text(reply.stderr@))
    } else {
        let list = entries(reply.stdout@);
        Run {
            entries: list,
            phase: if list.len() == 0 { Phase::Patterns } else { Phase::Reserve },
            ..run
        }
    }
}

/// The run once one more entry was cloned into the staging directory. After
/// the last, the clones are moved.
pub open spec fn stage_step(run: Run, copied: Copied) -> Run {
    let rel = run.entries[run.next];
    let counted = match copied {
        Copied::Fresh => Run { staged: run.staged.push(rel), ..run },
        Copied::Present => Run { present: run.present + 1, ..run },
        Copied::Failed(fault) => say(Run { failed: run.failed + 1, ..run }, clone_note(rel, fault)),
        Copied::Fatal(m) => fail(run, m@),
    };
    if copied is Fatal {
        counted
    } else if run.next + 1 < run.entries.len() {
        Run { next: run.next + 1, ..counted }
    } else {
        Run {
            next: 0,
            phase: if counted.staged.len() == 0 { Phase::Clear } else { Phase::Promote },
            ..counted
        }
    }
}

/// The run once one more clone was moved into the worktree.
pub open spec fn promote_step(run: Run, copied: Copied) -> Run {
    let rel = run.staged[run.next];
    let counted = match copied {
        Copied::Fresh => Run { cloned: run.cloned + 1, moved: run.moved.push(rel), ..run },
        Copied::Present => Run { present: run.present + 1, ..run },
        Copied::Failed(fault) => say(Run { failed: run.failed + 1, ..run }, clone_note(rel, fault)),
        Copied::Fatal(m) => fail(run, m@),
    };
    if copied is Fatal {
        counted
    } else if run.next + 1 < run.staged.len() {
        Run { next: run.next + 1, ..counted }
    } else {
        Run { next: 0, phase: Phase::Clear, ..counted }
    }
}

/// A count and a number, or the largest number where they come to more.
pub open spec fn capped(a: int, n: u64) -> int {
    if a + n > u64::MAX {
        u64::MAX as int
    } else {
        a + n
    }
}

/// The run once one more of the entries that were moved was scrubbed.
pub open spec fn scrub_step(run: Run, n: u64) -> Run {
    let counted = Run { scrubbed: capped(run.scrubbed, n), ..run };
    if run.next + 1 < run.moved.len() {
        Run { next: run.next + 1, ..counted }
    } else {
        Run { phase: Phase::Done, ..counted }
    }
}

/// The run after an event. What it does not wait for changes nothing.
pub open spec fn step(run: Run, event: Event, interrupted: bool) -> Run {
    if turns_back(run, event, interrupted) {
        backed_out(run, slot_after(run, event))
    } else {
        match (run.phase, event) {
            (Phase::Probe, Event::Exists(found)) => if found {
                fail(run, "worktree already exists at "@ + shown(run.dest))
            } else {
                Run { phase: Phase::Exclude, ..run }
            },
            (Phase::Exclude, Event::Ready(Ok(_))) => if has_parent(run.dest) {
                Run { phase: Phase::Parent, ..run }
            } else {
                fail(run, "destination has no parent"@)
            },
            (Phase::Exclude, Event::Ready(Err(m))) => fail(run, m@),
            (Phase::Parent, Event::Ready(Ok(_))) => Run { phase: Phase::Branch, ..run },
            (Phase::Parent, Event::Ready(Err(m))) => fail(run, m@),
            (Phase::Branch, Event::Git(reply)) => branch_step(run, reply.success),
            (Phase::Config, Event::Configured(Ok(Some(b)))) => config_step(run, Some(b@)),
            (Phase::Config, Event::Configured(Ok(None))) => config_step(run, None),
            (Phase::Config, Event::Configured(Err(m))) => fail(run, m@),
            (Phase::Mainline, Event::Git(reply)) => if reply.success {
                Run { from: Some(resolved(None, None, true, false)), phase: Phase::Add, ..run }
            } else {
                Run { phase: Phase::Master, ..run }
            },
            (Phase::Master, Event::Git(reply)) => Run {
                from: Some(resolved(None, None, false, reply.success)),
                phase: Phase::Add,
                ..run
            },
            (Phase::Add, Event::Git(reply)) => add_step(run, reply),
            (Phase::Entries, Event::Git(reply)) => entries_step(run, reply),
            (Phase::Reserve, Event::Reserved(Ok(p))) => Run { slot: Some(p@), phase: Phase::Stage, ..run },
            (Phase::Reserve, Event::Reserved(Err(m))) => fail(run, m@),
            (Phase::Stage, Event::Copied(copied)) => stage_step(run, copied),
            (Phase::Promote, Event::Copied(copied)) => promote_step(run, copied),
            (Phase::Clear, Event::Finished) => Run { slot: None, phase: Phase::Patterns, ..run },
            (Phase::Patterns, Event::Patterns(Ok(found))) => Run {
                phase: if found && run.moved.len() > 0 { Phase::Scrub } else { Phase::Done },
                ..run
            },
            (Phase::Patterns, Event::Patterns(Err(m))) => fail(run, m@),
            (Phase::Scrub, Event::Scrubbed(Ok(n))) => scrub_step(run, n),
            (Phase::Scrub, Event::Scrubbed(Err(m))) => fail(run, m@),
            (Phase::AbortDiscard, Event::Finished) => Run { slot: None, phase: Phase::AbortProbe, ..run },
            (Phase::AbortProbe, Event::Exists(found)) => Run {
                phase: if found { Phase::AbortRemove } else { Phase::AbortClean },
                ..run
            },
            (Phase::AbortRemove, Event::Git(reply)) => Run {
                phase: if reply.success { Phase::AbortTidy } else { Phase::AbortWipe },
                ..run
            },
            (Phase::AbortWipe, Event::Finished) => Run { phase: Phase::AbortPrune, ..run },
            (Phase::AbortPrune, Event::Git(_)) => Run { phase: Phase::AbortTidy, ..run },
            (Phase::AbortTidy, Event::Finished) => say(
                Run { phase: Phase::Aborted, ..run },
                "aborted: removed partial worktree "@ + shown(run.dest),
            ),
            (Phase::AbortClean, Event::Finished) => say(Run { phase: Phase::Aborted, ..run }, "aborted"@),
            _ => run,
        }
    }
}

/// What is to be done next.
pub open spec fn act_of(run: Run) -> Act {
    let ns = namespace(run.main_root);
    match run.phase {
        Phase::Probe | Phase::AbortProbe => Act::Probe(run.dest),
        Phase::Exclude => Act::Exclude(run.main_root),
        Phase::Parent => Act::MakeParent(run.dest),
        Phase::Branch => Act::Git(run.source, branch_words(run.name)),
        Phase::Config => Act::Config(joined(ns, encode_utf8(FILE@))),
        Phase::Mainline => Act::Git(run.source, branch_words("main"@)),
        Phase::Master => Act::Git(run.source, branch_words("master"@)),
        Phase::Add => Act::Git(run.source, add_words(run.name, run.dest, run.from)),
        Phase::Entries => Act::Git(run.source, listing_words()),
        Phase::Reserve => Act::Reserve(ns, run.name, true),
        Phase::Stage => {
            let rel = run.entries[run.next];
            Act::Clone(rel, joined(run.source, rel), joined(run.slot->0, rel))
        },
        Phase::Promote => {
            let rel = run.staged[run.next];
            Act::Move(rel, joined(run.slot->0, rel), joined(run.dest, rel))
        },
        Phase::Clear | Phase::AbortDiscard => Act::Discard(run.slot->0),
        Phase::Patterns => Act::Patterns(joined(run.source, encode_utf8(IGNORE_FILE@))),
        Phase::Scrub => Act::Scrub(run.moved[run.next]),
        Phase::AbortRemove => Act::Git(run.source, remove_words(run.dest)),
        Phase::AbortWipe => Act::Wipe(run.dest),
        Phase::AbortPrune => Act::Git(run.source, prune_words()),
        Phase::AbortTidy | Phase::AbortClean => Act::Tidy(ns, run.dest),
        Phase::Done | Phase::Aborted | Phase::Failed => Act::Stop,
    }
}

/// The number of entries that are accounted for.
pub open spec fn accounted(run: Run) -> int {
    run.cloned + run.present + run.failed
}

/// What holds of every run.
pub open spec fn valid(run: Run) -> bool {
    &&& 0 <= run.next
    &&& 0 <= run.cloned
    &&& 0 <= run.present
    &&& 0 <= run.failed
    &&& 0 <= run.scrubbed <= u64::MAX
    &&& run.staged.len() <= run.entries.len()
    &&& run.existing ==> run.from is None
    &&& forall|i: int| 0 <= i < run.entries.len() ==> !in_namespace(#[trigger] run.entries[i])
    &&& forall|i: int| 0 <= i < run.staged.len() ==> run.entries.contains(#[trigger] run.staged[i])
    &&& forall|i: int| 0 <= i < run.moved.len() ==> run.entries.contains(#[trigger] run.moved[i])
    &&& run.moved.len() == run.cloned
    &&& match run.phase {
        Phase::Probe | Phase::Exclude | Phase::Parent | Phase::Branch => run.from is None && !run.existing,
        Phase::Config => run.from is None,
        Phase::Mainline | Phase::Master => run.from is None && !run.existing,
        Phase::Add => run.existing || run.from is Some,
        _ => true,
    }
    &&& match run.phase {
        Phase::Probe | Phase::Exclude | Phase::Parent | Phase::Branch | Phase::Config | Phase::Mainline
        | Phase::Master | Phase::Add | Phase::Entries => {
            &&& run.entries.len() == 0
            &&& run.slot is None
            &&& run.next == 0
            &&& accounted(run) == 0
        },
        Phase::Reserve => {
            &&& run.slot is None
            &&& run.next == 0
            &&& run.next < run.entries.len()
            &&& run.staged.len() == 0
            &&& accounted(run) == 0
        },
        Phase::Stage => {
            &&& run.slot is Some
            &&& run.next < run.entries.len()
            &&& run.cloned == 0
            &&& run.staged.len() + accounted(run) == run.next
        },
        Phase::Promote => {
            &&& run.slot is Some
            &&& run.next < run.staged.len()
            &&& run.staged.len() - run.next + accounted(run) == run.entries.len()
        },
        Phase::Clear => run.slot is Some && run.next == 0 && accounted(run) == run.entries.len(),
        Phase::Patterns => run.slot is None && run.next == 0 && accounted(run) == run.entries.len(),
        Phase::Scrub => {
            &&& run.slot is None
            &&& run.next < run.moved.len()
            &&& accounted(run) == run.entries.len()
        },
        Phase::Done => run.slot is None && accounted(run) == run.entries.len(),
        Phase::AbortDiscard => run.slot is Some,
        Phase::AbortProbe | Phase::AbortRemove | Phase::AbortWipe | Phase::AbortPrune | Phase::AbortTidy
        | Phase::AbortClean | Phase::Aborted => run.slot is None,
        Phase::Failed => true,
    }
}

/// The start of a run.
pub open spec fn start(name: Seq<char>, base: Option<Seq<char>>, source: Seq<u8>, main_root: Seq<u8>, dest: Seq<u8>) -> Run {
    Run {
        name,
        base,
        source,
        main_root,
        dest,
        phase: Phase::Probe,
        from: None,
        existing: false,
        entries: Seq::empty(),
        slot: None,
        staged: Seq::empty(),
        next: 0,
        moved: Seq::empty(),
        cloned: 0,
        present: 0,
        failed: 0,
        scrubbed: 0,
        said: Seq::empty(),
        error: Seq::empty(),
    }
}

proof fn lemma_entries_step_valid(run: Run, reply: GitReply)
    requires
        valid(run),
        run.phase is Entries,
    ensures
        valid(entries_step(run, reply)),
{
    lemma_worktrees_not_entries(reply.stdout@);
}

proof fn lemma_stage_step_valid(run: Run, copied: Copied)
    requires
        valid(run),
        run.phase is Stage,
    ensures
        valid(stage_step(run, copied)),
{
}

proof fn lemma_promote_step_valid(run: Run, copied: Copied)
    requires
        valid(run),
        run.phase is Promote,
    ensures
        valid(promote_step(run, copied)),
{
}

/// What holds of every run goes on holding.
pub proof fn lemma_step_valid(run: Run, event: Event, interrupted: bool)
    requires
        valid(run),
    ensures
        valid(step(run, event, interrupted)),
{
    match (run.phase, event) {
        (Phase::Entries, Event::Git(reply)) => lemma_entries_step_valid(run, reply),
        (Phase::Stage, Event::Copied(copied)) => lemma_stage_step_valid(run, copied),
        (Phase::Promote, Event::Copied(copied)) => lemma_promote_step_valid(run, copied),
        _ => {},
    }
}

/// The run after a row of events, each with whether there was an interrupt.
pub open spec fn after(run: Run, events: Seq<(Event, bool)>) -> Run
    decreases events.len(),
{
    if events.len() == 0 {
        run
    } else {
        step(after(run, events.drop_last()), events.last().0, events.last().1)
    }
}

proof fn lemma_after_valid(run: Run, events: Seq<(Event, bool)>)
    requires
        valid(run),
    ensures
        valid(after(run, events)),
    decreases events.len(),
{
    if events.len() > 0 {
        lemma_after_valid(run, events.drop_last());
        lemma_step_valid(after(run, events.drop_last()), events.last().0, events.last().1);
    }
}

/// Whatever happens on the way: a run stays with what it was started for;
/// entries are cloned from the source into the staging directory, and from there
/// moved into the worktree; nothing is moved before all entries were tried; a
/// run that came through has accounted for every entry; the worktrees themselves
/// are never cloned; and only entries that were cloned and moved into the
/// worktree are scrubbed.
pub proof fn lemma_every_run(
    name: Seq<char>,
    base: Option<Seq<char>>,
    source: Seq<u8>,
    main_root: Seq<u8>,
    dest: Seq<u8>,
    events: Seq<(Event, bool)>,
)
    ensures
        ({
            let run = after(start(name, base, source, main_root, dest), events);
            &&& valid(run)
            &&& run.name == name && run.base == base
            &&& run.source == source && run.main_root == main_root && run.dest == dest
            &&& rank(run.phase) > rank(Phase::Promote) ==> run.cloned == 0
            &&& act_of(run) is Move ==> run.staged.len() - run.next + accounted(run) == run.entries.len()
            &&& run.phase is Done ==> accounted(run) == run.entries.len()
            &&& act_of(run) matches Act::Clone(rel, from, to) ==> {
                &&& !in_namespace(rel)
                &&& run.entries.contains(rel)
                &&& from == joined(source, rel)
                &&& run.slot matches Some(slot) && to == joined(slot, rel)
            }
            &&& act_of(run) matches Act::Move(rel, from, to) ==> {
                &&& run.staged.contains(rel)
                &&& run.slot matches Some(slot) && from == joined(slot, rel)
                &&& to == joined(dest, rel)
            }
            &&& act_of(run) matches Act::Scrub(rel) ==> run.moved.contains(rel) && run.entries.contains(rel)
        }),
{
    let first = start(name, base, source, main_root, dest);
    lemma_after_valid(first, events);
    lemma_after_same(first, events);
    let run = after(first, events);
    if run.phase is Stage {
        assert(!in_namespace(run.entries[run.next]));
    }
}

proof fn lemma_after_same(run: Run, events: Seq<(Event, bool)>)
    ensures
        after(run, events).name == run.name,
        after(run, events).base == run.base,
        after(run, events).source == run.source,
        after(run, events).main_root == run.main_root,
        after(run, events).dest == run.dest,
    decreases events.len(),
{
    if events.len() > 0 {
        lemma_after_same(run, events.drop_last());
    }
}

/// The entries are what git lists, and nothing else is put in their place.
pub proof fn lemma_entries_are_listed(run: Run, event: Event, interrupted: bool)
    requires
        valid(run),
    ensures
        ({
            let next = step(run, event, interrupted);
            &&& next.entries != run.entries ==> {
                &&& act_of(run) == Act::Git(run.source, listing_words())
                &&& event matches Event::Git(reply) && reply.success && next.entries == entries(reply.stdout@)
            }
            &&& run.phase is Entries && !interrupted ==> match event {
                Event::Git(reply) => reply.success ==> next.entries == entries(reply.stdout@),
                _ => true,
            }
        }),
{
}

/// Whether `at` are positions in `whole` before `bound`, each higher than the
/// one before, at which the members of `part` stand.
pub open spec fn is_picked(part: Seq<Seq<u8>>, whole: Seq<Seq<u8>>, bound: int, at: Seq<int>) -> bool {
    &&& at.len() == part.len()
    &&& forall|k: int| 0 <= k < at.len() ==> 0 <= #[trigger] at[k] < bound && part[k] == whole[at[k]]
    &&& forall|j: int, k: int| 0 <= j < k < at.len() ==> #[trigger] at[j] < #[trigger] at[k]
}

/// Whether the members of `part` stand in `whole` in that order, each at a
/// position of its own before `bound`.
pub open spec fn comes_from(part: Seq<Seq<u8>>, whole: Seq<Seq<u8>>, bound: int) -> bool {
    exists|at: Seq<int>| is_picked(part, whole, bound, at)
}

proof fn lemma_empty_comes_from(part: Seq<Seq<u8>>, whole: Seq<Seq<u8>>, bound: int)
    requires
        part.len() == 0,
    ensures
        comes_from(part, whole, bound),
{
    assert(is_picked(part, whole, bound, Seq::<int>::empty()));
}

proof fn lemma_comes_from_wider(part: Seq<Seq<u8>>, whole: Seq<Seq<u8>>, bound: int, wider: int)
    requires
        comes_from(part, whole, bound),
        bound <= wider,
    ensures
        comes_from(part, whole, wider),
{
    let at = choose|at: Seq<int>| is_picked(part, whole, bound, at);
    assert(is_picked(part, whole, wider, at));
}

proof fn lemma_comes_from_push(part: Seq<Seq<u8>>, whole: Seq<Seq<u8>>, bound: int)
    requires
        comes_from(part, whole, bound),
        0 <= bound,
    ensures
        comes_from(part.push(whole[bound]), whole, bound + 1),
{
    let at = choose|at: Seq<int>| is_picked(part, whole, bound, at);
    let more = at.push(bound);
    assert forall|j: int, k: int| 0 <= j < k < more.len() implies #[trigger] more[j] < #[trigger] more[k] by {
        if k < at.len() {
            assert(at[j] < at[k]);
        } else {
            assert(at[j] < bound);
        }
    }
    assert forall|k: int| 0 <= k < more.len() implies 0 <= #[trigger] more[k] < bound + 1 && part.push(
        whole[bound],
    )[k] == whole[more[k]] by {
        if k < at.len() {
            assert(0 <= at[k] < bound && part[k] == whole[at[k]]);
        }
    }
    assert(is_picked(part.push(whole[bound]), whole, bound + 1, more));
}

proof fn lemma_comes_from_transitive(a: Seq<Seq<u8>>, b: Seq<Seq<u8>>, c: Seq<Seq<u8>>)
    requires
        comes_from(a, b, b.len() as int),
        comes_from(b, c, c.len() as int),
    ensures
        comes_from(a, c, c.len() as int),
{
    let x = choose|at: Seq<int>| is_picked(a, b, b.len() as int, at);
    let y = choose|at: Seq<int>| is_picked(b, c, c.len() as int, at);
    let z = Seq::new(x.len(), |k: int| y[x[k]]);
    assert forall|k: int| 0 <= k < z.len() implies 0 <= #[trigger] z[k] < c.len() && a[k] == c[z[k]] by {
        assert(0 <= x[k] < b.len() && a[k] == b[x[k]]);
        assert(0 <= y[x[k]] < c.len() && b[x[k]] == c[y[x[k]]]);
    }
    assert forall|j: int, k: int| 0 <= j < k < z.len() implies #[trigger] z[j] < #[trigger] z[k] by {
        assert(x[j] < x[k]);
        assert(0 <= x[j] < b.len() && 0 <= x[k] < b.len());
        assert(y[x[j]] < y[x[k]]);
    }
    assert(is_picked(a, c, c.len() as int, z));
}

/// Positions that rise, as many as there are, are all of them.
proof fn lemma_picked_all(part: Seq<Seq<u8>>, whole: Seq<Seq<u8>>, at: Seq<int>, k: int)
    requires
        is_picked(part, whole, whole.len() as int, at),
        0 <= k <= at.len(),
    ensures
        forall|i: int| 0 <= i < k ==> i <= #[trigger] at[i],
    decreases k,
{
    if k > 0 {
        lemma_picked_all(part, whole, at, k - 1);
        if k > 1 {
            assert(at[k - 2] < at[k - 1]);
        }
    }
}

proof fn lemma_picked_room(part: Seq<Seq<u8>>, whole: Seq<Seq<u8>>, at: Seq<int>, k: int)
    requires
        is_picked(part, whole, whole.len() as int, at),
        0 <= k < at.len(),
    ensures
        at[k] <= whole.len() - (at.len() - k),
    decreases at.len() - k,
{
    if k + 1 < at.len() {
        lemma_picked_room(part, whole, at, k + 1);
        assert(at[k] < at[k + 1]);
    }
}

proof fn lemma_comes_from_all(part: Seq<Seq<u8>>, whole: Seq<Seq<u8>>)
    requires
        comes_from(part, whole, whole.len() as int),
        part.len() == whole.len(),
    ensures
        part == whole,
{
    let at = choose|at: Seq<int>| is_picked(part, whole, whole.len() as int, at);
    lemma_picked_all(part, whole, at, at.len() as int);
    assert forall|k: int| 0 <= k < part.len() implies part[k] == whole[k] by {
        lemma_picked_room(part, whole, at, k);
        assert(k <= at[k]);
    }
    assert(part =~= whole);
}

/// Whether what was cloned comes from the entries, and what was moved from what
/// was cloned, each entry at most once and in order.
spec fn is_faithful(run: Run) -> bool {
    &&& comes_from(run.staged, run.entries, if run.phase is Stage { run.next } else { run.entries.len() as int })
    &&& comes_from(run.moved, run.staged, if run.phase is Promote { run.next } else { run.staged.len() as int })
}

proof fn lemma_stage_step_faithful(run: Run, copied: Copied)
    requires
        valid(run),
        is_faithful(run),
        run.phase is Stage,
    ensures
        is_faithful(stage_step(run, copied)),
{
    let next = stage_step(run, copied);
    lemma_comes_from_push(run.staged, run.entries, run.next);
    lemma_comes_from_wider(run.staged, run.entries, run.next, run.next + 1);
    lemma_comes_from_wider(run.staged, run.entries, run.next, run.entries.len() as int);
    lemma_empty_comes_from(next.moved, next.staged, if next.phase is Promote { next.next } else { next.staged.len() as int });
    if copied is Fresh {
        assert(next.staged == run.staged.push(run.entries[run.next]));
        lemma_comes_from_wider(next.staged, run.entries, run.next + 1, run.entries.len() as int);
    }
}

proof fn lemma_promote_step_faithful(run: Run, copied: Copied)
    requires
        valid(run),
        is_faithful(run),
        run.phase is Promote,
    ensures
        is_faithful(promote_step(run, copied)),
{
    let next = promote_step(run, copied);
    lemma_comes_from_push(run.moved, run.staged, run.next);
    lemma_comes_from_wider(run.moved, run.staged, run.next, run.next + 1);
    lemma_comes_from_wider(run.moved, run.staged, run.next, run.staged.len() as int);
    if copied is Fresh {
        assert(next.moved == run.moved.push(run.staged[run.next]));
        lemma_comes_from_wider(next.moved, run.staged, run.next + 1, run.staged.len() as int);
    }
}

proof fn lemma_step_faithful(run: Run, event: Event, interrupted: bool)
    requires
        valid(run),
        is_faithful(run),
    ensures
        is_faithful(step(run, event, interrupted)),
{
    let next = step(run, event, interrupted);
    lemma_step_valid(run, event, interrupted);
    if turns_back(run, event, interrupted) {
        lemma_comes_from_wider(
            run.staged,
            run.entries,
            if run.phase is Stage { run.next } else { run.entries.len() as int },
            run.entries.len() as int,
        );
        lemma_comes_from_wider(
            run.moved,
            run.staged,
            if run.phase is Promote { run.next } else { run.staged.len() as int },
            run.staged.len() as int,
        );
    } else {
        match (run.phase, event) {
            (Phase::Stage, Event::Copied(copied)) => lemma_stage_step_faithful(run, copied),
            (Phase::Promote, Event::Copied(copied)) => lemma_promote_step_faithful(run, copied),
            (Phase::Entries, Event::Git(_)) => {
                lemma_empty_comes_from(next.staged, next.entries, next.entries.len() as int);
            },
            (Phase::Reserve, Event::Reserved(_)) => {
                lemma_empty_comes_from(next.staged, next.entries, next.next);
                lemma_empty_comes_from(next.staged, next.entries, next.entries.len() as int);
            },
            _ => {
                assert(next.staged == run.staged && next.entries == run.entries && next.moved == run.moved);
            },
        }
    }
}

/// The entries that were to be cloned, in order, and of which a run was told
/// what came of it.
pub open spec fn tried(run: Run, events: Seq<(Event, bool)>) -> Seq<Seq<u8>>
    decreases events.len(),
{
    if events.len() == 0 {
        Seq::empty()
    } else {
        let before = after(run, events.drop_last());
        match act_of(before) {
            Act::Clone(rel, _, _) if fits(before.phase, events.last().0) => tried(
                run,
                events.drop_last(),
            ).push(rel),
            _ => tried(run, events.drop_last()),
        }
    }
}

/// The entries that were to be scrubbed, in order, and of which a run was told
/// what came of it.
pub open spec fn scrubbed(run: Run, events: Seq<(Event, bool)>) -> Seq<Seq<u8>>
    decreases events.len(),
{
    if events.len() == 0 {
        Seq::empty()
    } else {
        let before = after(run, events.drop_last());
        match act_of(before) {
            Act::Scrub(rel) if fits(before.phase, events.last().0) => scrubbed(
                run,
                events.drop_last(),
            ).push(rel),
            _ => scrubbed(run, events.drop_last()),
        }
    }
}

/// Whether a run was told that there are scrub patterns.
pub open spec fn has_patterns(run: Run, events: Seq<(Event, bool)>) -> bool
    decreases events.len(),
{
    events.len() > 0 && {
        ||| has_patterns(run, events.drop_last())
        ||| act_of(after(run, events.drop_last())) is Patterns && (events.last().0 matches Event::Patterns(
            Ok(found),
        ) && found)
    }
}

/// Whether a run has just been started.
spec fn is_fresh(run: Run) -> bool {
    valid(run) && run.phase is Probe && run.staged.len() == 0 && run.moved.len() == 0
}

proof fn lemma_after_faithful(run: Run, events: Seq<(Event, bool)>)
    requires
        is_fresh(run),
    ensures
        valid(after(run, events)),
        is_faithful(after(run, events)),
    decreases events.len(),
{
    if events.len() == 0 {
        lemma_empty_comes_from(run.staged, run.entries, run.entries.len() as int);
        lemma_empty_comes_from(run.moved, run.staged, run.staged.len() as int);
    } else {
        let before = after(run, events.drop_last());
        lemma_after_faithful(run, events.drop_last());
        lemma_step_valid(before, events.last().0, events.last().1);
        lemma_step_faithful(before, events.last().0, events.last().1);
    }
}

/// The entries that a run is done with trying.
spec fn tried_by(run: Run) -> Seq<Seq<u8>> {
    if rank(run.phase) > rank(Phase::Stage) {
        Seq::empty()
    } else if run.phase is Stage {
        run.entries.take(run.next)
    } else {
        run.entries
    }
}

/// Whether a run has not been turned back and has not failed.
spec fn is_on_course(run: Run) -> bool {
    is_building(run.phase) || run.phase is Done
}

proof fn lemma_tried_step(run: Run, event: Event, interrupted: bool)
    requires
        valid(run),
        is_on_course(step(run, event, interrupted)),
    ensures
        is_on_course(run),
        tried_by(step(run, event, interrupted)) == (match act_of(run) {
            Act::Clone(rel, _, _) if fits(run.phase, event) => tried_by(run).push(rel),
            _ => tried_by(run),
        }),
{
    let next = step(run, event, interrupted);
    let all = run.entries;
    if run.phase is Stage {
        assert(all.take(run.next).push(all[run.next]) =~= all.take(run.next + 1));
        assert(all.take(all.len() as int) =~= all);
    }
    assert(next.entries.take(0) =~= Seq::<Seq<u8>>::empty());
    if next.entries.len() == 0 {
        assert(next.entries =~= Seq::<Seq<u8>>::empty());
    }
}

proof fn lemma_tried(run: Run, events: Seq<(Event, bool)>)
    requires
        is_fresh(run),
        is_on_course(after(run, events)),
    ensures
        tried(run, events) == tried_by(after(run, events)),
    decreases events.len(),
{
    if events.len() > 0 {
        lemma_after_valid(run, events.drop_last());
        lemma_tried_step(after(run, events.drop_last()), events.last().0, events.last().1);
        lemma_tried(run, events.drop_last());
    }
}

/// The entries that a run is done with scrubbing, given whether there are
/// patterns.
spec fn scrubbed_by(run: Run, patterns: bool) -> Seq<Seq<u8>> {
    if run.phase is Scrub {
        run.moved.take(run.next)
    } else if run.phase is Done && patterns {
        run.moved
    } else {
        Seq::empty()
    }
}

proof fn lemma_scrubbed_step(run: Run, event: Event, interrupted: bool, patterns: bool)
    requires
        valid(run),
        is_on_course(step(run, event, interrupted)),
        run.phase is Scrub ==> patterns,
        patterns ==> run.phase is Scrub || run.phase is Done,
    ensures
        ({
            let next = step(run, event, interrupted);
            let now = patterns || (act_of(run) is Patterns && (event matches Event::Patterns(Ok(found)) && found));
            &&& next.phase is Scrub ==> now
            &&& now ==> next.phase is Scrub || next.phase is Done
            &&& scrubbed_by(next, now) == (match act_of(run) {
                Act::Scrub(rel) if fits(run.phase, event) => scrubbed_by(run, patterns).push(rel),
                _ => scrubbed_by(run, patterns),
            })
        }),
{
    let next = step(run, event, interrupted);
    let all = run.moved;
    if run.phase is Scrub {
        assert(all.take(run.next).push(all[run.next]) =~= all.take(run.next + 1));
        assert(all.take(all.len() as int) =~= all);
    }
    assert(next.moved.take(0) =~= Seq::<Seq<u8>>::empty());
    if next.moved.len() == 0 {
        assert(next.moved =~= Seq::<Seq<u8>>::empty());
    }
}

proof fn lemma_scrubbed(run: Run, events: Seq<(Event, bool)>)
    requires
        is_fresh(run),
        is_on_course(after(run, events)),
    ensures
        scrubbed(run, events) == scrubbed_by(after(run, events), has_patterns(run, events)),
        after(run, events).phase is Scrub ==> has_patterns(run, events),
        has_patterns(run, events) ==> after(run, events).phase is Scrub || after(run, events).phase is Done,
    decreases events.len(),
{
    if events.len() > 0 {
        let rest = events.drop_last();
        lemma_after_valid(run, rest);
        lemma_tried_step(after(run, rest), events.last().0, events.last().1);
        lemma_scrubbed(run, rest);
        lemma_scrubbed_step(after(run, rest), events.last().0, events.last().1, has_patterns(run, rest));
    }
}

/// Every ignored entry ends up in the new worktree: a run that comes through
/// has tried each entry, once and in order, and has moved each of them but those
/// that were reported to be there already or to have failed; where none was, it
/// has moved exactly the entries. Where there are scrub patterns, it has had
/// each entry that was moved scrubbed, and otherwise none.
pub proof fn lemma_every_entry_moved(
    name: Seq<char>,
    base: Option<Seq<char>>,
    source: Seq<u8>,
    main_root: Seq<u8>,
    dest: Seq<u8>,
    events: Seq<(Event, bool)>,
)
    ensures
        ({
            let first = start(name, base, source, main_root, dest);
            let run = after(first, events);
            run.phase is Done ==> {
                &&& tried(first, events) == run.entries
                &&& exists|at: Seq<int>| #[trigger]
                    is_picked(run.moved, run.entries, run.entries.len() as int, at) && at.len()
                        == run.entries.len() - run.present - run.failed
                &&& run.present == 0 && run.failed == 0 ==> run.moved == run.entries
                &&& scrubbed(first, events) == (if has_patterns(first, events) {
                    run.moved
                } else {
                    Seq::empty()
                })
            }
        }),
{
    let first = start(name, base, source, main_root, dest);
    let run = after(first, events);
    lemma_after_faithful(first, events);
    if run.phase is Done {
        lemma_tried(first, events);
        lemma_scrubbed(first, events);
        lemma_comes_from_transitive(run.moved, run.staged, run.entries);
        let at = choose|at: Seq<int>| is_picked(run.moved, run.entries, run.entries.len() as int, at);
        assert(at.len() == run.moved.len());
        if run.present == 0 && run.failed == 0 {
            lemma_comes_from_all(run.moved, run.entries);
        }
    }
}

/// An entry is left out only where that was reported of it, and the user is told
/// of each that failed, with the reason.
pub proof fn lemma_left_out_is_told(run: Run, event: Event, interrupted: bool)
    requires
        valid(run),
    ensures
        ({
            let next = step(run, event, interrupted);
            &&& next.present != run.present ==> event == Event::Copied(Copied::Present) && next.present
                == run.present + 1
            &&& next.failed != run.failed ==> {
                &&& next.failed == run.failed + 1
                &&& event matches Event::Copied(Copied::Failed(fault)) && match act_of(run) {
                    Act::Clone(rel, _, _) => next.said == run.said.push(clone_note(rel, fault)),
                    Act::Move(rel, _, _) => next.said == run.said.push(clone_note(rel, fault)),
                    _ => false,
                }
            }
        }),
{
}

/// The worktree is not added before the ground is prepared: the directory that
/// it belongs in is made only once git was kept from seeing the worktrees, git
/// is asked about the branch only once that directory is there, and entries are
/// listed only once git has added the worktree.
pub proof fn lemma_prepared_in_order(run: Run, event: Event, interrupted: bool)
    requires
        valid(run),
        step(run, event, interrupted).phase != run.phase,
    ensures
        ({
            let next = step(run, event, interrupted);
            &&& next.phase is Exclude ==> act_of(run) == Act::Probe(run.dest) && event == Event::Exists(false)
            &&& next.phase is Parent ==> act_of(run) == Act::Exclude(run.main_root) && (event matches Event::Ready(Ok(_)))
            &&& next.phase is Branch ==> act_of(run) == Act::MakeParent(run.dest) && (event matches Event::Ready(Ok(_)))
            &&& next.phase is Entries ==> {
                &&& act_of(run) == Act::Git(run.source, add_words(run.name, run.dest, run.from))
                &&& event matches Event::Git(reply) && reply.success
            }
            &&& next.phase is Done ==> act_of(run) is Patterns || act_of(run) is Scrub
        }),
{
}

/// Whether the event reports something that a run cannot go on from.
pub open spec fn is_fatal(run: Run, event: Event) -> bool {
    match (run.phase, event) {
        (Phase::Probe, Event::Exists(found)) => found,
        (Phase::Exclude, Event::Ready(outcome)) => outcome is Err || !has_parent(run.dest),
        (Phase::Parent, Event::Ready(outcome)) => outcome is Err,
        (Phase::Config, Event::Configured(outcome)) => outcome is Err,
        (Phase::Add, Event::Git(reply)) => !reply.success,
        (Phase::Entries, Event::Git(reply)) => !reply.success,
        (Phase::Reserve, Event::Reserved(outcome)) => outcome is Err,
        (Phase::Stage, Event::Copied(copied)) => copied is Fatal,
        (Phase::Promote, Event::Copied(copied)) => copied is Fatal,
        (Phase::Patterns, Event::Patterns(outcome)) => outcome is Err,
        (Phase::Scrub, Event::Scrubbed(outcome)) => outcome is Err,
        _ => false,
    }
}

/// A run that is neither interrupted nor told of something that it cannot go on
/// from stays on course; and since every run ends, it comes through. An entry
/// that could not be cloned or moved does not keep it from that.
pub proof fn lemma_fails_only_for_cause(run: Run, event: Event, interrupted: bool)
    requires
        is_building(run.phase),
        fits(run.phase, event),
    ensures
        ({
            let next = step(run, event, interrupted);
            &&& next.phase is Failed <==> is_fatal(run, event) && !turns_back(run, event, interrupted)
            &&& is_backing_out(next.phase) <==> turns_back(run, event, interrupted)
        }),
{
}

/// A config that is wrong is a hard error, whether the branch is there or not:
/// the run fails with the message, and git is not told to add anything.
pub proof fn lemma_bad_config_fails(run: Run, message: String, rest: Seq<(Event, bool)>)
    requires
        run.phase is Config,
    ensures
        after(step(run, Event::Configured(Err(message)), false), rest) == fail(run, message@),
{
    lemma_over_is_over(step(run, Event::Configured(Err(message)), false), rest);
}

/// An entry counts as moved only once it was moved: where something stood
/// already, such as a file that git has checked out, the entry is left out, and
/// so is never scrubbed.
pub proof fn lemma_moved_only_by_moving(run: Run, event: Event, interrupted: bool)
    requires
        valid(run),
    ensures
        ({
            let next = step(run, event, interrupted);
            next.moved != run.moved ==> {
                &&& event == Event::Copied(Copied::Fresh)
                &&& act_of(run) matches Act::Move(rel, _, _) && next.moved == run.moved.push(rel)
            }
        }),
{
}

/// An interrupt is final, however far the run has come: whatever follows, the
/// run does not come through, and so its path is never printed. It is taken
/// back, unless the worktree was there at the start.
pub proof fn lemma_interrupt_final(run: Run, event: Event, rest: Seq<(Event, bool)>)
    requires
        is_building(run.phase),
        fits(run.phase, event),
    ensures
        ({
            let end = after(step(run, event, true), rest);
            &&& end.phase !is Done
            &&& if run.phase is Probe && event == Event::Exists(true) {
                end.phase is Failed
            } else {
                is_backing_out(end.phase)
            }
        }),
    decreases rest.len(),
{
    if rest.len() > 0 {
        lemma_interrupt_final(run, event, rest.drop_last());
    }
}

/// An interrupt before all entries were tried finds nothing of them in the
/// worktree, and leaves it so.
pub proof fn lemma_early_interrupt_moves_nothing(run: Run, event: Event, rest: Seq<(Event, bool)>)
    requires
        valid(run),
        rank(run.phase) > rank(Phase::Promote),
        turns_back(run, event, true),
    ensures
        after(step(run, event, true), rest).cloned == 0,
        act_of(after(step(run, event, true), rest)) !is Move,
    decreases rest.len(),
{
    lemma_interrupt_final(run, event, rest);
    if rest.len() > 0 {
        lemma_early_interrupt_moves_nothing(run, event, rest.drop_last());
        lemma_interrupt_final(run, event, rest.drop_last());
    }
}

/// An interrupted run leaves no empty directory behind, whether there was a
/// worktree or not: the last that it asks for is to remove those between the
/// worktrees and the path, and that of the worktrees.
pub proof fn lemma_aborted_is_tidied(run: Run, event: Event, interrupted: bool)
    requires
        run.phase !is Aborted,
        step(run, event, interrupted).phase is Aborted,
    ensures
        act_of(run) == Act::Tidy(namespace(run.main_root), run.dest),
        event is Finished,
{
}

/// Where nothing is found at the path, an interrupted run only tidies up and
/// says so.
pub proof fn lemma_nothing_to_take_back(run: Run, interrupted: bool)
    requires
        run.phase is AbortProbe,
    ensures
        ({
            let clean = step(run, Event::Exists(false), interrupted);
            let end = step(clean, Event::Finished, interrupted);
            &&& act_of(clean) == Act::Tidy(namespace(run.main_root), run.dest)
            &&& end.phase is Aborted
            &&& end.said == run.said.push("aborted"@)
        }),
{
    assert(step(run, Event::Exists(false), interrupted) == (Run { phase: Phase::AbortClean, ..run }));
}

/// An interrupted run leaves no partial worktree behind. Where one is found,
/// git is told to remove it; where git does not, it is deleted, and git is told
/// to forget it. Then the empty directories go, and the user is told.
pub proof fn lemma_taken_back(run: Run, event: Event, interrupted: bool)
    requires
        fits(run.phase, event),
    ensures
        ({
            let next = step(run, event, interrupted);
            let tidy = Act::Tidy(namespace(run.main_root), run.dest);
            &&& run.phase is AbortProbe && event == Event::Exists(true) ==> act_of(next) == Act::Git(
                run.source,
                remove_words(run.dest),
            )
            &&& run.phase is AbortRemove ==> act_of(next) == (if event->Git_0.success {
                tidy
            } else {
                Act::Wipe(run.dest)
            })
            &&& run.phase is AbortWipe ==> act_of(next) == Act::Git(run.source, prune_words())
            &&& run.phase is AbortPrune ==> act_of(next) == tidy
            &&& run.phase is AbortTidy ==> next.phase is Aborted && next.said == run.said.push(
                "aborted: removed partial worktree "@ + shown(run.dest),
            )
        }),
{
}

/// A staging directory that was made is not left behind: it is only given up
/// by handing it to the sweeper, and a run that comes through or was taken
/// back has given it up.
pub proof fn lemma_slot_given_up(run: Run, event: Event, interrupted: bool)
    requires
        valid(run),
    ensures
        ({
            let next = step(run, event, interrupted);
            &&& run.slot is Some && next.slot is None ==> act_of(run) == Act::Discard(run.slot->0)
            &&& run.slot is Some && next.slot is Some ==> next.slot == run.slot
            &&& next.phase is Done || next.phase is Aborted ==> next.slot is None
        }),
{
    lemma_step_valid(run, event, interrupted);
}

/// A run that is over stays as it is.
pub proof fn lemma_over_is_over(run: Run, rest: Seq<(Event, bool)>)
    requires
        is_over(run.phase),
    ensures
        after(run, rest) == run,
    decreases rest.len(),
{
    if rest.len() > 0 {
        lemma_over_is_over(run, rest.drop_last());
    }
}

/// A worktree that is there already is left alone: the run fails at once, with
/// nothing done but the looking.
pub proof fn lemma_existing_refused(
    name: Seq<char>,
    base: Option<Seq<char>>,
    source: Seq<u8>,
    main_root: Seq<u8>,
    dest: Seq<u8>,
    interrupted: bool,
    rest: Seq<(Event, bool)>,
)
    ensures
        ({
            let first = start(name, base, source, main_root, dest);
            let run = after(step(first, Event::Exists(true), interrupted), rest);
            &&& act_of(first) == Act::Probe(dest)
            &&& run == fail(first, "worktree already exists at "@ + shown(dest))
            &&& act_of(run) is Stop
        }),
{
    let first = start(name, base, source, main_root, dest);
    lemma_over_is_over(step(first, Event::Exists(true), interrupted), rest);
}

/// The place of a phase on the way, counted from the end.
pub open spec fn rank(phase: Phase) -> nat {
    match phase {
        Phase::Probe => 22,
        Phase::Exclude => 21,
        Phase::Parent => 20,
        Phase::Branch => 19,
        Phase::Config => 18,
        Phase::Mainline => 17,
        Phase::Master => 16,
        Phase::Add => 15,
        Phase::Entries => 14,
        Phase::Reserve => 13,
        Phase::Stage => 12,
        Phase::Promote => 11,
        Phase::Clear => 10,
        Phase::Patterns => 9,
        Phase::Scrub => 8,
        Phase::AbortDiscard => 7,
        Phase::AbortProbe => 6,
        Phase::AbortRemove => 5,
        Phase::AbortWipe => 4,
        Phase::AbortPrune => 3,
        Phase::AbortTidy => 2,
        Phase::AbortClean => 1,
        Phase::Done | Phase::Aborted | Phase::Failed => 0,
    }
}

/// The number of entries that the phase still has before it.
pub open spec fn remaining(run: Run) -> int {
    match run.phase {
        Phase::Stage => run.entries.len() - run.next,
        Phase::Scrub => run.moved.len() - run.next,
        Phase::Promote => run.staged.len() - run.next,
        _ => 0,
    }
}

/// Every run ends: each event that it waits for brings it nearer to its end.
pub proof fn lemma_progress(run: Run, event: Event, interrupted: bool)
    requires
        valid(run),
        fits(run.phase, event),
    ensures
        ({
            let next = step(run, event, interrupted);
            &&& remaining(next) >= 0
            &&& rank(next.phase) < rank(run.phase) || (rank(next.phase) == rank(run.phase) && remaining(next)
                < remaining(run))
        }),
{
}

/// The run once the questions about the base are answered, as far as they are
/// asked.
pub open spec fn base_answered(
    run: Run,
    branch: GitReply,
    configured: Option<String>,
    main: GitReply,
    master: GitReply,
) -> Run {
    let asked = step(run, Event::Git(branch), false);
    let read = if asked.phase is Config {
        step(asked, Event::Configured(Ok(configured)), false)
    } else {
        asked
    };
    let found = if read.phase is Mainline {
        step(read, Event::Git(main), false)
    } else {
        read
    };
    if found.phase is Master {
        step(found, Event::Git(master), false)
    } else {
        found
    }
}

/// A new branch is cut from the base that was asked for, else from the
/// configured one, else from the mainline.
#[verifier::spinoff_prover]
#[verifier::rlimit(40)]
pub proof fn lemma_base_precedence(
    run: Run,
    branch: GitReply,
    configured: Option<String>,
    main: GitReply,
    master: GitReply,
)
    requires
        valid(run),
        run.phase is Branch,
        !branch.success,
    ensures
        ({
            let ready = base_answered(run, branch, configured, main, master);
            let base = resolved(run.base, text_in(configured), main.success, master.success);
            &&& ready.phase is Add
            &&& act_of(ready) == Act::Git(run.source, add_words(run.name, run.dest, Some(base)))
            &&& ready.said == run.said
        }),
{
    let asked = step(run, Event::Git(branch), false);
    assert(asked == branch_step(run, branch.success));
    if asked.phase is Config {
        let read = step(asked, Event::Configured(Ok(configured)), false);
        assert(read == config_step(asked, text_in(configured)));
        if read.phase is Mainline {
            let found = step(read, Event::Git(main), false);
            assert(found.phase is Master || found.phase is Add);
        }
    }
}

/// A branch that was there is checked out as it is, and the user is told of a
/// base that does not count for that reason: the one that was asked for, else
/// the configured one.
#[verifier::spinoff_prover]
#[verifier::rlimit(40)]
pub proof fn lemma_existing_branch_kept(
    run: Run,
    branch: GitReply,
    configured: Option<String>,
    main: GitReply,
    master: GitReply,
)
    requires
        valid(run),
        run.phase is Branch,
        branch.success,
    ensures
        ({
            let ready = base_answered(run, branch, configured, main, master);
            &&& ready.phase is Add
            &&& act_of(ready) == Act::Git(run.source, add_words(run.name, run.dest, None))
            &&& ready.said == (match (run.base, text_in(configured)) {
                (Some(b), _) => run.said.push(ignored_base_note(run.name, b)),
                (None, Some(b)) => run.said.push(configured_base_note(run.name, b)),
                (None, None) => run.said,
            })
        }),
{
    let asked = step(run, Event::Git(branch), false);
    assert(asked == branch_step(run, branch.success));
    if asked.phase is Config {
        let read = step(asked, Event::Configured(Ok(configured)), false);
        assert(read == config_step(asked, text_in(configured)));
    }
}

/// The line at the end: how many entries were cloned and in what time, and how
/// many paths were scrubbed and entries failed, where any.
pub open spec fn summary_text(cloned: nat, scrubbed: nat, failed: nat, elapsed: Seq<char>) -> Seq<char> {
    let counted = "cloned "@ + decimal(cloned) + " ignored entr"@ + (if cloned == 1 { "y"@ } else { "ies"@ })
        + " in "@ + elapsed;
    let cleaned = if scrubbed > 0 { counted + ", scrubbed "@ + decimal(scrubbed) } else { counted };
    if failed > 0 {
        cleaned + ", "@ + decimal(failed) + " failed"@
    } else {
        cleaned
    }
}

/// The line at the end of a run.
pub fn summary(cloned: u64, scrubbed: u64, failed: u64, elapsed: &str) -> (r: String)
    ensures
        r@ == summary_text(cloned as nat, scrubbed as nat, failed as nat, elapsed@),
{
    let mut r = "cloned ".to_owned();
    r.append(to_decimal(cloned).as_str());
    r.append(" ignored entr");
    r.append(if cloned == 1 { "y" } else { "ies" });
    r.append(" in ");
    r.append(elapsed);
    if scrubbed > 0 {
        r.append(", scrubbed ");
        r.append(to_decimal(scrubbed).as_str());
    }
    if failed > 0 {
        r.append(", ");
        r.append(to_decimal(failed).as_str());
        r.append(" failed");
    }
    r
}

/// The exit code of an interrupted run.
pub const INTERRUPTED: i32 = 130;

/// The exit code in a phase, once the run is over.
pub open spec fn code_of(phase: Phase) -> Option<i32> {
    match phase {
        Phase::Done => Some(0i32),
        Phase::Failed => Some(1i32),
        Phase::Aborted => Some(INTERRUPTED),
        _ => None,
    }
}

/// What goes to the standard output.
pub open spec fn printed(run: Run) -> Option<Seq<char>> {
    if run.phase is Done {
        Some(shown(run.dest))
    } else {
        None
    }
}

/// The base ref for a new branch: the one that was asked for, else the
/// configured one, else the mainline, given which of its branches there are.
pub fn resolve_base(flag: Option<&str>, configured: Option<&str>, main: bool, master: bool) -> (r: String)
    ensures
        r@ == resolved(slice_in(flag), slice_in(configured), main, master),
{
    match flag {
        Some(b) => b.to_owned(),
        None => match configured {
            Some(b) => b.to_owned(),
            None => default_base(main, master),
        },
    }
}

fn ignored_base_warning(name: &str, base: &str) -> (r: String)
    ensures
        r@ == ignored_base_note(name@, base@),
{
    let mut r = "warning: branch '".to_owned();
    r.append(name);
    r.append("' already exists — ignoring --base ");
    r.append(base);
    r.append(" (--base only applies when creating a new branch; use a new name, or delete '");
    r.append(name);
    r.append("' to recreate it from ");
    r.append(base);
    r.append(")");
    r
}

fn configured_base_warning(name: &str, base: &str) -> (r: String)
    ensures
        r@ == configured_base_note(name@, base@),
{
    let mut r = "warning: branch '".to_owned();
    r.append(name);
    r.append("' already exists — checking it out as-is, not from the configured base '");
    r.append(base);
    r.append("' (a branch's base is fixed at creation; use a new name, or delete '");
    r.append(name);
    r.append("' to recut it from '");
    r.append(base);
    r.append("')");
    r
}

/// The state of the building of a worktree.
struct State {
    name: String,
    base: Option<String>,
    source: Vec<u8>,
    main_root: Vec<u8>,
    dest: Vec<u8>,
    phase: Phase,
    from: Option<String>,
    existing: bool,
    entries: Vec<Vec<u8>>,
    slot: Option<Vec<u8>>,
    staged: Vec<Vec<u8>>,
    next: usize,
    moved: Vec<Vec<u8>>,
    cloned: usize,
    present: usize,
    failed: usize,
    scrubbed: u64,
    said: Vec<String>,
    error: String,
}

impl View for State {
    type V = Run;

    closed spec fn view(&self) -> Run {
        Run {
            name: self.name@,
            base: text_in(self.base),
            source: self.source@,
            main_root: self.main_root@,
            dest: self.dest@,
            phase: self.phase,
            from: text_in(self.from),
            existing: self.existing,
            entries: contents(self.entries@),
            slot: bytes_in(self.slot),
            staged: contents(self.staged@),
            next: self.next as int,
            moved: contents(self.moved@),
            cloned: self.cloned as int,
            present: self.present as int,
            failed: self.failed as int,
            scrubbed: self.scrubbed as int,
            said: texts(self.said@),
            error: self.error@,
        }
    }
}

impl State {
    fn new(name: &str, base: Option<&str>, source: &[u8], main_root: &[u8], dest: &[u8]) -> (r: State)
        ensures
            r@ == start(name@, slice_in(base), source@, main_root@, dest@),
            valid(r@),
    {
        let r = State {
            name: name.to_owned(),
            base: match base {
                Some(b) => Some(b.to_owned()),
                None => None,
            },
            source: slice_to_vec(source),
            main_root: slice_to_vec(main_root),
            dest: slice_to_vec(dest),
            phase: Phase::Probe,
            from: None,
            existing: false,
            entries: Vec::new(),
            slot: None,
            staged: Vec::new(),
            next: 0,
            moved: Vec::new(),
            cloned: 0,
            present: 0,
            failed: 0,
            scrubbed: 0,
            said: Vec::new(),
            error: String::new(),
        };
        assert(r@ =~= start(name@, slice_in(base), source@, main_root@, dest@));
        r
    }

    fn go(&mut self, phase: Phase)
        ensures
            final(self)@ == (Run { phase, ..old(self)@ }),
    {
        self.phase = phase;
    }

    fn fail(&mut self, error: String)
        ensures
            final(self)@ == fail(old(self)@, error@),
    {
        self.phase = Phase::Failed;
        self.error = error;
    }

    fn say(&mut self, line: String)
        ensures
            final(self)@ == say(old(self)@, line@),
    {
        let ghost l = line@;
        self.said.push(line);
        assert(texts(self.said@) =~= texts(old(self).said@).push(l));
    }

    fn cut_from(&mut self, base: String)
        ensures
            final(self)@ == (Run { from: Some(base@), phase: Phase::Add, ..old(self)@ }),
    {
        self.from = Some(base);
        self.phase = Phase::Add;
    }

    fn back_out(&mut self)
        ensures
            final(self)@ == backed_out(old(self)@, old(self)@.slot),
    {
        self.phase = match self.phase {
            Phase::Probe | Phase::Exclude | Phase::Parent | Phase::Branch | Phase::Config | Phase::Mainline
            | Phase::Master => Phase::AbortClean,
            _ => match &self.slot {
                Some(_) => Phase::AbortDiscard,
                None => Phase::AbortProbe,
            },
        };
    }

    fn turn_back(&mut self, event: Event)
        requires
            turns_back(old(self)@, event, true),
        ensures
            final(self)@ == backed_out(old(self)@, slot_after(old(self)@, event)),
    {
        match (self.phase, event) {
            (Phase::Reserve, Event::Reserved(Ok(path))) => {
                self.slot = Some(path);
            },
            (Phase::Clear, Event::Finished) => {
                self.slot = None;
            },
            _ => {},
        }
        self.back_out();
    }

    fn add_args(&self) -> (r: Vec<String>)
        ensures
            texts(r@) == add_words(self@.name, self@.dest, self@.from),
    {
        match &self.from {
            Some(base) => add_new_args(self.name.as_str(), self.dest.as_slice(), base.as_str()),
            None => add_existing_args(self.name.as_str(), self.dest.as_slice()),
        }
    }

    fn slot_path(&self, rel: &[u8]) -> (r: Vec<u8>)
        requires
            self@.slot is Some,
        ensures
            r@ == joined(self@.slot->0, rel@),
    {
        match &self.slot {
            Some(slot) => join(slot.as_slice(), rel),
            None => Vec::new(),
        }
    }

    fn slot_copy(&self) -> (r: Vec<u8>)
        requires
            self@.slot is Some,
        ensures
            r@ == self@.slot->0,
    {
        match &self.slot {
            Some(slot) => slice_to_vec(slot.as_slice()),
            None => Vec::new(),
        }
    }

    fn action(&self) -> (r: Action)
        requires
            valid(self@),
        ensures
            r@ == act_of(self@),
    {
        let source: &[u8] = self.source.as_slice();
        match self.phase {
            Phase::Probe | Phase::AbortProbe => Action::Probe(slice_to_vec(self.dest.as_slice())),
            Phase::Exclude => Action::Exclude(slice_to_vec(self.main_root.as_slice())),
            Phase::Parent => Action::MakeParent(slice_to_vec(self.dest.as_slice())),
            Phase::Branch => Action::Git(slice_to_vec(source), branch_exists_args(self.name.as_str())),
            Phase::Config => Action::Config(config_file(self.main_root.as_slice())),
            Phase::Mainline => Action::Git(slice_to_vec(source), branch_exists_args("main")),
            Phase::Master => Action::Git(slice_to_vec(source), branch_exists_args("master")),
            Phase::Add => Action::Git(slice_to_vec(source), self.add_args()),
            Phase::Entries => Action::Git(slice_to_vec(source), ignored_entries_args()),
            Phase::Reserve => Action::Reserve(
                repo_namespace(self.main_root.as_slice()),
                self.name.as_str().to_owned(),
                true,
            ),
            Phase::Stage => {
                let rel: &[u8] = self.entries[self.next].as_slice();
                assert(rel@ == self@.entries[self@.next]);
                Action::Clone(slice_to_vec(rel), join(source, rel), self.slot_path(rel))
            },
            Phase::Promote => {
                let rel: &[u8] = self.staged[self.next].as_slice();
                assert(rel@ == self@.staged[self@.next]);
                Action::Move(slice_to_vec(rel), self.slot_path(rel), join(self.dest.as_slice(), rel))
            },
            Phase::Clear | Phase::AbortDiscard => Action::Discard(self.slot_copy()),
            Phase::Patterns => Action::Patterns(join(source, IGNORE_FILE.as_bytes())),
            Phase::Scrub => {
                let rel: &[u8] = self.moved[self.next].as_slice();
                assert(rel@ == self@.moved[self@.next]);
                Action::Scrub(slice_to_vec(rel))
            },
            Phase::AbortRemove => Action::Git(slice_to_vec(source), remove_args(self.dest.as_slice())),
            Phase::AbortWipe => Action::Wipe(slice_to_vec(self.dest.as_slice())),
            Phase::AbortPrune => Action::Git(slice_to_vec(source), prune_args()),
            Phase::AbortTidy | Phase::AbortClean => Action::Tidy(
                repo_namespace(self.main_root.as_slice()),
                slice_to_vec(self.dest.as_slice()),
            ),
            Phase::Done | Phase::Aborted | Phase::Failed => Action::Stop,
        }
    }

    fn learn_branch(&mut self, found: bool)
        requires
            valid(old(self)@),
        ensures
            final(self)@ == branch_step(old(self)@, found),
    {
        self.existing = found;
        let note = match &self.base {
            Some(b) => if found {
                Some(ignored_base_warning(self.name.as_str(), b.as_str()))
            } else {
                self.from = Some(resolve_base(Some(b.as_str()), None, false, false));
                None
            },
            None => {
                self.phase = Phase::Config;
                return;
            },
        };
        self.phase = Phase::Add;
        match note {
            Some(line) => self.say(line),
            None => {},
        }
    }

    fn learn_config(&mut self, configured: Option<String>)
        requires
            valid(old(self)@),
        ensures
            final(self)@ == config_step(old(self)@, text_in(configured)),
    {
        match configured {
            Some(b) => if self.existing {
                let line = configured_base_warning(self.name.as_str(), b.as_str());
                self.phase = Phase::Add;
                self.say(line);
            } else {
                self.cut_from(resolve_base(None, Some(b.as_str()), false, false));
            },
            None => {
                self.phase = if self.existing { Phase::Add } else { Phase::Mainline };
            },
        }
    }

    fn learn_added(&mut self, reply: &GitReply)
        ensures
            final(self)@ == add_step(old(self)@, *reply),
    {
        match git(&self.add_args(), reply) {
            Err(message) => self.fail(message),
            Ok(out) => {
                self.phase = Phase::Entries;
                if !out.as_str().is_empty() {
                    self.say(out);
                }
            },
        }
    }

    fn learn_entries(&mut self, reply: &GitReply)
        ensures
            final(self)@ == entries_step(old(self)@, *reply),
    {
        match ignored_entries(reply) {
            Err(message) => self.fail(message),
            Ok(list) => {
                self.phase = if list.len() == 0 { Phase::Patterns } else { Phase::Reserve };
                self.entries = list;
            },
        }
    }

    fn learn_staged(&mut self, copied: Copied)
        requires
            valid(old(self)@),
            old(self)@.phase is Stage,
        ensures
            final(self)@ == stage_step(old(self)@, copied),
    {
        let ghost rel = old(self)@.entries[old(self)@.next];
        assert(self.entries@[self.next as int]@ == rel);
        assert(self@.entries.len() == self.entries.len());
        match copied {
            Copied::Fresh => {
                let one = slice_to_vec(self.entries[self.next].as_slice());
                self.staged.push(one);
                assert(contents(self.staged@) =~= contents(old(self).staged@).push(rel));
            },
            Copied::Present => {
                self.present = self.present + 1;
            },
            Copied::Failed(fault) => {
                let line = clone_warning(self.entries[self.next].as_slice(), &fault);
                self.failed = self.failed + 1;
                self.say(line);
            },
            Copied::Fatal(message) => {
                self.fail(message);
                return;
            },
        }
        if self.next + 1 < self.entries.len() {
            self.next = self.next + 1;
        } else {
            self.next = 0;
            self.phase = if self.staged.len() == 0 { Phase::Clear } else { Phase::Promote };
        }
    }

    fn learn_promoted(&mut self, copied: Copied)
        requires
            valid(old(self)@),
            old(self)@.phase is Promote,
        ensures
            final(self)@ == promote_step(old(self)@, copied),
    {
        let ghost rel = old(self)@.staged[old(self)@.next];
        assert(self.staged@[self.next as int]@ == rel);
        assert(self@.entries.len() == self.entries.len());
        match copied {
            Copied::Fresh => {
                let one = slice_to_vec(self.staged[self.next].as_slice());
                self.moved.push(one);
                self.cloned = self.cloned + 1;
                assert(contents(self.moved@) =~= contents(old(self).moved@).push(rel));
            },
            Copied::Present => {
                self.present = self.present + 1;
            },
            Copied::Failed(fault) => {
                let line = clone_warning(self.staged[self.next].as_slice(), &fault);
                self.failed = self.failed + 1;
                self.say(line);
            },
            Copied::Fatal(message) => {
                self.fail(message);
                return;
            },
        }
        if self.next + 1 < self.staged.len() {
            self.next = self.next + 1;
        } else {
            self.next = 0;
            self.phase = Phase::Clear;
        }
    }

    fn learn_scrubbed(&mut self, n: u64)
        requires
            valid(old(self)@),
            old(self)@.phase is Scrub,
        ensures
            final(self)@ == scrub_step(old(self)@, n),
    {
        assert(self@.moved.len() == self.moved.len());
        self.scrubbed = if n > u64::MAX - self.scrubbed { u64::MAX } else { self.scrubbed + n };
        if self.next + 1 < self.moved.len() {
            self.next = self.next + 1;
        } else {
            self.phase = Phase::Done;
        }
    }

    /// Whether the event is one that would bring the run forward, so that an
    /// interrupt turns it back instead.
    fn waits_for(&self, event: &Event) -> (r: bool)
        ensures
            r == turns_back(self@, *event, true),
    {
        match (self.phase, event) {
            (Phase::Probe, Event::Exists(found)) => !*found,
            (Phase::Exclude, Event::Ready(_)) => true,
            (Phase::Parent, Event::Ready(_)) => true,
            (Phase::Branch, Event::Git(_)) => true,
            (Phase::Config, Event::Configured(_)) => true,
            (Phase::Mainline, Event::Git(_)) => true,
            (Phase::Master, Event::Git(_)) => true,
            (Phase::Add, Event::Git(_)) => true,
            (Phase::Entries, Event::Git(_)) => true,
            (Phase::Reserve, Event::Reserved(_)) => true,
            (Phase::Stage, Event::Copied(_)) => true,
            (Phase::Promote, Event::Copied(_)) => true,
            (Phase::Clear, Event::Finished) => true,
            (Phase::Patterns, Event::Patterns(_)) => true,
            (Phase::Scrub, Event::Scrubbed(_)) => true,
            _ => false,
        }
    }

    fn ready(&mut self, outcome: Result<(), String>, next: Phase)
        ensures
            final(self)@ == (match outcome {
                Ok(_) => Run { phase: next, ..old(self)@ },
                Err(m) => fail(old(self)@, m@),
            }),
    {
        match outcome {
            Ok(_) => self.go(next),
            Err(message) => self.fail(message),
        }
    }

    fn advance(&mut self, event: Event, interrupted: bool)
        requires
            valid(old(self)@),
        ensures
            final(self)@ == step(old(self)@, event, interrupted),
            valid(final(self)@),
    {
        proof {
            lemma_step_valid(self@, event, interrupted);
        }
        if interrupted && self.waits_for(&event) {
            self.turn_back(event);
            return;
        }
        match (self.phase, event) {
            (Phase::Probe, Event::Exists(found)) => {
                if found {
                    let mut message = "worktree already exists at ".to_owned();
                    message.append(from_utf8_lossy(self.dest.as_slice()).as_str());
                    self.fail(message);
                } else {
                    self.go(Phase::Exclude);
                }
            },
            (Phase::Exclude, Event::Ready(outcome)) => match outcome {
                Ok(_) => match parent(self.dest.as_slice()) {
                    Some(_) => self.go(Phase::Parent),
                    None => self.fail("destination has no parent".to_owned()),
                },
                Err(message) => self.fail(message),
            },
            (Phase::Parent, Event::Ready(outcome)) => self.ready(outcome, Phase::Branch),
            (Phase::Branch, Event::Git(reply)) => self.learn_branch(branch_exists(&reply)),
            (Phase::Config, Event::Configured(outcome)) => match outcome {
                Ok(configured) => self.learn_config(configured),
                Err(message) => self.fail(message),
            },
            (Phase::Mainline, Event::Git(reply)) => {
                if branch_exists(&reply) {
                    self.cut_from(resolve_base(None, None, true, false));
                } else {
                    self.go(Phase::Master);
                }
            },
            (Phase::Master, Event::Git(reply)) => {
                self.cut_from(resolve_base(None, None, false, branch_exists(&reply)));
            },
            (Phase::Add, Event::Git(reply)) => self.learn_added(&reply),
            (Phase::Entries, Event::Git(reply)) => self.learn_entries(&reply),
            (Phase::Reserve, Event::Reserved(outcome)) => match outcome {
                Ok(path) => {
                    self.slot = Some(path);
                    self.go(Phase::Stage);
                },
                Err(message) => self.fail(message),
            },
            (Phase::Stage, Event::Copied(copied)) => self.learn_staged(copied),
            (Phase::Promote, Event::Copied(copied)) => self.learn_promoted(copied),
            (Phase::Clear, Event::Finished) => {
                self.slot = None;
                self.go(Phase::Patterns);
            },
            (Phase::Patterns, Event::Patterns(outcome)) => match outcome {
                Ok(found) => self.go(if found && self.moved.len() > 0 { Phase::Scrub } else { Phase::Done }),
                Err(message) => self.fail(message),
            },
            (Phase::Scrub, Event::Scrubbed(outcome)) => match outcome {
                Ok(n) => self.learn_scrubbed(n),
                Err(message) => self.fail(message),
            },
            (Phase::AbortDiscard, Event::Finished) => {
                self.slot = None;
                self.go(Phase::AbortProbe);
            },
            (Phase::AbortProbe, Event::Exists(found)) => {
                self.go(if found { Phase::AbortRemove } else { Phase::AbortClean });
            },
            (Phase::AbortRemove, Event::Git(reply)) => self.go(
                if reply.success { Phase::AbortTidy } else { Phase::AbortWipe },
            ),
            (Phase::AbortWipe, Event::Finished) => self.go(Phase::AbortPrune),
            (Phase::AbortPrune, Event::Git(_)) => self.go(Phase::AbortTidy),
            (Phase::AbortTidy, Event::Finished) => {
                let mut line = "aborted: removed partial worktree ".to_owned();
                line.append(from_utf8_lossy(self.dest.as_slice()).as_str());
                self.go(Phase::Aborted);
                self.say(line);
            },
            (Phase::AbortClean, Event::Finished) => {
                self.go(Phase::Aborted);
                self.say("aborted".to_owned());
            },
            _ => {},
        }
    }
}

/// The building of a worktree.
pub struct Creation {
    state: State,
}

impl View for Creation {
    type V = Run;

    closed spec fn view(&self) -> Run {
        self.state@
    }
}

impl Creation {
    #[verifier::type_invariant]
    closed spec fn is_sound(self) -> bool {
        valid(self.state@)
    }

    /// Starts on the worktree `name` at `dest`, to be cloned from the worktree
    /// at `source`.
    pub fn new(name: &str, base: Option<&str>, source: &[u8], main_root: &[u8], dest: &[u8]) -> (r: Creation)
        ensures
            r@ == start(name@, slice_in(base), source@, main_root@, dest@),
    {
        Creation { state: State::new(name, base, source, main_root, dest) }
    }

    /// How far the run has come.
    pub fn phase(&self) -> (r: Phase)
        ensures
            r == self@.phase,
    {
        self.state.phase
    }

    /// The number of entries that git ignores, once that is known.
    pub fn total(&self) -> (r: usize)
        ensures
            r == self@.entries.len(),
    {
        self.state.entries.len()
    }

    /// What the user is to be told, from the beginning on.
    pub fn said(&self) -> (r: &Vec<String>)
        ensures
            texts(r@) == self@.said,
    {
        &self.state.said
    }

    /// Why it did not work out; empty unless it failed.
    pub fn error(&self) -> (r: &str)
        ensures
            r@ == self@.error,
    {
        self.state.error.as_str()
    }

    /// What goes to the standard output, so that a shell can go there: the path
    /// of the worktree once it is there, and nothing in any other case.
    pub fn stdout(&self) -> (r: Option<String>)
        ensures
            text_in(r) == printed(self@),
            match r {
                Some(line) => self@.phase is Done && line@ == shown(self@.dest),
                None => self@.phase !is Done,
            },
    {
        match self.state.phase {
            Phase::Done => Some(from_utf8_lossy(self.state.dest.as_slice())),
            _ => None,
        }
    }

    /// The line at the end of a run that took the time `elapsed`.
    pub fn summary(&self, elapsed: &str) -> (r: String)
        ensures
            r@ == summary_text(self@.cloned as nat, self@.scrubbed as nat, self@.failed as nat, elapsed@),
    {
        summary(self.state.cloned as u64, self.state.scrubbed, self.state.failed as u64, elapsed)
    }

    /// The exit code of the program, once the run is over.
    pub fn exit_code(&self) -> (r: Option<i32>)
        ensures
            r == code_of(self@.phase),
            self@.phase is Aborted ==> r == Some(130i32),
            r == (match self@.phase {
                Phase::Done => Some(0i32),
                Phase::Failed => Some(1i32),
                Phase::Aborted => Some(INTERRUPTED),
                _ => None,
            }),
    {
        match self.state.phase {
            Phase::Done => Some(0),
            Phase::Failed => Some(1),
            Phase::Aborted => Some(INTERRUPTED),
            _ => None,
        }
    }

    /// What is to be done next.
    pub fn action(&self) -> (r: Action)
        ensures
            r@ == act_of(self@),
    {
        proof {
            use_type_invariant(self);
        }
        self.state.action()
    }

    /// Takes note of what came of the last action, and of whether there was an
    /// interrupt.
    pub fn advance(&mut self, event: Event, interrupted: bool)
        ensures
            final(self)@ == step(old(self)@, event, interrupted),
            valid(final(self)@),
    {
        proof {
            use_type_invariant(&*self);
        }
        let mut state = State::new("", None, &[], &[], &[]);
        std::mem::swap(&mut state, &mut self.state);
        state.advance(event, interrupted);
        self.state = state;
    }
}

} // verus!
