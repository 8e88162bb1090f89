//! The course of building a worktree: what is asked for at each point and what
//! follows from what came of it, and what a run must have been told to have
//! come as far as it has.
use crate::clonefile::{clone_note, Copied};
use crate::create::{act_of, after, code_of, configured_base_note, ignored_base_note, lemma_step_valid, printed, rank, resolved, start, step, summary_text, valid, Phase, Run};
use crate::path::{has_parent, joined};
use crate::repo::{entries, git_failure, lemma_command_words, lemma_mainline, lemma_namespace_place, output_text};
use crate::steps::{Act, Event};
use crate::text::{decimal, shown};
use vstd::prelude::*;
use vstd::utf8::encode_utf8;

verus! {

/// The directory of the worktrees of a repository.
pub open spec fn worktrees(main_root: Seq<u8>) -> Seq<u8> {
    joined(main_root, encode_utf8(".sprout"@))
}

/// The words that ask git whether a branch is there.
pub open spec fn asks_branch(name: Seq<char>) -> Seq<Seq<char>> {
    seq!["show-ref"@, "--verify"@, "--quiet"@, "refs/heads/"@ + name]
}

/// The words that have git add a worktree for a branch that is there.
pub open spec fn adds_existing(name: Seq<char>, dest: Seq<u8>) -> Seq<Seq<char>> {
    seq!["worktree"@, "add"@, shown(dest), name]
}

/// The words that have git add a worktree with a new branch.
pub open spec fn adds_new(name: Seq<char>, dest: Seq<u8>, base: Seq<char>) -> Seq<Seq<char>> {
    seq!["worktree"@, "add"@, "-b"@, name, shown(dest), base]
}

/// The words that have git remove a worktree.
pub open spec fn removes(dest: Seq<u8>) -> Seq<Seq<char>> {
    seq!["worktree"@, "remove"@, "--force"@, shown(dest)]
}

/// The words that have git forget worktrees that are gone.
pub open spec fn prunes() -> Seq<Seq<char>> {
    seq!["worktree"@, "prune"@]
}

/// The words that have git list what it ignores.
pub open spec fn lists() -> Seq<Seq<char>> {
    seq!["ls-files"@, "--others"@, "--ignored"@, "--exclude-standard"@, "--directory"@, "-z"@]
}

/// What a run asks for on the way to a worktree.
pub proof fn lemma_asks(run: Run)
    requires
        valid(run),
    ensures
        run.phase is Probe ==> act_of(run) == Act::Probe(run.dest),
        run.phase is Exclude ==> act_of(run) == Act::Exclude(run.main_root),
        run.phase is Parent ==> act_of(run) == Act::MakeParent(run.dest),
        run.phase is Branch ==> act_of(run) == Act::Git(run.source, asks_branch(run.name)),
        run.phase is Config ==> act_of(run) == Act::Config(
            joined(worktrees(run.main_root), encode_utf8("config.json"@)),
        ),
        run.phase is Mainline ==> act_of(run) == Act::Git(run.source, asks_branch("main"@)),
        run.phase is Master ==> act_of(run) == Act::Git(run.source, asks_branch("master"@)),
        run.phase is Add && run.existing ==> act_of(run) == Act::Git(run.source, adds_existing(run.name, run.dest)),
        run.phase is Add && !run.existing ==> (run.from matches Some(base) && act_of(run) == Act::Git(
            run.source,
            adds_new(run.name, run.dest, base),
        )),
        run.phase is Entries ==> act_of(run) == Act::Git(run.source, lists()),
        run.phase is Reserve ==> act_of(run) == Act::Reserve(worktrees(run.main_root), run.name, true),
        run.phase is Stage ==> (run.slot matches Some(slot) && act_of(run) == Act::Clone(
            run.entries[run.next],
            joined(run.source, run.entries[run.next]),
            joined(slot, run.entries[run.next]),
        )),
        run.phase is Promote ==> (run.slot matches Some(slot) && act_of(run) == Act::Move(
            run.staged[run.next],
            joined(slot, run.staged[run.next]),
            joined(run.dest, run.staged[run.next]),
        )),
        run.phase is Clear ==> (run.slot matches Some(slot) && act_of(run) == Act::Discard(slot)),
        run.phase is Patterns ==> act_of(run) == Act::Patterns(joined(run.source, encode_utf8(".sproutignore"@))),
        run.phase is Scrub ==> act_of(run) == Act::Scrub(run.moved[run.next]),
        run.phase is Done || run.phase is Failed ==> act_of(run) == Act::Stop,
{
    lemma_command_words(run.name, run.dest, run.from->0, true);
    lemma_command_words("main"@, run.dest, run.from->0, true);
    lemma_command_words("master"@, run.dest, run.from->0, true);
    lemma_namespace_place(run.main_root);
}

/// What a run asks for on the way back. Git removes the worktree from where it
/// was asked for.
pub proof fn lemma_asks_back(run: Run)
    requires
        valid(run),
    ensures
        run.phase is AbortDiscard ==> (run.slot matches Some(slot) && act_of(run) == Act::Discard(slot)),
        run.phase is AbortProbe ==> act_of(run) == Act::Probe(run.dest),
        run.phase is AbortRemove ==> act_of(run) == Act::Git(run.source, removes(run.dest)),
        run.phase is AbortWipe ==> act_of(run) == Act::Wipe(run.dest),
        run.phase is AbortPrune ==> act_of(run) == Act::Git(run.source, prunes()),
        run.phase is AbortTidy || run.phase is AbortClean ==> act_of(run) == Act::Tidy(
            worktrees(run.main_root),
            run.dest,
        ),
        run.phase is Aborted ==> act_of(run) == Act::Stop,
{
    lemma_command_words(run.name, run.dest, run.name, true);
    lemma_namespace_place(run.main_root);
}

/// What a run was started for stays as it is, what was said stays said, and
/// nothing that was counted is taken out of the count.
#[verifier::spinoff_prover]
#[verifier::rlimit(40)]
pub proof fn lemma_stays(run: Run, event: Event, interrupted: bool)
    requires
        valid(run),
    ensures
        ({
            let next = step(run, event, interrupted);
            &&& next.name == run.name
            &&& next.base == run.base
            &&& next.source == run.source
            &&& next.main_root == run.main_root
            &&& next.dest == run.dest
            &&& run.from is Some ==> next.from == run.from
            &&& next.said == run.said || (next.said.len() == run.said.len() + 1 && next.said.drop_last() == run.said)
            &&& next.cloned == run.cloned || next.cloned == run.cloned + 1
            &&& next.present == run.present || next.present == run.present + 1
            &&& next.failed == run.failed || next.failed == run.failed + 1
            &&& next.scrubbed >= run.scrubbed
            &&& next.phase !is Failed ==> next.error == run.error
            &&& next.phase is Failed ==> next.said == run.said
        }),
{
    assert(step(run, event, interrupted).said.len() == run.said.len() + 1 ==> step(
        run,
        event,
        interrupted,
    ).said.drop_last() =~= run.said);
}

/// How the ground is prepared: nothing may stand at the path; git is kept from
/// seeing the worktrees; and the directory that the path belongs in is made.
pub proof fn lemma_ground(run: Run, event: Event)
    requires
        valid(run),
        run.phase is Probe || run.phase is Exclude || run.phase is Parent,
    ensures
        ({
            let next = step(run, event, false);
            let act = act_of(next);
            match (run.phase, event) {
                (Phase::Probe, Event::Exists(found)) => if found {
                    act == Act::Stop && next.phase is Failed && next.error == "worktree already exists at "@ + shown(
                        run.dest,
                    )
                } else {
                    act == Act::Exclude(run.main_root)
                },
                (Phase::Exclude, Event::Ready(Ok(_))) => if has_parent(run.dest) {
                    act == Act::MakeParent(run.dest)
                } else {
                    act == Act::Stop && next.phase is Failed && next.error == "destination has no parent"@
                },
                (Phase::Parent, Event::Ready(Ok(_))) => act == Act::Git(run.source, asks_branch(run.name)),
                (_, Event::Ready(Err(message))) => run.phase !is Probe ==> act == Act::Stop && next.phase is Failed
                    && next.error == message@,
                _ => next == run,
            }
        }),
{
    lemma_step_valid(run, event, false);
    lemma_asks(step(run, event, false));
    lemma_asks(run);
}

/// How the base is found: git is asked about the branch; where none was asked
/// for, the config is read; and where that sets none for a new branch, git is
/// asked about `main` and then about `master`.
#[verifier::spinoff_prover]
#[verifier::rlimit(40)]
pub proof fn lemma_base_found(run: Run, event: Event)
    requires
        valid(run),
        run.phase is Branch || run.phase is Config || run.phase is Mainline || run.phase is Master,
    ensures
        ({
            let next = step(run, event, false);
            let act = act_of(next);
            let config = Act::Config(joined(worktrees(run.main_root), encode_utf8("config.json"@)));
            let existing = Act::Git(run.source, adds_existing(run.name, run.dest));
            match (run.phase, event) {
                (Phase::Branch, Event::Git(reply)) => {
                    &&& next.existing == reply.success
                    &&& run.base is None ==> act == config && next.said == run.said
                    &&& run.base matches Some(b) ==> if reply.success {
                        act == existing && next.said == run.said.push(
                            "warning: branch '"@ + run.name + "' already exists — ignoring --base "@ + b
                                + " (--base only applies when creating a new branch; use a new name, or delete '"@
                                + run.name + "' to recreate it from "@ + b + ")"@,
                        )
                    } else {
                        act == Act::Git(run.source, adds_new(run.name, run.dest, b)) && next.said == run.said
                    }
                },
                (Phase::Config, Event::Configured(Ok(Some(b)))) => if run.existing {
                    act == existing && next.said == run.said.push(
                        "warning: branch '"@ + run.name
                            + "' already exists — checking it out as-is, not from the configured base '"@ + b@
                            + "' (a branch's base is fixed at creation; use a new name, or delete '"@ + run.name
                            + "' to recut it from '"@ + b@ + "')"@,
                    )
                } else {
                    act == Act::Git(run.source, adds_new(run.name, run.dest, b@)) && next.said == run.said
                },
                (Phase::Config, Event::Configured(Ok(None))) => {
                    &&& next.said == run.said
                    &&& run.existing ==> act == existing
                    &&& !run.existing ==> act == Act::Git(run.source, asks_branch("main"@))
                },
                (Phase::Config, Event::Configured(Err(message))) => act == Act::Stop && next.phase is Failed
                    && next.error == message@,
                (Phase::Mainline, Event::Git(reply)) => if reply.success {
                    act == Act::Git(run.source, adds_new(run.name, run.dest, "main"@))
                } else {
                    act == Act::Git(run.source, asks_branch("master"@))
                },
                (Phase::Master, Event::Git(reply)) => if reply.success {
                    act == Act::Git(run.source, adds_new(run.name, run.dest, "master"@))
                } else {
                    act == Act::Git(run.source, adds_new(run.name, run.dest, "origin/HEAD"@))
                },
                _ => next == run,
            }
        }),
{
    lemma_step_valid(run, event, false);
    lemma_asks(step(run, event, false));
    lemma_mainline(true, true);
    lemma_mainline(true, false);
    lemma_mainline(false, true);
    lemma_mainline(false, false);
}

/// How the worktree is added, and what is found to clone.
#[verifier::spinoff_prover]
#[verifier::rlimit(40)]
pub proof fn lemma_added(run: Run, event: Event)
    requires
        valid(run),
        run.phase is Add || run.phase is Entries || run.phase is Reserve,
    ensures
        ({
            let next = step(run, event, false);
            let act = act_of(next);
            let patterns = Act::Patterns(joined(run.source, encode_utf8(".sproutignore"@)));
            match (run.phase, event) {
                (Phase::Add, Event::Git(reply)) => if reply.success {
                    &&& act == Act::Git(run.source, lists())
                    &&& output_text(reply.stdout@).len() == 0 ==> next.said == run.said
                    &&& output_text(reply.stdout@).len() > 0 ==> next.said == run.said.push(
                        output_text(reply.stdout@),
                    )
                } else {
                    &&& act == Act::Stop
                    &&& next.phase is Failed
                    &&& run.existing ==> next.error == git_failure(adds_existing(run.name, run.dest), reply.stderr@)
                    &&& !run.existing ==> next.error == git_failure(
                        adds_new(run.name, run.dest, run.from->0),
                        reply.stderr@,
                    )
                },
                (Phase::Entries, Event::Git(reply)) => if reply.success {
                    &&& next.entries == entries(reply.stdout@)
                    &&& next.entries.len() == 0 ==> act == patterns
                    &&& next.entries.len() > 0 ==> act == Act::Reserve(worktrees(run.main_root), run.name, true)
                } else {
                    act == Act::Stop && next.phase is Failed && next.error == "git ls-files failed:\n"@
                        + output_text(reply.stderr@)
                },
                (Phase::Reserve, Event::Reserved(Ok(slot))) => {
                    &&& next.slot == Some(slot@)
                    &&& act == Act::Clone(
                        run.entries[0],
                        joined(run.source, run.entries[0]),
                        joined(slot@, run.entries[0]),
                    )
                },
                (Phase::Reserve, Event::Reserved(Err(message))) => act == Act::Stop && next.phase is Failed
                    && next.error == message@,
                _ => next == run,
            }
        }),
{
    lemma_step_valid(run, event, false);
    lemma_asks(run);
    lemma_asks(step(run, event, false));
    lemma_command_words(run.name, run.dest, run.from->0, true);
}

/// What follows once something came of cloning an entry into the staging
/// directory: the next entry, or after the last the first of the clones to be
/// moved, or where there is none the end of the staging directory.
#[verifier::spinoff_prover]
#[verifier::rlimit(40)]
pub proof fn lemma_cloned(run: Run, copied: Copied)
    requires
        valid(run),
        run.phase is Stage,
        copied !is Fatal,
    ensures
        ({
            let next = step(run, Event::Copied(copied), false);
            let act = act_of(next);
            let rel = run.entries[run.next];
            &&& next.staged == (if copied is Fresh { run.staged.push(rel) } else { run.staged })
            &&& next.present == (if copied is Present { run.present + 1 } else { run.present })
            &&& next.failed == (if copied is Failed { run.failed + 1 } else { run.failed })
            &&& next.said == (match copied {
                Copied::Failed(fault) => run.said.push(clone_note(rel, fault)),
                _ => run.said,
            })
            &&& next.moved == run.moved && next.cloned == run.cloned
            &&& next.slot == run.slot && next.entries == run.entries
            &&& run.next + 1 < run.entries.len() ==> act == Act::Clone(
                run.entries[run.next + 1],
                joined(run.source, run.entries[run.next + 1]),
                joined(run.slot->0, run.entries[run.next + 1]),
            )
            &&& run.next + 1 == run.entries.len() && next.staged.len() > 0 ==> act == Act::Move(
                next.staged[0],
                joined(run.slot->0, next.staged[0]),
                joined(run.dest, next.staged[0]),
            )
            &&& run.next + 1 == run.entries.len() && next.staged.len() == 0 ==> act == Act::Discard(run.slot->0)
        }),
{
    lemma_step_valid(run, Event::Copied(copied), false);
    lemma_asks(step(run, Event::Copied(copied), false));
}

/// What follows once something came of moving an entry into the worktree: the
/// next of the clones, or after the last the end of the staging directory.
#[verifier::spinoff_prover]
#[verifier::rlimit(40)]
pub proof fn lemma_moved(run: Run, copied: Copied)
    requires
        valid(run),
        run.phase is Promote,
        copied !is Fatal,
    ensures
        ({
            let next = step(run, Event::Copied(copied), false);
            let act = act_of(next);
            let rel = run.staged[run.next];
            &&& next.moved == (if copied is Fresh { run.moved.push(rel) } else { run.moved })
            &&& next.cloned == next.moved.len()
            &&& next.present == (if copied is Present { run.present + 1 } else { run.present })
            &&& next.failed == (if copied is Failed { run.failed + 1 } else { run.failed })
            &&& next.said == (match copied {
                Copied::Failed(fault) => run.said.push(clone_note(rel, fault)),
                _ => run.said,
            })
            &&& next.slot == run.slot && next.entries == run.entries && next.staged == run.staged
            &&& run.next + 1 < run.staged.len() ==> act == Act::Move(
                run.staged[run.next + 1],
                joined(run.slot->0, run.staged[run.next + 1]),
                joined(run.dest, run.staged[run.next + 1]),
            )
            &&& run.next + 1 == run.staged.len() ==> act == Act::Discard(run.slot->0)
        }),
{
    lemma_step_valid(run, Event::Copied(copied), false);
    lemma_asks(step(run, Event::Copied(copied), false));
}

/// An entry whose directory could not be made ends the run with the reason.
pub proof fn lemma_copy_fatal(run: Run, message: String)
    requires
        valid(run),
        run.phase is Stage || run.phase is Promote,
    ensures
        ({
            let next = step(run, Event::Copied(Copied::Fatal(message)), false);
            &&& next.phase is Failed
            &&& next.error == message@
            &&& act_of(next) == Act::Stop
            &&& next.said == run.said
            &&& next.moved == run.moved
        }),
{
}

/// How a run comes through: the staging directory is given up; the patterns are
/// read; and where there are any, each entry that was moved is scrubbed, and what
/// was scrubbed is counted, up to the largest number.
#[verifier::spinoff_prover]
#[verifier::rlimit(40)]
pub proof fn lemma_finished(run: Run, event: Event)
    requires
        valid(run),
        run.phase is Clear || run.phase is Patterns || run.phase is Scrub,
    ensures
        ({
            let next = step(run, event, false);
            let act = act_of(next);
            match (run.phase, event) {
                (Phase::Clear, Event::Finished) => {
                    &&& next.slot is None
                    &&& act == Act::Patterns(joined(run.source, encode_utf8(".sproutignore"@)))
                },
                (Phase::Patterns, Event::Patterns(Ok(found))) => if found && run.moved.len() > 0 {
                    act == Act::Scrub(run.moved[0])
                } else {
                    act == Act::Stop && next.phase is Done
                },
                (Phase::Scrub, Event::Scrubbed(Ok(n))) => {
                    &&& run.scrubbed + n <= u64::MAX ==> next.scrubbed == run.scrubbed + n
                    &&& run.scrubbed + n > u64::MAX ==> next.scrubbed == u64::MAX
                    &&& run.next + 1 < run.moved.len() ==> act == Act::Scrub(run.moved[run.next + 1])
                    &&& run.next + 1 == run.moved.len() ==> act == Act::Stop && next.phase is Done
                },
                (Phase::Patterns, Event::Patterns(Err(message))) => act == Act::Stop && next.phase is Failed
                    && next.error == message@,
                (Phase::Scrub, Event::Scrubbed(Err(message))) => act == Act::Stop && next.phase is Failed
                    && next.error == message@,
                _ => next == run,
            }
        }),
        step(run, event, false).said == run.said,
        step(run, event, false).moved == run.moved,
{
    lemma_step_valid(run, event, false);
    lemma_asks(step(run, event, false));
}

/// The way back, whether there is one more interrupt or not, and whether the
/// branch was there or not: once the staging directory was given up, the path is
/// looked at; what is found there is removed by git, or else deleted, and then
/// forgotten by git; and then the empty directories go.
#[verifier::spinoff_prover]
#[verifier::rlimit(40)]
pub proof fn lemma_way_back(run: Run, event: Event, interrupted: bool)
    requires
        valid(run),
        run.phase is AbortDiscard || run.phase is AbortProbe || run.phase is AbortRemove || run.phase is AbortWipe
            || run.phase is AbortPrune || run.phase is AbortTidy || run.phase is AbortClean || run.phase is Aborted,
    ensures
        ({
            let next = step(run, event, interrupted);
            let act = act_of(next);
            let tidy = Act::Tidy(worktrees(run.main_root), run.dest);
            match (run.phase, event) {
                (Phase::AbortDiscard, Event::Finished) => act == Act::Probe(run.dest) && next.phase is AbortProbe,
                (Phase::AbortProbe, Event::Exists(found)) => act == (if found {
                    Act::Git(run.source, removes(run.dest))
                } else {
                    tidy
                }),
                (Phase::AbortRemove, Event::Git(reply)) => act == (if reply.success {
                    tidy
                } else {
                    Act::Wipe(run.dest)
                }),
                (Phase::AbortWipe, Event::Finished) => act == Act::Git(run.source, prunes()),
                (Phase::AbortPrune, Event::Git(_)) => act == tidy,
                (Phase::AbortTidy, Event::Finished) => act == Act::Stop && next.phase is Aborted && next.said
                    == run.said.push("aborted: removed partial worktree "@ + shown(run.dest)),
                (Phase::AbortClean, Event::Finished) => act == Act::Stop && next.phase is Aborted && next.said
                    == run.said.push("aborted"@),
                _ => next == run,
            }
        }),
        step(run, event, interrupted).phase !is Aborted ==> step(run, event, interrupted).said == run.said,
        step(run, event, interrupted).moved == run.moved,
{
    lemma_step_valid(run, event, interrupted);
    lemma_asks_back(run);
    lemma_asks_back(step(run, event, interrupted));
}

/// What an interrupt leads to. Before git was told to add the worktree there is
/// only to tidy up; after that the staging directory is given up, where there is
/// one, and then the path is looked at. What came of the last action is neither
/// counted nor told.
#[verifier::spinoff_prover]
#[verifier::rlimit(40)]
pub proof fn lemma_interrupted(run: Run, event: Event)
    requires
        valid(run),
    ensures
        ({
            let next = step(run, event, true);
            let act = act_of(next);
            let tidy = Act::Tidy(worktrees(run.main_root), run.dest);
            let look = Act::Probe(run.dest);
            match (run.phase, event) {
                (Phase::Probe, Event::Exists(found)) => if found {
                    act == Act::Stop && next.phase is Failed && next.error == "worktree already exists at "@ + shown(
                        run.dest,
                    )
                } else {
                    act == tidy
                },
                (Phase::Exclude, Event::Ready(_)) => act == tidy,
                (Phase::Parent, Event::Ready(_)) => act == tidy,
                (Phase::Branch, Event::Git(_)) => act == tidy,
                (Phase::Config, Event::Configured(_)) => act == tidy,
                (Phase::Mainline, Event::Git(_)) => act == tidy,
                (Phase::Master, Event::Git(_)) => act == tidy,
                (Phase::Add, Event::Git(_)) => act == look,
                (Phase::Entries, Event::Git(_)) => act == look,
                (Phase::Reserve, Event::Reserved(Ok(slot))) => act == Act::Discard(slot@),
                (Phase::Reserve, Event::Reserved(Err(_))) => act == look,
                (Phase::Stage, Event::Copied(_)) => act == Act::Discard(run.slot->0),
                (Phase::Promote, Event::Copied(_)) => act == Act::Discard(run.slot->0),
                (Phase::Clear, Event::Finished) => act == look,
                (Phase::Patterns, Event::Patterns(_)) => act == look,
                (Phase::Scrub, Event::Scrubbed(_)) => act == look,
                _ => next == step(run, event, false),
            }
        }),
{
    lemma_step_valid(run, event, true);
    lemma_asks(step(run, event, true));
    lemma_asks_back(step(run, event, true));
}

/// An interrupt on the way to a worktree changes nothing of what was counted and
/// told.
#[verifier::spinoff_prover]
#[verifier::rlimit(40)]
pub proof fn lemma_interrupt_counts_nothing(run: Run, event: Event)
    requires
        valid(run),
        rank(run.phase) > rank(Phase::AbortDiscard),
    ensures
        ({
            let next = step(run, event, true);
            &&& next.said == run.said
            &&& next.entries == run.entries
            &&& next.staged == run.staged
            &&& next.moved == run.moved
            &&& next.cloned == run.cloned
            &&& next.present == run.present
            &&& next.failed == run.failed
            &&& next.scrubbed == run.scrubbed
            &&& next.phase is Failed ==> run.phase is Probe && event == Event::Exists(true)
        }),
{
}

/// A run starts with nothing asked, found, told or counted.
pub proof fn lemma_start(
    name: Seq<char>,
    base: Option<Seq<char>>,
    source: Seq<u8>,
    main_root: Seq<u8>,
    dest: Seq<u8>,
)
    ensures
        ({
            let run = start(name, base, source, main_root, dest);
            &&& valid(run)
            &&& act_of(run) == Act::Probe(dest)
            &&& run.name == name && run.base == base
            &&& run.source == source && run.main_root == main_root && run.dest == dest
            &&& run.said.len() == 0 && run.error.len() == 0
            &&& run.cloned == 0 && run.present == 0 && run.failed == 0 && run.scrubbed == 0
            &&& run.entries.len() == 0 && run.staged.len() == 0 && run.moved.len() == 0
            &&& run.slot is None && run.from is None && !run.existing
        }),
{
}

/// The base that was asked for counts before the configured one, and that before
/// the mainline, which is `main`, else `master`, else `origin/HEAD`.
pub proof fn lemma_resolved(asked: Seq<char>, set: Option<Seq<char>>, main: bool, master: bool)
    ensures
        resolved(Some(asked), set, main, master) == asked,
        set matches Some(b) ==> resolved(None, set, main, master) == b,
        resolved(None, None, true, master) == "main"@,
        resolved(None, None, false, true) == "master"@,
        resolved(None, None, false, false) == "origin/HEAD"@,
{
    lemma_mainline(main, master);
    lemma_mainline(true, master);
    lemma_mainline(false, true);
    lemma_mainline(false, false);
}

/// The warnings about a base that does not count, in full: they name the branch
/// and the base.
pub proof fn lemma_base_notes(name: Seq<char>, base: Seq<char>)
    ensures
        ignored_base_note(name, base) == "warning: branch '"@ + name + "' already exists — ignoring --base "@ + base
            + " (--base only applies when creating a new branch; use a new name, or delete '"@ + name
            + "' to recreate it from "@ + base + ")"@,
        configured_base_note(name, base) == "warning: branch '"@ + name
            + "' already exists — checking it out as-is, not from the configured base '"@ + base
            + "' (a branch's base is fixed at creation; use a new name, or delete '"@ + name + "' to recut it from '"@
            + base + "')"@,
{
}

/// The line at the end says how many entries were cloned, and of scrubbed paths
/// and failed entries only where there are any.
pub proof fn lemma_summary(cloned: nat, scrubbed: nat, failed: nat, elapsed: Seq<char>)
    ensures
        summary_text(1, 0, 0, elapsed) == "cloned "@ + decimal(1) + " ignored entr"@ + "y"@ + " in "@ + elapsed,
        cloned != 1 ==> summary_text(cloned, 0, 0, elapsed) == "cloned "@ + decimal(cloned) + " ignored entr"@
            + "ies"@ + " in "@ + elapsed,
        scrubbed > 0 ==> summary_text(cloned, scrubbed, 0, elapsed) == summary_text(cloned, 0, 0, elapsed)
            + ", scrubbed "@ + decimal(scrubbed),
        failed > 0 ==> summary_text(cloned, scrubbed, failed, elapsed) == summary_text(cloned, scrubbed, 0, elapsed)
            + ", "@ + decimal(failed) + " failed"@,
{
}

/// What is recorded on the way is what was reported of the action that was asked
/// for: whether the branch was there, the base, the entries, the staging
/// directory, what was cloned, what was moved and what was scrubbed.
#[verifier::spinoff_prover]
#[verifier::rlimit(60)]
pub proof fn lemma_recorded(run: Run, event: Event, interrupted: bool)
    requires
        valid(run),
    ensures
        ({
            let next = step(run, event, interrupted);
            &&& next.existing != run.existing ==> {
                &&& act_of(run) == Act::Git(run.source, asks_branch(run.name))
                &&& event matches Event::Git(reply) && reply.success == next.existing
            }
            &&& next.from != run.from ==> match event {
                Event::Git(reply) => {
                    ||| act_of(run) == Act::Git(run.source, asks_branch(run.name)) && !reply.success && next.from
                        == run.base
                    ||| act_of(run) == Act::Git(run.source, asks_branch("main"@)) && reply.success && next.from
                        == Some("main"@)
                    ||| act_of(run) == Act::Git(run.source, asks_branch("master"@)) && reply.success && next.from
                        == Some("master"@)
                    ||| act_of(run) == Act::Git(run.source, asks_branch("master"@)) && !reply.success && next.from
                        == Some("origin/HEAD"@)
                },
                Event::Configured(Ok(Some(b))) => {
                    &&& act_of(run) == Act::Config(joined(worktrees(run.main_root), encode_utf8("config.json"@)))
                    &&& next.from == Some(b@)
                },
                _ => false,
            }
            &&& next.entries != run.entries ==> {
                &&& act_of(run) == Act::Git(run.source, lists())
                &&& event matches Event::Git(reply) && reply.success && next.entries == entries(reply.stdout@)
            }
            &&& next.slot is Some && next.slot != run.slot ==> {
                &&& act_of(run) == Act::Reserve(worktrees(run.main_root), run.name, true)
                &&& event matches Event::Reserved(Ok(path)) && next.slot == Some(path@)
            }
            &&& next.staged != run.staged ==> {
                &&& event == Event::Copied(Copied::Fresh)
                &&& act_of(run) matches Act::Clone(rel, from, to) && next.staged == run.staged.push(rel) && from
                    == joined(run.source, rel) && (run.slot matches Some(slot) && to == joined(slot, rel))
            }
            &&& next.moved != run.moved ==> {
                &&& event == Event::Copied(Copied::Fresh)
                &&& act_of(run) matches Act::Move(rel, from, to) && next.moved == run.moved.push(rel) && to == joined(
                    run.dest,
                    rel,
                ) && (run.slot matches Some(slot) && from == joined(slot, rel))
            }
            &&& next.scrubbed != run.scrubbed ==> {
                &&& act_of(run) is Scrub
                &&& event matches Event::Scrubbed(Ok(n)) && next.scrubbed <= run.scrubbed + n
            }
        }),
{
    lemma_asks(run);
    lemma_mainline(true, true);
    lemma_mainline(true, false);
    lemma_mainline(false, true);
    lemma_mainline(false, false);
}

/// Whether, in the course of a run, an action was asked for and something good
/// came of it.
#[verifier::opaque]
pub open spec fn reported(run: Run, events: Seq<(Event, bool)>, act: Act, good: spec_fn(Event) -> bool) -> bool {
    exists|j: int|
        0 <= j < events.len() && #[trigger] act_of(after(run, events.take(j))) == act && good(events[j].0)
}

proof fn lemma_reported_more(run: Run, events: Seq<(Event, bool)>, act: Act, good: spec_fn(Event) -> bool)
    requires
        events.len() > 0,
    ensures
        reported(run, events.drop_last(), act, good) ==> reported(run, events, act, good),
        act_of(after(run, events.drop_last())) == act && good(events.last().0) ==> reported(run, events, act, good),
{
    reveal(reported);
    let before = events.drop_last();
    if reported(run, before, act, good) {
        let j = choose|j: int|
            0 <= j < before.len() && #[trigger] act_of(after(run, before.take(j))) == act && good(before[j].0);
        assert(before.take(j) =~= events.take(j));
        assert(act_of(after(run, events.take(j))) == act && good(events[j].0));
    }
    if act_of(after(run, before)) == act && good(events.last().0) {
        let j = events.len() - 1;
        assert(before =~= events.take(j));
        assert(act_of(after(run, events.take(j))) == act && good(events[j].0));
    }
}

/// That something stands at a path, or that nothing does.
pub open spec fn stands(yes: bool) -> spec_fn(Event) -> bool {
    |e: Event| e == Event::Exists(yes)
}

/// That git succeeded, or that it did not.
pub open spec fn git_said(yes: bool) -> spec_fn(Event) -> bool {
    |e: Event| e matches Event::Git(reply) && reply.success == yes
}

/// That git ran.
pub open spec fn git_ran() -> spec_fn(Event) -> bool {
    |e: Event| e is Git
}

/// That git succeeded and listed these entries.
pub open spec fn git_listed(list: Seq<Seq<u8>>) -> spec_fn(Event) -> bool {
    |e: Event| e matches Event::Git(reply) && reply.success && entries(reply.stdout@) == list
}

/// That something was prepared.
pub open spec fn was_ready() -> spec_fn(Event) -> bool {
    |e: Event| e matches Event::Ready(Ok(_))
}

/// That something was done.
pub open spec fn was_finished() -> spec_fn(Event) -> bool {
    |e: Event| e is Finished
}

/// That the config sets this base, or none.
pub open spec fn was_set(base: Option<Seq<char>>) -> spec_fn(Event) -> bool {
    |e: Event| e matches Event::Configured(Ok(b)) && crate::steps::text_in(b) == base
}

/// That this path was reserved.
pub open spec fn was_reserved(path: Seq<u8>) -> spec_fn(Event) -> bool {
    |e: Event| e matches Event::Reserved(Ok(p)) && p@ == path
}

/// That the patterns were read.
pub open spec fn were_read() -> spec_fn(Event) -> bool {
    |e: Event| e matches Event::Patterns(Ok(_))
}

/// Whether git was told to remove what stands at the path and did, or else the
/// path was deleted and git was told to forget it.
pub open spec fn was_removed(run: Run, events: Seq<(Event, bool)>) -> bool {
    ||| reported(run, events, Act::Git(run.source, removes(run.dest)), git_said(true))
    ||| {
        &&& reported(run, events, Act::Git(run.source, removes(run.dest)), git_said(false))
        &&& reported(run, events, Act::Wipe(run.dest), was_finished())
        &&& reported(run, events, Act::Git(run.source, prunes()), git_ran())
    }
}

/// Whether git may have added the worktree: it was told to, or is about to be,
/// and the run is not over.
pub open spec fn may_stand(phase: Phase) -> bool {
    ||| phase is Add
    ||| phase is Entries
    ||| phase is Reserve
    ||| phase is Stage
    ||| phase is Promote
    ||| phase is Clear
    ||| phase is Patterns
    ||| phase is Scrub
}

/// What must have been reported for a run to be as far back as it is.
spec fn is_back(mid: Run, rest: Seq<(Event, bool)>, phase: Phase) -> bool {
    let found = reported(mid, rest, Act::Probe(mid.dest), stands(true));
    let refused = reported(mid, rest, Act::Git(mid.source, removes(mid.dest)), git_said(false));
    let wiped = reported(mid, rest, Act::Wipe(mid.dest), was_finished());
    match phase {
        Phase::Probe | Phase::Exclude | Phase::Parent | Phase::Branch | Phase::Config | Phase::Mainline
        | Phase::Master => false,
        Phase::AbortRemove => found,
        Phase::AbortWipe => found && refused,
        Phase::AbortPrune => found && refused && wiped,
        Phase::AbortTidy => found && was_removed(mid, rest),
        Phase::AbortClean => reported(mid, rest, Act::Probe(mid.dest), stands(false)),
        Phase::Aborted => {
            &&& reported(mid, rest, Act::Tidy(worktrees(mid.main_root), mid.dest), was_finished())
            &&& {
                ||| reported(mid, rest, Act::Probe(mid.dest), stands(false))
                ||| found && was_removed(mid, rest)
            }
        },
        _ => true,
    }
}

proof fn lemma_after_same(run: Run, events: Seq<(Event, bool)>)
    requires
        valid(run),
    ensures
        valid(after(run, events)),
        after(run, events).name == run.name,
        after(run, events).base == run.base,
        after(run, events).source == run.source,
        after(run, events).main_root == run.main_root,
        after(run, events).dest == run.dest,
    decreases events.len(),
{
    if events.len() > 0 {
        let before = after(run, events.drop_last());
        lemma_after_same(run, events.drop_last());
        lemma_step_valid(before, events.last().0, events.last().1);
        lemma_stays(before, events.last().0, events.last().1);
    }
}

/// Whether the way back leads from one phase to another by an event.
spec fn leads_back(from: Phase, event: Event, to: Phase) -> bool {
    match to {
        Phase::Probe | Phase::Exclude | Phase::Parent | Phase::Branch | Phase::Config | Phase::Mainline
        | Phase::Master => false,
        Phase::AbortRemove => from is AbortProbe && event == Event::Exists(true),
        Phase::AbortWipe => from is AbortRemove && (event matches Event::Git(reply) && !reply.success),
        Phase::AbortPrune => from is AbortWipe && event is Finished,
        Phase::AbortTidy => {
            ||| from is AbortRemove && (event matches Event::Git(reply) && reply.success)
            ||| from is AbortPrune && event is Git
        },
        Phase::AbortClean => from is AbortProbe && event == Event::Exists(false),
        Phase::Aborted => (from is AbortTidy || from is AbortClean) && event is Finished,
        _ => true,
    }
}

#[verifier::spinoff_prover]
#[verifier::rlimit(40)]
proof fn lemma_leads_back(run: Run, event: Event, interrupted: bool)
    requires
        valid(run),
        rank(run.phase) < rank(Phase::Master),
    ensures
        step(run, event, interrupted).phase == run.phase || leads_back(
            run.phase,
            event,
            step(run, event, interrupted).phase,
        ),
{
}

/// What is asked for on the way back in a phase.
spec fn asked_back(mid: Run, phase: Phase, act: Act) -> bool {
    &&& phase is AbortProbe ==> act == Act::Probe(mid.dest)
    &&& phase is AbortRemove ==> act == Act::Git(mid.source, removes(mid.dest))
    &&& phase is AbortWipe ==> act == Act::Wipe(mid.dest)
    &&& phase is AbortPrune ==> act == Act::Git(mid.source, prunes())
    &&& phase is AbortTidy || phase is AbortClean ==> act == Act::Tidy(worktrees(mid.main_root), mid.dest)
}

#[verifier::spinoff_prover]
#[verifier::rlimit(40)]
proof fn lemma_back_carried(mid: Run, rest: Seq<(Event, bool)>, from: Phase, act: Act, to: Phase)
    requires
        rest.len() > 0,
        act_of(after(mid, rest.drop_last())) == act,
        asked_back(mid, from, act),
        is_back(mid, rest.drop_last(), from),
        to == from || leads_back(from, rest.last().0, to),
    ensures
        is_back(mid, rest, to),
{
    lemma_reported_more(mid, rest, Act::Probe(mid.dest), stands(true));
    lemma_reported_more(mid, rest, Act::Probe(mid.dest), stands(false));
    lemma_reported_more(mid, rest, Act::Git(mid.source, removes(mid.dest)), git_said(true));
    lemma_reported_more(mid, rest, Act::Git(mid.source, removes(mid.dest)), git_said(false));
    lemma_reported_more(mid, rest, Act::Wipe(mid.dest), was_finished());
    lemma_reported_more(mid, rest, Act::Git(mid.source, prunes()), git_ran());
    lemma_reported_more(mid, rest, Act::Tidy(worktrees(mid.main_root), mid.dest), was_finished());
}

#[verifier::spinoff_prover]
#[verifier::rlimit(40)]
proof fn lemma_back(mid: Run, rest: Seq<(Event, bool)>)
    requires
        valid(mid),
        may_stand(mid.phase),
    ensures
        is_back(mid, rest, after(mid, rest).phase),
    decreases rest.len(),
{
    if rest.len() > 0 {
        let less = rest.drop_last();
        let run = after(mid, less);
        lemma_back(mid, less);
        lemma_after_same(mid, less);
        lemma_asks_back(run);
        lemma_leads_back(run, rest.last().0, rest.last().1);
        lemma_back_carried(mid, rest, run.phase, act_of(run), after(mid, rest).phase);
    }
}

/// A run that is turned back once git may have added the worktree leaves none
/// behind, whether the branch was there or not: it does not end before the path
/// was looked at and either nothing was found there, or git removed what was
/// found, or that was deleted and git was told to forget it. And the empty
/// directories were removed.
pub proof fn lemma_no_partial_worktree(mid: Run, rest: Seq<(Event, bool)>)
    requires
        valid(mid),
        may_stand(mid.phase),
        after(mid, rest).phase is Aborted,
    ensures
        reported(mid, rest, Act::Probe(mid.dest), stands(false)) || (reported(
            mid,
            rest,
            Act::Probe(mid.dest),
            stands(true),
        ) && was_removed(mid, rest)),
        reported(mid, rest, Act::Tidy(worktrees(mid.main_root), mid.dest), was_finished()),
{
    lemma_back(mid, rest);
}

/// A staging directory that was made is handed to the sweeper before a run comes
/// through or has been taken back.
#[verifier::spinoff_prover]
#[verifier::rlimit(60)]
pub proof fn lemma_staging_swept(first: Run, events: Seq<(Event, bool)>, path: Seq<u8>)
    requires
        valid(first),
        first.slot is None,
        reported(first, events, Act::Reserve(worktrees(first.main_root), first.name, true), was_reserved(path)),
    ensures
        after(first, events).phase is Done || after(first, events).phase is Aborted ==> reported(
            first,
            events,
            Act::Discard(path),
            was_finished(),
        ),
        after(first, events).slot == Some(path) || reported(first, events, Act::Discard(path), was_finished()),
    decreases events.len(),
{
    assert(events.len() > 0) by {
        reveal(reported);
    }
    let less = events.drop_last();
    let run = after(first, less);
    let reserve = Act::Reserve(worktrees(first.main_root), first.name, true);
    lemma_after_same(first, events);
    lemma_after_same(first, less);
    lemma_asks(run);
    lemma_asks_back(run);
    lemma_reported_more(first, events, Act::Discard(path), was_finished());
    if reported(first, less, reserve, was_reserved(path)) {
        lemma_staging_swept(first, less, path);
    } else {
        reveal(reported);
        let j = choose|j: int|
            0 <= j < events.len() && #[trigger] act_of(after(first, events.take(j))) == reserve && was_reserved(path)(
                events[j].0,
            );
        if j < less.len() {
            assert(less.take(j) =~= events.take(j));
            assert(less[j] == events[j]);
            assert(act_of(after(first, less.take(j))) == reserve);
            assert(false);
        }
        assert(events.take(j) =~= less);
    }
}

/// Whether a base is the one to cut a new branch from, by what was reported: the
/// one that was asked for, else the one that the config sets, else the first of
/// `main` and `master` that git knows, else `origin/HEAD`.
pub open spec fn is_base(first: Run, events: Seq<(Event, bool)>, base: Seq<char>) -> bool {
    let config = Act::Config(joined(worktrees(first.main_root), encode_utf8("config.json"@)));
    let main = Act::Git(first.source, asks_branch("main"@));
    let master = Act::Git(first.source, asks_branch("master"@));
    match first.base {
        Some(asked) => base == asked,
        None => {
            ||| reported(first, events, config, was_set(Some(base)))
            ||| reported(first, events, config, was_set(None)) && {
                ||| reported(first, events, main, git_said(true)) && base == "main"@
                ||| reported(first, events, main, git_said(false)) && {
                    ||| reported(first, events, master, git_said(true)) && base == "master"@
                    ||| reported(first, events, master, git_said(false)) && base == "origin/HEAD"@
                }
            }
        },
    }
}

/// What must have been reported for a run to be about to add the worktree.
spec fn is_ready(first: Run, events: Seq<(Event, bool)>, run: Run) -> bool {
    let at = rank(run.phase);
    let config = Act::Config(joined(worktrees(first.main_root), encode_utf8("config.json"@)));
    &&& at < 22 ==> reported(first, events, Act::Probe(first.dest), stands(false))
    &&& at < 21 ==> reported(first, events, Act::Exclude(first.main_root), was_ready())
    &&& at < 20 ==> reported(first, events, Act::MakeParent(first.dest), was_ready())
    &&& at < 19 ==> reported(first, events, Act::Git(first.source, asks_branch(first.name)), git_said(run.existing))
    &&& 16 <= at <= 18 ==> first.base is None
    &&& 16 <= at <= 17 ==> !run.existing && reported(first, events, config, was_set(None))
    &&& at == 16 ==> reported(first, events, Act::Git(first.source, asks_branch("main"@)), git_said(false))
    &&& at < 16 && !run.existing ==> (run.from matches Some(base) && is_base(first, events, base))
}

/// What must have been reported for a run to be past adding the worktree.
spec fn is_added(first: Run, events: Seq<(Event, bool)>, run: Run) -> bool {
    let at = rank(run.phase);
    &&& at < 15 && run.existing ==> reported(
        first,
        events,
        Act::Git(first.source, adds_existing(first.name, first.dest)),
        git_said(true),
    )
    &&& at < 15 && !run.existing ==> reported(
        first,
        events,
        Act::Git(first.source, adds_new(first.name, first.dest, run.from->0)),
        git_said(true),
    )
    &&& at < 14 ==> reported(first, events, Act::Git(first.source, lists()), git_listed(run.entries))
    &&& at < 9 ==> reported(
        first,
        events,
        Act::Patterns(joined(first.source, encode_utf8(".sproutignore"@))),
        were_read(),
    )
}

/// Whether a run is on the way to a worktree, or has come through.
spec fn is_on_course(phase: Phase) -> bool {
    rank(phase) > rank(Phase::AbortDiscard) || phase is Done
}

/// How a run that stays on course gets from one phase to another, up to adding
/// the worktree.
spec fn leads_on(run: Run, event: Event, next: Run) -> bool {
    match run.phase {
        Phase::Probe => next.phase is Exclude && event == Event::Exists(false),
        Phase::Exclude => next.phase is Parent && (event matches Event::Ready(Ok(_))),
        Phase::Parent => next.phase is Branch && (event matches Event::Ready(Ok(_))),
        Phase::Branch => event matches Event::Git(reply) && next.existing == reply.success && match run.base {
            Some(base) => next.phase is Add && (!next.existing ==> next.from == Some(base)),
            None => next.phase is Config,
        },
        Phase::Config => event matches Event::Configured(Ok(set)) && next.existing == run.existing && {
            ||| next.phase is Add && (!run.existing ==> next.from is Some && next.from == crate::steps::text_in(set))
            ||| next.phase is Mainline && !run.existing && set is None
        },
        Phase::Mainline => event matches Event::Git(reply) && next.existing == run.existing && if reply.success {
            next.phase is Add && next.from == Some("main"@)
        } else {
            next.phase is Master
        },
        Phase::Master => event matches Event::Git(reply) && next.existing == run.existing && next.phase is Add
            && next.from == Some(if reply.success { "master"@ } else { "origin/HEAD"@ }),
        _ => next.existing == run.existing && next.from == run.from && rank(next.phase) < 15,
    }
}

/// How a run that stays on course gets on once it is about to add the worktree.
spec fn leads_through(run: Run, event: Event, next: Run) -> bool {
    &&& next.existing == run.existing && next.from == run.from
    &&& match run.phase {
        Phase::Add => next.phase is Entries && (event matches Event::Git(reply) && reply.success),
        Phase::Entries => {
            &&& rank(next.phase) < 14
            &&& rank(next.phase) >= 9
            &&& event matches Event::Git(reply) && reply.success && next.entries == entries(reply.stdout@)
        },
        Phase::Patterns => {
            &&& rank(next.phase) < 9
            &&& next.entries == run.entries
            &&& event matches Event::Patterns(Ok(_))
        },
        Phase::Scrub => rank(next.phase) < 9 && next.entries == run.entries,
        _ => 9 <= rank(next.phase) < 14 && next.entries == run.entries,
    }
}

#[verifier::spinoff_prover]
#[verifier::rlimit(40)]
proof fn lemma_leads_on(run: Run, event: Event, interrupted: bool)
    requires
        valid(run),
        is_on_course(step(run, event, interrupted).phase),
    ensures
        is_on_course(run.phase),
        step(run, event, interrupted) == run || {
            &&& leads_on(run, event, step(run, event, interrupted))
            &&& rank(run.phase) <= rank(Phase::Add) ==> leads_through(run, event, step(run, event, interrupted))
        },
{
    lemma_mainline(true, true);
    lemma_mainline(true, false);
    lemma_mainline(false, true);
    lemma_mainline(false, false);
}

#[verifier::spinoff_prover]
#[verifier::rlimit(40)]
proof fn lemma_base_carried(first: Run, events: Seq<(Event, bool)>, base: Seq<char>)
    requires
        events.len() > 0,
        is_base(first, events.drop_last(), base),
    ensures
        is_base(first, events, base),
{
    let config = Act::Config(joined(worktrees(first.main_root), encode_utf8("config.json"@)));
    let main = Act::Git(first.source, asks_branch("main"@));
    let master = Act::Git(first.source, asks_branch("master"@));
    lemma_reported_more(first, events, config, was_set(Some(base)));
    lemma_reported_more(first, events, config, was_set(None));
    lemma_reported_more(first, events, main, git_said(true));
    lemma_reported_more(first, events, main, git_said(false));
    lemma_reported_more(first, events, master, git_said(true));
    lemma_reported_more(first, events, master, git_said(false));
}

#[verifier::spinoff_prover]
#[verifier::rlimit(60)]
proof fn lemma_ready_carried(first: Run, events: Seq<(Event, bool)>, run: Run, next: Run)
    requires
        events.len() > 0,
        valid(run),
        run.name == first.name && run.base == first.base && run.source == first.source && run.main_root
            == first.main_root && run.dest == first.dest,
        act_of(after(first, events.drop_last())) == act_of(run),
        is_ready(first, events.drop_last(), run),
        next == run || leads_on(run, events.last().0, next),
        is_on_course(run.phase),
    ensures
        is_ready(first, events, next),
{
    let config = Act::Config(joined(worktrees(first.main_root), encode_utf8("config.json"@)));
    let main = Act::Git(first.source, asks_branch("main"@));
    let master = Act::Git(first.source, asks_branch("master"@));
    let branch = Act::Git(first.source, asks_branch(first.name));
    lemma_asks(run);
    lemma_reported_more(first, events, Act::Probe(first.dest), stands(false));
    lemma_reported_more(first, events, Act::Exclude(first.main_root), was_ready());
    lemma_reported_more(first, events, Act::MakeParent(first.dest), was_ready());
    lemma_reported_more(first, events, branch, git_said(true));
    lemma_reported_more(first, events, branch, git_said(false));
    lemma_reported_more(first, events, config, was_set(None));
    lemma_reported_more(first, events, config, was_set(next.from));
    lemma_reported_more(first, events, main, git_said(true));
    lemma_reported_more(first, events, main, git_said(false));
    lemma_reported_more(first, events, master, git_said(true));
    lemma_reported_more(first, events, master, git_said(false));
    if rank(run.phase) < 16 && !run.existing {
        lemma_base_carried(first, events, run.from->0);
    }
}

#[verifier::spinoff_prover]
#[verifier::rlimit(60)]
proof fn lemma_added_carried(first: Run, events: Seq<(Event, bool)>, run: Run, next: Run)
    requires
        events.len() > 0,
        valid(run),
        run.name == first.name && run.base == first.base && run.source == first.source && run.main_root
            == first.main_root && run.dest == first.dest,
        act_of(after(first, events.drop_last())) == act_of(run),
        is_added(first, events.drop_last(), run),
        next == run || (leads_on(run, events.last().0, next) && (rank(run.phase) <= rank(Phase::Add) ==> leads_through(
            run,
            events.last().0,
            next,
        ))),
        is_on_course(run.phase),
    ensures
        is_added(first, events, next),
{
    lemma_asks(run);
    lemma_reported_more(
        first,
        events,
        Act::Git(first.source, adds_existing(first.name, first.dest)),
        git_said(true),
    );
    lemma_reported_more(
        first,
        events,
        Act::Git(first.source, adds_new(first.name, first.dest, next.from->0)),
        git_said(true),
    );
    lemma_reported_more(first, events, Act::Git(first.source, lists()), git_listed(next.entries));
    lemma_reported_more(
        first,
        events,
        Act::Patterns(joined(first.source, encode_utf8(".sproutignore"@))),
        were_read(),
    );
}

#[verifier::spinoff_prover]
#[verifier::rlimit(40)]
proof fn lemma_earned(first: Run, events: Seq<(Event, bool)>)
    requires
        valid(first),
        first.phase is Probe,
        is_on_course(after(first, events).phase),
    ensures
        is_ready(first, events, after(first, events)),
        is_added(first, events, after(first, events)),
    decreases events.len(),
{
    if events.len() > 0 {
        let less = events.drop_last();
        let run = after(first, less);
        lemma_after_same(first, less);
        lemma_leads_on(run, events.last().0, events.last().1);
        lemma_earned(first, less);
        lemma_ready_carried(first, events, run, after(first, events));
        lemma_added_carried(first, events, run, after(first, events));
    }
}

/// A run that came through has done all of it, in the course of its events:
/// nothing stood at the path; git was kept from seeing the worktrees; the
/// directory that the path belongs in was made; git was asked about the branch,
/// and added a worktree for it at the path, either for the branch that was there
/// or with a new one from the right base; what git ignores was listed; and the
/// patterns were read.
pub proof fn lemma_done_is_earned(
    name: Seq<char>,
    base: Option<Seq<char>>,
    source: Seq<u8>,
    main_root: Seq<u8>,
    dest: Seq<u8>,
    events: Seq<(Event, bool)>,
)
    ensures
        ({
            let first = start(name, base, source, main_root, dest);
            let run = after(first, events);
            let branch = Act::Git(source, asks_branch(name));
            run.phase is Done ==> {
                &&& reported(first, events, Act::Probe(dest), stands(false))
                &&& reported(first, events, Act::Exclude(main_root), was_ready())
                &&& reported(first, events, Act::MakeParent(dest), was_ready())
                &&& {
                    ||| {
                        &&& reported(first, events, branch, git_said(true))
                        &&& reported(first, events, Act::Git(source, adds_existing(name, dest)), git_said(true))
                    }
                    ||| {
                        &&& reported(first, events, branch, git_said(false))
                        &&& exists|from: Seq<char>| #[trigger]
                            is_base(first, events, from) && reported(
                                first,
                                events,
                                Act::Git(source, adds_new(name, dest, from)),
                                git_said(true),
                            )
                    }
                }
                &&& reported(first, events, Act::Git(source, lists()), git_listed(run.entries))
                &&& reported(
                    first,
                    events,
                    Act::Patterns(joined(source, encode_utf8(".sproutignore"@))),
                    were_read(),
                )
            }
        }),
{
    let first = start(name, base, source, main_root, dest);
    let run = after(first, events);
    if run.phase is Done {
        lemma_earned(first, events);
        if !run.existing {
            assert(is_base(first, events, run.from->0));
        }
    }
}

/// How a run ends for whoever called the program. Nothing more is asked for
/// exactly when there is an exit code. The path is printed, whole and alone,
/// exactly when that is 0: so a shell is never sent to a worktree that is not
/// there. A run that failed has the code 1 and one that was taken back 130.
pub proof fn lemma_ended(run: Run)
    requires
        valid(run),
    ensures
        code_of(run.phase) is Some <==> act_of(run) == Act::Stop,
        printed(run) is Some <==> code_of(run.phase) == Some(0i32),
        printed(run) matches Some(line) ==> line == shown(run.dest),
        code_of(run.phase) == Some(0i32) <==> run.phase is Done,
        code_of(run.phase) == Some(1i32) <==> run.phase is Failed,
        code_of(run.phase) == Some(130i32) <==> run.phase is Aborted,
{
    lemma_asks(run);
    lemma_asks_back(run);
}

/// A run that was interrupted prints nothing and does not exit with success,
/// whatever follows.
pub proof fn lemma_interrupted_prints_nothing(run: Run, event: Event, rest: Seq<(Event, bool)>)
    requires
        valid(run),
        rank(run.phase) > rank(Phase::AbortDiscard),
        crate::create::fits(run.phase, event),
    ensures
        printed(after(step(run, event, true), rest)) is None,
        code_of(after(step(run, event, true), rest).phase) != Some(0i32),
{
    crate::create::lemma_interrupt_final(run, event, rest);
}

} // verus!
