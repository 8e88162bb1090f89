//! What the library asks to be done, and what it is told came of it.
//!
//! Git, the file system and the terminal are outside of this library. A run
//! asks for one action at a time; whoever carries it out reports an event.
use crate::clonefile::Copied;
use crate::repo::GitReply;
use crate::text::texts;
use vstd::prelude::*;

verus! {

/// What was done, and what came of it.
pub enum Event {
    /// Whether something stands at a path.
    Exists(bool),
    /// Something was prepared, or could not be, for this reason.
    Ready(Result<(), String>),
    /// Git ran.
    Git(GitReply),
    /// The base that the config sets, or what is wrong with it.
    Configured(Result<Option<String>, String>),
    /// A path in a staging root was found, or could not be, for this reason.
    Reserved(Result<Vec<u8>, String>),
    /// An entry was cloned or moved.
    Copied(Copied),
    /// Whether there are scrub patterns, or what is wrong with them.
    Patterns(Result<bool, String>),
    /// The number of paths that were scrubbed of an entry, or why it failed.
    Scrubbed(Result<u64, String>),
    /// Something was done that always counts as done.
    Finished,
}

/// What is to be done next.
#[verifier::ext_equal]
pub enum Act {
    /// Find out whether something stands at the path.
    Probe(Seq<u8>),
    /// Keep git from seeing the worktrees of the repository.
    Exclude(Seq<u8>),
    /// Make the directory that the path belongs in.
    MakeParent(Seq<u8>),
    /// Run git in a directory with these words.
    Git(Seq<u8>, Seq<Seq<char>>),
    /// Read the config at the path.
    Config(Seq<u8>),
    /// Find a free path in a staging root for the worktrees in a directory and
    /// for a name, and make a directory there or not.
    Reserve(Seq<u8>, Seq<char>, bool),
    /// Clone the entry from the one path to the other.
    Clone(Seq<u8>, Seq<u8>, Seq<u8>),
    /// Move the entry from the one path to the other, if nothing is there.
    Move(Seq<u8>, Seq<u8>, Seq<u8>),
    /// Rename the one path to the other.
    Rename(Seq<u8>, Seq<u8>),
    /// Hand the path to the sweeper.
    Discard(Seq<u8>),
    /// Read the scrub patterns at the path.
    Patterns(Seq<u8>),
    /// Scrub the entry.
    Scrub(Seq<u8>),
    /// Delete the path and all that is in it.
    Wipe(Seq<u8>),
    /// Remove the directories between the worktrees and the path, and that of
    /// the worktrees, as far as they are empty.
    Tidy(Seq<u8>, Seq<u8>),
    /// Nothing more.
    Stop,
}

/// What is to be done next, as a value.
pub enum Action {
    Probe(Vec<u8>),
    Exclude(Vec<u8>),
    MakeParent(Vec<u8>),
    Git(Vec<u8>, Vec<String>),
    Config(Vec<u8>),
    Reserve(Vec<u8>, String, bool),
    Clone(Vec<u8>, Vec<u8>, Vec<u8>),
    Move(Vec<u8>, Vec<u8>, Vec<u8>),
    Rename(Vec<u8>, Vec<u8>),
    Discard(Vec<u8>),
    Patterns(Vec<u8>),
    Scrub(Vec<u8>),
    Wipe(Vec<u8>),
    Tidy(Vec<u8>, Vec<u8>),
    Stop,
}

impl View for Action {
    type V = Act;

    open spec fn view(&self) -> Act {
        match self {
            Action::Probe(p) => Act::Probe(p@),
            Action::Exclude(p) => Act::Exclude(p@),
            Action::MakeParent(p) => Act::MakeParent(p@),
            Action::Git(dir, args) => Act::Git(dir@, texts(args@)),
            Action::Config(p) => Act::Config(p@),
            Action::Reserve(ns, name, make) => Act::Reserve(ns@, name@, *make),
            Action::Clone(rel, from, to) => Act::Clone(rel@, from@, to@),
            Action::Move(rel, from, to) => Act::Move(rel@, from@, to@),
            Action::Rename(from, to) => Act::Rename(from@, to@),
            Action::Discard(p) => Act::Discard(p@),
            Action::Patterns(p) => Act::Patterns(p@),
            Action::Scrub(rel) => Act::Scrub(rel@),
            Action::Wipe(p) => Act::Wipe(p@),
            Action::Tidy(ns, dest) => Act::Tidy(ns@, dest@),
            Action::Stop => Act::Stop,
        }
    }
}

/// The text in an optional string.
pub open spec fn text_in(s: Option<String>) -> Option<Seq<char>> {
    match s {
        Some(t) => Some(t@),
        None => None,
    }
}

/// The bytes in an optional byte string.
pub open spec fn bytes_in(s: Option<Vec<u8>>) -> Option<Seq<u8>> {
    match s {
        Some(t) => Some(t@),
        None => None,
    }
}

/// The text in an optional slice.
pub open spec fn slice_in(s: Option<&str>) -> Option<Seq<char>> {
    match s {
        Some(t) => Some(t@),
        None => None,
    }
}

/// An action stands for the same action on the same paths and words, each in its
/// place.
pub proof fn lemma_action_view(a: Vec<u8>, b: Vec<u8>, c: Vec<u8>, words: Vec<String>, name: String, make: bool)
    ensures
        Action::Probe(a)@ == Act::Probe(a@),
        Action::Exclude(a)@ == Act::Exclude(a@),
        Action::MakeParent(a)@ == Act::MakeParent(a@),
        Action::Config(a)@ == Act::Config(a@),
        Action::Discard(a)@ == Act::Discard(a@),
        Action::Patterns(a)@ == Act::Patterns(a@),
        Action::Scrub(a)@ == Act::Scrub(a@),
        Action::Wipe(a)@ == Act::Wipe(a@),
        Action::Rename(a, b)@ == Act::Rename(a@, b@),
        Action::Tidy(a, b)@ == Act::Tidy(a@, b@),
        Action::Clone(a, b, c)@ == Act::Clone(a@, b@, c@),
        Action::Move(a, b, c)@ == Act::Move(a@, b@, c@),
        Action::Reserve(a, name, make)@ == Act::Reserve(a@, name@, make),
        Action::Git(a, words)@ == Act::Git(a@, texts(words@)),
        Action::Stop@ == Act::Stop,
{
}

/// What is optional is there in the model exactly when it is there, and is the
/// same.
pub proof fn lemma_optional(text: String, bytes: Vec<u8>, slice: &str)
    ensures
        text_in(Some(text)) == Some(text@) && text_in(None) is None,
        bytes_in(Some(bytes)) == Some(bytes@) && bytes_in(None) is None,
        slice_in(Some(slice)) == Some(slice@) && slice_in(None) is None,
{
}

} // verus!
