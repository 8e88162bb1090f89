//! What comes of cloning a file or a directory.
//!
//! A clone shares its data with what it was made from until one of the two
//! changes. It needs a file system that can do so, and both ends on the same
//! volume.
use crate::text::{from_utf8_lossy, shown};
use vstd::prelude::*;
use vstd::string::*;

verus! {

/// The error for two ends that are on different volumes.
pub const EXDEV: i32 = 18;

/// The error for a file system that cannot clone.
pub const ENOTSUP: i32 = 45;

/// The hint for two ends that are on different volumes.
pub const VOLUME_HINT: &'static str = "source and destination are on different volumes — clonefile requires the same APFS volume (is the repo on an external drive?)";

/// The hint for a file system that cannot clone.
pub const SUPPORT_HINT: &'static str = "filesystem does not support cloning — the repo must live on an APFS volume";

/// Why an entry could not be cloned.
pub struct Fault {
    /// The number of the error, where the system gave one.
    pub code: Option<i32>,
    /// The error in words.
    pub message: String,
}

/// What came of one entry.
pub enum Copied {
    /// It is there now.
    Fresh,
    /// It was there before, such as within a directory that was cloned.
    Present,
    /// It could not be put there.
    Failed(Fault),
    /// The directory that it belongs in could not be made, for this reason.
    Fatal(String),
}

/// A hint for the errors that users run into.
pub open spec fn hint(code: Option<i32>) -> Option<Seq<char>> {
    match code {
        Some(c) => if c == EXDEV {
            Some(VOLUME_HINT@)
        } else if c == ENOTSUP {
            Some(SUPPORT_HINT@)
        } else {
            None
        },
        None => None,
    }
}

/// A hint for the errors that users run into.
pub fn explain(code: Option<i32>) -> (r: Option<&'static str>)
    ensures
        match r {
            Some(h) => hint(code) == Some(h@),
            None => hint(code) is None,
        },
{
    match code {
        Some(c) => if c == EXDEV {
            Some(VOLUME_HINT)
        } else if c == ENOTSUP {
            Some(SUPPORT_HINT)
        } else {
            None
        },
        None => None,
    }
}

/// The warning for an entry that could not be cloned.
pub open spec fn clone_note(rel: Seq<u8>, fault: Fault) -> Seq<char> {
    let said = "warn: could not clone "@ + shown(rel) + ": "@ + fault.message@;
    match hint(fault.code) {
        Some(h) => said + " ("@ + h + ")"@,
        None => said,
    }
}

/// The warning for an entry that could not be cloned.
pub fn clone_warning(rel: &[u8], fault: &Fault) -> (r: String)
    ensures
        r@ == clone_note(rel@, *fault),
{
    let mut r = "warn: could not clone ".to_owned();
    r.append(from_utf8_lossy(rel).as_str());
    r.append(": ");
    r.append(fault.message.as_str());
    match explain(fault.code) {
        Some(h) => {
            r.append(" (");
            r.append(h);
            r.append(")");
        },
        None => {},
    }
    r
}

/// There is a hint for two errors, and for no other.
pub proof fn lemma_hints(code: i32)
    ensures
        hint(Some(18i32)) == Some(VOLUME_HINT@),
        hint(Some(45i32)) == Some(SUPPORT_HINT@),
        code != 18 && code != 45 ==> hint(Some(code)) is None,
        hint(None) is None,
{
}

/// The warning names the whole path of the entry and the reason, and ends in the
/// hint where there is one.
pub proof fn lemma_clone_note(rel: Seq<u8>, fault: Fault)
    ensures
        hint(fault.code) is None ==> clone_note(rel, fault) == "warn: could not clone "@ + shown(rel) + ": "@
            + fault.message@,
        hint(fault.code) matches Some(h) ==> clone_note(rel, fault) == "warn: could not clone "@ + shown(rel)
            + ": "@ + fault.message@ + " ("@ + h + ")"@,
{
}

} // verus!
