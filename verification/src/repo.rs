//! Git plumbing and path layout.
//!
//! Worktrees live at `{repo}/.sprout/{name}`, inside the repository they belong
//! to; slashes in a branch name become nested directories.
//!
//! Git runs outside of this library. For each question there is a function
//! that gives the words of the command, and one that reads the reply.
use crate::bytes::{contents, equal, holds, lemma_split_concat, lemma_split_join, lemma_split_nonempty, lemma_split_whole, split, split_at_each};
use crate::path::{absolute, component_of, components, file_name, has_parent, is_absolute, is_below, is_entry_name, is_parent, is_slack, is_trimmed, is_within, join, joined, last_name, lemma_joined_components, lemma_parent_unique, named, origin, parent, parts, relative, same_path, starts_with_dot, strip_dir, Component, DOT, Part, SEPARATOR};
use crate::text::{from_utf8_lossy, is_white_space, join_words, lemma_bytes_lack, lemma_encode_concat, lemma_text_is_shown, lemma_trimmed, numeral, row_value, shown, spaced, texts, to_hex, trim, trimmed, zero_padded};
use vstd::prelude::*;
use vstd::slice::{slice_subrange, slice_to_vec};
use vstd::string::*;
use vstd::utf8::encode_utf8;

verus! {

/// What a finished git process leaves behind.
pub struct GitReply {
    /// Whether it exited with success.
    pub success: bool,
    pub stdout: Vec<u8>,
    pub stderr: Vec<u8>,
}

/// The output of git as text, without the white space around it.
pub open spec fn output_text(bytes: Seq<u8>) -> Seq<char> {
    trimmed(shown(bytes))
}

/// The message for a git command that failed.
pub open spec fn git_failure(args: Seq<Seq<char>>, stderr: Seq<u8>) -> Seq<char> {
    "git "@ + spaced(args) + " failed:\n"@ + output_text(stderr)
}

/// The trimmed output of a git command, or the message for its failure.
pub fn git(args: &Vec<String>, reply: &GitReply) -> (r: Result<String, String>)
    ensures
        match r {
            Ok(out) => reply.success && out@ == output_text(reply.stdout@),
            Err(message) => !reply.success && message@ == git_failure(texts(args@), reply.stderr@),
        },
{
    if !reply.success {
        let mut message = "git ".to_owned();
        message.append(join_words(args).as_str());
        message.append(" failed:\n");
        message.append(trim(from_utf8_lossy(reply.stderr.as_slice()).as_str()).as_str());
        return Err(message);
    }
    Ok(trim(from_utf8_lossy(reply.stdout.as_slice()).as_str()))
}

/// The outcome of a git command whose output went straight to the user.
pub fn git_passthrough(args: &Vec<String>, success: bool) -> (r: Result<(), String>)
    ensures
        match r {
            Ok(_) => success,
            Err(message) => !success && message@ == "git "@ + spaced(texts(args@)) + " failed"@,
        },
{
    if !success {
        let mut message = "git ".to_owned();
        message.append(join_words(args).as_str());
        message.append(" failed");
        return Err(message);
    }
    Ok(())
}

/// Asks for the root of the worktree.
pub fn worktree_root_args() -> (r: Vec<String>)
    ensures
        texts(r@) == seq!["rev-parse"@, "--show-toplevel"@],
{
    let r = vec!["rev-parse".to_owned(), "--show-toplevel".to_owned()];
    assert(texts(r@) =~= seq!["rev-parse"@, "--show-toplevel"@]);
    r
}

/// The directory inside a repository that holds its worktrees.
pub const NAMESPACE: &'static str = ".sprout";

/// The line in git's exclude file that keeps that directory out of git's sight.
pub const EXCLUDE_LINE: &'static str = "/.sprout/";

/// Why the root of the main repository is not known.
pub enum RootError {
    /// Git failed, with this message.
    Git(String),
    /// The directory that git named has no parent.
    NoParent,
}

impl RootError {
    /// The message for the user.
    pub fn describe(&self) -> (r: String)
        ensures
            r@ == (match self {
                RootError::Git(message) => message@,
                RootError::NoParent => "could not determine main repository root"@,
            }),
    {
        match self {
            RootError::Git(message) => message.as_str().to_owned(),
            RootError::NoParent => "could not determine main repository root".to_owned(),
        }
    }
}

/// Asks for the directory that all worktrees of a repository share.
pub fn main_repo_root_args() -> (r: Vec<String>)
    ensures
        texts(r@) == seq!["rev-parse"@, "--path-format=absolute"@, "--git-common-dir"@],
{
    let r = vec![
        "rev-parse".to_owned(),
        "--path-format=absolute".to_owned(),
        "--git-common-dir".to_owned(),
    ];
    assert(texts(r@) =~= seq!["rev-parse"@, "--path-format=absolute"@, "--git-common-dir"@]);
    r
}

/// What it means when git does not know the root of a worktree.
pub const OUTSIDE: &'static str = "not inside a git repository";

/// The root of the worktree that git was asked about, or git's message: there
/// is no repository.
pub fn worktree_root(reply: &GitReply) -> (r: Result<Vec<u8>, String>)
    ensures
        match r {
            Ok(root) => reply.success && root@ == encode_utf8(output_text(reply.stdout@)),
            Err(message) => !reply.success && message@ == git_failure(
                seq!["rev-parse"@, "--show-toplevel"@],
                reply.stderr@,
            ),
        },
{
    match git(&worktree_root_args(), reply) {
        Ok(out) => Ok(out.as_str().as_bytes_vec()),
        Err(message) => Err(message),
    }
}

/// The root of the main repository, also when git was asked from a linked
/// worktree: the directory that holds what all worktrees share.
pub fn main_repo_root(reply: &GitReply) -> (r: Result<Vec<u8>, RootError>)
    ensures
        match r {
            Ok(root) => reply.success && is_parent(encode_utf8(output_text(reply.stdout@)), root@),
            Err(RootError::Git(message)) => !reply.success && message@ == git_failure(
                seq!["rev-parse"@, "--path-format=absolute"@, "--git-common-dir"@],
                reply.stderr@,
            ),
            Err(RootError::NoParent) => reply.success && !has_parent(
                encode_utf8(output_text(reply.stdout@)),
            ),
        },
{
    match git(&main_repo_root_args(), reply) {
        Ok(out) => match parent(out.as_str().as_bytes()) {
            Some(root) => Ok(root),
            None => Err(RootError::NoParent),
        },
        Err(message) => Err(RootError::Git(message)),
    }
}

/// The 64-bit FNV-1a hash.
pub open spec fn fnv1a_hash(bytes: Seq<u8>) -> u64
    decreases bytes.len(),
{
    if bytes.len() == 0 {
        0xcbf2_9ce4_8422_2325
    } else {
        (((fnv1a_hash(bytes.drop_last()) ^ (bytes.last() as u64)) as int * 0x0100_0000_01b3)
            % 0x1_0000_0000_0000_0000) as u64
    }
}

/// Hashes the bytes.
pub fn fnv1a(bytes: &[u8]) -> (r: u64)
    ensures
        r == fnv1a_hash(bytes@),
{
    let mut h: u64 = 0xcbf2_9ce4_8422_2325;
    let mut i: usize = 0;
    assert(bytes@.take(0) =~= Seq::<u8>::empty());
    while i < bytes.len()
        invariant
            i <= bytes.len(),
            h == fnv1a_hash(bytes@.take(i as int)),
        decreases bytes.len() - i,
    {
        let b: u8 = bytes[i];
        proof {
            assert(bytes@.take(i + 1).drop_last() =~= bytes@.take(i as int));
            assert(bytes@.take(i + 1).last() == b);
        }
        h = h ^ (b as u64);
        h = h.wrapping_mul(0x0100_0000_01b3);
        i = i + 1;
    }
    assert(bytes@.take(i as int) =~= bytes@);
    h
}

/// Why a repository has no directory under the home directory.
pub enum HomeError {
    /// There is no home directory.
    NoHome,
    /// The path of the repository ends in no name.
    NoName,
}

/// A name for a repository that tells it from others of the same directory
/// name: that name and the hash of the whole path.
pub open spec fn slug(name: Seq<u8>, root: Seq<u8>) -> Seq<char> {
    shown(name) + "-"@ + zero_padded(numeral(fnv1a_hash(root) as nat, 16), 8)
}

/// The directory for a repository under the home directory. Nothing uses it:
/// worktrees live in the repository itself.
pub fn home_namespace(home: Option<&[u8]>, root: &[u8]) -> (r: Result<Vec<u8>, HomeError>)
    ensures
        match r {
            Ok(dir) => home matches Some(h) && last_name(root@) matches Some(name) && dir@ == joined(
                joined(h@, encode_utf8(NAMESPACE@)),
                encode_utf8(slug(name, root@)),
            ),
            Err(HomeError::NoHome) => home is None,
            Err(HomeError::NoName) => home is Some && last_name(root@) is None,
        },
{
    match home {
        None => Err(HomeError::NoHome),
        Some(h) => match file_name(root) {
            None => Err(HomeError::NoName),
            Some(name) => {
                let mut leaf = from_utf8_lossy(name.as_slice());
                leaf.append("-");
                leaf.append(to_hex(fnv1a(root), 8).as_str());
                let top = join(h, NAMESPACE.as_bytes());
                Ok(join(top.as_slice(), leaf.as_str().as_bytes()))
            },
        },
    }
}

/// The directory that holds the worktrees of a repository.
pub open spec fn namespace(main_root: Seq<u8>) -> Seq<u8> {
    joined(main_root, encode_utf8(NAMESPACE@))
}

/// `{repo}/.sprout`.
pub fn repo_namespace(main_root: &[u8]) -> (r: Vec<u8>)
    ensures
        r@ == namespace(main_root@),
{
    join(main_root, NAMESPACE.as_bytes())
}

/// Asks whether `name` can be the name of a branch.
pub fn worktree_dir_args(name: &str) -> (r: Vec<String>)
    ensures
        texts(r@) == seq!["check-ref-format"@, "--branch"@, name@],
{
    let r = vec!["check-ref-format".to_owned(), "--branch".to_owned(), name.to_owned()];
    assert(texts(r@) =~= seq!["check-ref-format"@, "--branch"@, name@]);
    r
}

/// The directory of the worktree `name`.
pub open spec fn worktree_path(main_root: Seq<u8>, name: Seq<char>) -> Seq<u8> {
    joined(namespace(main_root), encode_utf8(name))
}

/// The directory of a worktree, once git has said whether its name is valid.
pub fn worktree_dir(main_root: &[u8], name: &str, valid: bool) -> (r: Result<Vec<u8>, String>)
    ensures
        match r {
            Ok(dir) => valid && dir@ == worktree_path(main_root@, name@),
            Err(message) => !valid && message@ == "'"@ + name@ + "' is not a valid branch name"@,
        },
{
    if !valid {
        let mut message = "'".to_owned();
        message.append(name);
        message.append("' is not a valid branch name");
        return Err(message);
    }
    Ok(join(repo_namespace(main_root).as_slice(), name.as_bytes()))
}

/// Where a way up from `dest` ends.
pub open spec fn top(dest: Seq<u8>, dirs: Seq<Seq<u8>>) -> Seq<u8> {
    if dirs.len() == 0 {
        dest
    } else {
        dirs.last()
    }
}

/// Whether `dirs` go up from `dest`, each the parent of the one before, and
/// none of them is `namespace`.
pub open spec fn goes_up(namespace: Seq<u8>, dest: Seq<u8>, dirs: Seq<Seq<u8>>) -> bool
    decreases dirs.len(),
{
    dirs.len() > 0 ==> {
        &&& goes_up(namespace, dest, dirs.drop_last())
        &&& is_parent(top(dest, dirs.drop_last()), dirs.last())
        &&& components(dirs.last()) != components(namespace)
    }
}

/// Whether `dirs` are the directories to prune once `dest` is gone, in order:
/// all its parents up to but not including `namespace`.
pub open spec fn is_prune_list(namespace: Seq<u8>, dest: Seq<u8>, dirs: Seq<Seq<u8>>) -> bool {
    &&& goes_up(namespace, dest, dirs)
    &&& has_parent(top(dest, dirs)) ==> components(top(dest, dirs)).drop_last() == components(namespace)
}

/// The parents of a removed worktree, the nearest first, up to but not
/// including the namespace. Each is to be removed if it is empty; the first
/// that is not ends the pruning.
pub fn prune_empty_parents(namespace: &[u8], dest: &[u8]) -> (r: Vec<Vec<u8>>)
    ensures
        is_prune_list(namespace@, dest@, contents(r@)),
{
    let mut r: Vec<Vec<u8>> = Vec::new();
    let mut dir = parent(dest);
    let ghost mut last: Seq<u8> = dest@;
    loop
        invariant
            goes_up(namespace@, dest@, contents(r@)),
            top(dest@, contents(r@)) == last,
            match dir {
                Some(d) => is_parent(last, d@),
                None => !has_parent(last),
            },
        ensures
            is_prune_list(namespace@, dest@, contents(r@)),
        decreases components(last).len(),
    {
        match dir {
            None => {
                break;
            },
            Some(d) => {
                if same_path(d.as_slice(), namespace) {
                    break;
                }
                let ghost before = contents(r@);
                let ghost dv = d@;
                let next = parent(d.as_slice());
                r.push(d);
                dir = next;
                proof {
                    assert(contents(r@) =~= before.push(dv));
                    assert(contents(r@).drop_last() =~= before);
                    last = dv;
                }
            },
        }
    }
    r
}

/// The words that ask for everything that git ignores, with directories
/// collapsed and a zero byte after each path.
pub open spec fn listing_words() -> Seq<Seq<char>> {
    seq!["ls-files"@, "--others"@, "--ignored"@, "--exclude-standard"@, "--directory"@, "-z"@]
}

/// There is one list of directories to prune.
pub proof fn lemma_prune_unique(namespace: Seq<u8>, dest: Seq<u8>, a: Seq<Seq<u8>>, b: Seq<Seq<u8>>)
    requires
        is_prune_list(namespace, dest, a),
        is_prune_list(namespace, dest, b),
    ensures
        a == b,
{
    if a.len() <= b.len() {
        lemma_prune_prefix(namespace, dest, a, b);
    } else {
        lemma_prune_prefix(namespace, dest, b, a);
    }
}

proof fn lemma_prune_prefix(namespace: Seq<u8>, dest: Seq<u8>, a: Seq<Seq<u8>>, b: Seq<Seq<u8>>)
    requires
        is_prune_list(namespace, dest, a),
        goes_up(namespace, dest, b),
        a.len() <= b.len(),
    ensures
        a == b,
    decreases b.len(),
{
    if a.len() < b.len() {
        lemma_prune_prefix(namespace, dest, a, b.drop_last());
        assert(false);
    } else {
        lemma_goes_up_unique(namespace, dest, a, b);
    }
}

proof fn lemma_goes_up_unique(namespace: Seq<u8>, dest: Seq<u8>, a: Seq<Seq<u8>>, b: Seq<Seq<u8>>)
    requires
        goes_up(namespace, dest, a),
        goes_up(namespace, dest, b),
        a.len() == b.len(),
    ensures
        a == b,
    decreases a.len(),
{
    if a.len() > 0 {
        lemma_goes_up_unique(namespace, dest, a.drop_last(), b.drop_last());
        lemma_parent_unique(top(dest, a.drop_last()), a.last(), b.last());
        assert(a.drop_last().push(a.last()) =~= a);
        assert(b.drop_last().push(b.last()) =~= b);
    } else {
        assert(a =~= b);
    }
}

/// Asks for everything that git ignores, with directories collapsed.
pub fn ignored_entries_args() -> (r: Vec<String>)
    ensures
        texts(r@) == listing_words(),
{
    let r = vec![
        "ls-files".to_owned(),
        "--others".to_owned(),
        "--ignored".to_owned(),
        "--exclude-standard".to_owned(),
        "--directory".to_owned(),
        "-z".to_owned(),
    ];
    assert(texts(r@) =~= listing_words());
    r
}

/// A listed path without the separator that git puts after a collapsed
/// directory.
pub open spec fn entry_path(listed: Seq<u8>) -> Seq<u8> {
    if listed.len() > 0 && listed.last() == SEPARATOR {
        listed.drop_last()
    } else {
        listed
    }
}

/// Whether a relative path is the directory of worktrees or lies in it.
pub open spec fn in_namespace(rel: Seq<u8>) -> bool {
    components(rel).len() > 0 && components(rel)[0] == Component::Normal(encode_utf8(NAMESPACE@))
}

/// The paths that a listing with a zero byte after each stands for, without
/// those of the worktrees themselves.
pub open spec fn entries(listing: Seq<u8>) -> Seq<Seq<u8>> {
    split(listing, 0).filter(|p: Seq<u8>| p.len() > 0 && !in_namespace(entry_path(p))).map_values(
        |p: Seq<u8>| entry_path(p),
    )
}

fn lies_in_namespace(rel: &[u8]) -> (r: bool)
    ensures
        r == in_namespace(rel@),
{
    let all = parts(rel);
    if all.len() == 0 {
        return false;
    }
    assert(components(rel@)[0] == all@[0]@);
    match &all[0] {
        Part::Normal(n) => equal(n.as_slice(), NAMESPACE.as_bytes()),
        _ => false,
    }
}

/// Everything that git ignores in a worktree, as relative paths: one for each
/// collapsed directory, and none for the worktrees that live in the repository.
pub fn ignored_entries(reply: &GitReply) -> (r: Result<Vec<Vec<u8>>, String>)
    ensures
        match r {
            Ok(list) => reply.success && contents(list@) == entries(reply.stdout@),
            Err(message) => !reply.success && message@ == "git ls-files failed:\n"@ + output_text(
                reply.stderr@,
            ),
        },
{
    if !reply.success {
        let mut message = "git ls-files failed:\n".to_owned();
        message.append(trim(from_utf8_lossy(reply.stderr.as_slice()).as_str()).as_str());
        return Err(message);
    }
    let pieces = split_at_each(reply.stdout.as_slice(), 0);
    let mut list: Vec<Vec<u8>> = Vec::new();
    let ghost listed = contents(pieces@);
    let ghost keep = |p: Seq<u8>| p.len() > 0 && !in_namespace(entry_path(p));
    let ghost strip = |p: Seq<u8>| entry_path(p);
    let mut i: usize = 0;
    proof {
        assert(listed.take(0) =~= Seq::<Seq<u8>>::empty());
        reveal(Seq::filter);
        assert(contents(list@) =~= listed.take(0).filter(keep).map_values(strip));
    }
    while i < pieces.len()
        invariant
            i <= pieces.len(),
            listed == contents(pieces@),
            keep == (|p: Seq<u8>| p.len() > 0 && !in_namespace(entry_path(p))),
            strip == (|p: Seq<u8>| entry_path(p)),
            contents(list@) == listed.take(i as int).filter(keep).map_values(strip),
        decreases pieces.len() - i,
    {
        let piece: &[u8] = pieces[i].as_slice();
        let ghost before = contents(list@);
        proof {
            assert(listed.take(i + 1) =~= listed.take(i as int).push(piece@));
            listed.take(i as int).lemma_filter_push(piece@, keep);
        }
        if piece.len() > 0 {
            let end: usize = if piece[piece.len() - 1] == SEPARATOR { piece.len() - 1 } else { piece.len() };
            let rel = slice_to_vec(slice_subrange(piece, 0, end));
            assert(rel@ =~= entry_path(piece@));
            if !lies_in_namespace(rel.as_slice()) {
                list.push(rel);
                assert(contents(list@) =~= before.push(entry_path(piece@)));
                assert(contents(list@) =~= listed.take(i + 1).filter(keep).map_values(strip));
            }
        }
        i = i + 1;
    }
    assert(listed.take(i as int) =~= listed);
    Ok(list)
}

/// The worktrees that live in a repository are never among the entries to be
/// cloned, so that worktrees do not nest.
pub proof fn lemma_worktrees_not_entries(listing: Seq<u8>)
    ensures
        forall|i: int| 0 <= i < entries(listing).len() ==> !in_namespace(#[trigger] entries(listing)[i]),
{
    let keep = |p: Seq<u8>| p.len() > 0 && !in_namespace(entry_path(p));
    let kept = split(listing, 0).filter(keep);
    assert forall|i: int| 0 <= i < entries(listing).len() implies !in_namespace(
        #[trigger] entries(listing)[i],
    ) by {
        split(listing, 0).lemma_filter_pred(keep, i);
        assert(keep(kept[i]));
        assert(entries(listing)[i] == entry_path(kept[i]));
    }
}

/// Nothing that git lists is lost: each path of the listing is an entry, unless
/// it belongs to the worktrees.
pub proof fn lemma_listed_is_entry(listing: Seq<u8>, i: int)
    requires
        0 <= i < split(listing, 0).len(),
        split(listing, 0)[i].len() > 0,
        !in_namespace(entry_path(split(listing, 0)[i])),
    ensures
        entries(listing).contains(entry_path(split(listing, 0)[i])),
{
    let keep = |p: Seq<u8>| p.len() > 0 && !in_namespace(entry_path(p));
    let kept = split(listing, 0).filter(keep);
    split(listing, 0).lemma_filter_contains(keep, i);
    let j = choose|j: int| 0 <= j < kept.len() && kept[j] == split(listing, 0)[i];
    assert(entries(listing)[j] == entry_path(kept[j]));
}

/// The words that ask whether there is a branch `name`.
pub open spec fn branch_words(name: Seq<char>) -> Seq<Seq<char>> {
    seq!["show-ref"@, "--verify"@, "--quiet"@, "refs/heads/"@ + name]
}

/// Asks whether there is a branch `name`.
pub fn branch_exists_args(name: &str) -> (r: Vec<String>)
    ensures
        texts(r@) == branch_words(name@),
{
    let mut full = "refs/heads/".to_owned();
    full.append(name);
    let r = vec!["show-ref".to_owned(), "--verify".to_owned(), "--quiet".to_owned(), full];
    assert(texts(r@) =~= branch_words(name@));
    r
}

/// Whether the branch that git was asked about exists: git says so by success.
pub fn branch_exists(reply: &GitReply) -> (r: bool)
    ensures
        r == reply.success,
{
    reply.success
}

/// The mainline to cut new branches from: `main`, else `master`, else what the
/// remote has checked out.
pub open spec fn mainline(main: bool, master: bool) -> Seq<char> {
    if main {
        "main"@
    } else if master {
        "master"@
    } else {
        "origin/HEAD"@
    }
}

/// The mainline of a repository, given which of the two branches it has.
pub fn default_base(main: bool, master: bool) -> (r: String)
    ensures
        r@ == mainline(main, master),
{
    if main {
        "main".to_owned()
    } else if master {
        "master".to_owned()
    } else {
        "origin/HEAD".to_owned()
    }
}

/// The words that delete a branch; with `force` also one that is not fully
/// merged.
pub open spec fn delete_words(name: Seq<char>, force: bool) -> Seq<Seq<char>> {
    seq!["branch"@, if force { "-D"@ } else { "-d"@ }, name]
}

/// Deletes a branch; with `force` also one that is not fully merged.
pub fn delete_branch_args(name: &str, force: bool) -> (r: Vec<String>)
    ensures
        texts(r@) == delete_words(name@, force),
{
    let flag = if force { "-D".to_owned() } else { "-d".to_owned() };
    let r = vec!["branch".to_owned(), flag, name.to_owned()];
    assert(texts(r@) =~= delete_words(name@, force));
    r
}

/// The words that add a worktree at `dest`: for the branch `name` as it is, or
/// for a new branch of that name, cut from a base.
pub open spec fn add_words(name: Seq<char>, dest: Seq<u8>, from: Option<Seq<char>>) -> Seq<Seq<char>> {
    match from {
        Some(base) => seq!["worktree"@, "add"@, "-b"@, name, shown(dest), base],
        None => seq!["worktree"@, "add"@, shown(dest), name],
    }
}

/// Adds a worktree for the branch `name` as it is.
pub fn add_existing_args(name: &str, dest: &[u8]) -> (r: Vec<String>)
    ensures
        texts(r@) == add_words(name@, dest@, None),
{
    let r = vec!["worktree".to_owned(), "add".to_owned(), from_utf8_lossy(dest), name.to_owned()];
    assert(texts(r@) =~= add_words(name@, dest@, None));
    r
}

/// Adds a worktree for a new branch `name`, cut from `base`.
pub fn add_new_args(name: &str, dest: &[u8], base: &str) -> (r: Vec<String>)
    ensures
        texts(r@) == add_words(name@, dest@, Some(base@)),
{
    let r = vec![
        "worktree".to_owned(),
        "add".to_owned(),
        "-b".to_owned(),
        name.to_owned(),
        from_utf8_lossy(dest),
        base.to_owned(),
    ];
    assert(texts(r@) =~= add_words(name@, dest@, Some(base@)));
    r
}

/// The words that remove a worktree, whatever it holds.
pub open spec fn remove_words(dest: Seq<u8>) -> Seq<Seq<char>> {
    seq!["worktree"@, "remove"@, "--force"@, shown(dest)]
}

/// Removes a worktree, whatever it holds.
pub fn remove_args(dest: &[u8]) -> (r: Vec<String>)
    ensures
        texts(r@) == remove_words(dest@),
{
    let r = vec!["worktree".to_owned(), "remove".to_owned(), "--force".to_owned(), from_utf8_lossy(dest)];
    assert(texts(r@) =~= remove_words(dest@));
    r
}

/// The words that make git forget worktrees that are gone.
pub open spec fn prune_words() -> Seq<Seq<char>> {
    seq!["worktree"@, "prune"@]
}

/// Makes git forget worktrees that are gone.
pub fn prune_args() -> (r: Vec<String>)
    ensures
        texts(r@) == prune_words(),
{
    let r = vec!["worktree".to_owned(), "prune".to_owned()];
    assert(texts(r@) =~= prune_words());
    r
}

/// The words that ask for changes to tracked files.
pub open spec fn status_words() -> Seq<Seq<char>> {
    seq!["status"@, "--porcelain"@, "--untracked-files=no"@]
}

/// Asks for changes to tracked files.
pub fn status_args() -> (r: Vec<String>)
    ensures
        texts(r@) == status_words(),
{
    let r = vec!["status".to_owned(), "--porcelain".to_owned(), "--untracked-files=no".to_owned()];
    assert(texts(r@) =~= status_words());
    r
}

/// The end of a line.
pub const NEWLINE: u8 = 0x0a;

/// The path of git's exclude file, as seen from the root of the main
/// repository.
pub const EXCLUDE_FILE: &'static str = ".git/info/exclude";

/// The path of git's exclude file, which is shared by all worktrees.
pub fn exclude_file(main_root: &[u8]) -> (r: Vec<u8>)
    ensures
        r@ == joined(main_root@, encode_utf8(EXCLUDE_FILE@)),
{
    join(main_root, EXCLUDE_FILE.as_bytes())
}

/// Whether an exclude file holds the line for the worktrees.
pub open spec fn excludes_sprout(text: Seq<u8>) -> bool {
    split(text, NEWLINE).contains(encode_utf8(EXCLUDE_LINE@))
}

/// An exclude file with the line for the worktrees put at its end.
pub open spec fn with_exclude_line(text: Seq<u8>) -> Seq<u8> {
    let line = encode_utf8(EXCLUDE_LINE@).push(NEWLINE);
    if text.len() == 0 || text.last() == NEWLINE {
        text + line
    } else {
        text.push(NEWLINE) + line
    }
}

/// What git's exclude file is to hold so that git does not see the worktrees:
/// nothing new where it has the line.
pub fn ensure_sprout_excluded(text: &[u8]) -> (r: Option<Vec<u8>>)
    ensures
        match r {
            Some(new) => !excludes_sprout(text@) && new@ == with_exclude_line(text@),
            None => excludes_sprout(text@),
        },
{
    let lines = split_at_each(text, NEWLINE);
    if holds(&lines, EXCLUDE_LINE.as_bytes()) {
        return None;
    }
    let mut new = slice_to_vec(text);
    if text.len() > 0 && text[text.len() - 1] != NEWLINE {
        new.push(NEWLINE);
    }
    let ghost head = new@;
    new.extend_from_slice(EXCLUDE_LINE.as_bytes());
    new.push(NEWLINE);
    assert(new@ =~= head + encode_utf8(EXCLUDE_LINE@).push(NEWLINE));
    Some(new)
}

/// Adding the line is done once: what comes out needs nothing more, and all
/// that the file held is still there.
pub proof fn lemma_exclude_once(text: Seq<u8>)
    ensures
        excludes_sprout(with_exclude_line(text)),
        text.is_prefix_of(with_exclude_line(text)),
{
    let line = encode_utf8(EXCLUDE_LINE@);
    let new = with_exclude_line(text);
    let empty = Seq::<u8>::empty();
    reveal_strlit("/.sprout/");
    vstd::utf8::is_ascii_chars_encode_utf8(EXCLUDE_LINE@);
    assert(!line.contains(NEWLINE));
    lemma_split_whole(line, NEWLINE);
    lemma_split_concat(line, empty, NEWLINE);
    let last = line.push(NEWLINE);
    assert(last + empty =~= last);
    assert(split(last, NEWLINE)[0] == line);
    if text.len() == 0 {
        assert(new =~= last);
        assert(split(new, NEWLINE)[0] == line);
    } else {
        let head = if text.last() == NEWLINE { text.drop_last() } else { text };
        assert(head.push(NEWLINE) + last =~= new);
        lemma_split_concat(head, last, NEWLINE);
        assert(split(new, NEWLINE)[split(head, NEWLINE).len() as int] == line);
    }
}

/// Asks for all worktrees of a repository.
pub fn worktree_list_args() -> (r: Vec<String>)
    ensures
        texts(r@) == seq!["worktree"@, "list"@, "--porcelain"@],
{
    let r = vec!["worktree".to_owned(), "list".to_owned(), "--porcelain".to_owned()];
    assert(texts(r@) =~= seq!["worktree"@, "list"@, "--porcelain"@]);
    r
}

/// What the lines that name a worktree begin with.
pub const WORKTREE_WORD: &'static str = "worktree ";

/// The name of the worktree that a line of the listing speaks of, if it speaks
/// of one in the namespace.
pub open spec fn listed_name(namespace: Seq<u8>, line: Seq<u8>) -> Option<Seq<u8>> {
    let word = encode_utf8(WORKTREE_WORD@);
    if word.is_prefix_of(line) && is_below(namespace, line.skip(word.len() as int)) {
        Some(relative(namespace, line.skip(word.len() as int)))
    } else {
        None
    }
}

/// The names of the worktrees in the namespace, out of a listing.
pub open spec fn listed_names(namespace: Seq<u8>, listing: Seq<u8>) -> Seq<Seq<u8>> {
    split(listing, NEWLINE).filter_map(|line: Seq<u8>| listed_name(namespace, line))
}

fn name_in_line(namespace: &[u8], line: &[u8]) -> (r: Option<Vec<u8>>)
    ensures
        match r {
            Some(n) => listed_name(namespace@, line@) == Some(n@),
            None => listed_name(namespace@, line@) is None,
        },
{
    let word: &[u8] = WORKTREE_WORD.as_bytes();
    if line.len() < word.len() {
        return None;
    }
    let head = slice_subrange(line, 0, word.len());
    if !equal(head, word) {
        proof {
            if encode_utf8(WORKTREE_WORD@).is_prefix_of(line@) {
                assert(head@ =~= word@);
            }
        }
        return None;
    }
    let rest = slice_subrange(line, word.len(), line.len());
    proof {
        assert(rest@ =~= line@.skip(word@.len() as int));
        assert(word@.is_prefix_of(line@));
    }
    strip_dir(namespace, rest)
}

/// The names of the worktrees that live in the namespace, in the order in
/// which git lists them; none where git failed.
pub fn sprout_worktree_names(namespace: &[u8], reply: &GitReply) -> (r: Vec<Vec<u8>>)
    ensures
        contents(r@) == (if reply.success { listed_names(namespace@, reply.stdout@) } else { Seq::empty() }),
{
    let mut r: Vec<Vec<u8>> = Vec::new();
    if !reply.success {
        assert(contents(r@) =~= Seq::empty());
        return r;
    }
    let lines = split_at_each(reply.stdout.as_slice(), NEWLINE);
    let ghost all = contents(lines@);
    let ghost f = |line: Seq<u8>| listed_name(namespace@, line);
    let mut i: usize = 0;
    proof {
        assert(all.take(0) =~= Seq::<Seq<u8>>::empty());
        assert(contents(r@) =~= all.take(0).filter_map(f));
    }
    while i < lines.len()
        invariant
            i <= lines.len(),
            all == contents(lines@),
            f == (|line: Seq<u8>| listed_name(namespace@, line)),
            contents(r@) == all.take(i as int).filter_map(f),
        decreases lines.len() - i,
    {
        let ghost before = contents(r@);
        proof {
            all.lemma_filter_map_take_succ(f, i as int);
        }
        match name_in_line(namespace, lines[i].as_slice()) {
            Some(n) => {
                let ghost nv = n@;
                r.push(n);
                assert(contents(r@) =~= before.push(nv));
                assert(contents(r@) =~= all.take(i + 1).filter_map(f));
            },
            None => {
                assert(contents(r@) =~= all.take(i + 1).filter_map(f));
            },
        }
        i = i + 1;
    }
    assert(all.take(i as int) =~= all);
    r
}

/// The shape of the names that git accepts for a branch, as far as paths go:
/// between two slashes there is always something, and it never begins with a
/// dot.
pub open spec fn has_ref_shape(name: Seq<u8>) -> bool {
    forall|i: int|
        0 <= i < split(name, SEPARATOR).len() ==> {
            let piece = #[trigger] split(name, SEPARATOR)[i];
            piece.len() > 0 && piece[0] != DOT
        }
}

proof fn lemma_first_piece(s: Seq<u8>)
    requires
        s.len() > 0,
        s[0] == SEPARATOR || starts_with_dot(s),
    ensures
        split(s, SEPARATOR)[0].len() == 0 || split(s, SEPARATOR)[0][0] == DOT,
{
    let empty = Seq::<u8>::empty();
    if s[0] == SEPARATOR {
        assert(empty.push(SEPARATOR) + s.skip(1) =~= s);
        lemma_split_concat(empty, s.skip(1), SEPARATOR);
        lemma_split_whole(empty, SEPARATOR);
    } else if s.len() == 1 {
        assert(!s.contains(SEPARATOR));
        lemma_split_whole(s, SEPARATOR);
    } else {
        let dot = seq![DOT];
        assert(dot.push(SEPARATOR) + s.skip(2) =~= s);
        lemma_split_concat(dot, s.skip(2), SEPARATOR);
        assert(!dot.contains(SEPARATOR));
        lemma_split_whole(dot, SEPARATOR);
    }
}

proof fn lemma_named_all(pieces: Seq<Seq<u8>>)
    requires
        forall|i: int| 0 <= i < pieces.len() ==> (#[trigger] pieces[i]).len() > 0 && pieces[i][0] != DOT,
    ensures
        named(pieces) == pieces.map_values(|p: Seq<u8>| Component::Normal(p)),
    decreases pieces.len(),
{
    let normal = |p: Seq<u8>| Component::Normal(p);
    if pieces.len() > 0 {
        let last = pieces.last();
        assert(last == pieces[pieces.len() - 1]);
        assert forall|i: int| 0 <= i < pieces.drop_last().len() implies (#[trigger] pieces.drop_last()[i]).len()
            > 0 && pieces.drop_last()[i][0] != DOT by {
            assert(pieces.drop_last()[i] == pieces[i]);
        }
        lemma_named_all(pieces.drop_last());
        assert(!is_slack(last)) by {
            assert(seq![DOT][0] == DOT);
        }
        assert(component_of(last) == Component::Normal(last)) by {
            assert(seq![DOT, DOT][0] == DOT);
        }
        assert(named(pieces) =~= pieces.map_values(normal));
    } else {
        assert(named(pieces) =~= pieces.map_values(normal));
    }
}

/// A worktree never leaves the namespace: for a name of the shape that git
/// accepts, its directory goes on from the namespace by the pieces of the name
/// alone.
pub proof fn lemma_worktree_in_namespace(main_root: Seq<u8>, name: Seq<char>)
    requires
        has_ref_shape(encode_utf8(name)),
    ensures
        is_below(namespace(main_root), worktree_path(main_root, name)),
        components(worktree_path(main_root, name)) == components(namespace(main_root)) + split(
            encode_utf8(name),
            SEPARATOR,
        ).map_values(|p: Seq<u8>| Component::Normal(p)),
        relative(namespace(main_root), worktree_path(main_root, name)) == encode_utf8(name),
{
    let tail = encode_utf8(name);
    let ns = namespace(main_root);
    let pieces = split(tail, SEPARATOR);
    let dest = worktree_path(main_root, name);
    lemma_split_nonempty(tail, SEPARATOR);
    assert(pieces[0].len() > 0 && pieces[0][0] != DOT);
    if is_absolute(tail) || starts_with_dot(tail) {
        lemma_first_piece(tail);
        assert(false);
    }
    lemma_joined_components(ns, tail);
    lemma_named_all(pieces);
    assert(components(tail) =~= pieces.map_values(|p: Seq<u8>| Component::Normal(p)));
    assert(components(dest).take(components(ns).len() as int) =~= components(ns));
    assert(crate::path::names_from(components(dest), components(ns).len() as int) =~= pieces);
    lemma_split_join(tail, SEPARATOR);
}

/// Worktrees of different names have different directories.
pub proof fn lemma_worktrees_apart(main_root: Seq<u8>, a: Seq<char>, b: Seq<char>)
    requires
        has_ref_shape(encode_utf8(a)),
        has_ref_shape(encode_utf8(b)),
        components(worktree_path(main_root, a)) == components(worktree_path(main_root, b)),
    ensures
        a == b,
{
    lemma_worktree_in_namespace(main_root, a);
    lemma_worktree_in_namespace(main_root, b);
    vstd::utf8::encode_utf8_decode_utf8(a);
    vstd::utf8::encode_utf8_decode_utf8(b);
}

/// A worktree of the repository is listed under its name.
pub proof fn lemma_worktree_listed(main_root: Seq<u8>, name: Seq<char>)
    requires
        has_ref_shape(encode_utf8(name)),
    ensures
        listed_name(
            namespace(main_root),
            encode_utf8(WORKTREE_WORD@) + worktree_path(main_root, name),
        ) == Some(encode_utf8(name)),
{
    let word = encode_utf8(WORKTREE_WORD@);
    let line = word + worktree_path(main_root, name);
    lemma_worktree_in_namespace(main_root, name);
    assert(line.skip(word.len() as int) =~= worktree_path(main_root, name));
    assert(word.is_prefix_of(line));
}

/// The main worktree is not among the listed names.
pub proof fn lemma_main_not_listed(main_root: Seq<u8>)
    ensures
        listed_name(namespace(main_root), encode_utf8(WORKTREE_WORD@) + main_root) is None,
{
    let word = encode_utf8(WORKTREE_WORD@);
    let line = word + main_root;
    assert(line.skip(word.len() as int) =~= main_root);
    reveal_strlit(".sprout");
    vstd::utf8::is_ascii_chars_encode_utf8(NAMESPACE@);
    crate::path::lemma_entry_components(main_root, encode_utf8(NAMESPACE@));
}

/// Pruning after a worktree is gone touches only directories below the
/// namespace: neither the namespace nor anything outside of it.
pub proof fn lemma_prune_stays_below(namespace: Seq<u8>, dest: Seq<u8>, dirs: Seq<Seq<u8>>)
    requires
        is_below(namespace, dest),
        is_prune_list(namespace, dest, dirs),
    ensures
        dirs.len() == components(dest).len() - components(namespace).len() - 1,
        forall|i: int| 0 <= i < dirs.len() ==> is_below(namespace, #[trigger] dirs[i]),
        forall|i: int|
            0 <= i < dirs.len() ==> components(#[trigger] dirs[i]) == components(dest).take(
                components(dest).len() - 1 - i,
            ),
{
    lemma_goes_up_below(namespace, dest, dirs);
    let all = components(dest);
    let reached = components(top(dest, dirs));
    assert(reached =~= all.take(all.len() - dirs.len()));
    assert(all[reached.len() - 1] is Normal);
    assert(reached.drop_last() =~= all.take(all.len() - dirs.len() - 1));
}

proof fn lemma_goes_up_below(namespace: Seq<u8>, dest: Seq<u8>, dirs: Seq<Seq<u8>>)
    requires
        is_below(namespace, dest),
        goes_up(namespace, dest, dirs),
    ensures
        dirs.len() < components(dest).len() - components(namespace).len(),
        forall|i: int|
            0 <= i < dirs.len() ==> is_below(namespace, #[trigger] dirs[i]) && components(dirs[i]) == components(
                dest,
            ).take(components(dest).len() - 1 - i),
    decreases dirs.len(),
{
    if dirs.len() > 0 {
        let before = dirs.drop_last();
        lemma_goes_up_below(namespace, dest, before);
        let all = components(dest);
        let n = components(namespace).len();
        let d = dirs.last();
        let k = dirs.len() as int;
        assert(components(top(dest, before)) =~= all.take(all.len() - (k - 1))) by {
            if before.len() > 0 {
                assert(before.last() == before[k - 2]);
            }
        }
        assert(components(d) =~= all.take(all.len() - k));
        if all.len() - k == n {
            assert(all.take(n as int) == components(namespace));
            assert(false);
        }
        assert(components(d).take(n as int) =~= all.take(n as int));
        assert forall|i: int| n <= i < components(d).len() implies #[trigger] components(d)[i] is Normal by {
            assert(all[i] is Normal);
        }
        assert forall|i: int| 0 <= i < dirs.len() implies is_below(namespace, #[trigger] dirs[i]) && components(
            dirs[i],
        ) == all.take(all.len() - 1 - i) by {
            if i < k - 1 {
                assert(dirs[i] == before[i]);
            }
        }
    }
}

/// What git is told, word by word. The branch that is asked about, created,
/// checked out and deleted is the one of the whole name; the path is that of the
/// worktree; and a new branch is cut from the given base.
pub proof fn lemma_command_words(name: Seq<char>, dest: Seq<u8>, base: Seq<char>, force: bool)
    ensures
        branch_words(name) == seq!["show-ref"@, "--verify"@, "--quiet"@, "refs/heads/"@ + name],
        add_words(name, dest, Some(base)) == seq!["worktree"@, "add"@, "-b"@, name, shown(dest), base],
        add_words(name, dest, None) == seq!["worktree"@, "add"@, shown(dest), name],
        branch_words(name)[3] == "refs/heads/"@ + add_words(name, dest, Some(base))[3],
        branch_words(name)[3] == "refs/heads/"@ + add_words(name, dest, None)[3],
        branch_words(name)[3] == "refs/heads/"@ + delete_words(name, force)[2],
        delete_words(name, true) == seq!["branch"@, "-D"@, name],
        delete_words(name, false) == seq!["branch"@, "-d"@, name],
        remove_words(dest) == seq!["worktree"@, "remove"@, "--force"@, shown(dest)],
        remove_words(dest)[3] == add_words(name, dest, Some(base))[4],
        remove_words(dest)[3] == add_words(name, dest, None)[2],
        prune_words() == seq!["worktree"@, "prune"@],
        status_words() == seq!["status"@, "--porcelain"@, "--untracked-files=no"@],
        listing_words() == seq![
            "ls-files"@,
            "--others"@,
            "--ignored"@,
            "--exclude-standard"@,
            "--directory"@,
            "-z"@,
        ],
{
}

/// Commands for different branches, paths or bases are different.
pub proof fn lemma_commands_apart(
    a: Seq<char>,
    b: Seq<char>,
    x: Seq<u8>,
    y: Seq<u8>,
    from: Option<Seq<char>>,
    to: Option<Seq<char>>,
)
    ensures
        branch_words(a) == branch_words(b) ==> a == b,
        add_words(a, x, from) == add_words(b, y, to) ==> a == b && shown(x) == shown(y) && from == to,
        remove_words(x) == remove_words(y) ==> shown(x) == shown(y),
        forall|f: bool, g: bool| #[trigger] delete_words(a, f) == #[trigger] delete_words(b, g) ==> a == b && f == g,
{
    if branch_words(a) == branch_words(b) {
        assert(branch_words(a)[3].skip("refs/heads/"@.len() as int) =~= a);
        assert(branch_words(b)[3].skip("refs/heads/"@.len() as int) =~= b);
    }
    if add_words(a, x, from) == add_words(b, y, to) {
        let w = add_words(a, x, from);
        if from is Some {
            assert(w.len() == 6);
            assert(to is Some);
            assert(w[3] == a && w[4] == shown(x) && w[5] == from->0);
            assert(w[3] == b && w[4] == shown(y) && w[5] == to->0);
        } else {
            assert(w.len() == 4);
            assert(to is None);
            assert(w[2] == shown(x) && w[3] == a);
            assert(w[2] == shown(y) && w[3] == b);
        }
    }
    if remove_words(x) == remove_words(y) {
        assert(remove_words(x)[3] == remove_words(y)[3]);
    }
    reveal_strlit("-d");
    reveal_strlit("-D");
    assert("-D"@[1] == 'D' && "-d"@[1] == 'd');
    assert forall|f: bool, g: bool| #[trigger] delete_words(a, f) == #[trigger] delete_words(b, g) implies a == b
        && f == g by {
        assert(delete_words(a, f)[2] == delete_words(b, g)[2]);
        assert(delete_words(a, f)[1] == delete_words(b, g)[1]);
    }
}

/// The path that git is told for a worktree is that of the repository, `.sprout`
/// and the name, with slashes between them.
pub proof fn lemma_worktree_path_shown(root: Seq<char>, name: Seq<char>)
    requires
        root.len() > 0,
        root.last() != '/',
        name.len() > 0,
        name[0] != '/',
    ensures
        shown(worktree_path(encode_utf8(root), name)) == root + "/.sprout/"@ + name,
        shown(namespace(encode_utf8(root))) == root + "/.sprout"@,
{
    let r = encode_utf8(root);
    let n = encode_utf8(name);
    let ns = encode_utf8(".sprout"@);
    let slash = seq!['/'];
    reveal_strlit(".sprout");
    reveal_strlit("/.sprout");
    reveal_strlit("/.sprout/");
    vstd::utf8::is_ascii_chars_encode_utf8(".sprout"@);
    vstd::utf8::is_ascii_chars_encode_utf8(slash);
    assert(encode_utf8(slash) =~= seq![SEPARATOR]);
    lemma_last_byte(root);
    lemma_first_byte(name);
    let top = namespace(r);
    assert(top =~= r + encode_utf8(slash) + ns);
    lemma_encode_concat(root, slash);
    lemma_encode_concat(root + slash, ".sprout"@);
    assert(root + slash + ".sprout"@ =~= root + "/.sprout"@);
    lemma_text_is_shown(root + "/.sprout"@);
    assert(top.last() == ns.last());
    let path = worktree_path(r, name);
    assert(path =~= top + encode_utf8(slash) + n);
    lemma_encode_concat(root + "/.sprout"@, slash);
    lemma_encode_concat(root + "/.sprout"@ + slash, name);
    assert(root + "/.sprout"@ + slash + name =~= root + "/.sprout/"@ + name);
    lemma_text_is_shown(root + "/.sprout/"@ + name);
}

proof fn lemma_first_byte(s: Seq<char>)
    requires
        s.len() > 0,
        s[0] != '/',
    ensures
        encode_utf8(s).len() > 0,
        encode_utf8(s)[0] != SEPARATOR,
{
    let head = s.take(1);
    let rest = s.skip(1);
    assert(head + rest =~= s);
    lemma_encode_concat(head, rest);
    assert forall|i: int| 0 <= i < head.len() implies #[trigger] head[i] as u32 != SEPARATOR by {
        vstd::utf8::char_u32_cast(head[i], head[i] as u32);
    }
    lemma_bytes_lack(head, SEPARATOR);
    vstd::utf8::encode_utf8_first_scalar(head);
    assert(encode_utf8(head).len() > 0);
    assert(encode_utf8(s)[0] == encode_utf8(head)[0]);
}

proof fn lemma_last_byte(s: Seq<char>)
    requires
        s.len() > 0,
        s.last() != '/',
    ensures
        encode_utf8(s).len() > 0,
        encode_utf8(s).last() != SEPARATOR,
{
    let head = s.drop_last();
    let tail = seq![s.last()];
    assert(head + tail =~= s);
    lemma_encode_concat(head, tail);
    assert forall|i: int| 0 <= i < tail.len() implies #[trigger] tail[i] as u32 != SEPARATOR by {
        vstd::utf8::char_u32_cast(tail[i], tail[i] as u32);
    }
    lemma_bytes_lack(tail, SEPARATOR);
    vstd::utf8::encode_utf8_first_scalar(tail);
    assert(encode_utf8(tail).len() > 0);
    assert(encode_utf8(s).last() == encode_utf8(tail).last());
}

/// The bytes of `.sprout`.
proof fn lemma_namespace_bytes()
    ensures
        encode_utf8(".sprout"@) == seq![0x2eu8, 0x73u8, 0x70u8, 0x72u8, 0x6fu8, 0x75u8, 0x74u8],
        is_entry_name(encode_utf8(".sprout"@)),
{
    reveal_strlit(".sprout");
    vstd::utf8::is_ascii_chars_encode_utf8(".sprout"@);
    assert(encode_utf8(".sprout"@) =~= seq![0x2eu8, 0x73u8, 0x70u8, 0x72u8, 0x6fu8, 0x75u8, 0x74u8]);
}

/// The directory of worktrees is the entry `.sprout` of the repository.
pub proof fn lemma_namespace_place(main_root: Seq<u8>)
    ensures
        namespace(main_root) == joined(main_root, encode_utf8(".sprout"@)),
        namespace(main_root) == joined(main_root, seq![0x2eu8, 0x73u8, 0x70u8, 0x72u8, 0x6fu8, 0x75u8, 0x74u8]),
        components(namespace(main_root)) == components(main_root).push(
            Component::Normal(seq![0x2eu8, 0x73u8, 0x70u8, 0x72u8, 0x6fu8, 0x75u8, 0x74u8]),
        ),
{
    lemma_namespace_bytes();
    crate::path::lemma_entry_components(main_root, encode_utf8(".sprout"@));
}

/// A path is taken for one of the worktrees exactly when its first component is
/// `.sprout`: where it goes by names alone, when it is `.sprout` or lies below
/// it. The name of any other entry is not.
pub proof fn lemma_in_namespace(rel: Seq<u8>, name: Seq<u8>)
    ensures
        in_namespace(rel) <==> components(rel).len() > 0 && components(rel)[0] == Component::Normal(
            seq![0x2eu8, 0x73u8, 0x70u8, 0x72u8, 0x6fu8, 0x75u8, 0x74u8],
        ),
        is_within(encode_utf8(".sprout"@), rel) ==> in_namespace(rel),
        (forall|i: int| 0 <= i < components(rel).len() ==> #[trigger] components(rel)[i] is Normal) ==> (
        in_namespace(rel) <==> is_within(encode_utf8(".sprout"@), rel)),
        is_entry_name(name) ==> (in_namespace(name) <==> name == encode_utf8(".sprout"@)),
        is_entry_name(name) && name != encode_utf8(".sprout"@) ==> !in_namespace(joined(name, rel)) || is_absolute(rel),
{
    let sprout = encode_utf8(".sprout"@);
    let empty = Seq::<u8>::empty();
    lemma_namespace_bytes();
    crate::path::lemma_component_parts(empty);
    crate::path::lemma_entry_components(empty, sprout);
    assert(joined(empty, sprout) =~= sprout);
    assert(components(sprout) =~= seq![Component::Normal(sprout)]);
    if is_within(sprout, rel) {
        assert(components(rel).take(1)[0] == components(sprout)[0]);
    }
    if components(rel).len() > 0 && components(rel)[0] == Component::Normal(sprout) {
        assert(components(rel).take(1) =~= components(sprout));
    }
    if is_entry_name(name) {
        crate::path::lemma_entry_components(empty, name);
        assert(name.len() > 0 && name[0] != SEPARATOR) by {
            if name.len() == 0 {
                assert(name =~= empty);
            }
        }
        assert(joined(empty, name) =~= name);
        assert(components(name) =~= seq![Component::Normal(name)]);
        if !is_absolute(rel) {
            if starts_with_dot(rel) {
                lemma_first_component(name, rel);
            } else {
                lemma_joined_components(name, rel);
                assert(components(joined(name, rel))[0] == Component::Normal(name));
            }
        }
    }
}

/// What goes on from an entry begins with the entry.
proof fn lemma_first_component(name: Seq<u8>, rel: Seq<u8>)
    requires
        is_entry_name(name),
        !is_absolute(rel),
    ensures
        components(joined(name, rel)).len() > 0,
        components(joined(name, rel))[0] == Component::Normal(name),
{
    let empty = Seq::<u8>::empty();
    assert(name.len() > 0) by {
        if name.len() == 0 {
            assert(name =~= empty);
        }
    }
    assert(name[0] != SEPARATOR);
    assert(name[name.len() - 1] != SEPARATOR);
    let p = joined(name, rel);
    assert(p == name.push(SEPARATOR) + rel);
    lemma_split_concat(name, rel, SEPARATOR);
    lemma_split_whole(name, SEPARATOR);
    let one = seq![name];
    crate::path::lemma_named_one(name);
    assert(named(one) =~= seq![Component::Normal(name)]);
    crate::path::lemma_named_concat(one, split(rel, SEPARATOR));
    assert(!starts_with_dot(p)) by {
        if starts_with_dot(p) {
            if name.len() == 1 {
                assert(name =~= seq![DOT]);
            } else {
                assert(p[1] == name[1]);
            }
        }
    }
    assert(origin(p) =~= Seq::<Component>::empty());
}

/// Listings are read piece by piece: what two of them list, with a zero byte
/// between, is what each lists; and one path gives one entry, without the slash
/// that git puts after a directory, unless it belongs to the worktrees.
pub proof fn lemma_entries_pieces(a: Seq<u8>, b: Seq<u8>, path: Seq<u8>)
    ensures
        entries(a.push(0) + b) == entries(a) + entries(b),
        entries(Seq::<u8>::empty()) == Seq::<Seq<u8>>::empty(),
        !path.contains(0) && path.len() > 0 && path.last() != 0x2f && !in_namespace(path) ==> entries(path) == seq![
            path,
        ] && entries(path.push(0)) == seq![path] && entries(path.push(0x2f).push(0)) == seq![path],
        !path.contains(0) && path.len() > 0 && path.last() != 0x2f && in_namespace(path) ==> entries(
            path.push(0),
        ).len() == 0 && entries(path.push(0x2f).push(0)).len() == 0,
{
    let keep = |p: Seq<u8>| p.len() > 0 && !in_namespace(entry_path(p));
    let strip = |p: Seq<u8>| entry_path(p);
    let empty = Seq::<u8>::empty();
    lemma_entries_concat(a, b);
    lemma_split_whole(empty, 0);
    lemma_one_kept(empty, keep, strip);
    assert(entries(empty) =~= Seq::<Seq<u8>>::empty());
    if !path.contains(0) && path.len() > 0 && path.last() != 0x2f {
        let dir = path.push(0x2f);
        assert(!dir.contains(0)) by {
            if dir.contains(0) {
                let i = choose|i: int| 0 <= i < dir.len() && dir[i] == 0;
                assert(path[i] == 0);
            }
        }
        assert(dir.drop_last() =~= path);
        lemma_split_whole(path, 0);
        lemma_split_whole(dir, 0);
        lemma_one_kept(path, keep, strip);
        lemma_one_kept(dir, keep, strip);
        lemma_entries_concat(path, empty);
        lemma_entries_concat(dir, empty);
        assert(path.push(0) + empty =~= path.push(0));
        assert(dir.push(0) + empty =~= dir.push(0));
        assert(seq![path] + Seq::<Seq<u8>>::empty() =~= seq![path]);
    }
}

proof fn lemma_one_kept(p: Seq<u8>, keep: spec_fn(Seq<u8>) -> bool, strip: spec_fn(Seq<u8>) -> Seq<u8>)
    ensures
        seq![p].filter(keep).map_values(strip) == (if keep(p) {
            seq![strip(p)]
        } else {
            Seq::<Seq<u8>>::empty()
        }),
{
    let none = Seq::<Seq<u8>>::empty();
    none.lemma_filter_push(p, keep);
    reveal(Seq::filter);
    assert(none.filter(keep) =~= none);
    assert(none.push(p) =~= seq![p]);
    assert(seq![p].filter(keep).map_values(strip) =~= (if keep(p) {
        seq![strip(p)]
    } else {
        none
    }));
}

proof fn lemma_entries_concat(a: Seq<u8>, b: Seq<u8>)
    ensures
        entries(a.push(0) + b) == entries(a) + entries(b),
{
    let keep = |p: Seq<u8>| p.len() > 0 && !in_namespace(entry_path(p));
    let strip = |p: Seq<u8>| entry_path(p);
    let x = split(a, 0);
    let y = split(b, 0);
    lemma_split_concat(a, b, 0);
    Seq::filter_distributes_over_add(x, y, keep);
    assert((x.filter(keep) + y.filter(keep)).map_values(strip) =~= x.filter(keep).map_values(strip) + y.filter(
        keep,
    ).map_values(strip));
}

/// A listing is read line by line, and a line that names a worktree gives the
/// way to it from the directory of worktrees: taken from there, it leads to the
/// worktree. A worktree that lies elsewhere is left out, and so is every other
/// line.
pub proof fn lemma_listed_names(namespace: Seq<u8>, a: Seq<u8>, b: Seq<u8>, path: Seq<u8>)
    ensures
        listed_names(namespace, a.push(0x0a) + b) == listed_names(namespace, a) + listed_names(namespace, b),
        is_below(namespace, path) ==> {
            &&& listed_name(namespace, encode_utf8("worktree "@) + path) matches Some(name) && components(
                joined(namespace, name),
            ) == components(path)
        },
        !is_below(namespace, path) ==> listed_name(namespace, encode_utf8("worktree "@) + path) is None,
        !encode_utf8("worktree "@).is_prefix_of(path) ==> listed_name(namespace, path) is None,
        !a.contains(0x0a) ==> listed_names(namespace, a) == (match listed_name(namespace, a) {
            Some(name) => seq![name],
            None => Seq::<Seq<u8>>::empty(),
        }),
{
    let f = |line: Seq<u8>| listed_name(namespace, line);
    let word = encode_utf8("worktree "@);
    let line = word + path;
    assert(line.skip(word.len() as int) =~= path);
    assert(word.is_prefix_of(line));
    if is_below(namespace, path) {
        crate::path::lemma_relative_leads_back(namespace, path);
    }
    lemma_split_concat(a, b, NEWLINE);
    lemma_filter_map_concat(split(a, NEWLINE), split(b, NEWLINE), f);
    if !a.contains(0x0a) {
        lemma_split_whole(a, NEWLINE);
        let one = seq![a];
        one.lemma_filter_map_take_succ(f, 0);
        assert(one.take(0) =~= Seq::<Seq<u8>>::empty());
        assert(one.take(1) =~= one);
        assert(one.take(0).filter_map(f) =~= Seq::<Seq<u8>>::empty());
        assert(listed_names(namespace, a) =~= (match listed_name(namespace, a) {
            Some(name) => seq![name],
            None => Seq::<Seq<u8>>::empty(),
        }));
    }
}

proof fn lemma_filter_map_concat(x: Seq<Seq<u8>>, y: Seq<Seq<u8>>, f: spec_fn(Seq<u8>) -> Option<Seq<u8>>)
    ensures
        (x + y).filter_map(f) == x.filter_map(f) + y.filter_map(f),
    decreases y.len(),
{
    if y.len() == 0 {
        assert(x + y =~= x);
        assert(y.filter_map(f) =~= Seq::<Seq<u8>>::empty());
        assert(x.filter_map(f) + y.filter_map(f) =~= x.filter_map(f));
    } else {
        let z = y.drop_last();
        lemma_filter_map_concat(x, z, f);
        let n = (x + y).len() - 1;
        (x + y).lemma_filter_map_take_succ(f, n);
        y.lemma_filter_map_take_succ(f, y.len() - 1);
        assert((x + y).take(n) =~= x + z);
        assert((x + y).take(n + 1) =~= x + y);
        assert(y.take(y.len() - 1) =~= z);
        assert(y.take(y.len() as int) =~= y);
        assert((x + y).filter_map(f) =~= x.filter_map(f) + y.filter_map(f));
    }
}

/// The mainline: `main` where there is one, else `master`, else what the remote
/// has checked out.
pub proof fn lemma_mainline(main: bool, master: bool)
    ensures
        main ==> mainline(main, master) == "main"@,
        !main && master ==> mainline(main, master) == "master"@,
        !main && !master ==> mainline(main, master) == "origin/HEAD"@,
{
}

/// The exclude file keeps its lines, and gets one more, on a line of its own.
pub proof fn lemma_exclude_lines(text: Seq<u8>)
    ensures
        with_exclude_line(text) == text + (if text.len() == 0 || text.last() == 0x0a {
            Seq::<u8>::empty()
        } else {
            seq![0x0au8]
        }) + encode_utf8("/.sprout/"@) + seq![0x0au8],
        excludes_sprout(text) <==> split(text, 0x0a).contains(encode_utf8("/.sprout/"@)),
        forall|i: int|
            0 <= i < split(text, 0x0a).len() && (#[trigger] split(text, 0x0a)[i]).len() > 0 ==> split(
                with_exclude_line(text),
                0x0a,
            ).contains(split(text, 0x0a)[i]),
{
    let line = encode_utf8("/.sprout/"@);
    let new = with_exclude_line(text);
    let end = line.push(NEWLINE);
    assert(new =~= text + (if text.len() == 0 || text.last() == 0x0a {
        Seq::<u8>::empty()
    } else {
        seq![0x0au8]
    }) + line + seq![0x0au8]);
    assert forall|i: int| 0 <= i < split(text, 0x0a).len() && (#[trigger] split(text, 0x0a)[i]).len() > 0 implies split(
        new,
        0x0a,
    ).contains(split(text, 0x0a)[i]) by {
        if text.len() > 0 {
            let head = if text.last() == NEWLINE { text.drop_last() } else { text };
            assert(head.push(NEWLINE) + end =~= new);
            lemma_split_concat(head, end, NEWLINE);
            if text.last() == NEWLINE {
                let empty = Seq::<u8>::empty();
                assert(head.push(NEWLINE) + empty =~= text);
                lemma_split_concat(head, empty, NEWLINE);
                lemma_split_whole(empty, NEWLINE);
            }
            assert(split(new, 0x0a)[i] == split(text, 0x0a)[i]);
        }
    }
}

/// The output of git is read without the white space around it and no more: what
/// a text between two white spaces holds is kept.
pub proof fn lemma_output_kept(text: Seq<char>)
    ensures
        ({
            let out = output_text(encode_utf8(text));
            exists|a: int, b: int|
                0 <= a <= b <= text.len() && out == #[trigger] text.subrange(a, b) && (forall|i: int|
                    0 <= i < a || b <= i < text.len() ==> is_white_space(#[trigger] text[i])) && (a < b ==> !is_white_space(
                    text[a],
                ) && !is_white_space(text[b - 1]))
        }),
{
    lemma_text_is_shown(text);
    let cut = lemma_trimmed(text);
    assert(output_text(encode_utf8(text)) == text.subrange(cut.0, cut.1));
}

/// The message for a git command that failed names the command and gives what
/// git said.
pub proof fn lemma_failure_text(args: Seq<Seq<char>>, stderr: Seq<u8>)
    ensures
        git_failure(args, stderr) == "git "@ + spaced(args) + " failed:\n"@ + trimmed(shown(stderr)),
        output_text(stderr) == trimmed(shown(stderr)),
{
}

/// From the directory that git keeps its state in, `.git` in the repository, the
/// root of the repository is found.
pub proof fn lemma_root_of_git_dir(root: Seq<u8>, found: Seq<u8>)
    requires
        is_trimmed(root),
        is_parent(joined(root, seq![0x2eu8, 0x67u8, 0x69u8, 0x74u8]), found),
    ensures
        found == root,
{
    let git = seq![0x2eu8, 0x67u8, 0x69u8, 0x74u8];
    assert(git.len() == 4);
    assert(!git.contains(SEPARATOR));
    assert(is_entry_name(git)) by {
        assert(Seq::<u8>::empty().len() == 0 && seq![DOT].len() == 1 && seq![DOT, DOT].len() == 2);
    }
    crate::path::lemma_parent_of_entry(root, git, found);
}

/// The hash takes in each byte in turn.
pub proof fn lemma_hash_turns(bytes: Seq<u8>, b: u8)
    ensures
        fnv1a_hash(Seq::<u8>::empty()) == 0xcbf2_9ce4_8422_2325,
        fnv1a_hash(bytes.push(b)) == ((fnv1a_hash(bytes) ^ (b as u64)) as int * 1_099_511_628_211)
            % 18_446_744_073_709_551_616,
{
    assert(bytes.push(b).drop_last() =~= bytes);
}

/// The name of the directory under the home directory is that of the repository,
/// a dash, and the hash of its path in at least eight digits of base sixteen.
pub proof fn lemma_slug(name: Seq<u8>, root: Seq<u8>)
    ensures
        ({
            let whole = slug(name, root);
            let head = shown(name).push('-');
            let digits = whole.skip(head.len() as int);
            let plain = numeral(fnv1a_hash(root) as nat, 16);
            &&& head.is_prefix_of(whole)
            &&& row_value(plain, 16) == fnv1a_hash(root)
            &&& plain.is_suffix_of(digits)
            &&& digits.len() == (if plain.len() < 8 { 8 } else { plain.len() as int })
            &&& forall|i: int| 0 <= i < digits.len() - plain.len() ==> #[trigger] digits[i] == '0'
        }),
{
    reveal_strlit("-");
    let whole = slug(name, root);
    let head = shown(name).push('-');
    let plain = numeral(fnv1a_hash(root) as nat, 16);
    crate::text::lemma_numeral(fnv1a_hash(root) as nat, 16, 8);
    assert(whole =~= head + zero_padded(plain, 8));
    assert(whole.skip(head.len() as int) =~= zero_padded(plain, 8));
}

/// A directory is listed with a slash after it, which is not part of its path;
/// what is listed without one is the path.
pub proof fn lemma_entry_path(path: Seq<u8>)
    ensures
        entry_path(path.push(0x2f)) == path,
        path.len() > 0 && path.last() != 0x2f ==> entry_path(path) == path,
        entry_path(Seq::<u8>::empty()) == Seq::<u8>::empty(),
{
    assert(path.push(0x2f).drop_last() =~= path);
}

/// Git's exclude file is the entry `exclude` of the directory `info` of what
/// git keeps in the repository.
pub proof fn lemma_exclude_place(main_root: Seq<u8>)
    ensures
        joined(main_root, encode_utf8(EXCLUDE_FILE@)) == joined(
            joined(joined(main_root, encode_utf8(".git"@)), encode_utf8("info"@)),
            encode_utf8("exclude"@),
        ),
{
    reveal_strlit(".git/info/exclude");
    reveal_strlit(".git");
    reveal_strlit("info");
    reveal_strlit("exclude");
    vstd::utf8::is_ascii_chars_encode_utf8(EXCLUDE_FILE@);
    vstd::utf8::is_ascii_chars_encode_utf8(".git"@);
    vstd::utf8::is_ascii_chars_encode_utf8("info"@);
    vstd::utf8::is_ascii_chars_encode_utf8("exclude"@);
    let whole = encode_utf8(EXCLUDE_FILE@);
    let git = encode_utf8(".git"@);
    let info = encode_utf8("info"@);
    let exclude = encode_utf8("exclude"@);
    assert(whole =~= git.push(SEPARATOR) + info.push(SEPARATOR) + exclude);
    let first = joined(main_root, git);
    let second = joined(first, info);
    assert(first.last() != SEPARATOR);
    assert(second =~= first.push(SEPARATOR) + info);
    assert(second.last() != SEPARATOR);
    assert(joined(second, exclude) =~= joined(main_root, whole));
}

} // verus!
