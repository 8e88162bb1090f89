//! Staging directories and lazy cleanup.
//!
//! Deleting a big cloned tree takes long; renaming it does not. So nothing
//! large is deleted while the user waits: what is left of an abandoned clone
//! stays in a staging directory, a worktree that is removed is renamed into
//! one, and a detached process, the sweeper, deletes such entries later.
//!
//! An entry is named `{pid}.{name}`, so that a sweep can tell what a running
//! process still owns from what nobody does.
use crate::bytes::{contents, equal, holds};
use crate::path::{components, file_name, is_below, is_entry_name, is_within, join, joined, last_name, lemma_entry_components, parent, parts, Component, Part, DOT, SEPARATOR};
use crate::repo::{is_prune_list, lemma_prune_stays_below, prune_empty_parents};
use crate::text::{before, decimal, from_utf8, i32_value, is_digit, lemma_before_first, lemma_bytes_lack, lemma_decimal, lemma_decimal_apart, lemma_decimal_read, parse_i32, take_before, to_decimal};
use vstd::prelude::*;
use vstd::slice::slice_to_vec;
use vstd::string::*;
use vstd::utf8::{decode_utf8, encode_utf8, valid_utf8};

verus! {

/// The staging root inside the system's directory for temporary files.
pub const TEMP_ROOT: &'static str = "sprout-staging";

/// The staging root inside the directory of worktrees, which is always on the
/// file system of the repository.
pub const LOCAL_ROOT: &'static str = ".staging";

/// The age, in nanoseconds, beyond which an entry is abandoned whoever owns
/// it: a day.
pub const MAX_AGE: u128 = 86_400_000_000_000;

/// The error for a process that exists and belongs to someone else.
pub const EPERM: i32 = 1;

/// The word that makes a process a sweeper.
pub const SWEEP_WORD: &'static str = "__sweep";

/// Whether two directories are on one device, given the devices that they are
/// known to be on.
pub fn same_device(a: Option<u64>, b: Option<u64>) -> (r: bool)
    ensures
        r == (a is Some && a == b),
{
    match (a, b) {
        (Some(x), Some(y)) => x == y,
        _ => false,
    }
}

/// The directory whose device is the repository's: the one that holds the
/// directory of worktrees.
pub fn repo_device_dir(namespace: &[u8]) -> (r: Vec<u8>)
    ensures
        crate::path::has_parent(namespace@) ==> crate::path::is_parent(namespace@, r@),
        !crate::path::has_parent(namespace@) ==> r@ == namespace@,
{
    match parent(namespace) {
        Some(dir) => dir,
        None => slice_to_vec(namespace),
    }
}

/// The staging root among temporary files.
pub open spec fn temp_root(temp: Seq<u8>) -> Seq<u8> {
    joined(temp, encode_utf8(TEMP_ROOT@))
}

/// The staging root next to the worktrees.
pub open spec fn local_root(namespace: Seq<u8>) -> Seq<u8> {
    joined(namespace, encode_utf8(LOCAL_ROOT@))
}

/// The staging root to use: among temporary files where these share the device
/// of the repository, so that cloning and renaming work, and otherwise next to
/// the worktrees.
pub fn staging_root(temp: &[u8], namespace: &[u8], shared: bool) -> (r: Vec<u8>)
    ensures
        r@ == (if shared { temp_root(temp@) } else { local_root(namespace@) }),
{
    if shared {
        join(temp, TEMP_ROOT.as_bytes())
    } else {
        join(namespace, LOCAL_ROOT.as_bytes())
    }
}

/// The two staging roots, where a sweep looks for entries.
pub fn sweep_roots(temp: &[u8], namespace: &[u8]) -> (r: Vec<Vec<u8>>)
    ensures
        contents(r@) == seq![temp_root(temp@), local_root(namespace@)],
{
    let r = vec![staging_root(temp, namespace, true), staging_root(temp, namespace, false)];
    assert(contents(r@) =~= seq![temp_root(temp@), local_root(namespace@)]);
    r
}

/// The directory to remove if it is empty, so that it is not in the way when
/// the directory of worktrees is to go.
pub fn tidy_local_root(namespace: &[u8]) -> (r: Vec<u8>)
    ensures
        r@ == local_root(namespace@),
{
    join(namespace, LOCAL_ROOT.as_bytes())
}

/// Whether `list` are the directories to remove, each if it is empty, once
/// nothing stands at `dest`: those between the worktrees and `dest`, the
/// nearest first, then the staging root next to the worktrees, and at the end
/// the directory of worktrees itself.
pub open spec fn is_tidy_list(namespace: Seq<u8>, dest: Seq<u8>, list: Seq<Seq<u8>>) -> bool {
    &&& list.len() >= 2
    &&& is_prune_list(namespace, dest, list.take(list.len() - 2))
    &&& list[list.len() - 2] == local_root(namespace)
    &&& list.last() == namespace
}

/// The directories to remove once nothing stands at `dest`, in order. Each goes
/// if it is empty; one that is not keeps those that hold it.
pub fn tidy(namespace: &[u8], dest: &[u8]) -> (r: Vec<Vec<u8>>)
    ensures
        is_tidy_list(namespace@, dest@, contents(r@)),
{
    let mut r = prune_empty_parents(namespace, dest);
    let ghost parents = contents(r@);
    r.push(tidy_local_root(namespace));
    r.push(slice_to_vec(namespace));
    assert(contents(r@) =~= parents.push(local_root(namespace@)).push(namespace@));
    assert(contents(r@).take(contents(r@).len() - 2) =~= parents);
    r
}

/// After a worktree is gone, tidying up removes each directory before the one
/// that holds it, and nothing outside of the directory of worktrees: so if
/// nothing else is in them, all of them go, and that of the worktrees with
/// them.
pub proof fn lemma_tidy_order(namespace: Seq<u8>, dest: Seq<u8>, list: Seq<Seq<u8>>)
    requires
        is_below(namespace, dest),
        is_tidy_list(namespace, dest, list),
    ensures
        forall|i: int| 0 <= i < list.len() ==> is_within(namespace, #[trigger] list[i]),
        forall|i: int, j: int|
            0 <= i < j < list.len() ==> !is_below(#[trigger] list[i], #[trigger] list[j]),
        forall|i: int|
            0 <= i < list.len() - 2 ==> components(#[trigger] list[i]) == components(dest).take(
                components(dest).len() - 1 - i,
            ),
        list.len() - 2 == components(dest).len() - components(namespace).len() - 1,
{
    let parents = list.take(list.len() - 2);
    let all = components(dest);
    let n = components(namespace).len();
    lemma_prune_stays_below(namespace, dest, parents);
    lemma_roots(namespace, namespace);
    crate::path::lemma_within_itself(namespace);
    let local = components(local_root(namespace));
    assert(local.take(n as int) =~= components(namespace));
    assert forall|i: int| 0 <= i < list.len() implies is_within(namespace, #[trigger] list[i]) by {
        if i < parents.len() {
            assert(parents[i] == list[i]);
        }
    }
    assert forall|i: int| 0 <= i < list.len() - 2 implies components(#[trigger] list[i]) == all.take(
        all.len() - 1 - i,
    ) by {
        assert(parents[i] == list[i]);
    }
    assert forall|i: int, j: int| 0 <= i < j < list.len() implies !is_below(
        #[trigger] list[i],
        #[trigger] list[j],
    ) by {
        if j < list.len() - 2 {
            assert(components(list[i]).len() > components(list[j]).len());
        } else if i < list.len() - 2 {
            assert(components(list[i]).len() > n);
        }
    }
}

/// A name without separators of any kind.
pub open spec fn flat(name: Seq<char>) -> Seq<char> {
    name.map_values(|c: char| if c == '/' || c == '\\' { '-' } else { c })
}

/// The name of the entry that a process makes for `name`.
pub open spec fn leaf(pid: nat, name: Seq<char>) -> Seq<char> {
    decimal(pid) + "."@ + flat(name)
}

/// The name that is tried in place of `leaf` after `n` were found taken.
pub open spec fn numbered(leaf: Seq<char>, n: nat) -> Seq<char> {
    if n == 0 {
        leaf
    } else {
        leaf + "."@ + decimal(n)
    }
}

/// Whether `path` is the first entry of `root` for `leaf` that is not taken.
pub open spec fn is_slot(root: Seq<u8>, leaf: Seq<char>, taken: Seq<Seq<u8>>, path: Seq<u8>) -> bool {
    exists|n: nat| #[trigger] is_slot_at(root, leaf, taken, path, n)
}

/// Whether `path` is the entry that is found after `n` were taken.
pub open spec fn is_slot_at(root: Seq<u8>, leaf: Seq<char>, taken: Seq<Seq<u8>>, path: Seq<u8>, n: nat) -> bool {
    &&& path == joined(root, encode_utf8(numbered(leaf, n)))
    &&& !taken.contains(encode_utf8(numbered(leaf, n)))
    &&& forall|m: nat| m < n ==> taken.contains(#[trigger] encode_utf8(numbered(leaf, m)))
}

fn flatten(name: &str) -> (r: String)
    ensures
        r@ == flat(name@),
{
    let mut r = String::new();
    let mut i: usize = 0;
    let total: usize = name.unicode_len();
    for c in it: name.chars()
        invariant
            it.seq() == name@,
            total == name@.len(),
            i == it.index(),
            i <= total,
            r@ == flat(name@.take(i as int)),
    {
        proof {
            reveal_strlit("-");
        }
        if c == '/' || c == '\\' {
            r.append("-");
        } else {
            r.append(name.substring_char(i, i + 1));
        }
        i = i + 1;
        assert(r@ =~= flat(name@.take(i as int)));
    }
    assert(name@.take(i as int) =~= name@);
    r
}

proof fn lemma_numbered_apart(leaf: Seq<char>, a: nat, b: nat)
    requires
        encode_utf8(numbered(leaf, a)) == encode_utf8(numbered(leaf, b)),
    ensures
        a == b,
{
    let x = numbered(leaf, a);
    let y = numbered(leaf, b);
    vstd::utf8::encode_utf8_decode_utf8(x);
    vstd::utf8::encode_utf8_decode_utf8(y);
    reveal_strlit(".");
    if a > 0 && b > 0 {
        let k = leaf.len() as int + 1;
        assert(x.skip(k) =~= decimal(a));
        assert(y.skip(k) =~= decimal(b));
        lemma_decimal_apart(a, b);
    }
}

/// Among more names than are taken, one is free.
proof fn lemma_pigeonhole(leaf: Seq<char>, taken: Seq<Seq<u8>>, n: nat)
    requires
        forall|m: nat| m < n ==> taken.contains(#[trigger] encode_utf8(numbered(leaf, m))),
    ensures
        n <= taken.len(),
{
    let names = Seq::new(n, |i: int| encode_utf8(numbered(leaf, i as nat)));
    assert forall|i: int, j: int| 0 <= i < n && 0 <= j < n && i != j implies names[i] != names[j] by {
        if names[i] == names[j] {
            lemma_numbered_apart(leaf, i as nat, j as nat);
        }
    }
    names.unique_seq_to_set();
    assert forall|x: Seq<u8>| #[trigger] names.to_set().contains(x) implies taken.to_set().contains(x) by {
        let i = choose|i: int| 0 <= i < names.len() && names[i] == x;
        assert(taken.contains(encode_utf8(numbered(leaf, i as nat))));
    }
    vstd::seq_lib::seq_to_set_is_finite(taken);
    vstd::set_lib::lemma_len_subset(names.to_set(), taken.to_set());
    taken.lemma_cardinality_of_set();
}

/// A fresh path for a staged clone or for a worktree on its way out, given the
/// names in the staging root that are known to be taken.
pub fn slot(root: &[u8], pid: u32, name: &str, taken: &Vec<Vec<u8>>) -> (r: Vec<u8>)
    ensures
        is_slot(root@, leaf(pid as nat, name@), contents(taken@), r@),
{
    let mut stem = to_decimal(pid as u64);
    stem.append(".");
    stem.append(flatten(name).as_str());
    let mut current = stem.as_str().to_owned();
    let mut n: u64 = 0;
    let ghost first = leaf(pid as nat, name@);
    let ghost known = contents(taken@);
    while holds(taken, current.as_str().as_bytes())
        invariant
            known == contents(taken@),
            stem@ == first,
            current@ == numbered(first, n as nat),
            n <= taken.len(),
            forall|m: nat| m < n ==> known.contains(#[trigger] encode_utf8(numbered(first, m))),
        ensures
            known == contents(taken@),
            current@ == numbered(first, n as nat),
            !known.contains(encode_utf8(current@)),
            forall|m: nat| m < n ==> known.contains(#[trigger] encode_utf8(numbered(first, m))),
        decreases taken.len() + 1 - n,
    {
        proof {
            lemma_pigeonhole(first, known, (n + 1) as nat);
        }
        n = n + 1;
        current = stem.as_str().to_owned();
        current.append(".");
        current.append(to_decimal(n).as_str());
    }
    let r = join(root, current.as_str().as_bytes());
    assert(is_slot_at(root@, first, known, r@, n as nat));
    r
}

/// A fresh path for a staged clone or for a worktree on its way out: in the
/// staging root among temporary files where these are on the device of the
/// repository, and otherwise in the one next to the worktrees.
pub fn slot_in(
    temp: &[u8],
    namespace: &[u8],
    temp_device: Option<u64>,
    repo_device: Option<u64>,
    pid: u32,
    name: &str,
    taken: &Vec<Vec<u8>>,
) -> (r: Vec<u8>)
    ensures
        is_slot(
            if temp_device is Some && temp_device == repo_device {
                temp_root(temp@)
            } else {
                local_root(namespace@)
            },
            leaf(pid as nat, name@),
            contents(taken@),
            r@,
        ),
{
    let root = staging_root(temp, namespace, same_device(temp_device, repo_device));
    slot(root.as_slice(), pid, name, taken)
}

/// The process that owns an entry: the number before the first dot of its
/// name, if that is one.
pub open spec fn owner(path: Seq<u8>) -> Option<i32> {
    match last_name(path) {
        Some(n) if valid_utf8(n) => i32_value(before(decode_utf8(n), '.')),
        _ => None,
    }
}

/// Reads the process that owns an entry out of its name.
pub fn owner_pid(path: &[u8]) -> (r: Option<i32>)
    ensures
        r == owner(path@),
{
    match file_name(path) {
        None => None,
        Some(n) => match from_utf8(n.as_slice()) {
            None => None,
            Some(text) => parse_i32(take_before(text, '.')),
        },
    }
}

/// Whether a process is there, given what probing it returned and the error
/// that was left behind: an error other than that the process belongs to
/// someone else means that it is gone.
pub fn pid_alive(outcome: i32, error: Option<i32>) -> (r: bool)
    ensures
        r == (outcome == 0 || error == Some(EPERM)),
        r == (outcome == 0 || error == Some(1i32)),
{
    if outcome == 0 {
        return true;
    }
    match error {
        Some(e) => e == EPERM,
        None => false,
    }
}

/// Whether an entry of the given age, where that is known, is old enough to be
/// abandoned whoever owns it.
pub open spec fn expired(age: Option<u128>) -> bool {
    age matches Some(a) && a > MAX_AGE
}

/// Whether an entry is abandoned: it is old, or the process that owns it is
/// gone.
pub open spec fn stale(path: Seq<u8>, alive: bool, age: Option<u128>) -> bool {
    expired(age) || (owner(path) is Some && !alive)
}

/// Whether an entry is abandoned, given whether the process that its name
/// speaks of is there.
pub fn is_stale(path: &[u8], alive: bool, age: Option<u128>) -> (r: bool)
    ensures
        r == stale(path@, alive, age),
{
    let old = match age {
        Some(a) => a > MAX_AGE,
        None => false,
    };
    match owner_pid(path) {
        Some(_) => old || !alive,
        None => old,
    }
}

/// An entry that a sweep has come across.
pub struct Entry {
    pub path: Vec<u8>,
    /// Whether the process that its name speaks of is there.
    pub alive: bool,
    /// How long ago it was last changed, in nanoseconds, where that is known.
    pub age: Option<u128>,
}

impl Entry {
    /// Whether the entry is abandoned.
    pub open spec fn is_abandoned(self) -> bool {
        stale(self.path@, self.alive, self.age)
    }
}

/// The paths of the abandoned entries, in order.
pub open spec fn abandoned(entries: Seq<Entry>) -> Seq<Seq<u8>> {
    entries.filter(|e: Entry| e.is_abandoned()).map_values(|e: Entry| e.path@)
}

/// The words that make a process the sweeper of the given paths.
pub open spec fn sweep_words(paths: Seq<Seq<u8>>) -> Seq<Seq<u8>> {
    seq![encode_utf8(SWEEP_WORD@)] + paths
}

fn spawn_sweeper(paths: &Vec<Vec<u8>>) -> (r: Vec<Vec<u8>>)
    ensures
        contents(r@) == sweep_words(contents(paths@)),
{
    let mut r: Vec<Vec<u8>> = Vec::new();
    r.push(SWEEP_WORD.as_bytes_vec());
    let ghost all = contents(paths@);
    assert(contents(r@) =~= sweep_words(all.take(0)));
    let mut i: usize = 0;
    while i < paths.len()
        invariant
            i <= paths.len(),
            all == contents(paths@),
            contents(r@) == sweep_words(all.take(i as int)),
        decreases paths.len() - i,
    {
        let ghost done = contents(r@);
        r.push(slice_to_vec(paths[i].as_slice()));
        assert(contents(r@) =~= done.push(all[i as int]));
        i = i + 1;
        assert(contents(r@) =~= sweep_words(all.take(i as int)));
    }
    assert(all.take(i as int) =~= all);
    r
}

/// Hands a path to a sweeper: the words to start it with. Should it not start,
/// the entry is left for a later sweep.
pub fn discard(path: &[u8]) -> (r: Vec<Vec<u8>>)
    ensures
        contents(r@) == sweep_words(seq![path@]),
{
    let one = vec![slice_to_vec(path)];
    assert(contents(one@) =~= seq![path@]);
    spawn_sweeper(&one)
}

/// Finds the abandoned entries among those in the staging roots: the words to
/// start a sweeper for them with, if there are any.
pub fn sweep(entries: &Vec<Entry>) -> (r: Option<Vec<Vec<u8>>>)
    ensures
        match r {
            Some(words) => abandoned(entries@).len() > 0 && contents(words@) == sweep_words(abandoned(entries@)),
            None => abandoned(entries@).len() == 0,
        },
{
    let mut found: Vec<Vec<u8>> = Vec::new();
    let ghost old = |e: Entry| e.is_abandoned();
    let ghost path_of = |e: Entry| e.path@;
    proof {
        reveal(Seq::filter);
        assert(entries@.take(0) =~= Seq::<Entry>::empty());
        assert(contents(found@) =~= entries@.take(0).filter(old).map_values(path_of));
    }
    let mut i: usize = 0;
    while i < entries.len()
        invariant
            i <= entries.len(),
            old == (|e: Entry| e.is_abandoned()),
            path_of == (|e: Entry| e.path@),
            contents(found@) == entries@.take(i as int).filter(old).map_values(path_of),
        decreases entries.len() - i,
    {
        let e = &entries[i];
        let ghost so_far = contents(found@);
        proof {
            assert(entries@.take(i + 1) =~= entries@.take(i as int).push(*e));
            entries@.take(i as int).lemma_filter_push(*e, old);
        }
        if is_stale(e.path.as_slice(), e.alive, e.age) {
            found.push(slice_to_vec(e.path.as_slice()));
            assert(contents(found@) =~= so_far.push(e.path@));
        }
        i = i + 1;
        assert(contents(found@) =~= entries@.take(i as int).filter(old).map_values(path_of));
    }
    assert(entries@.take(i as int) =~= entries@);
    if found.len() == 0 {
        None
    } else {
        Some(spawn_sweeper(&found))
    }
}

/// Whether a directory of that name is a staging root.
pub open spec fn is_staging_name(c: Component) -> bool {
    c == Component::Normal(encode_utf8(TEMP_ROOT@)) || c == Component::Normal(encode_utf8(LOCAL_ROOT@))
}

/// Whether a path names an entry directly inside a staging root.
pub open spec fn is_staged(path: Seq<u8>) -> bool {
    let all = components(path);
    all.len() >= 2 && all.last() is Normal && is_staging_name(all[all.len() - 2])
}

/// Whether a path names an entry directly inside a staging root.
pub fn in_staging_root(path: &[u8]) -> (r: bool)
    ensures
        r == is_staged(path@),
{
    let all = parts(path);
    if all.len() < 2 {
        return false;
    }
    let ghost views = components(path@);
    assert(views.last() == all@[all.len() - 1]@);
    assert(views[all.len() - 2] == all@[all.len() - 2]@);
    let named = match &all[all.len() - 1] {
        Part::Normal(_) => true,
        _ => false,
    };
    match &all[all.len() - 2] {
        Part::Normal(n) => named && (equal(n.as_slice(), TEMP_ROOT.as_bytes()) || equal(
            n.as_slice(),
            LOCAL_ROOT.as_bytes(),
        )),
        _ => false,
    }
}

/// The paths that a sweeper deletes of those it was given: only entries
/// directly inside a staging root, so that it cannot be talked into deleting
/// anything else.
pub fn run_sweeper(paths: &Vec<Vec<u8>>) -> (r: Vec<Vec<u8>>)
    ensures
        contents(r@) == contents(paths@).filter(|p: Seq<u8>| is_staged(p)),
{
    let mut r: Vec<Vec<u8>> = Vec::new();
    let ghost all = contents(paths@);
    let ghost keep = |p: Seq<u8>| is_staged(p);
    proof {
        reveal(Seq::filter);
        assert(all.take(0) =~= Seq::<Seq<u8>>::empty());
        assert(contents(r@) =~= all.take(0).filter(keep));
    }
    let mut i: usize = 0;
    while i < paths.len()
        invariant
            i <= paths.len(),
            all == contents(paths@),
            keep == (|p: Seq<u8>| is_staged(p)),
            contents(r@) == all.take(i as int).filter(keep),
        decreases paths.len() - i,
    {
        let p = paths[i].as_slice();
        let ghost so_far = contents(r@);
        proof {
            assert(all.take(i + 1) =~= all.take(i as int).push(p@));
            all.take(i as int).lemma_filter_push(p@, keep);
        }
        if in_staging_root(p) {
            r.push(slice_to_vec(p));
            assert(contents(r@) =~= so_far.push(p@));
        }
        i = i + 1;
        assert(contents(r@) =~= all.take(i as int).filter(keep));
    }
    assert(all.take(i as int) =~= all);
    r
}

/// The names that are tried for an entry are those of an entry: no branch name
/// leads out of the staging root, and the number that the name begins with is
/// the process.
proof fn lemma_numbered_name(pid: nat, name: Seq<char>, n: nat)
    ensures
        is_entry_name(encode_utf8(numbered(leaf(pid, name), n))),
        before(numbered(leaf(pid, name), n), '.') == decimal(pid),
{
    let s = numbered(leaf(pid, name), n);
    let bytes = encode_utf8(s);
    let rest = if n == 0 { flat(name) } else { flat(name) + "."@ + decimal(n) };
    reveal_strlit(".");
    lemma_decimal(pid);
    lemma_decimal(n);
    assert(s =~= decimal(pid).push('.') + rest);
    assert(!decimal(pid).contains('.')) by {
        if decimal(pid).contains('.') {
            let i = choose|i: int| 0 <= i < decimal(pid).len() && decimal(pid)[i] == '.';
            assert(is_digit(decimal(pid)[i]));
        }
    }
    lemma_before_first(decimal(pid), '.', rest);
    assert forall|i: int| 0 <= i < s.len() implies #[trigger] s[i] as u32 != SEPARATOR by {
        let k = decimal(pid).len() as int;
        vstd::utf8::char_u32_cast(s[i], s[i] as u32);
        if i < k {
            assert(s[i] == decimal(pid)[i]);
            assert(is_digit(decimal(pid)[i]));
        } else if i > k {
            assert(s[i] == rest[i - k - 1]);
            let f = flat(name).len() as int;
            if i - k - 1 < f {
                assert(s[i] == flat(name)[i - k - 1]);
            } else if i - k - 1 > f {
                assert(s[i] == decimal(n)[i - k - 2 - f]);
                assert(is_digit(decimal(n)[i - k - 2 - f]));
            }
        }
    }
    lemma_bytes_lack(s, SEPARATOR);
    assert(is_digit(decimal(pid)[0]));
    assert(s[0] == decimal(pid)[0]);
    let none = Seq::<char>::empty();
    reveal_strlit("..");
    vstd::utf8::is_ascii_chars_encode_utf8("."@);
    vstd::utf8::is_ascii_chars_encode_utf8(".."@);
    vstd::utf8::encode_utf8_decode_utf8(s);
    vstd::utf8::encode_utf8_decode_utf8(none);
    vstd::utf8::encode_utf8_decode_utf8("."@);
    vstd::utf8::encode_utf8_decode_utf8(".."@);
    assert(encode_utf8(none) =~= Seq::<u8>::empty());
    assert(encode_utf8("."@) =~= seq![DOT]);
    assert(encode_utf8(".."@) =~= seq![DOT, DOT]);
}

/// A slot lies directly inside its staging root, under a name that nothing
/// there has, and its name tells the process that made it, also where names
/// were taken.
pub proof fn lemma_slot_owned(root: Seq<u8>, pid: nat, name: Seq<char>, taken: Seq<Seq<u8>>, path: Seq<u8>)
    requires
        is_slot(root, leaf(pid, name), taken, path),
    ensures
        components(path).len() > 0,
        components(path).drop_last() == components(root),
        last_name(path) matches Some(n) && !taken.contains(n),
        pid <= i32::MAX ==> owner(path) == Some(pid as i32),
{
    let n = choose|n: nat| #[trigger] is_slot_at(root, leaf(pid, name), taken, path, n);
    let s = numbered(leaf(pid, name), n);
    lemma_numbered_name(pid, name, n);
    lemma_entry_components(root, encode_utf8(s));
    assert(components(path).drop_last() =~= components(root));
    vstd::utf8::encode_utf8_valid_utf8(s);
    vstd::utf8::encode_utf8_decode_utf8(s);
    if pid <= i32::MAX {
        lemma_decimal_read(pid);
    }
}

/// There is one slot for a name and what is taken.
pub proof fn lemma_slot_unique(root: Seq<u8>, leaf: Seq<char>, taken: Seq<Seq<u8>>, a: Seq<u8>, b: Seq<u8>)
    requires
        is_slot(root, leaf, taken, a),
        is_slot(root, leaf, taken, b),
    ensures
        a == b,
{
    let n = choose|n: nat| #[trigger] is_slot_at(root, leaf, taken, a, n);
    let m = choose|m: nat| #[trigger] is_slot_at(root, leaf, taken, b, m);
    if n < m {
        assert(taken.contains(encode_utf8(numbered(leaf, n))));
    } else if m < n {
        assert(taken.contains(encode_utf8(numbered(leaf, m))));
    }
}

/// The staging roots are such by name, wherever they are.
pub proof fn lemma_roots(temp: Seq<u8>, namespace: Seq<u8>)
    ensures
        components(temp_root(temp)) == components(temp).push(Component::Normal(encode_utf8(TEMP_ROOT@))),
        components(local_root(namespace)) == components(namespace).push(
            Component::Normal(encode_utf8(LOCAL_ROOT@)),
        ),
{
    reveal_strlit("sprout-staging");
    reveal_strlit(".staging");
    vstd::utf8::is_ascii_chars_encode_utf8(TEMP_ROOT@);
    vstd::utf8::is_ascii_chars_encode_utf8(LOCAL_ROOT@);
    lemma_entry_components(temp, encode_utf8(TEMP_ROOT@));
    lemma_entry_components(namespace, encode_utf8(LOCAL_ROOT@));
}

/// What a sweep comes across in a staging root, a sweeper deletes when told
/// to: each entry of the two roots is staged.
pub proof fn lemma_entries_staged(temp: Seq<u8>, namespace: Seq<u8>, name: Seq<u8>)
    requires
        is_entry_name(name),
    ensures
        is_staged(joined(temp_root(temp), name)),
        is_staged(joined(local_root(namespace), name)),
{
    lemma_roots(temp, namespace);
    lemma_entry_components(temp_root(temp), name);
    lemma_entry_components(local_root(namespace), name);
}

/// A slot in one of the two staging roots can be discarded: a sweeper that is
/// handed it deletes it, and nothing else.
pub proof fn lemma_slot_discarded(
    temp: Seq<u8>,
    namespace: Seq<u8>,
    root: Seq<u8>,
    pid: nat,
    name: Seq<char>,
    taken: Seq<Seq<u8>>,
    path: Seq<u8>,
)
    requires
        root == temp_root(temp) || root == local_root(namespace),
        is_slot(root, leaf(pid, name), taken, path),
    ensures
        is_staged(path),
        sweep_words(seq![path]).skip(1).filter(|p: Seq<u8>| is_staged(p)) == seq![path],
{
    let n = choose|n: nat| #[trigger] is_slot_at(root, leaf(pid, name), taken, path, n);
    lemma_numbered_name(pid, name, n);
    lemma_entries_staged(temp, namespace, encode_utf8(numbered(leaf(pid, name), n)));
    let keep = |p: Seq<u8>| is_staged(p);
    let empty = Seq::<Seq<u8>>::empty();
    assert(sweep_words(seq![path]).skip(1) =~= empty.push(path));
    empty.lemma_filter_push(path, keep);
    reveal(Seq::filter);
    assert(empty.filter(keep) =~= empty);
    assert(seq![path] =~= empty.push(path));
}

/// As long as its process runs, an entry is left alone for a day; once the
/// process is gone, the next sweep takes it.
pub proof fn lemma_slot_kept_while_alive(
    root: Seq<u8>,
    pid: nat,
    name: Seq<char>,
    taken: Seq<Seq<u8>>,
    path: Seq<u8>,
    age: Option<u128>,
)
    requires
        pid <= i32::MAX,
        is_slot(root, leaf(pid, name), taken, path),
    ensures
        stale(path, true, age) == expired(age),
        stale(path, false, age),
{
    lemma_slot_owned(root, pid, name, taken, path);
}

/// A sweeper deletes nothing outside of a staging root, whatever it is given,
/// and all that it is given inside of one.
pub proof fn lemma_sweeper_confined(paths: Seq<Seq<u8>>, p: Seq<u8>)
    ensures
        paths.filter(|q: Seq<u8>| is_staged(q)).contains(p) <==> paths.contains(p) && is_staged(p),
{
    let keep = |q: Seq<u8>| is_staged(q);
    if paths.filter(keep).contains(p) {
        paths.lemma_filter_contains_rev(keep, p);
        let i = choose|i: int| 0 <= i < paths.filter(keep).len() && paths.filter(keep)[i] == p;
        paths.lemma_filter_pred(keep, i);
    }
    if paths.contains(p) && is_staged(p) {
        let i = choose|i: int| 0 <= i < paths.len() && paths[i] == p;
        paths.lemma_filter_contains(keep, i);
    }
}

/// A name in a staging root is the number of the process, a dot, and the name
/// with a dash for each separator; everything else of the name is kept. What is
/// tried next ends in a dot and a number.
pub proof fn lemma_leaf_text(pid: nat, name: Seq<char>, n: nat)
    ensures
        numbered(leaf(pid, name), 0) == decimal(pid) + seq!['.'] + flat(name),
        n > 0 ==> numbered(leaf(pid, name), n) == decimal(pid) + seq!['.'] + flat(name) + seq!['.'] + decimal(n),
        flat(name).len() == name.len(),
        forall|i: int|
            0 <= i < name.len() ==> #[trigger] flat(name)[i] == (if name[i] == '/' || name[i] == '\\' {
                '-'
            } else {
                name[i]
            }),
{
    reveal_strlit(".");
    assert("."@ =~= seq!['.']);
}

/// Where nothing is taken, a slot has the plain name; the first that is tried
/// and free is taken.
pub proof fn lemma_slot_first(root: Seq<u8>, pid: nat, name: Seq<char>, taken: Seq<Seq<u8>>, path: Seq<u8>)
    requires
        is_slot(root, leaf(pid, name), taken, path),
        !taken.contains(encode_utf8(decimal(pid) + seq!['.'] + flat(name))),
    ensures
        path == joined(root, encode_utf8(decimal(pid) + seq!['.'] + flat(name))),
{
    lemma_leaf_text(pid, name, 0);
    let n = choose|n: nat| #[trigger] is_slot_at(root, leaf(pid, name), taken, path, n);
    if n > 0 {
        assert(taken.contains(encode_utf8(numbered(leaf(pid, name), 0))));
    }
}

/// Where the plain name and the first numbers are taken, a slot has the next
/// number.
pub proof fn lemma_slot_next(root: Seq<u8>, pid: nat, name: Seq<char>, taken: Seq<Seq<u8>>, path: Seq<u8>, n: nat)
    requires
        is_slot(root, leaf(pid, name), taken, path),
        n > 0,
        taken.contains(encode_utf8(decimal(pid) + seq!['.'] + flat(name))),
        forall|m: nat|
            0 < m < n ==> taken.contains(
                encode_utf8(decimal(pid) + seq!['.'] + flat(name) + seq!['.'] + #[trigger] decimal(m)),
            ),
        !taken.contains(encode_utf8(decimal(pid) + seq!['.'] + flat(name) + seq!['.'] + decimal(n))),
    ensures
        path == joined(root, encode_utf8(decimal(pid) + seq!['.'] + flat(name) + seq!['.'] + decimal(n))),
{
    let k = choose|k: nat| #[trigger] is_slot_at(root, leaf(pid, name), taken, path, k);
    lemma_leaf_text(pid, name, k);
    lemma_leaf_text(pid, name, n);
    if k < n {
        if k > 0 {
            assert(taken.contains(
                encode_utf8(decimal(pid) + seq!['.'] + flat(name) + seq!['.'] + decimal(k)),
            ));
        }
        assert(false);
    }
    if n < k {
        assert(taken.contains(encode_utf8(numbered(leaf(pid, name), n))));
    }
}

/// The owner of an entry is the number before the first dot of its name: for a
/// name that begins with a number and a dot it is that number, whatever follows
/// and wherever the entry is; without a number there is none.
pub proof fn lemma_owner(dir: Seq<u8>, pid: nat, rest: Seq<char>, name: Seq<char>)
    requires
        is_entry_name(encode_utf8(name)),
        is_entry_name(encode_utf8(decimal(pid).push('.') + rest)),
    ensures
        pid <= i32::MAX ==> owner(joined(dir, encode_utf8(decimal(pid).push('.') + rest))) == Some(pid as i32),
        owner(joined(dir, encode_utf8(name))) == i32_value(before(name, '.')),
        name.len() > 0 && !('0' <= name[0] <= '9') && name[0] != '-' && name[0] != '+' ==> owner(
            joined(dir, encode_utf8(name)),
        ) is None,
{
    let full = decimal(pid).push('.') + rest;
    lemma_entry_components(dir, encode_utf8(full));
    lemma_entry_components(dir, encode_utf8(name));
    vstd::utf8::encode_utf8_valid_utf8(full);
    vstd::utf8::encode_utf8_decode_utf8(full);
    vstd::utf8::encode_utf8_valid_utf8(name);
    vstd::utf8::encode_utf8_decode_utf8(name);
    lemma_decimal(pid);
    assert(!decimal(pid).contains('.')) by {
        if decimal(pid).contains('.') {
            let i = choose|i: int| 0 <= i < decimal(pid).len() && decimal(pid)[i] == '.';
            assert(is_digit(decimal(pid)[i]));
        }
    }
    lemma_before_first(decimal(pid), '.', rest);
    if pid <= i32::MAX {
        lemma_decimal_read(pid);
    }
    let b = before(name, '.');
    crate::text::lemma_before_is_start(name, '.');
    crate::text::lemma_integer_read(0, b);
    if b.len() > 0 {
        assert(b[0] == name[0]);
    }
}

/// An entry is abandoned when it is older than a day, or when it names a process
/// that is gone; and in no other case.
pub proof fn lemma_stale(path: Seq<u8>, alive: bool, age: Option<u128>)
    ensures
        (age matches Some(a) && a > 24 * 60 * 60 * 1_000_000_000) ==> stale(path, alive, age),
        owner(path) is Some && !alive ==> stale(path, alive, age),
        !(age matches Some(a) && a > 24 * 60 * 60 * 1_000_000_000) && (owner(path) is None || alive) ==> !stale(
            path,
            alive,
            age,
        ),
{
}

/// What a sweep hands to the sweeper are the paths of the abandoned entries, all
/// of them, in order, and nothing else.
pub proof fn lemma_abandoned(a: Seq<Entry>, b: Seq<Entry>, e: Entry)
    ensures
        abandoned(a + b) == abandoned(a) + abandoned(b),
        abandoned(seq![e]) == (if stale(e.path@, e.alive, e.age) {
            seq![e.path@]
        } else {
            Seq::<Seq<u8>>::empty()
        }),
        abandoned(Seq::<Entry>::empty()) == Seq::<Seq<u8>>::empty(),
{
    let old = |x: Entry| x.is_abandoned();
    let path_of = |x: Entry| x.path@;
    let none = Seq::<Entry>::empty();
    Seq::filter_distributes_over_add(a, b, old);
    assert((a.filter(old) + b.filter(old)).map_values(path_of) =~= a.filter(old).map_values(path_of) + b.filter(
        old,
    ).map_values(path_of));
    none.lemma_filter_push(e, old);
    reveal(Seq::filter);
    assert(none.filter(old) =~= none);
    assert(none.push(e) =~= seq![e]);
    assert(abandoned(none) =~= Seq::<Seq<u8>>::empty());
    assert(abandoned(seq![e]) =~= (if stale(e.path@, e.alive, e.age) {
        seq![e.path@]
    } else {
        Seq::<Seq<u8>>::empty()
    }));
}

/// The sweeper is started with its word and then the paths, each as it is.
pub proof fn lemma_sweep_words(paths: Seq<Seq<u8>>)
    ensures
        sweep_words(paths).len() == paths.len() + 1,
        sweep_words(paths)[0] == encode_utf8("__sweep"@),
        forall|i: int| 0 <= i < paths.len() ==> sweep_words(paths)[i + 1] == #[trigger] paths[i],
{
}

/// An entry of a directory is staged exactly when the directory is named
/// `sprout-staging` or `.staging`; and what ends in no name never is.
pub proof fn lemma_staged(dir: Seq<u8>, name: Seq<u8>, path: Seq<u8>)
    requires
        is_entry_name(name),
    ensures
        is_staged(joined(dir, name)) <==> last_name(dir) == Some(encode_utf8("sprout-staging"@)) || last_name(dir)
            == Some(encode_utf8(".staging"@)),
        last_name(path) is None ==> !is_staged(path),
        components(path).len() < 2 ==> !is_staged(path),
{
    lemma_entry_components(dir, name);
    let all = components(joined(dir, name));
    if components(dir).len() > 0 {
        assert(all[all.len() - 2] == components(dir).last());
    }
}

/// Where the staging roots are.
pub proof fn lemma_root_places(temp: Seq<u8>, namespace: Seq<u8>)
    ensures
        temp_root(temp) == joined(temp, encode_utf8("sprout-staging"@)),
        local_root(namespace) == joined(namespace, encode_utf8(".staging"@)),
        last_name(temp_root(temp)) == Some(encode_utf8("sprout-staging"@)),
        last_name(local_root(namespace)) == Some(encode_utf8(".staging"@)),
{
    lemma_roots(temp, namespace);
}

} // verus!
