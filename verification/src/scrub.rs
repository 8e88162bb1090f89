//! Post-clone scrub driven by `.sproutignore` (gitignore syntax) at the repo
//! root. No built-in defaults: the user decides what gets scrubbed.
//!
//! Only cloned entries are looked at, so scrub patterns never touch tracked
//! files.
use crate::bytes::{contents, lemma_split_concat, lemma_split_whole, split, split_at_each};
use crate::path::{components, is_below, is_entry_name, is_within, join, joined, lemma_entry_components, lemma_within_below, lemma_within_itself, lemma_within_transitive, Component};
use crate::repo::NEWLINE;
use crate::text::{from_utf8, from_utf8_lossy, is_white_space, lemma_text_is_shown, lemma_trim_end_cut, shown, trim_end};
use ignore::gitignore::{Gitignore, GitignoreBuilder};
use vstd::prelude::*;
use vstd::slice::{slice_subrange, slice_to_vec};
use vstd::string::*;
use vstd::utf8::{decode_utf8, encode_utf8, valid_utf8};

verus! {

/// The name of the file with the scrub patterns.
pub const IGNORE_FILE: &'static str = ".sproutignore";

/// A list of patterns on its way to a matcher.
#[verifier::external_type_specification]
#[verifier::external_body]
pub struct ExGitignoreBuilder(GitignoreBuilder);

/// A matcher for gitignore patterns.
#[verifier::external_type_specification]
#[verifier::external_body]
pub struct ExGitignore(Gitignore);

/// The directory that the patterns of a builder are taken from.
pub uninterp spec fn builder_root(builder: GitignoreBuilder) -> Seq<char>;

/// The patterns in a builder, as they were written.
pub uninterp spec fn builder_rules(builder: GitignoreBuilder) -> Seq<Seq<char>>;

/// Whether a builder has the options that it was made with.
pub uninterp spec fn builder_is_plain(builder: GitignoreBuilder) -> bool;

/// The paths that a matcher ignores, each with whether it is a directory.
pub uninterp spec fn ignored(matcher: Gitignore) -> Set<(Seq<char>, bool)>;

/// The paths that patterns taken from a directory ignore.
pub uninterp spec fn ignored_by(root: Seq<char>, rules: Seq<Seq<char>>) -> Set<(Seq<char>, bool)>;

/// No path at all.
pub open spec fn no_paths() -> Set<(Seq<char>, bool)> {
    Set::empty()
}

/// The message for a pattern that cannot be parsed.
pub uninterp spec fn pattern_error(rule: Seq<char>) -> Option<Seq<char>>;

/// The pattern in a line: comments and blank lines hold none, and white space
/// at the end counts only where a backslash stands before the last space.
pub open spec fn rule_in(line: Seq<char>) -> Option<Seq<char>> {
    let rule = if "\\ "@.is_suffix_of(line) { line } else { trim_end(line) };
    if line.len() > 0 && line[0] == '#' {
        None
    } else if rule.len() == 0 {
        None
    } else {
        Some(rule)
    }
}

/// The directory of the patterns as the matcher knows it.
pub open spec fn pattern_root(root: Seq<char>) -> Seq<char> {
    if "./"@.is_prefix_of(root) {
        root.skip(2)
    } else {
        root
    }
}

/// `GitignoreBuilder::new`: no patterns, and default options. A `./` before
/// the directory is dropped.
#[verifier::external_body]
fn new_builder(root: &str) -> (r: GitignoreBuilder)
    ensures
        builder_is_plain(r),
        builder_rules(r) == Seq::<Seq<char>>::empty(),
        builder_root(r) == pattern_root(root@),
{
    GitignoreBuilder::new(root)
}

/// `GitignoreBuilder::add_line`: adds the pattern in the line, if there is one
/// and it can be parsed. Whether it can is a function of the pattern alone.
#[verifier::external_body]
fn add_line(builder: &mut GitignoreBuilder, line: &str) -> (r: Result<(), String>)
    requires
        builder_is_plain(*old(builder)),
    ensures
        builder_is_plain(*final(builder)),
        builder_root(*final(builder)) == builder_root(*old(builder)),
        match rule_in(line@) {
            None => r is Ok && builder_rules(*final(builder)) == builder_rules(*old(builder)),
            Some(rule) => match pattern_error(rule) {
                None => r is Ok && builder_rules(*final(builder)) == builder_rules(*old(builder)).push(rule),
                Some(message) => r matches Err(m) && m@ == message && builder_rules(*final(builder))
                    == builder_rules(*old(builder)),
            },
        },
{
    builder.add_line(None, line).map(|_| ()).map_err(|e| e.to_string())
}

/// `GitignoreBuilder::build`: the matcher for the patterns; without patterns
/// it ignores nothing. Compiling many or large patterns can run into a limit
/// on memory, which depends on the machine; when it does is left open.
#[verifier::external_body]
fn build(builder: &GitignoreBuilder) -> (r: Result<Gitignore, String>)
    requires
        builder_is_plain(*builder),
    ensures
        match r {
            Ok(m) => ignored(m) == ignored_by(builder_root(*builder), builder_rules(*builder)) && (builder_rules(
                *builder,
            ).len() == 0 ==> ignored(m) == no_paths()),
            Err(_) => builder_rules(*builder).len() > 0,
        },
{
    builder.build().map_err(|e| e.to_string())
}

/// `Gitignore::matched`, then `Match::is_ignore`.
#[verifier::external_body]
fn is_ignored(matcher: &Gitignore, path: &str, is_dir: bool) -> (r: bool)
    ensures
        r == ignored(*matcher).contains((path@, is_dir)),
{
    matcher.matched(path, is_dir).is_ignore()
}

/// The carriage return that may stand before the end of a line.
pub const CARRIAGE_RETURN: u8 = 0x0d;

/// A line without the carriage return at its end.
pub open spec fn without_return(line: Seq<u8>) -> Seq<u8> {
    if line.len() > 0 && line.last() == CARRIAGE_RETURN {
        line.drop_last()
    } else {
        line
    }
}

/// The lines of a file. What follows the last line end is a line only where
/// there is something.
pub open spec fn lines(file: Seq<u8>) -> Seq<Seq<u8>> {
    let pieces = split(file, NEWLINE);
    let ended = pieces.drop_last().map_values(|l: Seq<u8>| without_return(l));
    if pieces.last().len() == 0 {
        ended
    } else {
        ended.push(pieces.last())
    }
}

/// `s` without the byte order marks it begins with.
pub open spec fn without_marks(s: Seq<char>) -> Seq<char>
    decreases s.len(),
{
    if s.len() > 0 && s.first() == '\u{feff}' {
        without_marks(s.drop_first())
    } else {
        s
    }
}

/// What is wrong with a line of the pattern file.
pub enum Problem {
    /// It is not UTF-8.
    NotText,
    /// Its pattern cannot be parsed, for this reason.
    Pattern(String),
}

/// A line of the pattern file that something is wrong with.
pub struct BadLine {
    /// Its number, from one on.
    pub number: usize,
    pub problem: Problem,
}

/// A problem as a model: the reason, or nothing where the line is not text.
pub open spec fn problem_view(problem: Problem) -> Option<Seq<char>> {
    match problem {
        Problem::NotText => None,
        Problem::Pattern(m) => Some(m@),
    }
}

/// The bad lines, each with its number and its problem.
pub open spec fn bad_views(bad: Seq<BadLine>) -> Seq<(int, Option<Seq<char>>)> {
    bad.map_values(|b: BadLine| (b.number as int, problem_view(b.problem)))
}

/// What reading a pattern file line by line has found.
pub struct Scan {
    pub rules: Seq<Seq<char>>,
    pub bad: Seq<(int, Option<Seq<char>>)>,
    /// Whether a line that is not UTF-8 has ended the reading.
    pub stopped: bool,
}

/// The lines read one after the other: patterns are collected, bad patterns
/// are noted, and a line that is not text is noted and ends the reading.
pub open spec fn scan(lines: Seq<Seq<u8>>) -> Scan
    decreases lines.len(),
{
    if lines.len() == 0 {
        Scan { rules: Seq::empty(), bad: Seq::empty(), stopped: false }
    } else {
        let before = scan(lines.drop_last());
        let number = lines.len() as int;
        if before.stopped {
            before
        } else if !valid_utf8(lines.last()) {
            Scan { bad: before.bad.push((number, None)), stopped: true, ..before }
        } else {
            let text = decode_utf8(lines.last());
            match rule_in(if number == 1 { without_marks(text) } else { text }) {
                None => before,
                Some(rule) => match pattern_error(rule) {
                    None => Scan { rules: before.rules.push(rule), ..before },
                    Some(message) => Scan { bad: before.bad.push((number, Some(message))), ..before },
                },
            }
        }
    }
}

/// Why there is no matcher.
pub enum LoadError {
    /// Something is wrong with these lines.
    Lines(Vec<BadLine>),
    /// The patterns could not be compiled together, for this reason.
    Build(String),
}

impl LoadError {
    /// The message for the user.
    pub fn describe(&self) -> (r: String)
        ensures
            r@ == (match self {
                LoadError::Lines(_) => "failed to parse "@ + IGNORE_FILE@,
                LoadError::Build(message) => message@,
            }),
    {
        match self {
            LoadError::Lines(_) => {
                let mut r = "failed to parse ".to_owned();
                r.append(IGNORE_FILE);
                r
            },
            LoadError::Build(message) => message.as_str().to_owned(),
        }
    }
}

/// Cuts a file up into its lines.
fn file_lines(file: &[u8]) -> (r: Vec<Vec<u8>>)
    ensures
        contents(r@) == lines(file@),
{
    let pieces = split_at_each(file, NEWLINE);
    let ghost all = contents(pieces@);
    let ghost strip = |l: Seq<u8>| without_return(l);
    let mut r: Vec<Vec<u8>> = Vec::new();
    proof {
        crate::bytes::lemma_split_nonempty(file@, NEWLINE);
        assert(contents(r@) =~= all.take(0).map_values(strip));
    }
    let mut i: usize = 0;
    while i + 1 < pieces.len()
        invariant
            0 < pieces.len(),
            i < pieces.len(),
            all == contents(pieces@),
            strip == (|l: Seq<u8>| without_return(l)),
            contents(r@) == all.take(i as int).map_values(strip),
        decreases pieces.len() - i,
    {
        let piece: &[u8] = pieces[i].as_slice();
        let ghost before = contents(r@);
        let end: usize = if piece.len() > 0 && piece[piece.len() - 1] == CARRIAGE_RETURN {
            piece.len() - 1
        } else {
            piece.len()
        };
        let line = slice_to_vec(slice_subrange(piece, 0, end));
        assert(line@ =~= without_return(piece@));
        r.push(line);
        assert(contents(r@) =~= before.push(without_return(piece@)));
        i = i + 1;
        assert(contents(r@) =~= all.take(i as int).map_values(strip));
    }
    let ghost before = contents(r@);
    assert(all.take(i as int) =~= all.drop_last());
    let last: &[u8] = pieces[i].as_slice();
    assert(last@ == all.last());
    if last.len() > 0 {
        r.push(slice_to_vec(last));
        assert(contents(r@) =~= before.push(last@));
    }
    r
}

proof fn lemma_without_marks(s: Seq<char>, k: int)
    requires
        0 <= k <= s.len(),
        forall|i: int| 0 <= i < k ==> #[trigger] s[i] == '\u{feff}',
        k < s.len() ==> s[k] != '\u{feff}',
    ensures
        without_marks(s) == s.skip(k),
    decreases s.len(),
{
    if k > 0 {
        assert(s[0] == '\u{feff}');
        assert forall|i: int| 0 <= i < k - 1 implies #[trigger] s.drop_first()[i] == '\u{feff}' by {
            assert(s[i + 1] == '\u{feff}');
        }
        lemma_without_marks(s.drop_first(), k - 1);
        assert(s.drop_first().skip(k - 1) =~= s.skip(k));
    } else {
        assert(s.skip(0) =~= s);
    }
}

fn strip_marks(s: &str) -> (r: &str)
    ensures
        r@ == without_marks(s@),
{
    let total: usize = s.unicode_len();
    let mut seen: usize = 0;
    for c in it: s.chars()
        invariant
            it.seq() == s@,
            total == s@.len(),
            seen == it.index(),
            seen <= total,
            forall|i: int| 0 <= i < seen ==> #[trigger] s@[i] == '\u{feff}',
    {
        if c != '\u{feff}' {
            proof {
                lemma_without_marks(s@, seen as int);
                assert(s@.skip(seen as int) =~= s@.subrange(seen as int, total as int));
            }
            return s.substring_char(seen, total);
        }
        seen = seen + 1;
    }
    proof {
        lemma_without_marks(s@, total as int);
        assert(s@.skip(total as int) =~= s@.subrange(total as int, total as int));
    }
    s.substring_char(total, total)
}

/// The outcome of compiling the patterns.
pub fn loaded(built: Result<Gitignore, String>) -> (r: Result<Option<Gitignore>, LoadError>)
    ensures
        match built {
            Ok(m) => r matches Ok(Some(g)) && g == m,
            Err(e) => r matches Err(LoadError::Build(m)) && m == e,
        },
{
    match built {
        Ok(m) => Ok(Some(m)),
        Err(e) => Err(LoadError::Build(e)),
    }
}

/// The patterns of a file, ready to be compiled, taken from the directory
/// `root`. Lines that are not text and patterns that cannot be parsed are
/// errors.
pub fn pattern_builder(root: &str, file: &[u8]) -> (r: Result<GitignoreBuilder, Vec<BadLine>>)
    ensures
        match r {
            Ok(b) => {
                &&& scan(lines(file@)).bad.len() == 0
                &&& builder_is_plain(b)
                &&& builder_root(b) == pattern_root(root@)
                &&& builder_rules(b) == scan(lines(file@)).rules
            },
            Err(bad) => scan(lines(file@)).bad.len() > 0 && bad_views(bad@) == scan(lines(file@)).bad,
        },
{
    let all = file_lines(file);
    let mut builder = new_builder(root);
    let mut bad: Vec<BadLine> = Vec::new();
    let mut stopped: bool = false;
    let mut i: usize = 0;
    let ghost views = contents(all@);
    assert(views.take(0) =~= Seq::<Seq<u8>>::empty());
    assert(bad_views(bad@) =~= Seq::empty());
    while i < all.len()
        invariant
            i <= all.len(),
            views == contents(all@),
            builder_is_plain(builder),
            builder_root(builder) == pattern_root(root@),
            builder_rules(builder) == scan(views.take(i as int)).rules,
            bad_views(bad@) == scan(views.take(i as int)).bad,
            stopped == scan(views.take(i as int)).stopped,
        decreases all.len() - i,
    {
        let ghost before = bad_views(bad@);
        let line: &[u8] = all[i].as_slice();
        proof {
            assert(views.take(i + 1).drop_last() =~= views.take(i as int));
            assert(views.take(i + 1).last() == line@);
        }
        if !stopped {
            match from_utf8(line) {
                None => {
                    bad.push(BadLine { number: i + 1, problem: Problem::NotText });
                    stopped = true;
                    assert(bad_views(bad@) =~= before.push((i + 1, None)));
                },
                Some(text) => {
                    let shown = if i == 0 { strip_marks(text) } else { text };
                    match add_line(&mut builder, shown) {
                        Ok(_) => {},
                        Err(message) => {
                            let ghost m = message@;
                            bad.push(BadLine { number: i + 1, problem: Problem::Pattern(message) });
                            assert(bad_views(bad@) =~= before.push((i + 1, Some(m))));
                        },
                    }
                },
            }
        }
        i = i + 1;
    }
    assert(views.take(i as int) =~= views);
    if bad.len() > 0 {
        Err(bad)
    } else {
        Ok(builder)
    }
}

/// The matcher for a pattern file, if there is one. Lines that are not text
/// and patterns that cannot be parsed are errors. What is compiled are the
/// patterns of `pattern_builder`; whether compiling them runs into a limit on
/// memory is left open, since that depends on the machine.
pub fn load(root: &str, file: Option<&[u8]>) -> (r: Result<Option<Gitignore>, LoadError>)
    ensures
        match file {
            None => r matches Ok(None),
            Some(f) => {
                let found = scan(lines(f@));
                if found.bad.len() > 0 {
                    r matches Err(LoadError::Lines(bad)) && bad_views(bad@) == found.bad
                } else {
                    match r {
                        Ok(Some(m)) => ignored(m) == ignored_by(pattern_root(root@), found.rules) && (
                        found.rules.len() == 0 ==> ignored(m) == no_paths()),
                        Err(LoadError::Build(_)) => found.rules.len() > 0,
                        _ => false,
                    }
                }
            },
        },
{
    match file {
        None => Ok(None),
        Some(bytes) => match pattern_builder(root, bytes) {
            Ok(builder) => loaded(build(&builder)),
            Err(bad) => Err(LoadError::Lines(bad)),
        },
    }
}

/// What stands at a path of a clone.
pub enum Node {
    /// Nothing: it vanished, or was never cloned.
    Missing,
    /// Anything but a directory. A symbolic link is never followed.
    Leaf,
    /// A directory and what it holds.
    Dir(Vec<Child>),
}

/// What a directory holds under a name.
pub struct Child {
    pub name: Vec<u8>,
    pub node: Node,
}

/// A path to remove, and whether it is a directory.
pub struct Removal {
    pub path: Vec<u8>,
    pub is_dir: bool,
}

/// Whether the patterns ask for a path to be dropped.
pub open spec fn is_asked(paths: Set<(Seq<char>, bool)>, rel: Seq<u8>, is_dir: bool) -> bool {
    paths.contains((shown(rel), is_dir))
}

/// What is to be removed at a path and below it, in order: the path itself if
/// it is asked for, and otherwise what is to be removed in it.
pub open spec fn removals(paths: Set<(Seq<char>, bool)>, rel: Seq<u8>, node: Node) -> Seq<(Seq<u8>, bool)>
    decreases node,
{
    match node {
        Node::Missing => Seq::empty(),
        Node::Leaf => if is_asked(paths, rel, false) {
            seq![(rel, false)]
        } else {
            Seq::empty()
        },
        Node::Dir(children) => if is_asked(paths, rel, true) {
            seq![(rel, true)]
        } else {
            child_removals(paths, rel, children@)
        },
    }
}

/// What is to be removed below a directory.
pub open spec fn child_removals(paths: Set<(Seq<char>, bool)>, rel: Seq<u8>, children: Seq<Child>) -> Seq<
    (Seq<u8>, bool),
>
    decreases children,
{
    if children.len() == 0 {
        Seq::empty()
    } else {
        child_removals(paths, rel, children.drop_last()) + removals(
            paths,
            joined(rel, children.last().name@),
            children.last().node,
        )
    }
}

/// A list of removals as a model.
pub open spec fn removal_views(list: Seq<Removal>) -> Seq<(Seq<u8>, bool)> {
    list.map_values(|x: Removal| (x.path@, x.is_dir))
}

/// Whether the patterns ask for a path to be dropped. What lies below a
/// directory that they ask for need not be looked at. A path is held against
/// the patterns as text, so that U+FFFD stands for what is not UTF-8 in it.
pub fn asked(matcher: &Gitignore, rel: &[u8], is_dir: bool) -> (r: bool)
    ensures
        r == is_asked(ignored(*matcher), rel@, is_dir),
{
    is_ignored(matcher, from_utf8_lossy(rel).as_str(), is_dir)
}

/// What to remove of one cloned entry: as many paths as there are in the list.
pub fn scrub_entry(matcher: &Gitignore, rel: &[u8], node: &Node) -> (r: Vec<Removal>)
    ensures
        removal_views(r@) == removals(ignored(*matcher), rel@, *node),
    decreases *node,
{
    let mut r: Vec<Removal> = Vec::new();
    assert(removal_views(r@) =~= Seq::empty());
    match node {
        Node::Missing => {},
        Node::Leaf => {
            if asked(matcher, rel, false) {
                r.push(Removal { path: slice_to_vec(rel), is_dir: false });
                assert(removal_views(r@) =~= seq![(rel@, false)]);
            }
        },
        Node::Dir(children) => {
            if asked(matcher, rel, true) {
                r.push(Removal { path: slice_to_vec(rel), is_dir: true });
                assert(removal_views(r@) =~= seq![(rel@, true)]);
            } else {
                let mut i: usize = 0;
                assert(children@.take(0) =~= Seq::<Child>::empty());
                while i < children.len()
                    invariant
                        i <= children.len(),
                        *node == Node::Dir(*children),
                        removal_views(r@) == child_removals(ignored(*matcher), rel@, children@.take(i as int)),
                    decreases children.len() - i,
                {
                    let ghost before = removal_views(r@);
                    proof {
                        assert(children@.take(i + 1).drop_last() =~= children@.take(i as int));
                        assert(children@.take(i + 1).last() == children@[i as int]);
                    }
                    let child = &children[i];
                    proof {
                        let held = node->Dir_0;
                        assert(decreases_to!(*node => node->Dir_0));
                        assert(decreases_to!(held => held[i as int]));
                        assert(decreases_to!(held[i as int] => held[i as int].node));
                    }
                    let path = join(rel, child.name.as_slice());
                    let mut more = scrub_entry(matcher, path.as_slice(), &child.node);
                    let ghost found = removal_views(more@);
                    r.append(&mut more);
                    assert(removal_views(r@) =~= before + found);
                    i = i + 1;
                }
                assert(children@.take(i as int) =~= children@);
            }
        },
    }
    r
}

/// The paths at `rel` and below it, each with whether it is a directory.
pub open spec fn standing(rel: Seq<u8>, node: Node) -> Set<(Seq<u8>, bool)>
    decreases node,
{
    match node {
        Node::Missing => Set::empty(),
        Node::Leaf => set![(rel, false)],
        Node::Dir(children) => child_standing(rel, children@).insert((rel, true)),
    }
}

/// The paths below a directory.
pub open spec fn child_standing(rel: Seq<u8>, children: Seq<Child>) -> Set<(Seq<u8>, bool)>
    decreases children,
{
    if children.len() == 0 {
        Set::empty()
    } else {
        child_standing(rel, children.drop_last()).union(
            standing(joined(rel, children.last().name@), children.last().node),
        )
    }
}

/// The paths that are left at `rel` and below it after the scrub: a path that
/// is removed is gone with everything below it. That this is what stood there
/// without what the removals take is `lemma_scrub_law`.
pub open spec fn left_over(paths: Set<(Seq<char>, bool)>, rel: Seq<u8>, node: Node) -> Set<(Seq<u8>, bool)>
    decreases node,
{
    if is_asked(paths, rel, node is Dir) {
        Set::empty()
    } else {
        match node {
            Node::Missing => Set::empty(),
            Node::Leaf => set![(rel, false)],
            Node::Dir(children) => child_left_over(paths, rel, children@).insert((rel, true)),
        }
    }
}

/// The paths that are left below a directory after the scrub.
pub open spec fn child_left_over(paths: Set<(Seq<char>, bool)>, rel: Seq<u8>, children: Seq<Child>) -> Set<
    (Seq<u8>, bool),
>
    decreases children,
{
    if children.len() == 0 {
        Set::empty()
    } else {
        child_left_over(paths, rel, children.drop_last()).union(
            left_over(paths, joined(rel, children.last().name@), children.last().node),
        )
    }
}

/// Only paths of the tree are removed, and only those that the patterns ask
/// for; and what is left holds none of them.
proof fn lemma_scrub_exact(paths: Set<(Seq<char>, bool)>, rel: Seq<u8>, node: Node)
    ensures
        forall|i: int|
            0 <= i < removals(paths, rel, node).len() ==> {
                let x = #[trigger] removals(paths, rel, node)[i];
                standing(rel, node).contains(x) && is_asked(paths, x.0, x.1)
            },
        forall|x: (Seq<u8>, bool)| #[trigger]
            left_over(paths, rel, node).contains(x) ==> standing(rel, node).contains(x) && !is_asked(
                paths,
                x.0,
                x.1,
            ),
    decreases node,
{
    let kept = left_over(paths, rel, node);
    match node {
        Node::Missing => {
            assert(removals(paths, rel, node).len() == 0);
            assert(kept =~= Set::empty());
        },
        Node::Leaf => {
            if is_asked(paths, rel, false) {
                assert(removals(paths, rel, node) =~= seq![(rel, false)]);
                assert(kept =~= Set::empty());
            } else {
                assert(kept =~= set![(rel, false)]);
            }
        },
        Node::Dir(children) => {
            if is_asked(paths, rel, true) {
                assert(removals(paths, rel, node) =~= seq![(rel, true)]);
                assert(kept =~= Set::empty());
            } else {
                lemma_child_scrub_exact(paths, rel, children@);
                assert(removals(paths, rel, node) == child_removals(paths, rel, children@));
                assert(kept =~= child_left_over(paths, rel, children@).insert((rel, true)));
            }
        },
    }
}

proof fn lemma_child_scrub_exact(paths: Set<(Seq<char>, bool)>, rel: Seq<u8>, children: Seq<Child>)
    ensures
        forall|i: int|
            0 <= i < child_removals(paths, rel, children).len() ==> {
                let x = #[trigger] child_removals(paths, rel, children)[i];
                child_standing(rel, children).contains(x) && is_asked(paths, x.0, x.1)
            },
        forall|x: (Seq<u8>, bool)| #[trigger]
            child_left_over(paths, rel, children).contains(x) ==> child_standing(rel, children).contains(x)
                && !is_asked(paths, x.0, x.1),
    decreases children,
{
    if children.len() > 0 {
        let first = children.drop_last();
        let path = joined(rel, children.last().name@);
        let node = children.last().node;
        lemma_child_scrub_exact(paths, rel, first);
        lemma_scrub_exact(paths, path, node);
        let a = child_removals(paths, rel, first);
        let b = removals(paths, path, node);
        assert forall|i: int| 0 <= i < child_removals(paths, rel, children).len() implies {
            let x = #[trigger] child_removals(paths, rel, children)[i];
            child_standing(rel, children).contains(x) && is_asked(paths, x.0, x.1)
        } by {
            if i < a.len() {
                assert(child_removals(paths, rel, children)[i] == a[i]);
            } else {
                assert(child_removals(paths, rel, children)[i] == b[i - a.len()]);
            }
        }
        assert forall|x: (Seq<u8>, bool)| #[trigger]
            child_left_over(paths, rel, children).contains(x) implies child_standing(rel, children).contains(x)
            && !is_asked(paths, x.0, x.1) by {
            if child_left_over(paths, rel, first).contains(x) {
                assert(child_standing(rel, first).contains(x));
            } else {
                assert(left_over(paths, path, node).contains(x));
            }
        }
    }
}

/// Whether a directory can hold what a tree says it holds: each name is that of
/// an entry, and no two are the same.
pub open spec fn is_tree(node: Node) -> bool
    decreases node,
{
    match node {
        Node::Dir(children) => are_children(children@),
        _ => true,
    }
}

/// Whether a directory can hold these children.
pub open spec fn are_children(children: Seq<Child>) -> bool
    decreases children,
{
    children.len() > 0 ==> {
        &&& are_children(children.drop_last())
        &&& is_entry_name(children.last().name@)
        &&& is_tree(children.last().node)
        &&& forall|i: int| 0 <= i < children.len() - 1 ==> (#[trigger] children[i]).name@ != children.last().name@
    }
}

/// Whether `path` lies within a child of that name of the directory `rel`.
spec fn is_in_child(rel: Seq<u8>, name: Seq<u8>, path: Seq<u8>) -> bool {
    is_within(joined(rel, name), path)
}

/// Whether `path` lies within one of the children.
spec fn is_in_some_child(rel: Seq<u8>, children: Seq<Child>, path: Seq<u8>) -> bool {
    exists|i: int| 0 <= i < children.len() && is_in_child(rel, (#[trigger] children[i]).name@, path)
}

/// What stands at a path and below it lies within the path.
proof fn lemma_standing_within(rel: Seq<u8>, node: Node)
    requires
        is_tree(node),
    ensures
        forall|x: (Seq<u8>, bool)| #[trigger] standing(rel, node).contains(x) ==> is_within(rel, x.0),
    decreases node,
{
    lemma_within_itself(rel);
    match node {
        Node::Missing => {
            assert(standing(rel, node) =~= Set::empty());
        },
        Node::Leaf => {
            assert(standing(rel, node) =~= set![(rel, false)]);
        },
        Node::Dir(children) => {
            lemma_children_within(rel, children@);
            assert forall|x: (Seq<u8>, bool)| #[trigger] standing(rel, node).contains(x) implies is_within(
                rel,
                x.0,
            ) by {
                if x != (rel, true) {
                    assert(child_standing(rel, children@).contains(x));
                    lemma_in_child_below(rel, children@, x.0);
                }
            }
        },
    }
}

/// What lies within a child of a directory lies below the directory.
proof fn lemma_in_child_below(rel: Seq<u8>, children: Seq<Child>, path: Seq<u8>)
    requires
        are_children(children),
        is_in_some_child(rel, children, path),
    ensures
        is_below(rel, path),
        is_within(rel, path),
    decreases children,
{
    let i = choose|i: int| 0 <= i < children.len() && is_in_child(rel, (#[trigger] children[i]).name@, path);
    if i == children.len() - 1 {
        let name = children.last().name@;
        lemma_entry_components(rel, name);
        lemma_within_below(rel, joined(rel, name), path);
    } else {
        let first = children.drop_last();
        assert(first[i] == children[i]);
        lemma_in_child_below(rel, first, path);
    }
}

/// What stands below a directory lies within one of its children.
proof fn lemma_children_within(rel: Seq<u8>, children: Seq<Child>)
    requires
        are_children(children),
    ensures
        forall|x: (Seq<u8>, bool)| #[trigger]
            child_standing(rel, children).contains(x) ==> is_in_some_child(rel, children, x.0),
    decreases children,
{
    if children.len() > 0 {
        let first = children.drop_last();
        let last = children.last();
        lemma_children_within(rel, first);
        lemma_standing_within(joined(rel, last.name@), last.node);
        assert forall|x: (Seq<u8>, bool)| #[trigger]
            child_standing(rel, children).contains(x) implies is_in_some_child(rel, children, x.0) by {
            if child_standing(rel, first).contains(x) {
                let i = choose|i: int|
                    0 <= i < first.len() && is_in_child(rel, (#[trigger] first[i]).name@, x.0);
                assert(children[i] == first[i]);
            } else {
                assert(standing(joined(rel, last.name@), last.node).contains(x));
                assert(is_in_child(rel, children[children.len() - 1].name@, x.0));
            }
        }
    }
}

/// Nothing in the last child has to do with anything in the others.
proof fn lemma_last_apart(rel: Seq<u8>, children: Seq<Child>, a: Seq<u8>, b: Seq<u8>)
    requires
        children.len() > 0,
        are_children(children),
        is_in_some_child(rel, children.drop_last(), a),
        is_in_child(rel, children.last().name@, b),
    ensures
        !is_within(a, b),
        !is_within(b, a),
{
    let first = children.drop_last();
    let i = choose|i: int| 0 <= i < first.len() && is_in_child(rel, (#[trigger] first[i]).name@, a);
    let x = children[i].name@;
    let y = children.last().name@;
    assert(first[i] == children[i]);
    assert(x != y);
    lemma_child_is_entry(children, i);
    lemma_entry_components(rel, x);
    lemma_entry_components(rel, y);
    let n = components(rel).len() as int;
    let ca = components(a);
    let cb = components(b);
    assert(ca[n] == ca.take(n + 1)[n]);
    assert(cb[n] == cb.take(n + 1)[n]);
    assert(ca[n] == Component::Normal(x));
    assert(cb[n] == Component::Normal(y));
    if is_within(a, b) {
        assert(cb.take(ca.len() as int)[n] == ca[n]);
    }
    if is_within(b, a) {
        assert(ca.take(cb.len() as int)[n] == cb[n]);
    }
}

proof fn lemma_child_is_entry(children: Seq<Child>, i: int)
    requires
        are_children(children),
        0 <= i < children.len(),
    ensures
        is_entry_name(children[i].name@),
    decreases children.len(),
{
    if i < children.len() - 1 {
        assert(children.drop_last()[i] == children[i]);
        lemma_child_is_entry(children.drop_last(), i);
    }
}

/// Whether a removal takes the path with it.
pub open spec fn is_taken(removed: Seq<(Seq<u8>, bool)>, path: Seq<u8>) -> bool {
    exists|i: int| 0 <= i < removed.len() && is_within((#[trigger] removed[i]).0, path)
}

/// Whether no removal lies within another.
pub open spec fn are_topmost(removed: Seq<(Seq<u8>, bool)>) -> bool {
    forall|i: int, j: int|
        0 <= i < removed.len() && 0 <= j < removed.len() && i != j ==> !is_within(
            (#[trigger] removed[i]).0,
            (#[trigger] removed[j]).0,
        )
}

/// What is left is what stood there without what was taken, and no removal
/// lies within another.
proof fn lemma_left_over(paths: Set<(Seq<char>, bool)>, rel: Seq<u8>, node: Node)
    requires
        is_tree(node),
    ensures
        forall|x: (Seq<u8>, bool)| #[trigger]
            left_over(paths, rel, node).contains(x) <==> standing(rel, node).contains(x) && !is_taken(
                removals(paths, rel, node),
                x.0,
            ),
        are_topmost(removals(paths, rel, node)),
    decreases node,
{
    let gone = removals(paths, rel, node);
    lemma_standing_within(rel, node);
    if is_asked(paths, rel, node is Dir) {
        if node is Missing {
            assert(standing(rel, node) =~= Set::empty());
        } else {
            assert(gone =~= seq![(rel, node is Dir)]);
            assert forall|x: (Seq<u8>, bool)| #[trigger] standing(rel, node).contains(x) implies is_taken(
                gone,
                x.0,
            ) by {
                assert(is_within(gone[0].0, x.0));
            }
        }
    } else {
        match node {
            Node::Missing => {
                assert(standing(rel, node) =~= Set::empty());
                assert(gone =~= Seq::empty());
            },
            Node::Leaf => {
                assert(left_over(paths, rel, node) =~= standing(rel, node));
                assert(gone =~= Seq::empty());
            },
            Node::Dir(children) => {
                assert(gone == child_removals(paths, rel, children@));
                assert(standing(rel, node) == child_standing(rel, children@).insert((rel, true)));
                assert(left_over(paths, rel, node) == child_left_over(paths, rel, children@).insert((rel, true)));
                lemma_child_left_over(paths, rel, children@);
                lemma_child_scrub_exact(paths, rel, children@);
                lemma_children_within(rel, children@);
                if is_taken(gone, rel) {
                    let i = choose|i: int| 0 <= i < gone.len() && is_within((#[trigger] gone[i]).0, rel);
                    assert(child_standing(rel, children@).contains(gone[i]));
                    lemma_in_child_below(rel, children@, gone[i].0);
                }
                assert(!child_standing(rel, children@).contains((rel, true))) by {
                    if child_standing(rel, children@).contains((rel, true)) {
                        lemma_in_child_below(rel, children@, rel);
                    }
                }
            },
        }
    }
}

proof fn lemma_child_left_over(paths: Set<(Seq<char>, bool)>, rel: Seq<u8>, children: Seq<Child>)
    requires
        are_children(children),
    ensures
        forall|x: (Seq<u8>, bool)| #[trigger]
            child_left_over(paths, rel, children).contains(x) <==> child_standing(rel, children).contains(x)
                && !is_taken(child_removals(paths, rel, children), x.0),
        are_topmost(child_removals(paths, rel, children)),
    decreases children,
{
    if children.len() > 0 {
        let first = children.drop_last();
        let last = children.last();
        let path = joined(rel, last.name@);
        let a = child_removals(paths, rel, first);
        let b = removals(paths, path, last.node);
        let both = child_removals(paths, rel, children);
        lemma_child_left_over(paths, rel, first);
        lemma_left_over(paths, path, last.node);
        lemma_children_within(rel, first);
        lemma_standing_within(path, last.node);
        lemma_child_scrub_exact(paths, rel, first);
        lemma_scrub_exact(paths, path, last.node);
        assert(both == a + b);
        assert(child_standing(rel, children) == child_standing(rel, first).union(standing(path, last.node)));
        assert(child_left_over(paths, rel, children) == child_left_over(paths, rel, first).union(
            left_over(paths, path, last.node),
        ));
        assert forall|i: int| 0 <= i < a.len() implies is_in_some_child(rel, first, (#[trigger] a[i]).0) by {
            assert(child_standing(rel, first).contains(a[i]));
        }
        assert forall|i: int| 0 <= i < b.len() implies is_within(path, (#[trigger] b[i]).0) by {
            assert(standing(path, last.node).contains(b[i]));
        }
        assert forall|i: int, j: int|
            0 <= i < both.len() && 0 <= j < both.len() && i != j implies !is_within(
            (#[trigger] both[i]).0,
            (#[trigger] both[j]).0,
        ) by {
            if i < a.len() && j < a.len() {
                assert(both[i] == a[i] && both[j] == a[j]);
            } else if i >= a.len() && j >= a.len() {
                assert(both[i] == b[i - a.len()] && both[j] == b[j - a.len()]);
            } else if i < a.len() {
                assert(both[i] == a[i] && both[j] == b[j - a.len()]);
                lemma_last_apart(rel, children, a[i].0, b[j - a.len()].0);
            } else {
                assert(both[i] == b[i - a.len()] && both[j] == a[j]);
                lemma_last_apart(rel, children, a[j].0, b[i - a.len()].0);
            }
        }
        assert forall|x: (Seq<u8>, bool)| #[trigger]
            child_left_over(paths, rel, children).contains(x) <==> child_standing(rel, children).contains(x)
                && !is_taken(both, x.0) by {
            if is_taken(a, x.0) {
                let i = choose|i: int| 0 <= i < a.len() && is_within((#[trigger] a[i]).0, x.0);
                assert(both[i] == a[i]);
                assert(is_taken(both, x.0));
            }
            if is_taken(b, x.0) {
                let i = choose|i: int| 0 <= i < b.len() && is_within((#[trigger] b[i]).0, x.0);
                assert(both[i + a.len()] == b[i]);
                assert(is_taken(both, x.0));
            }
            if is_taken(both, x.0) {
                let i = choose|i: int| 0 <= i < both.len() && is_within((#[trigger] both[i]).0, x.0);
                if i < a.len() {
                    assert(both[i] == a[i]);
                    if standing(path, last.node).contains(x) {
                        lemma_last_apart(rel, children, a[i].0, x.0);
                    }
                    assert(is_taken(a, x.0));
                } else {
                    assert(both[i] == b[i - a.len()]);
                    if child_standing(rel, first).contains(x) {
                        lemma_last_apart(rel, children, x.0, b[i - a.len()].0);
                    }
                    assert(is_taken(b, x.0));
                }
            }
        }
    }
}

/// Paths of a tree with the same components are the same.
proof fn lemma_standing_apart(rel: Seq<u8>, node: Node, x: (Seq<u8>, bool), y: (Seq<u8>, bool))
    requires
        is_tree(node),
        standing(rel, node).contains(x),
        standing(rel, node).contains(y),
        components(x.0) == components(y.0),
    ensures
        x == y,
    decreases node,
{
    match node {
        Node::Dir(children) => {
            lemma_children_within(rel, children@);
            if child_standing(rel, children@).contains(x) {
                lemma_in_child_below(rel, children@, x.0);
            }
            if child_standing(rel, children@).contains(y) {
                lemma_in_child_below(rel, children@, y.0);
            }
            if x != (rel, true) && y != (rel, true) {
                lemma_children_apart(rel, children@, x, y);
            }
        },
        _ => {},
    }
}

proof fn lemma_children_apart(rel: Seq<u8>, children: Seq<Child>, x: (Seq<u8>, bool), y: (Seq<u8>, bool))
    requires
        are_children(children),
        child_standing(rel, children).contains(x),
        child_standing(rel, children).contains(y),
        components(x.0) == components(y.0),
    ensures
        x == y,
    decreases children,
{
    if children.len() > 0 {
        let first = children.drop_last();
        let last = children.last();
        let path = joined(rel, last.name@);
        lemma_children_within(rel, first);
        lemma_standing_within(path, last.node);
        assert(components(x.0).take(components(x.0).len() as int) =~= components(x.0));
        assert(is_within(x.0, y.0));
        assert(child_standing(rel, children) == child_standing(rel, first).union(standing(path, last.node)));
        assert(standing(path, last.node).contains(x) ==> is_in_child(rel, last.name@, x.0));
        assert(standing(path, last.node).contains(y) ==> is_in_child(rel, last.name@, y.0));
        let in_first = |z: (Seq<u8>, bool)| child_standing(rel, first).contains(z);
        if in_first(x) && in_first(y) {
            lemma_children_apart(rel, first, x, y);
        } else if in_first(x) {
            lemma_last_apart(rel, children, x.0, y.0);
        } else if in_first(y) {
            lemma_last_apart(rel, children, y.0, x.0);
        } else {
            lemma_standing_apart(path, last.node, x, y);
        }
    }
}

/// Whether the patterns ask for a path of the tree that lies strictly above
/// the given one.
pub open spec fn has_asked_above(paths: Set<(Seq<char>, bool)>, rel: Seq<u8>, node: Node, path: Seq<u8>) -> bool {
    exists|y: (Seq<u8>, bool)| #[trigger]
        standing(rel, node).contains(y) && is_asked(paths, y.0, y.1) && is_below(y.0, path)
}

/// The paths of the tree that the patterns ask for, without those that lie
/// below another.
pub open spec fn topmost_asked(paths: Set<(Seq<char>, bool)>, rel: Seq<u8>, node: Node) -> Set<(Seq<u8>, bool)> {
    Set::new(
        |x: (Seq<u8>, bool)|
            standing(rel, node).contains(x) && is_asked(paths, x.0, x.1) && !has_asked_above(
                paths,
                rel,
                node,
                x.0,
            ),
    )
}

/// What a scrub does to the tree of a cloned entry. It removes the topmost
/// paths that the patterns ask for, each once, and so as many as there are.
/// All of them lie within the entry. With a path goes what lies within it, and
/// nothing else: what is neither asked for nor below a path that is, stays, and
/// nothing that the patterns ask for is left.
pub proof fn lemma_scrub_law(paths: Set<(Seq<char>, bool)>, rel: Seq<u8>, node: Node)
    requires
        is_tree(node),
    ensures
        removals(paths, rel, node).to_set() == topmost_asked(paths, rel, node),
        removals(paths, rel, node).no_duplicates(),
        removals(paths, rel, node).len() == topmost_asked(paths, rel, node).len(),
        are_topmost(removals(paths, rel, node)),
        forall|i: int|
            0 <= i < removals(paths, rel, node).len() ==> is_within(
                rel,
                (#[trigger] removals(paths, rel, node)[i]).0,
            ),
        forall|x: (Seq<u8>, bool)| #[trigger]
            left_over(paths, rel, node).contains(x) <==> standing(rel, node).contains(x) && !is_taken(
                removals(paths, rel, node),
                x.0,
            ),
        forall|x: (Seq<u8>, bool)| #[trigger]
            left_over(paths, rel, node).contains(x) <==> standing(rel, node).contains(x) && !is_asked(
                paths,
                x.0,
                x.1,
            ) && !has_asked_above(paths, rel, node, x.0),
        node is Missing ==> removals(paths, rel, node).len() == 0,
{
    let gone = removals(paths, rel, node);
    let kept = left_over(paths, rel, node);
    let stood = standing(rel, node);
    let top = topmost_asked(paths, rel, node);
    lemma_left_over(paths, rel, node);
    lemma_scrub_exact(paths, rel, node);
    lemma_standing_within(rel, node);
    // What is asked for is taken by some removal.
    assert forall|y: (Seq<u8>, bool)| #[trigger] stood.contains(y) && is_asked(paths, y.0, y.1) implies is_taken(
        gone,
        y.0,
    ) by {
        if !is_taken(gone, y.0) {
            assert(kept.contains(y));
        }
    }
    assert forall|i: int| 0 <= i < gone.len() implies top.contains(#[trigger] gone[i]) by {
        assert(stood.contains(gone[i]));
        if has_asked_above(paths, rel, node, gone[i].0) {
            let y = choose|y: (Seq<u8>, bool)| #[trigger]
                stood.contains(y) && is_asked(paths, y.0, y.1) && is_below(y.0, gone[i].0);
            let j = choose|j: int| 0 <= j < gone.len() && is_within((#[trigger] gone[j]).0, y.0);
            lemma_within_below(gone[j].0, y.0, gone[i].0);
            lemma_within_transitive(gone[j].0, y.0, gone[i].0);
            assert(is_within(gone[j].0, gone[i].0));
            assert(i == j);
        }
    }
    assert forall|x: (Seq<u8>, bool)| #[trigger] top.contains(x) implies gone.contains(x) by {
        let j = choose|j: int| 0 <= j < gone.len() && is_within((#[trigger] gone[j]).0, x.0);
        assert(stood.contains(gone[j]) && is_asked(paths, gone[j].0, gone[j].1));
        assert(!is_below(gone[j].0, x.0));
        assert(components(x.0).take(components(gone[j].0).len() as int) =~= components(x.0));
        lemma_standing_apart(rel, node, gone[j], x);
    }
    assert(gone.to_set() =~= top);
    assert forall|i: int, j: int| 0 <= i < gone.len() && 0 <= j < gone.len() && i != j implies gone[i] != gone[j] by {
        if gone[i] == gone[j] {
            lemma_within_itself(gone[i].0);
            assert(is_within(gone[i].0, gone[j].0));
        }
    }
    gone.unique_seq_to_set();
    assert forall|x: (Seq<u8>, bool)| #[trigger]
        kept.contains(x) <==> stood.contains(x) && !is_asked(paths, x.0, x.1) && !has_asked_above(
            paths,
            rel,
            node,
            x.0,
        ) by {
        if kept.contains(x) && has_asked_above(paths, rel, node, x.0) {
            let y = choose|y: (Seq<u8>, bool)| #[trigger]
                stood.contains(y) && is_asked(paths, y.0, y.1) && is_below(y.0, x.0);
            let j = choose|j: int| 0 <= j < gone.len() && is_within((#[trigger] gone[j]).0, y.0);
            lemma_within_transitive(gone[j].0, y.0, x.0);
            assert(is_taken(gone, x.0));
        }
        if stood.contains(x) && !is_asked(paths, x.0, x.1) && is_taken(gone, x.0) {
            let j = choose|j: int| 0 <= j < gone.len() && is_within((#[trigger] gone[j]).0, x.0);
            assert(stood.contains(gone[j]) && is_asked(paths, gone[j].0, gone[j].1));
            if !is_below(gone[j].0, x.0) {
                assert(components(x.0).take(components(gone[j].0).len() as int) =~= components(x.0));
                lemma_standing_apart(rel, node, gone[j], x);
            }
            assert(has_asked_above(paths, rel, node, x.0));
        }
    }
}

/// A scrub of what a scrub has left removes nothing.
pub proof fn lemma_scrub_again(paths: Set<(Seq<char>, bool)>, rel: Seq<u8>, node: Node, rest: Node)
    requires
        standing(rel, rest) == left_over(paths, rel, node),
    ensures
        removals(paths, rel, rest).len() == 0,
{
    lemma_scrub_exact(paths, rel, node);
    lemma_scrub_exact(paths, rel, rest);
    if removals(paths, rel, rest).len() > 0 {
        let x = removals(paths, rel, rest)[0];
        assert(standing(rel, rest).contains(x));
        assert(left_over(paths, rel, node).contains(x));
    }
}

/// Without patterns nothing is scrubbed.
pub proof fn lemma_nothing_unasked(rel: Seq<u8>, node: Node)
    ensures
        removals(no_paths(), rel, node) == Seq::<(Seq<u8>, bool)>::empty(),
        left_over(no_paths(), rel, node) == standing(rel, node),
    decreases node,
{
    match node {
        Node::Missing => {},
        Node::Leaf => {},
        Node::Dir(children) => {
            lemma_no_child_unasked(rel, children@);
        },
    }
}

proof fn lemma_no_child_unasked(rel: Seq<u8>, children: Seq<Child>)
    ensures
        child_removals(no_paths(), rel, children) == Seq::<(Seq<u8>, bool)>::empty(),
        child_left_over(no_paths(), rel, children) == child_standing(rel, children),
    decreases children,
{
    if children.len() > 0 {
        lemma_no_child_unasked(rel, children.drop_last());
        lemma_nothing_unasked(joined(rel, children.last().name@), children.last().node);
        assert(child_removals(no_paths(), rel, children) =~= Seq::<(Seq<u8>, bool)>::empty());
    }
}

/// A pattern file of comments and blank lines alone holds no pattern.
pub proof fn lemma_comments_ask_nothing(lines: Seq<Seq<u8>>)
    requires
        forall|i: int|
            0 <= i < lines.len() ==> valid_utf8(#[trigger] lines[i]) && rule_in(
                if i == 0 { without_marks(decode_utf8(lines[i])) } else { decode_utf8(lines[i]) },
            ) is None,
    ensures
        scan(lines).rules.len() == 0,
        scan(lines).bad.len() == 0,
        !scan(lines).stopped,
    decreases lines.len(),
{
    if lines.len() > 0 {
        let first = lines.drop_last();
        assert forall|i: int| 0 <= i < first.len() implies valid_utf8(#[trigger] first[i]) && rule_in(
            if i == 0 { without_marks(decode_utf8(first[i])) } else { decode_utf8(first[i]) },
        ) is None by {
            assert(first[i] == lines[i]);
        }
        lemma_comments_ask_nothing(first);
        assert(lines.last() == lines[lines.len() - 1]);
    }
}

/// A path is held against the patterns as it is, the whole of it, and with its
/// kind: what is UTF-8 by the text that it encodes.
pub proof fn lemma_asked_by_whole_path(paths: Set<(Seq<char>, bool)>, rel: Seq<u8>, text: Seq<char>, is_dir: bool)
    ensures
        is_asked(paths, rel, is_dir) <==> paths.contains((shown(rel), is_dir)),
        valid_utf8(rel) ==> (is_asked(paths, rel, is_dir) <==> paths.contains((decode_utf8(rel), is_dir))),
        is_asked(paths, encode_utf8(text), is_dir) <==> paths.contains((text, is_dir)),
{
    lemma_text_is_shown(text);
}

/// What stands in a tree: a file or a directory at its path, and in a directory
/// what stands in each of its children, at the path of the directory with the
/// name of the child. Nothing else does.
pub proof fn lemma_standing(rel: Seq<u8>, node: Node, x: (Seq<u8>, bool))
    ensures
        node is Missing ==> !standing(rel, node).contains(x),
        node is Leaf ==> (standing(rel, node).contains(x) <==> x == (rel, false)),
        node matches Node::Dir(children) ==> (standing(rel, node).contains(x) <==> x == (rel, true) || (exists|i: int|
            0 <= i < children@.len() && standing(
                joined(rel, (#[trigger] children@[i]).name@),
                children@[i].node,
            ).contains(x))),
{
    match node {
        Node::Dir(children) => {
            lemma_child_standing(rel, children@, x);
            assert(standing(rel, node) == child_standing(rel, children@).insert((rel, true)));
        },
        Node::Missing => {
            assert(standing(rel, node) =~= Set::empty());
        },
        Node::Leaf => {
            assert(standing(rel, node) =~= set![(rel, false)]);
        },
    }
}

proof fn lemma_child_standing(rel: Seq<u8>, children: Seq<Child>, x: (Seq<u8>, bool))
    ensures
        child_standing(rel, children).contains(x) <==> exists|i: int|
            0 <= i < children.len() && standing(
                joined(rel, (#[trigger] children[i]).name@),
                children[i].node,
            ).contains(x),
    decreases children.len(),
{
    if children.len() > 0 {
        let first = children.drop_last();
        let last = children.last();
        lemma_child_standing(rel, first, x);
        assert(child_standing(rel, children) == child_standing(rel, first).union(
            standing(joined(rel, last.name@), last.node),
        ));
        if child_standing(rel, first).contains(x) {
            let i = choose|i: int|
                0 <= i < first.len() && standing(
                    joined(rel, (#[trigger] first[i]).name@),
                    first[i].node,
                ).contains(x);
            assert(children[i] == first[i]);
        }
        if standing(joined(rel, last.name@), last.node).contains(x) {
            assert(children[children.len() - 1] == last);
        }
        if exists|i: int|
            0 <= i < children.len() && standing(
                joined(rel, (#[trigger] children[i]).name@),
                children[i].node,
            ).contains(x) {
            let i = choose|i: int|
                0 <= i < children.len() && standing(
                    joined(rel, (#[trigger] children[i]).name@),
                    children[i].node,
                ).contains(x);
            if i < first.len() {
                assert(first[i] == children[i]);
            }
        }
    } else {
        assert(child_standing(rel, children) =~= Set::empty());
    }
}

/// Whatever stands in a cloned entry and is ignored by the patterns is gone
/// after the scrub, with a removal of its own or of a directory above it; and
/// every removal is of something that stood there and is ignored.
pub proof fn lemma_ignored_is_gone(paths: Set<(Seq<char>, bool)>, rel: Seq<u8>, node: Node, x: (Seq<u8>, bool))
    requires
        is_tree(node),
        standing(rel, node).contains(x),
    ensures
        paths.contains((shown(x.0), x.1)) ==> is_taken(removals(paths, rel, node), x.0) && !left_over(
            paths,
            rel,
            node,
        ).contains(x),
        valid_utf8(x.0) && paths.contains((decode_utf8(x.0), x.1)) ==> is_taken(removals(paths, rel, node), x.0),
        forall|i: int|
            0 <= i < removals(paths, rel, node).len() ==> {
                let y = #[trigger] removals(paths, rel, node)[i];
                standing(rel, node).contains(y) && paths.contains((shown(y.0), y.1))
            },
{
    lemma_left_over(paths, rel, node);
    lemma_scrub_exact(paths, rel, node);
    if is_asked(paths, x.0, x.1) && !is_taken(removals(paths, rel, node), x.0) {
        assert(left_over(paths, rel, node).contains(x));
    }
}

/// A file is read line by line: a line end ends a line, a carriage return before
/// it does not count, and what follows the last line end is a line where there
/// is something.
pub proof fn lemma_lines(line: Seq<u8>, rest: Seq<u8>)
    requires
        !line.contains(0x0a),
    ensures
        lines(Seq::<u8>::empty()) == Seq::<Seq<u8>>::empty(),
        line.len() > 0 ==> lines(line) == seq![line],
        lines(line.push(0x0a) + rest) == seq![
            if line.len() > 0 && line.last() == 0x0d { line.drop_last() } else { line },
        ] + lines(rest),
{
    let empty = Seq::<u8>::empty();
    let strip = |l: Seq<u8>| without_return(l);
    lemma_split_whole(empty, NEWLINE);
    lemma_split_whole(line, NEWLINE);
    lemma_split_concat(line, rest, NEWLINE);
    crate::bytes::lemma_split_nonempty(rest, NEWLINE);
    assert(lines(empty) =~= Seq::<Seq<u8>>::empty());
    if line.len() > 0 {
        assert(lines(line) =~= seq![line]);
    }
    let whole = line.push(0x0a) + rest;
    let one = split(line, NEWLINE);
    let more = split(rest, NEWLINE);
    assert(split(whole, NEWLINE) == one + more);
    assert((one + more).drop_last() =~= one + more.drop_last());
    assert((one + more).last() == more.last());
    assert((one + more.drop_last()).map_values(strip) =~= one.map_values(strip) + more.drop_last().map_values(strip));
    assert(one.map_values(strip) =~= seq![without_return(line)]);
    assert(lines(whole) =~= seq![without_return(line)] + lines(rest));
}

/// The marks that a file may begin with do not count, and nothing else is left
/// out.
pub proof fn lemma_marks(s: Seq<char>) -> (k: int)
    ensures
        0 <= k <= s.len(),
        without_marks(s) == s.skip(k),
        forall|i: int| 0 <= i < k ==> #[trigger] s[i] == '\u{feff}',
        k < s.len() ==> s[k] != '\u{feff}',
    decreases s.len(),
{
    if s.len() > 0 && s.first() == '\u{feff}' {
        let k = lemma_marks(s.drop_first());
        assert(s.drop_first().skip(k) =~= s.skip(k + 1));
        assert forall|i: int| 0 <= i < k + 1 implies #[trigger] s[i] == '\u{feff}' by {
            if i > 0 {
                assert(s[i] == s.drop_first()[i - 1]);
            }
        }
        k + 1
    } else {
        assert(s.skip(0) =~= s);
        0
    }
}

/// The text of a line of the pattern file: the marks before the first do not
/// count.
pub open spec fn line_text(lines: Seq<Seq<u8>>, i: int) -> Seq<char> {
    if i == 0 {
        without_marks(decode_utf8(lines[i]))
    } else {
        decode_utf8(lines[i])
    }
}

/// The patterns of a file are those of its lines, one after the other: a line
/// with a pattern adds it, and a line without one adds nothing. A line that is
/// not text, and a pattern that cannot be parsed, are reported with the number
/// of the line, and add nothing.
pub proof fn lemma_scan_line(lines: Seq<Seq<u8>>, line: Seq<u8>)
    requires
        !scan(lines).stopped,
    ensures
        ({
            let all = lines.push(line);
            let now = scan(all);
            let text = line_text(all, lines.len() as int);
            &&& !valid_utf8(line) ==> now.stopped && now.rules == scan(lines).rules && now.bad == scan(
                lines,
            ).bad.push((lines.len() as int + 1, None))
            &&& valid_utf8(line) ==> !now.stopped
            &&& valid_utf8(line) && rule_in(text) is None ==> now.rules == scan(lines).rules && now.bad == scan(
                lines,
            ).bad
            &&& valid_utf8(line) ==> (rule_in(text) matches Some(rule) ==> {
                &&& pattern_error(rule) is None ==> now.rules == scan(lines).rules.push(rule) && now.bad == scan(
                    lines,
                ).bad
                &&& pattern_error(rule) matches Some(m) ==> now.rules == scan(lines).rules && now.bad == scan(
                    lines,
                ).bad.push((lines.len() as int + 1, Some(m)))
            })
            &&& scan(Seq::<Seq<u8>>::empty()).rules.len() == 0 && scan(Seq::<Seq<u8>>::empty()).bad.len() == 0
                && !scan(Seq::<Seq<u8>>::empty()).stopped
        }),
{
    assert(lines.push(line).drop_last() =~= lines);
}

/// Once a line is not text, nothing more is read.
pub proof fn lemma_scan_stops(lines: Seq<Seq<u8>>, line: Seq<u8>)
    requires
        scan(lines).stopped,
    ensures
        scan(lines.push(line)) == scan(lines),
        scan(lines).bad.len() > 0,
    decreases lines.len(),
{
    assert(lines.push(line).drop_last() =~= lines);
    if lines.len() > 0 && scan(lines.drop_last()).stopped {
        assert(lines.drop_last().push(lines.last()) =~= lines);
        lemma_scan_stops(lines.drop_last(), lines.last());
    }
}

/// What a line of the pattern file holds: nothing after a `#` at its start and
/// nothing where there is only white space; and otherwise a pattern, which white
/// space at the end is not part of, unless it is a last space after a backslash.
pub proof fn lemma_rule_in(text: Seq<char>, space: Seq<char>)
    requires
        forall|i: int| 0 <= i < space.len() ==> is_white_space(#[trigger] space[i]),
    ensures
        rule_in(seq!['#'] + text) is None,
        rule_in(space) is None,
        text.len() > 0 && text[0] != '#' && !is_white_space(text.last()) && (text.last() != '\\' || space
            != seq![' ']) ==> rule_in(text + space) == Some(text),
        text.len() > 0 && text[0] != '#' && text.last() == '\\' ==> rule_in(text.push(' ')) == Some(text.push(' ')),
{
    reveal_strlit("\\ ");
    let mark = "\\ "@;
    assert(mark =~= seq!['\\', ' ']);
    assert((seq!['#'] + text)[0] == '#');
    if mark.is_suffix_of(space) {
        assert(space[space.len() - 2] == space.skip(space.len() - 2)[0]);
        assert(is_white_space(space[space.len() - 2]));
        assert(false);
    }
    let k = lemma_trim_end_cut(space);
    assert(k == 0) by {
        if k > 0 {
            assert(is_white_space(space[k - 1]));
        }
    }
    if text.len() > 0 && text[0] != '#' && !is_white_space(text.last()) && (text.last() != '\\' || space
        != seq![' ']) {
        let line = text + space;
        if mark.is_suffix_of(line) {
            let tail = line.skip(line.len() - 2);
            assert(tail[0] == line[line.len() - 2] && tail[1] == line[line.len() - 1]);
            if space.len() == 0 {
                assert(line.last() == text.last());
                assert(is_white_space(' '));
            } else if space.len() == 1 {
                assert(line[line.len() - 2] == text.last());
                assert(space =~= seq![' ']);
            } else {
                assert(line[line.len() - 2] == space[space.len() - 2]);
                assert(is_white_space(space[space.len() - 2]));
            }
            assert(false);
        }
        let m = lemma_trim_end_cut(line);
        if m < text.len() {
            assert(is_white_space(line[text.len() - 1]));
            assert(line[text.len() - 1] == text.last());
        }
        if m > text.len() {
            assert(line[m - 1] == space[m - 1 - text.len()]);
        }
        assert(line.take(m) =~= text);
        assert(line[0] == text[0]);
    }
    if text.len() > 0 && text[0] != '#' && text.last() == '\\' {
        let line = text.push(' ');
        assert(line.skip(line.len() - 2) =~= mark);
    }
}

/// A `./` before the directory of the patterns is dropped, and nothing else is.
pub proof fn lemma_pattern_root(dir: Seq<char>)
    ensures
        pattern_root(seq!['.', '/'] + dir) == dir,
        !seq!['.', '/'].is_prefix_of(dir) ==> pattern_root(dir) == dir,
{
    reveal_strlit("./");
    assert("./"@ =~= seq!['.', '/']);
    let whole = seq!['.', '/'] + dir;
    assert(whole.take(2) =~= seq!['.', '/']);
    assert(whole.skip(2) =~= dir);
}

/// A list of removals has as many members, each with its path and whether that
/// is a directory; and so has a list of bad lines, each with its number and what
/// is wrong with it.
pub proof fn lemma_lists(list: Seq<Removal>, bad: Seq<BadLine>)
    ensures
        removal_views(list).len() == list.len(),
        forall|i: int| 0 <= i < list.len() ==> #[trigger] removal_views(list)[i] == (list[i].path@, list[i].is_dir),
        bad_views(bad).len() == bad.len(),
        forall|i: int| 0 <= i < bad.len() ==> (#[trigger] bad_views(bad)[i]).0 == bad[i].number,
        forall|i: int|
            0 <= i < bad.len() ==> match bad[i].problem {
                Problem::NotText => (#[trigger] bad_views(bad)[i]).1 is None,
                Problem::Pattern(message) => bad_views(bad)[i].1 == Some(message@),
            },
{
}

} // verus!
