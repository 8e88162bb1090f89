//! Unix paths as rows of bytes.
//!
//! Two rows of bytes name the same path when they have the same components:
//! repeated separators, a separator at the end, and a `.` anywhere but at the
//! start of a relative path do not count.
use crate::bytes::{contents, equal, lemma_split_concat, lemma_split_last, lemma_split_nonempty, lemma_split_whole, split, split_at_each};
use vstd::prelude::*;
use vstd::slice::{slice_subrange, slice_to_vec};

verus! {

/// The separator `/`.
pub const SEPARATOR: u8 = 0x2f;

/// The byte `.`.
pub const DOT: u8 = 0x2e;

/// A component of a path.
pub enum Component {
    /// The root that an absolute path starts from.
    Root,
    /// The `.` that a relative path starts from.
    Current,
    /// A `..`.
    Up,
    /// A name.
    Normal(Seq<u8>),
}

/// Whether a piece between two separators stands for no component.
pub open spec fn is_slack(piece: Seq<u8>) -> bool {
    piece == Seq::<u8>::empty() || piece == seq![DOT]
}

/// The component that a piece between two separators stands for.
pub open spec fn component_of(piece: Seq<u8>) -> Component {
    if piece == seq![DOT, DOT] {
        Component::Up
    } else {
        Component::Normal(piece)
    }
}

/// The components that the pieces stand for, one after the other.
pub open spec fn named(pieces: Seq<Seq<u8>>) -> Seq<Component>
    decreases pieces.len(),
{
    if pieces.len() == 0 {
        Seq::empty()
    } else if is_slack(pieces.last()) {
        named(pieces.drop_last())
    } else {
        named(pieces.drop_last()).push(component_of(pieces.last()))
    }
}

/// Whether the path starts from the root.
pub open spec fn is_absolute(p: Seq<u8>) -> bool {
    p.len() > 0 && p[0] == SEPARATOR
}

/// Whether the path is relative and its first piece is `.`.
pub open spec fn starts_with_dot(p: Seq<u8>) -> bool {
    p.len() > 0 && p[0] == DOT && (p.len() == 1 || p[1] == SEPARATOR)
}

/// What the path starts from, if it says so.
pub open spec fn origin(p: Seq<u8>) -> Seq<Component> {
    if is_absolute(p) {
        seq![Component::Root]
    } else if starts_with_dot(p) {
        seq![Component::Current]
    } else {
        Seq::empty()
    }
}

/// The components of a path.
pub open spec fn components(p: Seq<u8>) -> Seq<Component> {
    origin(p) + named(split(p, SEPARATOR))
}

/// The name that a path ends in, if it ends in one.
pub open spec fn last_name(p: Seq<u8>) -> Option<Seq<u8>> {
    if components(p).len() > 0 {
        match components(p).last() {
            Component::Normal(n) => Some(n),
            _ => None,
        }
    } else {
        None
    }
}

/// Whether the path has a parent: it has a last component, and that is not the
/// root.
pub open spec fn has_parent(p: Seq<u8>) -> bool {
    components(p).len() > 0 && components(p).last() !is Root
}

/// Whether nothing at the end of `p` could be left out.
pub open spec fn is_trimmed(p: Seq<u8>) -> bool {
    ||| p.len() == 0
    ||| p == seq![SEPARATOR]
    ||| p == seq![DOT]
    ||| !is_slack(split(p, SEPARATOR).last())
}

/// Whether `q` is the parent of `p`: the part of `p` that holds all its
/// components but the last, without what could be left out at its end.
pub open spec fn is_parent(p: Seq<u8>, q: Seq<u8>) -> bool {
    &&& has_parent(p)
    &&& q.is_prefix_of(p)
    &&& components(q) == components(p).drop_last()
    &&& is_trimmed(q)
}

/// `tail` taken from the directory `base`; an absolute `tail` stands alone.
pub open spec fn joined(base: Seq<u8>, tail: Seq<u8>) -> Seq<u8> {
    if is_absolute(tail) {
        tail
    } else if base.len() > 0 && base.last() != SEPARATOR {
        base.push(SEPARATOR) + tail
    } else {
        base + tail
    }
}

/// Whether `p` lies below the directory `dir`: it goes on from the components
/// of `dir` by names alone.
pub open spec fn is_below(dir: Seq<u8>, p: Seq<u8>) -> bool {
    &&& components(dir).len() < components(p).len()
    &&& components(p).take(components(dir).len() as int) == components(dir)
    &&& forall|i: int|
        components(dir).len() <= i < components(p).len() ==> #[trigger] components(p)[i] is Normal
}

/// Whether `p` is `dir` or lies below it.
pub open spec fn is_within(dir: Seq<u8>, p: Seq<u8>) -> bool {
    &&& components(dir).len() <= components(p).len()
    &&& components(p).take(components(dir).len() as int) == components(dir)
    &&& forall|i: int|
        components(dir).len() <= i < components(p).len() ==> #[trigger] components(p)[i] is Normal
}

/// Every path lies within itself.
pub proof fn lemma_within_itself(p: Seq<u8>)
    ensures
        is_within(p, p),
{
    assert(components(p).take(components(p).len() as int) =~= components(p));
}

/// What lies within a path that lies within a directory lies within the
/// directory.
pub proof fn lemma_within_transitive(a: Seq<u8>, b: Seq<u8>, c: Seq<u8>)
    requires
        is_within(a, b),
        is_within(b, c),
    ensures
        is_within(a, c),
{
    let n = components(a).len();
    let m = components(b).len();
    assert(components(c).take(n as int) =~= components(c).take(m as int).take(n as int));
    assert forall|i: int| n <= i < components(c).len() implies #[trigger] components(c)[i] is Normal by {
        if i < m {
            assert(components(b)[i] is Normal);
            assert(components(c)[i] == components(c).take(m as int)[i]);
        }
    }
}

/// What lies within a path that lies below a directory lies below the
/// directory, and so does what lies below a path within it.
pub proof fn lemma_within_below(a: Seq<u8>, b: Seq<u8>, c: Seq<u8>)
    requires
        is_within(a, b),
        is_within(b, c),
        is_below(a, b) || is_below(b, c),
    ensures
        is_below(a, c),
        is_within(a, c),
{
    lemma_within_transitive(a, b, c);
}

pub proof fn lemma_named_concat(a: Seq<Seq<u8>>, b: Seq<Seq<u8>>)
    ensures
        named(a + b) == named(a) + named(b),
    decreases b.len(),
{
    if b.len() == 0 {
        assert(a + b =~= a);
        assert(named(a) + named(b) =~= named(a));
    } else {
        lemma_named_concat(a, b.drop_last());
        assert((a + b).drop_last() =~= a + b.drop_last());
        assert((a + b).last() == b.last());
        assert(named(a + b) =~= named(a) + named(b));
    }
}

/// One piece stands for one component, or for none.
pub proof fn lemma_named_one(piece: Seq<u8>)
    ensures
        named(seq![piece]) == (if is_slack(piece) { Seq::<Component>::empty() } else { seq![component_of(piece)] }),
{
    let one = seq![piece];
    assert(one.drop_last() =~= Seq::<Seq<u8>>::empty());
    assert(named(Seq::<Seq<u8>>::empty()) =~= Seq::<Component>::empty());
    assert(one.last() == piece);
    assert(Seq::<Component>::empty().push(component_of(piece)) =~= seq![component_of(piece)]);
}

/// The bare origins have no other component.
proof fn lemma_bare_components()
    ensures
        components(Seq::<u8>::empty()) == Seq::<Component>::empty(),
        components(seq![SEPARATOR]) == seq![Component::Root],
        components(seq![DOT]) == seq![Component::Current],
{
    let empty = Seq::<u8>::empty();
    lemma_split_whole(empty, SEPARATOR);
    lemma_named_one(empty);
    assert(components(empty) =~= Seq::<Component>::empty());
    let slash = seq![SEPARATOR];
    assert(empty.push(SEPARATOR) + empty =~= slash);
    lemma_split_concat(empty, empty, SEPARATOR);
    lemma_named_concat(split(empty, SEPARATOR), split(empty, SEPARATOR));
    assert(components(slash) =~= seq![Component::Root]);
    let dot = seq![DOT];
    assert(!dot.contains(SEPARATOR));
    lemma_split_whole(dot, SEPARATOR);
    lemma_named_one(dot);
    assert(components(dot) =~= seq![Component::Current]);
}

/// The length of what a path starts from.
spec fn origin_len(p: Seq<u8>) -> int {
    if is_absolute(p) || starts_with_dot(p) {
        1
    } else {
        0
    }
}

/// Whether a cut at `end` falls between two pieces.
spec fn is_cut(p: Seq<u8>, end: int) -> bool {
    0 <= end <= p.len() && (end == p.len() || p[end] == SEPARATOR || end == origin_len(p))
}

/// Taking the last piece off the end of a path takes off its component.
proof fn lemma_last_piece(p: Seq<u8>, end: int, cut: int, from: int)
    requires
        origin_len(p) < end <= p.len(),
        end == p.len() || p[end] == SEPARATOR,
        origin_len(p) <= cut <= from <= end,
        forall|j: int| from <= j < end ==> p[j] != SEPARATOR,
        (cut == from && cut == origin_len(p)) || (from == cut + 1 && p[cut] == SEPARATOR),
    ensures
        components(p.take(end)) == components(p.take(cut)) + named(seq![p.subrange(from, end)]),
        split(p.take(end), SEPARATOR).last() == p.subrange(from, end),
{
    let piece = p.subrange(from, end);
    let whole = p.take(end);
    assert forall|j: int| 0 <= j < piece.len() implies piece[j] != SEPARATOR by {
        assert(p[from + j] != SEPARATOR);
    }
    lemma_split_whole(piece, SEPARATOR);
    lemma_bare_components();
    if from == cut + 1 && p[cut] == SEPARATOR {
        let head = p.take(cut);
        assert(head.push(SEPARATOR) + piece =~= whole);
        lemma_split_concat(head, piece, SEPARATOR);
        lemma_named_concat(split(head, SEPARATOR), seq![piece]);
        assert(origin(whole) == origin(head)) by {
            if cut == 0 {
                assert(is_absolute(p));
            }
        }
        assert(components(whole) =~= components(head) + named(seq![piece]));
    } else if cut == 0 {
        assert(whole =~= piece);
        assert(p.take(0) =~= Seq::<u8>::empty());
        assert(origin(whole) =~= Seq::<Component>::empty());
        assert(components(whole) =~= components(p.take(0)) + named(seq![piece]));
    } else {
        assert(cut == 1);
        if starts_with_dot(p) {
            assert(p[1] == SEPARATOR);
            assert(false);
        }
        let empty = Seq::<u8>::empty();
        assert(empty.push(SEPARATOR) + piece =~= whole);
        assert(p.take(1) =~= seq![SEPARATOR]);
        lemma_split_concat(empty, piece, SEPARATOR);
        lemma_split_whole(empty, SEPARATOR);
        lemma_named_concat(seq![empty], seq![piece]);
        lemma_named_one(empty);
        assert(components(whole) =~= components(p.take(1)) + named(seq![piece]));
    }
}

/// A component of a path, as a value.
pub enum Part {
    Root,
    Current,
    Up,
    Normal(Vec<u8>),
}

impl View for Part {
    type V = Component;

    open spec fn view(&self) -> Component {
        match self {
            Part::Root => Component::Root,
            Part::Current => Component::Current,
            Part::Up => Component::Up,
            Part::Normal(n) => Component::Normal(n@),
        }
    }
}

/// The components that a list of parts stands for.
pub open spec fn part_views(parts: Seq<Part>) -> Seq<Component> {
    parts.map_values(|x: Part| x@)
}

impl Part {
    /// Whether the two stand for the same component.
    pub fn same(&self, other: &Part) -> (r: bool)
        ensures
            r == (self@ == other@),
    {
        match (self, other) {
            (Part::Root, Part::Root) => true,
            (Part::Current, Part::Current) => true,
            (Part::Up, Part::Up) => true,
            (Part::Normal(a), Part::Normal(b)) => equal(a.as_slice(), b.as_slice()),
            _ => false,
        }
    }
}

fn slack(piece: &[u8]) -> (r: bool)
    ensures
        r == is_slack(piece@),
{
    let r = piece.len() == 0 || (piece.len() == 1 && piece[0] == DOT);
    proof {
        if piece@.len() == 0 {
            assert(piece@ =~= Seq::<u8>::empty());
        }
        if piece@.len() == 1 && piece@[0] == DOT {
            assert(piece@ =~= seq![DOT]);
        }
    }
    r
}

fn part_of(piece: &[u8]) -> (r: Part)
    ensures
        r@ == component_of(piece@),
{
    if piece.len() == 2 && piece[0] == DOT && piece[1] == DOT {
        assert(piece@ =~= seq![DOT, DOT]);
        Part::Up
    } else {
        proof {
            if piece@ == seq![DOT, DOT] {
                assert(piece@[0] == DOT && piece@[1] == DOT);
            }
        }
        Part::Normal(slice_to_vec(piece))
    }
}

fn begins_with_dot(p: &[u8]) -> (r: bool)
    ensures
        r == starts_with_dot(p@),
{
    p.len() > 0 && p[0] == DOT && (p.len() == 1 || p[1] == SEPARATOR)
}

/// Whether the path starts from the root.
pub fn absolute(p: &[u8]) -> (r: bool)
    ensures
        r == is_absolute(p@),
{
    p.len() > 0 && p[0] == SEPARATOR
}

/// Takes a path apart into its components.
pub fn parts(p: &[u8]) -> (r: Vec<Part>)
    ensures
        part_views(r@) == components(p@),
{
    let pieces = split_at_each(p, SEPARATOR);
    let mut r: Vec<Part> = Vec::new();
    if absolute(p) {
        r.push(Part::Root);
    } else if begins_with_dot(p) {
        r.push(Part::Current);
    }
    let ghost pv = contents(pieces@);
    assert(part_views(r@) =~= origin(p@));
    assert(pv.take(0) =~= Seq::<Seq<u8>>::empty());
    assert(part_views(r@) =~= origin(p@) + named(pv.take(0)));
    let mut i: usize = 0;
    while i < pieces.len()
        invariant
            i <= pieces.len(),
            pv == contents(pieces@),
            part_views(r@) == origin(p@) + named(pv.take(i as int)),
        decreases pieces.len() - i,
    {
        let ghost before = part_views(r@);
        let piece: &[u8] = pieces[i].as_slice();
        proof {
            assert(pv.take(i + 1).drop_last() =~= pv.take(i as int));
            assert(pv.take(i + 1).last() == piece@);
        }
        if !slack(piece) {
            let part = part_of(piece);
            r.push(part);
            assert(part_views(r@) =~= before.push(component_of(piece@)));
            assert(part_views(r@) =~= origin(p@) + named(pv.take(i + 1)));
        }
        i = i + 1;
    }
    assert(pv.take(i as int) =~= pv);
    r
}

/// Whether the two rows of bytes name the same path.
pub fn same_path(a: &[u8], b: &[u8]) -> (r: bool)
    ensures
        r == (components(a@) == components(b@)),
{
    let x = parts(a);
    let y = parts(b);
    if x.len() != y.len() {
        assert(part_views(x@).len() != part_views(y@).len());
        return false;
    }
    let mut i: usize = 0;
    while i < x.len()
        invariant
            i <= x.len(),
            x.len() == y.len(),
            part_views(x@) == components(a@),
            part_views(y@) == components(b@),
            forall|j: int| 0 <= j < i ==> x@[j]@ == y@[j]@,
        decreases x.len() - i,
    {
        if !x[i].same(&y[i]) {
            assert(part_views(x@)[i as int] != part_views(y@)[i as int]);
            return false;
        }
        i = i + 1;
    }
    assert(part_views(x@) =~= part_views(y@));
    true
}

/// The name that a path ends in: nothing for the root, for `..`, and for a
/// path without components.
pub fn file_name(p: &[u8]) -> (r: Option<Vec<u8>>)
    ensures
        match r {
            Some(n) => last_name(p@) == Some(n@),
            None => last_name(p@) is None,
        },
{
    let mut all = parts(p);
    let ghost before = all@;
    match all.pop() {
        Some(part) => {
            assert(part@ == part_views(before).last());
            match part {
                Part::Normal(n) => Some(n),
                _ => None,
            }
        },
        None => None,
    }
}

/// `tail` taken from the directory `base`.
pub fn join(base: &[u8], tail: &[u8]) -> (r: Vec<u8>)
    ensures
        r@ == joined(base@, tail@),
{
    if absolute(tail) {
        slice_to_vec(tail)
    } else {
        let mut r = slice_to_vec(base);
        if base.len() > 0 && base[base.len() - 1] != SEPARATOR {
            r.push(SEPARATOR);
        }
        let ghost head = r@;
        r.extend_from_slice(tail);
        assert(r@ =~= head + tail@);
        r
    }
}

/// The cut before the last piece that ends at `end`, and where that piece
/// begins.
fn last_cut(p: &[u8], start: usize, end: usize) -> (r: (usize, usize))
    requires
        start == origin_len(p@),
        start < end <= p.len(),
    ensures
        start <= r.0 <= r.1 <= end,
        r.0 < end,
        forall|j: int| r.1 <= j < end ==> p@[j] != SEPARATOR,
        (r.0 == r.1 && r.0 == start) || (r.1 == r.0 + 1 && p@[r.0 as int] == SEPARATOR),
{
    let mut i: usize = end;
    while i > start
        invariant
            start <= i <= end <= p.len(),
            forall|j: int| i <= j < end ==> p@[j] != SEPARATOR,
        decreases i,
    {
        if p[i - 1] == SEPARATOR {
            return (i - 1, i);
        }
        i = i - 1;
    }
    (start, start)
}

/// The end of `p` once what could be left out before `end` is left out.
fn trim_slack(p: &[u8], start: usize, end: usize) -> (r: usize)
    requires
        start == origin_len(p@),
        start <= end,
        is_cut(p@, end as int),
    ensures
        start <= r <= end,
        is_cut(p@, r as int),
        components(p@.take(r as int)) == components(p@.take(end as int)),
        r == start || !is_slack(split(p@.take(r as int), SEPARATOR).last()),
{
    let mut e: usize = end;
    while e > start
        invariant
            start <= e <= end <= p.len(),
            start == origin_len(p@),
            is_cut(p@, e as int),
            components(p@.take(e as int)) == components(p@.take(end as int)),
        decreases e,
    {
        let (cut, from) = last_cut(p, start, e);
        let piece: &[u8] = slice_subrange(p, from, e);
        proof {
            lemma_last_piece(p@, e as int, cut as int, from as int);
            lemma_named_one(piece@);
        }
        if !slack(piece) {
            return e;
        }
        assert(components(p@.take(cut as int)) + Seq::<Component>::empty() =~= components(p@.take(cut as int)));
        e = cut;
    }
    e
}

/// The path without its last component. The root has no parent, nor has a path
/// without components.
pub fn parent(p: &[u8]) -> (r: Option<Vec<u8>>)
    ensures
        match r {
            Some(q) => is_parent(p@, q@),
            None => !has_parent(p@),
        },
{
    let start: usize = if absolute(p) || begins_with_dot(p) { 1 } else { 0 };
    let ghost full = components(p@);
    proof {
        assert(p@.take(p.len() as int) =~= p@);
        lemma_bare_components();
        assert(p@.take(0) =~= Seq::<u8>::empty());
        if is_absolute(p@) {
            assert(p@.take(1) =~= seq![SEPARATOR]);
        } else if starts_with_dot(p@) {
            assert(p@.take(1) =~= seq![DOT]);
        }
    }
    let last_end = trim_slack(p, start, p.len());
    if last_end == start {
        if begins_with_dot(p) {
            let r: Vec<u8> = Vec::new();
            proof {
                assert(r@ =~= Seq::<u8>::empty());
                assert(full =~= seq![Component::Current]);
                assert(full.drop_last() =~= Seq::<Component>::empty());
            }
            return Some(r);
        }
        return None;
    }
    let (cut, from) = last_cut(p, start, last_end);
    proof {
        let piece = p@.subrange(from as int, last_end as int);
        lemma_last_piece(p@, last_end as int, cut as int, from as int);
        lemma_named_one(piece);
        assert(full == components(p@.take(cut as int)) + seq![component_of(piece)]);
        assert(full.drop_last() =~= components(p@.take(cut as int)));
        assert(full.last() == component_of(piece));
    }
    let end = trim_slack(p, start, cut);
    let r = slice_to_vec(slice_subrange(p, 0, end));
    assert(r@ =~= p@.take(end as int));
    Some(r)
}

/// Going on from a directory by a relative path that does not start with a `.`
/// adds the components of the one to those of the other.
pub proof fn lemma_joined_components(base: Seq<u8>, tail: Seq<u8>)
    requires
        !is_absolute(tail),
        !starts_with_dot(tail),
    ensures
        components(joined(base, tail)) == components(base) + components(tail),
{
    let both = joined(base, tail);
    lemma_bare_components();
    if base.len() == 0 {
        assert(both =~= tail);
        assert(base =~= Seq::<u8>::empty());
        assert(components(both) =~= components(base) + components(tail));
    } else if base.last() != SEPARATOR {
        lemma_split_concat(base, tail, SEPARATOR);
        lemma_named_concat(split(base, SEPARATOR), split(tail, SEPARATOR));
        assert(origin(both) == origin(base));
        assert(components(both) =~= components(base) + components(tail));
    } else {
        let head = base.drop_last();
        let empty = Seq::<u8>::empty();
        assert(head.push(SEPARATOR) + empty =~= base);
        assert(head.push(SEPARATOR) + tail =~= both);
        lemma_split_concat(head, empty, SEPARATOR);
        lemma_split_concat(head, tail, SEPARATOR);
        lemma_split_whole(empty, SEPARATOR);
        lemma_named_one(empty);
        lemma_named_concat(split(head, SEPARATOR), seq![empty]);
        lemma_named_concat(split(head, SEPARATOR), split(tail, SEPARATOR));
        assert(origin(both) == origin(base));
        assert(components(both) =~= components(base) + components(tail));
    }
}

/// Whether `n` can be the name of an entry of a directory.
pub open spec fn is_entry_name(n: Seq<u8>) -> bool {
    &&& !is_slack(n)
    &&& n != seq![DOT, DOT]
    &&& !n.contains(SEPARATOR)
}

/// The path of an entry of a directory goes on from the directory by the name
/// of the entry.
pub proof fn lemma_entry_components(dir: Seq<u8>, n: Seq<u8>)
    requires
        is_entry_name(n),
    ensures
        components(joined(dir, n)) == components(dir).push(Component::Normal(n)),
        last_name(joined(dir, n)) == Some(n),
        is_below(dir, joined(dir, n)),
{
    lemma_split_whole(n, SEPARATOR);
    lemma_named_one(n);
    assert(n.len() > 0) by {
        if n.len() == 0 {
            assert(n =~= Seq::<u8>::empty());
        }
    }
    assert(n[0] != SEPARATOR);
    assert(!starts_with_dot(n)) by {
        if starts_with_dot(n) {
            if n.len() == 1 {
                assert(n =~= seq![DOT]);
            } else {
                assert(n[1] != SEPARATOR);
            }
        }
    }
    lemma_joined_components(dir, n);
    assert(components(n) =~= seq![Component::Normal(n)]);
    assert(components(joined(dir, n)) =~= components(dir).push(Component::Normal(n)));
    assert(components(joined(dir, n)).take(components(dir).len() as int) =~= components(dir));
}

/// The names by which the components go on after the first `from`.
pub open spec fn names_from(all: Seq<Component>, from: int) -> Seq<Seq<u8>> {
    Seq::new(
        (all.len() - from) as nat,
        |i: int| match all[from + i] {
            Component::Normal(n) => n,
            _ => Seq::empty(),
        },
    )
}

/// The path of `p` as seen from the directory `dir` that it lies below.
pub open spec fn relative(dir: Seq<u8>, p: Seq<u8>) -> Seq<u8> {
    crate::bytes::join(names_from(components(p), components(dir).len() as int), SEPARATOR)
}

/// The path of `p` as seen from `dir`, if it lies below it.
pub fn strip_dir(dir: &[u8], p: &[u8]) -> (r: Option<Vec<u8>>)
    ensures
        match r {
            Some(rest) => is_below(dir@, p@) && rest@ == relative(dir@, p@),
            None => !is_below(dir@, p@),
        },
{
    let x = parts(dir);
    let y = parts(p);
    let ghost dirs = components(dir@);
    let ghost all = components(p@);
    if x.len() >= y.len() {
        return None;
    }
    let mut i: usize = 0;
    while i < x.len()
        invariant
            i <= x.len() < y.len(),
            part_views(x@) == dirs,
            part_views(y@) == all,
            dirs == components(dir@),
            all == components(p@),
            forall|j: int| 0 <= j < i ==> all[j] == dirs[j],
        decreases x.len() - i,
    {
        assert(dirs[i as int] == x@[i as int]@);
        assert(all[i as int] == y@[i as int]@);
        if !x[i].same(&y[i]) {
            assert(all.take(dirs.len() as int)[i as int] != dirs[i as int]);
            return None;
        }
        i = i + 1;
    }
    assert(all.take(dirs.len() as int) =~= dirs);
    let mut r: Vec<u8> = Vec::new();
    let ghost names = names_from(all, dirs.len() as int);
    assert(names.take(0) =~= Seq::<Seq<u8>>::empty());
    while i < y.len()
        invariant
            x.len() <= i <= y.len(),
            part_views(y@) == all,
            dirs == components(dir@),
            all == components(p@),
            dirs.len() == x.len(),
            names == names_from(all, dirs.len() as int),
            forall|j: int| dirs.len() <= j < i ==> #[trigger] all[j] is Normal,
            r@ == crate::bytes::join(names.take(i - dirs.len()), SEPARATOR),
        decreases y.len() - i,
    {
        assert(all[i as int] == y@[i as int]@);
        match &y[i] {
            Part::Normal(n) => {
                proof {
                    let k = i - dirs.len();
                    assert(names.take(k + 1).drop_last() =~= names.take(k));
                    assert(names.take(k + 1).last() == n@);
                }
                if i > x.len() {
                    r.push(SEPARATOR);
                }
                let ghost head = r@;
                r.extend_from_slice(n.as_slice());
                assert(r@ =~= head + n@);
                proof {
                    if i == x.len() {
                        assert(r@ =~= names.take(1)[0]);
                    }
                }
            },
            _ => {
                return None;
            },
        }
        i = i + 1;
    }
    assert(names.take(i - dirs.len()) =~= names);
    Some(r)
}

proof fn lemma_count_push(p: Seq<u8>, b: u8)
    ensures
        components(p).len() <= components(p.push(b)).len(),
{
    let q = p.push(b);
    let before = split(p, SEPARATOR);
    let now = split(q, SEPARATOR);
    lemma_split_nonempty(p, SEPARATOR);
    assert(q.drop_last() =~= p);
    if b == SEPARATOR {
        assert(now.drop_last() =~= before);
    } else {
        assert(now.drop_last() =~= before.drop_last());
        assert(now.last() == before.last().push(b));
        if !is_slack(before.last()) {
            assert(before.last().len() > 0) by {
                if before.last().len() == 0 {
                    assert(before.last() =~= Seq::<u8>::empty());
                }
            }
            assert(!is_slack(now.last()));
        }
    }
    if p.len() == 0 {
        assert(p =~= Seq::<u8>::empty());
        lemma_bare_components();
    } else if p.len() == 1 && p[0] == DOT {
        assert(p =~= seq![DOT]);
        assert(!p.contains(SEPARATOR));
        lemma_split_whole(p, SEPARATOR);
        lemma_bare_components();
    }
}

/// The start of a path has no more components than the path.
proof fn lemma_count_prefix(p: Seq<u8>, k: int)
    requires
        0 <= k <= p.len(),
    ensures
        components(p.take(k)).len() <= components(p).len(),
    decreases p.len() - k,
{
    if k < p.len() {
        lemma_count_prefix(p, k + 1);
        lemma_count_push(p.take(k), p[k]);
        assert(p.take(k).push(p[k]) =~= p.take(k + 1));
    } else {
        assert(p.take(k) =~= p);
    }
}

proof fn lemma_no_shorter(p: Seq<u8>, q: Seq<u8>)
    requires
        p.is_prefix_of(q),
        p.len() < q.len(),
        is_trimmed(p),
        is_trimmed(q),
    ensures
        components(p) != components(q),
{
    lemma_bare_components();
    let k = p.len() as int;
    assert(p =~= q.take(k));
    let last = split(q, SEPARATOR).last();
    lemma_split_last(q, SEPARATOR);
    if is_slack(last) {
        assert(p =~= Seq::<u8>::empty());
    } else {
        let from = q.len() - last.len();
        assert(last =~= q.subrange(from, q.len() as int));
        assert forall|j: int| from <= j < q.len() implies q[j] != SEPARATOR by {
            assert(last[j - from] == q[j]);
        }
        assert(origin_len(q) <= from) by {
            if from == 0 {
                assert(q =~= last);
                if starts_with_dot(q) {
                    assert(last =~= seq![DOT]);
                }
            }
        }
        let cut = if from == origin_len(q) { from } else { from - 1 };
        assert(last.len() > 0) by {
            if last.len() == 0 {
                assert(last =~= Seq::<u8>::empty());
            }
        }
        lemma_last_piece(q, q.len() as int, cut, from);
        lemma_named_one(last);
        assert(q.take(q.len() as int) =~= q);
        if k <= cut {
            lemma_count_prefix(q.take(cut), k);
            assert(q.take(cut).take(k) =~= p);
        } else if k == from {
            lemma_split_last(p, SEPARATOR);
            assert(p.last() == SEPARATOR);
            assert(split(p, SEPARATOR).last() =~= Seq::<u8>::empty()) by {
                if split(p, SEPARATOR).last().len() > 0 {
                    let piece = split(p, SEPARATOR).last();
                    assert(piece[piece.len() - 1] == p.last());
                }
            }
            assert(false);
        } else if k == 1 && p[0] == DOT {
            assert(p =~= seq![DOT]);
            assert(q.take(0) =~= Seq::<u8>::empty());
            assert(components(q)[0] == component_of(last));
        } else {
            let piece = p.subrange(from, k);
            lemma_last_piece(p, k, cut, from);
            lemma_named_one(piece);
            assert(p.take(k) =~= p);
            assert(p.take(cut) =~= q.take(cut));
            if components(p) == components(q) {
                assert(components(p).last() == component_of(piece));
                assert(components(q).last() == component_of(last));
                assert(piece.len() < last.len());
            }
        }
    }
}

/// A path has at most one parent.
pub proof fn lemma_parent_unique(p: Seq<u8>, a: Seq<u8>, b: Seq<u8>)
    requires
        is_parent(p, a),
        is_parent(p, b),
    ensures
        a == b,
{
    assert(a =~= p.take(a.len() as int));
    assert(b =~= p.take(b.len() as int));
    if a.len() < b.len() {
        lemma_no_shorter(a, b);
    } else if b.len() < a.len() {
        lemma_no_shorter(b, a);
    }
}

/// How paths are put together, byte by byte: an absolute tail stands alone, and
/// otherwise there is a slash between the two, unless the first is empty or has
/// one at its end.
pub proof fn lemma_joined_bytes(base: Seq<u8>, tail: Seq<u8>)
    ensures
        tail.len() > 0 && tail[0] == 0x2f ==> joined(base, tail) == tail,
        (tail.len() == 0 || tail[0] != 0x2f) && base.len() > 0 && base.last() != 0x2f ==> joined(base, tail)
            == base + seq![0x2fu8] + tail,
        (tail.len() == 0 || tail[0] != 0x2f) && (base.len() == 0 || base.last() == 0x2f) ==> joined(base, tail)
            == base + tail,
{
    assert(base.push(SEPARATOR) + tail =~= base + seq![0x2fu8] + tail);
}

/// What the parts of a path stand for: an empty path has no components, a slash
/// at the start is the root, `..` goes up, and neither a `.` nor a slash at the
/// end of a path that holds something adds anything.
pub proof fn lemma_component_parts(dir: Seq<u8>)
    ensures
        components(Seq::<u8>::empty()) == Seq::<Component>::empty(),
        components(seq![0x2fu8]) == seq![Component::Root],
        components(seq![0x2eu8]) == seq![Component::Current],
        components(joined(dir, seq![0x2eu8, 0x2eu8])) == components(dir).push(Component::Up),
        dir.len() > 0 ==> components(joined(dir, seq![0x2eu8])) == components(dir),
        dir.len() > 0 ==> components(dir.push(0x2f)) == components(dir),
        last_name(joined(dir, seq![0x2eu8, 0x2eu8])) is None,
        last_name(seq![0x2fu8]) is None,
        last_name(Seq::<u8>::empty()) is None,
{
    lemma_bare_components();
    let empty = Seq::<u8>::empty();
    let up = seq![DOT, DOT];
    let dot = seq![DOT];
    assert(!up.contains(SEPARATOR));
    lemma_split_whole(up, SEPARATOR);
    lemma_named_one(up);
    assert(up.len() == 2 && dot.len() == 1);
    assert(!is_slack(up));
    assert(components(up) =~= seq![Component::Up]);
    lemma_joined_components(dir, up);
    assert(components(joined(dir, up)) =~= components(dir).push(Component::Up));
    if dir.len() > 0 {
        lemma_split_whole(empty, SEPARATOR);
        lemma_named_one(empty);
        assert(dir.push(SEPARATOR) + empty =~= dir.push(SEPARATOR));
        lemma_split_concat(dir, empty, SEPARATOR);
        lemma_named_concat(split(dir, SEPARATOR), seq![empty]);
        assert(origin(dir.push(SEPARATOR)) == origin(dir));
        assert(components(dir.push(SEPARATOR)) =~= components(dir));
        assert(!dot.contains(SEPARATOR));
        lemma_split_whole(dot, SEPARATOR);
        lemma_named_one(dot);
        let both = joined(dir, dot);
        if dir.last() != SEPARATOR {
            lemma_split_concat(dir, dot, SEPARATOR);
            lemma_named_concat(split(dir, SEPARATOR), seq![dot]);
            assert(origin(both) == origin(dir));
            assert(components(both) =~= components(dir));
        } else {
            let head = dir.drop_last();
            assert(head.push(SEPARATOR) + empty =~= dir);
            assert(head.push(SEPARATOR) + dot =~= both);
            lemma_split_concat(head, empty, SEPARATOR);
            lemma_split_concat(head, dot, SEPARATOR);
            lemma_named_concat(split(head, SEPARATOR), seq![empty]);
            lemma_named_concat(split(head, SEPARATOR), seq![dot]);
            assert(origin(both) == origin(dir));
            assert(components(both) =~= components(dir));
        }
    }
}

/// To lie below a directory is to go on from it by at least one name, and to lie
/// within it by any number of names.
pub proof fn lemma_below_by_names(dir: Seq<u8>, p: Seq<u8>, names: Seq<Seq<u8>>)
    requires
        components(p) == components(dir) + names.map_values(|n: Seq<u8>| Component::Normal(n)),
    ensures
        is_within(dir, p),
        is_below(dir, p) <==> names.len() > 0,
{
    assert(components(p).take(components(dir).len() as int) =~= components(dir));
}

/// What does not go on from a directory by names alone does not lie within it.
pub proof fn lemma_within_has_names(dir: Seq<u8>, p: Seq<u8>) -> (names: Seq<Seq<u8>>)
    requires
        is_within(dir, p),
    ensures
        components(p) == components(dir) + names.map_values(|n: Seq<u8>| Component::Normal(n)),
        is_below(dir, p) <==> names.len() > 0,
{
    let names = names_from(components(p), components(dir).len() as int);
    let normal = |n: Seq<u8>| Component::Normal(n);
    assert forall|i: int| 0 <= i < components(p).len() implies components(p)[i] == (components(dir)
        + names.map_values(normal))[i] by {
        if i < components(dir).len() {
            assert(components(p).take(components(dir).len() as int)[i] == components(dir)[i]);
        } else {
            assert(components(p)[i] is Normal);
        }
    }
    assert(components(p) =~= components(dir) + names.map_values(normal));
    names
}

proof fn lemma_names_are_entries(pieces: Seq<Seq<u8>>, i: int)
    requires
        forall|j: int| 0 <= j < pieces.len() ==> !(#[trigger] pieces[j]).contains(SEPARATOR),
        0 <= i < named(pieces).len(),
        named(pieces)[i] is Normal,
    ensures
        is_entry_name(named(pieces)[i]->Normal_0),
    decreases pieces.len(),
{
    if pieces.len() > 0 {
        let first = pieces.drop_last();
        assert forall|j: int| 0 <= j < first.len() implies !(#[trigger] first[j]).contains(SEPARATOR) by {
            assert(first[j] == pieces[j]);
        }
        if !is_slack(pieces.last()) && i == named(pieces).len() - 1 {
            assert(pieces.last() == pieces[pieces.len() - 1]);
        } else {
            lemma_names_are_entries(first, i);
        }
    }
}

proof fn lemma_joined_names(names: Seq<Seq<u8>>)
    requires
        names.len() > 0,
        forall|i: int| 0 <= i < names.len() ==> is_entry_name(#[trigger] names[i]),
    ensures
        components(crate::bytes::join(names, SEPARATOR)) == names.map_values(|n: Seq<u8>| Component::Normal(n)),
        !is_absolute(crate::bytes::join(names, SEPARATOR)),
        !starts_with_dot(crate::bytes::join(names, SEPARATOR)),
        crate::bytes::join(names, SEPARATOR).len() > 0,
        crate::bytes::join(names, SEPARATOR).last() != SEPARATOR,
    decreases names.len(),
{
    let normal = |n: Seq<u8>| Component::Normal(n);
    let last = names.last();
    assert(is_entry_name(names[names.len() - 1]));
    assert(last.len() > 0) by {
        if last.len() == 0 {
            assert(last =~= Seq::<u8>::empty());
        }
    }
    assert(last[last.len() - 1] != SEPARATOR);
    let whole = crate::bytes::join(names, SEPARATOR);
    if names.len() == 1 {
        let empty = Seq::<u8>::empty();
        lemma_entry_components(empty, last);
        lemma_bare_components();
        assert(whole == last);
        assert(last[0] != SEPARATOR);
        if starts_with_dot(last) {
            if last.len() > 1 {
                assert(last[1] != SEPARATOR);
            }
            assert(last =~= seq![DOT]);
        }
        assert(joined(empty, last) =~= last);
        assert(components(whole) =~= names.map_values(normal));
    } else {
        let first = names.drop_last();
        assert forall|i: int| 0 <= i < first.len() implies is_entry_name(#[trigger] first[i]) by {
            assert(first[i] == names[i]);
        }
        lemma_joined_names(first);
        let head = crate::bytes::join(first, SEPARATOR);
        assert(whole == head.push(SEPARATOR) + last);
        lemma_entry_components(head, last);
        assert(last[0] != SEPARATOR);
        assert(joined(head, last) == whole);
        assert(components(whole) =~= names.map_values(normal));
        assert(whole.last() == last.last());
        assert(whole[0] == head[0]);
        if starts_with_dot(whole) {
            if head.len() == 1 {
                assert(starts_with_dot(head));
            } else {
                assert(whole[1] == head[1]);
                assert(starts_with_dot(head));
            }
        }
    }
}

/// The path of something as seen from a directory leads back to it when it is
/// taken from the directory.
pub proof fn lemma_relative_leads_back(dir: Seq<u8>, p: Seq<u8>)
    requires
        is_below(dir, p),
    ensures
        components(joined(dir, relative(dir, p))) == components(p),
        !is_absolute(relative(dir, p)),
{
    let n = components(dir).len() as int;
    let names = names_from(components(p), n);
    let normal = |n: Seq<u8>| Component::Normal(n);
    let pieces = split(p, SEPARATOR);
    crate::bytes::lemma_split_join(p, SEPARATOR);
    let o = origin(p).len();
    assert forall|i: int| 0 <= i < names.len() implies is_entry_name(#[trigger] names[i]) by {
        let c = components(p)[n + i];
        assert(c is Normal);
        assert(n + i >= o) by {
            if n + i < o {
                assert(c == origin(p)[n + i]);
            }
        }
        assert(c == named(pieces)[n + i - o]);
        lemma_names_are_entries(pieces, n + i - o);
    }
    lemma_joined_names(names);
    lemma_joined_components(dir, relative(dir, p));
    assert forall|i: int| 0 <= i < components(p).len() implies components(p)[i] == (components(dir)
        + names.map_values(normal))[i] by {
        if i < n {
            assert(components(p).take(n)[i] == components(dir)[i]);
        } else {
            assert(components(p)[i] is Normal);
        }
    }
    assert(components(p) =~= components(dir) + names.map_values(normal));
}

/// The parent of an entry of a directory is the directory, where nothing could
/// be left out at the end of it.
pub proof fn lemma_parent_of_entry(dir: Seq<u8>, n: Seq<u8>, q: Seq<u8>)
    requires
        is_entry_name(n),
        is_trimmed(dir),
        is_parent(joined(dir, n), q),
    ensures
        q == dir,
{
    let p = joined(dir, n);
    lemma_entry_components(dir, n);
    assert(components(p).drop_last() =~= components(dir));
    assert(n.len() > 0) by {
        if n.len() == 0 {
            assert(n =~= Seq::<u8>::empty());
        }
    }
    assert(n[0] != SEPARATOR);
    assert(dir.is_prefix_of(p));
    lemma_parent_unique(p, dir, q);
}

proof fn lemma_named_no_root(pieces: Seq<Seq<u8>>)
    ensures
        forall|i: int| 0 <= i < named(pieces).len() ==> #[trigger] named(pieces)[i] !is Root,
    decreases pieces.len(),
{
    if pieces.len() > 0 {
        lemma_named_no_root(pieces.drop_last());
    }
}

/// Every path has a parent but the empty one and those that are the root. That
/// of an entry is the directory, where nothing could be left out at its end; and
/// a bare name has one too.
pub proof fn lemma_has_parent(p: Seq<u8>, dir: Seq<u8>, n: Seq<u8>)
    ensures
        has_parent(p) <==> components(p) != Seq::<Component>::empty() && components(p) != seq![Component::Root],
        is_entry_name(n) ==> has_parent(joined(dir, n)),
        is_entry_name(n) ==> has_parent(n) && is_parent(n, Seq::<u8>::empty()),
        is_entry_name(n) && is_trimmed(dir) ==> is_parent(joined(dir, n), dir),
{
    let all = components(p);
    let names = named(split(p, SEPARATOR));
    lemma_named_no_root(split(p, SEPARATOR));
    assert(all == origin(p) + names);
    if all.len() > 0 && all.last() is Root {
        if names.len() > 0 {
            assert(all.last() == names.last());
        }
        assert(all =~= seq![Component::Root]);
    }
    if is_entry_name(n) {
        let none = Seq::<u8>::empty();
        lemma_bare_components();
        lemma_entry_components(dir, n);
        lemma_entry_components(none, n);
        assert(n.len() > 0) by {
            if n.len() == 0 {
                assert(n =~= none);
            }
        }
        assert(n.contains(n[0]));
        assert(joined(none, n) =~= n);
        assert(components(n).drop_last() =~= components(none));
        assert(none.is_prefix_of(n));
        assert(components(joined(dir, n)).drop_last() =~= components(dir));
        assert(dir.is_prefix_of(joined(dir, n)));
    }
}

} // verus!
