//! Rows of bytes: comparing them, and cutting them up at a separator.
use vstd::prelude::*;

verus! {

/// The contents of a list of byte strings.
pub open spec fn contents(v: Seq<Vec<u8>>) -> Seq<Seq<u8>> {
    v.map_values(|x: Vec<u8>| x@)
}

/// The pieces of `s` between the separators in it: one more piece than there
/// are separators, so that the empty row has one empty piece.
pub open spec fn split(s: Seq<u8>, sep: u8) -> Seq<Seq<u8>>
    decreases s.len(),
{
    if s.len() == 0 {
        seq![Seq::empty()]
    } else {
        let before = split(s.drop_last(), sep);
        if s.last() == sep {
            before.push(Seq::empty())
        } else {
            before.drop_last().push(before.last().push(s.last()))
        }
    }
}

/// The pieces one after the other with the separator between them.
pub open spec fn join(pieces: Seq<Seq<u8>>, sep: u8) -> Seq<u8>
    decreases pieces.len(),
{
    if pieces.len() == 0 {
        Seq::empty()
    } else if pieces.len() == 1 {
        pieces[0]
    } else {
        join(pieces.drop_last(), sep).push(sep) + pieces.last()
    }
}

pub proof fn lemma_split_nonempty(s: Seq<u8>, sep: u8)
    ensures
        split(s, sep).len() > 0,
    decreases s.len(),
{
    if s.len() > 0 {
        lemma_split_nonempty(s.drop_last(), sep);
    }
}

/// Cutting up a row of bytes loses nothing: put back together, the pieces give
/// the row, and no piece holds the separator.
pub proof fn lemma_split_join(s: Seq<u8>, sep: u8)
    ensures
        join(split(s, sep), sep) == s,
        forall|i: int| 0 <= i < split(s, sep).len() ==> !(#[trigger] split(s, sep)[i]).contains(sep),
    decreases s.len(),
{
    let pieces = split(s, sep);
    if s.len() > 0 {
        let t = s.drop_last();
        let before = split(t, sep);
        lemma_split_join(t, sep);
        lemma_split_nonempty(t, sep);
        if s.last() == sep {
            assert(pieces.drop_last() =~= before);
            assert(join(pieces, sep) =~= s);
        } else {
            let last = before.last().push(s.last());
            assert(pieces.drop_last() =~= before.drop_last());
            assert(pieces.last() == last);
            if before.len() == 1 {
                assert(join(pieces, sep) =~= s);
            } else {
                let head = join(before.drop_last(), sep).push(sep);
                assert(head + before.last() == t);
                assert(head + last =~= (head + before.last()).push(s.last()));
                assert(t.push(s.last()) =~= s);
                assert(join(pieces, sep) == head + last);
            }
            assert forall|i: int| 0 <= i < pieces.len() implies !(#[trigger] pieces[i]).contains(sep) by {
                if i == pieces.len() - 1 {
                    assert(!before[i].contains(sep));
                    assert forall|j: int| 0 <= j < last.len() implies last[j] != sep by {
                        if j < last.len() - 1 {
                            assert(before[i][j] == last[j]);
                        }
                    }
                } else {
                    assert(pieces[i] == before[i]);
                }
            }
        }
    } else {
        assert(join(pieces, sep) =~= s);
    }
}

/// The last piece is what follows the last separator.
pub proof fn lemma_split_last(s: Seq<u8>, sep: u8)
    ensures
        split(s, sep).last().len() <= s.len(),
        s.skip(s.len() - split(s, sep).last().len()) == split(s, sep).last(),
        !split(s, sep).last().contains(sep),
        split(s, sep).last().len() < s.len() ==> s[s.len() - split(s, sep).last().len() - 1] == sep,
    decreases s.len(),
{
    let last = split(s, sep).last();
    if s.len() > 0 {
        let t = s.drop_last();
        lemma_split_last(t, sep);
        lemma_split_nonempty(t, sep);
        if s.last() == sep {
            assert(s.skip(s.len() as int) =~= last);
        } else {
            let before = split(t, sep).last();
            let from = t.len() - before.len();
            assert(last == before.push(s.last()));
            assert(t.skip(from).push(s.last()) =~= s.skip(from));
            assert forall|i: int| 0 <= i < last.len() implies last[i] != sep by {
                if i < before.len() {
                    assert(last[i] == before[i]);
                }
            }
        }
    } else {
        assert(s.skip(0) =~= last);
    }
}

/// A row without the separator is one piece.
pub proof fn lemma_split_whole(s: Seq<u8>, sep: u8)
    requires
        !s.contains(sep),
    ensures
        split(s, sep) == seq![s],
    decreases s.len(),
{
    if s.len() > 0 {
        let t = s.drop_last();
        assert forall|i: int| 0 <= i < t.len() implies t[i] != sep by {
            assert(t[i] == s[i]);
        }
        lemma_split_whole(t, sep);
        assert(s[s.len() - 1] != sep);
        assert(t.push(s.last()) =~= s);
        assert(split(s, sep) =~= seq![s]);
    } else {
        assert(s =~= Seq::empty());
    }
}

/// A separator between two rows keeps their pieces apart.
pub proof fn lemma_split_concat(a: Seq<u8>, b: Seq<u8>, sep: u8)
    ensures
        split(a.push(sep) + b, sep) == split(a, sep) + split(b, sep),
    decreases b.len(),
{
    let s = a.push(sep) + b;
    if b.len() == 0 {
        assert(s.drop_last() =~= a);
        assert(split(s, sep) =~= split(a, sep) + split(b, sep));
    } else {
        let c = b.drop_last();
        lemma_split_concat(a, c, sep);
        lemma_split_nonempty(c, sep);
        assert(s.drop_last() =~= a.push(sep) + c);
        let before = split(a, sep) + split(c, sep);
        if s.last() == sep {
            assert(before.push(Seq::empty()) =~= split(a, sep) + split(b, sep));
        } else {
            assert(before.last() == split(c, sep).last());
            assert(before.drop_last().push(before.last().push(s.last())) =~= split(a, sep) + split(b, sep));
        }
    }
}

/// Whether the two rows of bytes are equal.
pub fn equal(a: &[u8], b: &[u8]) -> (r: bool)
    ensures
        r == (a@ == b@),
{
    if a.len() != b.len() {
        return false;
    }
    let mut i: usize = 0;
    while i < a.len()
        invariant
            i <= a.len(),
            a.len() == b.len(),
            forall|j: int| 0 <= j < i ==> a@[j] == b@[j],
        decreases a.len() - i,
    {
        if a[i] != b[i] {
            assert(a@[i as int] != b@[i as int]);
            return false;
        }
        i = i + 1;
    }
    assert(a@ =~= b@);
    true
}

/// Whether some byte string in `v` is `x`.
pub fn holds(v: &Vec<Vec<u8>>, x: &[u8]) -> (r: bool)
    ensures
        r == contents(v@).contains(x@),
{
    let mut i: usize = 0;
    while i < v.len()
        invariant
            i <= v.len(),
            forall|j: int| 0 <= j < i ==> v@[j]@ != x@,
        decreases v.len() - i,
    {
        if equal(v[i].as_slice(), x) {
            assert(contents(v@)[i as int] == x@);
            return true;
        }
        i = i + 1;
    }
    assert forall|j: int| 0 <= j < contents(v@).len() implies contents(v@)[j] != x@ by {
        assert(v@[j]@ != x@);
    }
    false
}

/// Cuts `s` up at each `sep`.
pub fn split_at_each(s: &[u8], sep: u8) -> (r: Vec<Vec<u8>>)
    ensures
        contents(r@) == split(s@, sep),
{
    let mut done: Vec<Vec<u8>> = Vec::new();
    let mut current: Vec<u8> = Vec::new();
    let mut i: usize = 0;
    assert(contents(done@).push(current@) =~= seq![Seq::empty()]);
    assert(s@.take(0) =~= Seq::empty());
    while i < s.len()
        invariant
            i <= s.len(),
            contents(done@).push(current@) == split(s@.take(i as int), sep),
        decreases s.len() - i,
    {
        let b: u8 = s[i];
        let ghost pieces = contents(done@).push(current@);
        proof {
            assert(s@.take(i + 1).drop_last() =~= s@.take(i as int));
            assert(s@.take(i + 1).last() == b);
            assert(pieces.drop_last() =~= contents(done@));
            assert(pieces.last() == current@);
        }
        if b == sep {
            done.push(current);
            current = Vec::new();
            assert(contents(done@) =~= pieces);
            assert(current@ =~= Seq::empty());
        } else {
            current.push(b);
        }
        i = i + 1;
    }
    assert(s@.take(i as int) =~= s@);
    let ghost pieces = contents(done@).push(current@);
    done.push(current);
    assert(contents(done@) =~= pieces);
    done
}

/// A list of byte strings has as many members, each the one in its place.
pub proof fn lemma_contents(v: Seq<Vec<u8>>)
    ensures
        contents(v).len() == v.len(),
        forall|i: int| 0 <= i < v.len() ==> #[trigger] contents(v)[i] == v[i]@,
{
}

} // verus!
