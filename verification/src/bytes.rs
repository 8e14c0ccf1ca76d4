//! Small operations on byte strings: appending, comparing and searching.

use vstd::prelude::*;
use vstd::slice::slice_subrange;

verus! {

/// Appends the bytes of `src` to `out`.
pub fn append(out: &mut Vec<u8>, src: &[u8])
    ensures
        final(out)@ == old(out)@ + src@,
{
    out.extend_from_slice(src);
    assert(out@ =~= old(out)@ + src@);
}

/// Tells whether two byte strings are the same.
pub fn bytes_eq(a: &[u8], b: &[u8]) -> (same: bool)
    ensures
        same == (a@ == b@),
{
    if a.len() != b.len() {
        return false;
    }
    let mut i: usize = 0;
    while i < a.len()
        invariant
            i <= a.len(),
            a.len() == b.len(),
            forall|j: int| 0 <= j < i ==> a@[j] == b@[j],
        decreases a.len() - i,
    {
        if a[i] != b[i] {
            return false;
        }
        i = i + 1;
    }
    assert(a@ =~= b@);
    true
}

/// Whether `needle` stands in `hay` at index `i`.
pub open spec fn occurs_at(hay: Seq<u8>, needle: Seq<u8>, i: int) -> bool {
    0 <= i && i + needle.len() <= hay.len() && hay.subrange(i, i + needle.len()) == needle
}

/// The first index from `from` on at which `needle` stands in `hay`.
pub open spec fn first_occurrence(hay: Seq<u8>, needle: Seq<u8>, from: int) -> Option<int>
    decreases hay.len() + 1 - from,
{
    if from < 0 || from + needle.len() > hay.len() {
        None
    } else if occurs_at(hay, needle, from) {
        Some(from)
    } else {
        first_occurrence(hay, needle, from + 1)
    }
}

/// `first_occurrence` gives an index at which the needle stands, and it
/// stands at none between `from` and that index; where it gives none, the
/// needle stands nowhere from `from` on.
pub proof fn lemma_first_occurrence(hay: Seq<u8>, needle: Seq<u8>, from: int)
    requires
        0 <= from,
    ensures
        match first_occurrence(hay, needle, from) {
            Some(at) => from <= at && occurs_at(hay, needle, at) && forall|j: int|
                from <= j < at ==> !occurs_at(hay, needle, j),
            None => forall|j: int| from <= j ==> !occurs_at(hay, needle, j),
        },
    decreases hay.len() + 1 - from,
{
    if from + needle.len() <= hay.len() && !occurs_at(hay, needle, from) {
        lemma_first_occurrence(hay, needle, from + 1);
    }
}

/// Finds the first place at which `needle` stands in `hay`.
pub fn find(hay: &[u8], needle: &[u8]) -> (r: Option<usize>)
    ensures
        match r {
            Some(at) => first_occurrence(hay@, needle@, 0) == Some(at as int),
            None => first_occurrence(hay@, needle@, 0) is None,
        },
{
    if needle.len() > hay.len() {
        return None;
    }
    let last: usize = hay.len() - needle.len();
    let mut i: usize = 0;
    loop
        invariant
            i <= last,
            last == hay.len() - needle.len(),
            first_occurrence(hay@, needle@, 0) == first_occurrence(hay@, needle@, i as int),
        decreases last - i,
    {
        if bytes_eq(slice_subrange(hay, i, i + needle.len()), needle) {
            return Some(i);
        }
        if i == last {
            return None;
        }
        i = i + 1;
    }
}

/// Where the needle stands at `at` and nowhere between `from` and `at`,
/// `first_occurrence` gives `at`.
pub proof fn lemma_first_occurrence_is(hay: Seq<u8>, needle: Seq<u8>, from: int, at: int)
    requires
        0 <= from <= at,
        occurs_at(hay, needle, at),
        forall|j: int| from <= j < at ==> !occurs_at(hay, needle, j),
    ensures
        first_occurrence(hay, needle, from) == Some(at),
    decreases at - from,
{
    if from < at {
        lemma_first_occurrence_is(hay, needle, from + 1, at);
    }
}

/// A single byte stands at an index of `hay` where `hay` holds that byte.
pub proof fn lemma_byte_occurs(hay: Seq<u8>, b: u8, i: int)
    requires
        0 <= i < hay.len(),
    ensures
        occurs_at(hay, seq![b], i) <==> hay[i] == b,
{
    let piece = hay.subrange(i, i + 1);
    assert(piece[0] == hay[i]);
    if hay[i] == b {
        assert(piece =~= seq![b]);
    } else {
        assert(seq![b][0] == b);
    }
}

/// Finds the first index at which `hay` holds the byte `b`.
pub fn find_byte(hay: &[u8], b: u8) -> (r: Option<usize>)
    ensures
        match r {
            Some(at) => first_occurrence(hay@, seq![b], 0) == Some(at as int) && at < hay@.len()
                && hay@[at as int] == b,
            None => first_occurrence(hay@, seq![b], 0) is None,
        },
{
    let mut i: usize = 0;
    while i < hay.len()
        invariant
            i <= hay.len(),
            first_occurrence(hay@, seq![b], 0) == first_occurrence(hay@, seq![b], i as int),
        decreases hay.len() - i,
    {
        proof {
            lemma_byte_occurs(hay@, b, i as int);
        }
        if hay[i] == b {
            return Some(i);
        }
        i = i + 1;
    }
    None
}

/// Tells whether `hay` holds the byte `b`.
pub fn contains_byte(hay: &[u8], b: u8) -> (r: bool)
    ensures
        r == hay@.contains(b),
{
    let mut i: usize = 0;
    while i < hay.len()
        invariant
            i <= hay.len(),
            forall|j: int| 0 <= j < i ==> hay@[j] != b,
        decreases hay.len() - i,
    {
        if hay[i] == b {
            return true;
        }
        i = i + 1;
    }
    false
}

} // verus!
