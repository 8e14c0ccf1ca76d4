//! White space in UTF-8 text, as Unicode defines it.

use vstd::prelude::*;
use vstd::slice::slice_subrange;

verus! {

/// Whether `b` is a white-space character of one byte: a space, a tab, a
/// line feed, a vertical tab, a form feed or a carriage return.
pub open spec fn is_space(b: u8) -> bool {
    b == 0x20 || (0x09 <= b <= 0x0d)
}

/// Whether the two bytes are a white-space character: U+0085 or U+00A0.
pub open spec fn is_space_of_two(a: u8, b: u8) -> bool {
    a == 0xc2 && (b == 0x85 || b == 0xa0)
}

/// Whether the three bytes are a white-space character: U+1680, one of
/// U+2000 to U+200A, U+2028, U+2029, U+202F, U+205F or U+3000.
pub open spec fn is_space_of_three(a: u8, b: u8, c: u8) -> bool {
    ||| a == 0xe1 && b == 0x9a && c == 0x80
    ||| a == 0xe2 && b == 0x80 && (0x80 <= c <= 0x8a || c == 0xa8 || c == 0xa9 || c == 0xaf)
    ||| a == 0xe2 && b == 0x81 && c == 0x9f
    ||| a == 0xe3 && b == 0x80 && c == 0x80
}

/// The number of bytes of the white-space character that `text` ends with,
/// and 0 where it ends with none.
pub open spec fn space_at_end(text: Seq<u8>) -> nat {
    let n = text.len() as int;
    if n >= 1 && is_space(text[n - 1]) {
        1
    } else if n >= 2 && is_space_of_two(text[n - 2], text[n - 1]) {
        2
    } else if n >= 3 && is_space_of_three(text[n - 3], text[n - 2], text[n - 1]) {
        3
    } else {
        0
    }
}

/// `text` without the white space at its end.
pub open spec fn trimmed_end(text: Seq<u8>) -> Seq<u8>
    decreases text.len(),
{
    if space_at_end(text) == 0 {
        text
    } else {
        trimmed_end(text.take(text.len() - space_at_end(text)))
    }
}

/// Whether `text` holds nothing but white space.
pub open spec fn is_blank(text: Seq<u8>) -> bool {
    trimmed_end(text).len() == 0
}

/// Tells whether `b` is a white-space character of one byte.
pub fn space(b: u8) -> (r: bool)
    ensures
        r == is_space(b),
{
    b == 0x20 || (0x09 <= b && b <= 0x0d)
}

/// Says how many bytes the white-space character has that the first `end`
/// bytes of `text` end with, and 0 where they end with none.
fn space_before(text: &[u8], end: usize) -> (n: usize)
    requires
        end <= text@.len(),
    ensures
        n == space_at_end(text@.take(end as int)),
        n <= end,
{
    if end >= 1 && space(text[end - 1]) {
        return 1;
    }
    if end >= 2 && text[end - 2] == 0xc2 && (text[end - 1] == 0x85 || text[end - 1] == 0xa0) {
        return 2;
    }
    if end >= 3 {
        let a: u8 = text[end - 3];
        let b: u8 = text[end - 2];
        let c: u8 = text[end - 1];
        if (a == 0xe1 && b == 0x9a && c == 0x80) || (a == 0xe2 && b == 0x80 && ((0x80 <= c && c
            <= 0x8a) || c == 0xa8 || c == 0xa9 || c == 0xaf)) || (a == 0xe2 && b == 0x81 && c
            == 0x9f) || (a == 0xe3 && b == 0x80 && c == 0x80) {
            return 3;
        }
    }
    0
}

/// Cuts the white space off the end of `text`.
pub fn trim_end(text: &[u8]) -> (r: &[u8])
    ensures
        r@ == trimmed_end(text@),
{
    let mut end: usize = text.len();
    assert(text@.take(end as int) =~= text@);
    loop
        invariant
            end <= text.len(),
            trimmed_end(text@) == trimmed_end(text@.take(end as int)),
        decreases end,
    {
        let n = space_before(text, end);
        if n == 0 {
            return slice_subrange(text, 0, end);
        }
        assert(text@.take(end as int).take(end - n) =~= text@.take(end - n));
        end = end - n;
    }
}

/// Tells whether `text` holds nothing but white space.
pub fn blank(text: &[u8]) -> (r: bool)
    ensures
        r == is_blank(text@),
{
    trim_end(text).len() == 0
}

/// What trimming gives: the start of the text, which ends with no white
/// space.
pub proof fn lemma_trimmed_end(text: Seq<u8>)
    ensures
        trimmed_end(text).len() <= text.len(),
        trimmed_end(text) == text.take(trimmed_end(text).len() as int),
        space_at_end(trimmed_end(text)) == 0,
    decreases text.len(),
{
    let n = space_at_end(text);
    if n == 0 {
        assert(text.take(text.len() as int) =~= text);
    } else {
        let rest = text.take(text.len() - n);
        lemma_trimmed_end(rest);
        assert(rest.take(trimmed_end(rest).len() as int) =~= text.take(
            trimmed_end(rest).len() as int,
        ));
    }
}

} // verus!
