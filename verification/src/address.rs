//! Object addresses as text: lowercase hexadecimal, and the path of an object's file.

use crate::bytes::append;
use crate::hash::DIGEST_LEN;
use vstd::prelude::*;
use vstd::slice::slice_subrange;

verus! {

/// The lowercase hexadecimal digit for a number below 16.
pub open spec fn hex_digit(n: int) -> u8 {
    if n < 10 {
        (0x30 + n) as u8
    } else {
        (0x61 + n - 10) as u8
    }
}

/// The lowercase hexadecimal text of `data`: two digits for each byte, the
/// high half first.
pub open spec fn hex_of(data: Seq<u8>) -> Seq<u8> {
    Seq::new(
        2 * data.len(),
        |i: int|
            if i % 2 == 0 {
                hex_digit(data[i / 2] as int / 16)
            } else {
                hex_digit(data[i / 2] as int % 16)
            },
    )
}

/// Calls `hex::encode` on `data` and takes the bytes of the string it gives.
/// Trusted: they are the lowercase hexadecimal text of `data`.
#[verifier::external_body]
pub(crate) fn hex_encode(data: &[u8]) -> (text: Vec<u8>)
    ensures
        text@ == hex_of(data@),
{
    hex::encode(data).into_bytes()
}

/// The lowercase hexadecimal text of `data`.
pub fn to_hex(data: &[u8]) -> (text: Vec<u8>)
    ensures
        text@ == hex_of(data@),
{
    hex_encode(data)
}

/// The number below 16 that a lowercase hexadecimal digit stands for.
pub open spec fn hex_value(c: u8) -> Option<int> {
    if 0x30 <= c <= 0x39 {
        Some(c - 0x30)
    } else if 0x61 <= c <= 0x66 {
        Some(c - 0x61 + 10)
    } else {
        None
    }
}

/// Whether `text` is the lowercase hexadecimal text of some bytes.
pub open spec fn is_hex(text: Seq<u8>) -> bool {
    text.len() % 2 == 0 && forall|i: int| 0 <= i < text.len() ==> hex_value(#[trigger] text[i]) is Some
}

/// The bytes that the lowercase hexadecimal text `text` stands for.
pub open spec fn hex_bytes(text: Seq<u8>) -> Seq<u8> {
    Seq::new(
        text.len() / 2,
        |i: int| (hex_value(text[2 * i])->0 * 16 + hex_value(text[2 * i + 1])->0) as u8,
    )
}

/// The hexadecimal text of bytes is hexadecimal text, and stands for them.
pub proof fn lemma_hex_round_trip(data: Seq<u8>)
    ensures
        is_hex(hex_of(data)),
        hex_bytes(hex_of(data)) == data,
{
    let text = hex_of(data);
    assert forall|i: int| 0 <= i < text.len() implies hex_value(#[trigger] text[i]) is Some by {
        let b = data[i / 2];
        assert(0 <= b as int / 16 < 16);
        assert(0 <= b as int % 16 < 16);
    }
    assert forall|i: int| 0 <= i < data.len() implies hex_bytes(text)[i] == data[i] by {
        let b = data[i];
        assert(text[2 * i] == hex_digit(b as int / 16));
        assert(text[2 * i + 1] == hex_digit(b as int % 16));
        assert(hex_value(hex_digit(b as int / 16)) == Some(b as int / 16));
        assert(hex_value(hex_digit(b as int % 16)) == Some(b as int % 16));
    }
    assert(hex_bytes(text) =~= data);
}

/// Hexadecimal text is the text of the bytes it stands for.
pub proof fn lemma_hex_of_hex_bytes(text: Seq<u8>)
    requires
        is_hex(text),
    ensures
        hex_of(hex_bytes(text)) == text,
{
    let data = hex_bytes(text);
    assert forall|i: int| 0 <= i < text.len() implies hex_of(data)[i] == text[i] by {
        let k = i / 2;
        let hi = hex_value(text[2 * k])->0;
        let lo = hex_value(text[2 * k + 1])->0;
        assert(hex_value(text[2 * k]) is Some);
        assert(hex_value(text[2 * k + 1]) is Some);
        assert(data[k] == (hi * 16 + lo) as u8);
        assert((hi * 16 + lo) / 16 == hi);
        assert((hi * 16 + lo) % 16 == lo);
    }
    assert(hex_of(data) =~= text);
}

/// Reads one lowercase hexadecimal digit.
fn digit_value(c: u8) -> (r: Option<u8>)
    ensures
        match r {
            Some(v) => hex_value(c) == Some(v as int),
            None => hex_value(c) is None,
        },
{
    if 0x30 <= c && c <= 0x39 {
        Some(c - 0x30)
    } else if 0x61 <= c && c <= 0x66 {
        Some(c - 0x61 + 10)
    } else {
        None
    }
}

/// Reads lowercase hexadecimal text: the bytes it stands for, or nothing
/// where `text` has an odd length or holds another byte than `0` to `9` and
/// `a` to `f`.
pub fn from_hex(text: &[u8]) -> (r: Option<Vec<u8>>)
    ensures
        match r {
            Some(data) => is_hex(text@) && data@ == hex_bytes(text@),
            None => !is_hex(text@),
        },
{
    if text.len() % 2 != 0 {
        return None;
    }
    let mut data: Vec<u8> = Vec::new();
    let mut i: usize = 0;
    while i < text.len()
        invariant
            i <= text.len(),
            i % 2 == 0,
            text.len() % 2 == 0,
            data@.len() == i / 2,
            forall|j: int| 0 <= j < i ==> hex_value(#[trigger] text@[j]) is Some,
            forall|k: int| 0 <= k < data@.len() ==> data@[k] == hex_bytes(text@)[k],
        decreases text.len() - i,
    {
        let hi = match digit_value(text[i]) {
            Some(v) => v,
            None => {
                return None;
            },
        };
        let lo = match digit_value(text[i + 1]) {
            Some(v) => v,
            None => {
                return None;
            },
        };
        data.push(hi * 16 + lo);
        i = i + 2;
    }
    assert(data@ =~= hex_bytes(text@));
    Some(data)
}

/// The directory under which the store keeps its objects, with the slash
/// that ends it: `.git/objects/`.
pub open spec fn objects_dir() -> Seq<u8> {
    seq![0x2eu8, 0x67, 0x69, 0x74, 0x2f, 0x6f, 0x62, 0x6a, 0x65, 0x63, 0x74, 0x73, 0x2f]
}

/// The path of the file that holds the object with the address `hash`,
/// relative to the repository: under `.git/objects/`, a directory named by
/// the first two hexadecimal digits of the address, and in it a file named
/// by the other 38.
pub open spec fn path_of(hash: Seq<u8>) -> Seq<u8> {
    objects_dir() + hex_of(hash).take(2) + seq![0x2fu8] + hex_of(hash).skip(2)
}

/// Gives the path of the file that holds the object with the address `hash`,
/// relative to the repository, or nothing where `hash` has not the length of
/// a SHA-1.
pub fn object_path(hash: &[u8]) -> (r: Option<Vec<u8>>)
    ensures
        match r {
            Some(path) => hash@.len() == DIGEST_LEN && path@ == path_of(hash@),
            None => hash@.len() != DIGEST_LEN,
        },
{
    if hash.len() != DIGEST_LEN {
        return None;
    }
    let text = to_hex(hash);
    let mut path: Vec<u8> = vec![
        0x2eu8,
        0x67,
        0x69,
        0x74,
        0x2f,
        0x6f,
        0x62,
        0x6a,
        0x65,
        0x63,
        0x74,
        0x73,
        0x2f,
    ];
    assert(path@ =~= objects_dir());
    append(&mut path, slice_subrange(text.as_slice(), 0, 2));
    path.push(0x2f);
    append(&mut path, slice_subrange(text.as_slice(), 2, text.len()));
    Some(path)
}

} // verus!
