//! The payload of a commit, and the tree that a commit names.

use crate::address::{from_hex, hex_bytes, is_hex};
use crate::bytes::{append, bytes_eq, find_byte, first_occurrence};
use crate::decimal::{decimal, format_decimal, PLUS, ZERO};
use crate::error::Error;
use crate::hash::DIGEST_LEN;
use crate::kind::Kind;
use crate::object::{Object, SPACE};
use crate::space::{blank, is_blank};
use crate::tree::LF;
use vstd::prelude::*;
use vstd::slice::slice_subrange;

verus! {

/// The ASCII code of the minus sign.
pub const MINUS: u8 = 0x2d;

/// `n` in decimal, in two places at least.
pub open spec fn two_digits(n: nat) -> Seq<u8> {
    if n < 10 {
        seq![ZERO] + decimal(n)
    } else {
        decimal(n)
    }
}

/// The offset of a time zone as a commit writes it: the sign, the hours in
/// two digits, and the minutes left over in two digits. `offset` is in
/// seconds, to the east of UTC.
pub open spec fn timezone_text(offset: int) -> Seq<u8> {
    let sign = if offset < 0 {
        MINUS
    } else {
        PLUS
    };
    let seconds = if offset < 0 {
        -offset
    } else {
        offset
    };
    seq![sign] + two_digits((seconds / 3600) as nat) + two_digits(((seconds % 3600) / 60) as nat)
}

/// Appends `n` in decimal, in two places at least.
fn push_two_digits(out: &mut Vec<u8>, n: u64)
    ensures
        final(out)@ == old(out)@ + two_digits(n as nat),
{
    if n < 10 {
        out.push(ZERO);
    }
    append(out, format_decimal(n).as_slice());
    assert(out@ =~= old(out)@ + two_digits(n as nat));
}

/// Writes the offset of a time zone as a commit writes it. `offset` is in
/// seconds, to the east of UTC.
pub fn get_timezone(offset: i32) -> (text: Vec<u8>)
    ensures
        text@ == timezone_text(offset as int),
{
    let wide: i64 = offset as i64;
    let seconds: u64 = if wide < 0 {
        (-wide) as u64
    } else {
        wide as u64
    };
    let mut text: Vec<u8> = Vec::new();
    text.push(if offset < 0 {
        MINUS
    } else {
        PLUS
    });
    push_two_digits(&mut text, seconds / 3600);
    push_two_digits(&mut text, (seconds % 3600) / 60);
    assert(text@ =~= timezone_text(offset as int));
    text
}

/// The word `tree` and a space.
pub open spec fn tree_word() -> Seq<u8> {
    seq![0x74u8, 0x72, 0x65, 0x65, 0x20]
}

/// The word `parent` and a space.
pub open spec fn parent_word() -> Seq<u8> {
    seq![0x70u8, 0x61, 0x72, 0x65, 0x6e, 0x74, 0x20]
}

/// The word `author` and a space.
pub open spec fn author_word() -> Seq<u8> {
    seq![0x61u8, 0x75, 0x74, 0x68, 0x6f, 0x72, 0x20]
}

/// The word `committer` and a space.
pub open spec fn committer_word() -> Seq<u8> {
    seq![0x63u8, 0x6f, 0x6d, 0x6d, 0x69, 0x74, 0x74, 0x65, 0x72, 0x20]
}

/// What a commit says of who made it and when: the identity, the time in
/// seconds since 1970 and the offset of the time zone, with spaces between
/// them.
pub open spec fn signature(identity: Seq<u8>, timestamp: nat, offset: int) -> Seq<u8> {
    identity + seq![SPACE] + decimal(timestamp) + seq![SPACE] + timezone_text(offset)
}

/// The line for the parent: none where there is no parent or the parent is
/// blank.
pub open spec fn parent_line(parent: Option<Seq<u8>>) -> Seq<u8> {
    match parent {
        Some(hash) => if is_blank(hash) {
            Seq::empty()
        } else {
            parent_word() + hash.push(LF)
        },
        None => Seq::empty(),
    }
}

/// The payload of a commit: lines for the tree, for the parent where there
/// is one, for the author and for the committer, an empty line, and the
/// message with a line feed behind it.
pub open spec fn commit_payload(
    tree: Seq<u8>,
    parent: Option<Seq<u8>>,
    identity: Seq<u8>,
    timestamp: nat,
    offset: int,
    message: Seq<u8>,
) -> Seq<u8> {
    tree_word() + tree.push(LF) + parent_line(parent) + author_word() + signature(
        identity,
        timestamp,
        offset,
    ).push(LF) + committer_word() + signature(identity, timestamp, offset).push(LF) + seq![LF]
        + message.push(LF)
}

/// The view of an optional byte string.
pub open spec fn optional_bytes(bytes: Option<&[u8]>) -> Option<Seq<u8>> {
    match bytes {
        Some(b) => Some(b@),
        None => None,
    }
}

/// Makes the commit for the tree with the hexadecimal address `tree_hash`.
/// `parent` is the hexadecimal address of the commit before it, if any;
/// `identity` names author and committer; `timestamp` is the time in seconds
/// since 1970 and `offset` the time zone's offset in seconds to the east of
/// UTC.
///
/// Fails with `Malformed` where the message is empty or holds nothing but
/// white space.
pub fn commit_tree_invoke(
    tree_hash: &[u8],
    parent: Option<&[u8]>,
    identity: &[u8],
    timestamp: u64,
    offset: i32,
    message: &[u8],
) -> (r: Result<Object, Error>)
    ensures
        match r {
            Ok(commit) => {
                &&& !is_blank(message@)
                &&& commit.kind == Kind::Commit
                &&& commit.payload@ == commit_payload(
                    tree_hash@,
                    optional_bytes(parent),
                    identity@,
                    timestamp as nat,
                    offset as int,
                    message@,
                )
                &&& commit.well_formed()
            },
            Err(e) => e == Error::Malformed && is_blank(message@),
        },
{
    if blank(message) {
        return Err(Error::Malformed);
    }
    let mut signed: Vec<u8> = Vec::new();
    append(&mut signed, identity);
    signed.push(SPACE);
    append(&mut signed, format_decimal(timestamp).as_slice());
    signed.push(SPACE);
    append(&mut signed, get_timezone(offset).as_slice());
    assert(signed@ =~= signature(identity@, timestamp as nat, offset as int));

    let mut payload: Vec<u8> = vec![0x74u8, 0x72, 0x65, 0x65, 0x20];
    assert(payload@ =~= tree_word());
    append(&mut payload, tree_hash);
    payload.push(LF);
    let ghost head = payload@;
    if let Some(hash) = parent {
        if !blank(hash) {
            let word: Vec<u8> = vec![0x70u8, 0x61, 0x72, 0x65, 0x6e, 0x74, 0x20];
            assert(word@ =~= parent_word());
            append(&mut payload, word.as_slice());
            append(&mut payload, hash);
            payload.push(LF);
        }
    }
    assert(payload@ =~= head + parent_line(optional_bytes(parent)));
    let author: Vec<u8> = vec![0x61u8, 0x75, 0x74, 0x68, 0x6f, 0x72, 0x20];
    assert(author@ =~= author_word());
    append(&mut payload, author.as_slice());
    append(&mut payload, signed.as_slice());
    payload.push(LF);
    let committer: Vec<u8> = vec![0x63u8, 0x6f, 0x6d, 0x6d, 0x69, 0x74, 0x74, 0x65, 0x72, 0x20];
    assert(committer@ =~= committer_word());
    append(&mut payload, committer.as_slice());
    append(&mut payload, signed.as_slice());
    payload.push(LF);
    payload.push(LF);
    append(&mut payload, message);
    payload.push(LF);
    assert(payload@ =~= commit_payload(
        tree_hash@,
        optional_bytes(parent),
        identity@,
        timestamp as nat,
        offset as int,
        message@,
    ));
    Ok(Object::new(Kind::Commit, payload))
}

/// The first line of `payload`: what stands before the first line feed, or
/// all of it where there is none.
pub open spec fn first_line(payload: Seq<u8>) -> Seq<u8> {
    match first_occurrence(payload, seq![LF], 0) {
        Some(end) => payload.take(end),
        None => payload,
    }
}

/// The address of the tree that the commit with the payload `payload`
/// names: its first line is the word `tree`, a space, and the address in 40
/// hexadecimal digits. `None` where the first line is anything else.
pub open spec fn commit_tree(payload: Seq<u8>) -> Option<Seq<u8>> {
    let line = first_line(payload);
    if line.len() == 5 + 2 * DIGEST_LEN && line.take(5) == tree_word() && is_hex(line.skip(5)) {
        Some(hex_bytes(line.skip(5)))
    } else {
        None
    }
}

/// Reads the address of the tree that a commit names from the commit's
/// payload. Fails with `Malformed` where the first line is not the word
/// `tree`, a space, and 40 hexadecimal digits.
pub fn tree_of_commit(payload: &[u8]) -> (r: Result<Vec<u8>, Error>)
    ensures
        match r {
            Ok(hash) => commit_tree(payload@) == Some(hash@) && hash@.len() == DIGEST_LEN,
            Err(e) => e == Error::Malformed && commit_tree(payload@) is None,
        },
{
    let end = match find_byte(payload, LF) {
        Some(end) => end,
        None => payload.len(),
    };
    let line = slice_subrange(payload, 0, end);
    assert(line@ =~= first_line(payload@));
    if line.len() != 5 + 2 * DIGEST_LEN {
        return Err(Error::Malformed);
    }
    let word: Vec<u8> = vec![0x74u8, 0x72, 0x65, 0x65, 0x20];
    assert(word@ =~= tree_word());
    if !bytes_eq(slice_subrange(line, 0, 5), word.as_slice()) {
        return Err(Error::Malformed);
    }
    let digits = slice_subrange(line, 5, line.len());
    assert(digits@ == line@.skip(5));
    match from_hex(digits) {
        Some(hash) => Ok(hash),
        None => Err(Error::Malformed),
    }
}

} // verus!
