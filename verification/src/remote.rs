//! What is said to a remote, and what is read from its advertisement of refs.

use crate::address::{from_hex, hex_bytes, hex_of, is_hex, to_hex};
use crate::bytes::{append, bytes_eq, find_byte, first_occurrence};
use crate::error::Error;
use crate::hash::DIGEST_LEN;
use crate::object::SPACE;
use crate::tree::LF;
use vstd::prelude::*;
use vstd::slice::slice_subrange;

verus! {

/// The ASCII code of the carriage return.
pub const CR: u8 = 0x0d;

/// Number of hexadecimal digits in front of a ref: four of the line's
/// length, and 40 of the address.
pub const REF_DIGITS: usize = 44;

/// The name of the branch `main`: `refs/heads/main`.
pub open spec fn main_ref() -> Seq<u8> {
    seq![
        0x72u8, 0x65, 0x66, 0x73, 0x2f, 0x68, 0x65, 0x61, 0x64, 0x73, 0x2f, 0x6d, 0x61, 0x69, 0x6e,
    ]
}

/// The name of the branch `master`: `refs/heads/master`.
pub open spec fn master_ref() -> Seq<u8> {
    seq![
        0x72u8, 0x65, 0x66, 0x73, 0x2f, 0x68, 0x65, 0x61, 0x64, 0x73, 0x2f, 0x6d, 0x61, 0x73, 0x74,
        0x65, 0x72,
    ]
}

/// The address that the line `line` of an advertisement gives for the
/// default branch: the line is four hexadecimal digits of length, the
/// address in 40 hexadecimal digits, a space, and the name of the branch
/// `main` or `master`. `None` for any other line.
pub open spec fn ref_line(line: Seq<u8>) -> Option<Seq<u8>> {
    if line.len() > REF_DIGITS && is_hex(line.take(REF_DIGITS as int)) && line[REF_DIGITS as int]
        == SPACE && (line.skip(REF_DIGITS + 1) == main_ref() || line.skip(REF_DIGITS + 1)
        == master_ref()) {
        Some(hex_bytes(line.subrange(4, REF_DIGITS as int)))
    } else {
        None
    }
}

/// A line without the carriage return at its end, where it has one.
pub open spec fn without_cr(line: Seq<u8>) -> Seq<u8> {
    if line.len() > 0 && line.last() == CR {
        line.drop_last()
    } else {
        line
    }
}

/// The address of the default branch in the advertisement `body`: that of
/// the first line that gives one. Lines end with a line feed, before which
/// a carriage return may stand; what follows the last line feed is a line
/// too.
pub open spec fn default_branch(body: Seq<u8>) -> Option<Seq<u8>>
    decreases body.len(),
{
    match first_occurrence(body, seq![LF], 0) {
        None => ref_line(body),
        Some(end) => match ref_line(without_cr(body.take(end))) {
            Some(hash) => Some(hash),
            None => if 0 <= end < body.len() {
                default_branch(body.skip(end + 1))
            } else {
                None
            },
        },
    }
}

/// Reads the address that a line of an advertisement gives for the default
/// branch.
pub fn read_ref_line(line: &[u8]) -> (r: Option<Vec<u8>>)
    ensures
        match r {
            Some(hash) => ref_line(line@) == Some(hash@) && hash@.len() == DIGEST_LEN,
            None => ref_line(line@) is None,
        },
{
    if line.len() <= REF_DIGITS {
        return None;
    }
    let digits = slice_subrange(line, 0, REF_DIGITS);
    assert(digits@ == line@.take(REF_DIGITS as int));
    if from_hex(digits).is_none() {
        return None;
    }
    if line[REF_DIGITS] != SPACE {
        return None;
    }
    let name = slice_subrange(line, REF_DIGITS + 1, line.len());
    assert(name@ == line@.skip(REF_DIGITS + 1));
    let main: Vec<u8> = vec![
        0x72u8, 0x65, 0x66, 0x73, 0x2f, 0x68, 0x65, 0x61, 0x64, 0x73, 0x2f, 0x6d, 0x61, 0x69, 0x6e,
    ];
    assert(main@ =~= main_ref());
    let master: Vec<u8> = vec![
        0x72u8, 0x65, 0x66, 0x73, 0x2f, 0x68, 0x65, 0x61, 0x64, 0x73, 0x2f, 0x6d, 0x61, 0x73, 0x74,
        0x65, 0x72,
    ];
    assert(master@ =~= master_ref());
    if !bytes_eq(name, main.as_slice()) && !bytes_eq(name, master.as_slice()) {
        return None;
    }
    let address = slice_subrange(line, 4, REF_DIGITS);
    assert(address@ == line@.subrange(4, REF_DIGITS as int));
    assert(is_hex(address@)) by {
        assert forall|i: int| 0 <= i < address@.len() implies crate::address::hex_value(
            #[trigger] address@[i],
        ) is Some by {
            assert(address@[i] == digits@[i + 4]);
        }
    }
    from_hex(address)
}

/// Finds the address of the remote's default branch in the advertisement
/// `body`. Fails with `ProtocolError` where no line gives the address of
/// `refs/heads/main` or `refs/heads/master`.
pub fn ls_remote_invoke(body: &[u8]) -> (r: Result<Vec<u8>, Error>)
    ensures
        match r {
            Ok(hash) => default_branch(body@) == Some(hash@) && hash@.len() == DIGEST_LEN,
            Err(e) => e == Error::ProtocolError && default_branch(body@) is None,
        },
{
    let mut pos: usize = 0;
    assert(body@.skip(0) =~= body@);
    loop
        invariant
            pos <= body.len(),
            default_branch(body@) == default_branch(body@.skip(pos as int)),
        decreases body.len() - pos,
    {
        let rest = slice_subrange(body, pos, body.len());
        assert(rest@ == body@.skip(pos as int));
        match find_byte(rest, LF) {
            None => {
                return match read_ref_line(rest) {
                    Some(hash) => Ok(hash),
                    None => Err(Error::ProtocolError),
                };
            },
            Some(end) => {
                let raw = slice_subrange(rest, 0, end);
                assert(raw@ == rest@.take(end as int));
                let line = if raw.len() > 0 && raw[raw.len() - 1] == CR {
                    slice_subrange(raw, 0, raw.len() - 1)
                } else {
                    raw
                };
                assert(line@ =~= without_cr(raw@));
                if let Some(hash) = read_ref_line(line) {
                    return Ok(hash);
                }
                assert(rest@.skip(end + 1) =~= body@.skip(pos + end + 1));
                pos = pos + end + 1;
            },
        }
    }
}

/// What is put behind the address of a repository to ask for its refs:
/// `/info/refs?service=git-upload-pack`.
pub open spec fn refs_suffix() -> Seq<u8> {
    seq![
        0x2fu8, 0x69, 0x6e, 0x66, 0x6f, 0x2f, 0x72, 0x65, 0x66, 0x73, 0x3f, 0x73, 0x65, 0x72, 0x76,
        0x69, 0x63, 0x65, 0x3d, 0x67, 0x69, 0x74, 0x2d, 0x75, 0x70, 0x6c, 0x6f, 0x61, 0x64, 0x2d,
        0x70, 0x61, 0x63, 0x6b,
    ]
}

/// What is put behind the address of a repository to ask for a pack:
/// `/git-upload-pack`.
pub open spec fn upload_pack_suffix() -> Seq<u8> {
    seq![
        0x2fu8, 0x67, 0x69, 0x74, 0x2d, 0x75, 0x70, 0x6c, 0x6f, 0x61, 0x64, 0x2d, 0x70, 0x61, 0x63,
        0x6b,
    ]
}

/// The address at which the repository at `url` advertises its refs.
pub fn refs_url(url: &[u8]) -> (r: Vec<u8>)
    ensures
        r@ == url@ + refs_suffix(),
{
    let suffix: Vec<u8> = vec![
        0x2fu8, 0x69, 0x6e, 0x66, 0x6f, 0x2f, 0x72, 0x65, 0x66, 0x73, 0x3f, 0x73, 0x65, 0x72, 0x76,
        0x69, 0x63, 0x65, 0x3d, 0x67, 0x69, 0x74, 0x2d, 0x75, 0x70, 0x6c, 0x6f, 0x61, 0x64, 0x2d,
        0x70, 0x61, 0x63, 0x6b,
    ];
    assert(suffix@ =~= refs_suffix());
    let mut r: Vec<u8> = Vec::new();
    append(&mut r, url);
    append(&mut r, suffix.as_slice());
    assert(r@ =~= url@ + refs_suffix());
    r
}

/// The address at which the repository at `url` hands out packs.
pub fn upload_pack_url(url: &[u8]) -> (r: Vec<u8>)
    ensures
        r@ == url@ + upload_pack_suffix(),
{
    let suffix: Vec<u8> = vec![
        0x2fu8, 0x67, 0x69, 0x74, 0x2d, 0x75, 0x70, 0x6c, 0x6f, 0x61, 0x64, 0x2d, 0x70, 0x61, 0x63,
        0x6b,
    ];
    assert(suffix@ =~= upload_pack_suffix());
    let mut r: Vec<u8> = Vec::new();
    append(&mut r, url);
    append(&mut r, suffix.as_slice());
    assert(r@ =~= url@ + upload_pack_suffix());
    r
}

/// The start of the line that asks for a commit: its length `0032`, the word
/// `want` and a space.
pub open spec fn want_head() -> Seq<u8> {
    seq![0x30u8, 0x30, 0x33, 0x32, 0x77, 0x61, 0x6e, 0x74, 0x20]
}

/// What ends the request for a pack: the flush packet `0000` and the line
/// `0009done` with its line feed.
pub open spec fn want_tail() -> Seq<u8> {
    seq![0x30u8, 0x30, 0x30, 0x30, 0x30, 0x30, 0x30, 0x39, 0x64, 0x6f, 0x6e, 0x65, 0x0a]
}

/// The request for the pack of the commit with the address `hash`: a line
/// of 50 bytes that names the commit in hexadecimal, the flush packet, and
/// the line that says the request is done.
pub open spec fn pack_request(hash: Seq<u8>) -> Seq<u8> {
    want_head() + hex_of(hash).push(LF) + want_tail()
}

/// Writes the request for the pack of the commit with the address `hash`,
/// or nothing where `hash` has not the length of a SHA-1.
pub fn download_pack(hash: &[u8]) -> (r: Option<Vec<u8>>)
    ensures
        match r {
            Some(request) => hash@.len() == DIGEST_LEN && request@ == pack_request(hash@),
            None => hash@.len() != DIGEST_LEN,
        },
{
    if hash.len() != DIGEST_LEN {
        return None;
    }
    let mut request: Vec<u8> = vec![0x30u8, 0x30, 0x33, 0x32, 0x77, 0x61, 0x6e, 0x74, 0x20];
    assert(request@ =~= want_head());
    append(&mut request, to_hex(hash).as_slice());
    request.push(LF);
    let tail: Vec<u8> = vec![
        0x30u8, 0x30, 0x30, 0x30, 0x30, 0x30, 0x30, 0x39, 0x64, 0x6f, 0x6e, 0x65, 0x0a,
    ];
    assert(tail@ =~= want_tail());
    append(&mut request, tail.as_slice());
    assert(request@ =~= pack_request(hash@));
    Some(request)
}

} // verus!
