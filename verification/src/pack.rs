//! Packs: the records that a remote sends, and the SHA-1 that guards them.

use crate::bytes::{bytes_eq, find, first_occurrence};
use crate::error::Error;
use crate::hash::{sha1_digest, sha1_of, DIGEST_LEN};
use crate::kind::Kind;
use crate::varint::{lemma_varint_within, process_var_int, varint_decoding};
use crate::zlib::{inflated, zlib_decompress};
use vstd::prelude::*;
use vstd::slice::{slice_subrange, slice_to_vec};

verus! {

/// A delta that a pack holds in place of an object: the digest of the base
/// object and the delta program that rebuilds the object from it.
#[derive(Debug)]
pub struct Deltas {
    pub delta_hash: Vec<u8>,
    pub data: Vec<u8>,
}

/// A delta of a pack, as contracts speak of it: the address of the base and
/// the delta program.
pub struct DeltaView {
    pub base: Seq<u8>,
    pub program: Seq<u8>,
}

impl View for Deltas {
    type V = DeltaView;

    open spec fn view(&self) -> DeltaView {
        DeltaView { base: self.delta_hash@, program: self.data@ }
    }
}

/// One record of a pack.
#[derive(Debug)]
pub enum PackEntry {
    /// An object that the pack holds whole.
    Object { kind: Kind, data: Vec<u8> },
    /// An object that the pack holds as a delta against another.
    RefDelta(Deltas),
}

/// One record of a pack, as contracts speak of it.
pub enum Record {
    Object { kind: Kind, payload: Seq<u8> },
    RefDelta { base: Seq<u8>, program: Seq<u8> },
}

impl View for PackEntry {
    type V = Record;

    open spec fn view(&self) -> Record {
        match self {
            PackEntry::Object { kind, data } => Record::Object { kind: *kind, payload: data@ },
            PackEntry::RefDelta(delta) => Record::RefDelta {
                base: delta@.base,
                program: delta@.program,
            },
        }
    }
}

/// The records that a list of entries stands for.
pub open spec fn records_of(list: Seq<PackEntry>) -> Seq<Record> {
    list.map_values(|e: PackEntry| e@)
}

/// The type code, the size and the length of the record header at the start
/// of `s`. The first byte holds the code in its bits 4 to 6 and the low four
/// bits of the size; where it is 128 or more, the rest of the size follows as
/// a varint. `None` where `s` ends inside the header.
pub open spec fn record_header(s: Seq<u8>) -> Option<(u8, nat, nat)> {
    if s.len() == 0 {
        None
    } else {
        let code = ((s[0] / 16) % 8) as u8;
        let low = (s[0] % 16) as nat;
        if s[0] < 128 {
            Some((code, low, 1nat))
        } else {
            match varint_decoding(s.skip(1)) {
                Some((high, used)) => Some((code, low + 16 * high, used + 1)),
                None => None,
            }
        }
    }
}

/// Reads the record header at the start of `data`: type code, size, and the
/// number of bytes that the header occupies. Fails where `data` ends inside
/// the header or the size does not fit in 64 bits.
pub fn read_record_header(data: &[u8]) -> (r: Result<(u8, u64, usize), Error>)
    ensures
        match r {
            Ok((code, size, used)) => {
                &&& record_header(data@) == Some((code, size as nat, used as nat))
                &&& 0 < used <= data@.len()
            },
            Err(e) => e == Error::Malformed && match record_header(data@) {
                Some((_, size, _)) => size > u64::MAX,
                None => true,
            },
        },
{
    if data.len() == 0 {
        return Err(Error::Malformed);
    }
    let first: u8 = data[0];
    let code: u8 = (first >> 4) & 0x7;
    let low: u64 = (first & 0x0f) as u64;
    assert((first >> 4) & 0x7 == (first / 16) % 8) by (bit_vector);
    assert(first & 0x0f == first % 16) by (bit_vector);
    assert((first & 0x80 == 0) == (first < 128)) by (bit_vector);
    if first & 0x80 == 0 {
        return Ok((code, low, 1));
    }
    let rest = slice_subrange(data, 1, data.len());
    assert(rest@ == data@.skip(1));
    proof {
        lemma_varint_within(rest@);
    }
    let (high, used) = process_var_int(rest)?;
    let size: Option<u64> = match high.checked_mul(16) {
        Some(shifted) => shifted.checked_add(low),
        None => None,
    };
    match size {
        Some(size) => Ok((code, size, used + 1)),
        None => Err(Error::Malformed),
    }
}

/// What a record's compressed part at the start of `s` holds, and how many
/// bytes it occupies, where the record declares `size` bytes.
pub open spec fn record_body(s: Seq<u8>, size: nat) -> Result<(Seq<u8>, nat), Error> {
    match inflated(s) {
        None => Err(Error::Malformed),
        Some((bytes, used)) => if bytes.len() != size {
            Err(Error::SizeMismatch)
        } else if used > s.len() {
            Err(Error::Malformed)
        } else {
            Ok((bytes, used))
        },
    }
}

/// Judges what decompression gave for a record that declares `size` bytes,
/// where `available` bytes were at hand: `decompressed` holds the bytes and
/// the number of input bytes consumed, or nothing where the stream was
/// broken.
pub fn check_decompressed(
    decompressed: Option<(Vec<u8>, u64)>,
    size: u64,
    available: usize,
) -> (r: Result<(Vec<u8>, usize), Error>)
    ensures
        match decompressed {
            None => r == Err::<(Vec<u8>, usize), Error>(Error::Malformed),
            Some((bytes, consumed)) => if bytes@.len() != size {
                r == Err::<(Vec<u8>, usize), Error>(Error::SizeMismatch)
            } else if consumed > available {
                r == Err::<(Vec<u8>, usize), Error>(Error::Malformed)
            } else {
                r == Ok::<(Vec<u8>, usize), Error>((bytes, consumed as usize))
            },
        },
{
    match decompressed {
        None => Err(Error::Malformed),
        Some((bytes, consumed)) => {
            if bytes.len() as u64 != size {
                Err(Error::SizeMismatch)
            } else if consumed > available as u64 {
                Err(Error::Malformed)
            } else {
                Ok((bytes, consumed as usize))
            }
        },
    }
}

/// Decompresses the zlib stream at the start of `pack`, which must give
/// `size` bytes, and says how many bytes of `pack` the stream occupies.
pub fn decompress_data(pack: &[u8], size: u64) -> (r: Result<(Vec<u8>, usize), Error>)
    ensures
        match r {
            Ok((bytes, used)) => record_body(pack@, size as nat) == Ok::<(Seq<u8>, nat), Error>(
                (bytes@, used as nat),
            ) && used <= pack@.len(),
            Err(e) => record_body(pack@, size as nat) == Err::<(Seq<u8>, nat), Error>(e),
        },
{
    let decompressed = zlib_decompress(pack);
    check_decompressed(decompressed, size, pack.len())
}

/// The record at the start of `s` and the number of bytes it occupies. The
/// codes 1, 2 and 3 announce a commit, a tree and a blob, whose compressed
/// payload follows the header; the code 7 announces a delta, whose header is
/// followed by the 20-byte digest of its base and the compressed delta
/// program. Every other code is refused.
pub open spec fn first_record(s: Seq<u8>) -> Result<(Record, nat), Error> {
    match record_header(s) {
        None => Err(Error::Malformed),
        Some((code, size, used)) => if size > u64::MAX {
            Err(Error::Malformed)
        } else if Kind::of_code(code).is_stored() {
            match record_body(s.skip(used as int), size) {
                Ok((payload, n)) => Ok(
                    (Record::Object { kind: Kind::of_code(code), payload }, used + n),
                ),
                Err(e) => Err(e),
            }
        } else if Kind::of_code(code) == Kind::RefDelta {
            if s.len() < used + DIGEST_LEN {
                Err(Error::Malformed)
            } else {
                match record_body(s.skip(used + DIGEST_LEN), size) {
                    Ok((program, n)) => Ok(
                        (
                            Record::RefDelta {
                                base: s.subrange(used as int, used + DIGEST_LEN),
                                program,
                            },
                            (used + DIGEST_LEN + n) as nat,
                        ),
                    ),
                    Err(e) => Err(e),
                }
            }
        } else {
            Err(Error::Unsupported)
        },
    }
}

/// Reads the record at the start of `data`, and says how many bytes it
/// occupies.
pub fn read_record(data: &[u8]) -> (r: Result<(PackEntry, usize), Error>)
    ensures
        match r {
            Ok((entry, used)) => first_record(data@) == Ok::<(Record, nat), Error>(
                (entry@, used as nat),
            ) && 0 < used <= data@.len(),
            Err(e) => first_record(data@) == Err::<(Record, nat), Error>(e),
        },
{
    let (code, size, used) = read_record_header(data)?;
    let kind = Kind::from_byte(code);
    match kind {
        Kind::Blob | Kind::Tree | Kind::Commit => {
            let body = slice_subrange(data, used, data.len());
            assert(body@ == data@.skip(used as int));
            let (bytes, n) = decompress_data(body, size)?;
            Ok((PackEntry::Object { kind, data: bytes }, used + n))
        },
        Kind::RefDelta => {
            if data.len() - used < DIGEST_LEN {
                return Err(Error::Malformed);
            }
            let base = slice_to_vec(slice_subrange(data, used, used + DIGEST_LEN));
            let body = slice_subrange(data, used + DIGEST_LEN, data.len());
            assert(body@ == data@.skip(used + DIGEST_LEN));
            let (bytes, n) = decompress_data(body, size)?;
            Ok((PackEntry::RefDelta(Deltas { delta_hash: base, data: bytes }), used + DIGEST_LEN + n))
        },
        Kind::Unknown(_) => Err(Error::Unsupported),
    }
}

/// The first `count` records of `s`, which follow one another without
/// anything between them. The first record that cannot be read gives its
/// error.
pub open spec fn records(s: Seq<u8>, count: nat) -> Result<Seq<Record>, Error>
    decreases count,
{
    if count == 0 {
        Ok(Seq::empty())
    } else {
        match first_record(s) {
            Err(e) => Err(e),
            Ok((record, used)) => match records(s.skip(used as int), (count - 1) as nat) {
                Err(e) => Err(e),
                Ok(rest) => Ok(seq![record] + rest),
            },
        }
    }
}

/// Reads `count` records from the start of `data`.
pub fn read_records(data: &[u8], count: u32) -> (r: Result<Vec<PackEntry>, Error>)
    ensures
        match r {
            Ok(list) => records(data@, count as nat) == Ok::<Seq<Record>, Error>(records_of(list@)),
            Err(e) => records(data@, count as nat) == Err::<Seq<Record>, Error>(e),
        },
{
    let mut list: Vec<PackEntry> = Vec::new();
    let mut pos: usize = 0;
    let mut done: u32 = 0;
    assert(data@.skip(0) =~= data@);
    assert(records_of(list@) =~= Seq::<Record>::empty());
    while done < count
        invariant
            pos <= data@.len(),
            done <= count,
            records(data@, count as nat) == match records(
                data@.skip(pos as int),
                (count - done) as nat,
            ) {
                Ok(rest) => Ok::<Seq<Record>, Error>(records_of(list@) + rest),
                Err(e) => Err(e),
            },
        decreases count - done,
    {
        let tail = slice_subrange(data, pos, data.len());
        assert(tail@ == data@.skip(pos as int));
        match read_record(tail) {
            Err(e) => {
                return Err(e);
            },
            Ok((entry, used)) => {
                proof {
                    assert(tail@.skip(used as int) =~= data@.skip(pos + used));
                    let ghost before = records_of(list@);
                    let ghost after = records_of(list@.push(entry));
                    assert(after =~= before.push(entry@));
                    if let Ok(rest) = records(data@.skip(pos + used), (count - done - 1) as nat) {
                        assert(before + (seq![entry@] + rest) =~= after + rest);
                    }
                }
                list.push(entry);
                pos = pos + used;
                done = done + 1;
            },
        }
    }
    assert(records_of(list@) + Seq::<Record>::empty() =~= records_of(list@));
    Ok(list)
}

/// The four bytes that a pack starts with.
pub open spec fn pack_marker() -> Seq<u8> {
    seq![0x50u8, 0x41u8, 0x43u8, 0x4bu8]
}

/// Length of a pack's header: marker, version and number of records.
pub const PACK_HEADER_LEN: usize = 12;

/// The number that four bytes hold, most significant byte first.
pub open spec fn be32(s: Seq<u8>) -> nat {
    (s[0] * 0x100_0000 + s[1] * 0x1_0000 + s[2] * 0x100 + s[3]) as nat
}

/// The records of `pack`, which starts with the marker: four bytes of
/// marker, four of version, the number of records in four bytes, the
/// records, and in the last 20 bytes the SHA-1 of all that precedes them.
pub open spec fn pack_records(pack: Seq<u8>) -> Result<Seq<Record>, Error> {
    if pack.len() < PACK_HEADER_LEN + DIGEST_LEN {
        Err(Error::ProtocolError)
    } else {
        let end = pack.len() - DIGEST_LEN;
        if sha1_of(pack.take(end)) != pack.skip(end) {
            Err(Error::HashMismatch)
        } else {
            records(pack.subrange(PACK_HEADER_LEN as int, end), be32(pack.subrange(8, 12)))
        }
    }
}

/// The records of the pack that `body` holds. The pack starts where the
/// marker first stands in `body`; what precedes it is passed over.
pub open spec fn unpacked(body: Seq<u8>) -> Result<Seq<Record>, Error> {
    match first_occurrence(body, pack_marker(), 0) {
        None => Err(Error::ProtocolError),
        Some(start) => pack_records(body.skip(start)),
    }
}

/// Compares the SHA-1 computed over a pack with the one at its end.
pub fn check_trailer(computed: &[u8], recorded: &[u8]) -> (r: Result<(), Error>)
    ensures
        r == if computed@ == recorded@ {
            Ok::<(), Error>(())
        } else {
            Err::<(), Error>(Error::HashMismatch)
        },
{
    if bytes_eq(computed, recorded) {
        Ok(())
    } else {
        Err(Error::HashMismatch)
    }
}

/// Reads the number that the four bytes of `data` hold, most significant
/// byte first.
fn read_be32(data: &[u8]) -> (n: u32)
    requires
        data@.len() == 4,
    ensures
        n == be32(data@),
{
    let b0: u32 = data[0] as u32;
    let b1: u32 = data[1] as u32;
    let b2: u32 = data[2] as u32;
    let b3: u32 = data[3] as u32;
    b0 * 0x100_0000 + b1 * 0x1_0000 + b2 * 0x100 + b3
}

/// Decodes the pack in the answer `pack` of a remote: finds the marker,
/// checks the SHA-1 at the pack's end, and reads the records.
///
/// Fails with `ProtocolError` where there is no marker or the pack is too
/// short to hold header and SHA-1, with `HashMismatch` where the SHA-1
/// differs, with `Malformed` where a record is cut short or its compressed
/// part is broken, with `SizeMismatch` where a record does not decompress to
/// the size it declares, and with `Unsupported` for a record of another kind
/// than commit, tree, blob and reference delta.
pub fn unpack_objects_invoke(pack: &[u8]) -> (r: Result<Vec<PackEntry>, Error>)
    ensures
        match r {
            Ok(list) => unpacked(pack@) == Ok::<Seq<Record>, Error>(records_of(list@)),
            Err(e) => unpacked(pack@) == Err::<Seq<Record>, Error>(e),
        },
{
    let marker: Vec<u8> = vec![0x50u8, 0x41u8, 0x43u8, 0x4bu8];
    assert(marker@ =~= pack_marker());
    let start = match find(pack, marker.as_slice()) {
        Some(start) => start,
        None => {
            return Err(Error::ProtocolError);
        },
    };
    proof {
        crate::bytes::lemma_first_occurrence(pack@, pack_marker(), 0);
    }
    let pack = slice_subrange(pack, start, pack.len());
    if pack.len() < PACK_HEADER_LEN + DIGEST_LEN {
        return Err(Error::ProtocolError);
    }
    let end: usize = pack.len() - DIGEST_LEN;
    let computed = sha1_digest(slice_subrange(pack, 0, end));
    check_trailer(computed.as_slice(), slice_subrange(pack, end, pack.len()))?;
    let count = read_be32(slice_subrange(pack, 8, 12));
    read_records(slice_subrange(pack, PACK_HEADER_LEN, end), count)
}

/// A pack is refused with `HashMismatch` exactly where it is long enough and
/// the SHA-1 at its end is not that of the bytes before it.
pub proof fn lemma_trailer_decides(pack: Seq<u8>)
    ensures
        pack_records(pack) == Err::<Seq<Record>, Error>(Error::HashMismatch) <==> {
            &&& pack.len() >= PACK_HEADER_LEN + DIGEST_LEN
            &&& sha1_of(pack.take(pack.len() - DIGEST_LEN)) != pack.skip(pack.len() - DIGEST_LEN)
        },
{
    if pack.len() >= PACK_HEADER_LEN + DIGEST_LEN {
        let end = pack.len() - DIGEST_LEN;
        if sha1_of(pack.take(end)) == pack.skip(end) {
            lemma_records_error(pack.subrange(PACK_HEADER_LEN as int, end), be32(pack.subrange(8, 12)));
        }
    }
}

/// Reading records never ends with `HashMismatch` or `ProtocolError`.
proof fn lemma_records_error(s: Seq<u8>, count: nat)
    ensures
        records(s, count) matches Err(e) ==> e == Error::Malformed || e == Error::SizeMismatch
            || e == Error::Unsupported,
    decreases count,
{
    if count > 0 {
        if let Ok((_, used)) = first_record(s) {
            lemma_records_error(s.skip(used as int), (count - 1) as nat);
        }
    }
}

/// Where a pack is accepted, a pack of the same length with the same SHA-1
/// at its end and other bytes before it is refused with `HashMismatch`,
/// unless those other bytes have the same SHA-1.
pub proof fn lemma_changed_pack_is_refused(pack: Seq<u8>, changed: Seq<u8>)
    requires
        pack.len() == changed.len(),
        pack_records(pack) is Ok,
        pack.skip(pack.len() - DIGEST_LEN) == changed.skip(changed.len() - DIGEST_LEN),
        sha1_of(pack.take(pack.len() - DIGEST_LEN)) != sha1_of(
            changed.take(changed.len() - DIGEST_LEN),
        ),
    ensures
        pack_records(changed) == Err::<Seq<Record>, Error>(Error::HashMismatch),
{
}

} // verus!
