//! Objects and their stored form: header, payload, address and compression.

use crate::bytes::{find_byte, first_occurrence, lemma_byte_occurs, lemma_first_occurrence_is};
use crate::decimal::{
    decimal, decimal_value, format_decimal, lemma_decimal_digits, lemma_decimal_round_trip,
    parse_decimal,
};
use crate::error::Error;
use crate::hash::{sha1_of, HashWriter, DIGEST_LEN};
use crate::kind::Kind;
use crate::zlib::{checked, compress_checked, holds, inflated, zlib_decompress};
use vstd::prelude::*;
use vstd::slice::{slice_subrange, slice_to_vec};

verus! {

/// The ASCII code of the space.
pub const SPACE: u8 = 0x20;

/// The zero byte, which ends an object's header.
pub const NUL: u8 = 0;

/// An object: its kind, the number of payload bytes that its header
/// declares, and its payload.
#[derive(Debug)]
pub struct Object {
    pub kind: Kind,
    pub expected_size: u64,
    pub payload: Vec<u8>,
}

/// An object, as contracts speak of it.
pub struct ObjectView {
    pub kind: Kind,
    pub expected_size: nat,
    pub payload: Seq<u8>,
}

impl View for Object {
    type V = ObjectView;

    open spec fn view(&self) -> ObjectView {
        ObjectView {
            kind: self.kind,
            expected_size: self.expected_size as nat,
            payload: self.payload@,
        }
    }
}

/// An object as the store keeps it: the SHA-1 that is its address, and the
/// bytes of its file.
#[derive(Debug)]
pub struct StoredObject {
    pub hash: Vec<u8>,
    pub bytes: Vec<u8>,
}

/// The uncompressed form of an object: the kind's name, a space, the size in
/// decimal, a zero byte, and the payload.
pub open spec fn framed(kind: Kind, size: nat, payload: Seq<u8>) -> Seq<u8> {
    kind.name_bytes() + seq![SPACE] + decimal(size) + seq![NUL] + payload
}

/// The address of the object of kind `kind` with the payload `payload`: the
/// SHA-1 of its uncompressed form.
pub open spec fn object_id(kind: Kind, payload: Seq<u8>) -> Seq<u8> {
    sha1_of(framed(kind, payload.len(), payload))
}

/// The object that the uncompressed form `bytes` holds. The header ends at
/// the first zero byte; its first space parts the kind's name, one of `blob`,
/// `tree` and `commit`, from the size in decimal. The payload is the first
/// `size` bytes after the header; what follows them is passed over.
pub open spec fn unframed(bytes: Seq<u8>) -> Result<ObjectView, Error> {
    match first_occurrence(bytes, seq![NUL], 0) {
        None => Err(Error::Malformed),
        Some(end) => {
            let header = bytes.take(end);
            match first_occurrence(header, seq![SPACE], 0) {
                None => Err(Error::Malformed),
                Some(space) => match (
                    Kind::of_name(header.take(space)),
                    decimal_value(header.skip(space + 1)),
                ) {
                    (Some(kind), Some(size)) => {
                        let rest = bytes.skip(end + 1);
                        if rest.len() < size {
                            Err(Error::SizeMismatch)
                        } else {
                            Ok(
                                ObjectView {
                                    kind,
                                    expected_size: size,
                                    payload: rest.take(size as int),
                                },
                            )
                        }
                    },
                    _ => Err(Error::Malformed),
                },
            }
        },
    }
}

/// The object that the file content `stored` holds.
pub open spec fn stored_object(stored: Seq<u8>) -> Result<ObjectView, Error> {
    match inflated(stored) {
        None => Err(Error::Malformed),
        Some((bytes, _)) => unframed(bytes),
    }
}

/// Reading the uncompressed form of an object of a stored kind gives the
/// object back.
pub proof fn lemma_unframed_framed(kind: Kind, payload: Seq<u8>)
    requires
        kind.is_stored(),
        payload.len() <= u64::MAX,
    ensures
        unframed(framed(kind, payload.len(), payload)) == Ok::<ObjectView, Error>(
            ObjectView { kind, expected_size: payload.len(), payload },
        ),
{
    let name = kind.name_bytes();
    let digits = decimal(payload.len());
    let bytes = framed(kind, payload.len(), payload);
    let space = name.len() as int;
    let end = space + 1 + digits.len();
    kind.lemma_name_round_trip();
    lemma_decimal_digits(payload.len());
    lemma_decimal_round_trip(payload.len());
    assert(bytes[end] == NUL);
    assert forall|j: int| 0 <= j < end implies !crate::bytes::occurs_at(bytes, seq![NUL], j) by {
        lemma_byte_occurs(bytes, NUL, j);
        if j < space {
            assert(bytes[j] == name[j]);
        } else if j > space {
            assert(bytes[j] == digits[j - space - 1]);
        }
    }
    lemma_byte_occurs(bytes, NUL, end);
    lemma_first_occurrence_is(bytes, seq![NUL], 0, end);
    let header = bytes.take(end);
    assert(header[space] == SPACE);
    assert forall|j: int| 0 <= j < space implies !crate::bytes::occurs_at(
        header,
        seq![SPACE],
        j,
    ) by {
        lemma_byte_occurs(header, SPACE, j);
        assert(header[j] == name[j]);
    }
    lemma_byte_occurs(header, SPACE, space);
    lemma_first_occurrence_is(header, seq![SPACE], 0, space);
    assert(header.take(space) =~= name);
    assert(header.skip(space + 1) =~= digits);
    let rest = bytes.skip(end + 1);
    assert(rest =~= payload);
    assert(rest.take(payload.len() as int) =~= payload);
}

impl Object {
    /// Whether the object can be stored: its kind is one of blob, tree and
    /// commit, and its payload has the size that its header declares.
    pub open spec fn well_formed(&self) -> bool {
        self.kind.is_stored() && self.payload@.len() == self.expected_size
    }

    /// The object of kind `kind` with the payload `payload`.
    pub fn new(kind: Kind, payload: Vec<u8>) -> (object: Object)
        ensures
            object.kind == kind,
            object.payload == payload,
            object.expected_size == payload@.len(),
    {
        Object { kind, expected_size: payload.len() as u64, payload }
    }

    /// Writes the uncompressed form of the object through a hashing sink:
    /// the form and its SHA-1.
    fn hashed(&self) -> (r: Result<(Vec<u8>, Vec<u8>), Error>)
        ensures
            match r {
                Ok((bytes, hash)) => {
                    &&& self.well_formed()
                    &&& bytes@ == framed(self.kind, self.payload@.len(), self.payload@)
                    &&& hash@ == object_id(self.kind, self.payload@)
                    &&& hash@.len() == DIGEST_LEN
                },
                Err(e) => if !self.kind.is_stored() {
                    e == Error::Unsupported
                } else {
                    e == Error::SizeMismatch && self.payload@.len() != self.expected_size
                },
            },
    {
        if !self.kind.stored() {
            return Err(Error::Unsupported);
        }
        if self.payload.len() as u64 != self.expected_size {
            return Err(Error::SizeMismatch);
        }
        let mut sink = HashWriter::new();
        sink.write(self.kind.name().as_slice());
        sink.write(vec![SPACE].as_slice());
        sink.write(format_decimal(self.expected_size).as_slice());
        sink.write(vec![NUL].as_slice());
        sink.write(self.payload.as_slice());
        assert(sink@ =~= framed(self.kind, self.payload@.len(), self.payload@));
        Ok(sink.finish())
    }

    /// The uncompressed form of the object. Fails with `Unsupported` for a
    /// kind that occurs only inside a pack, and with `SizeMismatch` where the
    /// payload has not the declared size.
    pub fn framed(&self) -> (r: Result<Vec<u8>, Error>)
        ensures
            match r {
                Ok(bytes) => self.well_formed() && bytes@ == framed(
                    self.kind,
                    self.payload@.len(),
                    self.payload@,
                ),
                Err(e) => if !self.kind.is_stored() {
                    e == Error::Unsupported
                } else {
                    e == Error::SizeMismatch && self.payload@.len() != self.expected_size
                },
            },
    {
        let (bytes, _) = self.hashed()?;
        Ok(bytes)
    }

    /// The address of the object: the SHA-1 of its uncompressed form. Fails as
    /// `framed` does.
    pub fn id(&self) -> (r: Result<Vec<u8>, Error>)
        ensures
            match r {
                Ok(hash) => self.well_formed() && hash@ == object_id(self.kind, self.payload@)
                    && hash@.len() == DIGEST_LEN,
                Err(e) => if !self.kind.is_stored() {
                    e == Error::Unsupported
                } else {
                    e == Error::SizeMismatch && self.payload@.len() != self.expected_size
                },
            },
    {
        let (_, hash) = self.hashed()?;
        Ok(hash)
    }

    /// Puts together what the store keeps of an object from its address and
    /// from what checked compression gave: nothing where it failed.
    pub fn sealed(hash: Vec<u8>, compressed: Option<Vec<u8>>) -> (r: Result<StoredObject, Error>)
        ensures
            match compressed {
                Some(bytes) => r matches Ok(stored) && stored.hash == hash && stored.bytes
                    == bytes,
                None => r matches Err(e) && e == Error::Io,
            },
    {
        match compressed {
            Some(bytes) => Ok(StoredObject { hash, bytes }),
            None => Err(Error::Io),
        }
    }

    /// Encodes the object for the store: its address and the content of its
    /// file, which is the zlib stream of the uncompressed form. The stream
    /// holds exactly that form, and reading it gives the object back.
    ///
    /// Fails with `Unsupported` for a kind that occurs only inside a pack,
    /// with `SizeMismatch` where the payload has not the declared size, and
    /// with `Io` where compression gives no stream or one that does not
    /// decompress to the uncompressed form; on every other object it
    /// succeeds.
    pub fn write(&self) -> (r: Result<StoredObject, Error>)
        ensures
            match r {
                Ok(stored) => {
                    &&& self.well_formed()
                    &&& stored.hash@ == object_id(self.kind, self.payload@)
                    &&& stored.hash@.len() == DIGEST_LEN
                    &&& checked(framed(self.kind, self.payload@.len(), self.payload@)) == Some(
                        stored.bytes@,
                    )
                    &&& holds(
                        stored.bytes@,
                        framed(self.kind, self.payload@.len(), self.payload@),
                    )
                    &&& stored_object(stored.bytes@) == Ok::<ObjectView, Error>(self@)
                },
                Err(e) => if !self.kind.is_stored() {
                    e == Error::Unsupported
                } else if self.payload@.len() != self.expected_size {
                    e == Error::SizeMismatch
                } else {
                    e == Error::Io && checked(
                        framed(self.kind, self.payload@.len(), self.payload@),
                    ) is None
                },
            },
    {
        let (bytes, hash) = self.hashed()?;
        let compressed = compress_checked(bytes.as_slice());
        proof {
            lemma_unframed_framed(self.kind, self.payload@);
        }
        Object::sealed(hash, compressed)
    }

    /// Reads an object from its uncompressed form.
    ///
    /// Fails with `Malformed` where there is no zero byte, no space before
    /// it, another name than `blob`, `tree` and `commit`, or a size that is no
    /// decimal number below 2^64; and with `SizeMismatch` where fewer bytes
    /// follow the header than it declares.
    pub fn from_framed(bytes: &[u8]) -> (r: Result<Object, Error>)
        ensures
            match r {
                Ok(object) => unframed(bytes@) == Ok::<ObjectView, Error>(object@)
                    && object.well_formed(),
                Err(e) => unframed(bytes@) == Err::<ObjectView, Error>(e),
            },
    {
        let end = match find_byte(bytes, NUL) {
            Some(end) => end,
            None => {
                return Err(Error::Malformed);
            },
        };
        let total: usize = bytes.len();
        assert(end < total);
        let header = slice_subrange(bytes, 0, end);
        assert(header@ == bytes@.take(end as int));
        let space = match find_byte(header, SPACE) {
            Some(space) => space,
            None => {
                return Err(Error::Malformed);
            },
        };
        let name = slice_subrange(header, 0, space);
        assert(name@ == header@.take(space as int));
        let digits = slice_subrange(header, space + 1, header.len());
        assert(digits@ == header@.skip(space + 1));
        let kind = match Kind::from_name(name) {
            Some(kind) => kind,
            None => {
                return Err(Error::Malformed);
            },
        };
        let size = match parse_decimal(digits) {
            Some(size) => size,
            None => {
                return Err(Error::Malformed);
            },
        };
        let rest = slice_subrange(bytes, end + 1, total);
        assert(rest@ == bytes@.skip(end + 1));
        if (rest.len() as u64) < size {
            return Err(Error::SizeMismatch);
        }
        let payload = slice_to_vec(slice_subrange(rest, 0, size as usize));
        assert(payload@ == rest@.take(size as int));
        Ok(Object { kind, expected_size: size, payload })
    }

    /// Reads an object from the content of its file in the store.
    ///
    /// Fails with `Malformed` where the content is no zlib stream, and as
    /// `from_framed` does on what the stream holds.
    pub fn read(stored: &[u8]) -> (r: Result<Object, Error>)
        ensures
            match r {
                Ok(object) => stored_object(stored@) == Ok::<ObjectView, Error>(object@)
                    && object.well_formed(),
                Err(e) => stored_object(stored@) == Err::<ObjectView, Error>(e),
            },
    {
        match zlib_decompress(stored) {
            None => Err(Error::Malformed),
            Some((bytes, _)) => Object::from_framed(bytes.as_slice()),
        }
    }
}

} // verus!
