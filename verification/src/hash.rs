//! SHA-1 digests, and a sink that hashes what is written to it.

use crate::bytes::append;
use vstd::prelude::*;

verus! {

/// The SHA-1 digest of a byte string, as the `sha1` crate computes it.
pub uninterp spec fn sha1_of(data: Seq<u8>) -> Seq<u8>;

/// Number of bytes in a SHA-1 digest.
pub const DIGEST_LEN: usize = 20;

/// Calls `Sha1::new`, `update` and `finalize` of the `sha1` crate on `data`.
/// Trusted: the result is the SHA-1 digest of `data`, and it has 20 bytes.
#[verifier::external_body]
pub(crate) fn sha1_digest(data: &[u8]) -> (digest: Vec<u8>)
    ensures
        digest@ == sha1_of(data@),
        digest@.len() == DIGEST_LEN,
{
    let mut hasher = <sha1::Sha1 as sha1::Digest>::new();
    sha1::Digest::update(&mut hasher, data);
    sha1::Digest::finalize(hasher).to_vec()
}

/// A sink that keeps the bytes written to it and gives them back with their
/// SHA-1, so that what is stored and what is hashed are the same bytes.
pub struct HashWriter {
    writer: Vec<u8>,
}

impl HashWriter {
    /// The bytes written so far.
    pub closed spec fn view(&self) -> Seq<u8> {
        self.writer@
    }

    /// A sink to which nothing has been written.
    pub fn new() -> (sink: HashWriter)
        ensures
            sink@ == Seq::<u8>::empty(),
    {
        HashWriter { writer: Vec::new() }
    }

    /// Writes all of `buf` and says how many bytes were written.
    pub fn write(&mut self, buf: &[u8]) -> (n: usize)
        ensures
            n == buf@.len(),
            final(self)@ == old(self)@ + buf@,
    {
        append(&mut self.writer, buf);
        buf.len()
    }

    /// Does nothing: the sink holds what was written to it.
    pub fn flush(&mut self)
        ensures
            final(self)@ == old(self)@,
    {
    }

    /// Ends the writing: gives the bytes written and their SHA-1.
    pub fn finish(self) -> (r: (Vec<u8>, Vec<u8>))
        ensures
            r.0@ == self@,
            r.1@ == sha1_of(self@),
            r.1@.len() == DIGEST_LEN,
    {
        let digest = sha1_digest(self.writer.as_slice());
        (self.writer, digest)
    }
}

} // verus!
