//! What the commands that look at one object decide.

use crate::error::Error;
use crate::kind::Kind;
use crate::object::{framed, object_id, stored_object, Object, ObjectView, StoredObject};
use crate::tree::{entries_of, parse_tree, tree_entries, EntryView, TreeEntry};
use crate::zlib::checked;
use vstd::prelude::*;
use vstd::slice::slice_to_vec;

verus! {

/// What `cat-file` writes for `object`: the payload of a blob.
pub open spec fn cat_file(object: ObjectView, pretty_print: bool) -> Result<Seq<u8>, Error> {
    if !pretty_print || object.kind != Kind::Blob {
        Err(Error::Unsupported)
    } else if object.payload.len() != object.expected_size {
        Err(Error::SizeMismatch)
    } else {
        Ok(object.payload)
    }
}

/// Gives what `cat-file` writes to standard output for `object`.
///
/// Fails with `Unsupported` where `pretty_print` is not set or the object
/// is no blob, and with `SizeMismatch` where the payload has not the
/// declared size.
pub fn cat_file_invoke(object: &Object, pretty_print: bool) -> (r: Result<Vec<u8>, Error>)
    ensures
        match r {
            Ok(out) => cat_file(object@, pretty_print) == Ok::<Seq<u8>, Error>(out@),
            Err(e) => cat_file(object@, pretty_print) == Err::<Seq<u8>, Error>(e),
        },
{
    if !pretty_print {
        return Err(Error::Unsupported);
    }
    match object.kind {
        Kind::Blob => {
            if object.payload.len() as u64 != object.expected_size {
                return Err(Error::SizeMismatch);
            }
            Ok(slice_to_vec(object.payload.as_slice()))
        },
        _ => Err(Error::Unsupported),
    }
}

/// Makes the blob of a file's content for `hash-object`: its address, and
/// with `write` set also the content of its file in the store.
///
/// Fails with `Io` where `write` is set and compression gives no stream or
/// one that does not decompress to the blob; on every other input it
/// succeeds.
pub fn hash_object_invoke(write: bool, content: Vec<u8>) -> (r: Result<
    (Vec<u8>, Option<Vec<u8>>),
    Error,
>)
    ensures
        match r {
            Ok((hash, stored)) => {
                &&& hash@ == object_id(Kind::Blob, content@)
                &&& match stored {
                    Some(bytes) => {
                        &&& write
                        &&& stored_object(bytes@) == Ok::<ObjectView, Error>(
                            ObjectView {
                                kind: Kind::Blob,
                                expected_size: content@.len(),
                                payload: content@,
                            },
                        )
                        &&& checked(framed(Kind::Blob, content@.len(), content@)) == Some(
                            bytes@,
                        )
                    },
                    None => !write,
                }
            },
            Err(e) => e == Error::Io && write && checked(
                framed(Kind::Blob, content@.len(), content@),
            ) is None,
        },
{
    let object = Object::new(Kind::Blob, content);
    if write {
        let StoredObject { hash, bytes } = object.write()?;
        Ok((hash, Some(bytes)))
    } else {
        let hash = object.id()?;
        Ok((hash, None))
    }
}

/// The entries that `ls-tree` lists for `object`.
pub open spec fn ls_tree(object: ObjectView) -> Result<Seq<EntryView>, Error> {
    if object.kind != Kind::Tree {
        Err(Error::Unsupported)
    } else {
        match tree_entries(object.payload) {
            Some(entries) => Ok(entries),
            None => Err(Error::Malformed),
        }
    }
}

/// Gives the entries that `ls-tree` lists for `object`, in the order of the
/// tree; `ls_tree_line` writes the line of each.
///
/// Fails with `Unsupported` where the object is no tree, and with
/// `Malformed` where its payload is no sequence of whole entries.
pub fn ls_tree_invoke(object: &Object) -> (r: Result<Vec<TreeEntry>, Error>)
    ensures
        match r {
            Ok(list) => ls_tree(object@) == Ok::<Seq<EntryView>, Error>(entries_of(list@)),
            Err(e) => ls_tree(object@) == Err::<Seq<EntryView>, Error>(e),
        },
{
    match object.kind {
        Kind::Tree => parse_tree(object.payload.as_slice()),
        _ => Err(Error::Unsupported),
    }
}

} // verus!
