//! What is to be made in a working tree for the entries of a tree.

use crate::commit::{commit_tree, tree_of_commit};
use crate::hash::DIGEST_LEN;
use crate::kind::Kind;
use crate::error::Error;
use crate::object::{Object, ObjectView};
use crate::space::{trim_end, trimmed_end};
use crate::tree::{entries_of, parse_tree, tree_entries, EntryView, Mode};
use vstd::prelude::*;
use vstd::slice::slice_to_vec;
use vstd::utf8::valid_utf8;

verus! {

/// The permission bits of a regular file.
pub const FILE_PERMISSIONS: u32 = 0o644;

/// The permission bits of an executable file.
pub const EXECUTABLE_PERMISSIONS: u32 = 0o755;

/// Calls `std::str::from_utf8` on `bytes` and says whether it succeeded.
/// Trusted: it succeeds on well-formed UTF-8 and on nothing else.
#[verifier::external_body]
pub(crate) fn is_utf8(bytes: &[u8]) -> (r: bool)
    ensures
        r == valid_utf8(bytes@),
{
    match std::str::from_utf8(bytes) {
        Ok(_) => true,
        Err(_) => false,
    }
}

/// One entry of a tree that is to be checked out, with its mode read.
#[derive(Debug)]
pub struct Planned {
    pub mode: Mode,
    pub name: Vec<u8>,
    pub hash: Vec<u8>,
}

/// One entry of a tree that is to be checked out, as contracts speak of it.
pub struct PlannedView {
    pub mode: Mode,
    pub name: Seq<u8>,
    pub hash: Seq<u8>,
}

impl View for Planned {
    type V = PlannedView;

    open spec fn view(&self) -> PlannedView {
        PlannedView { mode: self.mode, name: self.name@, hash: self.hash@ }
    }
}

/// The planned entries that a list of them stands for.
pub open spec fn planned_of(list: Seq<Planned>) -> Seq<PlannedView> {
    list.map_values(|p: Planned| p@)
}

/// Whether the mode of each entry is one of the four that can be checked
/// out.
pub open spec fn all_modes_known(entries: Seq<EntryView>) -> bool {
    forall|i: int| 0 <= i < entries.len() ==> Mode::of_text((#[trigger] entries[i]).mode) is Some
}

/// The entries with their modes read.
pub open spec fn with_modes(entries: Seq<EntryView>) -> Seq<PlannedView> {
    entries.map_values(
        |e: EntryView| PlannedView { mode: Mode::of_text(e.mode)->0, name: e.name, hash: e.hash },
    )
}

/// What is to be made of the tree with the payload `payload`, entry by
/// entry.
pub open spec fn plan(payload: Seq<u8>) -> Result<Seq<PlannedView>, Error> {
    match tree_entries(payload) {
        None => Err(Error::Malformed),
        Some(entries) => if all_modes_known(entries) {
            Ok(with_modes(entries))
        } else {
            Err(Error::Unsupported)
        },
    }
}

/// Reads the payload of a tree that is to be checked out: each entry with
/// its mode, in the order of the tree. For a directory the caller makes the
/// directory and goes on with the tree that the entry names; for the others
/// `handle_file_creation` says what to make.
///
/// Fails with `Malformed` where the payload is no tree, and with
/// `Unsupported` where an entry has another mode than `40000`, `100644`,
/// `100755` and `120000`.
pub fn recursively_populate_dir_structure(payload: &[u8]) -> (r: Result<Vec<Planned>, Error>)
    ensures
        match r {
            Ok(list) => plan(payload@) == Ok::<Seq<PlannedView>, Error>(planned_of(list@)),
            Err(e) => plan(payload@) == Err::<Seq<PlannedView>, Error>(e),
        },
{
    let entries = parse_tree(payload)?;
    let ghost views = entries_of(entries@);
    let mut list: Vec<Planned> = Vec::new();
    let mut i: usize = 0;
    while i < entries.len()
        invariant
            i <= entries.len(),
            views == entries_of(entries@),
            tree_entries(payload@) == Some(views),
            list@.len() == i,
            forall|k: int| 0 <= k < i ==> Mode::of_text((#[trigger] views[k]).mode) is Some,
            forall|k: int| 0 <= k < i ==> (#[trigger] list@[k])@ == with_modes(views)[k],
        decreases entries.len() - i,
    {
        let entry = &entries[i];
        assert(views[i as int] == entry@);
        let mode = match Mode::from_bytes(entry.mode.as_slice()) {
            Ok(mode) => mode,
            Err(e) => {
                assert(Mode::of_text(views[i as int].mode) is None);
                return Err(e);
            },
        };
        list.push(
            Planned {
                mode,
                name: slice_to_vec(entry.name.as_slice()),
                hash: slice_to_vec(entry.hash.as_slice()),
            },
        );
        i = i + 1;
    }
    assert(planned_of(list@) =~= with_modes(views));
    Ok(list)
}

/// What is to be made in the working tree for an entry that is no
/// directory.
#[derive(Debug)]
pub enum Creation {
    /// A file with the given permission bits and content.
    File { permissions: u32, content: Vec<u8> },
    /// A symbolic link to the given target.
    Symlink { target: Vec<u8> },
}

/// What is to be made in the working tree, as contracts speak of it.
pub enum CreationView {
    File { permissions: u32, content: Seq<u8> },
    Symlink { target: Seq<u8> },
}

impl View for Creation {
    type V = CreationView;

    open spec fn view(&self) -> CreationView {
        match self {
            Creation::File { permissions, content } => CreationView::File {
                permissions: *permissions,
                content: content@,
            },
            Creation::Symlink { target } => CreationView::Symlink { target: target@ },
        }
    }
}

/// What is to be made for an entry of mode `mode` that names the object
/// `object`. A regular file gets the permission bits 644, an executable
/// file 755, and both get the object's payload as content; a symbolic link
/// points where the payload says, white space at its end left out.
pub open spec fn creation(mode: Mode, object: ObjectView) -> Result<CreationView, Error> {
    match mode {
        Mode::Directory => Err(Error::Unsupported),
        Mode::File | Mode::Executable => if object.payload.len() != object.expected_size {
            Err(Error::SizeMismatch)
        } else {
            Ok(
                CreationView::File {
                    permissions: if mode == Mode::Executable {
                        EXECUTABLE_PERMISSIONS
                    } else {
                        FILE_PERMISSIONS
                    },
                    content: object.payload,
                },
            )
        },
        Mode::Symlink => if !valid_utf8(object.payload) {
            Err(Error::Malformed)
        } else {
            Ok(CreationView::Symlink { target: trimmed_end(object.payload) })
        },
    }
}

/// Says what is to be made in the working tree for an entry of mode `mode`
/// that names the object `object`.
///
/// Fails with `Unsupported` for a directory, with `SizeMismatch` where the
/// object of a file has not the size that it declares, and with `Malformed`
/// where the target of a symbolic link is not UTF-8.
pub fn handle_file_creation(mode: Mode, object: &Object) -> (r: Result<Creation, Error>)
    ensures
        match r {
            Ok(made) => creation(mode, object@) == Ok::<CreationView, Error>(made@),
            Err(e) => creation(mode, object@) == Err::<CreationView, Error>(e),
        },
{
    match mode {
        Mode::Directory => Err(Error::Unsupported),
        Mode::File | Mode::Executable => {
            if object.payload.len() as u64 != object.expected_size {
                return Err(Error::SizeMismatch);
            }
            let permissions: u32 = match mode {
                Mode::Executable => EXECUTABLE_PERMISSIONS,
                _ => FILE_PERMISSIONS,
            };
            Ok(Creation::File { permissions, content: slice_to_vec(object.payload.as_slice()) })
        },
        Mode::Symlink => {
            if !is_utf8(object.payload.as_slice()) {
                return Err(Error::Malformed);
            }
            Ok(Creation::Symlink { target: slice_to_vec(trim_end(object.payload.as_slice())) })
        },
    }
}

/// The address of the tree that is checked out for the commit `commit`.
pub open spec fn checkout_tree(commit: ObjectView) -> Result<Seq<u8>, Error> {
    if commit.kind != Kind::Commit {
        Err(Error::Unsupported)
    } else {
        match commit_tree(commit.payload) {
            Some(hash) => Ok(hash),
            None => Err(Error::Malformed),
        }
    }
}

/// Gives the address of the tree that is to be checked out for the commit
/// `commit`; `recursively_populate_dir_structure` reads that tree.
///
/// Fails with `Unsupported` where the object is no commit, and with
/// `Malformed` where its first line does not name a tree.
pub fn checkout_empty_invoke(commit: &Object) -> (r: Result<Vec<u8>, Error>)
    ensures
        match r {
            Ok(hash) => checkout_tree(commit@) == Ok::<Seq<u8>, Error>(hash@) && hash@.len()
                == DIGEST_LEN,
            Err(e) => checkout_tree(commit@) == Err::<Seq<u8>, Error>(e),
        },
{
    match commit.kind {
        Kind::Commit => tree_of_commit(commit.payload.as_slice()),
        _ => Err(Error::Unsupported),
    }
}

} // verus!
