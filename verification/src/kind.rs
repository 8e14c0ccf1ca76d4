//! The kinds of objects.

use crate::bytes::bytes_eq;
use vstd::prelude::*;

verus! {

/// The kind of an object. `Blob`, `Tree` and `Commit` are stored; `RefDelta`
/// and `Unknown` occur only inside a pack.
#[derive(Clone, Copy, Debug, PartialEq, Eq, Structural)]
pub enum Kind {
    Blob,
    Tree,
    Commit,
    RefDelta,
    Unknown(u8),
}

impl Kind {
    /// The kind that a pack's type code stands for.
    pub open spec fn of_code(b: u8) -> Kind {
        if b == 1 {
            Kind::Commit
        } else if b == 2 {
            Kind::Tree
        } else if b == 3 {
            Kind::Blob
        } else if b == 7 {
            Kind::RefDelta
        } else {
            Kind::Unknown(b)
        }
    }

    /// Whether objects of this kind are kept in the store.
    pub open spec fn is_stored(self) -> bool {
        self == Kind::Blob || self == Kind::Tree || self == Kind::Commit
    }

    /// Maps the type code of a pack record to its kind.
    pub fn from_byte(b: u8) -> (kind: Kind)
        ensures
            kind == Kind::of_code(b),
    {
        match b {
            1 => Kind::Commit,
            2 => Kind::Tree,
            3 => Kind::Blob,
            7 => Kind::RefDelta,
            other => Kind::Unknown(other),
        }
    }

    /// Tells whether objects of this kind are kept in the store.
    pub fn stored(&self) -> (r: bool)
        ensures
            r == self.is_stored(),
    {
        match self {
            Kind::Blob | Kind::Tree | Kind::Commit => true,
            _ => false,
        }
    }

    /// The name that stands for this kind in an object's header, and
    /// `unsupported` for the kinds that occur only inside a pack.
    pub open spec fn name_bytes(self) -> Seq<u8> {
        match self {
            // blob
            Kind::Blob => seq![0x62u8, 0x6cu8, 0x6fu8, 0x62u8],
            // tree
            Kind::Tree => seq![0x74u8, 0x72u8, 0x65u8, 0x65u8],
            // commit
            Kind::Commit => seq![0x63u8, 0x6fu8, 0x6du8, 0x6du8, 0x69u8, 0x74u8],
            // unsupported
            _ => seq![0x75u8, 0x6eu8, 0x73u8, 0x75u8, 0x70u8, 0x70u8, 0x6fu8, 0x72u8, 0x74u8, 0x65u8, 0x64u8],
        }
    }

    /// The stored kind that the header name `name` stands for.
    pub open spec fn of_name(name: Seq<u8>) -> Option<Kind> {
        if name == Kind::Blob.name_bytes() {
            Some(Kind::Blob)
        } else if name == Kind::Tree.name_bytes() {
            Some(Kind::Tree)
        } else if name == Kind::Commit.name_bytes() {
            Some(Kind::Commit)
        } else {
            None
        }
    }

    /// Gives the name that stands for this kind in an object's header, and
    /// `unsupported` for the kinds that occur only inside a pack.
    pub fn name(&self) -> (name: Vec<u8>)
        ensures
            name@ == self.name_bytes(),
    {
        let name = match self {
            Kind::Blob => vec![0x62u8, 0x6cu8, 0x6fu8, 0x62u8],
            Kind::Tree => vec![0x74u8, 0x72u8, 0x65u8, 0x65u8],
            Kind::Commit => vec![0x63u8, 0x6fu8, 0x6du8, 0x6du8, 0x69u8, 0x74u8],
            _ => vec![0x75u8, 0x6eu8, 0x73u8, 0x75u8, 0x70u8, 0x70u8, 0x6fu8, 0x72u8, 0x74u8, 0x65u8, 0x64u8],
        };
        assert(name@ =~= self.name_bytes());
        name
    }

    /// Recognises the header names `blob`, `tree` and `commit`.
    pub fn from_name(name: &[u8]) -> (kind: Option<Kind>)
        ensures
            kind == Kind::of_name(name@),
    {
        if bytes_eq(name, Kind::Blob.name().as_slice()) {
            Some(Kind::Blob)
        } else if bytes_eq(name, Kind::Tree.name().as_slice()) {
            Some(Kind::Tree)
        } else if bytes_eq(name, Kind::Commit.name().as_slice()) {
            Some(Kind::Commit)
        } else {
            None
        }
    }

    /// The name of a stored kind stands for that kind, and holds neither a
    /// space nor a zero byte.
    pub proof fn lemma_name_round_trip(self)
        requires
            self.is_stored(),
        ensures
            Kind::of_name(self.name_bytes()) == Some(self),
            forall|i: int|
                0 <= i < self.name_bytes().len() ==> #[trigger] self.name_bytes()[i] != 0
                    && self.name_bytes()[i] != 0x20,
    {
        assert(Kind::Blob.name_bytes()[0] == 0x62u8);
        assert(Kind::Tree.name_bytes()[0] == 0x74u8);
        assert(Kind::Commit.name_bytes()[0] == 0x63u8);
    }
}

} // verus!
