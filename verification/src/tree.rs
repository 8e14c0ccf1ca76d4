//! Trees: their entries, their payload, and the tree of a directory.

use crate::address::{hex_of, to_hex};
use crate::bytes::{
    append, bytes_eq, contains_byte, find_byte, first_occurrence, lemma_byte_occurs,
    lemma_first_occurrence_is,
};
use crate::error::Error;
use crate::hash::DIGEST_LEN;
use crate::kind::Kind;
use crate::object::{Object, NUL, SPACE};
use crate::order::{lemma_name_le_total, lemma_name_le_transitive, name_le, precedes};
use vstd::prelude::*;
use vstd::slice::{slice_subrange, slice_to_vec};

verus! {

/// The ASCII code of the slash.
pub const SLASH: u8 = 0x2f;

/// The ASCII code of the line feed.
pub const LF: u8 = 0x0a;

/// One entry of a tree: the mode as the tree writes it, the name, and the
/// address of the object that the entry stands for.
#[derive(Debug)]
pub struct TreeEntry {
    pub mode: Vec<u8>,
    pub name: Vec<u8>,
    pub hash: Vec<u8>,
}

/// One entry of a tree, as contracts speak of it.
pub struct EntryView {
    pub mode: Seq<u8>,
    pub name: Seq<u8>,
    pub hash: Seq<u8>,
}

impl View for TreeEntry {
    type V = EntryView;

    open spec fn view(&self) -> EntryView {
        EntryView { mode: self.mode@, name: self.name@, hash: self.hash@ }
    }
}

/// The entries that a list of entries stands for.
pub open spec fn entries_of(list: Seq<TreeEntry>) -> Seq<EntryView> {
    list.map_values(|e: TreeEntry| e@)
}

/// Whether `name` can name an entry: it is not empty and holds neither a
/// slash nor a zero byte.
pub open spec fn valid_name(name: Seq<u8>) -> bool {
    name.len() > 0 && !name.contains(SLASH) && !name.contains(NUL)
}

/// The bytes of one entry in a tree's payload: mode, space, name, zero byte,
/// address.
pub open spec fn entry_bytes(e: EntryView) -> Seq<u8> {
    e.mode + seq![SPACE] + e.name + seq![NUL] + e.hash
}

/// The payload of the tree with the entries `entries`: their bytes one after
/// the other.
pub open spec fn tree_payload(entries: Seq<EntryView>) -> Seq<u8>
    decreases entries.len(),
{
    if entries.len() == 0 {
        Seq::empty()
    } else {
        tree_payload(entries.drop_last()) + entry_bytes(entries.last())
    }
}

/// The entry at the start of the payload `s`, and the number of bytes it
/// occupies. The first zero byte ends mode and name, which the first space
/// parts; 20 bytes of address follow it. `None` where the zero byte, the
/// space or a byte of the address is missing, and where the name is empty or
/// holds a slash.
pub open spec fn first_entry(s: Seq<u8>) -> Option<(EntryView, int)> {
    match first_occurrence(s, seq![NUL], 0) {
        None => None,
        Some(end) => {
            let header = s.take(end);
            match first_occurrence(header, seq![SPACE], 0) {
                None => None,
                Some(space) => {
                    let name = header.skip(space + 1);
                    if name.len() == 0 || name.contains(SLASH) || s.len() < end + 1 + DIGEST_LEN {
                        None
                    } else {
                        Some(
                            (
                                EntryView {
                                    mode: header.take(space),
                                    name,
                                    hash: s.subrange(end + 1, end + 1 + DIGEST_LEN),
                                },
                                end + 1 + DIGEST_LEN,
                            ),
                        )
                    }
                },
            }
        },
    }
}

/// The entries that the payload `s` of a tree consists of, or `None` where
/// `s` is no sequence of whole entries.
pub open spec fn tree_entries(s: Seq<u8>) -> Option<Seq<EntryView>>
    decreases s.len(),
{
    if s.len() == 0 {
        Some(Seq::empty())
    } else {
        match first_entry(s) {
            None => None,
            Some((entry, used)) => if 0 < used <= s.len() {
                match tree_entries(s.skip(used)) {
                    None => None,
                    Some(rest) => Some(seq![entry] + rest),
                }
            } else {
                None
            },
        }
    }
}

/// Whether the entry can stand in a tree: its mode holds neither a space
/// nor a zero byte, its name is one, and its address has the length of a
/// SHA-1.
pub open spec fn valid_entry(e: EntryView) -> bool {
    &&& !e.mode.contains(SPACE)
    &&& !e.mode.contains(NUL)
    &&& valid_name(e.name)
    &&& e.hash.len() == DIGEST_LEN
}

/// The bytes of an entry that can stand in a tree are read as that entry,
/// whatever follows them.
pub proof fn lemma_first_entry(e: EntryView, tail: Seq<u8>)
    requires
        valid_entry(e),
    ensures
        first_entry(entry_bytes(e) + tail) == Some((e, entry_bytes(e).len() as int)),
{
    let s = entry_bytes(e) + tail;
    let space = e.mode.len() as int;
    let end = space + 1 + e.name.len();
    assert(s[end] == NUL);
    assert forall|j: int| 0 <= j < end implies !crate::bytes::occurs_at(s, seq![NUL], j) by {
        lemma_byte_occurs(s, NUL, j);
        if j < space {
            assert(s[j] == e.mode[j]);
            assert(e.mode.contains(s[j]));
        } else if j > space {
            assert(s[j] == e.name[j - space - 1]);
            assert(e.name.contains(s[j]));
        }
    }
    lemma_byte_occurs(s, NUL, end);
    lemma_first_occurrence_is(s, seq![NUL], 0, end);
    let header = s.take(end);
    assert(header[space] == SPACE);
    assert forall|j: int| 0 <= j < space implies !crate::bytes::occurs_at(
        header,
        seq![SPACE],
        j,
    ) by {
        lemma_byte_occurs(header, SPACE, j);
        assert(header[j] == e.mode[j]);
        assert(e.mode.contains(header[j]));
    }
    lemma_byte_occurs(header, SPACE, space);
    lemma_first_occurrence_is(header, seq![SPACE], 0, space);
    assert(header.take(space) =~= e.mode);
    assert(header.skip(space + 1) =~= e.name);
    assert(s.subrange(end + 1, end + 1 + DIGEST_LEN) =~= e.hash);
}

/// The payload of a tree starts with the bytes of its first entry.
pub proof fn lemma_tree_payload_front(e: EntryView, rest: Seq<EntryView>)
    ensures
        tree_payload(seq![e] + rest) == entry_bytes(e) + tree_payload(rest),
    decreases rest.len(),
{
    let all = seq![e] + rest;
    if rest.len() == 0 {
        assert(all.drop_last() =~= Seq::<EntryView>::empty());
        assert(tree_payload(all.drop_last()) =~= Seq::<u8>::empty());
        assert(all.last() == e);
        assert(tree_payload(all) =~= entry_bytes(e) + tree_payload(rest));
    } else {
        lemma_tree_payload_front(e, rest.drop_last());
        assert(all.drop_last() =~= seq![e] + rest.drop_last());
        assert(all.last() == rest.last());
        assert(tree_payload(all) =~= entry_bytes(e) + tree_payload(rest));
    }
}

/// Reading the payload of a tree whose entries can all stand in a tree
/// gives the entries back.
pub proof fn lemma_tree_round_trip(entries: Seq<EntryView>)
    requires
        forall|i: int| 0 <= i < entries.len() ==> valid_entry(#[trigger] entries[i]),
    ensures
        tree_entries(tree_payload(entries)) == Some(entries),
    decreases entries.len(),
{
    if entries.len() > 0 {
        let e = entries[0];
        let rest = entries.skip(1);
        assert(entries =~= seq![e] + rest);
        lemma_tree_payload_front(e, rest);
        lemma_first_entry(e, tree_payload(rest));
        lemma_tree_round_trip(rest);
        let s = tree_payload(entries);
        assert(s.skip(entry_bytes(e).len() as int) =~= tree_payload(rest));
    }
}

/// Reads the entry at the start of `data`, and says how many bytes it
/// occupies.
pub fn read_entry(data: &[u8]) -> (r: Result<(TreeEntry, usize), Error>)
    ensures
        match r {
            Ok((entry, used)) => first_entry(data@) == Some((entry@, used as int)) && 0 < used
                <= data@.len(),
            Err(e) => e == Error::Malformed && first_entry(data@) is None,
        },
{
    let end = match find_byte(data, NUL) {
        Some(end) => end,
        None => {
            return Err(Error::Malformed);
        },
    };
    let total: usize = data.len();
    assert(end < total);
    let header = slice_subrange(data, 0, end);
    assert(header@ == data@.take(end as int));
    let space = match find_byte(header, SPACE) {
        Some(space) => space,
        None => {
            return Err(Error::Malformed);
        },
    };
    let name = slice_subrange(header, space + 1, header.len());
    assert(name@ == header@.skip(space + 1));
    if name.len() == 0 || contains_byte(name, SLASH) || total - end - 1 < DIGEST_LEN {
        return Err(Error::Malformed);
    }
    let mode = slice_subrange(header, 0, space);
    assert(mode@ == header@.take(space as int));
    let hash = slice_subrange(data, end + 1, end + 1 + DIGEST_LEN);
    Ok(
        (
            TreeEntry { mode: slice_to_vec(mode), name: slice_to_vec(name), hash: slice_to_vec(hash) },
            end + 1 + DIGEST_LEN,
        ),
    )
}

/// Reads the payload of a tree into its entries. Fails with `Malformed`
/// where the payload is no sequence of whole entries.
pub fn parse_tree(payload: &[u8]) -> (r: Result<Vec<TreeEntry>, Error>)
    ensures
        match r {
            Ok(list) => tree_entries(payload@) == Some(entries_of(list@)),
            Err(e) => e == Error::Malformed && tree_entries(payload@) is None,
        },
{
    let mut list: Vec<TreeEntry> = Vec::new();
    let mut pos: usize = 0;
    assert(payload@.skip(0) =~= payload@);
    assert(entries_of(list@) =~= Seq::<EntryView>::empty());
    while pos < payload.len()
        invariant
            pos <= payload.len(),
            tree_entries(payload@) == match tree_entries(payload@.skip(pos as int)) {
                Some(rest) => Some(entries_of(list@) + rest),
                None => None,
            },
        decreases payload.len() - pos,
    {
        let tail = slice_subrange(payload, pos, payload.len());
        assert(tail@ == payload@.skip(pos as int));
        match read_entry(tail) {
            Err(e) => {
                return Err(e);
            },
            Ok((entry, used)) => {
                proof {
                    assert(tail@.skip(used as int) =~= payload@.skip(pos + used));
                    let ghost before = entries_of(list@);
                    let ghost after = entries_of(list@.push(entry));
                    assert(after =~= before.push(entry@));
                    if let Some(rest) = tree_entries(payload@.skip(pos + used)) {
                        assert(before + (seq![entry@] + rest) =~= after + rest);
                    }
                }
                list.push(entry);
                pos = pos + used;
            },
        }
    }
    assert(entries_of(list@) + Seq::<EntryView>::empty() =~= entries_of(list@));
    Ok(list)
}

/// Writes the payload of the tree with the entries `entries`.
pub fn tree_bytes(entries: &Vec<TreeEntry>) -> (payload: Vec<u8>)
    ensures
        payload@ == tree_payload(entries_of(entries@)),
{
    let mut payload: Vec<u8> = Vec::new();
    let mut i: usize = 0;
    let ghost views = entries_of(entries@);
    assert(views.take(0) =~= Seq::<EntryView>::empty());
    while i < entries.len()
        invariant
            i <= entries.len(),
            views == entries_of(entries@),
            payload@ == tree_payload(views.take(i as int)),
        decreases entries.len() - i,
    {
        let entry = &entries[i];
        proof {
            let ghost next = views.take(i + 1);
            assert(next.drop_last() =~= views.take(i as int));
            assert(next.last() == entry@);
        }
        let ghost before = payload@;
        append(&mut payload, entry.mode.as_slice());
        payload.push(SPACE);
        append(&mut payload, entry.name.as_slice());
        payload.push(NUL);
        append(&mut payload, entry.hash.as_slice());
        assert(payload@ =~= before + entry_bytes(entry@));
        i = i + 1;
    }
    assert(views.take(i as int) =~= views);
    payload
}

/// `sorted` with `e` put behind the last entry whose name stands before the
/// name of `e` or is that name.
pub open spec fn insert_by_name(sorted: Seq<EntryView>, e: EntryView) -> Seq<EntryView>
    decreases sorted.len(),
{
    if sorted.len() == 0 {
        seq![e]
    } else if name_le(sorted.last().name, e.name) {
        sorted.push(e)
    } else {
        insert_by_name(sorted.drop_last(), e).push(sorted.last())
    }
}

/// The entries in the order of a tree: by name with the sentinel behind it.
/// Entries of one name keep the order they came in.
pub open spec fn sort_by_name(entries: Seq<EntryView>) -> Seq<EntryView>
    decreases entries.len(),
{
    if entries.len() == 0 {
        Seq::empty()
    } else {
        insert_by_name(sort_by_name(entries.drop_last()), entries.last())
    }
}

/// Whether the entries stand in the order of a tree.
pub open spec fn in_tree_order(entries: Seq<EntryView>) -> bool {
    forall|i: int, j: int|
        0 <= i <= j < entries.len() ==> name_le(
            (#[trigger] entries[i]).name,
            (#[trigger] entries[j]).name,
        )
}

/// Putting an entry into ordered entries at the place that `insert_by_name`
/// describes is an insertion at the index before which all names stand
/// before the entry's or are it, and from which on none does.
proof fn lemma_insert_at(sorted: Seq<EntryView>, e: EntryView, at: int)
    requires
        0 <= at <= sorted.len(),
        at > 0 ==> name_le(sorted[at - 1].name, e.name),
        forall|k: int| at <= k < sorted.len() ==> !name_le(sorted[k].name, e.name),
    ensures
        insert_by_name(sorted, e) == sorted.insert(at, e),
    decreases sorted.len() - at,
{
    if at == sorted.len() {
        assert(sorted.insert(at, e) =~= sorted.push(e));
    } else {
        let shorter = sorted.drop_last();
        lemma_insert_at(shorter, e, at);
        assert(shorter.insert(at, e).push(sorted.last()) =~= sorted.insert(at, e));
    }
}

/// Putting an entry into ordered entries gives ordered entries: those that
/// were there, and the entry.
proof fn lemma_insert_keeps_order(sorted: Seq<EntryView>, e: EntryView)
    requires
        in_tree_order(sorted),
    ensures
        in_tree_order(insert_by_name(sorted, e)),
        insert_by_name(sorted, e).to_multiset() == sorted.to_multiset().insert(e),
        insert_by_name(sorted, e).len() == sorted.len() + 1,
    decreases sorted.len(),
{
    broadcast use vstd::seq_lib::to_multiset_build;

    let out = insert_by_name(sorted, e);
    crate::order::lemma_lex_le_reflexive(crate::order::sort_key(e.name));
    if sorted.len() == 0 {
        assert(sorted =~= Seq::empty());
        assert(out[0] == e);
    } else if name_le(sorted.last().name, e.name) {
        assert forall|i: int, j: int| 0 <= i <= j < out.len() implies name_le(
            (#[trigger] out[i]).name,
            (#[trigger] out[j]).name,
        ) by {
            if j == sorted.len() {
                if i < j {
                    assert(name_le(sorted[i].name, sorted[sorted.len() - 1].name));
                    lemma_name_le_transitive(sorted[i].name, sorted.last().name, e.name);
                } else {
                    crate::order::lemma_lex_le_reflexive(crate::order::sort_key(e.name));
                }
            } else {
                assert(name_le(sorted[i].name, sorted[j].name));
            }
        }
    } else {
        let shorter = sorted.drop_last();
        let last = sorted.last();
        assert forall|i: int, j: int| 0 <= i <= j < shorter.len() implies name_le(
            (#[trigger] shorter[i]).name,
            (#[trigger] shorter[j]).name,
        ) by {
            assert(name_le(sorted[i].name, sorted[j].name));
        }
        lemma_insert_keeps_order(shorter, e);
        let inner = insert_by_name(shorter, e);
        assert(out == inner.push(last));
        lemma_name_le_total(last.name, e.name);
        assert forall|i: int, j: int| 0 <= i <= j < out.len() implies name_le(
            (#[trigger] out[i]).name,
            (#[trigger] out[j]).name,
        ) by {
            if j < inner.len() {
                assert(name_le(inner[i].name, inner[j].name));
            } else if i == j {
                crate::order::lemma_lex_le_reflexive(crate::order::sort_key(last.name));
            } else {
                // Every entry of `inner` is `e` or an entry of `shorter`.
                assert(inner.to_multiset().count(inner[i]) > 0) by {
                    vstd::seq_lib::to_multiset_contains(inner, inner[i]);
                    assert(inner.contains(inner[i]));
                }
                if inner[i] == e {
                } else {
                    assert(shorter.to_multiset().count(inner[i]) > 0);
                    vstd::seq_lib::to_multiset_contains(shorter, inner[i]);
                    let k = choose|k: int| 0 <= k < shorter.len() && shorter[k] == inner[i];
                    assert(name_le(sorted[k].name, sorted[sorted.len() - 1].name));
                }
            }
        }
        assert(sorted =~= shorter.push(last));
        assert(out.to_multiset() =~= sorted.to_multiset().insert(e));
    }
}

/// The order of a tree: the sorted entries stand in it, and they are the
/// entries that were given, each as often as it was given.
pub proof fn lemma_sort_by_name(entries: Seq<EntryView>)
    ensures
        in_tree_order(sort_by_name(entries)),
        sort_by_name(entries).to_multiset() == entries.to_multiset(),
        sort_by_name(entries).len() == entries.len(),
    decreases entries.len(),
{
    broadcast use vstd::seq_lib::to_multiset_build;

    if entries.len() == 0 {
        assert(entries =~= Seq::empty());
    } else {
        lemma_sort_by_name(entries.drop_last());
        lemma_insert_keeps_order(sort_by_name(entries.drop_last()), entries.last());
        assert(entries =~= entries.drop_last().push(entries.last()));
    }
}

/// Copies an entry.
fn copy_entry(entry: &TreeEntry) -> (copy: TreeEntry)
    ensures
        copy@ == entry@,
{
    TreeEntry {
        mode: slice_to_vec(entry.mode.as_slice()),
        name: slice_to_vec(entry.name.as_slice()),
        hash: slice_to_vec(entry.hash.as_slice()),
    }
}

/// Puts the entries into the order of a tree.
pub fn sort_entries(entries: &Vec<TreeEntry>) -> (sorted: Vec<TreeEntry>)
    ensures
        entries_of(sorted@) == sort_by_name(entries_of(entries@)),
{
    let mut sorted: Vec<TreeEntry> = Vec::new();
    let mut i: usize = 0;
    let ghost views = entries_of(entries@);
    assert(views.take(0) =~= Seq::<EntryView>::empty());
    assert(entries_of(sorted@) =~= Seq::<EntryView>::empty());
    while i < entries.len()
        invariant
            i <= entries.len(),
            views == entries_of(entries@),
            entries_of(sorted@) == sort_by_name(views.take(i as int)),
        decreases entries.len() - i,
    {
        let entry = copy_entry(&entries[i]);
        proof {
            let ghost next = views.take(i + 1);
            assert(next.drop_last() =~= views.take(i as int));
            assert(next.last() == entry@);
        }
        let mut at: usize = sorted.len();
        while at > 0 && !precedes(sorted[at - 1].name.as_slice(), entry.name.as_slice())
            invariant
                at <= sorted.len(),
                forall|k: int|
                    at <= k < sorted.len() ==> !name_le(
                        (#[trigger] sorted@[k]).name@,
                        entry.name@,
                    ),
            decreases at,
        {
            at = at - 1;
        }
        proof {
            let ghost before = entries_of(sorted@);
            assert forall|k: int| at <= k < before.len() implies !name_le(
                before[k].name,
                entry@.name,
            ) by {
                assert(before[k] == sorted@[k]@);
            }
            if at > 0 {
                assert(before[at - 1] == sorted@[at - 1]@);
            }
            lemma_insert_at(before, entry@, at as int);
            assert(entries_of(sorted@.insert(at as int, entry)) =~= before.insert(
                at as int,
                entry@,
            ));
        }
        sorted.insert(at, entry);
        i = i + 1;
    }
    assert(views.take(i as int) =~= views);
    sorted
}

/// What an entry of a tree can stand for.
#[derive(Clone, Copy, Debug, PartialEq, Eq, Structural)]
pub enum Mode {
    /// A directory: `40000`.
    Directory,
    /// A regular file: `100644`.
    File,
    /// An executable file: `100755`.
    Executable,
    /// A symbolic link: `120000`.
    Symlink,
}

/// The permission bits that make a file executable.
pub const EXECUTE_BITS: u32 = 0o111;

impl Mode {
    /// The mode as a tree writes it.
    pub open spec fn text(self) -> Seq<u8> {
        match self {
            // 40000
            Mode::Directory => seq![0x34u8, 0x30, 0x30, 0x30, 0x30],
            // 100644
            Mode::File => seq![0x31u8, 0x30, 0x30, 0x36, 0x34, 0x34],
            // 100755
            Mode::Executable => seq![0x31u8, 0x30, 0x30, 0x37, 0x35, 0x35],
            // 120000
            Mode::Symlink => seq![0x31u8, 0x32, 0x30, 0x30, 0x30, 0x30],
        }
    }

    /// The mode that `text` writes.
    pub open spec fn of_text(text: Seq<u8>) -> Option<Mode> {
        if text == Mode::Directory.text() {
            Some(Mode::Directory)
        } else if text == Mode::File.text() {
            Some(Mode::File)
        } else if text == Mode::Executable.text() {
            Some(Mode::Executable)
        } else if text == Mode::Symlink.text() {
            Some(Mode::Symlink)
        } else {
            None
        }
    }

    /// The mode of a directory entry: a directory's where it is one, else a
    /// symbolic link's where it is one, else an executable file's where any
    /// of its execute bits is set, else a regular file's.
    pub open spec fn of_file(is_dir: bool, is_symlink: bool, permissions: u32) -> Mode {
        if is_dir {
            Mode::Directory
        } else if is_symlink {
            Mode::Symlink
        } else if permissions & EXECUTE_BITS != 0 {
            Mode::Executable
        } else {
            Mode::File
        }
    }

    /// Gives the mode as a tree writes it.
    pub fn bytes(&self) -> (text: Vec<u8>)
        ensures
            text@ == self.text(),
    {
        let text = match self {
            Mode::Directory => vec![0x34u8, 0x30, 0x30, 0x30, 0x30],
            Mode::File => vec![0x31u8, 0x30, 0x30, 0x36, 0x34, 0x34],
            Mode::Executable => vec![0x31u8, 0x30, 0x30, 0x37, 0x35, 0x35],
            Mode::Symlink => vec![0x31u8, 0x32, 0x30, 0x30, 0x30, 0x30],
        };
        assert(text@ =~= self.text());
        text
    }

    /// Reads a mode as a tree writes it. Fails with `Unsupported` for any
    /// other text than `40000`, `100644`, `100755` and `120000`.
    pub fn from_bytes(text: &[u8]) -> (r: Result<Mode, Error>)
        ensures
            match r {
                Ok(mode) => Mode::of_text(text@) == Some(mode),
                Err(e) => e == Error::Unsupported && Mode::of_text(text@) is None,
            },
    {
        if bytes_eq(text, Mode::Directory.bytes().as_slice()) {
            Ok(Mode::Directory)
        } else if bytes_eq(text, Mode::File.bytes().as_slice()) {
            Ok(Mode::File)
        } else if bytes_eq(text, Mode::Executable.bytes().as_slice()) {
            Ok(Mode::Executable)
        } else if bytes_eq(text, Mode::Symlink.bytes().as_slice()) {
            Ok(Mode::Symlink)
        } else {
            Err(Error::Unsupported)
        }
    }

    /// Gives the mode of a directory entry from what the file system says of
    /// it.
    pub fn entry_mode(is_dir: bool, is_symlink: bool, permissions: u32) -> (mode: Mode)
        ensures
            mode == Mode::of_file(is_dir, is_symlink, permissions),
    {
        if is_dir {
            Mode::Directory
        } else if is_symlink {
            Mode::Symlink
        } else if permissions & EXECUTE_BITS != 0 {
            Mode::Executable
        } else {
            Mode::File
        }
    }

    /// The text of a mode writes that mode.
    pub proof fn lemma_text_round_trip(self)
        ensures
            Mode::of_text(self.text()) == Some(self),
    {
        assert(Mode::Directory.text().len() == 5);
        assert(Mode::File.text()[3] == 0x36);
        assert(Mode::Executable.text()[3] == 0x37);
        assert(Mode::Symlink.text()[1] == 0x32);
        assert(Mode::File.text()[1] == 0x30);
        assert(Mode::Executable.text()[1] == 0x30);
    }
}

/// What a directory holds under one name: the name, the mode, and the
/// address of the blob or tree that was made of it. A directory of which no
/// tree was made, because nothing in it is kept, has no address.
#[derive(Debug)]
pub struct Child {
    pub name: Vec<u8>,
    pub mode: Mode,
    pub hash: Option<Vec<u8>>,
}

/// What a directory holds under one name, as contracts speak of it.
pub struct ChildView {
    pub name: Seq<u8>,
    pub mode: Mode,
    pub hash: Option<Seq<u8>>,
}

impl View for Child {
    type V = ChildView;

    open spec fn view(&self) -> ChildView {
        ChildView {
            name: self.name@,
            mode: self.mode,
            hash: match self.hash {
                Some(hash) => Some(hash@),
                None => None,
            },
        }
    }
}

/// The children that a list of children stands for.
pub open spec fn children_of(list: Seq<Child>) -> Seq<ChildView> {
    list.map_values(|c: Child| c@)
}

/// The name of the repository's own directory, `.git`, which no tree holds.
pub open spec fn repository_dir() -> Seq<u8> {
    seq![0x2eu8, 0x67, 0x69, 0x74]
}

/// Tells whether `name` is the name of the repository's own directory,
/// which a snapshot does not descend into.
pub fn is_repository_dir(name: &[u8]) -> (r: bool)
    ensures
        r == (name@ == repository_dir()),
{
    let repository: Vec<u8> = vec![0x2eu8, 0x67, 0x69, 0x74];
    assert(repository@ =~= repository_dir());
    bytes_eq(name, repository.as_slice())
}

/// Whether a tree holds an entry for the child: it is not the repository's
/// own directory, and an object was made of it.
pub open spec fn kept(child: ChildView) -> bool {
    child.name != repository_dir() && child.hash is Some
}

/// Whether the child can be an entry: its name is one and its address has
/// the length of a SHA-1.
pub open spec fn valid_child(child: ChildView) -> bool {
    &&& valid_name(child.name)
    &&& child.hash matches Some(hash)
    &&& hash.len() == DIGEST_LEN
}

/// Whether every child that a tree holds an entry for can be one.
pub open spec fn all_kept_valid(children: Seq<ChildView>) -> bool {
    forall|i: int| 0 <= i < children.len() && kept(#[trigger] children[i]) ==> valid_child(children[i])
}

/// The entry for a child.
pub open spec fn child_entry(child: ChildView) -> EntryView {
    EntryView { mode: child.mode.text(), name: child.name, hash: child.hash->0 }
}

/// The entries for the children that a tree holds entries for, in the order
/// of the children.
pub open spec fn kept_entries(children: Seq<ChildView>) -> Seq<EntryView>
    decreases children.len(),
{
    if children.len() == 0 {
        Seq::empty()
    } else if kept(children.last()) {
        kept_entries(children.drop_last()).push(child_entry(children.last()))
    } else {
        kept_entries(children.drop_last())
    }
}

/// The payload of the tree for a directory with the children `children`:
/// the entries that are kept, in the order of a tree.
pub open spec fn directory_payload(children: Seq<ChildView>) -> Seq<u8> {
    tree_payload(sort_by_name(kept_entries(children)))
}

/// Makes the tree of a directory from what the directory holds. The
/// repository's own directory and directories of which no tree was made get
/// no entry; the other children are put into the order of a tree. Where no
/// entry is left there is no tree.
///
/// Fails with `Malformed` where a child that would get an entry has an
/// empty name, a name with a slash or a zero byte in it, or an address of
/// another length than 20.
pub fn write_tree_for(children: &Vec<Child>) -> (r: Result<Option<Object>, Error>)
    ensures
        match r {
            Ok(None) => all_kept_valid(children_of(children@)) && kept_entries(
                children_of(children@),
            ).len() == 0,
            Ok(Some(tree)) => {
                &&& all_kept_valid(children_of(children@))
                &&& kept_entries(children_of(children@)).len() > 0
                &&& tree.kind == Kind::Tree
                &&& tree.payload@ == directory_payload(children_of(children@))
                &&& tree.well_formed()
            },
            Err(e) => e == Error::Malformed && !all_kept_valid(children_of(children@)),
        },
{
    let mut entries: Vec<TreeEntry> = Vec::new();
    let mut i: usize = 0;
    let ghost views = children_of(children@);
    assert(views.take(0) =~= Seq::<ChildView>::empty());
    assert(entries_of(entries@) =~= Seq::<EntryView>::empty());
    while i < children.len()
        invariant
            i <= children.len(),
            views == children_of(children@),
            all_kept_valid(views.take(i as int)),
            entries_of(entries@) == kept_entries(views.take(i as int)),
        decreases children.len() - i,
    {
        let child = &children[i];
        proof {
            let ghost next = views.take(i + 1);
            assert(next.drop_last() =~= views.take(i as int));
            assert(next.last() == child@);
            assert(views[i as int] == child@);
        }
        if !is_repository_dir(child.name.as_slice()) {
            if let Some(hash) = &child.hash {
                let name = child.name.as_slice();
                if name.len() == 0 || contains_byte(name, SLASH) || contains_byte(name, NUL)
                    || hash.len() != DIGEST_LEN {
                    assert(kept(views[i as int]) && !valid_child(views[i as int]));
                    return Err(Error::Malformed);
                }
                let entry = TreeEntry {
                    mode: child.mode.bytes(),
                    name: slice_to_vec(name),
                    hash: slice_to_vec(hash.as_slice()),
                };
                assert(entries_of(entries@.push(entry)) =~= entries_of(entries@).push(entry@));
                entries.push(entry);
            }
        }
        assert(all_kept_valid(views.take(i + 1))) by {
            assert forall|k: int|
                0 <= k < i + 1 && kept(#[trigger] views.take(i + 1)[k]) implies valid_child(
                views.take(i + 1)[k],
            ) by {
                if k < i {
                    assert(views.take(i as int)[k] == views.take(i + 1)[k]);
                }
            }
        }
        i = i + 1;
    }
    assert(views.take(i as int) =~= views);
    if entries.len() == 0 {
        return Ok(None);
    }
    let sorted = sort_entries(&entries);
    let payload = tree_bytes(&sorted);
    Ok(Some(Object::new(Kind::Tree, payload)))
}

/// The ASCII code of the digit `0`, with which a short mode is filled up.
pub const FILL: u8 = 0x30;

/// The mode in the six places that a listing gives it: zeros before it
/// where it is shorter.
pub open spec fn padded_mode(mode: Seq<u8>) -> Seq<u8> {
    if mode.len() >= 6 {
        mode
    } else {
        Seq::new((6 - mode.len()) as nat, |i: int| FILL) + mode
    }
}

/// The line of a listing for an entry that stands for an object of kind
/// `kind`: mode, kind, address in hexadecimal and name with spaces between
/// them, or the name alone, and a line feed.
pub open spec fn listing_line(entry: EntryView, kind: Kind, name_only: bool) -> Seq<u8> {
    if name_only {
        entry.name.push(LF)
    } else {
        padded_mode(entry.mode) + seq![SPACE] + kind.name_bytes() + seq![SPACE] + hex_of(
            entry.hash,
        ) + seq![SPACE] + entry.name.push(LF)
    }
}

/// Writes the line of a listing for `entry`, which stands for an object of
/// kind `kind`.
pub fn ls_tree_line(entry: &TreeEntry, kind: Kind, name_only: bool) -> (line: Vec<u8>)
    ensures
        line@ == listing_line(entry@, kind, name_only),
{
    let mut line: Vec<u8> = Vec::new();
    if !name_only {
        let mut filled: usize = entry.mode.len();
        while filled < 6
            invariant
                entry.mode@.len() <= filled,
                filled <= 6 || filled == entry.mode@.len(),
                line@ == Seq::new((filled - entry.mode@.len()) as nat, |i: int| FILL),
            decreases 6 - filled,
        {
            line.push(FILL);
            filled = filled + 1;
            assert(line@ =~= Seq::new((filled - entry.mode@.len()) as nat, |i: int| FILL));
        }
        append(&mut line, entry.mode.as_slice());
        assert(line@ =~= padded_mode(entry.mode@));
        line.push(SPACE);
        append(&mut line, kind.name().as_slice());
        line.push(SPACE);
        append(&mut line, to_hex(entry.hash.as_slice()).as_slice());
        line.push(SPACE);
    }
    append(&mut line, entry.name.as_slice());
    line.push(LF);
    assert(line@ =~= listing_line(entry@, kind, name_only));
    line
}

} // verus!
