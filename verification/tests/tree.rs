use minigit::address::from_hex;
use minigit::error::Error;
use minigit::kind::Kind;
use minigit::object::Object;
use minigit::order::precedes;
use minigit::tree::{
    ls_tree_line, parse_tree, read_entry, sort_entries, tree_bytes, write_tree_for, Child, Mode,
    TreeEntry,
};

fn entry(mode: &[u8], name: &[u8], fill: u8) -> TreeEntry {
    TreeEntry { mode: mode.to_vec(), name: name.to_vec(), hash: vec![fill; 20] }
}

fn child(name: &[u8], mode: Mode, fill: Option<u8>) -> Child {
    Child { name: name.to_vec(), mode, hash: fill.map(|f| vec![f; 20]) }
}

fn names(entries: &[TreeEntry]) -> Vec<Vec<u8>> {
    entries.iter().map(|e| e.name.clone()).collect()
}

fn by_key(a: &[u8], b: &[u8]) -> bool {
    let mut ka = a.to_vec();
    ka.push(0xff);
    let mut kb = b.to_vec();
    kb.push(0xff);
    ka <= kb
}

#[test]
fn names_compare_with_the_sentinel_behind_them() {
    assert!(precedes(b"a", b"b"));
    assert!(!precedes(b"b", b"a"));
    assert!(precedes(b"a", b"a"));
    assert!(precedes(b"", b""));
    assert!(precedes(b"foo.txt", b"foo"));
    assert!(!precedes(b"foo", b"foo.txt"));
    assert!(precedes(b"foo.d", b"foo.txt"));
    assert!(precedes(b"foo.d", b"foo"));
    assert!(!precedes(b"foo", b"foo.d"));
    assert!(precedes(b"a", b""));
    assert!(!precedes(b"", b"a"));
    assert!(precedes(b"foo", b"foo\xff"));
    assert!(!precedes(b"foo\xff", b"foo"));
    assert!(precedes(b"foo\xff", b"foo\xff"));
    assert!(precedes(b"foo\xfe", b"foo"));
}

#[test]
fn order_of_names_is_that_of_their_keys() {
    let samples: Vec<&[u8]> = vec![
        b"", b"a", b"b", b"ab", b"abc", b"foo", b"foo.txt", b"foo.d", b"foo-bar", b"foo\xff",
        b"foo\xff\xff", b"foo\xfe", b"\xff", b"\x00", b"z", b"fo",
    ];
    for a in &samples {
        for b in &samples {
            assert_eq!(precedes(a, b), by_key(a, b), "{:?} {:?}", a, b);
        }
    }
}

#[test]
fn sort_order_tree() {
    let entries = vec![
        entry(b"100644", b"foo", 1),
        entry(b"100644", b"foo.txt", 2),
        entry(b"40000", b"foo.d", 3),
    ];
    let sorted = sort_entries(&entries);
    assert_eq!(names(&sorted), vec![b"foo.d".to_vec(), b"foo.txt".to_vec(), b"foo".to_vec()]);
}

#[test]
fn sort_does_not_look_at_modes() {
    let files = vec![entry(b"100644", b"foo", 1), entry(b"100644", b"foo.txt", 2)];
    assert_eq!(names(&sort_entries(&files)), vec![b"foo.txt".to_vec(), b"foo".to_vec()]);
    let with_dir = vec![entry(b"40000", b"foo", 1), entry(b"100644", b"foo.txt", 2)];
    assert_eq!(names(&sort_entries(&with_dir)), vec![b"foo.txt".to_vec(), b"foo".to_vec()]);
}

#[test]
fn sorted_entries_are_a_sorted_rearrangement() {
    let input: Vec<&[u8]> =
        vec![b"zeta", b"b", b"a", b"foo", b"foo.txt", b"a.b", b"Makefile", b"src", b"a", b"~"];
    let entries: Vec<TreeEntry> =
        input.iter().enumerate().map(|(i, n)| entry(b"100644", n, i as u8)).collect();
    let sorted = sort_entries(&entries);
    assert_eq!(sorted.len(), entries.len());
    for pair in sorted.windows(2) {
        assert!(by_key(&pair[0].name, &pair[1].name));
    }
    let mut expected: Vec<(Vec<u8>, Vec<u8>)> =
        entries.iter().map(|e| (e.name.clone(), e.hash.clone())).collect();
    let mut got: Vec<(Vec<u8>, Vec<u8>)> =
        sorted.iter().map(|e| (e.name.clone(), e.hash.clone())).collect();
    expected.sort();
    got.sort();
    assert_eq!(got, expected);
}

#[test]
fn entries_of_one_name_keep_their_order() {
    let entries = vec![entry(b"100644", b"a", 2), entry(b"100644", b"a", 1)];
    let sorted = sort_entries(&entries);
    assert_eq!(sorted[0].hash, vec![2; 20]);
    assert_eq!(sorted[1].hash, vec![1; 20]);
    assert_eq!(sort_entries(&vec![]).len(), 0);
}

#[test]
fn tree_payload_is_mode_space_name_zero_hash() {
    let entries = vec![entry(b"100644", b"a", 0xaa), entry(b"40000", b"dir", 0xbb)];
    let mut expected = b"100644 a\0".to_vec();
    expected.extend(vec![0xaa; 20]);
    expected.extend_from_slice(b"40000 dir\0");
    expected.extend(vec![0xbb; 20]);
    assert_eq!(tree_bytes(&entries), expected);
    assert_eq!(tree_bytes(&vec![]), Vec::<u8>::new());
}

#[test]
fn tree_payload_is_read_back() {
    let entries = vec![
        entry(b"100644", b"a file with spaces", 0x00),
        entry(b"40000", b"dir", 0x20),
        entry(b"120000", b"link", 0xff),
        entry(b"160000", b"module", 0x07),
    ];
    let parsed = parse_tree(&tree_bytes(&entries)).unwrap();
    assert_eq!(parsed.len(), 4);
    for (a, b) in parsed.iter().zip(entries.iter()) {
        assert_eq!(a.mode, b.mode);
        assert_eq!(a.name, b.name);
        assert_eq!(a.hash, b.hash);
    }
    assert_eq!(parse_tree(b"").unwrap().len(), 0);
}

#[test]
fn one_entry_is_read() {
    let mut data = b"100755 run.sh\0".to_vec();
    data.extend(vec![0x11; 20]);
    data.extend_from_slice(b"100644 next\0");
    let (e, used) = read_entry(&data).unwrap();
    assert_eq!(used, 14 + 20);
    assert_eq!(e.mode, b"100755".to_vec());
    assert_eq!(e.name, b"run.sh".to_vec());
    assert_eq!(e.hash, vec![0x11; 20]);
}

#[test]
fn broken_trees_are_malformed() {
    assert_eq!(parse_tree(b"100644 a").unwrap_err(), Error::Malformed);
    let mut short = b"100644 a\0".to_vec();
    short.extend(vec![1; 19]);
    assert_eq!(parse_tree(&short).unwrap_err(), Error::Malformed);
    let mut no_name = b"100644\0".to_vec();
    no_name.extend(vec![1; 20]);
    assert_eq!(parse_tree(&no_name).unwrap_err(), Error::Malformed);
    let mut empty_name = b"100644 \0".to_vec();
    empty_name.extend(vec![1; 20]);
    assert_eq!(parse_tree(&empty_name).unwrap_err(), Error::Malformed);
    let mut slash = b"100644 a/b\0".to_vec();
    slash.extend(vec![1; 20]);
    assert_eq!(parse_tree(&slash).unwrap_err(), Error::Malformed);
    let mut trailing = b"100644 a\0".to_vec();
    trailing.extend(vec![1; 20]);
    trailing.push(b'x');
    assert_eq!(parse_tree(&trailing).unwrap_err(), Error::Malformed);
}

#[test]
fn modes_as_text() {
    assert_eq!(Mode::Directory.bytes(), b"40000".to_vec());
    assert_eq!(Mode::File.bytes(), b"100644".to_vec());
    assert_eq!(Mode::Executable.bytes(), b"100755".to_vec());
    assert_eq!(Mode::Symlink.bytes(), b"120000".to_vec());
    assert_eq!(Mode::from_bytes(b"40000"), Ok(Mode::Directory));
    assert_eq!(Mode::from_bytes(b"100644"), Ok(Mode::File));
    assert_eq!(Mode::from_bytes(b"100755"), Ok(Mode::Executable));
    assert_eq!(Mode::from_bytes(b"120000"), Ok(Mode::Symlink));
    assert_eq!(Mode::from_bytes(b"160000"), Err(Error::Unsupported));
    assert_eq!(Mode::from_bytes(b"040000"), Err(Error::Unsupported));
    assert_eq!(Mode::from_bytes(b""), Err(Error::Unsupported));
}

#[test]
fn mode_of_a_directory_entry() {
    assert_eq!(Mode::entry_mode(true, false, 0o755), Mode::Directory);
    assert_eq!(Mode::entry_mode(true, true, 0o644), Mode::Directory);
    assert_eq!(Mode::entry_mode(false, true, 0o777), Mode::Symlink);
    assert_eq!(Mode::entry_mode(false, false, 0o755), Mode::Executable);
    assert_eq!(Mode::entry_mode(false, false, 0o100), Mode::Executable);
    assert_eq!(Mode::entry_mode(false, false, 0o010), Mode::Executable);
    assert_eq!(Mode::entry_mode(false, false, 0o001), Mode::Executable);
    assert_eq!(Mode::entry_mode(false, false, 0o100644), Mode::File);
    assert_eq!(Mode::entry_mode(false, false, 0o666), Mode::File);
    assert_eq!(Mode::entry_mode(false, false, 0), Mode::File);
}

#[test]
fn single_file_tree() {
    let blob = Object::new(Kind::Blob, b"A".to_vec()).write().unwrap();
    assert_eq!(blob.hash, from_hex(b"8c7e5a667f1b771847fe88c01c3de34413a1b220").unwrap());
    let children = vec![Child { name: b"a".to_vec(), mode: Mode::File, hash: Some(blob.hash.clone()) }];
    let tree = write_tree_for(&children).unwrap().unwrap();
    assert_eq!(tree.kind, Kind::Tree);
    let mut payload = b"100644 a\0".to_vec();
    payload.extend_from_slice(&blob.hash);
    assert_eq!(tree.payload, payload);
    assert_eq!(tree.expected_size, 29);
    let stored = tree.write().unwrap();
    assert_eq!(stored.hash, from_hex(b"75413bafcc61c63b2bbf4a7c5d4ce1e0bfd3c243").unwrap());
    let back = Object::read(&stored.bytes).unwrap();
    let entries = parse_tree(&back.payload).unwrap();
    assert_eq!(entries.len(), 1);
    assert_eq!(ls_tree_line(&entries[0], Kind::Blob, true), b"a\n".to_vec());
    assert_eq!(
        ls_tree_line(&entries[0], Kind::Blob, false),
        b"100644 blob 8c7e5a667f1b771847fe88c01c3de34413a1b220 a\n".to_vec()
    );
}

#[test]
fn directory_tree_is_filtered_and_sorted() {
    let children = vec![
        child(b"foo", Mode::File, Some(1)),
        child(b".git", Mode::Directory, Some(9)),
        child(b"empty", Mode::Directory, None),
        child(b"foo.txt", Mode::Executable, Some(2)),
        child(b"foo.d", Mode::Directory, Some(3)),
        child(b"link", Mode::Symlink, Some(4)),
    ];
    let tree = write_tree_for(&children).unwrap().unwrap();
    let entries = parse_tree(&tree.payload).unwrap();
    assert_eq!(
        names(&entries),
        vec![b"foo.d".to_vec(), b"foo.txt".to_vec(), b"foo".to_vec(), b"link".to_vec()]
    );
    assert_eq!(entries[0].mode, b"40000".to_vec());
    assert_eq!(entries[0].hash, vec![3; 20]);
    assert_eq!(entries[1].mode, b"100755".to_vec());
    assert_eq!(entries[2].mode, b"100644".to_vec());
    assert_eq!(entries[3].mode, b"120000".to_vec());
}

#[test]
fn directory_with_nothing_kept_has_no_tree() {
    assert!(write_tree_for(&vec![]).unwrap().is_none());
    let children =
        vec![child(b".git", Mode::Directory, Some(9)), child(b"empty", Mode::Directory, None)];
    assert!(write_tree_for(&children).unwrap().is_none());
}

#[test]
fn children_that_cannot_be_entries_are_malformed() {
    assert_eq!(
        write_tree_for(&vec![child(b"", Mode::File, Some(1))]).unwrap_err(),
        Error::Malformed
    );
    assert_eq!(
        write_tree_for(&vec![child(b"a/b", Mode::File, Some(1))]).unwrap_err(),
        Error::Malformed
    );
    assert_eq!(
        write_tree_for(&vec![child(b"a\0b", Mode::File, Some(1))]).unwrap_err(),
        Error::Malformed
    );
    let short = Child { name: b"a".to_vec(), mode: Mode::File, hash: Some(vec![1; 19]) };
    assert_eq!(write_tree_for(&vec![short]).unwrap_err(), Error::Malformed);
    // what gets no entry is not looked at
    let skipped = Child { name: b".git".to_vec(), mode: Mode::Directory, hash: Some(vec![]) };
    assert!(write_tree_for(&vec![skipped, child(b"a/b", Mode::Directory, None)]).unwrap().is_none());
}

#[test]
fn listing_line_fills_the_mode_to_six_places() {
    let e = TreeEntry {
        mode: b"40000".to_vec(),
        name: b"src".to_vec(),
        hash: from_hex(b"0123456789abcdef0123456789abcdef01234567").unwrap(),
    };
    assert_eq!(
        ls_tree_line(&e, Kind::Tree, false),
        b"040000 tree 0123456789abcdef0123456789abcdef01234567 src\n".to_vec()
    );
    assert_eq!(ls_tree_line(&e, Kind::Tree, true), b"src\n".to_vec());
    let odd = entry(b"7", b"x", 0);
    assert_eq!(&ls_tree_line(&odd, Kind::Commit, false)[..14], b"000007 commit ");
    let long = entry(b"1234567", b"x", 0);
    assert_eq!(&ls_tree_line(&long, Kind::Blob, false)[..13], b"1234567 blob ");
    let none = entry(b"", b"x", 0);
    assert_eq!(&ls_tree_line(&none, Kind::Blob, false)[..12], b"000000 blob ");
}
