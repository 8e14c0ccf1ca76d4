use minigit::checkout::{
    checkout_empty_invoke, handle_file_creation, recursively_populate_dir_structure, Creation,
};
use minigit::error::Error;
use minigit::kind::Kind;
use minigit::object::Object;
use minigit::tree::{tree_bytes, Mode, TreeEntry};

fn entry(mode: &[u8], name: &[u8], fill: u8) -> TreeEntry {
    TreeEntry { mode: mode.to_vec(), name: name.to_vec(), hash: vec![fill; 20] }
}

#[test]
fn plan_reads_every_mode() {
    let payload = tree_bytes(&vec![
        entry(b"40000", b"dir", 1),
        entry(b"100644", b"file", 2),
        entry(b"100755", b"tool", 3),
        entry(b"120000", b"link", 4),
    ]);
    let plan = recursively_populate_dir_structure(&payload).unwrap();
    assert_eq!(plan.len(), 4);
    assert_eq!(plan[0].mode, Mode::Directory);
    assert_eq!(plan[0].name, b"dir".to_vec());
    assert_eq!(plan[0].hash, vec![1; 20]);
    assert_eq!(plan[1].mode, Mode::File);
    assert_eq!(plan[2].mode, Mode::Executable);
    assert_eq!(plan[3].mode, Mode::Symlink);
    assert_eq!(plan[3].name, b"link".to_vec());
    assert_eq!(plan[3].hash, vec![4; 20]);
    assert_eq!(recursively_populate_dir_structure(b"").unwrap().len(), 0);
}

#[test]
fn plan_rejects_other_modes() {
    let payload = tree_bytes(&vec![entry(b"100644", b"file", 2), entry(b"160000", b"module", 3)]);
    assert_eq!(recursively_populate_dir_structure(&payload).unwrap_err(), Error::Unsupported);
    let payload = tree_bytes(&vec![entry(b"100664", b"file", 2)]);
    assert_eq!(recursively_populate_dir_structure(&payload).unwrap_err(), Error::Unsupported);
}

#[test]
fn plan_rejects_what_is_no_tree() {
    assert_eq!(recursively_populate_dir_structure(b"100644 a").unwrap_err(), Error::Malformed);
    assert_eq!(recursively_populate_dir_structure(b"x").unwrap_err(), Error::Malformed);
}

#[test]
fn files_get_content_and_permissions() {
    let blob = Object::new(Kind::Blob, b"#!/bin/sh\n".to_vec());
    match handle_file_creation(Mode::File, &blob).unwrap() {
        Creation::File { permissions, content } => {
            assert_eq!(permissions, 0o644);
            assert_eq!(content, b"#!/bin/sh\n".to_vec());
        }
        other => panic!("{:?}", other),
    }
    match handle_file_creation(Mode::Executable, &blob).unwrap() {
        Creation::File { permissions, content } => {
            assert_eq!(permissions, 0o755);
            assert_eq!(content, b"#!/bin/sh\n".to_vec());
        }
        other => panic!("{:?}", other),
    }
}

#[test]
fn file_of_another_size_than_declared_is_a_size_mismatch() {
    let blob = Object { kind: Kind::Blob, expected_size: 4, payload: b"abc".to_vec() };
    assert_eq!(handle_file_creation(Mode::File, &blob).unwrap_err(), Error::SizeMismatch);
    assert_eq!(handle_file_creation(Mode::Executable, &blob).unwrap_err(), Error::SizeMismatch);
}

#[test]
fn symlink_target_loses_trailing_white_space() {
    let blob = Object::new(Kind::Blob, b"../target dir/file \n\t".to_vec());
    match handle_file_creation(Mode::Symlink, &blob).unwrap() {
        Creation::Symlink { target } => assert_eq!(target, b"../target dir/file".to_vec()),
        other => panic!("{:?}", other),
    }
    let blob = Object::new(Kind::Blob, "target\u{a0}\u{2028}\n".as_bytes().to_vec());
    match handle_file_creation(Mode::Symlink, &blob).unwrap() {
        Creation::Symlink { target } => assert_eq!(target, b"target".to_vec()),
        other => panic!("{:?}", other),
    }
    let blob = Object::new(Kind::Blob, "zielé".as_bytes().to_vec());
    match handle_file_creation(Mode::Symlink, &blob).unwrap() {
        Creation::Symlink { target } => assert_eq!(target, "zielé".as_bytes().to_vec()),
        other => panic!("{:?}", other),
    }
}

#[test]
fn symlink_target_must_be_utf8() {
    let blob = Object::new(Kind::Blob, vec![b'a', 0xff, b'b']);
    assert_eq!(handle_file_creation(Mode::Symlink, &blob).unwrap_err(), Error::Malformed);
    let blob = Object::new(Kind::Blob, vec![0xc3]);
    assert_eq!(handle_file_creation(Mode::Symlink, &blob).unwrap_err(), Error::Malformed);
    let blob = Object::new(Kind::Blob, vec![0xed, 0xa0, 0x80]);
    assert_eq!(handle_file_creation(Mode::Symlink, &blob).unwrap_err(), Error::Malformed);
}

#[test]
fn directories_are_not_created_as_files() {
    let tree = Object::new(Kind::Tree, vec![]);
    assert_eq!(handle_file_creation(Mode::Directory, &tree).unwrap_err(), Error::Unsupported);
}

#[test]
fn checkout_starts_at_the_tree_of_the_commit() {
    let payload = b"tree 75413bafcc61c63b2bbf4a7c5d4ce1e0bfd3c243\nauthor a\n\nm\n".to_vec();
    let commit = Object::new(Kind::Commit, payload.clone());
    assert_eq!(
        checkout_empty_invoke(&commit),
        Ok(minigit::address::from_hex(b"75413bafcc61c63b2bbf4a7c5d4ce1e0bfd3c243").unwrap())
    );
    let blob = Object::new(Kind::Blob, payload);
    assert_eq!(checkout_empty_invoke(&blob), Err(Error::Unsupported));
    let broken = Object::new(Kind::Commit, b"author a\n".to_vec());
    assert_eq!(checkout_empty_invoke(&broken), Err(Error::Malformed));
}
