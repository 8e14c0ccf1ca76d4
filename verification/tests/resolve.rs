use minigit::error::Error;
use minigit::kind::Kind;
use minigit::object::Object;
use minigit::pack::Deltas;
use minigit::resolve::{process_delta, rebuild};
use minigit::store::ObjectSet;
use minigit::varint::encode_varint;

fn id(kind: Kind, payload: &[u8]) -> Vec<u8> {
    Object::new(kind, payload.to_vec()).id().unwrap()
}

fn delta(base: Vec<u8>, source: u64, target: u64, body: &[u8]) -> Deltas {
    let mut data = encode_varint(source);
    data.extend(encode_varint(target));
    data.extend_from_slice(body);
    Deltas { delta_hash: base, data }
}

/// "ABCDEFGH" -> "ABCDXYEFGH"
fn first_step() -> Deltas {
    delta(
        id(Kind::Blob, b"ABCDEFGH"),
        8,
        10,
        &[0x90, 0x04, 0x02, b'X', b'Y', 0x91, 0x04, 0x04],
    )
}

/// "ABCDXYEFGH" -> "XYXY!"
fn second_step() -> Deltas {
    delta(id(Kind::Blob, b"ABCDXYEFGH"), 10, 5, &[0x91, 0x04, 0x02, 0x91, 0x04, 0x02, 0x01, b'!'])
}

fn store_with_base() -> ObjectSet {
    let mut store = ObjectSet::new();
    store.insert(Object::new(Kind::Tree, b"unrelated".to_vec())).unwrap();
    store.insert(Object::new(Kind::Blob, b"ABCDEFGH".to_vec())).unwrap();
    store
}

#[test]
fn object_set_holds_objects_by_address() {
    let mut store = ObjectSet::new();
    assert_eq!(store.len(), 0);
    assert!(store.find(&[0; 20]).is_none());
    let hash = store.insert(Object::new(Kind::Blob, b"hello\n".to_vec())).unwrap();
    assert_eq!(hash, minigit::address::from_hex(b"ce013625030ba8dba906f756967f9e9ca394464a").unwrap());
    assert_eq!(store.len(), 1);
    let found = store.find(&hash).unwrap();
    assert_eq!(found.kind, Kind::Blob);
    assert_eq!(found.payload, b"hello\n".to_vec());
    assert_eq!(store.get(0).payload, b"hello\n".to_vec());
    assert!(store.find(&hash[..19]).is_none());
    let tree = store.insert(Object::new(Kind::Tree, b"hello\n".to_vec())).unwrap();
    assert_ne!(tree, hash);
    assert_eq!(store.find(&tree).unwrap().kind, Kind::Tree);
    assert_eq!(store.len(), 2);
}

#[test]
fn object_set_refuses_what_cannot_be_stored() {
    let mut store = ObjectSet::new();
    assert_eq!(
        store.insert(Object::new(Kind::RefDelta, vec![])).unwrap_err(),
        Error::Unsupported
    );
    let bad = Object { kind: Kind::Blob, expected_size: 1, payload: vec![] };
    assert_eq!(store.insert(bad).unwrap_err(), Error::SizeMismatch);
    assert_eq!(store.len(), 0);
}

#[test]
fn rebuilt_object_has_the_kind_of_its_base() {
    let base = Object::new(Kind::Commit, b"ABCDEFGH".to_vec());
    let object = rebuild(&base, &first_step()).unwrap();
    assert_eq!(object.kind, Kind::Commit);
    assert_eq!(object.payload, b"ABCDXYEFGH".to_vec());
    assert_eq!(object.expected_size, 10);
    let wrong = Object::new(Kind::Blob, b"ABCDEFG".to_vec());
    assert_eq!(rebuild(&wrong, &first_step()).unwrap_err(), Error::SizeMismatch);
}

#[test]
fn deltas_are_applied_to_their_bases() {
    let mut store = store_with_base();
    process_delta(&mut store, &vec![first_step()]).unwrap();
    assert_eq!(store.len(), 3);
    assert_eq!(store.get(2).kind, Kind::Blob);
    assert_eq!(store.get(2).payload, b"ABCDXYEFGH".to_vec());
    assert!(store.find(&id(Kind::Blob, b"ABCDXYEFGH")).is_some());
}

#[test]
fn no_deltas_change_nothing() {
    let mut store = store_with_base();
    process_delta(&mut store, &vec![]).unwrap();
    assert_eq!(store.len(), 2);
}

#[test]
fn delta_on_a_delta_in_order() {
    let mut store = store_with_base();
    process_delta(&mut store, &vec![first_step(), second_step()]).unwrap();
    assert_eq!(store.len(), 4);
    assert_eq!(store.get(2).payload, b"ABCDXYEFGH".to_vec());
    assert_eq!(store.get(3).payload, b"XYXY!".to_vec());
}

#[test]
fn delta_on_a_delta_that_comes_later() {
    let mut store = store_with_base();
    process_delta(&mut store, &vec![second_step(), first_step()]).unwrap();
    assert_eq!(store.len(), 4);
    assert_eq!(store.get(2).payload, b"ABCDXYEFGH".to_vec());
    assert_eq!(store.get(3).payload, b"XYXY!".to_vec());
}

#[test]
fn long_chain_in_reverse_order() {
    // each object is its base with one more byte in front
    let mut store = ObjectSet::new();
    store.insert(Object::new(Kind::Blob, vec![])).unwrap();
    let mut deltas = Vec::new();
    let mut payload: Vec<u8> = Vec::new();
    for n in 0..20u8 {
        let base = id(Kind::Blob, &payload);
        let size = payload.len() as u64;
        let body: Vec<u8> =
            if size == 0 { vec![0x01, n] } else { vec![0x01, n, 0x90, size as u8] };
        deltas.push(delta(base, size, size + 1, &body));
        payload.insert(0, n);
    }
    deltas.reverse();
    process_delta(&mut store, &deltas).unwrap();
    assert_eq!(store.len(), 21);
    assert_eq!(store.get(20).payload, payload);
    assert_eq!(store.get(1).payload, vec![0]);
}

#[test]
fn missing_base_is_not_found() {
    let mut store = ObjectSet::new();
    assert_eq!(process_delta(&mut store, &vec![first_step()]).unwrap_err(), Error::NotFound);
    let mut store = store_with_base();
    let orphan = delta(vec![0x55; 20], 8, 4, &[0x90, 0x04]);
    assert_eq!(
        process_delta(&mut store, &vec![first_step(), orphan]).unwrap_err(),
        Error::NotFound
    );
    // what could be rebuilt was rebuilt
    assert_eq!(store.len(), 3);
}

#[test]
fn deltas_that_need_each_other_are_not_found() {
    let mut store = ObjectSet::new();
    assert_eq!(
        process_delta(&mut store, &vec![second_step(), first_step()]).unwrap_err(),
        Error::NotFound
    );
}

#[test]
fn delta_that_does_not_apply_gives_its_error() {
    let mut store = store_with_base();
    let base = id(Kind::Blob, b"ABCDEFGH");
    let outside = delta(base.clone(), 8, 4, &[0x91, 0x06, 0x04]);
    assert_eq!(process_delta(&mut store, &vec![outside]).unwrap_err(), Error::Malformed);
    let wrong_size = delta(base.clone(), 9, 4, &[0x90, 0x04]);
    assert_eq!(process_delta(&mut store, &vec![wrong_size]).unwrap_err(), Error::SizeMismatch);
    let wrong_result = delta(base, 8, 5, &[0x90, 0x04]);
    assert_eq!(process_delta(&mut store, &vec![wrong_result]).unwrap_err(), Error::SizeMismatch);
    assert_eq!(store.len(), 2);
}

#[test]
fn store_after_a_failure_holds_what_was_rebuilt_before_it() {
    let mut store = store_with_base();
    let base = id(Kind::Blob, b"ABCDEFGH");
    let broken = delta(base, 8, 4, &[0x91, 0x06, 0x04]);
    assert_eq!(
        process_delta(&mut store, &vec![first_step(), broken, second_step()]).unwrap_err(),
        Error::Malformed
    );
    assert_eq!(store.len(), 3);
    assert_eq!(store.get(0).payload, b"unrelated".to_vec());
    assert_eq!(store.get(1).payload, b"ABCDEFGH".to_vec());
    assert_eq!(store.get(2).payload, b"ABCDXYEFGH".to_vec());
}

#[test]
fn store_after_a_missing_base_holds_what_could_be_rebuilt() {
    let mut store = store_with_base();
    let orphan = delta(vec![0x55; 20], 8, 4, &[0x90, 0x04]);
    assert_eq!(
        process_delta(&mut store, &vec![orphan, second_step(), first_step()]).unwrap_err(),
        Error::NotFound
    );
    assert_eq!(store.len(), 4);
    assert_eq!(store.get(1).payload, b"ABCDEFGH".to_vec());
    assert_eq!(store.get(2).payload, b"ABCDXYEFGH".to_vec());
    assert_eq!(store.get(3).payload, b"XYXY!".to_vec());
}
