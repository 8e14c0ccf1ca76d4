use minigit::delta::{
    apply_delta, apply_instructions, parse_instructions, read_delta_sizes, read_instruction,
    Instruction,
};
use minigit::error::Error;
use minigit::varint::{encode_varint, process_var_int};

fn bit_length(n: u64) -> usize {
    (64 - n.leading_zeros()) as usize
}

fn program(source: u64, target: u64, body: &[u8]) -> Vec<u8> {
    let mut p = encode_varint(source);
    p.extend(encode_varint(target));
    p.extend_from_slice(body);
    p
}

#[test]
fn varint_of_small_numbers() {
    assert_eq!(encode_varint(0), vec![0x00]);
    assert_eq!(encode_varint(1), vec![0x01]);
    assert_eq!(encode_varint(127), vec![0x7f]);
    assert_eq!(encode_varint(128), vec![0x80, 0x01]);
    assert_eq!(encode_varint(300), vec![0xac, 0x02]);
    assert_eq!(encode_varint(16383), vec![0xff, 0x7f]);
    assert_eq!(encode_varint(16384), vec![0x80, 0x80, 0x01]);
    assert_eq!(
        encode_varint(u64::MAX),
        vec![0xff, 0xff, 0xff, 0xff, 0xff, 0xff, 0xff, 0xff, 0xff, 0x01]
    );
}

#[test]
fn varint_decodes_exact_values() {
    assert_eq!(process_var_int(&[0x00]), Ok((0, 1)));
    assert_eq!(process_var_int(&[0x7f]), Ok((127, 1)));
    assert_eq!(process_var_int(&[0x80, 0x01]), Ok((128, 2)));
    assert_eq!(process_var_int(&[0xac, 0x02]), Ok((300, 2)));
    assert_eq!(process_var_int(&[0xe5, 0x8e, 0x26]), Ok((624485, 3)));
}

#[test]
fn varint_round_trip_and_length() {
    let mut samples: Vec<u64> = vec![0, 1, 2, 126, 127, 128, 129, 255, 256, 16383, 16384, u64::MAX];
    for shift in 0..64 {
        samples.push(1u64 << shift);
        samples.push((1u64 << shift) - 1);
        samples.push((1u64 << shift) + 1);
    }
    for n in samples {
        let bytes = encode_varint(n);
        assert_eq!(process_var_int(&bytes), Ok((n, bytes.len())));
        if n > 0 {
            assert_eq!(bytes.len(), (bit_length(n) + 6) / 7);
        } else {
            assert_eq!(bytes.len(), 1);
        }
    }
}

#[test]
fn varint_leaves_what_follows() {
    assert_eq!(process_var_int(&[0x05, 0xff, 0xff]), Ok((5, 1)));
    assert_eq!(process_var_int(&[0x80, 0x01, 0x80]), Ok((128, 2)));
}

#[test]
fn varint_accepts_zero_groups_at_the_end() {
    assert_eq!(process_var_int(&[0x81, 0x80, 0x00]), Ok((1, 3)));
    let mut long = vec![0x80u8; 40];
    long.push(0x00);
    assert_eq!(process_var_int(&long), Ok((0, 41)));
}

#[test]
fn varint_cut_short_is_malformed() {
    assert_eq!(process_var_int(&[]), Err(Error::Malformed));
    assert_eq!(process_var_int(&[0x80]), Err(Error::Malformed));
    assert_eq!(process_var_int(&[0xff, 0xff]), Err(Error::Malformed));
}

#[test]
fn varint_beyond_64_bits_is_malformed() {
    let too_big = [0xff, 0xff, 0xff, 0xff, 0xff, 0xff, 0xff, 0xff, 0xff, 0x02];
    assert_eq!(process_var_int(&too_big), Err(Error::Malformed));
    let mut longer = vec![0x80u8; 10];
    longer.push(0x01);
    assert_eq!(process_var_int(&longer), Err(Error::Malformed));
}

#[test]
fn delta_reconstruction() {
    // copy (offset 0, size 4), insert "XY", copy (offset 4, size 4)
    let body = [0x90, 0x04, 0x02, b'X', b'Y', 0x91, 0x04, 0x04];
    let p = program(8, 10, &body);
    assert_eq!(apply_delta(b"ABCDEFGH", &p), Ok(b"ABCDXYEFGH".to_vec()));
}

#[test]
fn delta_sizes_are_read() {
    assert_eq!(read_delta_sizes(&[0x08, 0x0a, 0x90, 0x04]), Ok((8, 10, 2)));
    assert_eq!(read_delta_sizes(&[0x80, 0x01, 0xac, 0x02]), Ok((128, 300, 4)));
    assert_eq!(read_delta_sizes(&[0x08]), Err(Error::Malformed));
    assert_eq!(read_delta_sizes(&[]), Err(Error::Malformed));
}

#[test]
fn copy_operands_are_little_endian() {
    let (ins, used) = read_instruction(&[0xff, 0x01, 0x02, 0x03, 0x04, 0x05, 0x06, 0x07]).unwrap();
    assert_eq!(used, 8);
    assert!(matches!(ins, Instruction::Copy { offset: 0x04030201, size: 0x070605 }));
    let (ins, used) = read_instruction(&[0xa2, 0x01, 0x02]).unwrap();
    assert_eq!(used, 3);
    assert!(matches!(ins, Instruction::Copy { offset: 0x0100, size: 0x0200 }));
    let (ins, used) = read_instruction(&[0xc8, 0x01, 0x02, 0x99]).unwrap();
    assert_eq!(used, 3);
    assert!(matches!(ins, Instruction::Copy { offset: 0x01000000, size: 0x020000 }));
}

#[test]
fn copy_without_size_takes_65536() {
    let (ins, used) = read_instruction(&[0x80]).unwrap();
    assert_eq!(used, 1);
    assert!(matches!(ins, Instruction::Copy { offset: 0, size: 0x10000 }));
    let (ins, _) = read_instruction(&[0x91, 0x05, 0x00]).unwrap();
    assert!(matches!(ins, Instruction::Copy { offset: 5, size: 0x10000 }));
    let base = vec![3u8; 0x10000];
    let p = program(0x10000, 0x10000, &[0x80]);
    assert_eq!(apply_delta(&base, &p), Ok(base.clone()));
}

#[test]
fn insert_takes_the_bytes_that_follow() {
    let (ins, used) = read_instruction(&[0x03, b'a', b'b', b'c', 0x01]).unwrap();
    assert_eq!(used, 4);
    match ins {
        Instruction::Insert { data } => assert_eq!(data, b"abc".to_vec()),
        other => panic!("{:?}", other),
    }
    let mut long = vec![0x7f];
    long.extend(vec![9u8; 127]);
    let (ins, used) = read_instruction(&long).unwrap();
    assert_eq!(used, 128);
    match ins {
        Instruction::Insert { data } => assert_eq!(data, vec![9u8; 127]),
        other => panic!("{:?}", other),
    }
}

#[test]
fn instructions_are_parsed_in_order() {
    let list = parse_instructions(&[0x90, 0x04, 0x02, b'X', b'Y', 0x91, 0x04, 0x04]).unwrap();
    assert_eq!(list.len(), 3);
    assert!(matches!(list[0], Instruction::Copy { offset: 0, size: 4 }));
    assert!(matches!(&list[1], Instruction::Insert { data } if data == b"XY"));
    assert!(matches!(list[2], Instruction::Copy { offset: 4, size: 4 }));
    assert_eq!(parse_instructions(&[]).unwrap().len(), 0);
}

#[test]
fn opcode_zero_is_malformed() {
    assert_eq!(read_instruction(&[0x00]).unwrap_err(), Error::Malformed);
    assert_eq!(read_instruction(&[]).unwrap_err(), Error::Malformed);
    assert_eq!(parse_instructions(&[0x01, b'a', 0x00]).unwrap_err(), Error::Malformed);
    assert_eq!(apply_delta(b"", &program(0, 1, &[0x00, b'a'])), Err(Error::Malformed));
}

#[test]
fn truncated_instructions_are_malformed() {
    assert_eq!(read_instruction(&[0x91]).unwrap_err(), Error::Malformed);
    assert_eq!(read_instruction(&[0x91, 0x00]).unwrap_err(), Error::Malformed);
    assert_eq!(read_instruction(&[0x05, 1, 2, 3, 4]).unwrap_err(), Error::Malformed);
    assert_eq!(parse_instructions(&[0x02, b'a']).unwrap_err(), Error::Malformed);
    assert_eq!(
        apply_delta(b"ABCDEFGH", &program(8, 4, &[0x90])),
        Err(Error::Malformed)
    );
}

#[test]
fn truncated_sizes_are_malformed() {
    assert_eq!(apply_delta(b"", &[]), Err(Error::Malformed));
    assert_eq!(apply_delta(b"", &[0x00]), Err(Error::Malformed));
    assert_eq!(apply_delta(b"", &[0x80]), Err(Error::Malformed));
}

#[test]
fn copy_outside_the_base_fails() {
    assert_eq!(
        apply_delta(b"ABCDEFGH", &program(8, 4, &[0x91, 0x05, 0x04])),
        Err(Error::Malformed)
    );
    assert_eq!(
        apply_delta(b"ABCDEFGH", &program(8, 1, &[0x91, 0x08, 0x01])),
        Err(Error::Malformed)
    );
    let far = [0x9f, 0xff, 0xff, 0xff, 0xff, 0x01];
    assert_eq!(apply_delta(b"ABCDEFGH", &program(8, 1, &far)), Err(Error::Malformed));
    let list = vec![Instruction::Copy { offset: 7, size: 2 }];
    assert_eq!(apply_instructions(b"ABCDEFGH", &list), Err(Error::Malformed));
    let list = vec![Instruction::Copy { offset: 7, size: 1 }];
    assert_eq!(apply_instructions(b"ABCDEFGH", &list), Ok(b"H".to_vec()));
}

#[test]
fn base_of_another_size_is_a_size_mismatch() {
    let body = [0x90, 0x04];
    assert_eq!(apply_delta(b"ABCDEFGH", &program(9, 4, &body)), Err(Error::SizeMismatch));
    assert_eq!(apply_delta(b"ABCDEFGH", &program(7, 4, &body)), Err(Error::SizeMismatch));
    assert_eq!(apply_delta(b"ABCDEFGH", &program(8, 4, &body)), Ok(b"ABCD".to_vec()));
}

#[test]
fn result_of_another_size_is_a_size_mismatch() {
    let body = [0x90, 0x04];
    assert_eq!(apply_delta(b"ABCDEFGH", &program(8, 5, &body)), Err(Error::SizeMismatch));
    assert_eq!(apply_delta(b"ABCDEFGH", &program(8, 3, &body)), Err(Error::SizeMismatch));
    assert_eq!(apply_delta(b"ABCDEFGH", &program(8, 0, &[])), Ok(vec![]));
}

#[test]
fn applied_delta_has_the_declared_size() {
    let base: Vec<u8> = (0..200u8).collect();
    let body = [0x91, 0x0a, 0x14, 0x03, 1, 2, 3, 0x91, 0x64, 0x64];
    let out = apply_delta(&base, &program(200, 123, &body)).unwrap();
    assert_eq!(out.len(), 123);
    assert_eq!(&out[..20], &base[10..30]);
    assert_eq!(&out[20..23], &[1, 2, 3]);
    assert_eq!(&out[23..], &base[100..200]);
}
