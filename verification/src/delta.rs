//! Delta programs: copy and insert instructions that rebuild an object from a base.

use crate::error::Error;
use crate::bytes::append;
use crate::varint::{lemma_varint_within, process_var_int, varint_decoding};
use vstd::prelude::*;
use vstd::slice::{slice_subrange, slice_to_vec};

verus! {

/// One step of a delta program, as contracts speak of it.
pub enum Op {
    /// Append `size` bytes of the base, starting at `offset`.
    Copy { offset: nat, size: nat },
    /// Append the bytes given.
    Insert { data: Seq<u8> },
}

/// One step of a delta program.
#[derive(Debug)]
pub enum Instruction {
    /// Append `size` bytes of the base, starting at `offset`.
    Copy { size: u32, offset: u32 },
    /// Append the bytes given.
    Insert { data: Vec<u8> },
}

impl View for Instruction {
    type V = Op;

    open spec fn view(&self) -> Op {
        match self {
            Instruction::Copy { size, offset } => Op::Copy {
                offset: *offset as nat,
                size: *size as nat,
            },
            Instruction::Insert { data } => Op::Insert { data: data@ },
        }
    }
}

/// The steps that a list of instructions stands for.
pub open spec fn ops_of(list: Seq<Instruction>) -> Seq<Op> {
    list.map_values(|i: Instruction| i@)
}

/// The size a copy takes where its size bytes give zero.
pub const DEFAULT_COPY_SIZE: u32 = 0x10000;

/// One operand byte of a copy. `state` is the operand's value so far and the
/// number of operand bytes taken so far. Where the opcode's flag is set, the
/// next byte of `s` is taken and counts `weight` times.
pub open spec fn operand_byte(
    s: Seq<u8>,
    present: bool,
    state: Option<(nat, nat)>,
    weight: nat,
) -> Option<(nat, nat)> {
    match state {
        None => None,
        Some((value, used)) => if !present {
            state
        } else if used < s.len() {
            Some((value + s[used as int] as nat * weight, used + 1))
        } else {
            None
        },
    }
}

/// The offset of a copy with opcode `op` whose operand bytes are at the
/// start of `s`, with the number of bytes taken.
#[verifier::opaque]
pub open spec fn copy_offset(s: Seq<u8>, op: u8) -> Option<(nat, nat)> {
    let b0 = operand_byte(s, op & 0x01 != 0, Some((0nat, 0nat)), 1);
    let b1 = operand_byte(s, op & 0x02 != 0, b0, 0x100);
    let b2 = operand_byte(s, op & 0x04 != 0, b1, 0x1_0000);
    operand_byte(s, op & 0x08 != 0, b2, 0x100_0000)
}

/// The size bytes of a copy with opcode `op`, which follow the `taken` offset
/// bytes at the start of `s`: their value, and the number of operand bytes
/// taken in all.
#[verifier::opaque]
pub open spec fn copy_size(s: Seq<u8>, op: u8, taken: nat) -> Option<(nat, nat)> {
    let b0 = operand_byte(s, op & 0x10 != 0, Some((0nat, taken)), 1);
    let b1 = operand_byte(s, op & 0x20 != 0, b0, 0x100);
    operand_byte(s, op & 0x40 != 0, b1, 0x1_0000)
}

/// The instruction at the start of `s`, and the number of bytes it
/// occupies. An opcode of 128 or more is a copy, whose low four bits say
/// which offset bytes follow and whose next three bits say which size bytes
/// follow; an opcode from 1 to 127 inserts that many bytes, which follow it.
/// `None` for the opcode 0, and where `s` is empty or ends inside the
/// instruction.
pub open spec fn first_instruction(s: Seq<u8>) -> Option<(Op, nat)> {
    let op = s[0];
    if s.len() == 0 {
        None
    } else if op >= 128 {
        match copy_offset(s.skip(1), op) {
            None => None,
            Some((offset, taken)) => match copy_size(s.skip(1), op, taken) {
                None => None,
                Some((size, used)) => Some(
                    (
                        Op::Copy {
                            offset,
                            size: if size == 0 {
                                DEFAULT_COPY_SIZE as nat
                            } else {
                                size
                            },
                        },
                        used + 1,
                    ),
                ),
            },
        }
    } else if op == 0 {
        None
    } else if s.len() < 1 + op {
        None
    } else {
        Some((Op::Insert { data: s.subrange(1, 1 + op) }, (1 + op) as nat))
    }
}

/// The instructions that `s` consists of, or `None` where `s` is no sequence
/// of whole instructions.
pub open spec fn instructions(s: Seq<u8>) -> Option<Seq<Op>>
    decreases s.len(),
{
    if s.len() == 0 {
        Some(Seq::empty())
    } else {
        match first_instruction(s) {
            None => None,
            Some((op, used)) => if 0 < used <= s.len() {
                match instructions(s.skip(used as int)) {
                    None => None,
                    Some(rest) => Some(seq![op] + rest),
                }
            } else {
                None
            },
        }
    }
}

/// What one step appends to the output, or `None` where a copy reaches
/// beyond the base.
pub open spec fn op_output(base: Seq<u8>, op: Op) -> Option<Seq<u8>> {
    match op {
        Op::Copy { offset, size } => if offset + size <= base.len() {
            Some(base.subrange(offset as int, (offset + size) as int))
        } else {
            None
        },
        Op::Insert { data } => Some(data),
    }
}

/// What the steps append one after the other, or `None` where one of them
/// reaches beyond the base.
pub open spec fn ops_output(base: Seq<u8>, ops: Seq<Op>) -> Option<Seq<u8>>
    decreases ops.len(),
{
    if ops.len() == 0 {
        Some(Seq::empty())
    } else {
        match (ops_output(base, ops.drop_last()), op_output(base, ops.last())) {
            (Some(before), Some(piece)) => Some(before + piece),
            _ => None,
        }
    }
}

/// The size of the base and the size of the result that a delta program
/// declares in its first two varints, and the number of bytes that the two
/// occupy. `None` where one of them is cut short or exceeds 64 bits.
pub open spec fn delta_sizes(program: Seq<u8>) -> Option<(nat, nat, nat)> {
    match varint_decoding(program) {
        None => None,
        Some((source, n1)) => if source > u64::MAX {
            None
        } else {
            match varint_decoding(program.skip(n1 as int)) {
                None => None,
                Some((target, n2)) => if target > u64::MAX {
                    None
                } else {
                    Some((source, target, n1 + n2))
                },
            }
        },
    }
}

/// What applying the delta `program` to `base` gives.
pub open spec fn delta_result(base: Seq<u8>, program: Seq<u8>) -> Result<Seq<u8>, Error> {
    match delta_sizes(program) {
        None => Err(Error::Malformed),
        Some((source, target, used)) => if base.len() != source {
            Err(Error::SizeMismatch)
        } else {
            match instructions(program.skip(used as int)) {
                None => Err(Error::Malformed),
                Some(ops) => match ops_output(base, ops) {
                    None => Err(Error::Malformed),
                    Some(out) => if out.len() != target {
                        Err(Error::SizeMismatch)
                    } else {
                        Ok(out)
                    },
                },
            }
        },
    }
}

/// An operand state of the parser, as the contracts write it.
pub open spec fn operand_state(state: Option<(u32, usize)>) -> Option<(nat, nat)> {
    match state {
        Some((value, used)) => Some((value as nat, used as nat)),
        None => None,
    }
}

/// Takes one operand byte of a copy from `data` where `present` says so.
fn operand_step(data: &[u8], present: bool, state: Option<(u32, usize)>, weight: u32) -> (r: Option<
    (u32, usize),
>)
    requires
        0 < weight <= 0x100_0000,
        state matches Some((value, used)) ==> value < weight && used <= data.len(),
    ensures
        operand_state(r) == operand_byte(data@, present, operand_state(state), weight as nat),
        r matches Some((value, used)) ==> value < 256 * weight && used <= data.len(),
{
    match state {
        None => None,
        Some((value, used)) => {
            if !present {
                Some((value, used))
            } else if used < data.len() {
                let b: u8 = data[used];
                assert(b as nat * weight as nat <= 255 * weight) by (nonlinear_arith)
                    requires
                        b <= 255,
                ;
                let piece: u32 = (b as u32) * weight;
                Some((value + piece, used + 1))
            } else {
                None
            }
        },
    }
}

/// Reads the offset bytes of a copy with opcode `op` from the start of
/// `data`.
fn read_copy_offset(data: &[u8], op: u8) -> (r: Option<(u32, usize)>)
    ensures
        operand_state(r) == copy_offset(data@, op),
        r matches Some((_, used)) ==> used <= data@.len(),
{
    reveal(copy_offset);
    let b0 = operand_step(data, op & 0x01 != 0, Some((0, 0)), 1);
    let b1 = operand_step(data, op & 0x02 != 0, b0, 0x100);
    let b2 = operand_step(data, op & 0x04 != 0, b1, 0x1_0000);
    operand_step(data, op & 0x08 != 0, b2, 0x100_0000)
}

/// Reads the size bytes of a copy with opcode `op`, which follow the `taken`
/// offset bytes at the start of `data`.
fn read_copy_size(data: &[u8], op: u8, taken: usize) -> (r: Option<(u32, usize)>)
    requires
        taken <= data@.len(),
    ensures
        operand_state(r) == copy_size(data@, op, taken as nat),
        r matches Some((_, used)) ==> used <= data@.len(),
{
    reveal(copy_size);
    let b0 = operand_step(data, op & 0x10 != 0, Some((0, taken)), 1);
    let b1 = operand_step(data, op & 0x20 != 0, b0, 0x100);
    operand_step(data, op & 0x40 != 0, b1, 0x1_0000)
}

/// Reads the instruction at the start of `data`, and says how many bytes it
/// occupies.
pub fn read_instruction(data: &[u8]) -> (r: Result<(Instruction, usize), Error>)
    ensures
        match r {
            Ok((instruction, used)) => {
                &&& first_instruction(data@) == Some((instruction@, used as nat))
                &&& 0 < used <= data@.len()
            },
            Err(e) => e == Error::Malformed && first_instruction(data@) is None,
        },
{
    if data.len() == 0 {
        return Err(Error::Malformed);
    }
    let op: u8 = data[0];
    let rest = slice_subrange(data, 1, data.len());
    assert(rest@ == data@.skip(1));
    assert((op & 0x80 != 0) == (op >= 128)) by (bit_vector);
    if op & 0x80 != 0 {
        match read_copy_offset(rest, op) {
            None => Err(Error::Malformed),
            Some((offset, taken)) => match read_copy_size(rest, op, taken) {
                None => Err(Error::Malformed),
                Some((given, used)) => {
                    let size: u32 = if given == 0 {
                        DEFAULT_COPY_SIZE
                    } else {
                        given
                    };
                    Ok((Instruction::Copy { size, offset }, used + 1))
                },
            },
        }
    } else if op == 0 {
        Err(Error::Malformed)
    } else {
        let count: usize = (op & 0x7f) as usize;
        assert(op & 0x7f == op % 128) by (bit_vector);
        if rest.len() < count {
            Err(Error::Malformed)
        } else {
            let bytes = slice_to_vec(slice_subrange(rest, 0, count));
            assert(bytes@ =~= data@.subrange(1, 1 + op));
            Ok((Instruction::Insert { data: bytes }, count + 1))
        }
    }
}

/// Reads `data` as a sequence of instructions.
pub fn parse_instructions(data: &[u8]) -> (r: Result<Vec<Instruction>, Error>)
    ensures
        match r {
            Ok(list) => instructions(data@) == Some(ops_of(list@)),
            Err(e) => e == Error::Malformed && instructions(data@) is None,
        },
{
    let mut list: Vec<Instruction> = Vec::new();
    let mut pos: usize = 0;
    assert(data@.skip(0) =~= data@);
    assert(ops_of(list@) + Seq::<Op>::empty() =~= Seq::<Op>::empty());
    while pos < data.len()
        invariant
            pos <= data.len(),
            instructions(data@) == match instructions(data@.skip(pos as int)) {
                Some(rest) => Some(ops_of(list@) + rest),
                None => None,
            },
        decreases data.len() - pos,
    {
        let tail = slice_subrange(data, pos, data.len());
        assert(tail@ == data@.skip(pos as int));
        match read_instruction(tail) {
            Err(e) => {
                return Err(e);
            },
            Ok((instruction, used)) => {
                proof {
                    assert(tail@.skip(used as int) =~= data@.skip(pos + used));
                    let ghost before = ops_of(list@);
                    let ghost after = ops_of(list@.push(instruction));
                    assert(after =~= before.push(instruction@));
                    if let Some(rest) = instructions(data@.skip(pos + used)) {
                        assert(before + (seq![instruction@] + rest) =~= after + rest);
                    }
                }
                list.push(instruction);
                pos = pos + used;
            },
        }
    }
    assert(ops_of(list@) + Seq::<Op>::empty() =~= ops_of(list@));
    Ok(list)
}

/// Runs the instructions against `base` and gives what they append.
pub fn apply_instructions(base: &[u8], list: &Vec<Instruction>) -> (r: Result<Vec<u8>, Error>)
    ensures
        match r {
            Ok(out) => ops_output(base@, ops_of(list@)) == Some(out@),
            Err(e) => e == Error::Malformed && ops_output(base@, ops_of(list@)) is None,
        },
{
    let mut out: Vec<u8> = Vec::new();
    let mut i: usize = 0;
    let ghost ops = ops_of(list@);
    assert(ops.take(0) =~= Seq::<Op>::empty());
    while i < list.len()
        invariant
            i <= list.len(),
            ops == ops_of(list@),
            ops_output(base@, ops.take(i as int)) == Some(out@),
        decreases list.len() - i,
    {
        proof {
            let ghost next = ops.take(i + 1);
            assert(next.drop_last() =~= ops.take(i as int));
            assert(next.last() == list@[i as int]@);
        }
        match &list[i] {
            Instruction::Copy { size, offset } => {
                let end: u64 = *offset as u64 + *size as u64;
                if end > base.len() as u64 {
                    proof {
                        lemma_ops_output_fails(base@, ops, i as nat + 1);
                    }
                    return Err(Error::Malformed);
                }
                append(&mut out, slice_subrange(base, *offset as usize, end as usize));
            },
            Instruction::Insert { data } => {
                append(&mut out, data.as_slice());
            },
        }
        i = i + 1;
    }
    assert(ops.take(i as int) =~= ops);
    Ok(out)
}

/// Once a prefix of the steps fails, the whole sequence fails.
proof fn lemma_ops_output_fails(base: Seq<u8>, ops: Seq<Op>, n: nat)
    requires
        n <= ops.len(),
        ops_output(base, ops.take(n as int)) is None,
    ensures
        ops_output(base, ops) is None,
    decreases ops.len() - n,
{
    if n == ops.len() {
        assert(ops.take(n as int) =~= ops);
    } else {
        let next = ops.take(n as int + 1);
        assert(next.drop_last() =~= ops.take(n as int));
        lemma_ops_output_fails(base, ops, n + 1);
    }
}

/// Reads the two sizes that a delta program starts with, and says how many
/// bytes they occupy.
pub fn read_delta_sizes(program: &[u8]) -> (r: Result<(u64, u64, usize), Error>)
    ensures
        match r {
            Ok((source, target, used)) => {
                &&& delta_sizes(program@) == Some((source as nat, target as nat, used as nat))
                &&& used <= program@.len()
            },
            Err(e) => e == Error::Malformed && delta_sizes(program@) is None,
        },
{
    proof {
        lemma_varint_within(program@);
    }
    let (source, n1) = process_var_int(program)?;
    let tail = slice_subrange(program, n1, program.len());
    assert(tail@ == program@.skip(n1 as int));
    proof {
        lemma_varint_within(tail@);
    }
    let (target, n2) = process_var_int(tail)?;
    Ok((source, target, n1 + n2))
}

/// Rebuilds an object from `base` and the delta `program` that describes it.
/// Fails where the program is cut short, holds the opcode 0 or copies from
/// beyond the base (`Malformed`), and where the base or the result has not
/// the size that the program declares (`SizeMismatch`).
pub fn apply_delta(base: &[u8], program: &[u8]) -> (r: Result<Vec<u8>, Error>)
    ensures
        match r {
            Ok(out) => delta_result(base@, program@) == Ok::<Seq<u8>, Error>(out@),
            Err(e) => delta_result(base@, program@) == Err::<Seq<u8>, Error>(e),
        },
{
    let (source, target, used) = read_delta_sizes(program)?;
    if base.len() as u64 != source {
        return Err(Error::SizeMismatch);
    }
    let body = slice_subrange(program, used, program.len());
    assert(body@ == program@.skip(used as int));
    let list = parse_instructions(body)?;
    let out = apply_instructions(base, &list)?;
    if out.len() as u64 != target {
        return Err(Error::SizeMismatch);
    }
    Ok(out)
}

/// A delta that applies gives exactly as many bytes as it declares for its
/// result, and applies only to a base of the size it declares.
pub proof fn lemma_delta_output_size(base: Seq<u8>, program: Seq<u8>)
    ensures
        delta_result(base, program) matches Ok(out) ==> {
            &&& delta_sizes(program) matches Some((source, target, _))
            &&& base.len() == source
            &&& out.len() == target
        },
{
}

/// The instructions of a delta program, which follow its two sizes.
pub open spec fn delta_ops(program: Seq<u8>) -> Option<Seq<Op>> {
    match delta_sizes(program) {
        Some((_, _, used)) => instructions(program.skip(used as int)),
        None => None,
    }
}

/// A delta with a copy that reaches beyond the base does not apply.
pub proof fn lemma_copy_outside_base_fails(base: Seq<u8>, program: Seq<u8>, i: int)
    requires
        ({
            &&& delta_ops(program) matches Some(ops)
            &&& 0 <= i < ops.len()
            &&& ops[i] matches Op::Copy { offset, size }
            &&& offset + size > base.len()
        }),
    ensures
        delta_result(base, program) is Err,
{
    let ops = delta_ops(program)->0;
    let upto = ops.take(i + 1);
    assert(upto.last() == ops[i]);
    assert(ops_output(base, upto) is None);
    lemma_ops_output_fails(base, ops, (i + 1) as nat);
}

} // verus!
