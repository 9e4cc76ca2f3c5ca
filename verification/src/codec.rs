//! The binary program format: lossless, tag-stable serialization of a
//! `Program`.
//!
//! Each instruction variant carries a fixed one-byte tag given by its
//! declared order (`Nop` is 0, `Move` is 23), followed by its field values
//! in declared order. A `Value` is a one-byte discriminant (0 register, 1
//! immediate) and its payload; an `OpType` is one byte (0 float, 1 signed,
//! 2 unsigned); 32-bit words are little-endian. A program is the
//! instruction count, the instructions, the string count, and each string
//! as a length-prefixed UTF-8 byte sequence. Decoding an unknown tag, a
//! truncated stream or an invalid payload is an error, never a silent
//! default.
use vstd::prelude::*;
use vstd::utf8::{decode_utf8, encode_utf8, encode_utf8_decode_utf8, encode_utf8_valid_utf8,
    valid_utf8};
use crate::bytes::{le_bytes_of, lemma_le_bytes_round_trip, u32_from_le_bytes, u32_to_le_bytes,
    word_of_le_bytes};
use crate::instructions::{Instruction, Op1, Op2, Op2wTypes, OpType, Value};
use crate::program::{Program, ProgramView};

verus! {

/// Why a byte stream failed to decode.
#[derive(Clone, Copy, Debug, PartialEq, Eq, Structural)]
pub enum DecodeError {
    /// The stream ended inside an instruction, a count or a payload.
    Truncated,
    /// An instruction tag outside the declared range.
    UnknownTag,
    /// A `Value` discriminant other than register or immediate.
    BadValueKind,
    /// An `OpType` byte outside the three declared reinterpretations.
    BadOpType,
    /// A string payload that is not valid UTF-8.
    BadStringPayload,
    /// Bytes left over after the declared counts were read.
    TrailingBytes,
}

// ---------------------------------------------------------------------
// Encoding, as a mathematical function of the program.
// ---------------------------------------------------------------------

/// The one-byte encoding of an `OpType`.
pub open spec fn op_type_byte(t: OpType) -> u8 {
    match t {
        OpType::Float => 0u8,
        OpType::Int => 1u8,
        OpType::UnsignedInt => 2u8,
    }
}

/// The `OpType` a byte denotes, if any.
pub open spec fn op_type_of_byte(b: u8) -> Option<OpType> {
    if b == 0 {
        Some(OpType::Float)
    } else if b == 1 {
        Some(OpType::Int)
    } else if b == 2 {
        Some(OpType::UnsignedInt)
    } else {
        None
    }
}

/// The encoding of an operand: discriminant then payload.
pub open spec fn encode_value(v: Value) -> Seq<u8> {
    match v {
        Value::Register(r) => seq![0u8, r],
        Value::Immediate(i) => seq![1u8] + le_bytes_of(i),
    }
}

/// The fixed tag of each instruction variant, in declared order.
pub open spec fn instruction_tag(i: Instruction) -> u8 {
    match i {
        Instruction::Nop => 0u8,
        Instruction::Add { op } => 1u8,
        Instruction::Sub { op } => 2u8,
        Instruction::Mul { op } => 3u8,
        Instruction::Div { op } => 4u8,
        Instruction::Mod { op } => 5u8,
        Instruction::GreaterThanOrEqual { op } => 6u8,
        Instruction::LessThanOrEqual { op } => 7u8,
        Instruction::GreaterThan { op } => 8u8,
        Instruction::LessThan { op } => 9u8,
        Instruction::And { op } => 10u8,
        Instruction::Or { op } => 11u8,
        Instruction::Xor { op } => 12u8,
        Instruction::ShiftLeft { op } => 13u8,
        Instruction::ShiftRight { op } => 14u8,
        Instruction::Equal { op } => 15u8,
        Instruction::NotEqual { op } => 16u8,
        Instruction::Not { op } => 17u8,
        Instruction::Jump { dest } => 18u8,
        Instruction::JumpIfZero { dest, condition } => 19u8,
        Instruction::JumpIfNotZero { dest, condition } => 20u8,
        Instruction::LoadMemory { dest, value } => 21u8,
        Instruction::Store { dest, value } => 22u8,
        Instruction::Move { dest, value } => 23u8,
    }
}

/// The field encoding of a typed binary operand group, in declared order.
pub open spec fn encode_typed_ops(op: Op2wTypes) -> Seq<u8> {
    encode_value(op.lhs) + encode_value(op.rhs) + seq![op.dest, op_type_byte(op.op_type)]
}

/// The field encoding of an untyped binary operand group.
pub open spec fn encode_bin_ops(op: Op2) -> Seq<u8> {
    encode_value(op.lhs) + encode_value(op.rhs) + seq![op.dest]
}

/// The encoding of one instruction: its tag, then its fields.
pub open spec fn encode_instruction(i: Instruction) -> Seq<u8> {
    seq![instruction_tag(i)] + match i {
        Instruction::Nop => Seq::<u8>::empty(),
        Instruction::Add { op } => encode_typed_ops(op),
        Instruction::Sub { op } => encode_typed_ops(op),
        Instruction::Mul { op } => encode_typed_ops(op),
        Instruction::Div { op } => encode_typed_ops(op),
        Instruction::Mod { op } => encode_typed_ops(op),
        Instruction::GreaterThanOrEqual { op } => encode_typed_ops(op),
        Instruction::LessThanOrEqual { op } => encode_typed_ops(op),
        Instruction::GreaterThan { op } => encode_typed_ops(op),
        Instruction::LessThan { op } => encode_typed_ops(op),
        Instruction::And { op } => encode_bin_ops(op),
        Instruction::Or { op } => encode_bin_ops(op),
        Instruction::Xor { op } => encode_bin_ops(op),
        Instruction::ShiftLeft { op } => encode_bin_ops(op),
        Instruction::ShiftRight { op } => encode_bin_ops(op),
        Instruction::Equal { op } => encode_bin_ops(op),
        Instruction::NotEqual { op } => encode_bin_ops(op),
        Instruction::Not { op } => encode_value(op.value) + seq![op.dest],
        Instruction::Jump { dest } => le_bytes_of(dest),
        Instruction::JumpIfZero { dest, condition } => le_bytes_of(dest) + encode_value(condition),
        Instruction::JumpIfNotZero { dest, condition } => le_bytes_of(dest) + encode_value(
            condition,
        ),
        Instruction::LoadMemory { dest, value } => seq![dest] + encode_value(value),
        Instruction::Store { dest, value } => encode_value(dest) + encode_value(value),
        Instruction::Move { dest, value } => seq![dest] + encode_value(value),
    }
}

/// The concatenated encodings of an instruction sequence.
pub open spec fn encode_instruction_seq(s: Seq<Instruction>) -> Seq<u8>
    decreases s.len(),
{
    if s.len() == 0 {
        Seq::empty()
    } else {
        encode_instruction(s[0]) + encode_instruction_seq(s.drop_first())
    }
}

/// The encoding of one string literal: byte length, then UTF-8 bytes.
pub open spec fn encode_string_lit(s: Seq<char>) -> Seq<u8> {
    le_bytes_of(encode_utf8(s).len() as u32) + encode_utf8(s)
}

/// The concatenated encodings of the string table.
pub open spec fn encode_string_seq(s: Seq<Seq<char>>) -> Seq<u8>
    decreases s.len(),
{
    if s.len() == 0 {
        Seq::empty()
    } else {
        encode_string_lit(s[0]) + encode_string_seq(s.drop_first())
    }
}

/// Whether every count in the program fits its 32-bit length prefix.
pub open spec fn encodable(p: ProgramView) -> bool {
    &&& p.instructions.len() <= u32::MAX
    &&& p.strings.len() <= u32::MAX
    &&& forall|i: int|
        0 <= i < p.strings.len() ==> encode_utf8(#[trigger] p.strings[i]).len() <= u32::MAX
}

/// The full encoding of a program.
pub open spec fn encode_program_bytes(p: ProgramView) -> Seq<u8> {
    le_bytes_of(p.instructions.len() as u32) + encode_instruction_seq(p.instructions)
        + le_bytes_of(p.strings.len() as u32) + encode_string_seq(p.strings)
}

// ---------------------------------------------------------------------
// Decoding, as a mathematical function of the bytes. Each piece reads a
// prefix of its input and reports the value and how many bytes it took.
// ---------------------------------------------------------------------

/// Reads a little-endian 32-bit word.
pub open spec fn decode_u32_at(b: Seq<u8>) -> Result<(u32, int), DecodeError> {
    if b.len() < 4 {
        Err(DecodeError::Truncated)
    } else {
        Ok((word_of_le_bytes(b[0], b[1], b[2], b[3]), 4))
    }
}

/// Reads one operand.
pub open spec fn decode_value_at(b: Seq<u8>) -> Result<(Value, int), DecodeError> {
    if b.len() < 1 {
        Err(DecodeError::Truncated)
    } else if b[0] == 0 {
        if b.len() < 2 {
            Err(DecodeError::Truncated)
        } else {
            Ok((Value::Register(b[1]), 2))
        }
    } else if b[0] == 1 {
        if b.len() < 5 {
            Err(DecodeError::Truncated)
        } else {
            Ok((Value::Immediate(word_of_le_bytes(b[1], b[2], b[3], b[4])), 5))
        }
    } else {
        Err(DecodeError::BadValueKind)
    }
}

/// Reads the fields of a typed binary operand group.
pub open spec fn decode_typed_ops_at(b: Seq<u8>) -> Result<(Op2wTypes, int), DecodeError> {
    match decode_value_at(b) {
        Err(e) => Err(e),
        Ok((lhs, c1)) => match decode_value_at(b.skip(c1)) {
            Err(e) => Err(e),
            Ok((rhs, c2)) => if b.len() >= c1 + c2 + 2 {
                match op_type_of_byte(b[c1 + c2 + 1]) {
                    Some(t) => Ok(
                        (Op2wTypes { lhs, rhs, dest: b[c1 + c2], op_type: t }, c1 + c2 + 2),
                    ),
                    None => Err(DecodeError::BadOpType),
                }
            } else {
                Err(DecodeError::Truncated)
            },
        },
    }
}

/// Reads the fields of an untyped binary operand group.
pub open spec fn decode_bin_ops_at(b: Seq<u8>) -> Result<(Op2, int), DecodeError> {
    match decode_value_at(b) {
        Err(e) => Err(e),
        Ok((lhs, c1)) => match decode_value_at(b.skip(c1)) {
            Err(e) => Err(e),
            Ok((rhs, c2)) => if b.len() >= c1 + c2 + 1 {
                Ok((Op2 { lhs, rhs, dest: b[c1 + c2] }, c1 + c2 + 1))
            } else {
                Err(DecodeError::Truncated)
            },
        },
    }
}

/// The typed instruction variant a tag between 1 and 9 denotes.
pub open spec fn typed_instruction_of_tag(tag: u8, op: Op2wTypes) -> Instruction {
    if tag == 1 {
        Instruction::Add { op }
    } else if tag == 2 {
        Instruction::Sub { op }
    } else if tag == 3 {
        Instruction::Mul { op }
    } else if tag == 4 {
        Instruction::Div { op }
    } else if tag == 5 {
        Instruction::Mod { op }
    } else if tag == 6 {
        Instruction::GreaterThanOrEqual { op }
    } else if tag == 7 {
        Instruction::LessThanOrEqual { op }
    } else if tag == 8 {
        Instruction::GreaterThan { op }
    } else {
        Instruction::LessThan { op }
    }
}

/// The untyped instruction variant a tag between 10 and 16 denotes.
pub open spec fn bin_instruction_of_tag(tag: u8, op: Op2) -> Instruction {
    if tag == 10 {
        Instruction::And { op }
    } else if tag == 11 {
        Instruction::Or { op }
    } else if tag == 12 {
        Instruction::Xor { op }
    } else if tag == 13 {
        Instruction::ShiftLeft { op }
    } else if tag == 14 {
        Instruction::ShiftRight { op }
    } else if tag == 15 {
        Instruction::Equal { op }
    } else {
        Instruction::NotEqual { op }
    }
}

/// Reads one instruction: its tag, then its fields.
pub open spec fn decode_instruction_at(b: Seq<u8>) -> Result<(Instruction, int), DecodeError> {
    if b.len() < 1 {
        Err(DecodeError::Truncated)
    } else {
        let tag = b[0];
        let r = b.skip(1);
        if tag == 0 {
            Ok((Instruction::Nop, 1))
        } else if 1 <= tag && tag <= 9 {
            match decode_typed_ops_at(r) {
                Err(e) => Err(e),
                Ok((op, c)) => Ok((typed_instruction_of_tag(tag, op), 1 + c)),
            }
        } else if 10 <= tag && tag <= 16 {
            match decode_bin_ops_at(r) {
                Err(e) => Err(e),
                Ok((op, c)) => Ok((bin_instruction_of_tag(tag, op), 1 + c)),
            }
        } else if tag == 17 {
            match decode_value_at(r) {
                Err(e) => Err(e),
                Ok((v, c)) => if r.len() >= c + 1 {
                    Ok((Instruction::Not { op: Op1 { value: v, dest: r[c] } }, 1 + c + 1))
                } else {
                    Err(DecodeError::Truncated)
                },
            }
        } else if tag == 18 {
            match decode_u32_at(r) {
                Err(e) => Err(e),
                Ok((dest, c)) => Ok((Instruction::Jump { dest }, 1 + c)),
            }
        } else if tag == 19 || tag == 20 {
            match decode_u32_at(r) {
                Err(e) => Err(e),
                Ok((dest, c1)) => match decode_value_at(r.skip(c1)) {
                    Err(e) => Err(e),
                    Ok((condition, c2)) => Ok(
                        (
                            if tag == 19 {
                                Instruction::JumpIfZero { dest, condition }
                            } else {
                                Instruction::JumpIfNotZero { dest, condition }
                            },
                            1 + c1 + c2,
                        ),
                    ),
                },
            }
        } else if tag == 21 || tag == 23 {
            if r.len() < 1 {
                Err(DecodeError::Truncated)
            } else {
                match decode_value_at(r.skip(1)) {
                    Err(e) => Err(e),
                    Ok((value, c)) => Ok(
                        (
                            if tag == 21 {
                                Instruction::LoadMemory { dest: r[0], value }
                            } else {
                                Instruction::Move { dest: r[0], value }
                            },
                            2 + c,
                        ),
                    ),
                }
            }
        } else if tag == 22 {
            match decode_value_at(r) {
                Err(e) => Err(e),
                Ok((dest, c1)) => match decode_value_at(r.skip(c1)) {
                    Err(e) => Err(e),
                    Ok((value, c2)) => Ok((Instruction::Store { dest, value }, 1 + c1 + c2)),
                },
            }
        } else {
            Err(DecodeError::UnknownTag)
        }
    }
}

/// Reads `n` instructions in sequence.
pub open spec fn decode_instruction_list(b: Seq<u8>, n: nat) -> Result<
    (Seq<Instruction>, int),
    DecodeError,
>
    decreases n,
{
    if n == 0 {
        Ok((Seq::empty(), 0))
    } else {
        match decode_instruction_at(b) {
            Err(e) => Err(e),
            Ok((i, c)) => match decode_instruction_list(b.skip(c), (n - 1) as nat) {
                Err(e) => Err(e),
                Ok((s, c2)) => Ok((seq![i] + s, c + c2)),
            },
        }
    }
}

/// Reads one length-prefixed string literal; its payload must be valid
/// UTF-8.
pub open spec fn decode_string_at(b: Seq<u8>) -> Result<(Seq<char>, int), DecodeError> {
    match decode_u32_at(b) {
        Err(e) => Err(e),
        Ok((len, c)) => if b.len() < 4 + len {
            Err(DecodeError::Truncated)
        } else {
            let payload = b.subrange(4, 4 + len);
            if valid_utf8(payload) {
                Ok((decode_utf8(payload), 4 + len))
            } else {
                Err(DecodeError::BadStringPayload)
            }
        },
    }
}

/// Reads `n` string literals in sequence.
pub open spec fn decode_string_list(b: Seq<u8>, n: nat) -> Result<(Seq<Seq<char>>, int), DecodeError>
    decreases n,
{
    if n == 0 {
        Ok((Seq::empty(), 0))
    } else {
        match decode_string_at(b) {
            Err(e) => Err(e),
            Ok((s, c)) => match decode_string_list(b.skip(c), (n - 1) as nat) {
                Err(e) => Err(e),
                Ok((ss, c2)) => Ok((seq![s] + ss, c + c2)),
            },
        }
    }
}

/// Reads a whole program; every byte of the stream must be consumed.
pub open spec fn decode_program_bytes(b: Seq<u8>) -> Result<ProgramView, DecodeError> {
    match decode_u32_at(b) {
        Err(e) => Err(e),
        Ok((icount, c0)) => match decode_instruction_list(b.skip(4), icount as nat) {
            Err(e) => Err(e),
            Ok((instrs, c1)) => match decode_u32_at(b.skip(4 + c1)) {
                Err(e) => Err(e),
                Ok((scount, c2)) => match decode_string_list(b.skip(8 + c1), scount as nat) {
                    Err(e) => Err(e),
                    Ok((strs, c3)) => if b.len() == 8 + c1 + c3 {
                        Ok(ProgramView { instructions: instrs, strings: strs })
                    } else {
                        Err(DecodeError::TrailingBytes)
                    },
                },
            },
        },
    }
}

// ---------------------------------------------------------------------
// The round trip: decoding an encoding reads back what was written.
// ---------------------------------------------------------------------

proof fn lemma_decode_value(v: Value, rest: Seq<u8>)
    ensures
        decode_value_at(encode_value(v) + rest) == Ok::<(Value, int), DecodeError>(
            (v, encode_value(v).len() as int),
        ),
{
    let b = encode_value(v) + rest;
    match v {
        Value::Register(r) => {
            assert(b[0] == 0u8 && b[1] == r);
        },
        Value::Immediate(i) => {
            assert(b[0] == 1u8);
            lemma_le_bytes_round_trip(i);
            assert(word_of_le_bytes(b[1], b[2], b[3], b[4]) == i);
        },
    }
}

proof fn lemma_decode_u32(v: u32, rest: Seq<u8>)
    ensures
        decode_u32_at(le_bytes_of(v) + rest) == Ok::<(u32, int), DecodeError>((v, 4)),
{
    let b = le_bytes_of(v) + rest;
    lemma_le_bytes_round_trip(v);
    assert(word_of_le_bytes(b[0], b[1], b[2], b[3]) == v);
}

proof fn lemma_decode_typed_ops(op: Op2wTypes, rest: Seq<u8>)
    ensures
        decode_typed_ops_at(encode_typed_ops(op) + rest) == Ok::<(Op2wTypes, int), DecodeError>(
            (op, encode_typed_ops(op).len() as int),
        ),
{
    let b = encode_typed_ops(op) + rest;
    let tail = seq![op.dest, op_type_byte(op.op_type)] + rest;
    assert(b =~= encode_value(op.lhs) + (encode_value(op.rhs) + tail));
    lemma_decode_value(op.lhs, encode_value(op.rhs) + tail);
    let c1 = encode_value(op.lhs).len() as int;
    assert(b.skip(c1) =~= encode_value(op.rhs) + tail);
    lemma_decode_value(op.rhs, tail);
    let c2 = encode_value(op.rhs).len() as int;
    assert(b[c1 + c2] == op.dest);
    assert(b[c1 + c2 + 1] == op_type_byte(op.op_type));
}

proof fn lemma_decode_bin_ops(op: Op2, rest: Seq<u8>)
    ensures
        decode_bin_ops_at(encode_bin_ops(op) + rest) == Ok::<(Op2, int), DecodeError>(
            (op, encode_bin_ops(op).len() as int),
        ),
{
    let b = encode_bin_ops(op) + rest;
    let tail = seq![op.dest] + rest;
    assert(b =~= encode_value(op.lhs) + (encode_value(op.rhs) + tail));
    lemma_decode_value(op.lhs, encode_value(op.rhs) + tail);
    let c1 = encode_value(op.lhs).len() as int;
    assert(b.skip(c1) =~= encode_value(op.rhs) + tail);
    lemma_decode_value(op.rhs, tail);
    let c2 = encode_value(op.rhs).len() as int;
    assert(b[c1 + c2] == op.dest);
}

#[verifier::rlimit(100)]
#[verifier::spinoff_prover]
proof fn lemma_decode_instruction_typed(i: Instruction, rest: Seq<u8>)
    requires
        1 <= instruction_tag(i) <= 9,
    ensures
        decode_instruction_at(encode_instruction(i) + rest) == Ok::<(Instruction, int), DecodeError>(
            (i, encode_instruction(i).len() as int),
        ),
{
    let b = encode_instruction(i) + rest;
    assert(b[0] == instruction_tag(i));
    match i {
        Instruction::Add { op } => {
            assert(b.skip(1) =~= encode_typed_ops(op) + rest);
            lemma_decode_typed_ops(op, rest);
        },
        Instruction::Sub { op } => {
            assert(b.skip(1) =~= encode_typed_ops(op) + rest);
            lemma_decode_typed_ops(op, rest);
        },
        Instruction::Mul { op } => {
            assert(b.skip(1) =~= encode_typed_ops(op) + rest);
            lemma_decode_typed_ops(op, rest);
        },
        Instruction::Div { op } => {
            assert(b.skip(1) =~= encode_typed_ops(op) + rest);
            lemma_decode_typed_ops(op, rest);
        },
        Instruction::Mod { op } => {
            assert(b.skip(1) =~= encode_typed_ops(op) + rest);
            lemma_decode_typed_ops(op, rest);
        },
        Instruction::GreaterThanOrEqual { op } => {
            assert(b.skip(1) =~= encode_typed_ops(op) + rest);
            lemma_decode_typed_ops(op, rest);
        },
        Instruction::LessThanOrEqual { op } => {
            assert(b.skip(1) =~= encode_typed_ops(op) + rest);
            lemma_decode_typed_ops(op, rest);
        },
        Instruction::GreaterThan { op } => {
            assert(b.skip(1) =~= encode_typed_ops(op) + rest);
            lemma_decode_typed_ops(op, rest);
        },
        Instruction::LessThan { op } => {
            assert(b.skip(1) =~= encode_typed_ops(op) + rest);
            lemma_decode_typed_ops(op, rest);
        },
        _ => {},
    }
}

#[verifier::rlimit(100)]
#[verifier::spinoff_prover]
proof fn lemma_decode_instruction_bin(i: Instruction, rest: Seq<u8>)
    requires
        10 <= instruction_tag(i) <= 16,
    ensures
        decode_instruction_at(encode_instruction(i) + rest) == Ok::<(Instruction, int), DecodeError>(
            (i, encode_instruction(i).len() as int),
        ),
{
    let b = encode_instruction(i) + rest;
    assert(b[0] == instruction_tag(i));
    match i {
        Instruction::And { op } => {
            assert(b.skip(1) =~= encode_bin_ops(op) + rest);
            lemma_decode_bin_ops(op, rest);
        },
        Instruction::Or { op } => {
            assert(b.skip(1) =~= encode_bin_ops(op) + rest);
            lemma_decode_bin_ops(op, rest);
        },
        Instruction::Xor { op } => {
            assert(b.skip(1) =~= encode_bin_ops(op) + rest);
            lemma_decode_bin_ops(op, rest);
        },
        Instruction::ShiftLeft { op } => {
            assert(b.skip(1) =~= encode_bin_ops(op) + rest);
            lemma_decode_bin_ops(op, rest);
        },
        Instruction::ShiftRight { op } => {
            assert(b.skip(1) =~= encode_bin_ops(op) + rest);
            lemma_decode_bin_ops(op, rest);
        },
        Instruction::Equal { op } => {
            assert(b.skip(1) =~= encode_bin_ops(op) + rest);
            lemma_decode_bin_ops(op, rest);
        },
        Instruction::NotEqual { op } => {
            assert(b.skip(1) =~= encode_bin_ops(op) + rest);
            lemma_decode_bin_ops(op, rest);
        },
        _ => {},
    }
}

#[verifier::rlimit(100)]
#[verifier::spinoff_prover]
proof fn lemma_decode_instruction_rest(i: Instruction, rest: Seq<u8>)
    requires
        instruction_tag(i) == 0 || instruction_tag(i) >= 17,
    ensures
        decode_instruction_at(encode_instruction(i) + rest) == Ok::<(Instruction, int), DecodeError>(
            (i, encode_instruction(i).len() as int),
        ),
{
    let b = encode_instruction(i) + rest;
    assert(b[0] == instruction_tag(i));
    match i {
        Instruction::Not { op } => {
            assert(b.skip(1) =~= encode_value(op.value) + (seq![op.dest] + rest));
            lemma_decode_value(op.value, seq![op.dest] + rest);
            let c = encode_value(op.value).len() as int;
            assert(b.skip(1)[c] == op.dest);
        },
        Instruction::Jump { dest } => {
            assert(b.skip(1) =~= le_bytes_of(dest) + rest);
            lemma_decode_u32(dest, rest);
        },
        Instruction::JumpIfZero { dest, condition } => {
            assert(b.skip(1) =~= le_bytes_of(dest) + (encode_value(condition) + rest));
            lemma_decode_u32(dest, encode_value(condition) + rest);
            assert(b.skip(1).skip(4) =~= encode_value(condition) + rest);
            lemma_decode_value(condition, rest);
        },
        Instruction::JumpIfNotZero { dest, condition } => {
            assert(b.skip(1) =~= le_bytes_of(dest) + (encode_value(condition) + rest));
            lemma_decode_u32(dest, encode_value(condition) + rest);
            assert(b.skip(1).skip(4) =~= encode_value(condition) + rest);
            lemma_decode_value(condition, rest);
        },
        Instruction::LoadMemory { dest, value } => {
            assert(b.skip(1) =~= seq![dest] + (encode_value(value) + rest));
            assert(b.skip(1)[0] == dest);
            assert(b.skip(1).skip(1) =~= encode_value(value) + rest);
            lemma_decode_value(value, rest);
        },
        Instruction::Store { dest, value } => {
            assert(b.skip(1) =~= encode_value(dest) + (encode_value(value) + rest));
            lemma_decode_value(dest, encode_value(value) + rest);
            let c1 = encode_value(dest).len() as int;
            assert(b.skip(1).skip(c1) =~= encode_value(value) + rest);
            lemma_decode_value(value, rest);
        },
        Instruction::Move { dest, value } => {
            assert(b.skip(1) =~= seq![dest] + (encode_value(value) + rest));
            assert(b.skip(1)[0] == dest);
            assert(b.skip(1).skip(1) =~= encode_value(value) + rest);
            lemma_decode_value(value, rest);
        },
        _ => {},
    }
}

proof fn lemma_decode_instruction(i: Instruction, rest: Seq<u8>)
    ensures
        decode_instruction_at(encode_instruction(i) + rest) == Ok::<(Instruction, int), DecodeError>(
            (i, encode_instruction(i).len() as int),
        ),
{
    let tag = instruction_tag(i);
    if 1 <= tag && tag <= 9 {
        lemma_decode_instruction_typed(i, rest);
    } else if 10 <= tag && tag <= 16 {
        lemma_decode_instruction_bin(i, rest);
    } else {
        lemma_decode_instruction_rest(i, rest);
    }
}

proof fn lemma_decode_instruction_list(s: Seq<Instruction>, rest: Seq<u8>)
    ensures
        decode_instruction_list(encode_instruction_seq(s) + rest, s.len()) == Ok::<
            (Seq<Instruction>, int),
            DecodeError,
        >((s, encode_instruction_seq(s).len() as int)),
    decreases s.len(),
{
    if s.len() == 0 {
        assert(s =~= Seq::<Instruction>::empty());
    } else {
        let b = encode_instruction_seq(s) + rest;
        let tail = encode_instruction_seq(s.drop_first()) + rest;
        assert(b =~= encode_instruction(s[0]) + tail);
        lemma_decode_instruction(s[0], tail);
        let c = encode_instruction(s[0]).len() as int;
        assert(b.skip(c) =~= tail);
        lemma_decode_instruction_list(s.drop_first(), rest);
        assert(seq![s[0]] + s.drop_first() =~= s);
    }
}

proof fn lemma_decode_string(s: Seq<char>, rest: Seq<u8>)
    requires
        encode_utf8(s).len() <= u32::MAX,
    ensures
        decode_string_at(encode_string_lit(s) + rest) == Ok::<(Seq<char>, int), DecodeError>(
            (s, encode_string_lit(s).len() as int),
        ),
{
    let eb = encode_utf8(s);
    let b = encode_string_lit(s) + rest;
    assert(b =~= le_bytes_of(eb.len() as u32) + (eb + rest));
    lemma_decode_u32(eb.len() as u32, eb + rest);
    assert(b.subrange(4, 4 + eb.len() as int) =~= eb);
    encode_utf8_valid_utf8(s);
    encode_utf8_decode_utf8(s);
}

proof fn lemma_decode_string_list(s: Seq<Seq<char>>, rest: Seq<u8>)
    requires
        forall|i: int| 0 <= i < s.len() ==> encode_utf8(#[trigger] s[i]).len() <= u32::MAX,
    ensures
        decode_string_list(encode_string_seq(s) + rest, s.len()) == Ok::<
            (Seq<Seq<char>>, int),
            DecodeError,
        >((s, encode_string_seq(s).len() as int)),
    decreases s.len(),
{
    if s.len() == 0 {
        assert(s =~= Seq::<Seq<char>>::empty());
    } else {
        let b = encode_string_seq(s) + rest;
        let tail = encode_string_seq(s.drop_first()) + rest;
        assert(b =~= encode_string_lit(s[0]) + tail);
        lemma_decode_string(s[0], tail);
        let c = encode_string_lit(s[0]).len() as int;
        assert(b.skip(c) =~= tail);
        lemma_decode_string_list(s.drop_first(), rest);
        assert(seq![s[0]] + s.drop_first() =~= s);
    }
}

/// The round trip: for every encodable program, decoding the encoding
/// gives back a structurally equal program — the same instruction
/// sequence and the same strings.
pub proof fn lemma_program_round_trip(p: ProgramView)
    requires
        encodable(p),
    ensures
        decode_program_bytes(encode_program_bytes(p)) == Ok::<ProgramView, DecodeError>(p),
{
    let ib = encode_instruction_seq(p.instructions);
    let sb = encode_string_seq(p.strings);
    let b = encode_program_bytes(p);
    let after_count = ib + (le_bytes_of(p.strings.len() as u32) + sb);
    assert(b =~= le_bytes_of(p.instructions.len() as u32) + after_count);
    lemma_decode_u32(p.instructions.len() as u32, after_count);
    assert(b.skip(4) =~= ib + (le_bytes_of(p.strings.len() as u32) + sb));
    lemma_decode_instruction_list(p.instructions, le_bytes_of(p.strings.len() as u32) + sb);
    let c1 = ib.len() as int;
    assert(b.skip(4 + c1) =~= le_bytes_of(p.strings.len() as u32) + sb);
    lemma_decode_u32(p.strings.len() as u32, sb);
    assert(b.skip(8 + c1) =~= sb + Seq::<u8>::empty());
    lemma_decode_string_list(p.strings, Seq::empty());
    assert(b.len() == 8 + c1 + sb.len());
}

// ---------------------------------------------------------------------
// The executable encoder.
// ---------------------------------------------------------------------

fn push_le32(buf: &mut Vec<u8>, v: u32)
    ensures
        final(buf)@ == old(buf)@ + le_bytes_of(v),
{
    let (b0, b1, b2, b3) = u32_to_le_bytes(v);
    buf.push(b0);
    buf.push(b1);
    buf.push(b2);
    buf.push(b3);
    proof {
        assert(buf@ =~= old(buf)@ + le_bytes_of(v));
    }
}

fn push_value(buf: &mut Vec<u8>, v: Value)
    ensures
        final(buf)@ == old(buf)@ + encode_value(v),
{
    match v {
        Value::Register(r) => {
            buf.push(0);
            buf.push(r);
            proof {
                assert(buf@ =~= old(buf)@ + encode_value(v));
            }
        },
        Value::Immediate(i) => {
            buf.push(1);
            push_le32(buf, i);
            proof {
                assert(buf@ =~= old(buf)@ + encode_value(v));
            }
        },
    }
}

fn push_typed_ops(buf: &mut Vec<u8>, op: Op2wTypes)
    ensures
        final(buf)@ == old(buf)@ + encode_typed_ops(op),
{
    push_value(buf, op.lhs);
    push_value(buf, op.rhs);
    buf.push(op.dest);
    let tb: u8 = match op.op_type {
        OpType::Float => 0,
        OpType::Int => 1,
        OpType::UnsignedInt => 2,
    };
    buf.push(tb);
    proof {
        assert(buf@ =~= old(buf)@ + encode_typed_ops(op));
    }
}

fn push_bin_ops(buf: &mut Vec<u8>, op: Op2)
    ensures
        final(buf)@ == old(buf)@ + encode_bin_ops(op),
{
    push_value(buf, op.lhs);
    push_value(buf, op.rhs);
    buf.push(op.dest);
    proof {
        assert(buf@ =~= old(buf)@ + encode_bin_ops(op));
    }
}

#[verifier::rlimit(100)]
#[verifier::spinoff_prover]
fn push_instruction(buf: &mut Vec<u8>, i: Instruction)
    ensures
        final(buf)@ == old(buf)@ + encode_instruction(i),
{
    match i {
        Instruction::Nop => {
            buf.push(0);
            proof {
                assert(buf@ =~= old(buf)@ + encode_instruction(i));
            }
        },
        Instruction::Add { op } => {
            buf.push(1);
            push_typed_ops(buf, op);
            proof {
                assert(buf@ =~= old(buf)@ + encode_instruction(i));
            }
        },
        Instruction::Sub { op } => {
            buf.push(2);
            push_typed_ops(buf, op);
            proof {
                assert(buf@ =~= old(buf)@ + encode_instruction(i));
            }
        },
        Instruction::Mul { op } => {
            buf.push(3);
            push_typed_ops(buf, op);
            proof {
                assert(buf@ =~= old(buf)@ + encode_instruction(i));
            }
        },
        Instruction::Div { op } => {
            buf.push(4);
            push_typed_ops(buf, op);
            proof {
                assert(buf@ =~= old(buf)@ + encode_instruction(i));
            }
        },
        Instruction::Mod { op } => {
            buf.push(5);
            push_typed_ops(buf, op);
            proof {
                assert(buf@ =~= old(buf)@ + encode_instruction(i));
            }
        },
        Instruction::GreaterThanOrEqual { op } => {
            buf.push(6);
            push_typed_ops(buf, op);
            proof {
                assert(buf@ =~= old(buf)@ + encode_instruction(i));
            }
        },
        Instruction::LessThanOrEqual { op } => {
            buf.push(7);
            push_typed_ops(buf, op);
            proof {
                assert(buf@ =~= old(buf)@ + encode_instruction(i));
            }
        },
        Instruction::GreaterThan { op } => {
            buf.push(8);
            push_typed_ops(buf, op);
            proof {
                assert(buf@ =~= old(buf)@ + encode_instruction(i));
            }
        },
        Instruction::LessThan { op } => {
            buf.push(9);
            push_typed_ops(buf, op);
            proof {
                assert(buf@ =~= old(buf)@ + encode_instruction(i));
            }
        },
        Instruction::And { op } => {
            buf.push(10);
            push_bin_ops(buf, op);
            proof {
                assert(buf@ =~= old(buf)@ + encode_instruction(i));
            }
        },
        Instruction::Or { op } => {
            buf.push(11);
            push_bin_ops(buf, op);
            proof {
                assert(buf@ =~= old(buf)@ + encode_instruction(i));
            }
        },
        Instruction::Xor { op } => {
            buf.push(12);
            push_bin_ops(buf, op);
            proof {
                assert(buf@ =~= old(buf)@ + encode_instruction(i));
            }
        },
        Instruction::ShiftLeft { op } => {
            buf.push(13);
            push_bin_ops(buf, op);
            proof {
                assert(buf@ =~= old(buf)@ + encode_instruction(i));
            }
        },
        Instruction::ShiftRight { op } => {
            buf.push(14);
            push_bin_ops(buf, op);
            proof {
                assert(buf@ =~= old(buf)@ + encode_instruction(i));
            }
        },
        Instruction::Equal { op } => {
            buf.push(15);
            push_bin_ops(buf, op);
            proof {
                assert(buf@ =~= old(buf)@ + encode_instruction(i));
            }
        },
        Instruction::NotEqual { op } => {
            buf.push(16);
            push_bin_ops(buf, op);
            proof {
                assert(buf@ =~= old(buf)@ + encode_instruction(i));
            }
        },
        Instruction::Not { op } => {
            buf.push(17);
            push_value(buf, op.value);
            buf.push(op.dest);
            proof {
                assert(buf@ =~= old(buf)@ + encode_instruction(i));
            }
        },
        Instruction::Jump { dest } => {
            buf.push(18);
            push_le32(buf, dest);
            proof {
                assert(buf@ =~= old(buf)@ + encode_instruction(i));
            }
        },
        Instruction::JumpIfZero { dest, condition } => {
            buf.push(19);
            push_le32(buf, dest);
            push_value(buf, condition);
            proof {
                assert(buf@ =~= old(buf)@ + encode_instruction(i));
            }
        },
        Instruction::JumpIfNotZero { dest, condition } => {
            buf.push(20);
            push_le32(buf, dest);
            push_value(buf, condition);
            proof {
                assert(buf@ =~= old(buf)@ + encode_instruction(i));
            }
        },
        Instruction::LoadMemory { dest, value } => {
            buf.push(21);
            buf.push(dest);
            push_value(buf, value);
            proof {
                assert(buf@ =~= old(buf)@ + encode_instruction(i));
            }
        },
        Instruction::Store { dest, value } => {
            buf.push(22);
            push_value(buf, dest);
            push_value(buf, value);
            proof {
                assert(buf@ =~= old(buf)@ + encode_instruction(i));
            }
        },
        Instruction::Move { dest, value } => {
            buf.push(23);
            buf.push(dest);
            push_value(buf, value);
            proof {
                assert(buf@ =~= old(buf)@ + encode_instruction(i));
            }
        },
    }
}

proof fn lemma_encode_instruction_seq_snoc(s: Seq<Instruction>, i: int)
    requires
        0 <= i < s.len(),
    ensures
        encode_instruction_seq(s.take(i + 1)) == encode_instruction_seq(s.take(i))
            + encode_instruction(s[i]),
    decreases i,
{
    if i == 0 {
        assert(s.take(1)[0] == s[0]);
        assert(s.take(1).drop_first() =~= Seq::<Instruction>::empty());
        assert(s.take(0) =~= Seq::<Instruction>::empty());
        assert(encode_instruction_seq(s.take(1)) =~= encode_instruction_seq(s.take(0))
            + encode_instruction(s[0]));
    } else {
        lemma_encode_instruction_seq_snoc(s.drop_first(), i - 1);
        assert(s.take(i + 1)[0] == s[0]);
        assert(s.take(i + 1).drop_first() =~= s.drop_first().take(i));
        assert(s.take(i)[0] == s[0]);
        assert(s.take(i).drop_first() =~= s.drop_first().take(i - 1));
        assert(s.drop_first()[i - 1] == s[i]);
        assert(encode_instruction_seq(s.take(i + 1)) =~= encode_instruction_seq(s.take(i))
            + encode_instruction(s[i]));
    }
}

proof fn lemma_encode_string_seq_snoc(s: Seq<Seq<char>>, i: int)
    requires
        0 <= i < s.len(),
    ensures
        encode_string_seq(s.take(i + 1)) == encode_string_seq(s.take(i)) + encode_string_lit(s[i]),
    decreases i,
{
    if i == 0 {
        assert(s.take(1)[0] == s[0]);
        assert(s.take(1).drop_first() =~= Seq::<Seq<char>>::empty());
        assert(s.take(0) =~= Seq::<Seq<char>>::empty());
        assert(encode_string_seq(s.take(1)) =~= encode_string_seq(s.take(0)) + encode_string_lit(
            s[0],
        ));
    } else {
        lemma_encode_string_seq_snoc(s.drop_first(), i - 1);
        assert(s.take(i + 1)[0] == s[0]);
        assert(s.take(i + 1).drop_first() =~= s.drop_first().take(i));
        assert(s.take(i)[0] == s[0]);
        assert(s.take(i).drop_first() =~= s.drop_first().take(i - 1));
        assert(s.drop_first()[i - 1] == s[i]);
        assert(encode_string_seq(s.take(i + 1)) =~= encode_string_seq(s.take(i))
            + encode_string_lit(s[i]));
    }
}

/// Encodes a program into its byte stream. Returns nothing exactly when a
/// count in the program does not fit its 32-bit length prefix.
pub fn encode(program: &Program) -> (res: Option<Vec<u8>>)
    ensures
        res is Some <==> encodable(program@),
        res matches Some(b) ==> b@ == encode_program_bytes(program@),
{
    let ghost pv = program@;
    if program.instructions.len() > u32::MAX as usize {
        return None;
    }
    if program.strings.len() > u32::MAX as usize {
        return None;
    }
    let mut buf: Vec<u8> = Vec::new();
    push_le32(&mut buf, program.instructions.len() as u32);
    let mut idx: usize = 0;
    while idx < program.instructions.len()
        invariant
            pv == program@,
            pv.instructions.len() <= u32::MAX,
            idx <= pv.instructions.len(),
            buf@ == le_bytes_of(pv.instructions.len() as u32) + encode_instruction_seq(
                pv.instructions.take(idx as int),
            ),
        decreases pv.instructions.len() - idx,
    {
        push_instruction(&mut buf, program.instructions[idx]);
        proof {
            lemma_encode_instruction_seq_snoc(pv.instructions, idx as int);
        }
        idx += 1;
    }
    proof {
        assert(pv.instructions.take(pv.instructions.len() as int) =~= pv.instructions);
    }
    push_le32(&mut buf, program.strings.len() as u32);
    let ghost prefix = buf@;
    let mut sdx: usize = 0;
    while sdx < program.strings.len()
        invariant
            pv == program@,
            pv.strings.len() <= u32::MAX,
            sdx <= pv.strings.len(),
            prefix == le_bytes_of(pv.instructions.len() as u32) + encode_instruction_seq(
                pv.instructions,
            ) + le_bytes_of(pv.strings.len() as u32),
            buf@ == prefix + encode_string_seq(pv.strings.take(sdx as int)),
            forall|t: int|
                0 <= t < sdx ==> encode_utf8(#[trigger] pv.strings[t]).len() <= u32::MAX,
        decreases pv.strings.len() - sdx,
    {
        let bs = program.strings[sdx].as_str().as_bytes();
        if bs.len() > u32::MAX as usize {
            proof {
                assert(bs@ == encode_utf8(pv.strings[sdx as int]));
                assert(!encodable(pv));
            }
            return None;
        }
        push_le32(&mut buf, bs.len() as u32);
        let ghost mid = buf@;
        let mut j: usize = 0;
        while j < bs.len()
            invariant
                j <= bs@.len(),
                buf@ == mid + bs@.take(j as int),
            decreases bs@.len() - j,
        {
            buf.push(bs[j]);
            proof {
                assert(buf@ =~= mid + bs@.take(j as int + 1));
            }
            j += 1;
        }
        proof {
            assert(bs@.take(bs@.len() as int) =~= bs@);
            assert(buf@ =~= prefix + (encode_string_seq(pv.strings.take(sdx as int))
                + encode_string_lit(pv.strings[sdx as int])));
            lemma_encode_string_seq_snoc(pv.strings, sdx as int);
        }
        sdx += 1;
    }
    proof {
        assert(pv.strings.take(pv.strings.len() as int) =~= pv.strings);
        assert(buf@ =~= encode_program_bytes(pv));
    }
    Some(buf)
}

// ---------------------------------------------------------------------
// The executable decoder. Each reader takes an absolute position into the
// byte stream and reports the value and the next position, matching the
// positional decoding functions above on the stream's suffix.
// ---------------------------------------------------------------------

/// Relies on `str::from_utf8`: succeeds exactly on valid UTF-8 input and
/// returns the string whose characters are the decoded scalar values.
#[verifier::external_body]
fn bytes_to_string(v: &Vec<u8>) -> (res: Option<String>)
    ensures
        res is Some <==> valid_utf8(v@),
        res matches Some(s) ==> s@ == decode_utf8(v@),
{
    match core::str::from_utf8(v.as_slice()) {
        Ok(s) => Some(s.to_owned()),
        Err(_) => None,
    }
}

fn read_u32(bytes: &Vec<u8>, pos: usize) -> (res: Result<(u32, usize), DecodeError>)
    requires
        pos <= bytes@.len(),
    ensures
        match res {
            Ok((v, p2)) => p2 == pos + 4 && p2 <= bytes@.len() && decode_u32_at(
                bytes@.skip(pos as int),
            ) == Ok::<(u32, int), DecodeError>((v, 4)),
            Err(e) => decode_u32_at(bytes@.skip(pos as int)) == Err::<(u32, int), DecodeError>(e),
        },
{
    if bytes.len() - pos < 4 {
        Err(DecodeError::Truncated)
    } else {
        let w = u32_from_le_bytes(bytes[pos], bytes[pos + 1], bytes[pos + 2], bytes[pos + 3]);
        Ok((w, pos + 4))
    }
}

fn read_value(bytes: &Vec<u8>, pos: usize) -> (res: Result<(Value, usize), DecodeError>)
    requires
        pos <= bytes@.len(),
    ensures
        match res {
            Ok((v, p2)) => pos < p2 <= bytes@.len() && decode_value_at(bytes@.skip(pos as int))
                == Ok::<(Value, int), DecodeError>((v, p2 - pos)),
            Err(e) => decode_value_at(bytes@.skip(pos as int)) == Err::<(Value, int), DecodeError>(
                e,
            ),
        },
{
    if bytes.len() == pos {
        return Err(DecodeError::Truncated);
    }
    let d = bytes[pos];
    if d == 0 {
        if bytes.len() - pos < 2 {
            Err(DecodeError::Truncated)
        } else {
            Ok((Value::Register(bytes[pos + 1]), pos + 2))
        }
    } else if d == 1 {
        if bytes.len() - pos < 5 {
            Err(DecodeError::Truncated)
        } else {
            let w = u32_from_le_bytes(
                bytes[pos + 1],
                bytes[pos + 2],
                bytes[pos + 3],
                bytes[pos + 4],
            );
            Ok((Value::Immediate(w), pos + 5))
        }
    } else {
        Err(DecodeError::BadValueKind)
    }
}

fn read_typed_ops(bytes: &Vec<u8>, pos: usize) -> (res: Result<(Op2wTypes, usize), DecodeError>)
    requires
        pos <= bytes@.len(),
    ensures
        match res {
            Ok((op, p2)) => pos < p2 <= bytes@.len() && decode_typed_ops_at(
                bytes@.skip(pos as int),
            ) == Ok::<(Op2wTypes, int), DecodeError>((op, p2 - pos)),
            Err(e) => decode_typed_ops_at(bytes@.skip(pos as int)) == Err::<
                (Op2wTypes, int),
                DecodeError,
            >(e),
        },
{
    let (lhs, p1) = match read_value(bytes, pos) {
        Ok(r) => r,
        Err(e) => {
            return Err(e);
        },
    };
    proof {
        assert(bytes@.skip(pos as int).skip(p1 - pos) =~= bytes@.skip(p1 as int));
    }
    let (rhs, p2) = match read_value(bytes, p1) {
        Ok(r) => r,
        Err(e) => {
            return Err(e);
        },
    };
    if bytes.len() - p2 < 2 {
        return Err(DecodeError::Truncated);
    }
    let dest = bytes[p2];
    let tb = bytes[p2 + 1];
    let t = if tb == 0 {
        OpType::Float
    } else if tb == 1 {
        OpType::Int
    } else if tb == 2 {
        OpType::UnsignedInt
    } else {
        return Err(DecodeError::BadOpType);
    };
    Ok((Op2wTypes { lhs, rhs, dest, op_type: t }, p2 + 2))
}

fn read_bin_ops(bytes: &Vec<u8>, pos: usize) -> (res: Result<(Op2, usize), DecodeError>)
    requires
        pos <= bytes@.len(),
    ensures
        match res {
            Ok((op, p2)) => pos < p2 <= bytes@.len() && decode_bin_ops_at(bytes@.skip(pos as int))
                == Ok::<(Op2, int), DecodeError>((op, p2 - pos)),
            Err(e) => decode_bin_ops_at(bytes@.skip(pos as int)) == Err::<
                (Op2, int),
                DecodeError,
            >(e),
        },
{
    let (lhs, p1) = match read_value(bytes, pos) {
        Ok(r) => r,
        Err(e) => {
            return Err(e);
        },
    };
    proof {
        assert(bytes@.skip(pos as int).skip(p1 - pos) =~= bytes@.skip(p1 as int));
    }
    let (rhs, p2) = match read_value(bytes, p1) {
        Ok(r) => r,
        Err(e) => {
            return Err(e);
        },
    };
    if bytes.len() - p2 < 1 {
        return Err(DecodeError::Truncated);
    }
    Ok((Op2 { lhs, rhs, dest: bytes[p2] }, p2 + 1))
}

#[verifier::rlimit(100)]
#[verifier::spinoff_prover]
fn read_instruction(bytes: &Vec<u8>, pos: usize) -> (res: Result<(Instruction, usize), DecodeError>)
    requires
        pos <= bytes@.len(),
    ensures
        match res {
            Ok((i, p2)) => pos < p2 <= bytes@.len() && decode_instruction_at(
                bytes@.skip(pos as int),
            ) == Ok::<(Instruction, int), DecodeError>((i, p2 - pos)),
            Err(e) => decode_instruction_at(bytes@.skip(pos as int)) == Err::<
                (Instruction, int),
                DecodeError,
            >(e),
        },
{
    if bytes.len() == pos {
        return Err(DecodeError::Truncated);
    }
    let tag = bytes[pos];
    proof {
        assert(bytes@.skip(pos as int).skip(1) =~= bytes@.skip(pos as int + 1));
    }
    if tag == 0 {
        Ok((Instruction::Nop, pos + 1))
    } else if tag >= 1 && tag <= 9 {
        let (op, p2) = match read_typed_ops(bytes, pos + 1) {
            Ok(r) => r,
            Err(e) => {
                return Err(e);
            },
        };
        let i = if tag == 1 {
            Instruction::Add { op }
        } else if tag == 2 {
            Instruction::Sub { op }
        } else if tag == 3 {
            Instruction::Mul { op }
        } else if tag == 4 {
            Instruction::Div { op }
        } else if tag == 5 {
            Instruction::Mod { op }
        } else if tag == 6 {
            Instruction::GreaterThanOrEqual { op }
        } else if tag == 7 {
            Instruction::LessThanOrEqual { op }
        } else if tag == 8 {
            Instruction::GreaterThan { op }
        } else {
            Instruction::LessThan { op }
        };
        Ok((i, p2))
    } else if tag >= 10 && tag <= 16 {
        let (op, p2) = match read_bin_ops(bytes, pos + 1) {
            Ok(r) => r,
            Err(e) => {
                return Err(e);
            },
        };
        let i = if tag == 10 {
            Instruction::And { op }
        } else if tag == 11 {
            Instruction::Or { op }
        } else if tag == 12 {
            Instruction::Xor { op }
        } else if tag == 13 {
            Instruction::ShiftLeft { op }
        } else if tag == 14 {
            Instruction::ShiftRight { op }
        } else if tag == 15 {
            Instruction::Equal { op }
        } else {
            Instruction::NotEqual { op }
        };
        Ok((i, p2))
    } else if tag == 17 {
        let (v, p2) = match read_value(bytes, pos + 1) {
            Ok(r) => r,
            Err(e) => {
                return Err(e);
            },
        };
        if bytes.len() - p2 < 1 {
            return Err(DecodeError::Truncated);
        }
        Ok((Instruction::Not { op: Op1 { value: v, dest: bytes[p2] } }, p2 + 1))
    } else if tag == 18 {
        let (dest, p2) = match read_u32(bytes, pos + 1) {
            Ok(r) => r,
            Err(e) => {
                return Err(e);
            },
        };
        Ok((Instruction::Jump { dest }, p2))
    } else if tag == 19 || tag == 20 {
        let (dest, p2) = match read_u32(bytes, pos + 1) {
            Ok(r) => r,
            Err(e) => {
                return Err(e);
            },
        };
        proof {
            assert(bytes@.skip(pos as int + 1).skip(4) =~= bytes@.skip(p2 as int));
        }
        let (condition, p3) = match read_value(bytes, p2) {
            Ok(r) => r,
            Err(e) => {
                return Err(e);
            },
        };
        let i = if tag == 19 {
            Instruction::JumpIfZero { dest, condition }
        } else {
            Instruction::JumpIfNotZero { dest, condition }
        };
        Ok((i, p3))
    } else if tag == 21 || tag == 23 {
        if bytes.len() - pos < 2 {
            return Err(DecodeError::Truncated);
        }
        let dest = bytes[pos + 1];
        proof {
            assert(bytes@.skip(pos as int + 1).skip(1) =~= bytes@.skip(pos as int + 2));
        }
        let (value, p2) = match read_value(bytes, pos + 2) {
            Ok(r) => r,
            Err(e) => {
                return Err(e);
            },
        };
        let i = if tag == 21 {
            Instruction::LoadMemory { dest, value }
        } else {
            Instruction::Move { dest, value }
        };
        Ok((i, p2))
    } else if tag == 22 {
        let (dest, p2) = match read_value(bytes, pos + 1) {
            Ok(r) => r,
            Err(e) => {
                return Err(e);
            },
        };
        proof {
            assert(bytes@.skip(pos as int + 1).skip(p2 - (pos + 1)) =~= bytes@.skip(p2 as int));
        }
        let (value, p3) = match read_value(bytes, p2) {
            Ok(r) => r,
            Err(e) => {
                return Err(e);
            },
        };
        Ok((Instruction::Store { dest, value }, p3))
    } else {
        Err(DecodeError::UnknownTag)
    }
}

fn read_string(bytes: &Vec<u8>, pos: usize) -> (res: Result<(String, usize), DecodeError>)
    requires
        pos <= bytes@.len(),
    ensures
        match res {
            Ok((s, p2)) => pos < p2 <= bytes@.len() && decode_string_at(bytes@.skip(pos as int))
                == Ok::<(Seq<char>, int), DecodeError>((s@, p2 - pos)),
            Err(e) => decode_string_at(bytes@.skip(pos as int)) == Err::<
                (Seq<char>, int),
                DecodeError,
            >(e),
        },
{
    let (len, p1) = match read_u32(bytes, pos) {
        Ok(r) => r,
        Err(e) => {
            return Err(e);
        },
    };
    let n = bytes.len();
    if n - p1 < len as usize {
        return Err(DecodeError::Truncated);
    }
    let mut payload: Vec<u8> = Vec::new();
    let mut j: usize = 0;
    while j < len as usize
        invariant
            j <= len,
            n == bytes@.len(),
            p1 + len <= n,
            payload@ == bytes@.subrange(p1 as int, p1 as int + j as int),
        decreases len as usize - j,
    {
        payload.push(bytes[p1 + j]);
        proof {
            assert(payload@ =~= bytes@.subrange(p1 as int, p1 as int + j as int + 1));
        }
        j += 1;
    }
    proof {
        assert(payload@ =~= bytes@.skip(pos as int).subrange(4, 4 + len as int));
    }
    match bytes_to_string(&payload) {
        Some(s) => Ok((s, p1 + len as usize)),
        None => Err(DecodeError::BadStringPayload),
    }
}

/// A partial instruction-list decode, continued: what was read so far,
/// the offset consumed so far, and the rest of the list decode.
spec fn continue_instr_list(
    acc: Seq<Instruction>,
    off: int,
    r: Result<(Seq<Instruction>, int), DecodeError>,
) -> Result<(Seq<Instruction>, int), DecodeError> {
    match r {
        Ok((s, c)) => Ok((acc + s, off + c)),
        Err(e) => Err(e),
    }
}

/// A partial string-list decode, continued.
spec fn continue_string_list(
    acc: Seq<Seq<char>>,
    off: int,
    r: Result<(Seq<Seq<char>>, int), DecodeError>,
) -> Result<(Seq<Seq<char>>, int), DecodeError> {
    match r {
        Ok((s, c)) => Ok((acc + s, off + c)),
        Err(e) => Err(e),
    }
}

/// The view of a vector of strings: each string's character sequence.
spec fn string_views(v: Seq<String>) -> Seq<Seq<char>> {
    Seq::new(v.len(), |t: int| v[t]@)
}

/// Decodes a byte stream into a program. Every byte must be consumed;
/// an unknown tag, a truncated stream or an invalid payload is the
/// matching error.
#[verifier::rlimit(100)]
#[verifier::spinoff_prover]
pub fn decode(bytes: &Vec<u8>) -> (res: Result<Program, DecodeError>)
    ensures
        res matches Ok(p) ==> decode_program_bytes(bytes@) == Ok::<ProgramView, DecodeError>(p@),
        res matches Err(e) ==> decode_program_bytes(bytes@) == Err::<ProgramView, DecodeError>(e),
{
    proof {
        assert(bytes@.skip(0) =~= bytes@);
    }
    let (icount, mut pos) = match read_u32(bytes, 0) {
        Ok(r) => r,
        Err(e) => {
            return Err(e);
        },
    };
    let mut instructions: Vec<Instruction> = Vec::new();
    let mut k: u32 = 0;
    while k < icount
        invariant
            k <= icount,
            4 <= pos <= bytes@.len(),
            instructions@.len() == k,
            decode_u32_at(bytes@) == Ok::<(u32, int), DecodeError>((icount, 4)),
            decode_instruction_list(bytes@.skip(4), icount as nat) == continue_instr_list(
                instructions@,
                pos - 4,
                decode_instruction_list(bytes@.skip(pos as int), (icount - k) as nat),
            ),
        decreases icount - k,
    {
        let ghost pre_pos = pos as int;
        let ghost pre_instrs = instructions@;
        let (i, p2) = match read_instruction(bytes, pos) {
            Ok(r) => r,
            Err(e) => {
                proof {
                    assert(decode_instruction_list(bytes@.skip(pos as int), (icount - k) as nat)
                        == Err::<(Seq<Instruction>, int), DecodeError>(e));
                }
                return Err(e);
            },
        };
        instructions.push(i);
        pos = p2;
        k += 1;
        proof {
            assert(bytes@.skip(pre_pos).skip(p2 - pre_pos) =~= bytes@.skip(p2 as int));
            let tail = decode_instruction_list(bytes@.skip(p2 as int), (icount - k) as nat);
            assert(decode_instruction_list(bytes@.skip(pre_pos), (icount - (k - 1)) as nat)
                == continue_instr_list(seq![i], p2 - pre_pos, tail));
            match tail {
                Ok((s, c)) => {
                    assert(pre_instrs + (seq![i] + s) =~= instructions@ + s);
                },
                Err(_) => {},
            }
        }
    }
    proof {
        assert(decode_instruction_list(bytes@.skip(pos as int), 0nat) == Ok::<
            (Seq<Instruction>, int),
            DecodeError,
        >((Seq::empty(), 0)));
        assert(instructions@ + Seq::<Instruction>::empty() =~= instructions@);
    }
    let ghost c1 = pos - 4;
    let ghost instrs_view = instructions@;
    let (scount, p_after) = match read_u32(bytes, pos) {
        Ok(r) => r,
        Err(e) => {
            return Err(e);
        },
    };
    proof {
        assert(bytes@.skip(4 + c1) == bytes@.skip(pos as int));
    }
    pos = p_after;
    let mut strings: Vec<String> = Vec::new();
    let ghost spos0 = pos as int;
    let mut k2: u32 = 0;
    while k2 < scount
        invariant
            k2 <= scount,
            spos0 == 8 + c1,
            spos0 <= pos <= bytes@.len(),
            strings@.len() == k2,
            instructions@ == instrs_view,
            decode_u32_at(bytes@) == Ok::<(u32, int), DecodeError>((icount, 4)),
            decode_instruction_list(bytes@.skip(4), icount as nat) == Ok::<
                (Seq<Instruction>, int),
                DecodeError,
            >((instrs_view, c1)),
            decode_u32_at(bytes@.skip(4 + c1)) == Ok::<(u32, int), DecodeError>((scount, 4)),
            decode_string_list(bytes@.skip(spos0), scount as nat) == continue_string_list(
                string_views(strings@),
                pos - spos0,
                decode_string_list(bytes@.skip(pos as int), (scount - k2) as nat),
            ),
        decreases scount - k2,
    {
        let ghost pre_pos = pos as int;
        let ghost pre_strs = string_views(strings@);
        let (s, p2) = match read_string(bytes, pos) {
            Ok(r) => r,
            Err(e) => {
                proof {
                    assert(decode_string_list(bytes@.skip(pos as int), (scount - k2) as nat)
                        == Err::<(Seq<Seq<char>>, int), DecodeError>(e));
                }
                return Err(e);
            },
        };
        let ghost sv = s@;
        strings.push(s);
        pos = p2;
        k2 += 1;
        proof {
            assert(bytes@.skip(pre_pos).skip(p2 - pre_pos) =~= bytes@.skip(p2 as int));
            let tail = decode_string_list(bytes@.skip(p2 as int), (scount - k2) as nat);
            assert(decode_string_list(bytes@.skip(pre_pos), (scount - (k2 - 1)) as nat)
                == continue_string_list(seq![sv], p2 - pre_pos, tail));
            assert(string_views(strings@) =~= pre_strs.push(sv));
            match tail {
                Ok((s2, c)) => {
                    assert(pre_strs + (seq![sv] + s2) =~= string_views(strings@) + s2);
                },
                Err(_) => {},
            }
        }
    }
    proof {
        assert(decode_string_list(bytes@.skip(pos as int), 0nat) == Ok::<
            (Seq<Seq<char>>, int),
            DecodeError,
        >((Seq::empty(), 0)));
        assert(string_views(strings@) + Seq::<Seq<char>>::empty() =~= string_views(strings@));
    }
    if pos != bytes.len() {
        return Err(DecodeError::TrailingBytes);
    }
    let program = Program { instructions, strings };
    proof {
        assert(program@.strings =~= string_views(program.strings@));
        assert(program@.instructions == instrs_view);
    }
    Ok(program)
}

/// Encoding a program and decoding the result gives back a structurally
/// equal program: the executable face of the round-trip law.
pub fn encode_decode(program: &Program) -> (res: Option<Program>)
    ensures
        res is Some <==> encodable(program@),
        res matches Some(p) ==> p@.instructions == program@.instructions && p@.strings
            == program@.strings,
{
    let encoded = match encode(program) {
        Some(b) => b,
        None => {
            return None;
        },
    };
    proof {
        lemma_program_round_trip(program@);
    }
    match decode(&encoded) {
        Ok(p) => Some(p),
        Err(_) => {
            proof {
                assert(false);
            }
            None
        },
    }
}

} // verus!
