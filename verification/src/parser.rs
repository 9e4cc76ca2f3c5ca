//! The assembler: one instruction per source line, written as a mnemonic
//! followed by comma-separated operands.
//!
//! Operand syntax: a register is `r` followed by a decimal index; a signed
//! integer literal is decimal digits preceded by `-`, stored as its
//! two's-complement pattern; an unsigned literal is decimal digits; a
//! float literal is decimal digits with a mandatory fractional point,
//! stored as its binary32 pattern; a type tag is one of `f32`, `i32`,
//! `u32`. An identifier is accepted by the grammar as a jump target but
//! is not lowered: it fails assembly with a distinct error. Any grammar
//! mismatch stops assembly of the whole file; no partial program is ever
//! returned.
use vstd::prelude::*;
use vstd::utf8::encode_utf8;
use crate::arith::to_bits32;
use crate::floats::float_lit_bits;
use crate::instructions::{Instruction, Op1, Op2, Op2wTypes, OpType, Value};

verus! {

/// What was malformed on a source line.
#[derive(Clone, Copy, Debug, PartialEq, Eq, Structural)]
pub enum ParseErrorKind {
    /// The line's first token is no known mnemonic.
    UnknownMnemonic,
    /// The operand count does not fit the mnemonic's shape.
    WrongOperandCount,
    /// The token in a type-tag position is none of `f32`, `i32`, `u32`.
    InvalidOpType,
    /// A token of the wrong kind for its operand position.
    BadOperand,
    /// A register index or integer literal outside its type's range.
    IntegerOutOfRange,
    /// A float literal the converter does not accept.
    BadFloatLiteral,
}

/// Why assembly failed, with the 1-based source line it failed on.
#[derive(Clone, Copy, Debug, PartialEq, Eq, Structural)]
pub enum AsmError {
    /// A malformed mnemonic or operand. `token_start` and `token_end`
    /// are the byte offsets of the offending token within its line, so
    /// the diagnostic carries the token itself along with its location.
    Parse { line: usize, token_start: usize, token_end: usize, kind: ParseErrorKind },
    /// A symbolic jump target, which this assembler does not lower.
    Unimplemented { line: usize },
}

/// The parse diagnostic for the token spanning the given byte offsets of
/// its line.
pub open spec fn parse_error_at(lineno: usize, span: (int, int), kind: ParseErrorKind) -> AsmError {
    AsmError::Parse {
        line: lineno,
        token_start: span.0 as usize,
        token_end: span.1 as usize,
        kind,
    }
}

pub open spec fn is_space(b: u8) -> bool {
    b == 32 || b == 9 || b == 13
}

pub open spec fn is_digit(b: u8) -> bool {
    48 <= b <= 57
}

pub open spec fn is_letter(b: u8) -> bool {
    (65 <= b <= 90) || (97 <= b <= 122) || b == 95
}

/// The numeric value of a decimal digit string.
pub open spec fn digits_value(t: Seq<u8>) -> int
    decreases t.len(),
{
    if t.len() == 0 {
        0int
    } else {
        digits_value(t.drop_last()) * 10 + (t.last() - 48)
    }
}

pub open spec fn all_digits(t: Seq<u8>) -> bool {
    forall|i: int| 0 <= i < t.len() ==> is_digit(#[trigger] t[i])
}

/// `r` followed by at least one decimal digit.
pub open spec fn is_register_token(t: Seq<u8>) -> bool {
    t.len() >= 2 && t[0] == 114 && all_digits(t.skip(1))
}

/// Decimal digits.
pub open spec fn is_uint_token(t: Seq<u8>) -> bool {
    t.len() >= 1 && all_digits(t)
}

/// `-` followed by at least one decimal digit.
pub open spec fn is_int_token(t: Seq<u8>) -> bool {
    t.len() >= 2 && t[0] == 45 && all_digits(t.skip(1))
}

/// Decimal digits with a mandatory fractional point: at least one digit
/// on each side of exactly one `.`.
pub open spec fn is_float_token(t: Seq<u8>) -> bool {
    exists|d: int|
        1 <= d <= t.len() - 2 && #[trigger] t[d] == 46 && all_digits(t.take(d)) && all_digits(
            t.skip(d + 1),
        )
}

/// A letter or underscore followed by letters, digits or underscores.
pub open spec fn is_identifier_token(t: Seq<u8>) -> bool {
    t.len() >= 1 && is_letter(t[0]) && forall|i: int|
        1 <= i < t.len() ==> is_letter(#[trigger] t[i]) || is_digit(t[i])
}

/// What a token denotes in a value position: a register reference or an
/// immediate pattern under the literal's own encoding.
pub open spec fn value_of_token(t: Seq<u8>) -> Result<Value, ParseErrorKind> {
    if is_register_token(t) {
        if digits_value(t.skip(1)) <= 255 {
            Ok(Value::Register(digits_value(t.skip(1)) as u8))
        } else {
            Err(ParseErrorKind::IntegerOutOfRange)
        }
    } else if is_uint_token(t) {
        if digits_value(t) <= u32::MAX {
            Ok(Value::Immediate(digits_value(t) as u32))
        } else {
            Err(ParseErrorKind::IntegerOutOfRange)
        }
    } else if is_int_token(t) {
        if digits_value(t.skip(1)) <= 0x8000_0000 {
            Ok(Value::Immediate(to_bits32(-(digits_value(t.skip(1)) as int))))
        } else {
            Err(ParseErrorKind::IntegerOutOfRange)
        }
    } else if is_float_token(t) {
        match float_lit_bits(t) {
            Some(bits) => Ok(Value::Immediate(bits)),
            None => Err(ParseErrorKind::BadFloatLiteral),
        }
    } else {
        Err(ParseErrorKind::BadOperand)
    }
}

/// What a token denotes in a destination-register position.
pub open spec fn register_of_token(t: Seq<u8>) -> Result<u8, ParseErrorKind> {
    if is_register_token(t) {
        if digits_value(t.skip(1)) <= 255 {
            Ok(digits_value(t.skip(1)) as u8)
        } else {
            Err(ParseErrorKind::IntegerOutOfRange)
        }
    } else {
        Err(ParseErrorKind::BadOperand)
    }
}

/// What a token denotes in a type-tag position: `f32`, `i32` or `u32`.
pub open spec fn op_type_of_token(t: Seq<u8>) -> Result<OpType, ParseErrorKind> {
    if t.len() == 3 && t[1] == 51 && t[2] == 50 {
        if t[0] == 102 {
            Ok(OpType::Float)
        } else if t[0] == 105 {
            Ok(OpType::Int)
        } else if t[0] == 117 {
            Ok(OpType::UnsignedInt)
        } else {
            Err(ParseErrorKind::InvalidOpType)
        }
    } else {
        Err(ParseErrorKind::InvalidOpType)
    }
}

pub open spec fn trim_start(t: Seq<u8>) -> Seq<u8>
    decreases t.len(),
{
    if t.len() > 0 && is_space(t[0]) {
        trim_start(t.drop_first())
    } else {
        t
    }
}

pub open spec fn trim_end(t: Seq<u8>) -> Seq<u8>
    decreases t.len(),
{
    if t.len() > 0 && is_space(t.last()) {
        trim_end(t.drop_last())
    } else {
        t
    }
}

/// The token with surrounding whitespace removed.
pub open spec fn trim(t: Seq<u8>) -> Seq<u8> {
    trim_end(trim_start(t))
}

/// The index of the first whitespace byte, or the length.
pub open spec fn first_space(t: Seq<u8>) -> int
    decreases t.len(),
{
    if t.len() == 0 {
        0
    } else if is_space(t[0]) {
        0
    } else {
        1 + first_space(t.drop_first())
    }
}

/// The index of the first comma, or the length.
pub open spec fn first_comma(t: Seq<u8>) -> int
    decreases t.len(),
{
    if t.len() == 0 {
        0
    } else if t[0] == 44 {
        0
    } else {
        1 + first_comma(t.drop_first())
    }
}

/// The index of the first line break, or the length.
pub open spec fn first_newline(t: Seq<u8>) -> int
    decreases t.len(),
{
    if t.len() == 0 {
        0
    } else if t[0] == 10 {
        0
    } else {
        1 + first_newline(t.drop_first())
    }
}

/// The first comma comes no later than the end.
pub proof fn lemma_first_comma_bounds(t: Seq<u8>)
    ensures
        0 <= first_comma(t) <= t.len(),
    decreases t.len(),
{
    if t.len() > 0 && t[0] != 44 {
        lemma_first_comma_bounds(t.drop_first());
    }
}

/// The first line break comes no later than the end.
pub proof fn lemma_first_newline_bounds(t: Seq<u8>)
    ensures
        0 <= first_newline(t) <= t.len(),
    decreases t.len(),
{
    if t.len() > 0 && t[0] != 10 {
        lemma_first_newline_bounds(t.drop_first());
    }
}

/// The comma-separated pieces of an operand list, commas removed.
pub open spec fn split_commas(t: Seq<u8>) -> Seq<Seq<u8>>
    decreases t.len(),
    via split_commas_decreases
{
    let c = first_comma(t);
    if c == t.len() {
        seq![t]
    } else {
        seq![t.take(c)] + split_commas(t.skip(c + 1))
    }
}

#[via_fn]
proof fn split_commas_decreases(t: Seq<u8>) {
    lemma_first_comma_bounds(t);
}

/// The operand tokens of a line's tail: nothing if it is blank, else each
/// comma-separated piece trimmed.
pub open spec fn operand_tokens(rest: Seq<u8>) -> Seq<Seq<u8>> {
    if trim(rest).len() == 0 {
        Seq::empty()
    } else {
        split_commas(rest).map_values(|t: Seq<u8>| trim(t))
    }
}

/// The byte-offset ranges of the comma-separated pieces, commas removed;
/// `base` is the offset the first piece starts at.
pub open spec fn split_comma_spans(t: Seq<u8>, base: int) -> Seq<(int, int)>
    decreases t.len(),
    via split_comma_spans_decreases
{
    let c = first_comma(t);
    if c == t.len() {
        seq![(base, base + t.len())]
    } else {
        seq![(base, base + c)] + split_comma_spans(t.skip(c + 1), base + c + 1)
    }
}

#[via_fn]
proof fn split_comma_spans_decreases(t: Seq<u8>, base: int) {
    lemma_first_comma_bounds(t);
}

/// Where the trimmed content of the line's piece `(start, end)` sits: the
/// piece's offsets moved inward past its surrounding whitespace.
pub open spec fn trimmed_span(line: Seq<u8>, start: int, end: int) -> (int, int) {
    let raw = line.subrange(start, end);
    let a = start + (raw.len() - trim_start(raw).len());
    (a, a + trim(raw).len())
}

/// The byte-offset range of each operand token within its line, parallel
/// to `operand_tokens` of the line's tail.
pub open spec fn operand_spans(line: Seq<u8>) -> Seq<(int, int)> {
    let a = line.len() - trim_start(line).len();
    let w = trim(line);
    let fs = first_space(w);
    let rest = w.skip(fs);
    if trim(rest).len() == 0 {
        Seq::empty()
    } else {
        split_comma_spans(rest, a + fs).map_values(
            |sp: (int, int)| trimmed_span(line, sp.0, sp.1),
        )
    }
}

/// The byte-offset range of the line's mnemonic token.
pub open spec fn mnemonic_span(line: Seq<u8>) -> (int, int) {
    let a = line.len() - trim_start(line).len();
    (a, a + first_space(trim(line)))
}

/// The known mnemonics.
#[derive(Clone, Copy, Debug, PartialEq, Eq, Structural)]
pub enum Mnemonic {
    Nop,
    Add,
    Sub,
    Mul,
    Div,
    Mod,
    GreaterThanOrEqual,
    LessThanOrEqual,
    GreaterThan,
    LessThan,
    And,
    Or,
    Xor,
    ShiftLeft,
    ShiftRight,
    Equal,
    NotEqual,
    Not,
    Jump,
    JumpIfZero,
    JumpIfNotZero,
    Load,
    Store,
    Move,
    Unknown,
}

/// Which mnemonic a token spells, byte for byte.
pub open spec fn mnemonic_of(t: Seq<u8>) -> Mnemonic {
    if t.len() == 2 {
        if t[0] == 103 && t[1] == 116 {
            Mnemonic::GreaterThan
        } else if t[0] == 108 && t[1] == 116 {
            Mnemonic::LessThan
        } else if t[0] == 111 && t[1] == 114 {
            Mnemonic::Or
        } else if t[0] == 101 && t[1] == 113 {
            Mnemonic::Equal
        } else {
            Mnemonic::Unknown
        }
    } else if t.len() == 3 {
        if t[0] == 110 && t[1] == 111 && t[2] == 112 {
            Mnemonic::Nop
        } else if t[0] == 97 && t[1] == 100 && t[2] == 100 {
            Mnemonic::Add
        } else if t[0] == 115 && t[1] == 117 && t[2] == 98 {
            Mnemonic::Sub
        } else if t[0] == 109 && t[1] == 117 && t[2] == 108 {
            Mnemonic::Mul
        } else if t[0] == 100 && t[1] == 105 && t[2] == 118 {
            Mnemonic::Div
        } else if t[0] == 109 && t[1] == 111 && t[2] == 100 {
            Mnemonic::Mod
        } else if t[0] == 103 && t[1] == 116 && t[2] == 101 {
            Mnemonic::GreaterThanOrEqual
        } else if t[0] == 108 && t[1] == 116 && t[2] == 101 {
            Mnemonic::LessThanOrEqual
        } else if t[0] == 97 && t[1] == 110 && t[2] == 100 {
            Mnemonic::And
        } else if t[0] == 120 && t[1] == 111 && t[2] == 114 {
            Mnemonic::Xor
        } else if t[0] == 115 && t[1] == 104 && t[2] == 108 {
            Mnemonic::ShiftLeft
        } else if t[0] == 115 && t[1] == 104 && t[2] == 114 {
            Mnemonic::ShiftRight
        } else if t[0] == 110 && t[1] == 101 && t[2] == 113 {
            Mnemonic::NotEqual
        } else if t[0] == 110 && t[1] == 111 && t[2] == 116 {
            Mnemonic::Not
        } else if t[0] == 106 && t[1] == 109 && t[2] == 112 {
            Mnemonic::Jump
        } else if t[0] == 106 && t[1] == 105 && t[2] == 122 {
            Mnemonic::JumpIfZero
        } else if t[0] == 106 && t[1] == 110 && t[2] == 122 {
            Mnemonic::JumpIfNotZero
        } else if t[0] == 109 && t[1] == 111 && t[2] == 118 {
            Mnemonic::Move
        } else {
            Mnemonic::Unknown
        }
    } else if t.len() == 4 {
        if t[0] == 108 && t[1] == 111 && t[2] == 97 && t[3] == 100 {
            Mnemonic::Load
        } else {
            Mnemonic::Unknown
        }
    } else if t.len() == 5 {
        if t[0] == 115 && t[1] == 116 && t[2] == 111 && t[3] == 114 && t[4] == 101 {
            Mnemonic::Store
        } else {
            Mnemonic::Unknown
        }
    } else {
        Mnemonic::Unknown
    }
}

/// The typed arithmetic or comparison instruction of a typed mnemonic.
pub open spec fn typed_instruction_of(m: Mnemonic, op: Op2wTypes) -> Instruction {
    match m {
        Mnemonic::Add => Instruction::Add { op },
        Mnemonic::Sub => Instruction::Sub { op },
        Mnemonic::Mul => Instruction::Mul { op },
        Mnemonic::Div => Instruction::Div { op },
        Mnemonic::Mod => Instruction::Mod { op },
        Mnemonic::GreaterThanOrEqual => Instruction::GreaterThanOrEqual { op },
        Mnemonic::LessThanOrEqual => Instruction::LessThanOrEqual { op },
        Mnemonic::GreaterThan => Instruction::GreaterThan { op },
        _ => Instruction::LessThan { op },
    }
}

pub open spec fn is_typed_mnemonic(m: Mnemonic) -> bool {
    match m {
        Mnemonic::Add | Mnemonic::Sub | Mnemonic::Mul | Mnemonic::Div | Mnemonic::Mod
            | Mnemonic::GreaterThanOrEqual | Mnemonic::LessThanOrEqual | Mnemonic::GreaterThan
            | Mnemonic::LessThan => true,
        _ => false,
    }
}

/// The untyped binary instruction of an untyped mnemonic.
pub open spec fn bin_instruction_of(m: Mnemonic, op: Op2) -> Instruction {
    match m {
        Mnemonic::And => Instruction::And { op },
        Mnemonic::Or => Instruction::Or { op },
        Mnemonic::Xor => Instruction::Xor { op },
        Mnemonic::ShiftLeft => Instruction::ShiftLeft { op },
        Mnemonic::ShiftRight => Instruction::ShiftRight { op },
        Mnemonic::Equal => Instruction::Equal { op },
        _ => Instruction::NotEqual { op },
    }
}

pub open spec fn is_bin_mnemonic(m: Mnemonic) -> bool {
    match m {
        Mnemonic::And | Mnemonic::Or | Mnemonic::Xor | Mnemonic::ShiftLeft | Mnemonic::ShiftRight
            | Mnemonic::Equal | Mnemonic::NotEqual => true,
        _ => false,
    }
}

/// What a token denotes as a jump destination: an absolute instruction
/// index. A symbolic identifier is accepted by the grammar but not
/// lowered.
pub open spec fn jump_dest_of_token(t: Seq<u8>, span: (int, int), lineno: usize) -> Result<
    u32,
    AsmError,
> {
    if is_uint_token(t) {
        if digits_value(t) <= u32::MAX {
            Ok(digits_value(t) as u32)
        } else {
            Err(parse_error_at(lineno, span, ParseErrorKind::IntegerOutOfRange))
        }
    } else if is_identifier_token(t) {
        Err(AsmError::Unimplemented { line: lineno })
    } else {
        Err(parse_error_at(lineno, span, ParseErrorKind::BadOperand))
    }
}

/// One line's instruction, given its mnemonic and operand tokens, each
/// operand with its byte-offset range in the line (for diagnostics);
/// `mn_span` is the mnemonic token's own range.
pub open spec fn instruction_of_line(
    m: Mnemonic,
    ops: Seq<Seq<u8>>,
    spans: Seq<(int, int)>,
    mn_span: (int, int),
    lineno: usize,
) -> Result<Instruction, AsmError> {
    if m == Mnemonic::Nop {
        if ops.len() == 0 {
            Ok(Instruction::Nop)
        } else {
            Err(parse_error_at(lineno, mn_span, ParseErrorKind::WrongOperandCount))
        }
    } else if is_typed_mnemonic(m) {
        if ops.len() != 4 {
            Err(parse_error_at(lineno, mn_span, ParseErrorKind::WrongOperandCount))
        } else {
            match register_of_token(ops[0]) {
                Err(k) => Err(parse_error_at(lineno, spans[0], k)),
                Ok(dest) => match op_type_of_token(ops[1]) {
                    Err(k) => Err(parse_error_at(lineno, spans[1], k)),
                    Ok(op_type) => match value_of_token(ops[2]) {
                        Err(k) => Err(parse_error_at(lineno, spans[2], k)),
                        Ok(lhs) => match value_of_token(ops[3]) {
                            Err(k) => Err(parse_error_at(lineno, spans[3], k)),
                            Ok(rhs) => Ok(
                                typed_instruction_of(m, Op2wTypes { lhs, rhs, dest, op_type }),
                            ),
                        },
                    },
                },
            }
        }
    } else if is_bin_mnemonic(m) {
        if ops.len() != 3 {
            Err(parse_error_at(lineno, mn_span, ParseErrorKind::WrongOperandCount))
        } else {
            match register_of_token(ops[0]) {
                Err(k) => Err(parse_error_at(lineno, spans[0], k)),
                Ok(dest) => match value_of_token(ops[1]) {
                    Err(k) => Err(parse_error_at(lineno, spans[1], k)),
                    Ok(lhs) => match value_of_token(ops[2]) {
                        Err(k) => Err(parse_error_at(lineno, spans[2], k)),
                        Ok(rhs) => Ok(bin_instruction_of(m, Op2 { lhs, rhs, dest })),
                    },
                },
            }
        }
    } else if m == Mnemonic::Not {
        if ops.len() != 2 {
            Err(parse_error_at(lineno, mn_span, ParseErrorKind::WrongOperandCount))
        } else {
            match register_of_token(ops[0]) {
                Err(k) => Err(parse_error_at(lineno, spans[0], k)),
                Ok(dest) => match value_of_token(ops[1]) {
                    Err(k) => Err(parse_error_at(lineno, spans[1], k)),
                    Ok(value) => Ok(Instruction::Not { op: Op1 { value, dest } }),
                },
            }
        }
    } else if m == Mnemonic::Jump {
        if ops.len() != 1 {
            Err(parse_error_at(lineno, mn_span, ParseErrorKind::WrongOperandCount))
        } else {
            match jump_dest_of_token(ops[0], spans[0], lineno) {
                Err(e) => Err(e),
                Ok(dest) => Ok(Instruction::Jump { dest }),
            }
        }
    } else if m == Mnemonic::JumpIfZero || m == Mnemonic::JumpIfNotZero {
        if ops.len() != 2 {
            Err(parse_error_at(lineno, mn_span, ParseErrorKind::WrongOperandCount))
        } else {
            match jump_dest_of_token(ops[0], spans[0], lineno) {
                Err(e) => Err(e),
                Ok(dest) => match value_of_token(ops[1]) {
                    Err(k) => Err(parse_error_at(lineno, spans[1], k)),
                    Ok(condition) => Ok(
                        if m == Mnemonic::JumpIfZero {
                            Instruction::JumpIfZero { dest, condition }
                        } else {
                            Instruction::JumpIfNotZero { dest, condition }
                        },
                    ),
                },
            }
        }
    } else if m == Mnemonic::Load || m == Mnemonic::Move {
        if ops.len() != 2 {
            Err(parse_error_at(lineno, mn_span, ParseErrorKind::WrongOperandCount))
        } else {
            match register_of_token(ops[0]) {
                Err(k) => Err(parse_error_at(lineno, spans[0], k)),
                Ok(dest) => match value_of_token(ops[1]) {
                    Err(k) => Err(parse_error_at(lineno, spans[1], k)),
                    Ok(value) => Ok(
                        if m == Mnemonic::Load {
                            Instruction::LoadMemory { dest, value }
                        } else {
                            Instruction::Move { dest, value }
                        },
                    ),
                },
            }
        }
    } else if m == Mnemonic::Store {
        if ops.len() != 2 {
            Err(parse_error_at(lineno, mn_span, ParseErrorKind::WrongOperandCount))
        } else {
            match value_of_token(ops[0]) {
                Err(k) => Err(parse_error_at(lineno, spans[0], k)),
                Ok(dest) => match value_of_token(ops[1]) {
                    Err(k) => Err(parse_error_at(lineno, spans[1], k)),
                    Ok(value) => Ok(Instruction::Store { dest, value }),
                },
            }
        }
    } else {
        Err(parse_error_at(lineno, mn_span, ParseErrorKind::UnknownMnemonic))
    }
}

/// One source line: blank assembles to nothing; otherwise the first
/// whitespace-delimited token is the mnemonic and the tail is the operand
/// list.
pub open spec fn parse_line_spec(line: Seq<u8>, lineno: usize) -> Result<
    Option<Instruction>,
    AsmError,
> {
    let w = trim(line);
    if w.len() == 0 {
        Ok(None)
    } else {
        let mn = w.take(first_space(w));
        let rest = w.skip(first_space(w));
        match instruction_of_line(
            mnemonic_of(mn),
            operand_tokens(rest),
            operand_spans(line),
            mnemonic_span(line),
            lineno,
        ) {
            Err(e) => Err(e),
            Ok(i) => Ok(Some(i)),
        }
    }
}

/// The next line number; line numbers saturate rather than wrap.
pub open spec fn next_line_number(l: usize) -> usize {
    if l == usize::MAX {
        l
    } else {
        (l + 1) as usize
    }
}

/// A whole source text, line by line, in source order. The first
/// malformed line stops assembly with its error.
pub open spec fn parse_lines_spec(code: Seq<u8>, lineno: usize) -> Result<Seq<Instruction>, AsmError>
    decreases code.len(),
    via parse_lines_decreases
{
    if code.len() == 0 {
        Ok(Seq::empty())
    } else {
        let nl = first_newline(code);
        let line = code.take(nl);
        let rest = if nl == code.len() {
            code.skip(nl)
        } else {
            code.skip(nl + 1)
        };
        match parse_line_spec(line, lineno) {
            Err(e) => Err(e),
            Ok(None) => parse_lines_spec(rest, next_line_number(lineno)),
            Ok(Some(i)) => match parse_lines_spec(rest, next_line_number(lineno)) {
                Err(e) => Err(e),
                Ok(s) => Ok(seq![i] + s),
            },
        }
    }
}

#[via_fn]
proof fn parse_lines_decreases(code: Seq<u8>, lineno: usize) {
    lemma_first_newline_bounds(code);
}

/// What a source text assembles to: its UTF-8 bytes, parsed line by line
/// from line 1.
pub open spec fn parse_spec(code: Seq<char>) -> Result<Seq<Instruction>, AsmError> {
    parse_lines_spec(encode_utf8(code), 1)
}

// ---------------------------------------------------------------------
// The executable assembler. All scanning works on one byte vector with
// half-open index ranges; each helper's result matches the token
// functions above on the range's subrange.
// ---------------------------------------------------------------------

fn scan_all_digits(bytes: &Vec<u8>, s: usize, e: usize) -> (r: bool)
    requires
        s <= e <= bytes@.len(),
    ensures
        r == all_digits(bytes@.subrange(s as int, e as int)),
{
    let ghost t = bytes@.subrange(s as int, e as int);
    let mut j = s;
    while j < e
        invariant
            s <= j <= e <= bytes@.len(),
            t == bytes@.subrange(s as int, e as int),
            forall|i: int| 0 <= i < j - s ==> is_digit(#[trigger] t[i]),
        decreases e - j,
    {
        let b = bytes[j];
        if b < 48 || b > 57 {
            proof {
                assert(t[j - s] == b);
                assert(!all_digits(t));
            }
            return false;
        }
        j += 1;
    }
    true
}

fn trim_bounds(bytes: &Vec<u8>, s: usize, e: usize) -> (r: (usize, usize))
    requires
        s <= e <= bytes@.len(),
    ensures
        s <= r.0 <= r.1 <= e,
        bytes@.subrange(r.0 as int, r.1 as int) == trim(bytes@.subrange(s as int, e as int)),
        r.0 + trim_start(bytes@.subrange(s as int, e as int)).len() == e,
        r.1 == r.0 + trim(bytes@.subrange(s as int, e as int)).len(),
{
    let mut lo = s;
    while lo < e && (bytes[lo] == 32 || bytes[lo] == 9 || bytes[lo] == 13)
        invariant
            s <= lo <= e <= bytes@.len(),
            trim_start(bytes@.subrange(s as int, e as int)) == trim_start(
                bytes@.subrange(lo as int, e as int),
            ),
        decreases e - lo,
    {
        proof {
            assert(bytes@.subrange(lo as int, e as int).drop_first() =~= bytes@.subrange(
                lo as int + 1,
                e as int,
            ));
        }
        lo += 1;
    }
    proof {
        assert(trim_start(bytes@.subrange(lo as int, e as int)) == bytes@.subrange(
            lo as int,
            e as int,
        ));
    }
    let mut hi = e;
    while hi > lo && (bytes[hi - 1] == 32 || bytes[hi - 1] == 9 || bytes[hi - 1] == 13)
        invariant
            lo <= hi <= e <= bytes@.len(),
            trim_end(bytes@.subrange(lo as int, e as int)) == trim_end(
                bytes@.subrange(lo as int, hi as int),
            ),
        decreases hi,
    {
        proof {
            assert(bytes@.subrange(lo as int, hi as int).drop_last() =~= bytes@.subrange(
                lo as int,
                hi as int - 1,
            ));
        }
        hi -= 1;
    }
    proof {
        assert(trim_end(bytes@.subrange(lo as int, hi as int)) == bytes@.subrange(
            lo as int,
            hi as int,
        ));
    }
    (lo, hi)
}

fn parse_digits(bytes: &Vec<u8>, s: usize, e: usize) -> (r: Option<u32>)
    requires
        s <= e <= bytes@.len(),
        all_digits(bytes@.subrange(s as int, e as int)),
    ensures
        match r {
            Some(v) => v == digits_value(bytes@.subrange(s as int, e as int)),
            None => digits_value(bytes@.subrange(s as int, e as int)) > u32::MAX,
        },
{
    let ghost t = bytes@.subrange(s as int, e as int);
    let mut acc: u32 = 0;
    let mut overflow = false;
    let mut j = s;
    while j < e
        invariant
            s <= j <= e <= bytes@.len(),
            t == bytes@.subrange(s as int, e as int),
            all_digits(t),
            !overflow ==> acc == digits_value(bytes@.subrange(s as int, j as int)),
            overflow ==> digits_value(bytes@.subrange(s as int, j as int)) > u32::MAX,
        decreases e - j,
    {
        proof {
            assert(t[j - s] == bytes@[j as int]);
            assert(is_digit(bytes@[j as int]));
            assert(bytes@.subrange(s as int, j as int + 1).drop_last() =~= bytes@.subrange(
                s as int,
                j as int,
            ));
            assert(bytes@.subrange(s as int, j as int + 1).last() == bytes@[j as int]);
        }
        let d = bytes[j] - 48;
        let big: u64 = acc as u64 * 10 + d as u64;
        if overflow || big > u32::MAX as u64 {
            overflow = true;
        } else {
            acc = big as u32;
        }
        j += 1;
    }
    if overflow {
        None
    } else {
        Some(acc)
    }
}

fn read_token_op_type(bytes: &Vec<u8>, s: usize, e: usize) -> (r: Result<OpType, ParseErrorKind>)
    requires
        s <= e <= bytes@.len(),
    ensures
        r == op_type_of_token(bytes@.subrange(s as int, e as int)),
{
    if e - s == 3 && bytes[s + 1] == 51 && bytes[s + 2] == 50 {
        if bytes[s] == 102 {
            Ok(OpType::Float)
        } else if bytes[s] == 105 {
            Ok(OpType::Int)
        } else if bytes[s] == 117 {
            Ok(OpType::UnsignedInt)
        } else {
            Err(ParseErrorKind::InvalidOpType)
        }
    } else {
        Err(ParseErrorKind::InvalidOpType)
    }
}

fn read_token_register(bytes: &Vec<u8>, s: usize, e: usize) -> (r: Result<u8, ParseErrorKind>)
    requires
        s <= e <= bytes@.len(),
    ensures
        r == register_of_token(bytes@.subrange(s as int, e as int)),
{
    let ghost t = bytes@.subrange(s as int, e as int);
    if e - s >= 2 && bytes[s] == 114 && scan_all_digits(bytes, s + 1, e) {
        proof {
            assert(t.skip(1) =~= bytes@.subrange(s as int + 1, e as int));
            assert(is_register_token(t));
        }
        match parse_digits(bytes, s + 1, e) {
            Some(v) => {
                if v <= 255 {
                    Ok(v as u8)
                } else {
                    Err(ParseErrorKind::IntegerOutOfRange)
                }
            },
            None => Err(ParseErrorKind::IntegerOutOfRange),
        }
    } else {
        proof {
            if is_register_token(t) {
                assert(t.skip(1) =~= bytes@.subrange(s as int + 1, e as int));
            }
        }
        Err(ParseErrorKind::BadOperand)
    }
}

/// Finds the first `.` in the range, or the range's end.
fn scan_dot(bytes: &Vec<u8>, s: usize, e: usize) -> (r: usize)
    requires
        s <= e <= bytes@.len(),
    ensures
        s <= r <= e,
        forall|i: int| s <= i < r ==> bytes@[i] != 46,
        r < e ==> bytes@[r as int] == 46,
{
    let mut j = s;
    while j < e && bytes[j] != 46
        invariant
            s <= j <= e <= bytes@.len(),
            forall|i: int| s <= i < j ==> bytes@[i] != 46,
        decreases e - j,
    {
        j += 1;
    }
    j
}

fn read_token_value(bytes: &Vec<u8>, s: usize, e: usize) -> (r: Result<Value, ParseErrorKind>)
    requires
        s <= e <= bytes@.len(),
    ensures
        r == value_of_token(bytes@.subrange(s as int, e as int)),
{
    let ghost t = bytes@.subrange(s as int, e as int);
    if e - s >= 2 && bytes[s] == 114 && scan_all_digits(bytes, s + 1, e) {
        proof {
            assert(t.skip(1) =~= bytes@.subrange(s as int + 1, e as int));
            assert(is_register_token(t));
        }
        return match parse_digits(bytes, s + 1, e) {
            Some(v) => {
                if v <= 255 {
                    Ok(Value::Register(v as u8))
                } else {
                    Err(ParseErrorKind::IntegerOutOfRange)
                }
            },
            None => Err(ParseErrorKind::IntegerOutOfRange),
        };
    }
    proof {
        if is_register_token(t) {
            assert(t.skip(1) =~= bytes@.subrange(s as int + 1, e as int));
            assert(false);
        }
    }
    if e > s && scan_all_digits(bytes, s, e) {
        proof {
            assert(is_uint_token(t));
        }
        return match parse_digits(bytes, s, e) {
            Some(v) => Ok(Value::Immediate(v)),
            None => Err(ParseErrorKind::IntegerOutOfRange),
        };
    }
    proof {
        assert(!is_uint_token(t));
    }
    if e - s >= 2 && bytes[s] == 45 && scan_all_digits(bytes, s + 1, e) {
        proof {
            assert(t.skip(1) =~= bytes@.subrange(s as int + 1, e as int));
            assert(is_int_token(t));
        }
        return match parse_digits(bytes, s + 1, e) {
            Some(v) => {
                if v <= 0x8000_0000 {
                    Ok(Value::Immediate(crate::arith::encode_negated(v)))
                } else {
                    Err(ParseErrorKind::IntegerOutOfRange)
                }
            },
            None => Err(ParseErrorKind::IntegerOutOfRange),
        };
    }
    proof {
        if is_int_token(t) {
            assert(t.skip(1) =~= bytes@.subrange(s as int + 1, e as int));
            assert(false);
        }
    }
    let fd = scan_dot(bytes, s, e);
    if fd < e && fd > s && e - fd >= 2 && scan_all_digits(bytes, s, fd) && scan_all_digits(
        bytes,
        fd + 1,
        e,
    ) {
        proof {
            assert(t.take(fd - s) =~= bytes@.subrange(s as int, fd as int));
            assert(t.skip(fd - s + 1) =~= bytes@.subrange(fd as int + 1, e as int));
            assert(t[fd - s] == 46);
            assert(is_float_token(t));
        }
        let mut token: Vec<u8> = Vec::new();
        let mut j = s;
        while j < e
            invariant
                s <= j <= e <= bytes@.len(),
                token@ == bytes@.subrange(s as int, j as int),
            decreases e - j,
        {
            token.push(bytes[j]);
            proof {
                assert(token@ =~= bytes@.subrange(s as int, j as int + 1));
            }
            j += 1;
        }
        proof {
            assert(token@ == t);
        }
        return match crate::floats::float_bits_of_token(&token) {
            Some(bits) => Ok(Value::Immediate(bits)),
            None => Err(ParseErrorKind::BadFloatLiteral),
        };
    }
    proof {
        assert forall|d: int|
            !(1 <= d <= t.len() - 2 && #[trigger] t[d] == 46 && all_digits(t.take(d))
                && all_digits(t.skip(d + 1))) by {
            if 1 <= d <= t.len() - 2 && t[d] == 46 && all_digits(t.take(d)) && all_digits(
                t.skip(d + 1),
            ) {
                assert(t[d] == bytes@[s + d]);
                if s + d < fd {
                    assert(bytes@[s + d] != 46);
                } else if s + d > fd {
                    assert(fd < e);
                    assert(t.take(d)[fd - s] == bytes@[fd as int]);
                    assert(is_digit(bytes@[fd as int]));
                } else {
                    assert(fd > s && fd + 2 <= e);
                    assert(t.take(d) =~= bytes@.subrange(s as int, fd as int));
                    assert(t.skip(d + 1) =~= bytes@.subrange(fd as int + 1, e as int));
                }
            }
        }
        assert(!is_float_token(t));
    }
    Err(ParseErrorKind::BadOperand)
}

fn scan_identifier(bytes: &Vec<u8>, s: usize, e: usize) -> (r: bool)
    requires
        s <= e <= bytes@.len(),
    ensures
        r == is_identifier_token(bytes@.subrange(s as int, e as int)),
{
    let ghost t = bytes@.subrange(s as int, e as int);
    if s == e {
        return false;
    }
    let b0 = bytes[s];
    let first_ok = (b0 >= 65 && b0 <= 90) || (b0 >= 97 && b0 <= 122) || b0 == 95;
    if !first_ok {
        return false;
    }
    let mut j = s + 1;
    while j < e
        invariant
            s + 1 <= j <= e <= bytes@.len(),
            t == bytes@.subrange(s as int, e as int),
            forall|i: int|
                1 <= i < j - s ==> is_letter(#[trigger] t[i]) || is_digit(t[i]),
        decreases e - j,
    {
        let b = bytes[j];
        let ok = (b >= 65 && b <= 90) || (b >= 97 && b <= 122) || b == 95 || (b >= 48 && b <= 57);
        if !ok {
            proof {
                assert(t[j - s] == b);
            }
            return false;
        }
        j += 1;
    }
    true
}

fn read_jump_dest(
    bytes: &Vec<u8>,
    s: usize,
    e: usize,
    line_start: usize,
    lineno: usize,
) -> (r: Result<u32, AsmError>)
    requires
        line_start <= s <= e <= bytes@.len(),
    ensures
        r == jump_dest_of_token(
            bytes@.subrange(s as int, e as int),
            ((s - line_start) as int, (e - line_start) as int),
            lineno,
        ),
{
    let ghost t = bytes@.subrange(s as int, e as int);
    let token_start = s - line_start;
    let token_end = e - line_start;
    if e > s && scan_all_digits(bytes, s, e) {
        proof {
            assert(is_uint_token(t));
        }
        match parse_digits(bytes, s, e) {
            Some(v) => Ok(v),
            None => Err(
                AsmError::Parse {
                    line: lineno,
                    token_start,
                    token_end,
                    kind: ParseErrorKind::IntegerOutOfRange,
                },
            ),
        }
    } else {
        proof {
            assert(!is_uint_token(t));
        }
        if scan_identifier(bytes, s, e) {
            Err(AsmError::Unimplemented { line: lineno })
        } else {
            Err(
                AsmError::Parse {
                    line: lineno,
                    token_start,
                    token_end,
                    kind: ParseErrorKind::BadOperand,
                },
            )
        }
    }
}

fn mnemonic_token(bytes: &Vec<u8>, s: usize, e: usize) -> (m: Mnemonic)
    requires
        s <= e <= bytes@.len(),
    ensures
        m == mnemonic_of(bytes@.subrange(s as int, e as int)),
{
    let n = e - s;
    if n == 2 {
        if bytes[s] == 103 && bytes[s + 1] == 116 {
            Mnemonic::GreaterThan
        } else if bytes[s] == 108 && bytes[s + 1] == 116 {
            Mnemonic::LessThan
        } else if bytes[s] == 111 && bytes[s + 1] == 114 {
            Mnemonic::Or
        } else if bytes[s] == 101 && bytes[s + 1] == 113 {
            Mnemonic::Equal
        } else {
            Mnemonic::Unknown
        }
    } else if n == 3 {
        if bytes[s] == 110 && bytes[s + 1] == 111 && bytes[s + 2] == 112 {
            Mnemonic::Nop
        } else if bytes[s] == 97 && bytes[s + 1] == 100 && bytes[s + 2] == 100 {
            Mnemonic::Add
        } else if bytes[s] == 115 && bytes[s + 1] == 117 && bytes[s + 2] == 98 {
            Mnemonic::Sub
        } else if bytes[s] == 109 && bytes[s + 1] == 117 && bytes[s + 2] == 108 {
            Mnemonic::Mul
        } else if bytes[s] == 100 && bytes[s + 1] == 105 && bytes[s + 2] == 118 {
            Mnemonic::Div
        } else if bytes[s] == 109 && bytes[s + 1] == 111 && bytes[s + 2] == 100 {
            Mnemonic::Mod
        } else if bytes[s] == 103 && bytes[s + 1] == 116 && bytes[s + 2] == 101 {
            Mnemonic::GreaterThanOrEqual
        } else if bytes[s] == 108 && bytes[s + 1] == 116 && bytes[s + 2] == 101 {
            Mnemonic::LessThanOrEqual
        } else if bytes[s] == 97 && bytes[s + 1] == 110 && bytes[s + 2] == 100 {
            Mnemonic::And
        } else if bytes[s] == 120 && bytes[s + 1] == 111 && bytes[s + 2] == 114 {
            Mnemonic::Xor
        } else if bytes[s] == 115 && bytes[s + 1] == 104 && bytes[s + 2] == 108 {
            Mnemonic::ShiftLeft
        } else if bytes[s] == 115 && bytes[s + 1] == 104 && bytes[s + 2] == 114 {
            Mnemonic::ShiftRight
        } else if bytes[s] == 110 && bytes[s + 1] == 101 && bytes[s + 2] == 113 {
            Mnemonic::NotEqual
        } else if bytes[s] == 110 && bytes[s + 1] == 111 && bytes[s + 2] == 116 {
            Mnemonic::Not
        } else if bytes[s] == 106 && bytes[s + 1] == 109 && bytes[s + 2] == 112 {
            Mnemonic::Jump
        } else if bytes[s] == 106 && bytes[s + 1] == 105 && bytes[s + 2] == 122 {
            Mnemonic::JumpIfZero
        } else if bytes[s] == 106 && bytes[s + 1] == 110 && bytes[s + 2] == 122 {
            Mnemonic::JumpIfNotZero
        } else if bytes[s] == 109 && bytes[s + 1] == 111 && bytes[s + 2] == 118 {
            Mnemonic::Move
        } else {
            Mnemonic::Unknown
        }
    } else if n == 4 {
        if bytes[s] == 108 && bytes[s + 1] == 111 && bytes[s + 2] == 97 && bytes[s + 3] == 100 {
            Mnemonic::Load
        } else {
            Mnemonic::Unknown
        }
    } else if n == 5 {
        if bytes[s] == 115 && bytes[s + 1] == 116 && bytes[s + 2] == 111 && bytes[s + 3] == 114
            && bytes[s + 4] == 101 {
            Mnemonic::Store
        } else {
            Mnemonic::Unknown
        }
    } else {
        Mnemonic::Unknown
    }
}

#[verifier::rlimit(100)]
#[verifier::spinoff_prover]
fn build_instruction(
    bytes: &Vec<u8>,
    m: Mnemonic,
    bounds: &Vec<(usize, usize)>,
    Ghost(ops): Ghost<Seq<Seq<u8>>>,
    Ghost(spans): Ghost<Seq<(int, int)>>,
    line_start: usize,
    mn_s: usize,
    mn_e: usize,
    lineno: usize,
) -> (r: Result<Instruction, AsmError>)
    requires
        bounds@.len() == ops.len(),
        spans.len() == ops.len(),
        forall|i: int|
            0 <= i < bounds@.len() ==> line_start <= (#[trigger] bounds@[i]).0 <= bounds@[i].1
                <= bytes@.len() && bytes@.subrange(bounds@[i].0 as int, bounds@[i].1 as int)
                == ops[i],
        forall|i: int|
            0 <= i < bounds@.len() ==> #[trigger] spans[i] == (
                (bounds@[i].0 - line_start) as int,
                (bounds@[i].1 - line_start) as int,
            ),
    ensures
        r == instruction_of_line(m, ops, spans, ((mn_s as int, mn_e as int)), lineno),
{
    match m {
        Mnemonic::Unknown => Err(
            AsmError::Parse {
                line: lineno,
                token_start: mn_s,
                token_end: mn_e,
                kind: ParseErrorKind::UnknownMnemonic,
            },
        ),
        Mnemonic::Nop => {
            if bounds.len() == 0 {
                Ok(Instruction::Nop)
            } else {
                Err(
                    AsmError::Parse {
                        line: lineno,
                        token_start: mn_s,
                        token_end: mn_e,
                        kind: ParseErrorKind::WrongOperandCount,
                    },
                )
            }
        },
        Mnemonic::Add | Mnemonic::Sub | Mnemonic::Mul | Mnemonic::Div | Mnemonic::Mod
            | Mnemonic::GreaterThanOrEqual | Mnemonic::LessThanOrEqual | Mnemonic::GreaterThan
            | Mnemonic::LessThan => {
            if bounds.len() != 4 {
                return Err(
                    AsmError::Parse {
                        line: lineno,
                        token_start: mn_s,
                        token_end: mn_e,
                        kind: ParseErrorKind::WrongOperandCount,
                    },
                );
            }
            let (d0, d1) = bounds[0];
            let dest = match read_token_register(bytes, d0, d1) {
                Ok(v) => v,
                Err(k) => {
                    return Err(
                        AsmError::Parse {
                            line: lineno,
                            token_start: d0 - line_start,
                            token_end: d1 - line_start,
                            kind: k,
                        },
                    );
                },
            };
            let (t0, t1) = bounds[1];
            let op_type = match read_token_op_type(bytes, t0, t1) {
                Ok(v) => v,
                Err(k) => {
                    return Err(
                        AsmError::Parse {
                            line: lineno,
                            token_start: t0 - line_start,
                            token_end: t1 - line_start,
                            kind: k,
                        },
                    );
                },
            };
            let (l0, l1) = bounds[2];
            let lhs = match read_token_value(bytes, l0, l1) {
                Ok(v) => v,
                Err(k) => {
                    return Err(
                        AsmError::Parse {
                            line: lineno,
                            token_start: l0 - line_start,
                            token_end: l1 - line_start,
                            kind: k,
                        },
                    );
                },
            };
            let (r0, r1) = bounds[3];
            let rhs = match read_token_value(bytes, r0, r1) {
                Ok(v) => v,
                Err(k) => {
                    return Err(
                        AsmError::Parse {
                            line: lineno,
                            token_start: r0 - line_start,
                            token_end: r1 - line_start,
                            kind: k,
                        },
                    );
                },
            };
            let op = Op2wTypes { lhs, rhs, dest, op_type };
            Ok(
                match m {
                    Mnemonic::Add => Instruction::Add { op },
                    Mnemonic::Sub => Instruction::Sub { op },
                    Mnemonic::Mul => Instruction::Mul { op },
                    Mnemonic::Div => Instruction::Div { op },
                    Mnemonic::Mod => Instruction::Mod { op },
                    Mnemonic::GreaterThanOrEqual => Instruction::GreaterThanOrEqual { op },
                    Mnemonic::LessThanOrEqual => Instruction::LessThanOrEqual { op },
                    Mnemonic::GreaterThan => Instruction::GreaterThan { op },
                    _ => Instruction::LessThan { op },
                },
            )
        },
        Mnemonic::And | Mnemonic::Or | Mnemonic::Xor | Mnemonic::ShiftLeft | Mnemonic::ShiftRight
            | Mnemonic::Equal | Mnemonic::NotEqual => {
            if bounds.len() != 3 {
                return Err(
                    AsmError::Parse {
                        line: lineno,
                        token_start: mn_s,
                        token_end: mn_e,
                        kind: ParseErrorKind::WrongOperandCount,
                    },
                );
            }
            let (d0, d1) = bounds[0];
            let dest = match read_token_register(bytes, d0, d1) {
                Ok(v) => v,
                Err(k) => {
                    return Err(
                        AsmError::Parse {
                            line: lineno,
                            token_start: d0 - line_start,
                            token_end: d1 - line_start,
                            kind: k,
                        },
                    );
                },
            };
            let (l0, l1) = bounds[1];
            let lhs = match read_token_value(bytes, l0, l1) {
                Ok(v) => v,
                Err(k) => {
                    return Err(
                        AsmError::Parse {
                            line: lineno,
                            token_start: l0 - line_start,
                            token_end: l1 - line_start,
                            kind: k,
                        },
                    );
                },
            };
            let (r0, r1) = bounds[2];
            let rhs = match read_token_value(bytes, r0, r1) {
                Ok(v) => v,
                Err(k) => {
                    return Err(
                        AsmError::Parse {
                            line: lineno,
                            token_start: r0 - line_start,
                            token_end: r1 - line_start,
                            kind: k,
                        },
                    );
                },
            };
            let op = Op2 { lhs, rhs, dest };
            Ok(
                match m {
                    Mnemonic::And => Instruction::And { op },
                    Mnemonic::Or => Instruction::Or { op },
                    Mnemonic::Xor => Instruction::Xor { op },
                    Mnemonic::ShiftLeft => Instruction::ShiftLeft { op },
                    Mnemonic::ShiftRight => Instruction::ShiftRight { op },
                    Mnemonic::Equal => Instruction::Equal { op },
                    _ => Instruction::NotEqual { op },
                },
            )
        },
        Mnemonic::Not => {
            if bounds.len() != 2 {
                return Err(
                    AsmError::Parse {
                        line: lineno,
                        token_start: mn_s,
                        token_end: mn_e,
                        kind: ParseErrorKind::WrongOperandCount,
                    },
                );
            }
            let (d0, d1) = bounds[0];
            let dest = match read_token_register(bytes, d0, d1) {
                Ok(v) => v,
                Err(k) => {
                    return Err(
                        AsmError::Parse {
                            line: lineno,
                            token_start: d0 - line_start,
                            token_end: d1 - line_start,
                            kind: k,
                        },
                    );
                },
            };
            let (v0, v1) = bounds[1];
            let value = match read_token_value(bytes, v0, v1) {
                Ok(v) => v,
                Err(k) => {
                    return Err(
                        AsmError::Parse {
                            line: lineno,
                            token_start: v0 - line_start,
                            token_end: v1 - line_start,
                            kind: k,
                        },
                    );
                },
            };
            Ok(Instruction::Not { op: Op1 { value, dest } })
        },
        Mnemonic::Jump => {
            if bounds.len() != 1 {
                return Err(
                    AsmError::Parse {
                        line: lineno,
                        token_start: mn_s,
                        token_end: mn_e,
                        kind: ParseErrorKind::WrongOperandCount,
                    },
                );
            }
            let (d0, d1) = bounds[0];
            match read_jump_dest(bytes, d0, d1, line_start, lineno) {
                Ok(dest) => Ok(Instruction::Jump { dest }),
                Err(e) => Err(e),
            }
        },
        Mnemonic::JumpIfZero | Mnemonic::JumpIfNotZero => {
            if bounds.len() != 2 {
                return Err(
                    AsmError::Parse {
                        line: lineno,
                        token_start: mn_s,
                        token_end: mn_e,
                        kind: ParseErrorKind::WrongOperandCount,
                    },
                );
            }
            let (d0, d1) = bounds[0];
            let dest = match read_jump_dest(bytes, d0, d1, line_start, lineno) {
                Ok(v) => v,
                Err(e) => {
                    return Err(e);
                },
            };
            let (c0, c1) = bounds[1];
            let condition = match read_token_value(bytes, c0, c1) {
                Ok(v) => v,
                Err(k) => {
                    return Err(
                        AsmError::Parse {
                            line: lineno,
                            token_start: c0 - line_start,
                            token_end: c1 - line_start,
                            kind: k,
                        },
                    );
                },
            };
            Ok(
                if matches!(m, Mnemonic::JumpIfZero) {
                    Instruction::JumpIfZero { dest, condition }
                } else {
                    Instruction::JumpIfNotZero { dest, condition }
                },
            )
        },
        Mnemonic::Load | Mnemonic::Move => {
            if bounds.len() != 2 {
                return Err(
                    AsmError::Parse {
                        line: lineno,
                        token_start: mn_s,
                        token_end: mn_e,
                        kind: ParseErrorKind::WrongOperandCount,
                    },
                );
            }
            let (d0, d1) = bounds[0];
            let dest = match read_token_register(bytes, d0, d1) {
                Ok(v) => v,
                Err(k) => {
                    return Err(
                        AsmError::Parse {
                            line: lineno,
                            token_start: d0 - line_start,
                            token_end: d1 - line_start,
                            kind: k,
                        },
                    );
                },
            };
            let (v0, v1) = bounds[1];
            let value = match read_token_value(bytes, v0, v1) {
                Ok(v) => v,
                Err(k) => {
                    return Err(
                        AsmError::Parse {
                            line: lineno,
                            token_start: v0 - line_start,
                            token_end: v1 - line_start,
                            kind: k,
                        },
                    );
                },
            };
            Ok(
                if matches!(m, Mnemonic::Load) {
                    Instruction::LoadMemory { dest, value }
                } else {
                    Instruction::Move { dest, value }
                },
            )
        },
        Mnemonic::Store => {
            if bounds.len() != 2 {
                return Err(
                    AsmError::Parse {
                        line: lineno,
                        token_start: mn_s,
                        token_end: mn_e,
                        kind: ParseErrorKind::WrongOperandCount,
                    },
                );
            }
            let (d0, d1) = bounds[0];
            let dest = match read_token_value(bytes, d0, d1) {
                Ok(v) => v,
                Err(k) => {
                    return Err(
                        AsmError::Parse {
                            line: lineno,
                            token_start: d0 - line_start,
                            token_end: d1 - line_start,
                            kind: k,
                        },
                    );
                },
            };
            let (v0, v1) = bounds[1];
            let value = match read_token_value(bytes, v0, v1) {
                Ok(v) => v,
                Err(k) => {
                    return Err(
                        AsmError::Parse {
                            line: lineno,
                            token_start: v0 - line_start,
                            token_end: v1 - line_start,
                            kind: k,
                        },
                    );
                },
            };
            Ok(Instruction::Store { dest, value })
        },
    }
}

/// One source line between the given bounds.
#[verifier::rlimit(100)]
#[verifier::spinoff_prover]
fn parse_line(bytes: &Vec<u8>, start: usize, end: usize, lineno: usize) -> (r: Result<
    Option<Instruction>,
    AsmError,
>)
    requires
        start <= end <= bytes@.len(),
    ensures
        r == parse_line_spec(bytes@.subrange(start as int, end as int), lineno),
{
    let ghost line = bytes@.subrange(start as int, end as int);
    let (lo, hi) = trim_bounds(bytes, start, end);
    let ghost w = trim(line);
    proof {
        assert(w == bytes@.subrange(lo as int, hi as int));
    }
    if lo == hi {
        return Ok(None);
    }
    // The mnemonic runs to the first whitespace byte.
    let mut ms = lo;
    while ms < hi && !(bytes[ms] == 32 || bytes[ms] == 9 || bytes[ms] == 13)
        invariant
            lo <= ms <= hi <= bytes@.len(),
            w == bytes@.subrange(lo as int, hi as int),
            first_space(w) == (ms - lo) + first_space(bytes@.subrange(ms as int, hi as int)),
        decreases hi - ms,
    {
        proof {
            assert(bytes@.subrange(ms as int, hi as int).drop_first() =~= bytes@.subrange(
                ms as int + 1,
                hi as int,
            ));
        }
        ms += 1;
    }
    proof {
        assert(first_space(w) == ms - lo);
        assert(w.take(ms - lo) =~= bytes@.subrange(lo as int, ms as int));
        assert(w.skip(ms - lo) =~= bytes@.subrange(ms as int, hi as int));
        assert(lo - start == line.len() - trim_start(line).len());
        assert(mnemonic_span(line) == (((lo - start) as int, (ms - start) as int)));
    }
    let m = mnemonic_token(bytes, lo, ms);
    let ghost rest = bytes@.subrange(ms as int, hi as int);
    // Operand list: blank means no operands; otherwise comma-separated
    // pieces, each trimmed.
    let (rlo, rhi) = trim_bounds(bytes, ms, hi);
    let mut bounds: Vec<(usize, usize)> = Vec::new();
    let ghost mut raws: Seq<Seq<u8>> = Seq::empty();
    let ghost mut rawspans: Seq<(int, int)> = Seq::empty();
    if rlo != rhi {
        let mut cur = ms;
        let mut done = false;
        while !done
            invariant
                start <= ms <= cur <= hi <= end <= bytes@.len(),
                line == bytes@.subrange(start as int, end as int),
                rest == bytes@.subrange(ms as int, hi as int),
                !done ==> split_commas(rest) == raws + split_commas(
                    bytes@.subrange(cur as int, hi as int),
                ),
                done ==> split_commas(rest) == raws,
                !done ==> split_comma_spans(rest, (ms - start) as int) == rawspans
                    + split_comma_spans(
                    bytes@.subrange(cur as int, hi as int),
                    (cur - start) as int,
                ),
                done ==> split_comma_spans(rest, (ms - start) as int) == rawspans,
                bounds@.len() == raws.len(),
                rawspans.len() == raws.len(),
                forall|i: int|
                    0 <= i < bounds@.len() ==> start <= (#[trigger] bounds@[i]).0 <= bounds@[i].1
                        <= bytes@.len() && bytes@.subrange(
                        bounds@[i].0 as int,
                        bounds@[i].1 as int,
                    ) == trim(raws[i]),
                forall|i: int|
                    0 <= i < bounds@.len() ==> (
                        ((#[trigger] bounds@[i]).0 - start) as int,
                        (bounds@[i].1 - start) as int,
                    ) == trimmed_span(line, rawspans[i].0, rawspans[i].1),
            decreases (if done { 0int } else { hi - cur + 1 }),
        {
            let mut cs = cur;
            while cs < hi && bytes[cs] != 44
                invariant
                    cur <= cs <= hi <= bytes@.len(),
                    first_comma(bytes@.subrange(cur as int, hi as int)) == (cs - cur)
                        + first_comma(bytes@.subrange(cs as int, hi as int)),
                decreases hi - cs,
            {
                proof {
                    assert(bytes@.subrange(cs as int, hi as int).drop_first() =~= bytes@.subrange(
                        cs as int + 1,
                        hi as int,
                    ));
                }
                cs += 1;
            }
            proof {
                assert(first_comma(bytes@.subrange(cur as int, hi as int)) == cs - cur);
            }
            let (tlo, thi) = trim_bounds(bytes, cur, cs);
            bounds.push((tlo, thi));
            proof {
                let piece = bytes@.subrange(cur as int, cs as int);
                let tail = bytes@.subrange(cur as int, hi as int);
                let span = (((cur - start) as int), ((cs - start) as int));
                assert(line.subrange(span.0, span.1) =~= piece);
                assert((((tlo - start) as int), ((thi - start) as int)) == trimmed_span(
                    line,
                    span.0,
                    span.1,
                ));
                if cs == hi {
                    assert(first_comma(tail) == tail.len());
                    assert(split_commas(tail) == seq![tail]);
                    assert(split_comma_spans(tail, (cur - start) as int) == seq![span]);
                    assert(piece == tail);
                    raws = raws + seq![piece];
                    rawspans = rawspans + seq![span];
                    assert(split_commas(rest) =~= raws);
                    assert(split_comma_spans(rest, (ms - start) as int) =~= rawspans);
                } else {
                    assert(tail.take(cs - cur) =~= piece);
                    assert(tail.skip(cs - cur + 1) =~= bytes@.subrange(cs as int + 1, hi as int));
                    assert(split_commas(tail) == seq![piece] + split_commas(
                        bytes@.subrange(cs as int + 1, hi as int),
                    ));
                    assert(split_comma_spans(tail, (cur - start) as int) == seq![span]
                        + split_comma_spans(
                        bytes@.subrange(cs as int + 1, hi as int),
                        (cs + 1 - start) as int,
                    ));
                    raws = raws + seq![piece];
                    rawspans = rawspans + seq![span];
                    assert(split_commas(rest) =~= raws + split_commas(
                        bytes@.subrange(cs as int + 1, hi as int),
                    ));
                    assert(split_comma_spans(rest, (ms - start) as int) =~= rawspans
                        + split_comma_spans(
                        bytes@.subrange(cs as int + 1, hi as int),
                        (cs + 1 - start) as int,
                    ));
                }
            }
            if cs == hi {
                done = true;
            } else {
                cur = cs + 1;
            }
        }
        proof {
            assert(trim(rest).len() != 0);
            assert(operand_tokens(rest) == split_commas(rest).map_values(|t: Seq<u8>| trim(t)));
            assert(operand_tokens(rest).len() == raws.len());
            assert forall|i: int| 0 <= i < raws.len() implies #[trigger] operand_tokens(rest)[i]
                == trim(raws[i]) by {}
            assert(operand_spans(line) == split_comma_spans(rest, (ms - start) as int).map_values(
                |sp: (int, int)| trimmed_span(line, sp.0, sp.1),
            ));
            assert(operand_spans(line).len() == rawspans.len());
            assert forall|i: int| 0 <= i < rawspans.len() implies #[trigger] operand_spans(line)[i]
                == trimmed_span(line, rawspans[i].0, rawspans[i].1) by {}
        }
    } else {
        proof {
            assert(operand_tokens(rest) =~= Seq::<Seq<u8>>::empty());
            assert(operand_spans(line) =~= Seq::<(int, int)>::empty());
        }
    }
    match build_instruction(
        bytes,
        m,
        &bounds,
        Ghost(operand_tokens(rest)),
        Ghost(operand_spans(line)),
        start,
        lo - start,
        ms - start,
        lineno,
    ) {
        Ok(i) => Ok(Some(i)),
        Err(e) => Err(e),
    }
}

/// A partial parse, continued: what assembled so far, then the rest.
spec fn continue_parse(
    acc: Seq<Instruction>,
    r: Result<Seq<Instruction>, AsmError>,
) -> Result<Seq<Instruction>, AsmError> {
    match r {
        Ok(s) => Ok(acc + s),
        Err(e) => Err(e),
    }
}

/// Assembles a whole source text: one instruction per non-blank line, in
/// source order. The first malformed line stops assembly with its error;
/// no partial program is returned. Empty input yields an empty program.
#[verifier::rlimit(100)]
#[verifier::spinoff_prover]
pub fn parse(code: &String) -> (res: Result<Vec<Instruction>, AsmError>)
    ensures
        res matches Ok(v) ==> parse_spec(code@) == Ok::<Seq<Instruction>, AsmError>(v@),
        res matches Err(e) ==> parse_spec(code@) == Err::<Seq<Instruction>, AsmError>(e),
{
    let bytes: Vec<u8> = vstd::slice::slice_to_vec(code.as_str().as_bytes());
    let n = bytes.len();
    let mut out: Vec<Instruction> = Vec::new();
    let mut pos: usize = 0;
    let mut lineno: usize = 1;
    proof {
        assert(bytes@.skip(0) =~= bytes@);
        assert(out@ + parse_lines_spec(bytes@, 1)->Ok_0 =~= parse_lines_spec(bytes@, 1)->Ok_0);
    }
    while pos < n
        invariant
            pos <= n,
            n == bytes@.len(),
            bytes@ == encode_utf8(code@),
            parse_lines_spec(bytes@, 1) == continue_parse(
                out@,
                parse_lines_spec(bytes@.skip(pos as int), lineno),
            ),
        decreases n - pos,
    {
        let mut j = pos;
        while j < n && bytes[j] != 10
            invariant
                pos <= j <= n <= bytes@.len(),
                first_newline(bytes@.skip(pos as int)) == (j - pos) + first_newline(
                    bytes@.skip(j as int),
                ),
            decreases n - j,
        {
            proof {
                assert(bytes@.skip(j as int).drop_first() =~= bytes@.skip(j as int + 1));
            }
            j += 1;
        }
        proof {
            assert(first_newline(bytes@.skip(pos as int)) == j - pos);
            assert(bytes@.skip(pos as int).take(j - pos) =~= bytes@.subrange(pos as int, j as int));
        }
        let ghost pre_out = out@;
        let ghost remainder = bytes@.skip(pos as int);
        match parse_line(&bytes, pos, j, lineno) {
            Err(e) => {
                return Err(e);
            },
            Ok(step) => {
                let ghost had = match step {
                    Some(i) => seq![i],
                    None => Seq::<Instruction>::empty(),
                };
                if let Some(i) = step {
                    out.push(i);
                }
                proof {
                    assert(out@ =~= pre_out + had);
                }
                if j == n {
                    pos = n;
                } else {
                    pos = j + 1;
                }
                lineno = if lineno < usize::MAX {
                    lineno + 1
                } else {
                    lineno
                };
                proof {
                    let nl = first_newline(remainder);
                    if nl == remainder.len() {
                        assert(remainder.skip(nl) =~= bytes@.skip(pos as int));
                    } else {
                        assert(remainder.skip(nl + 1) =~= bytes@.skip(pos as int));
                    }
                    match parse_lines_spec(bytes@.skip(pos as int), lineno) {
                        Ok(s) => {
                            assert(pre_out + (had + s) =~= out@ + s);
                        },
                        Err(_) => {},
                    }
                }
            },
        }
    }
    proof {
        assert(bytes@.skip(n as int) =~= Seq::<u8>::empty());
        assert(out@ + Seq::<Instruction>::empty() =~= out@);
    }
    Ok(out)
}

} // verus!
