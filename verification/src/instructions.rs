//! The instruction set: operand values, numeric reinterpretation tags,
//! operand groups and the instruction tagged union. Pure data shared by the
//! assembler (producer), the binary codec and the virtual machine (consumer).
use vstd::prelude::*;

verus! {

/// An operand: a register index or a raw 32-bit immediate pattern.
///
/// The immediate is a bare bit pattern; whether it is read as unsigned,
/// two's-complement signed or IEEE-754 binary32 is decided by the
/// instruction's `OpType`, not by the value itself.
#[derive(Clone, Copy, Debug, PartialEq, Eq, Structural)]
pub enum Value {
    Register(u8),
    Immediate(u32),
}

/// How a 32-bit pattern is reinterpreted by a typed arithmetic or
/// comparison instruction.
#[derive(Clone, Copy, Debug, PartialEq, Eq, Structural)]
pub enum OpType {
    Float,
    Int,
    UnsignedInt,
}

/// Operands of a type-sensitive binary instruction.
#[derive(Clone, Copy, Debug, PartialEq, Eq, Structural)]
pub struct Op2wTypes {
    pub lhs: Value,
    pub rhs: Value,
    pub dest: u8,
    pub op_type: OpType,
}

/// Operands of an untyped binary instruction (always raw unsigned 32-bit).
#[derive(Clone, Copy, Debug, PartialEq, Eq, Structural)]
pub struct Op2 {
    pub lhs: Value,
    pub rhs: Value,
    pub dest: u8,
}

/// Operands of a unary instruction.
#[derive(Clone, Copy, Debug, PartialEq, Eq, Structural)]
pub struct Op1 {
    pub value: Value,
    pub dest: u8,
}

/// One opcode of the machine. The declared order fixes the binary tags:
/// `Nop` is tag 0 and `Move` is tag 23.
#[allow(inconsistent_fields)]
#[derive(Clone, Copy, Debug, PartialEq, Eq, Structural)]
pub enum Instruction {
    Nop,
    Add { op: Op2wTypes },
    Sub { op: Op2wTypes },
    Mul { op: Op2wTypes },
    Div { op: Op2wTypes },
    Mod { op: Op2wTypes },
    GreaterThanOrEqual { op: Op2wTypes },
    LessThanOrEqual { op: Op2wTypes },
    GreaterThan { op: Op2wTypes },
    LessThan { op: Op2wTypes },
    And { op: Op2 },
    Or { op: Op2 },
    Xor { op: Op2 },
    ShiftLeft { op: Op2 },
    ShiftRight { op: Op2 },
    Equal { op: Op2 },
    NotEqual { op: Op2 },
    Not { op: Op1 },
    Jump { dest: u32 },
    JumpIfZero { dest: u32, condition: Value },
    JumpIfNotZero { dest: u32, condition: Value },
    LoadMemory { dest: u8, value: Value },
    Store { dest: Value, value: Value },
    Move { dest: u8, value: Value },
}

} // verus!
