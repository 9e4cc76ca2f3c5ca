//! A miniature toolchain for a fixed-width instruction set: an assembler
//! from textual mnemonics to an instruction stream, a binary program codec,
//! and a virtual machine that executes programs against fixed-size register
//! and memory arrays.
pub mod arith;
pub mod bytes;
pub mod codec;
pub mod fault;
pub mod floats;
pub mod instructions;
pub mod parser;
pub mod program;
pub mod virtual_machine;
