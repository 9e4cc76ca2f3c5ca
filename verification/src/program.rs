//! The unit of compilation and persistence: an ordered instruction sequence
//! plus an ordered table of UTF-8 string literals that the virtual machine
//! preloads into memory.
use vstd::prelude::*;
use crate::instructions::Instruction;

verus! {

/// A program: instructions to execute and string literals to preload.
#[derive(Debug, Clone)]
pub struct Program {
    pub instructions: Vec<Instruction>,
    pub strings: Vec<String>,
}

/// The mathematical model of a `Program`: the instruction sequence and the
/// character sequences of the string literals.
pub struct ProgramView {
    pub instructions: Seq<Instruction>,
    pub strings: Seq<Seq<char>>,
}

impl View for Program {
    type V = ProgramView;

    open spec fn view(&self) -> ProgramView {
        ProgramView {
            instructions: self.instructions@,
            strings: Seq::new(self.strings@.len(), |i: int| self.strings@[i]@),
        }
    }
}

} // verus!
