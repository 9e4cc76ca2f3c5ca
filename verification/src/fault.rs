//! Fatal-to-the-run failures. A fault ends the current run but is reported
//! as an ordinary value, so a host running many programs is not brought
//! down by one faulting program.
use vstd::prelude::*;

verus! {

/// Why a run (or a load) stopped.
#[derive(Clone, Copy, Debug, PartialEq, Eq, Structural)]
pub enum Fault {
    /// Integer division or modulo with a zero right-hand side.
    DivisionByZero,
    /// A memory access whose 4-byte window does not lie inside the memory
    /// array.
    MemoryOutOfBounds,
    /// A register operand whose index is not below the register count.
    RegisterOutOfBounds,
    /// The program's string literals together exceed the static-string
    /// memory budget at load time.
    StringOverflow,
}

} // verus!
