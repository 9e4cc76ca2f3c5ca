//! The execution engine: a fetch-execute loop over fixed register and
//! memory arrays.
//!
//! Construction prepends a single `Nop` to the instruction sequence and the
//! loop increments the instruction pointer *after* executing each
//! instruction, including after a jump; together these make the
//! instruction actually executed after a jump to `dest` the one at
//! `dest + 1` of the stored sequence. Both quirks are deliberate and
//! load-bearing: absolute indices as authored in source map one-to-one
//! onto the stored sequence after the implicit `Nop`.
use vstd::prelude::*;
use vstd::utf8::encode_utf8;
use crate::arith::{eval_bit_op, eval_cmp_op, eval_math_op, bit_op_spec, cmp_op_spec, math_op_spec,
    BitOp, CmpOp, MathOp};
use crate::bytes::{le_byte0, le_byte1, le_byte2, le_byte3, lemma_le_bytes_round_trip,
    u32_from_le_bytes, u32_to_le_bytes, word_of_le_bytes};
use crate::fault::Fault;
use crate::instructions::{Instruction, Op1, Op2, Op2wTypes, Value};
use crate::program::{Program, ProgramView};

verus! {

/// Number of general-purpose registers.
pub const REGISTER_COUNT: usize = 8;

/// Number of bytes of machine memory.
pub const MEMORY_SIZE: usize = 32;

/// Bytes of memory reserved for string literals preloaded at program load
/// time.
pub const STATIC_STRING_MEMORY_SIZE: usize = 32;

/// The mathematical model of the machine: register and memory contents,
/// the instruction pointer and the stored instruction sequence.
#[verifier::ext_equal]
pub struct MachineView {
    pub registers: Seq<u32>,
    pub memory: Seq<u8>,
    pub instruction_pointer: u32,
    pub instructions: Seq<Instruction>,
}

impl MachineView {
    /// The machine's fixed shape: full-size arrays and an instruction
    /// count that fits the 32-bit instruction pointer.
    pub open spec fn wf(self) -> bool {
        &&& self.registers.len() == REGISTER_COUNT
        &&& self.memory.len() == MEMORY_SIZE
        &&& self.instructions.len() <= u32::MAX
    }
}

/// What an operand denotes: a register read (faulting on an index outside
/// the register file) or the immediate pattern itself.
pub open spec fn eval_value_spec(m: MachineView, v: Value) -> Result<u32, Fault> {
    match v {
        Value::Register(r) => if (r as int) < m.registers.len() {
            Ok(m.registers[r as int])
        } else {
            Err(Fault::RegisterOutOfBounds)
        },
        Value::Immediate(i) => Ok(i),
    }
}

/// Writing a result register, faulting on an index outside the register
/// file.
pub open spec fn write_register_spec(m: MachineView, dest: u8, val: u32) -> Result<
    MachineView,
    Fault,
> {
    if (dest as int) < m.registers.len() {
        Ok(MachineView { registers: m.registers.update(dest as int, val), ..m })
    } else {
        Err(Fault::RegisterOutOfBounds)
    }
}

/// One typed binary arithmetic instruction: evaluate the left then the
/// right operand, combine them under the instruction's type tag, store.
pub open spec fn step_math_spec(m: MachineView, op: Op2wTypes, k: MathOp) -> Result<
    MachineView,
    Fault,
> {
    match eval_value_spec(m, op.lhs) {
        Err(f) => Err(f),
        Ok(lhs) => match eval_value_spec(m, op.rhs) {
            Err(f) => Err(f),
            Ok(rhs) => match math_op_spec(k, op.op_type, lhs, rhs) {
                Err(f) => Err(f),
                Ok(res) => write_register_spec(m, op.dest, res),
            },
        },
    }
}

/// One typed comparison instruction: stores exactly 1 or 0.
pub open spec fn step_cmp_spec(m: MachineView, op: Op2wTypes, k: CmpOp) -> Result<
    MachineView,
    Fault,
> {
    match eval_value_spec(m, op.lhs) {
        Err(f) => Err(f),
        Ok(lhs) => match eval_value_spec(m, op.rhs) {
            Err(f) => Err(f),
            Ok(rhs) => write_register_spec(m, op.dest, cmp_op_spec(k, op.op_type, lhs, rhs)),
        },
    }
}

/// One untyped binary instruction: raw unsigned 32-bit semantics.
pub open spec fn step_bit_spec(m: MachineView, op: Op2, k: BitOp) -> Result<MachineView, Fault> {
    match eval_value_spec(m, op.lhs) {
        Err(f) => Err(f),
        Ok(lhs) => match eval_value_spec(m, op.rhs) {
            Err(f) => Err(f),
            Ok(rhs) => write_register_spec(m, op.dest, bit_op_spec(k, lhs, rhs)),
        },
    }
}

/// The effect of one instruction on the machine state. Jumps set the
/// instruction pointer; the run loop's post-execution increment is not
/// part of this step. Memory instructions fault unless the full 4-byte
/// window lies inside memory; faults leave the state to be read as it was
/// when the instruction was fetched.
pub open spec fn step_spec(m: MachineView, instruction: Instruction) -> Result<MachineView, Fault> {
    match instruction {
        Instruction::Nop => Ok(m),
        Instruction::Add { op } => step_math_spec(m, op, MathOp::Add),
        Instruction::Sub { op } => step_math_spec(m, op, MathOp::Sub),
        Instruction::Mul { op } => step_math_spec(m, op, MathOp::Mul),
        Instruction::Div { op } => step_math_spec(m, op, MathOp::Div),
        Instruction::Mod { op } => step_math_spec(m, op, MathOp::Mod),
        Instruction::GreaterThanOrEqual { op } => step_cmp_spec(m, op, CmpOp::GreaterThanOrEqual),
        Instruction::LessThanOrEqual { op } => step_cmp_spec(m, op, CmpOp::LessThanOrEqual),
        Instruction::GreaterThan { op } => step_cmp_spec(m, op, CmpOp::GreaterThan),
        Instruction::LessThan { op } => step_cmp_spec(m, op, CmpOp::LessThan),
        Instruction::And { op } => step_bit_spec(m, op, BitOp::And),
        Instruction::Or { op } => step_bit_spec(m, op, BitOp::Or),
        Instruction::Xor { op } => step_bit_spec(m, op, BitOp::Xor),
        Instruction::ShiftLeft { op } => step_bit_spec(m, op, BitOp::ShiftLeft),
        Instruction::ShiftRight { op } => step_bit_spec(m, op, BitOp::ShiftRight),
        Instruction::Equal { op } => step_bit_spec(m, op, BitOp::Equal),
        Instruction::NotEqual { op } => step_bit_spec(m, op, BitOp::NotEqual),
        Instruction::Not { op } => match eval_value_spec(m, op.value) {
            Err(f) => Err(f),
            Ok(v) => write_register_spec(m, op.dest, !v),
        },
        Instruction::Jump { dest } => Ok(MachineView { instruction_pointer: dest, ..m }),
        Instruction::JumpIfZero { dest, condition } => match eval_value_spec(m, condition) {
            Err(f) => Err(f),
            Ok(c) => if c == 0 {
                Ok(MachineView { instruction_pointer: dest, ..m })
            } else {
                Ok(m)
            },
        },
        Instruction::JumpIfNotZero { dest, condition } => match eval_value_spec(m, condition) {
            Err(f) => Err(f),
            Ok(c) => if c != 0 {
                Ok(MachineView { instruction_pointer: dest, ..m })
            } else {
                Ok(m)
            },
        },
        Instruction::LoadMemory { dest, value } => match eval_value_spec(m, value) {
            Err(f) => Err(f),
            Ok(addr) => if addr + 3 < m.memory.len() {
                write_register_spec(
                    m,
                    dest,
                    word_of_le_bytes(
                        m.memory[addr as int],
                        m.memory[addr as int + 1],
                        m.memory[addr as int + 2],
                        m.memory[addr as int + 3],
                    ),
                )
            } else {
                Err(Fault::MemoryOutOfBounds)
            },
        },
        Instruction::Store { dest, value } => match eval_value_spec(m, dest) {
            Err(f) => Err(f),
            Ok(addr) => match eval_value_spec(m, value) {
                Err(f) => Err(f),
                Ok(v) => if addr + 3 < m.memory.len() {
                    Ok(
                        MachineView {
                            memory: m.memory.update(addr as int, le_byte0(v)).update(
                                addr as int + 1,
                                le_byte1(v),
                            ).update(addr as int + 2, le_byte2(v)).update(
                                addr as int + 3,
                                le_byte3(v),
                            ),
                            ..m
                        },
                    )
                } else {
                    Err(Fault::MemoryOutOfBounds)
                },
            },
        },
        Instruction::Move { dest, value } => match eval_value_spec(m, value) {
            Err(f) => Err(f),
            Ok(v) => write_register_spec(m, dest, v),
        },
    }
}

proof fn lemma_step_math_wf(m: MachineView, op: Op2wTypes, k: MathOp)
    requires
        m.wf(),
    ensures
        step_math_spec(m, op, k) matches Ok(m2) ==> m2.wf() && m2.instructions == m.instructions,
{
}

proof fn lemma_step_cmp_wf(m: MachineView, op: Op2wTypes, k: CmpOp)
    requires
        m.wf(),
    ensures
        step_cmp_spec(m, op, k) matches Ok(m2) ==> m2.wf() && m2.instructions == m.instructions,
{
}

proof fn lemma_step_bit_wf(m: MachineView, op: Op2, k: BitOp)
    requires
        m.wf(),
    ensures
        step_bit_spec(m, op, k) matches Ok(m2) ==> m2.wf() && m2.instructions == m.instructions,
{
}

/// A step never resizes the arrays and never touches the stored
/// instruction sequence.
#[verifier::rlimit(100)]
#[verifier::spinoff_prover]
pub proof fn lemma_step_spec_wf(m: MachineView, instruction: Instruction)
    requires
        m.wf(),
    ensures
        step_spec(m, instruction) matches Ok(m2) ==> m2.wf() && m2.instructions
            == m.instructions,
{
    match instruction {
        Instruction::Add { op } => lemma_step_math_wf(m, op, MathOp::Add),
        Instruction::Sub { op } => lemma_step_math_wf(m, op, MathOp::Sub),
        Instruction::Mul { op } => lemma_step_math_wf(m, op, MathOp::Mul),
        Instruction::Div { op } => lemma_step_math_wf(m, op, MathOp::Div),
        Instruction::Mod { op } => lemma_step_math_wf(m, op, MathOp::Mod),
        Instruction::GreaterThanOrEqual { op } => lemma_step_cmp_wf(
            m,
            op,
            CmpOp::GreaterThanOrEqual,
        ),
        Instruction::LessThanOrEqual { op } => lemma_step_cmp_wf(m, op, CmpOp::LessThanOrEqual),
        Instruction::GreaterThan { op } => lemma_step_cmp_wf(m, op, CmpOp::GreaterThan),
        Instruction::LessThan { op } => lemma_step_cmp_wf(m, op, CmpOp::LessThan),
        Instruction::And { op } => lemma_step_bit_wf(m, op, BitOp::And),
        Instruction::Or { op } => lemma_step_bit_wf(m, op, BitOp::Or),
        Instruction::Xor { op } => lemma_step_bit_wf(m, op, BitOp::Xor),
        Instruction::ShiftLeft { op } => lemma_step_bit_wf(m, op, BitOp::ShiftLeft),
        Instruction::ShiftRight { op } => lemma_step_bit_wf(m, op, BitOp::ShiftRight),
        Instruction::Equal { op } => lemma_step_bit_wf(m, op, BitOp::Equal),
        Instruction::NotEqual { op } => lemma_step_bit_wf(m, op, BitOp::NotEqual),
        _ => {},
    }
}

/// The post-execution increment of the instruction pointer, with 32-bit
/// wraparound.
pub open spec fn wrap_inc(ip: u32) -> u32 {
    if ip == u32::MAX {
        0u32
    } else {
        (ip + 1) as u32
    }
}

/// Where a run stands after a bounded number of loop iterations.
pub enum RunOutcome {
    /// Still executing, in the given state.
    Running(MachineView),
    /// The instruction pointer reached or passed the instruction count.
    Done(MachineView),
    /// An instruction faulted in the given state (whose instruction
    /// pointer is the faulting index).
    Faulted(MachineView, Fault),
}

/// The run loop, unrolled `fuel` iterations: fetch the instruction at the
/// pointer, execute it, increment the pointer, stop once the pointer
/// reaches or passes the instruction count. A program that keeps jumping
/// back never stops; it is `Running` for every fuel.
pub open spec fn run_spec(m: MachineView, fuel: nat) -> RunOutcome
    decreases fuel,
{
    if fuel == 0 {
        RunOutcome::Running(m)
    } else if m.instruction_pointer >= m.instructions.len() {
        RunOutcome::Done(m)
    } else {
        match step_spec(m, m.instructions[m.instruction_pointer as int]) {
            Err(f) => RunOutcome::Faulted(m, f),
            Ok(m2) => run_spec(
                MachineView { instruction_pointer: wrap_inc(m2.instruction_pointer), ..m2 },
                (fuel - 1) as nat,
            ),
        }
    }
}

/// Running `a` iterations and then `b` more is running `a + b`: what a
/// partial run reaches, the longer run continues from.
pub proof fn lemma_run_spec_extend(m: MachineView, a: nat, b: nat)
    ensures
        run_spec(m, a) matches RunOutcome::Running(m1) ==> run_spec(m, a + b) == run_spec(m1, b),
    decreases a,
{
    if a > 0 {
        if m.instruction_pointer < m.instructions.len() {
            match step_spec(m, m.instructions[m.instruction_pointer as int]) {
                Err(_) => {},
                Ok(m2) => {
                    lemma_run_spec_extend(
                        MachineView { instruction_pointer: wrap_inc(m2.instruction_pointer), ..m2 },
                        (a - 1) as nat,
                        b,
                    );
                },
            }
        }
    }
}

/// Whether a run from `m` stops: some finite number of loop iterations
/// reaches the end of the instruction sequence or a fault.
pub open spec fn halts(m: MachineView) -> bool {
    exists|n: nat| !(#[trigger] run_spec(m, n) matches RunOutcome::Running(m1))
}

/// The state a fresh machine starts from: a `Nop` prepended to the given
/// instructions, pointer at 0, registers and memory zeroed.
pub open spec fn initial_machine(instrs: Seq<Instruction>) -> MachineView {
    MachineView {
        registers: Seq::new(REGISTER_COUNT as nat, |i: int| 0u32),
        memory: Seq::new(MEMORY_SIZE as nat, |i: int| 0u8),
        instruction_pointer: 0u32,
        instructions: seq![Instruction::Nop] + instrs,
    }
}

/// The concatenated UTF-8 bytes of a program's string literals, in order,
/// with no separators or length prefixes.
pub open spec fn strings_bytes(strings: Seq<Seq<char>>) -> Seq<u8>
    decreases strings.len(),
{
    if strings.len() == 0 {
        Seq::empty()
    } else {
        strings_bytes(strings.drop_last()) + encode_utf8(strings.last())
    }
}

/// The state a machine loaded from a program starts from: the fresh state
/// with the program's string bytes written at the bottom of memory.
pub open spec fn loaded_machine(p: ProgramView) -> MachineView {
    let sb = strings_bytes(p.strings);
    MachineView {
        memory: sb + Seq::new((MEMORY_SIZE - sb.len()) as nat, |i: int| 0u8),
        ..initial_machine(p.instructions)
    }
}

/// The virtual machine: eight 32-bit registers, a 32-byte memory, an
/// instruction pointer and the instruction sequence of the current run.
#[derive(Debug)]
pub struct VirtualMachine {
    registers: Vec<u32>,
    memory: Vec<u8>,
    instruction_pointer: u32,
    instructions: Vec<Instruction>,
}

impl View for VirtualMachine {
    type V = MachineView;

    closed spec fn view(&self) -> MachineView {
        MachineView {
            registers: self.registers@,
            memory: self.memory@,
            instruction_pointer: self.instruction_pointer,
            instructions: self.instructions@,
        }
    }
}

impl VirtualMachine {
    /// Builds a fresh machine for the given instructions, prepending the
    /// implicit leading `Nop`.
    pub fn new(instructions: Vec<Instruction>) -> (vm: VirtualMachine)
        requires
            instructions@.len() < u32::MAX,
        ensures
            vm@ == initial_machine(instructions@),
            vm@.wf(),
    {
        let ghost instrs = instructions@;
        let mut stored: Vec<Instruction> = Vec::new();
        stored.push(Instruction::Nop);
        let mut rest = instructions;
        stored.append(&mut rest);
        let mut registers: Vec<u32> = Vec::new();
        while registers.len() < REGISTER_COUNT
            invariant
                registers@.len() <= REGISTER_COUNT,
                forall|i: int| 0 <= i < registers@.len() ==> registers@[i] == 0u32,
            decreases REGISTER_COUNT - registers@.len(),
        {
            registers.push(0);
        }
        let mut memory: Vec<u8> = Vec::new();
        while memory.len() < MEMORY_SIZE
            invariant
                memory@.len() <= MEMORY_SIZE,
                forall|i: int| 0 <= i < memory@.len() ==> memory@[i] == 0u8,
            decreases MEMORY_SIZE - memory@.len(),
        {
            memory.push(0);
        }
        let vm = VirtualMachine { registers, memory, instruction_pointer: 0, instructions: stored };
        proof {
            assert(vm@.registers =~= initial_machine(instrs).registers);
            assert(vm@.memory =~= initial_machine(instrs).memory);
            assert(vm@.instructions =~= initial_machine(instrs).instructions);
            assert(vm@ =~= initial_machine(instrs));
        }
        vm
    }

    /// Reads one register; the index must be inside the register file.
    pub fn register(&self, index: usize) -> (r: u32)
        requires
            index < self@.registers.len(),
        ensures
            r == self@.registers[index as int],
    {
        self.registers[index]
    }

    /// Reads one memory byte; the index must be inside memory.
    pub fn memory_byte(&self, index: usize) -> (r: u8)
        requires
            index < self@.memory.len(),
        ensures
            r == self@.memory[index as int],
    {
        self.memory[index]
    }

    /// What an operand denotes in the current state.
    pub fn evaluate_value(&self, value: Value) -> (res: Result<u32, Fault>)
        ensures
            res == eval_value_spec(self@, value),
    {
        match value {
            Value::Register(r) => {
                if (r as usize) < self.registers.len() {
                    Ok(self.registers[r as usize])
                } else {
                    Err(Fault::RegisterOutOfBounds)
                }
            },
            Value::Immediate(i) => Ok(i),
        }
    }

    fn write_register(&mut self, dest: u8, val: u32) -> (res: Result<(), Fault>)
        ensures
            match write_register_spec(old(self)@, dest, val) {
                Ok(m) => res is Ok && final(self)@ == m,
                Err(f) => res == Err::<(), Fault>(f) && final(self)@ == old(self)@,
            },
    {
        if (dest as usize) < self.registers.len() {
            self.registers[dest as usize] = val;
            proof {
                assert(self@ =~= write_register_spec(old(self)@, dest, val)->Ok_0);
            }
            Ok(())
        } else {
            Err(Fault::RegisterOutOfBounds)
        }
    }

    fn step_math(&mut self, op: Op2wTypes, k: MathOp) -> (res: Result<(), Fault>)
        ensures
            match step_math_spec(old(self)@, op, k) {
                Ok(m) => res is Ok && final(self)@ == m,
                Err(f) => res == Err::<(), Fault>(f) && final(self)@ == old(self)@,
            },
    {
        let lhs = match self.evaluate_value(op.lhs) {
            Ok(v) => v,
            Err(f) => {
                return Err(f);
            },
        };
        let rhs = match self.evaluate_value(op.rhs) {
            Ok(v) => v,
            Err(f) => {
                return Err(f);
            },
        };
        let val = match eval_math_op(k, op.op_type, lhs, rhs) {
            Ok(v) => v,
            Err(f) => {
                return Err(f);
            },
        };
        self.write_register(op.dest, val)
    }

    fn step_cmp(&mut self, op: Op2wTypes, k: CmpOp) -> (res: Result<(), Fault>)
        ensures
            match step_cmp_spec(old(self)@, op, k) {
                Ok(m) => res is Ok && final(self)@ == m,
                Err(f) => res == Err::<(), Fault>(f) && final(self)@ == old(self)@,
            },
    {
        let lhs = match self.evaluate_value(op.lhs) {
            Ok(v) => v,
            Err(f) => {
                return Err(f);
            },
        };
        let rhs = match self.evaluate_value(op.rhs) {
            Ok(v) => v,
            Err(f) => {
                return Err(f);
            },
        };
        let val = eval_cmp_op(k, op.op_type, lhs, rhs);
        self.write_register(op.dest, val)
    }

    fn step_bit(&mut self, op: Op2, k: BitOp) -> (res: Result<(), Fault>)
        ensures
            match step_bit_spec(old(self)@, op, k) {
                Ok(m) => res is Ok && final(self)@ == m,
                Err(f) => res == Err::<(), Fault>(f) && final(self)@ == old(self)@,
            },
    {
        let lhs = match self.evaluate_value(op.lhs) {
            Ok(v) => v,
            Err(f) => {
                return Err(f);
            },
        };
        let rhs = match self.evaluate_value(op.rhs) {
            Ok(v) => v,
            Err(f) => {
                return Err(f);
            },
        };
        let val = eval_bit_op(k, lhs, rhs);
        self.write_register(op.dest, val)
    }

    /// Executes one instruction against the current state. On a fault the
    /// state is left exactly as it was.
    #[verifier::rlimit(100)]
    #[verifier::spinoff_prover]
    pub fn handle_instruction(&mut self, instruction: Instruction) -> (res: Result<(), Fault>)
        requires
            old(self)@.wf(),
        ensures
            match step_spec(old(self)@, instruction) {
                Ok(m) => res is Ok && final(self)@ == m,
                Err(f) => res == Err::<(), Fault>(f) && final(self)@ == old(self)@,
            },
    {
        match instruction {
            Instruction::Nop => Ok(()),
            Instruction::Add { op } => self.step_math(op, MathOp::Add),
            Instruction::Sub { op } => self.step_math(op, MathOp::Sub),
            Instruction::Mul { op } => self.step_math(op, MathOp::Mul),
            Instruction::Div { op } => self.step_math(op, MathOp::Div),
            Instruction::Mod { op } => self.step_math(op, MathOp::Mod),
            Instruction::GreaterThanOrEqual { op } => self.step_cmp(op, CmpOp::GreaterThanOrEqual),
            Instruction::LessThanOrEqual { op } => self.step_cmp(op, CmpOp::LessThanOrEqual),
            Instruction::GreaterThan { op } => self.step_cmp(op, CmpOp::GreaterThan),
            Instruction::LessThan { op } => self.step_cmp(op, CmpOp::LessThan),
            Instruction::And { op } => self.step_bit(op, BitOp::And),
            Instruction::Or { op } => self.step_bit(op, BitOp::Or),
            Instruction::Xor { op } => self.step_bit(op, BitOp::Xor),
            Instruction::ShiftLeft { op } => self.step_bit(op, BitOp::ShiftLeft),
            Instruction::ShiftRight { op } => self.step_bit(op, BitOp::ShiftRight),
            Instruction::Equal { op } => self.step_bit(op, BitOp::Equal),
            Instruction::NotEqual { op } => self.step_bit(op, BitOp::NotEqual),
            Instruction::Not { op } => {
                let v = match self.evaluate_value(op.value) {
                    Ok(v) => v,
                    Err(f) => {
                        return Err(f);
                    },
                };
                self.write_register(op.dest, !v)
            },
            Instruction::Jump { dest } => {
                self.instruction_pointer = dest;
                proof {
                    assert(self@ =~= step_spec(old(self)@, instruction)->Ok_0);
                }
                Ok(())
            },
            Instruction::JumpIfZero { dest, condition } => {
                let c = match self.evaluate_value(condition) {
                    Ok(v) => v,
                    Err(f) => {
                        return Err(f);
                    },
                };
                if c == 0 {
                    self.instruction_pointer = dest;
                }
                proof {
                    assert(self@ =~= step_spec(old(self)@, instruction)->Ok_0);
                }
                Ok(())
            },
            Instruction::JumpIfNotZero { dest, condition } => {
                let c = match self.evaluate_value(condition) {
                    Ok(v) => v,
                    Err(f) => {
                        return Err(f);
                    },
                };
                if c != 0 {
                    self.instruction_pointer = dest;
                }
                proof {
                    assert(self@ =~= step_spec(old(self)@, instruction)->Ok_0);
                }
                Ok(())
            },
            Instruction::LoadMemory { dest, value } => {
                let addr = match self.evaluate_value(value) {
                    Ok(v) => v,
                    Err(f) => {
                        return Err(f);
                    },
                };
                if addr <= (MEMORY_SIZE - 4) as u32 {
                    let b0 = self.memory[addr as usize];
                    let b1 = self.memory[addr as usize + 1];
                    let b2 = self.memory[addr as usize + 2];
                    let b3 = self.memory[addr as usize + 3];
                    let word = u32_from_le_bytes(b0, b1, b2, b3);
                    self.write_register(dest, word)
                } else {
                    Err(Fault::MemoryOutOfBounds)
                }
            },
            Instruction::Store { dest, value } => {
                let addr = match self.evaluate_value(dest) {
                    Ok(v) => v,
                    Err(f) => {
                        return Err(f);
                    },
                };
                let v = match self.evaluate_value(value) {
                    Ok(v) => v,
                    Err(f) => {
                        return Err(f);
                    },
                };
                if addr <= (MEMORY_SIZE - 4) as u32 {
                    let (b0, b1, b2, b3) = u32_to_le_bytes(v);
                    self.memory[addr as usize] = b0;
                    self.memory[addr as usize + 1] = b1;
                    self.memory[addr as usize + 2] = b2;
                    self.memory[addr as usize + 3] = b3;
                    proof {
                        assert(self@ =~= step_spec(old(self)@, instruction)->Ok_0);
                    }
                    Ok(())
                } else {
                    Err(Fault::MemoryOutOfBounds)
                }
            },
            Instruction::Move { dest, value } => {
                let v = match self.evaluate_value(value) {
                    Ok(v) => v,
                    Err(f) => {
                        return Err(f);
                    },
                };
                self.write_register(dest, v)
            },
        }
    }

    /// Runs the machine until the instruction pointer passes the end of
    /// the stored sequence, or an instruction faults. The caller owes a
    /// run that stops; the loop's termination measure is the number of
    /// iterations the stopping run still has before it.
    pub fn run(&mut self) -> (res: Result<(), Fault>)
        requires
            old(self)@.wf(),
            halts(old(self)@),
        ensures
            final(self)@.wf(),
            res is Ok ==> exists|n: nat|
                run_spec(old(self)@, n) == RunOutcome::Done(final(self)@),
            res matches Err(f) ==> exists|n: nat|
                run_spec(old(self)@, n) == RunOutcome::Faulted(final(self)@, f),
    {
        let ghost m0 = self@;
        let ghost bound = choose|n: nat|
            !(#[trigger] run_spec(m0, n) matches RunOutcome::Running(m1));
        let ghost mut steps: nat = 0nat;
        proof {
            assert(run_spec(m0, 0) == RunOutcome::Running(m0));
        }
        loop
            invariant
                m0 == old(self)@,
                self@.wf(),
                run_spec(m0, steps) == RunOutcome::Running(self@),
                !(run_spec(m0, bound) matches RunOutcome::Running(m1)),
                steps < bound,
            decreases bound - steps,
        {
            let ip = self.instruction_pointer;
            if ip as usize >= self.instructions.len() {
                proof {
                    lemma_run_spec_extend(m0, steps, 1);
                    assert(run_spec(self@, 1) == RunOutcome::Done(self@));
                    assert(run_spec(m0, steps + 1) == RunOutcome::Done(self@));
                }
                return Ok(());
            }
            let instruction = self.instructions[ip as usize];
            let ghost pre = self@;
            match self.handle_instruction(instruction) {
                Err(f) => {
                    proof {
                        lemma_run_spec_extend(m0, steps, 1);
                        assert(run_spec(pre, 1) == RunOutcome::Faulted(pre, f));
                        assert(run_spec(m0, steps + 1) == RunOutcome::Faulted(self@, f));
                    }
                    return Err(f);
                },
                Ok(_) => {
                    proof {
                        lemma_step_spec_wf(pre, instruction);
                    }
                    if self.instruction_pointer == u32::MAX {
                        self.instruction_pointer = 0;
                    } else {
                        self.instruction_pointer = self.instruction_pointer + 1;
                    }
                    proof {
                        lemma_run_spec_extend(m0, steps, 1);
                        let m2 = step_spec(pre, instruction)->Ok_0;
                        let bumped = MachineView {
                            instruction_pointer: wrap_inc(m2.instruction_pointer),
                            ..m2
                        };
                        assert(run_spec(pre, 1) == run_spec(bumped, 0));
                        assert(run_spec(bumped, 0) == RunOutcome::Running(bumped));
                        assert(self@ =~= bumped);
                        steps = steps + 1;
                        assert(run_spec(m0, steps) == RunOutcome::Running(self@));
                    }
                },
            }
        }
    }

    /// Builds a machine for the given instructions and runs it to
    /// completion, returning the stopped machine, or the fault that ended
    /// the run.
    pub fn run_instruction(instructions: Vec<Instruction>) -> (res: Result<VirtualMachine, Fault>)
        requires
            instructions@.len() < u32::MAX,
            halts(initial_machine(instructions@)),
        ensures
            res matches Ok(vm) ==> vm@.wf() && exists|n: nat|
                run_spec(initial_machine(instructions@), n) == RunOutcome::Done(vm@),
            res matches Err(f) ==> exists|n: nat, m: MachineView|
                run_spec(initial_machine(instructions@), n) == RunOutcome::Faulted(m, f),
    {
        let mut vm = VirtualMachine::new(instructions);
        match vm.run() {
            Ok(_) => Ok(vm),
            Err(f) => Err(f),
        }
    }

    /// Builds a machine from a program: the fresh state for the program's
    /// instructions, with each string literal's raw UTF-8 bytes written
    /// into memory from offset 0, concatenated with no separators. Fails
    /// with `StringOverflow` exactly when the bytes together exceed the
    /// static-string budget.
    pub fn from_program(program: Program) -> (res: Result<VirtualMachine, Fault>)
        requires
            program@.instructions.len() < u32::MAX,
        ensures
            res is Ok <==> strings_bytes(program@.strings).len() <= STATIC_STRING_MEMORY_SIZE,
            res matches Ok(vm) ==> vm@ == loaded_machine(program@) && vm@.wf(),
            res matches Err(f) ==> f == Fault::StringOverflow,
    {
        let ghost pv = program@;
        let Program { instructions, strings } = program;
        let mut buf: Vec<u8> = Vec::new();
        let mut i: usize = 0;
        while i < strings.len()
            invariant
                i <= strings@.len(),
                pv.strings.len() == strings@.len(),
                forall|t: int| 0 <= t < strings@.len() ==> pv.strings[t] == strings@[t]@,
                buf@ == strings_bytes(pv.strings.take(i as int)),
            decreases strings@.len() - i,
        {
            let bs = strings[i].as_str().as_bytes();
            let ghost before = buf@;
            let mut j: usize = 0;
            while j < bs.len()
                invariant
                    j <= bs@.len(),
                    bs@ == encode_utf8(pv.strings[i as int]),
                    i < pv.strings.len(),
                    buf@ == before + bs@.take(j as int),
                decreases bs@.len() - j,
            {
                buf.push(bs[j]);
                proof {
                    assert(buf@ =~= before + bs@.take(j as int + 1));
                }
                j += 1;
            }
            proof {
                assert(bs@.take(bs@.len() as int) =~= bs@);
                assert(pv.strings.take(i as int + 1).drop_last() =~= pv.strings.take(i as int));
                assert(pv.strings.take(i as int + 1).last() == pv.strings[i as int]);
                assert(buf@ == strings_bytes(pv.strings.take(i as int + 1)));
            }
            i += 1;
        }
        proof {
            assert(pv.strings.take(pv.strings.len() as int) =~= pv.strings);
        }
        if buf.len() > STATIC_STRING_MEMORY_SIZE {
            return Err(Fault::StringOverflow);
        }
        let mut vm = VirtualMachine::new(instructions);
        let mut k: usize = 0;
        while k < buf.len()
            invariant
                k <= buf@.len(),
                buf@.len() <= MEMORY_SIZE,
                buf@ == strings_bytes(pv.strings),
                vm@.memory.len() == MEMORY_SIZE,
                vm@.registers == initial_machine(pv.instructions).registers,
                vm@.instruction_pointer == 0u32,
                vm@.instructions == initial_machine(pv.instructions).instructions,
                forall|t: int| 0 <= t < k ==> vm@.memory[t] == buf@[t],
                forall|t: int| k <= t < MEMORY_SIZE ==> vm@.memory[t] == 0u8,
            decreases buf@.len() - k,
        {
            vm.memory[k] = buf[k];
            k += 1;
        }
        proof {
            assert(vm@.memory =~= loaded_machine(pv).memory);
            assert(vm@ =~= loaded_machine(pv));
        }
        Ok(vm)
    }
}

/// A jump resumes one past its destination: executing `Jump { dest }`
/// sets the pointer to `dest`, and the loop's unconditional post-execution
/// increment then applies, so the run continues exactly as if started at
/// stored index `dest + 1` — for any machine, destination and fuel. With
/// the implicit leading `Nop`, stored index `dest + 1` holds the
/// instruction authored at absolute index `dest`.
pub proof fn lemma_jump_resumes_past_destination(m: MachineView, dest: u32, fuel: nat)
    requires
        m.instruction_pointer < m.instructions.len(),
        m.instructions[m.instruction_pointer as int] == (Instruction::Jump { dest }),
        dest < u32::MAX,
        fuel > 0,
    ensures
        run_spec(m, fuel) == run_spec(
            MachineView { instruction_pointer: (dest + 1) as u32, ..m },
            (fuel - 1) as nat,
        ),
{
    assert(step_spec(m, (Instruction::Jump { dest })) == Ok::<MachineView, Fault>(
        MachineView { instruction_pointer: dest, ..m },
    ));
    assert(MachineView {
        instruction_pointer: wrap_inc(dest),
        ..(MachineView { instruction_pointer: dest, ..m })
    } =~= MachineView { instruction_pointer: (dest + 1) as u32, ..m });
}

/// Storing a 32-bit value at an address and then loading from the same
/// address yields the stored value, for any address whose 4-byte window
/// lies inside memory.
pub proof fn lemma_store_load_round_trip(m: MachineView, addr: u32, v: u32, dest: u8)
    requires
        m.wf(),
        addr + 3 < m.memory.len(),
        (dest as int) < m.registers.len(),
    ensures
        step_spec(m, (Instruction::Store { dest: Value::Immediate(addr), value: Value::Immediate(v) }))
            matches Ok(m2) && step_spec(m2, (Instruction::LoadMemory { dest, value: Value::Immediate(addr) }))
            matches Ok(m3) && m3.registers[dest as int] == v,
{
    lemma_le_bytes_round_trip(v);
}

} // verus!
