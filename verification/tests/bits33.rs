use bits33::arith::{eval_bit_op, eval_cmp_op, eval_math_op, BitOp, CmpOp, MathOp};
use bits33::codec::{decode, encode, encode_decode, DecodeError};
use bits33::fault::Fault;
use bits33::instructions::{Instruction, Op1, Op2, Op2wTypes, OpType, Value};
use bits33::parser::{parse, AsmError, ParseErrorKind};
use bits33::program::Program;
use bits33::virtual_machine::VirtualMachine;

// ----- typed arithmetic -----

#[test]
fn add_unsigned_wraps_modulo() {
    assert_eq!(
        eval_math_op(MathOp::Add, OpType::UnsignedInt, u32::MAX, 2),
        Ok(1)
    );
    assert_eq!(eval_math_op(MathOp::Add, OpType::UnsignedInt, 3, 4), Ok(7));
}

#[test]
fn add_int_is_twos_complement_wraparound() {
    let a = i32::MAX as u32;
    assert_eq!(
        eval_math_op(MathOp::Add, OpType::Int, a, 1),
        Ok((i32::MAX).wrapping_add(1) as u32)
    );
    let minus_two = -2i32 as u32;
    assert_eq!(
        eval_math_op(MathOp::Add, OpType::Int, minus_two, 5),
        Ok(3)
    );
}

#[test]
fn add_float_is_ieee_sum_bits() {
    let a = 1.5f32.to_bits();
    let b = 2.25f32.to_bits();
    assert_eq!(
        eval_math_op(MathOp::Add, OpType::Float, a, b),
        Ok((1.5f32 + 2.25f32).to_bits())
    );
}

#[test]
fn sub_and_mul_match_each_reinterpretation() {
    assert_eq!(
        eval_math_op(MathOp::Sub, OpType::UnsignedInt, 3, 5),
        Ok(3u32.wrapping_sub(5))
    );
    assert_eq!(
        eval_math_op(MathOp::Sub, OpType::Int, (-3i32) as u32, (-5i32) as u32),
        Ok(2)
    );
    assert_eq!(
        eval_math_op(MathOp::Mul, OpType::Int, (-3i32) as u32, 5),
        Ok((-15i32) as u32)
    );
    assert_eq!(
        eval_math_op(MathOp::Mul, OpType::UnsignedInt, 0x1000_0000, 16),
        Ok(0)
    );
    let a = 0.5f32.to_bits();
    let b = 8.0f32.to_bits();
    assert_eq!(
        eval_math_op(MathOp::Mul, OpType::Float, a, b),
        Ok(4.0f32.to_bits())
    );
}

#[test]
fn div_truncates_toward_zero() {
    assert_eq!(eval_math_op(MathOp::Div, OpType::UnsignedInt, 7, 2), Ok(3));
    assert_eq!(
        eval_math_op(MathOp::Div, OpType::Int, (-7i32) as u32, 2),
        Ok((-3i32) as u32)
    );
    assert_eq!(
        eval_math_op(MathOp::Div, OpType::Int, 7, (-2i32) as u32),
        Ok((-3i32) as u32)
    );
    let a = 1.0f32.to_bits();
    let b = 4.0f32.to_bits();
    assert_eq!(
        eval_math_op(MathOp::Div, OpType::Float, a, b),
        Ok(0.25f32.to_bits())
    );
}

#[test]
fn div_minimum_by_minus_one_wraps() {
    assert_eq!(
        eval_math_op(MathOp::Div, OpType::Int, i32::MIN as u32, (-1i32) as u32),
        Ok(i32::MIN as u32)
    );
}

#[test]
fn modulo_follows_the_dividend_sign() {
    assert_eq!(eval_math_op(MathOp::Mod, OpType::UnsignedInt, 7, 4), Ok(3));
    assert_eq!(
        eval_math_op(MathOp::Mod, OpType::Int, (-7i32) as u32, 4),
        Ok((-3i32) as u32)
    );
    assert_eq!(
        eval_math_op(MathOp::Mod, OpType::Int, 7, (-4i32) as u32),
        Ok(3)
    );
    let a = 7.5f32.to_bits();
    let b = 2.0f32.to_bits();
    assert_eq!(
        eval_math_op(MathOp::Mod, OpType::Float, a, b),
        Ok((7.5f32 % 2.0f32).to_bits())
    );
}

#[test]
fn integer_division_by_zero_is_a_fault() {
    assert_eq!(
        eval_math_op(MathOp::Div, OpType::UnsignedInt, 5, 0),
        Err(Fault::DivisionByZero)
    );
    assert_eq!(
        eval_math_op(MathOp::Div, OpType::Int, 5, 0),
        Err(Fault::DivisionByZero)
    );
    assert_eq!(
        eval_math_op(MathOp::Mod, OpType::UnsignedInt, 5, 0),
        Err(Fault::DivisionByZero)
    );
    assert_eq!(
        eval_math_op(MathOp::Mod, OpType::Int, 5, 0),
        Err(Fault::DivisionByZero)
    );
}

#[test]
fn float_division_by_zero_is_infinity_not_a_fault() {
    let a = 1.0f32.to_bits();
    let b = 0.0f32.to_bits();
    assert_eq!(
        eval_math_op(MathOp::Div, OpType::Float, a, b),
        Ok(f32::INFINITY.to_bits())
    );
}

// ----- typed comparisons -----

#[test]
fn comparisons_store_exactly_one_or_zero() {
    assert_eq!(eval_cmp_op(CmpOp::GreaterThan, OpType::UnsignedInt, 5, 3), 1);
    assert_eq!(eval_cmp_op(CmpOp::LessThan, OpType::UnsignedInt, 5, 3), 0);
    assert_eq!(
        eval_cmp_op(CmpOp::GreaterThanOrEqual, OpType::UnsignedInt, 3, 3),
        1
    );
    assert_eq!(eval_cmp_op(CmpOp::LessThanOrEqual, OpType::UnsignedInt, 3, 4), 1);
}

#[test]
fn signed_comparison_respects_the_sign_bit() {
    let minus_one = (-1i32) as u32;
    assert_eq!(eval_cmp_op(CmpOp::LessThan, OpType::Int, minus_one, 1), 1);
    assert_eq!(
        eval_cmp_op(CmpOp::LessThan, OpType::UnsignedInt, minus_one, 1),
        0
    );
    assert_eq!(eval_cmp_op(CmpOp::GreaterThan, OpType::Int, 1, minus_one), 1);
}

#[test]
fn float_comparison_uses_the_numeric_order() {
    let small = 2.5f32.to_bits();
    let big = 10.0f32.to_bits();
    assert_eq!(eval_cmp_op(CmpOp::LessThan, OpType::Float, small, big), 1);
    assert_eq!(eval_cmp_op(CmpOp::GreaterThanOrEqual, OpType::Float, small, big), 0);
    let neg = (-1.0f32).to_bits();
    let pos = 1.0f32.to_bits();
    assert_eq!(eval_cmp_op(CmpOp::LessThan, OpType::Float, neg, pos), 1);
}

// ----- untyped operations -----

#[test]
fn untyped_ops_act_on_raw_patterns() {
    assert_eq!(eval_bit_op(BitOp::And, 0b1100, 0b1010), 0b1000);
    assert_eq!(eval_bit_op(BitOp::Or, 0b1100, 0b1010), 0b1110);
    assert_eq!(eval_bit_op(BitOp::Xor, 0b1100, 0b1010), 0b0110);
    assert_eq!(eval_bit_op(BitOp::ShiftLeft, 1, 4), 16);
    assert_eq!(eval_bit_op(BitOp::ShiftRight, 0x80, 3), 0x10);
    assert_eq!(eval_bit_op(BitOp::Equal, 7, 7), 1);
    assert_eq!(eval_bit_op(BitOp::Equal, 7, 8), 0);
    assert_eq!(eval_bit_op(BitOp::NotEqual, 7, 8), 1);
    assert_eq!(eval_bit_op(BitOp::NotEqual, 7, 7), 0);
}

#[test]
fn oversized_shifts_shift_everything_out() {
    assert_eq!(eval_bit_op(BitOp::ShiftLeft, 1, 32), 0);
    assert_eq!(eval_bit_op(BitOp::ShiftRight, u32::MAX, 35), 0);
}

// ----- assembler -----

#[test]
fn mov_assembles_to_one_move_instruction() {
    let code = String::from("mov r0, 32");
    let instructions = parse(&code).unwrap();
    assert_eq!(
        instructions,
        vec![Instruction::Move {
            dest: 0,
            value: Value::Immediate(32)
        }]
    );
}

#[test]
fn each_mnemonic_shape_assembles() {
    let code = String::from(
        "nop\n\
         add r1, i32, r2, -3\n\
         and r0, r1, 7\n\
         not r2, r3\n\
         jmp 4\n\
         jiz 1, r0\n\
         jnz 2, 5\n\
         load r1, 8\n\
         store 12, r1\n\
         mov r7, 2.5",
    );
    let instructions = parse(&code).unwrap();
    assert_eq!(instructions.len(), 10);
    assert_eq!(instructions[0], Instruction::Nop);
    assert_eq!(
        instructions[1],
        Instruction::Add {
            op: Op2wTypes {
                lhs: Value::Register(2),
                rhs: Value::Immediate((-3i32) as u32),
                dest: 1,
                op_type: OpType::Int
            }
        }
    );
    assert_eq!(
        instructions[2],
        Instruction::And {
            op: Op2 {
                lhs: Value::Register(1),
                rhs: Value::Immediate(7),
                dest: 0
            }
        }
    );
    assert_eq!(
        instructions[3],
        Instruction::Not {
            op: Op1 {
                value: Value::Register(3),
                dest: 2
            }
        }
    );
    assert_eq!(instructions[4], Instruction::Jump { dest: 4 });
    assert_eq!(
        instructions[5],
        Instruction::JumpIfZero {
            dest: 1,
            condition: Value::Register(0)
        }
    );
    assert_eq!(
        instructions[6],
        Instruction::JumpIfNotZero {
            dest: 2,
            condition: Value::Immediate(5)
        }
    );
    assert_eq!(
        instructions[7],
        Instruction::LoadMemory {
            dest: 1,
            value: Value::Immediate(8)
        }
    );
    assert_eq!(
        instructions[8],
        Instruction::Store {
            dest: Value::Immediate(12),
            value: Value::Register(1)
        }
    );
    assert_eq!(
        instructions[9],
        Instruction::Move {
            dest: 7,
            value: Value::Immediate(2.5f32.to_bits())
        }
    );
}

#[test]
fn float_literal_stores_binary32_bits() {
    let code = String::from("mov r0, 3.25");
    let instructions = parse(&code).unwrap();
    assert_eq!(
        instructions,
        vec![Instruction::Move {
            dest: 0,
            value: Value::Immediate(3.25f32.to_bits())
        }]
    );
}

#[test]
fn empty_source_assembles_to_nothing() {
    assert_eq!(parse(&String::new()).unwrap(), vec![]);
    assert_eq!(parse(&String::from("\n  \n")).unwrap(), vec![]);
}

#[test]
fn invalid_type_tag_is_reported_with_its_line() {
    let code = String::from("nop\nadd r0, x32, 1, 2");
    assert_eq!(
        parse(&code),
        Err(AsmError::Parse {
            line: 2,
            token_start: 8,
            token_end: 11,
            kind: ParseErrorKind::InvalidOpType
        })
    );
}

#[test]
fn unknown_mnemonic_is_an_error() {
    assert_eq!(
        parse(&String::from("frob r0, 1")),
        Err(AsmError::Parse {
            line: 1,
            token_start: 0,
            token_end: 4,
            kind: ParseErrorKind::UnknownMnemonic
        })
    );
}

#[test]
fn wrong_operand_kind_is_an_error() {
    assert_eq!(
        parse(&String::from("mov 5, r0")),
        Err(AsmError::Parse {
            line: 1,
            token_start: 4,
            token_end: 5,
            kind: ParseErrorKind::BadOperand
        })
    );
}

#[test]
fn wrong_operand_count_is_an_error() {
    assert_eq!(
        parse(&String::from("mov r0")),
        Err(AsmError::Parse {
            line: 1,
            token_start: 0,
            token_end: 3,
            kind: ParseErrorKind::WrongOperandCount
        })
    );
}

#[test]
fn register_index_past_byte_range_is_an_error() {
    assert_eq!(
        parse(&String::from("mov r256, 1")),
        Err(AsmError::Parse {
            line: 1,
            token_start: 4,
            token_end: 8,
            kind: ParseErrorKind::IntegerOutOfRange
        })
    );
}

#[test]
fn oversized_integer_literal_is_an_error() {
    assert_eq!(
        parse(&String::from("mov r0, 4294967296")),
        Err(AsmError::Parse {
            line: 1,
            token_start: 8,
            token_end: 18,
            kind: ParseErrorKind::IntegerOutOfRange
        })
    );
}

#[test]
fn symbolic_jump_target_is_unimplemented() {
    assert_eq!(
        parse(&String::from("jmp loop_start")),
        Err(AsmError::Unimplemented { line: 1 })
    );
}

#[test]
fn no_partial_program_after_a_bad_line() {
    let code = String::from("mov r0, 1\nbogus\nmov r1, 2");
    assert!(parse(&code).is_err());
}

// ----- binary codec -----

fn sample_program() -> Program {
    Program {
        instructions: vec![
            Instruction::Nop,
            Instruction::Add {
                op: Op2wTypes {
                    lhs: Value::Register(1),
                    rhs: Value::Immediate(0xdead_beef),
                    dest: 2,
                    op_type: OpType::Float,
                },
            },
            Instruction::ShiftRight {
                op: Op2 {
                    lhs: Value::Immediate(64),
                    rhs: Value::Immediate(3),
                    dest: 7,
                },
            },
            Instruction::Not {
                op: Op1 {
                    value: Value::Register(0),
                    dest: 1,
                },
            },
            Instruction::Jump { dest: 9 },
            Instruction::JumpIfZero {
                dest: 2,
                condition: Value::Register(3),
            },
            Instruction::JumpIfNotZero {
                dest: 3,
                condition: Value::Immediate(1),
            },
            Instruction::LoadMemory {
                dest: 4,
                value: Value::Immediate(8),
            },
            Instruction::Store {
                dest: Value::Immediate(0),
                value: Value::Register(4),
            },
            Instruction::Move {
                dest: 5,
                value: Value::Immediate(77),
            },
        ],
        strings: vec![String::from("ab"), String::from("cd")],
    }
}

#[test]
fn encode_then_decode_round_trips() {
    let program = sample_program();
    let bytes = encode(&program).unwrap();
    let back = decode(&bytes).unwrap();
    assert_eq!(back.instructions, program.instructions);
    assert_eq!(back.strings, program.strings);
}

#[test]
fn encode_decode_helper_round_trips() {
    let program = sample_program();
    let back = encode_decode(&program).unwrap();
    assert_eq!(back.instructions, program.instructions);
    assert_eq!(back.strings, program.strings);
}

#[test]
fn unknown_tag_fails_decoding() {
    let program = Program {
        instructions: vec![Instruction::Nop],
        strings: vec![],
    };
    let mut bytes = encode(&program).unwrap();
    // The instruction tag sits right after the 4-byte count.
    bytes[4] = 99;
    assert!(matches!(decode(&bytes), Err(DecodeError::UnknownTag)));
}

#[test]
fn truncated_stream_fails_decoding() {
    let program = sample_program();
    let mut bytes = encode(&program).unwrap();
    bytes.truncate(bytes.len() - 1);
    assert!(matches!(decode(&bytes), Err(DecodeError::Truncated)));
}

#[test]
fn trailing_bytes_fail_decoding() {
    let program = sample_program();
    let mut bytes = encode(&program).unwrap();
    bytes.push(0);
    assert!(matches!(decode(&bytes), Err(DecodeError::TrailingBytes)));
}

// ----- virtual machine -----

#[test]
fn mov_runs_end_to_end() {
    let code = String::from("mov r0, 32");
    let instructions = parse(&code).unwrap();
    let vm = VirtualMachine::run_instruction(instructions).unwrap();
    assert_eq!(vm.register(0), 32);
    for i in 1..8 {
        assert_eq!(vm.register(i), 0);
    }
}

#[test]
fn jump_lands_one_past_its_destination() {
    let code = String::from("jmp 2\nmov r0, 10\nmov r1, 20\nmov r2, 30");
    let instructions = parse(&code).unwrap();
    let vm = VirtualMachine::run_instruction(instructions).unwrap();
    // The implicit leading Nop and the post-execution increment together
    // make the instruction executed after `jmp 2` the one at stored
    // index 3: `mov r0, 10` is skipped.
    assert_eq!(vm.register(0), 0);
    assert_eq!(vm.register(1), 20);
    assert_eq!(vm.register(2), 30);
}

#[test]
fn conditional_jumps_test_their_condition() {
    let code = String::from("jiz 2, 0\nmov r0, 1\nmov r1, 2");
    let instructions = parse(&code).unwrap();
    let vm = VirtualMachine::run_instruction(instructions).unwrap();
    assert_eq!(vm.register(0), 0);
    assert_eq!(vm.register(1), 2);

    let code = String::from("jnz 2, 0\nmov r0, 1\nmov r1, 2");
    let instructions = parse(&code).unwrap();
    let vm = VirtualMachine::run_instruction(instructions).unwrap();
    assert_eq!(vm.register(0), 1);
    assert_eq!(vm.register(1), 2);
}

#[test]
fn store_then_load_round_trips_through_memory() {
    let code = String::from("mov r0, 305419896\nstore 12, r0\nload r1, 12");
    let instructions = parse(&code).unwrap();
    let vm = VirtualMachine::run_instruction(instructions).unwrap();
    assert_eq!(vm.register(1), 0x12345678);
    // Little-endian bytes in memory.
    assert_eq!(vm.memory_byte(12), 0x78);
    assert_eq!(vm.memory_byte(13), 0x56);
    assert_eq!(vm.memory_byte(14), 0x34);
    assert_eq!(vm.memory_byte(15), 0x12);
}

#[test]
fn typed_arithmetic_runs_in_the_machine() {
    let code = String::from("add r0, u32, 30, 12\nsub r1, i32, 3, 5");
    let instructions = parse(&code).unwrap();
    let vm = VirtualMachine::run_instruction(instructions).unwrap();
    assert_eq!(vm.register(0), 42);
    assert_eq!(vm.register(1), (-2i32) as u32);
}

#[test]
fn division_by_zero_faults_the_run() {
    let instructions = vec![Instruction::Div {
        op: Op2wTypes {
            lhs: Value::Immediate(5),
            rhs: Value::Immediate(0),
            dest: 0,
            op_type: OpType::UnsignedInt,
        },
    }];
    assert!(matches!(
        VirtualMachine::run_instruction(instructions),
        Err(Fault::DivisionByZero)
    ));
}

#[test]
fn out_of_range_memory_access_faults_the_run() {
    let instructions = vec![Instruction::Store {
        dest: Value::Immediate(30),
        value: Value::Immediate(1),
    }];
    assert!(matches!(
        VirtualMachine::run_instruction(instructions),
        Err(Fault::MemoryOutOfBounds)
    ));
}

#[test]
fn out_of_range_register_faults_the_run() {
    let instructions = vec![Instruction::Move {
        dest: 8,
        value: Value::Immediate(1),
    }];
    assert!(matches!(
        VirtualMachine::run_instruction(instructions),
        Err(Fault::RegisterOutOfBounds)
    ));
}

#[test]
fn strings_preload_into_memory() {
    let program = Program {
        instructions: vec![],
        strings: vec![String::from("ab"), String::from("cd")],
    };
    let vm = VirtualMachine::from_program(program).unwrap();
    assert_eq!(vm.memory_byte(0), b'a');
    assert_eq!(vm.memory_byte(1), b'b');
    assert_eq!(vm.memory_byte(2), b'c');
    assert_eq!(vm.memory_byte(3), b'd');
    assert_eq!(vm.memory_byte(4), 0);
}

#[test]
fn oversized_string_table_overflows() {
    let program = Program {
        instructions: vec![],
        strings: vec![String::from_utf8(vec![b'x'; 33]).unwrap()],
    };
    assert!(matches!(
        VirtualMachine::from_program(program),
        Err(Fault::StringOverflow)
    ));
}

#[test]
fn a_full_memory_of_strings_still_loads() {
    let program = Program {
        instructions: vec![],
        strings: vec![String::from_utf8(vec![b'y'; 32]).unwrap()],
    };
    let vm = VirtualMachine::from_program(program).unwrap();
    assert_eq!(vm.memory_byte(31), b'y');
}

#[test]
fn assembled_program_survives_the_whole_pipeline() {
    let code = String::from("add r0, u32, 20, 22\nstore 0, r0\nload r3, 0");
    let instructions = parse(&code).unwrap();
    let program = Program {
        instructions,
        strings: vec![],
    };
    let bytes = encode(&program).unwrap();
    let back = decode(&bytes).unwrap();
    let vm = VirtualMachine::from_program(back).unwrap();
    let mut vm = vm;
    vm.run().unwrap();
    assert_eq!(vm.register(0), 42);
    assert_eq!(vm.register(3), 42);
}

#[test]
fn sub_float_is_ieee_difference_bits() {
    let a = 2.25f32.to_bits();
    let b = 1.5f32.to_bits();
    assert_eq!(
        eval_math_op(MathOp::Sub, OpType::Float, a, b),
        Ok(0.75f32.to_bits())
    );
}

#[test]
fn float_comparisons_cover_every_operator() {
    let small = 1.0f32.to_bits();
    let big = 2.0f32.to_bits();
    assert_eq!(eval_cmp_op(CmpOp::GreaterThan, OpType::Float, big, small), 1);
    assert_eq!(eval_cmp_op(CmpOp::GreaterThan, OpType::Float, small, big), 0);
    assert_eq!(eval_cmp_op(CmpOp::LessThanOrEqual, OpType::Float, small, small), 1);
    assert_eq!(eval_cmp_op(CmpOp::GreaterThanOrEqual, OpType::Float, big, big), 1);
}

#[test]
fn bad_value_discriminant_fails_decoding() {
    // count 1, tag 23 (move), dest 0, then discriminant 7.
    let bytes = vec![1, 0, 0, 0, 23, 0, 7, 0, 0, 0, 0];
    assert!(matches!(decode(&bytes), Err(DecodeError::BadValueKind)));
}

#[test]
fn bad_op_type_byte_fails_decoding() {
    // count 1, tag 1 (add), two immediate operands, dest 0, op type 9.
    let bytes = vec![
        1, 0, 0, 0, 1, 1, 0, 0, 0, 0, 1, 0, 0, 0, 0, 0, 9,
    ];
    assert!(matches!(decode(&bytes), Err(DecodeError::BadOpType)));
}

#[test]
fn invalid_utf8_string_payload_fails_decoding() {
    // no instructions, one string of one byte that is not valid UTF-8.
    let bytes = vec![0, 0, 0, 0, 1, 0, 0, 0, 1, 0, 0, 0, 0xff];
    assert!(matches!(decode(&bytes), Err(DecodeError::BadStringPayload)));
}

#[test]
fn operands_evaluate_against_the_register_file() {
    let mut vm = VirtualMachine::new(vec![]);
    assert_eq!(vm.evaluate_value(Value::Immediate(5)), Ok(5));
    assert_eq!(vm.evaluate_value(Value::Register(3)), Ok(0));
    assert!(matches!(
        vm.evaluate_value(Value::Register(8)),
        Err(Fault::RegisterOutOfBounds)
    ));
    vm.handle_instruction(Instruction::Move {
        dest: 3,
        value: Value::Immediate(9),
    })
    .unwrap();
    assert_eq!(vm.evaluate_value(Value::Register(3)), Ok(9));
}

#[test]
fn the_diagnostic_span_names_the_offending_token() {
    let code = String::from("nop\nadd r0, x32, 1, 2");
    match parse(&code) {
        Err(AsmError::Parse {
            line,
            token_start,
            token_end,
            kind,
        }) => {
            assert_eq!(line, 2);
            assert_eq!(kind, ParseErrorKind::InvalidOpType);
            let src_line = code.lines().nth(line - 1).unwrap();
            assert_eq!(&src_line[token_start..token_end], "x32");
        }
        other => panic!("expected a parse error, got {other:?}"),
    }
}
