//! The numeric heart of the machine: every arithmetic, comparison and
//! bitwise operation on 32-bit words, under each of the three
//! reinterpretations (`Float`, `Int`, `UnsignedInt`).
//!
//! All words are raw `u32` patterns. The signed operations are defined over
//! the two's-complement reading `as_signed` and reduce their mathematical
//! result modulo 2^32 (wraparound); the unsigned operations are modular
//! directly; the float operations are the IEEE-754 binary32 operations on
//! the patterns, named in `floats`.
use vstd::prelude::*;
use vstd::arithmetic::div_mod::{
    lemma_fundamental_div_mod,
    lemma_mod_multiples_vanish,
    lemma_mul_mod_noop_general,
    lemma_small_mod,
};
use crate::fault::Fault;
use crate::floats::{
    float_add, float_add_bits, float_div, float_div_bits, float_ge, float_greater_equal,
    float_greater_than, float_gt, float_le, float_less_equal, float_less_than, float_lt,
    float_mul, float_mul_bits, float_rem, float_rem_bits, float_sub, float_sub_bits,
};
use crate::instructions::OpType;

verus! {

/// A typed binary arithmetic operation.
#[derive(Clone, Copy, Debug, PartialEq, Eq, Structural)]
pub enum MathOp {
    Add,
    Sub,
    Mul,
    Div,
    Mod,
}

/// A typed comparison operation.
#[derive(Clone, Copy, Debug, PartialEq, Eq, Structural)]
pub enum CmpOp {
    GreaterThanOrEqual,
    LessThanOrEqual,
    GreaterThan,
    LessThan,
}

/// An untyped (raw unsigned 32-bit) binary operation.
#[derive(Clone, Copy, Debug, PartialEq, Eq, Structural)]
pub enum BitOp {
    And,
    Or,
    Xor,
    ShiftLeft,
    ShiftRight,
    Equal,
    NotEqual,
}

/// The two's-complement signed reading of a 32-bit pattern.
pub open spec fn as_signed(a: u32) -> int {
    if a < 0x8000_0000 {
        a as int
    } else {
        a - 0x1_0000_0000
    }
}

/// The 32-bit pattern of an integer, reduced modulo 2^32.
pub open spec fn to_bits32(x: int) -> u32 {
    (x % 0x1_0000_0000) as u32
}

pub open spec fn abs_int(x: int) -> int {
    if x >= 0 {
        x
    } else {
        -x
    }
}

/// Division truncating toward zero, as two's-complement division performs
/// it (the spec-level `/` on `int` rounds toward negative infinity).
pub open spec fn trunc_div(x: int, y: int) -> int {
    if (x >= 0) == (y >= 0) {
        abs_int(x) / abs_int(y)
    } else {
        -(abs_int(x) / abs_int(y))
    }
}

/// The remainder matching `trunc_div`: its sign follows the dividend.
pub open spec fn trunc_rem(x: int, y: int) -> int {
    x - y * trunc_div(x, y)
}

/// What a typed binary arithmetic instruction stores: the operand patterns
/// reinterpreted per `t`, combined by `op`, and re-encoded. Integer
/// division or modulo by zero is a fault; float operations never fault.
pub open spec fn math_op_spec(op: MathOp, t: OpType, a: u32, b: u32) -> Result<u32, Fault> {
    match t {
        OpType::UnsignedInt => match op {
            MathOp::Add => Ok(to_bits32(a + b)),
            MathOp::Sub => Ok(to_bits32(a - b)),
            MathOp::Mul => Ok(to_bits32(a * b)),
            MathOp::Div => if b == 0 {
                Err(Fault::DivisionByZero)
            } else {
                Ok((a as int / b as int) as u32)
            },
            MathOp::Mod => if b == 0 {
                Err(Fault::DivisionByZero)
            } else {
                Ok((a as int % b as int) as u32)
            },
        },
        OpType::Int => match op {
            MathOp::Add => Ok(to_bits32(as_signed(a) + as_signed(b))),
            MathOp::Sub => Ok(to_bits32(as_signed(a) - as_signed(b))),
            MathOp::Mul => Ok(to_bits32(as_signed(a) * as_signed(b))),
            MathOp::Div => if b == 0 {
                Err(Fault::DivisionByZero)
            } else {
                Ok(to_bits32(trunc_div(as_signed(a), as_signed(b))))
            },
            MathOp::Mod => if b == 0 {
                Err(Fault::DivisionByZero)
            } else {
                Ok(to_bits32(trunc_rem(as_signed(a), as_signed(b))))
            },
        },
        OpType::Float => match op {
            MathOp::Add => Ok(float_add_bits(a, b)),
            MathOp::Sub => Ok(float_sub_bits(a, b)),
            MathOp::Mul => Ok(float_mul_bits(a, b)),
            MathOp::Div => Ok(float_div_bits(a, b)),
            MathOp::Mod => Ok(float_rem_bits(a, b)),
        },
    }
}

/// What a typed comparison instruction stores: exactly 1 when the
/// comparison holds under the chosen reinterpretation, else exactly 0.
pub open spec fn cmp_op_spec(op: CmpOp, t: OpType, a: u32, b: u32) -> u32 {
    let holds = match t {
        OpType::UnsignedInt => match op {
            CmpOp::GreaterThanOrEqual => a >= b,
            CmpOp::LessThanOrEqual => a <= b,
            CmpOp::GreaterThan => a > b,
            CmpOp::LessThan => a < b,
        },
        OpType::Int => match op {
            CmpOp::GreaterThanOrEqual => as_signed(a) >= as_signed(b),
            CmpOp::LessThanOrEqual => as_signed(a) <= as_signed(b),
            CmpOp::GreaterThan => as_signed(a) > as_signed(b),
            CmpOp::LessThan => as_signed(a) < as_signed(b),
        },
        OpType::Float => match op {
            CmpOp::GreaterThanOrEqual => float_ge(a, b),
            CmpOp::LessThanOrEqual => float_le(a, b),
            CmpOp::GreaterThan => float_gt(a, b),
            CmpOp::LessThan => float_lt(a, b),
        },
    };
    if holds {
        1u32
    } else {
        0u32
    }
}

/// What an untyped binary instruction stores: raw unsigned bitwise and
/// shift operations on the patterns; `Equal`/`NotEqual` store 1 or 0. A
/// shift by 32 or more shifts every bit out and leaves 0.
pub open spec fn bit_op_spec(op: BitOp, a: u32, b: u32) -> u32 {
    match op {
        BitOp::And => a & b,
        BitOp::Or => a | b,
        BitOp::Xor => a ^ b,
        BitOp::ShiftLeft => if b < 32 {
            a << b
        } else {
            0u32
        },
        BitOp::ShiftRight => if b < 32 {
            a >> b
        } else {
            0u32
        },
        BitOp::Equal => if a == b {
            1u32
        } else {
            0u32
        },
        BitOp::NotEqual => if a != b {
            1u32
        } else {
            0u32
        },
    }
}

/// Reducing modulo 2^32 ignores any multiple of 2^32 added beforehand.
proof fn lemma_to_bits32_vanish(x: int, k: int)
    ensures
        to_bits32(x + k * 0x1_0000_0000) == to_bits32(x),
{
    lemma_mod_multiples_vanish(k, x, 0x1_0000_0000);
}

/// The signed reading agrees with the pattern modulo 2^32.
proof fn lemma_as_signed_mod(a: u32)
    ensures
        to_bits32(as_signed(a)) == a,
        as_signed(a) % 0x1_0000_0000 == a as int % 0x1_0000_0000,
{
    if a < 0x8000_0000 {
        lemma_small_mod(a as nat, 0x1_0000_0000);
    } else {
        lemma_to_bits32_vanish(a - 0x1_0000_0000, 1);
        lemma_small_mod(a as nat, 0x1_0000_0000);
    }
}

/// Sums, differences and products of the signed readings wrap to the same
/// patterns as the unsigned modular operations: two's-complement
/// arithmetic is modular arithmetic on the raw patterns.
pub proof fn lemma_signed_wraps_like_unsigned(a: u32, b: u32)
    ensures
        to_bits32(as_signed(a) + as_signed(b)) == to_bits32(a + b),
        to_bits32(as_signed(a) - as_signed(b)) == to_bits32(a - b),
        to_bits32(as_signed(a) * as_signed(b)) == to_bits32(a * b),
{
    let m = 0x1_0000_0000int;
    let ka: int = if a < 0x8000_0000 { 0 } else { 1 };
    let kb: int = if b < 0x8000_0000 { 0 } else { 1 };
    assert(as_signed(a) == a - ka * m);
    assert(as_signed(b) == b - kb * m);
    lemma_to_bits32_vanish(as_signed(a) + as_signed(b), ka + kb);
    assert(as_signed(a) + as_signed(b) + (ka + kb) * m == a + b) by (nonlinear_arith)
        requires
            as_signed(a) == a - ka * m,
            as_signed(b) == b - kb * m,
    ;
    lemma_to_bits32_vanish(as_signed(a) - as_signed(b), ka - kb);
    assert(as_signed(a) - as_signed(b) + (ka - kb) * m == a - b) by (nonlinear_arith)
        requires
            as_signed(a) == a - ka * m,
            as_signed(b) == b - kb * m,
    ;
    lemma_mul_mod_noop_general(as_signed(a), as_signed(b), m);
    lemma_mul_mod_noop_general(a as int, b as int, m);
    lemma_as_signed_mod(a);
    lemma_as_signed_mod(b);
}

/// The magnitude of the signed reading, computed on patterns: the
/// two's-complement negation of a negative pattern is its absolute value.
fn signed_magnitude(a: u32) -> (r: u32)
    ensures
        r as int == abs_int(as_signed(a)),
{
    if a >= 0x8000_0000 {
        proof {
            assert(0u32.wrapping_sub(a) == 0x1_0000_0000 - a);
        }
        0u32.wrapping_sub(a)
    } else {
        a
    }
}

/// The pattern of `-x` for `0 <= x <= 2^31`, with wraparound.
pub(crate) fn encode_negated(mag: u32) -> (r: u32)
    requires
        mag <= 0x8000_0000,
    ensures
        r == to_bits32(-(mag as int)),
{
    proof {
        if mag == 0 {
            lemma_small_mod(0, 0x1_0000_0000);
        } else {
            lemma_to_bits32_vanish(-(mag as int), 1);
            lemma_small_mod((0x1_0000_0000 - mag) as nat, 0x1_0000_0000);
        }
    }
    0u32.wrapping_sub(mag)
}

/// Executes one typed binary arithmetic operation.
pub fn eval_math_op(op: MathOp, t: OpType, a: u32, b: u32) -> (r: Result<u32, Fault>)
    ensures
        r == math_op_spec(op, t, a, b),
{
    match t {
        OpType::UnsignedInt => match op {
            MathOp::Add => Ok(a.wrapping_add(b)),
            MathOp::Sub => Ok(a.wrapping_sub(b)),
            MathOp::Mul => Ok(a.wrapping_mul(b)),
            MathOp::Div => {
                if b == 0 {
                    Err(Fault::DivisionByZero)
                } else {
                    Ok(a / b)
                }
            },
            MathOp::Mod => {
                if b == 0 {
                    Err(Fault::DivisionByZero)
                } else {
                    Ok(a % b)
                }
            },
        },
        OpType::Int => {
            proof {
                lemma_signed_wraps_like_unsigned(a, b);
            }
            match op {
                MathOp::Add => Ok(a.wrapping_add(b)),
                MathOp::Sub => Ok(a.wrapping_sub(b)),
                MathOp::Mul => Ok(a.wrapping_mul(b)),
                MathOp::Div => {
                    if b == 0 {
                        Err(Fault::DivisionByZero)
                    } else {
                        Ok(signed_div(a, b))
                    }
                },
                MathOp::Mod => {
                    if b == 0 {
                        Err(Fault::DivisionByZero)
                    } else {
                        Ok(signed_rem(a, b))
                    }
                },
            }
        },
        OpType::Float => match op {
            MathOp::Add => Ok(float_add(a, b)),
            MathOp::Sub => Ok(float_sub(a, b)),
            MathOp::Mul => Ok(float_mul(a, b)),
            MathOp::Div => Ok(float_div(a, b)),
            MathOp::Mod => Ok(float_rem(a, b)),
        },
    }
}

/// Two's-complement division truncating toward zero, with wraparound (the
/// lone overflowing case, the minimum value divided by minus one, wraps
/// back to the minimum value).
fn signed_div(a: u32, b: u32) -> (r: u32)
    requires
        b != 0,
    ensures
        r == to_bits32(trunc_div(as_signed(a), as_signed(b))),
{
    let mag_a = signed_magnitude(a);
    let mag_b = signed_magnitude(b);
    assert(mag_b != 0) by {
        if as_signed(b) == 0 {
            assert(b == 0);
        }
    };
    let q = mag_a / mag_b;
    let negative = (a >= 0x8000_0000) != (b >= 0x8000_0000);
    proof {
        assert(q == abs_int(as_signed(a)) / abs_int(as_signed(b)));
        assert(q <= 0x8000_0000) by {
            vstd::arithmetic::div_mod::lemma_div_is_ordered(
                q as int,
                mag_a as int,
                1,
            );
            vstd::arithmetic::div_mod::lemma_div_nonincreasing(mag_a as int, mag_b as int);
        };
    }
    if negative {
        encode_negated(q)
    } else {
        proof {
            lemma_small_mod(q as nat, 0x1_0000_0000);
        }
        q
    }
}

/// Two's-complement remainder: magnitude of the dividend's magnitude
/// modulo the divisor's, with the dividend's sign.
fn signed_rem(a: u32, b: u32) -> (r: u32)
    requires
        b != 0,
    ensures
        r == to_bits32(trunc_rem(as_signed(a), as_signed(b))),
{
    let mag_a = signed_magnitude(a);
    let mag_b = signed_magnitude(b);
    assert(mag_b != 0) by {
        if as_signed(b) == 0 {
            assert(b == 0);
        }
    };
    let m = mag_a % mag_b;
    proof {
        lemma_trunc_rem_magnitude(as_signed(a), as_signed(b));
        assert(m < mag_b);
    }
    if a >= 0x8000_0000 {
        encode_negated(m)
    } else {
        proof {
            lemma_small_mod(m as nat, 0x1_0000_0000);
        }
        m
    }
}

/// The truncating remainder is the remainder of the magnitudes, carrying
/// the dividend's sign.
proof fn lemma_trunc_rem_magnitude(x: int, y: int)
    requires
        y != 0,
    ensures
        trunc_rem(x, y) == if x >= 0 {
            abs_int(x) % abs_int(y)
        } else {
            -(abs_int(x) % abs_int(y))
        },
{
    let ax = abs_int(x);
    let ay = abs_int(y);
    lemma_fundamental_div_mod(ax, ay);
    let q = ax / ay;
    let r = ax % ay;
    assert(ax == ay * q + r);
    if (x >= 0) == (y >= 0) {
        assert(trunc_div(x, y) == q);
        if x >= 0 {
            assert(x - y * q == r) by (nonlinear_arith)
                requires
                    x == ax,
                    y == ay,
                    ax == ay * q + r,
            ;
        } else {
            assert(x - y * q == -r) by (nonlinear_arith)
                requires
                    x == -ax,
                    y == -ay,
                    ax == ay * q + r,
            ;
        }
    } else {
        assert(trunc_div(x, y) == -q);
        if x >= 0 {
            assert(x - y * (-q) == r) by (nonlinear_arith)
                requires
                    x == ax,
                    y == -ay,
                    ax == ay * q + r,
            ;
        } else {
            assert(x - y * (-q) == -r) by (nonlinear_arith)
                requires
                    x == -ax,
                    y == ay,
                    ax == ay * q + r,
            ;
        }
    }
}

/// Executes one typed comparison, storing exactly 1 or 0.
pub fn eval_cmp_op(op: CmpOp, t: OpType, a: u32, b: u32) -> (r: u32)
    ensures
        r == cmp_op_spec(op, t, a, b),
{
    let holds = match t {
        OpType::UnsignedInt => match op {
            CmpOp::GreaterThanOrEqual => a >= b,
            CmpOp::LessThanOrEqual => a <= b,
            CmpOp::GreaterThan => a > b,
            CmpOp::LessThan => a < b,
        },
        OpType::Int => {
            let sa = a >= 0x8000_0000;
            let sb = b >= 0x8000_0000;
            let lt = if sa != sb {
                sa
            } else {
                a < b
            };
            let eq = a == b;
            proof {
                assert(lt == (as_signed(a) < as_signed(b)));
                assert(eq == (as_signed(a) == as_signed(b)));
            }
            match op {
                CmpOp::GreaterThanOrEqual => !lt,
                CmpOp::LessThanOrEqual => lt || eq,
                CmpOp::GreaterThan => !lt && !eq,
                CmpOp::LessThan => lt,
            }
        },
        OpType::Float => match op {
            CmpOp::GreaterThanOrEqual => float_greater_equal(a, b),
            CmpOp::LessThanOrEqual => float_less_equal(a, b),
            CmpOp::GreaterThan => float_greater_than(a, b),
            CmpOp::LessThan => float_less_than(a, b),
        },
    };
    if holds {
        1u32
    } else {
        0u32
    }
}

/// Executes one untyped binary operation on raw unsigned patterns.
pub fn eval_bit_op(op: BitOp, a: u32, b: u32) -> (r: u32)
    ensures
        r == bit_op_spec(op, a, b),
{
    match op {
        BitOp::And => a & b,
        BitOp::Or => a | b,
        BitOp::Xor => a ^ b,
        BitOp::ShiftLeft => {
            if b < 32 {
                a << b
            } else {
                0u32
            }
        },
        BitOp::ShiftRight => {
            if b < 32 {
                a >> b
            } else {
                0u32
            }
        },
        BitOp::Equal => {
            if a == b {
                1u32
            } else {
                0u32
            }
        },
        BitOp::NotEqual => {
            if a != b {
                1u32
            } else {
                0u32
            }
        },
    }
}

} // verus!
