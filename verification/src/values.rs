//! What the virtual machine computes on integer, boolean and unit values.
//! Integers are kept in the payload of a value canonically: a signed
//! integer sign-extended, an unsigned one zero-extended. Arithmetic wraps
//! around in the value's own type; division and remainder truncate
//! toward zero. Floats are left to the caller (see `vm`).
use vstd::prelude::*;
use crate::bytecode::Bytecode;
use crate::runtime::{VMData, TAG_U8, TAG_U16, TAG_U32, TAG_U64, TAG_I8, TAG_I16, TAG_I32, TAG_I64, TAG_BOOL};

verus! {

/// The tags of the integer types.
pub open spec fn is_int_tag(t: u64) -> bool {
    TAG_I8 <= t <= TAG_U64
}

/// The tags of the signed integer types.
pub open spec fn is_signed_tag(t: u64) -> bool {
    TAG_I8 <= t <= TAG_I64
}

/// The integer a value holds.
pub open spec fn int_value(v: VMData) -> int {
    if v.tag == TAG_U8 {
        (v.data as u8) as int
    } else if v.tag == TAG_U16 {
        (v.data as u16) as int
    } else if v.tag == TAG_U32 {
        (v.data as u32) as int
    } else if v.tag == TAG_U64 {
        v.data as int
    } else if v.tag == TAG_I8 {
        (v.data as i8) as int
    } else if v.tag == TAG_I16 {
        (v.data as i16) as int
    } else if v.tag == TAG_I32 {
        (v.data as i32) as int
    } else {
        (v.data as i64) as int
    }
}

/// The payload of `x` wrapped into the integer type of `tag`.
pub open spec fn canon(tag: u64, x: int) -> u64 {
    if tag == TAG_U8 {
        (x as u8) as u64
    } else if tag == TAG_U16 {
        (x as u16) as u64
    } else if tag == TAG_U32 {
        (x as u32) as u64
    } else if tag == TAG_U64 {
        x as u64
    } else if tag == TAG_I8 {
        (x as i8) as u64
    } else if tag == TAG_I16 {
        (x as i16) as u64
    } else if tag == TAG_I32 {
        (x as i32) as u64
    } else {
        (x as i64) as u64
    }
}

/// `x` lies in the range of the integer type of `tag`.
pub open spec fn fits(tag: u64, x: int) -> bool {
    if tag == TAG_U8 {
        0 <= x <= u8::MAX
    } else if tag == TAG_U16 {
        0 <= x <= u16::MAX
    } else if tag == TAG_U32 {
        0 <= x <= u32::MAX
    } else if tag == TAG_U64 {
        0 <= x <= u64::MAX
    } else if tag == TAG_I8 {
        i8::MIN <= x <= i8::MAX
    } else if tag == TAG_I16 {
        i16::MIN <= x <= i16::MAX
    } else if tag == TAG_I32 {
        i32::MIN <= x <= i32::MAX
    } else {
        i64::MIN <= x <= i64::MAX
    }
}

/// Division truncating toward zero.
pub open spec fn tdiv(x: int, d: int) -> int {
    if x == 0 {
        0
    } else if x > 0 && d > 0 {
        x / d
    } else if x < 0 && d < 0 {
        (x * -1) / (d * -1)
    } else if x < 0 {
        ((x * -1) / d) * -1
    } else {
        (x / (d * -1)) * -1
    }
}

/// The remainder that goes with `tdiv`: it has the sign of `x`.
pub open spec fn trem(x: int, d: int) -> int {
    if x == 0 {
        0
    } else if x > 0 && d > 0 {
        x % d
    } else if x < 0 && d < 0 {
        ((x * -1) % (d * -1)) * -1
    } else if x < 0 {
        ((x * -1) % d) * -1
    } else {
        x % (d * -1)
    }
}

/// The arithmetic opcodes.
pub open spec fn is_arith(op: Bytecode) -> bool {
    op == Bytecode::Add || op == Bytecode::Subtract || op == Bytecode::Multiply || op == Bytecode::Divide
        || op == Bytecode::Modulo
}

/// The ordering opcodes.
pub open spec fn is_order(op: Bytecode) -> bool {
    op == Bytecode::GreaterThan || op == Bytecode::LesserThan || op == Bytecode::GreaterEquals
        || op == Bytecode::LesserEquals
}

/// The exact result of an arithmetic opcode on two integers.
pub open spec fn arith(op: Bytecode, x: int, y: int) -> int {
    if op == Bytecode::Add {
        x + y
    } else if op == Bytecode::Subtract {
        x - y
    } else if op == Bytecode::Multiply {
        x * y
    } else if op == Bytecode::Divide {
        tdiv(x, y)
    } else {
        trem(x, y)
    }
}

/// The result of an ordering opcode on two integers.
pub open spec fn order(op: Bytecode, x: int, y: int) -> bool {
    if op == Bytecode::GreaterThan {
        x > y
    } else if op == Bytecode::LesserThan {
        x < y
    } else if op == Bytecode::GreaterEquals {
        x >= y
    } else {
        x <= y
    }
}

/// A boolean value.
pub open spec fn bool_value(b: bool) -> VMData {
    VMData { tag: TAG_BOOL, data: if b { 1u64 } else { 0u64 } }
}

fn signed_value(v: VMData) -> (r: i128)
    requires
        is_int_tag(v.tag),
    ensures
        r == int_value(v),
{
    if v.tag == TAG_U8 {
        (v.data as u8) as i128
    } else if v.tag == TAG_U16 {
        (v.data as u16) as i128
    } else if v.tag == TAG_U32 {
        (v.data as u32) as i128
    } else if v.tag == TAG_U64 {
        v.data as i128
    } else if v.tag == TAG_I8 {
        (v.data as i8) as i128
    } else if v.tag == TAG_I16 {
        (v.data as i16) as i128
    } else if v.tag == TAG_I32 {
        (v.data as i32) as i128
    } else {
        (v.data as i64) as i128
    }
}

fn wrap(tag: u64, x: i128) -> (r: u64)
    ensures
        r == canon(tag, x as int),
{
    if tag == TAG_U8 {
        (x as u8) as u64
    } else if tag == TAG_U16 {
        (x as u16) as u64
    } else if tag == TAG_U32 {
        (x as u32) as u64
    } else if tag == TAG_U64 {
        x as u64
    } else if tag == TAG_I8 {
        (x as i8) as u64
    } else if tag == TAG_I16 {
        (x as i16) as u64
    } else if tag == TAG_I32 {
        (x as i32) as u64
    } else {
        (x as i64) as u64
    }
}

proof fn lemma_int_value_range(v: VMData)
    requires
        is_int_tag(v.tag),
    ensures
        i64::MIN <= int_value(v) <= u64::MAX,
        v.tag == TAG_U64 ==> 0 <= int_value(v) <= u64::MAX,
        v.tag != TAG_U64 ==> i64::MIN <= int_value(v) <= i64::MAX,
{
}

/// The integer a value holds is zero.
pub fn int_is_zero(v: VMData) -> (r: bool)
    requires
        is_int_tag(v.tag),
    ensures
        r == (int_value(v) == 0),
{
    signed_value(v) == 0
}

/// Negating the integer a signed value holds stays in its type.
pub fn negation_fits(v: VMData) -> (r: bool)
    requires
        is_signed_tag(v.tag),
    ensures
        r == fits(v.tag, -int_value(v)),
{
    proof {
        lemma_int_value_range(v);
    }
    let x = signed_value(v);
    let y = 0 - x;
    if v.tag == TAG_I8 {
        -128 <= y && y <= 127
    } else if v.tag == TAG_I16 {
        -32768 <= y && y <= 32767
    } else if v.tag == TAG_I32 {
        -2147483648 <= y && y <= 2147483647
    } else {
        -9223372036854775808 <= y && y <= 9223372036854775807
    }
}

/// An arithmetic opcode on two integers of one type; division and
/// remainder need a nonzero divisor.
pub fn int_arith(op: Bytecode, a: VMData, b: VMData) -> (r: VMData)
    requires
        is_arith(op),
        a.tag == b.tag,
        is_int_tag(a.tag),
        op == Bytecode::Divide || op == Bytecode::Modulo ==> int_value(b) != 0,
    ensures
        r == (VMData { tag: a.tag, data: canon(a.tag, arith(op, int_value(a), int_value(b))) }),
{
    proof {
        lemma_int_value_range(a);
        lemma_int_value_range(b);
    }
    let x = signed_value(a);
    let y = signed_value(b);
    let data = if op == Bytecode::Add {
        wrap(a.tag, x + y)
    } else if op == Bytecode::Subtract {
        wrap(a.tag, x - y)
    } else if op == Bytecode::Multiply {
        if a.tag == TAG_U64 {
            proof {
                let (m, n) = (a.data as int, b.data as int);
                assert(m * n <= 0xffff_ffff_ffff_ffff * 0xffff_ffff_ffff_ffff) by (nonlinear_arith)
                    requires
                        0 <= m <= 0xffff_ffff_ffff_ffff,
                        0 <= n <= 0xffff_ffff_ffff_ffff,
                ;
            }
            let p = (a.data as u128) * (b.data as u128);
            p as u64
        } else {
            proof {
                assert(-0x8000_0000_0000_0000 <= x <= 0x7fff_ffff_ffff_ffff);
                assert(-0x8000_0000_0000_0000 <= y <= 0x7fff_ffff_ffff_ffff);
                assert(x * y <= 0x4000_0000_0000_0000_0000_0000_0000_0000) by (nonlinear_arith)
                    requires
                        -0x8000_0000_0000_0000 <= x <= 0x7fff_ffff_ffff_ffff,
                        -0x8000_0000_0000_0000 <= y <= 0x7fff_ffff_ffff_ffff,
                ;
                assert(x * y >= -0x4000_0000_0000_0000_0000_0000_0000_0000) by (nonlinear_arith)
                    requires
                        -0x8000_0000_0000_0000 <= x <= 0x7fff_ffff_ffff_ffff,
                        -0x8000_0000_0000_0000 <= y <= 0x7fff_ffff_ffff_ffff,
                ;
            }
            wrap(a.tag, x * y)
        }
    } else if op == Bytecode::Divide {
        match x.checked_div(y) {
            Some(q) => wrap(a.tag, q),
            None => {
                assert(false);
                0
            },
        }
    } else {
        match x.checked_rem(y) {
            Some(q) => wrap(a.tag, q),
            None => {
                assert(false);
                0
            },
        }
    };
    VMData::new(a.tag, data)
}

/// An ordering opcode on two integers of one type.
pub fn int_order(op: Bytecode, a: VMData, b: VMData) -> (r: VMData)
    requires
        is_order(op),
        a.tag == b.tag,
        is_int_tag(a.tag),
    ensures
        r == bool_value(order(op, int_value(a), int_value(b))),
{
    let x = signed_value(a);
    let y = signed_value(b);
    let v = if op == Bytecode::GreaterThan {
        x > y
    } else if op == Bytecode::LesserThan {
        x < y
    } else if op == Bytecode::GreaterEquals {
        x >= y
    } else {
        x <= y
    };
    VMData::new_bool(v)
}

/// An integer converted to the integer type of `tag`.
pub fn int_cast(tag: u64, v: VMData) -> (r: VMData)
    requires
        is_int_tag(tag),
        is_int_tag(v.tag),
    ensures
        r == (VMData { tag, data: canon(tag, int_value(v)) }),
{
    let x = signed_value(v);
    VMData::new(tag, wrap(tag, x))
}

/// A signed integer negated; its type's least value has no negation.
pub fn int_negate(v: VMData) -> (r: VMData)
    requires
        is_signed_tag(v.tag),
        fits(v.tag, -int_value(v)),
    ensures
        r == (VMData { tag: v.tag, data: canon(v.tag, -int_value(v)) }),
{
    proof {
        lemma_int_value_range(v);
    }
    let x = signed_value(v);
    VMData::new(v.tag, wrap(v.tag, 0 - x))
}

} // verus!
