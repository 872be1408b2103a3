//! The opcodes of the azurite virtual machine and the one-byte numbers
//! that stand for them in a bytecode stream.
use vstd::prelude::*;

verus! {

/// One virtual machine operation.
#[derive(Clone, Copy, Debug, PartialEq, Eq, Structural, Hash)]
pub enum Bytecode {
    Return,
    Copy,
    Swap,
    Call,
    ExtCall,
    Push,
    Pop,
    ExternFile,
    Struct,
    AccStruct,
    SetField,
    Add,
    Subtract,
    Multiply,
    Divide,
    Equals,
    NotEquals,
    GreaterThan,
    LesserThan,
    GreaterEquals,
    LesserEquals,
    LoadConst,
    Unit,
    Jump,
    JumpCond,
    Modulo,
    UnaryNot,
    UnaryNeg,
    CastToI8,
    CastToI16,
    CastToI32,
    CastToI64,
    CastToU8,
    CastToU16,
    CastToU32,
    CastToU64,
    CastToFloat,
}

/// The number of distinct opcodes; every byte below it names one.
pub const OPCODE_COUNT: u8 = 37;

/// The byte that stands for `b`: its position in the declaration order.
pub open spec fn opcode(b: Bytecode) -> u8 {
    match b {
        Bytecode::Return => 0,
        Bytecode::Copy => 1,
        Bytecode::Swap => 2,
        Bytecode::Call => 3,
        Bytecode::ExtCall => 4,
        Bytecode::Push => 5,
        Bytecode::Pop => 6,
        Bytecode::ExternFile => 7,
        Bytecode::Struct => 8,
        Bytecode::AccStruct => 9,
        Bytecode::SetField => 10,
        Bytecode::Add => 11,
        Bytecode::Subtract => 12,
        Bytecode::Multiply => 13,
        Bytecode::Divide => 14,
        Bytecode::Equals => 15,
        Bytecode::NotEquals => 16,
        Bytecode::GreaterThan => 17,
        Bytecode::LesserThan => 18,
        Bytecode::GreaterEquals => 19,
        Bytecode::LesserEquals => 20,
        Bytecode::LoadConst => 21,
        Bytecode::Unit => 22,
        Bytecode::Jump => 23,
        Bytecode::JumpCond => 24,
        Bytecode::Modulo => 25,
        Bytecode::UnaryNot => 26,
        Bytecode::UnaryNeg => 27,
        Bytecode::CastToI8 => 28,
        Bytecode::CastToI16 => 29,
        Bytecode::CastToI32 => 30,
        Bytecode::CastToI64 => 31,
        Bytecode::CastToU8 => 32,
        Bytecode::CastToU16 => 33,
        Bytecode::CastToU32 => 34,
        Bytecode::CastToU64 => 35,
        Bytecode::CastToFloat => 36,
    }
}

/// The opcode that a byte names, if it names one.
pub open spec fn opcode_of(v: u8) -> Option<Bytecode> {
    if v == 0 { Some(Bytecode::Return) }
    else if v == 1 { Some(Bytecode::Copy) }
    else if v == 2 { Some(Bytecode::Swap) }
    else if v == 3 { Some(Bytecode::Call) }
    else if v == 4 { Some(Bytecode::ExtCall) }
    else if v == 5 { Some(Bytecode::Push) }
    else if v == 6 { Some(Bytecode::Pop) }
    else if v == 7 { Some(Bytecode::ExternFile) }
    else if v == 8 { Some(Bytecode::Struct) }
    else if v == 9 { Some(Bytecode::AccStruct) }
    else if v == 10 { Some(Bytecode::SetField) }
    else if v == 11 { Some(Bytecode::Add) }
    else if v == 12 { Some(Bytecode::Subtract) }
    else if v == 13 { Some(Bytecode::Multiply) }
    else if v == 14 { Some(Bytecode::Divide) }
    else if v == 15 { Some(Bytecode::Equals) }
    else if v == 16 { Some(Bytecode::NotEquals) }
    else if v == 17 { Some(Bytecode::GreaterThan) }
    else if v == 18 { Some(Bytecode::LesserThan) }
    else if v == 19 { Some(Bytecode::GreaterEquals) }
    else if v == 20 { Some(Bytecode::LesserEquals) }
    else if v == 21 { Some(Bytecode::LoadConst) }
    else if v == 22 { Some(Bytecode::Unit) }
    else if v == 23 { Some(Bytecode::Jump) }
    else if v == 24 { Some(Bytecode::JumpCond) }
    else if v == 25 { Some(Bytecode::Modulo) }
    else if v == 26 { Some(Bytecode::UnaryNot) }
    else if v == 27 { Some(Bytecode::UnaryNeg) }
    else if v == 28 { Some(Bytecode::CastToI8) }
    else if v == 29 { Some(Bytecode::CastToI16) }
    else if v == 30 { Some(Bytecode::CastToI32) }
    else if v == 31 { Some(Bytecode::CastToI64) }
    else if v == 32 { Some(Bytecode::CastToU8) }
    else if v == 33 { Some(Bytecode::CastToU16) }
    else if v == 34 { Some(Bytecode::CastToU32) }
    else if v == 35 { Some(Bytecode::CastToU64) }
    else if v == 36 { Some(Bytecode::CastToFloat) }
    else { None }
}

/// Operations that read two registers and write a third.
pub open spec fn is_binary(b: Bytecode) -> bool {
    ||| b == Bytecode::Add
    ||| b == Bytecode::Subtract
    ||| b == Bytecode::Multiply
    ||| b == Bytecode::Divide
    ||| b == Bytecode::Modulo
    ||| b == Bytecode::Equals
    ||| b == Bytecode::NotEquals
    ||| b == Bytecode::GreaterThan
    ||| b == Bytecode::LesserThan
    ||| b == Bytecode::GreaterEquals
    ||| b == Bytecode::LesserEquals
}

/// Operations that read one register and write another.
pub open spec fn is_unary(b: Bytecode) -> bool {
    ||| b == Bytecode::UnaryNot
    ||| b == Bytecode::UnaryNeg
    ||| b == Bytecode::CastToI8
    ||| b == Bytecode::CastToI16
    ||| b == Bytecode::CastToI32
    ||| b == Bytecode::CastToI64
    ||| b == Bytecode::CastToU8
    ||| b == Bytecode::CastToU16
    ||| b == Bytecode::CastToU32
    ||| b == Bytecode::CastToU64
    ||| b == Bytecode::CastToFloat
}

impl Bytecode {
    /// The byte that stands for this opcode.
    pub fn as_u8(self) -> (r: u8)
        ensures
            r == opcode(self),
    {
        match self {
            Bytecode::Return => 0,
            Bytecode::Copy => 1,
            Bytecode::Swap => 2,
            Bytecode::Call => 3,
            Bytecode::ExtCall => 4,
            Bytecode::Push => 5,
            Bytecode::Pop => 6,
            Bytecode::ExternFile => 7,
            Bytecode::Struct => 8,
            Bytecode::AccStruct => 9,
            Bytecode::SetField => 10,
            Bytecode::Add => 11,
            Bytecode::Subtract => 12,
            Bytecode::Multiply => 13,
            Bytecode::Divide => 14,
            Bytecode::Equals => 15,
            Bytecode::NotEquals => 16,
            Bytecode::GreaterThan => 17,
            Bytecode::LesserThan => 18,
            Bytecode::GreaterEquals => 19,
            Bytecode::LesserEquals => 20,
            Bytecode::LoadConst => 21,
            Bytecode::Unit => 22,
            Bytecode::Jump => 23,
            Bytecode::JumpCond => 24,
            Bytecode::Modulo => 25,
            Bytecode::UnaryNot => 26,
            Bytecode::UnaryNeg => 27,
            Bytecode::CastToI8 => 28,
            Bytecode::CastToI16 => 29,
            Bytecode::CastToI32 => 30,
            Bytecode::CastToI64 => 31,
            Bytecode::CastToU8 => 32,
            Bytecode::CastToU16 => 33,
            Bytecode::CastToU32 => 34,
            Bytecode::CastToU64 => 35,
            Bytecode::CastToFloat => 36,
        }
    }

    /// The opcode a byte stands for; `None` for a byte that names none.
    pub fn from_u8(value: u8) -> (r: Option<Bytecode>)
        ensures
            r == opcode_of(value),
            r is None <==> value >= OPCODE_COUNT,
    {
        match value {
            0 => Some(Bytecode::Return),
            1 => Some(Bytecode::Copy),
            2 => Some(Bytecode::Swap),
            3 => Some(Bytecode::Call),
            4 => Some(Bytecode::ExtCall),
            5 => Some(Bytecode::Push),
            6 => Some(Bytecode::Pop),
            7 => Some(Bytecode::ExternFile),
            8 => Some(Bytecode::Struct),
            9 => Some(Bytecode::AccStruct),
            10 => Some(Bytecode::SetField),
            11 => Some(Bytecode::Add),
            12 => Some(Bytecode::Subtract),
            13 => Some(Bytecode::Multiply),
            14 => Some(Bytecode::Divide),
            15 => Some(Bytecode::Equals),
            16 => Some(Bytecode::NotEquals),
            17 => Some(Bytecode::GreaterThan),
            18 => Some(Bytecode::LesserThan),
            19 => Some(Bytecode::GreaterEquals),
            20 => Some(Bytecode::LesserEquals),
            21 => Some(Bytecode::LoadConst),
            22 => Some(Bytecode::Unit),
            23 => Some(Bytecode::Jump),
            24 => Some(Bytecode::JumpCond),
            25 => Some(Bytecode::Modulo),
            26 => Some(Bytecode::UnaryNot),
            27 => Some(Bytecode::UnaryNeg),
            28 => Some(Bytecode::CastToI8),
            29 => Some(Bytecode::CastToI16),
            30 => Some(Bytecode::CastToI32),
            31 => Some(Bytecode::CastToI64),
            32 => Some(Bytecode::CastToU8),
            33 => Some(Bytecode::CastToU16),
            34 => Some(Bytecode::CastToU32),
            35 => Some(Bytecode::CastToU64),
            36 => Some(Bytecode::CastToFloat),
            _ => None,
        }
    }
}

/// Reading back the byte of an opcode gives that opcode.
pub proof fn law_opcode_roundtrip(b: Bytecode)
    ensures
        opcode_of(opcode(b)) == Some(b),
{
}

/// A byte that names an opcode is that opcode's byte, so no two opcodes
/// share a byte.
pub proof fn law_opcode_unique(v: u8)
    ensures
        opcode_of(v) matches Some(b) ==> opcode(b) == v,
{
}

} // verus!
