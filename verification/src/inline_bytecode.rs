//! The instructions an inline bytecode block may hold, each named by a
//! mnemonic, some with an index operand.
use vstd::prelude::*;
use crate::text::str_equal;

verus! {

/// An instruction of an inline bytecode block.
#[derive(Debug, Clone, Copy, PartialEq, Eq)]
pub enum BytecodeInstructions {
    Equals,
    NotEquals,
    GreaterThan,
    LessThan,
    GreaterEquals,
    LesserEquals,
    Jump(u8),
    JumpIfFalse(u8),
    BackJump(u8),
    JumpLarge(u16),
    JumpIfFalseLarge(u16),
    BackJumpLarge(u16),
    Add,
    Subtract,
    Multiply,
    Division,
    TakeFast(u8),
    Take(u16),
    ReplaceFast(u8),
    Replace(u16),
    Not,
    Negate,
    Raw(u8),
    Rotate,
    Over,
    Swap,
    Duplicate,
}

/// Why a mnemonic and its operand give no instruction.
#[derive(Debug, Clone, Copy, PartialEq, Eq)]
pub enum InlineBytecodeError {
    /// The mnemonic names no instruction.
    InvalidInstruction,
    /// The operand does not fit: the instruction needs a value up to this
    /// one.
    IndexTooBig(usize),
}

/// An operand that must fit in a byte.
pub open spec fn u8_operand(value: int) -> Result<u8, InlineBytecodeError> {
    if 0 <= value <= u8::MAX {
        Ok(value as u8)
    } else {
        Err(InlineBytecodeError::IndexTooBig(u8::MAX as usize))
    }
}

/// An operand that must fit in two bytes.
pub open spec fn u16_operand(value: int) -> Result<u16, InlineBytecodeError> {
    if 0 <= value <= u16::MAX {
        Ok(value as u16)
    } else {
        Err(InlineBytecodeError::IndexTooBig(u16::MAX as usize))
    }
}

/// The instruction a mnemonic names, with `value` as its operand where it
/// takes one.
pub open spec fn inline_instruction_spec(mnemonic: Seq<char>, value: int) -> Result<BytecodeInstructions, InlineBytecodeError> {
    if mnemonic == "eq"@ {
        Ok(BytecodeInstructions::Equals)
    } else if mnemonic == "neq"@ {
        Ok(BytecodeInstructions::NotEquals)
    } else if mnemonic == "gt"@ {
        Ok(BytecodeInstructions::GreaterThan)
    } else if mnemonic == "lt"@ {
        Ok(BytecodeInstructions::LessThan)
    } else if mnemonic == "ge"@ {
        Ok(BytecodeInstructions::GreaterEquals)
    } else if mnemonic == "le"@ {
        Ok(BytecodeInstructions::LesserEquals)
    } else if mnemonic == "jmp"@ {
        match u8_operand(value) {
            Ok(x) => Ok(BytecodeInstructions::Jump(x)),
            Err(e) => Err(e),
        }
    } else if mnemonic == "jif"@ {
        match u8_operand(value) {
            Ok(x) => Ok(BytecodeInstructions::JumpIfFalse(x)),
            Err(e) => Err(e),
        }
    } else if mnemonic == "bjmp"@ {
        match u8_operand(value) {
            Ok(x) => Ok(BytecodeInstructions::BackJump(x)),
            Err(e) => Err(e),
        }
    } else if mnemonic == "jmpl"@ {
        match u16_operand(value) {
            Ok(x) => Ok(BytecodeInstructions::JumpLarge(x)),
            Err(e) => Err(e),
        }
    } else if mnemonic == "jifl"@ {
        match u16_operand(value) {
            Ok(x) => Ok(BytecodeInstructions::JumpIfFalseLarge(x)),
            Err(e) => Err(e),
        }
    } else if mnemonic == "bjmpl"@ {
        match u16_operand(value) {
            Ok(x) => Ok(BytecodeInstructions::BackJumpLarge(x)),
            Err(e) => Err(e),
        }
    } else if mnemonic == "add"@ {
        Ok(BytecodeInstructions::Add)
    } else if mnemonic == "sub"@ {
        Ok(BytecodeInstructions::Subtract)
    } else if mnemonic == "mul"@ {
        Ok(BytecodeInstructions::Multiply)
    } else if mnemonic == "div"@ {
        Ok(BytecodeInstructions::Division)
    } else if mnemonic == "takef"@ {
        match u8_operand(value) {
            Ok(x) => Ok(BytecodeInstructions::TakeFast(x)),
            Err(e) => Err(e),
        }
    } else if mnemonic == "take"@ {
        match u16_operand(value) {
            Ok(x) => Ok(BytecodeInstructions::Take(x)),
            Err(e) => Err(e),
        }
    } else if mnemonic == "repf"@ {
        match u8_operand(value) {
            Ok(x) => Ok(BytecodeInstructions::ReplaceFast(x)),
            Err(e) => Err(e),
        }
    } else if mnemonic == "rep"@ {
        match u16_operand(value) {
            Ok(x) => Ok(BytecodeInstructions::Replace(x)),
            Err(e) => Err(e),
        }
    } else if mnemonic == "not"@ {
        Ok(BytecodeInstructions::Not)
    } else if mnemonic == "neg"@ {
        Ok(BytecodeInstructions::Negate)
    } else if mnemonic == "raw"@ {
        match u8_operand(value) {
            Ok(x) => Ok(BytecodeInstructions::Raw(x)),
            Err(e) => Err(e),
        }
    } else if mnemonic == "rot"@ {
        Ok(BytecodeInstructions::Rotate)
    } else if mnemonic == "over"@ {
        Ok(BytecodeInstructions::Over)
    } else if mnemonic == "swap"@ {
        Ok(BytecodeInstructions::Swap)
    } else if mnemonic == "dup"@ {
        Ok(BytecodeInstructions::Duplicate)
    } else {
        Err(InlineBytecodeError::InvalidInstruction)
    }
}

fn u8_operand_of(value: i64) -> (r: Result<u8, InlineBytecodeError>)
    ensures
        r == u8_operand(value as int),
{
    if 0 <= value && value <= 255 {
        Ok(value as u8)
    } else {
        Err(InlineBytecodeError::IndexTooBig(255))
    }
}

fn u16_operand_of(value: i64) -> (r: Result<u16, InlineBytecodeError>)
    ensures
        r == u16_operand(value as int),
{
    if 0 <= value && value <= 65535 {
        Ok(value as u16)
    } else {
        Err(InlineBytecodeError::IndexTooBig(65535))
    }
}

/// The instruction a mnemonic of an inline bytecode block names, with
/// `value`, the integer written after it, as its operand where it takes
/// one; an error for an unknown mnemonic or an operand that does not fit.
pub fn inline_instruction(mnemonic: &str, value: i64) -> (r: Result<BytecodeInstructions, InlineBytecodeError>)
    ensures
        r == inline_instruction_spec(mnemonic@, value as int),
{
    if str_equal(mnemonic, "eq") {
        Ok(BytecodeInstructions::Equals)
    } else if str_equal(mnemonic, "neq") {
        Ok(BytecodeInstructions::NotEquals)
    } else if str_equal(mnemonic, "gt") {
        Ok(BytecodeInstructions::GreaterThan)
    } else if str_equal(mnemonic, "lt") {
        Ok(BytecodeInstructions::LessThan)
    } else if str_equal(mnemonic, "ge") {
        Ok(BytecodeInstructions::GreaterEquals)
    } else if str_equal(mnemonic, "le") {
        Ok(BytecodeInstructions::LesserEquals)
    } else if str_equal(mnemonic, "jmp") {
        match u8_operand_of(value) {
            Ok(x) => Ok(BytecodeInstructions::Jump(x)),
            Err(e) => Err(e),
        }
    } else if str_equal(mnemonic, "jif") {
        match u8_operand_of(value) {
            Ok(x) => Ok(BytecodeInstructions::JumpIfFalse(x)),
            Err(e) => Err(e),
        }
    } else if str_equal(mnemonic, "bjmp") {
        match u8_operand_of(value) {
            Ok(x) => Ok(BytecodeInstructions::BackJump(x)),
            Err(e) => Err(e),
        }
    } else if str_equal(mnemonic, "jmpl") {
        match u16_operand_of(value) {
            Ok(x) => Ok(BytecodeInstructions::JumpLarge(x)),
            Err(e) => Err(e),
        }
    } else if str_equal(mnemonic, "jifl") {
        match u16_operand_of(value) {
            Ok(x) => Ok(BytecodeInstructions::JumpIfFalseLarge(x)),
            Err(e) => Err(e),
        }
    } else if str_equal(mnemonic, "bjmpl") {
        match u16_operand_of(value) {
            Ok(x) => Ok(BytecodeInstructions::BackJumpLarge(x)),
            Err(e) => Err(e),
        }
    } else if str_equal(mnemonic, "add") {
        Ok(BytecodeInstructions::Add)
    } else if str_equal(mnemonic, "sub") {
        Ok(BytecodeInstructions::Subtract)
    } else if str_equal(mnemonic, "mul") {
        Ok(BytecodeInstructions::Multiply)
    } else if str_equal(mnemonic, "div") {
        Ok(BytecodeInstructions::Division)
    } else if str_equal(mnemonic, "takef") {
        match u8_operand_of(value) {
            Ok(x) => Ok(BytecodeInstructions::TakeFast(x)),
            Err(e) => Err(e),
        }
    } else if str_equal(mnemonic, "take") {
        match u16_operand_of(value) {
            Ok(x) => Ok(BytecodeInstructions::Take(x)),
            Err(e) => Err(e),
        }
    } else if str_equal(mnemonic, "repf") {
        match u8_operand_of(value) {
            Ok(x) => Ok(BytecodeInstructions::ReplaceFast(x)),
            Err(e) => Err(e),
        }
    } else if str_equal(mnemonic, "rep") {
        match u16_operand_of(value) {
            Ok(x) => Ok(BytecodeInstructions::Replace(x)),
            Err(e) => Err(e),
        }
    } else if str_equal(mnemonic, "not") {
        Ok(BytecodeInstructions::Not)
    } else if str_equal(mnemonic, "neg") {
        Ok(BytecodeInstructions::Negate)
    } else if str_equal(mnemonic, "raw") {
        match u8_operand_of(value) {
            Ok(x) => Ok(BytecodeInstructions::Raw(x)),
            Err(e) => Err(e),
        }
    } else if str_equal(mnemonic, "rot") {
        Ok(BytecodeInstructions::Rotate)
    } else if str_equal(mnemonic, "over") {
        Ok(BytecodeInstructions::Over)
    } else if str_equal(mnemonic, "swap") {
        Ok(BytecodeInstructions::Swap)
    } else if str_equal(mnemonic, "dup") {
        Ok(BytecodeInstructions::Duplicate)
    } else {
        Err(InlineBytecodeError::InvalidInstruction)
    }
}

} // verus!
