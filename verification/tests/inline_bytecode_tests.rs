use azurite::inline_bytecode::{inline_instruction, BytecodeInstructions, InlineBytecodeError};

#[test]
fn mnemonics_without_operand_ignore_the_value() {
    assert_eq!(inline_instruction("eq", 0), Ok(BytecodeInstructions::Equals));
    assert_eq!(inline_instruction("dup", 999_999), Ok(BytecodeInstructions::Duplicate));
    assert_eq!(inline_instruction("div", -1), Ok(BytecodeInstructions::Division));
}

#[test]
fn byte_operands_fit_in_a_byte() {
    assert_eq!(inline_instruction("takef", 3), Ok(BytecodeInstructions::TakeFast(3)));
    assert_eq!(inline_instruction("jmp", 255), Ok(BytecodeInstructions::Jump(255)));
    assert_eq!(inline_instruction("jmp", 256), Err(InlineBytecodeError::IndexTooBig(255)));
    assert_eq!(inline_instruction("raw", -1), Err(InlineBytecodeError::IndexTooBig(255)));
}

#[test]
fn wide_operands_fit_in_two_bytes() {
    assert_eq!(inline_instruction("take", 300), Ok(BytecodeInstructions::Take(300)));
    assert_eq!(inline_instruction("bjmpl", 65535), Ok(BytecodeInstructions::BackJumpLarge(65535)));
    assert_eq!(inline_instruction("rep", 65536), Err(InlineBytecodeError::IndexTooBig(65535)));
}

#[test]
fn unknown_mnemonics_are_refused() {
    assert_eq!(inline_instruction("push", 1), Err(InlineBytecodeError::InvalidInstruction));
    assert_eq!(inline_instruction("", 0), Err(InlineBytecodeError::InvalidInstruction));
    assert_eq!(inline_instruction("EQ", 0), Err(InlineBytecodeError::InvalidInstruction));
}
