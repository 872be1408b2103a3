use azurite::bytecode::Bytecode;
use azurite::runtime::{VMData, TAG_I8, TAG_U16, TAG_U8};
use azurite::source::{line_at_index, start_of_line};
use azurite::values::{int_arith, int_cast, int_is_zero, int_negate, int_order, negation_fits};

#[test]
fn line_holding_an_index() {
    let text = "let a = 1\nlet bc = 2\r\nend";
    assert_eq!(line_at_index(text, 0), Some(("let a = 1", 0)));
    assert_eq!(line_at_index(text, 9), Some(("let a = 1", 0)));
    assert_eq!(line_at_index(text, 10), Some(("let bc = 2", 1)));
    assert_eq!(line_at_index(text, 21), Some(("end", 2)));
    assert_eq!(line_at_index(text, 100), Some(("", 3)));
}

#[test]
fn line_index_counts_bytes_of_wide_characters() {
    let text = "é\nx";
    // "é" takes two bytes and the line ending one.
    assert_eq!(line_at_index(text, 2), Some(("é", 0)));
    assert_eq!(line_at_index(text, 3), Some(("x", 1)));
}

#[test]
fn empty_text_has_no_lines() {
    assert_eq!(line_at_index("", 0), Some(("", 0)));
    assert_eq!(start_of_line("", 0), 0);
    assert_eq!(start_of_line("", 3), 0);
}

#[test]
fn start_of_each_line() {
    let text = "ab\ncde\n\nf";
    assert_eq!(start_of_line(text, 0), 0);
    assert_eq!(start_of_line(text, 1), 3);
    assert_eq!(start_of_line(text, 2), 7);
    assert_eq!(start_of_line(text, 3), 8);
    assert_eq!(start_of_line(text, 4), 10);
    assert_eq!(start_of_line(text, 50), 10);
}

#[test]
fn integer_arithmetic_wraps_in_its_type() {
    let r = int_arith(Bytecode::Add, VMData::new_u8(250), VMData::new_u8(10));
    assert_eq!(r, VMData::new_u8(4));
    let r = int_arith(Bytecode::Subtract, VMData::new_i8(-128), VMData::new_i8(1));
    assert_eq!(r, VMData::new_i8(127));
    let r = int_arith(Bytecode::Multiply, VMData::new_u64(u64::MAX), VMData::new_u64(2));
    assert_eq!(r, VMData::new_u64(u64::MAX - 1));
    let r = int_arith(Bytecode::Multiply, VMData::new_i64(-4), VMData::new_i64(6));
    assert_eq!(r, VMData::new_i64(-24));
}

#[test]
fn division_truncates_toward_zero() {
    assert_eq!(int_arith(Bytecode::Divide, VMData::new_i32(-7), VMData::new_i32(2)), VMData::new_i32(-3));
    assert_eq!(int_arith(Bytecode::Modulo, VMData::new_i32(-7), VMData::new_i32(2)), VMData::new_i32(-1));
    assert_eq!(int_arith(Bytecode::Divide, VMData::new_u16(9), VMData::new_u16(4)), VMData::new_u16(2));
    assert_eq!(int_arith(Bytecode::Divide, VMData::new_i8(-128), VMData::new_i8(-1)), VMData::new_i8(-128));
}

#[test]
fn integer_comparisons() {
    assert!(int_order(Bytecode::LesserThan, VMData::new_i16(-5), VMData::new_i16(3)).as_bool());
    assert!(!int_order(Bytecode::GreaterThan, VMData::new_i16(-5), VMData::new_i16(3)).as_bool());
    assert!(int_order(Bytecode::GreaterEquals, VMData::new_u64(u64::MAX), VMData::new_u64(1)).as_bool());
    assert!(int_order(Bytecode::LesserEquals, VMData::new_u32(3), VMData::new_u32(3)).as_bool());
}

#[test]
fn casts_and_negation() {
    assert_eq!(int_cast(TAG_U8, VMData::new_i64(-1)), VMData::new_u8(255));
    assert_eq!(int_cast(TAG_I8, VMData::new_u16(200)), VMData::new_i8(-56));
    assert_eq!(int_cast(TAG_U16, VMData::new_i8(-1)), VMData::new_u16(65535));
    assert!(negation_fits(VMData::new_i8(-127)));
    assert!(!negation_fits(VMData::new_i8(-128)));
    assert_eq!(int_negate(VMData::new_i32(5)), VMData::new_i32(-5));
    assert!(int_is_zero(VMData::new_u32(0)));
    assert!(!int_is_zero(VMData::new_i64(-1)));
}
