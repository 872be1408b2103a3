use azurite::runtime::{
    convert_usize_to_u8, load_function_table, Code, FatalError, ObjectIndex,
    RuntimeError, Stack, Status, VMData, STACK_SIZE, TAG_I8, TAG_STR,
};

#[test]
fn load_linetable() {
    let mut bytes = vec![];

    bytes.append(&mut 2u32.to_le_bytes().into());
    bytes.append(&mut 5u32.to_le_bytes().into());

    bytes.append(&mut 4u32.to_le_bytes().into());
    bytes.append(&mut 16u32.to_le_bytes().into());

    let data = azurite::runtime::load_linetable(bytes);

    assert_eq!(data, vec![2, 5, 4, 16]);
}

#[test]
fn load_linetable_empty() {
    let bytes = vec![];

    let data = azurite::runtime::load_linetable(bytes);

    assert_eq!(data, Vec::<u32>::new());
}

#[test]
fn function_table_starts_with_root() {
    let bytes = vec![3, b'f', b'o', b'o', 0, 2, b'h', b'i'];
    let table = load_function_table(bytes);
    assert_eq!(table, vec!["root".to_string(), "foo".to_string(), "".to_string(), "hi".to_string()]);
}

#[test]
fn runtime_error_keeps_position_and_message() {
    let e = RuntimeError::new(7, "division by zero");
    assert_eq!(e.bytecode_index, 7);
    assert_eq!(e.message, "division by zero");
    let f = RuntimeError::new_string(9, "x".to_string());
    assert_eq!((f.bytecode_index, f.message.as_str()), (9, "x"));
}

#[test]
fn status_queries() {
    assert!(Status::ok().is_ok());
    let e = Status::err("boom".to_string());
    assert!(e.is_err() && !e.is_ok() && !e.is_exit());
    match e {
        Status::Failure(f) => assert_eq!(f.read_message(), "boom"),
        _ => panic!("expected a failure"),
    }
    assert!(Status::Exit(3).is_exit());
    assert_eq!(FatalError::new("m".to_string()).index, usize::MAX);
}

#[test]
fn stack_push_and_overflow() {
    let mut stack = Stack::new();
    assert!(stack.push(10).is_ok());
    stack.set_reg(3, VMData::new_i8(-4));
    assert_eq!(stack.reg(3).as_i8(), -4);
    stack.pop(10);
    let r = stack.push(STACK_SIZE);
    match r {
        Status::Failure(e) => assert_eq!(e.message, "stack overflow"),
        _ => panic!("expected an overflow"),
    }
}

#[test]
fn stack_offset_moves_registers() {
    let mut stack = Stack::new();
    assert!(stack.push(4).is_ok());
    stack.set_reg(2, VMData::new_u16(300));
    stack.set_stack_offset(2);
    assert_eq!(stack.reg(0).as_u16(), 300);
}

#[test]
fn vm_data_round_trips() {
    assert_eq!(VMData::new_i8(-1).as_i8(), -1);
    assert_eq!(VMData::new_i8(-1).tag(), TAG_I8);
    assert_eq!(VMData::new_i16(-300).as_i16(), -300);
    assert_eq!(VMData::new_i32(i32::MIN).as_i32(), i32::MIN);
    assert_eq!(VMData::new_i64(-5).as_i64(), -5);
    assert_eq!(VMData::new_u32(u32::MAX).as_u32(), u32::MAX);
    assert_eq!(VMData::new_u64(u64::MAX).as_u64(), u64::MAX);
    assert!(VMData::new_bool(true).as_bool());
    let s = VMData::new_string(ObjectIndex::new(12));
    assert!(s.is_object());
    assert_eq!(s.tag(), TAG_STR);
    assert_eq!(s.as_object(), ObjectIndex::new(12));
    assert!(!VMData::new_unit().is_object());
    assert!(VMData::new_object(300, ObjectIndex::new(1)).is_object());
}

#[test]
fn code_reads_operands() {
    let bytes = [7u8, 1, 0, 0, 0, 2, 0, 0, 0, 0, 0, 0, 0, b'h', b'i', 0, 9];
    let mut code = Code::new(&bytes, 3, 4);
    assert_eq!(code.next(), 7);
    assert_eq!(code.u32(), 1);
    assert_eq!(code.u64(), 2);
    assert_eq!(code.string(), "hi");
    assert_eq!(code.next(), 9);
    code.goto(1);
    code.skip(4);
    code.back_skip(1);
    assert_eq!(code.pointer, 4);
    assert_eq!((code.offset, code.return_to), (3, 4));
}

#[test]
fn usize_to_register() {
    assert_eq!(convert_usize_to_u8(255), 255);
}
