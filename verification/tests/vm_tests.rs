use azurite::bytecode::Bytecode;
use azurite::runtime::{Status, VMData, TAG_FLOAT, TAG_STR};
use azurite::vm::{constant_table_valid, Frame, Machine, Outcome, TAG_STRUCT};

fn i64_entry(v: i64) -> Vec<u8> {
    let mut b = vec![6u8];
    b.extend_from_slice(&v.to_le_bytes());
    b
}

fn f64_entry(v: f64) -> Vec<u8> {
    let mut b = vec![0u8];
    b.extend_from_slice(&v.to_bits().to_le_bytes());
    b
}

fn str_entry(s: &str) -> Vec<u8> {
    let mut b = vec![2u8];
    b.extend_from_slice(&(s.len() as u64).to_le_bytes());
    b.extend_from_slice(s.as_bytes());
    b
}

fn machine(code: Vec<u8>, constants: Vec<u8>) -> Machine {
    assert!(constant_table_valid(&constants));
    let mut m = Machine::new(code, 16);
    m.bytes_to_constants(&constants).unwrap();
    m
}

/// Steps until the machine leaves the running state.
fn run(m: &mut Machine) -> Outcome {
    for _ in 0..1000 {
        let r = m.step();
        if r != Outcome::Running {
            return r;
        }
    }
    panic!("the program did not stop");
}

#[test]
fn new_machine_starts_at_zero() {
    let m = Machine::new(vec![0], 4);
    assert_eq!(m.current, Frame { pointer: 0, offset: 0, return_to: 0 });
    assert_eq!(m.stack.get_top(), 1);
    assert_eq!(m.stack.get_offset(), 0);
    assert!(m.constants.is_empty());
    assert!(m.callstack.is_empty());
    assert_eq!(m.objects.len(), 4);
    assert_eq!(m.stack.reg(0), VMData::new_unit());
}

#[test]
fn adds_two_constants() {
    let mut constants = i64_entry(2);
    constants.extend(i64_entry(40));
    // push 2; r1 = c0; r2 = c1; r0 = r1 + r2; return
    let code = vec![5, 2, 21, 1, 0, 21, 2, 1, 11, 0, 1, 2, 0];
    let mut m = machine(code, constants);
    assert_eq!(run(&mut m), Outcome::Stopped(Status::Success));
    assert_eq!(m.stack.reg(0).as_i64(), 42);
    assert_eq!(m.current.pointer, 13);
}

#[test]
fn subtract_multiply_and_compare() {
    let mut constants = i64_entry(7);
    constants.extend(i64_entry(-3));
    // r1 = 7, r2 = -3, r3 = r1 * r2, r0 = r3 - r1, r4 = r0 < r2
    let code = vec![5, 4, 21, 1, 0, 21, 2, 1, 13, 3, 1, 2, 12, 0, 3, 1, 18, 4, 0, 2, 0];
    let mut m = machine(code, constants);
    assert_eq!(run(&mut m), Outcome::Stopped(Status::Success));
    assert_eq!(m.stack.reg(3).as_i64(), -21);
    assert_eq!(m.stack.reg(0).as_i64(), -28);
    assert!(m.stack.reg(4).as_bool());
}

#[test]
fn division_by_zero_stops_the_program() {
    let mut constants = i64_entry(1);
    constants.extend(i64_entry(0));
    let code = vec![5, 2, 21, 1, 0, 21, 2, 1, 14, 0, 1, 2, 0];
    let mut m = machine(code, constants);
    match run(&mut m) {
        Outcome::Stopped(Status::Failure(e)) => assert_eq!(e.message, "division by zero"),
        other => panic!("unexpected {:?}", other),
    }
}

#[test]
fn mixed_operand_types_fault_without_change() {
    let mut constants = i64_entry(1);
    constants.extend(vec![7u8, 1]);
    let code = vec![5, 2, 21, 1, 0, 21, 2, 1, 11, 0, 1, 2, 0];
    let mut m = machine(code, constants);
    for _ in 0..3 {
        assert_eq!(m.step(), Outcome::Running);
    }
    let before = m.stack.reg(0);
    assert!(matches!(m.step(), Outcome::Fault(_)));
    assert_eq!(m.current.pointer, 8);
    assert_eq!(m.stack.reg(0), before);
}

#[test]
fn unknown_opcode_is_a_fault() {
    let mut m = machine(vec![200], vec![]);
    assert!(matches!(m.step(), Outcome::Fault(_)));
    assert_eq!(m.current.pointer, 0);
}

#[test]
fn call_and_return() {
    let constants = i64_entry(21);
    // 0: push 2; 2: r1 = c0; 5: call 14 (dst r2, args [r1]); 13: return
    // 14: r0 = r1 + r1; 18: return
    let mut code = vec![5, 2, 21, 1, 0, 3];
    code.extend_from_slice(&14u32.to_le_bytes());
    code.extend_from_slice(&[2, 1, 1, 0, 11, 0, 1, 1, 0]);
    let mut m = machine(code, constants);
    assert_eq!(m.step(), Outcome::Running);
    assert_eq!(m.step(), Outcome::Running);
    assert_eq!(m.step(), Outcome::Running);
    assert_eq!(m.current, Frame { pointer: 14, offset: 3, return_to: 2 });
    assert_eq!(m.callstack, vec![Frame { pointer: 13, offset: 0, return_to: 0 }]);
    assert_eq!(m.stack.reg(1).as_i64(), 21);
    assert_eq!(run(&mut m), Outcome::Stopped(Status::Success));
    assert_eq!(m.stack.reg(2).as_i64(), 42);
    assert!(m.callstack.is_empty());
}

#[test]
fn jumps_follow_the_condition() {
    let constants = vec![1u8, 1];
    // 0: push 1; 2: r1 = true; 5: jumpcond r1 -> 16 / 15; 15: return; 16: r0 = !r1; 19: return
    let mut code = vec![5, 1, 21, 1, 0, 24, 1];
    code.extend_from_slice(&16u32.to_le_bytes());
    code.extend_from_slice(&15u32.to_le_bytes());
    code.push(0);
    code.extend_from_slice(&[26, 0, 1, 0]);
    let mut m = machine(code, constants);
    assert_eq!(run(&mut m), Outcome::Stopped(Status::Success));
    assert_eq!(m.current.pointer, 20);
    assert!(!m.stack.reg(0).as_bool());
}

#[test]
fn unconditional_jump() {
    let mut code = vec![23];
    code.extend_from_slice(&6u32.to_le_bytes());
    code.extend_from_slice(&[200, 0]);
    let mut m = machine(code, vec![]);
    assert_eq!(m.step(), Outcome::Running);
    assert_eq!(m.current.pointer, 6);
    assert_eq!(m.step(), Outcome::Stopped(Status::Success));
}

#[test]
fn structures_are_built_read_and_written() {
    let mut constants = i64_entry(5);
    constants.extend(i64_entry(9));
    // push 4; r1 = 5; r2 = 9; r3 = {r1, r2}; r0 = r3.1; r3.0 = r2; r4 = r3.0; return
    let code = vec![5, 4, 21, 1, 0, 21, 2, 1, 8, 3, 2, 1, 2, 9, 0, 3, 1, 10, 3, 2, 0, 9, 4, 3, 0, 0];
    let mut m = machine(code, constants);
    assert_eq!(run(&mut m), Outcome::Stopped(Status::Success));
    assert_eq!(m.stack.reg(3).tag(), TAG_STRUCT);
    assert_eq!(m.stack.reg(0).as_i64(), 9);
    assert_eq!(m.stack.reg(4).as_i64(), 9);
    let fields = m.objects.get(m.stack.reg(3).as_object()).structure().fields().to_vec();
    assert_eq!(fields, vec![VMData::new_i64(9), VMData::new_i64(9)]);
}

#[test]
fn field_out_of_range_is_a_fault() {
    let constants = i64_entry(5);
    let code = vec![5, 2, 21, 1, 0, 8, 2, 1, 1, 9, 0, 2, 1, 0];
    let mut m = machine(code, constants);
    for _ in 0..3 {
        assert_eq!(m.step(), Outcome::Running);
    }
    assert!(matches!(m.step(), Outcome::Fault(_)));
}

#[test]
fn float_arithmetic_is_handed_back() {
    let mut constants = f64_entry(1.5);
    constants.extend(f64_entry(2.25));
    let code = vec![5, 2, 21, 1, 0, 21, 2, 1, 11, 0, 1, 2, 0];
    let mut m = machine(code, constants);
    for _ in 0..3 {
        assert_eq!(m.step(), Outcome::Running);
    }
    let r = m.step();
    let (left, right) = match r {
        Outcome::Float { op: Bytecode::Add, dst: 0, left, right } => (left, right),
        other => panic!("unexpected {:?}", other),
    };
    assert_eq!(f64::from_bits(left.data), 1.5);
    assert_eq!(f64::from_bits(right.data), 2.25);
    let sum = VMData::new(TAG_FLOAT, (1.5f64 + 2.25).to_bits());
    assert_eq!(m.finish_float(0, sum), Outcome::Running);
    assert_eq!(m.stack.reg(0), sum);
    assert_eq!(m.step(), Outcome::Stopped(Status::Success));
}

#[test]
fn finish_float_outside_the_frame_is_a_fault() {
    let mut m = machine(vec![0], vec![]);
    let v = VMData::new(TAG_FLOAT, 0);
    assert!(matches!(m.finish_float(5, v), Outcome::Fault(_)));
    assert_eq!(m.stack.reg(0), VMData::new_unit());
}

#[test]
fn integer_casts_and_negation() {
    let constants = i64_entry(300);
    // r1 = 300; r2 = u8(r1); r0 = -r1
    let code = vec![5, 2, 21, 1, 0, 32, 2, 1, 27, 0, 1, 0];
    let mut m = machine(code, constants);
    assert_eq!(run(&mut m), Outcome::Stopped(Status::Success));
    assert_eq!(m.stack.reg(2).as_u8(), 44);
    assert_eq!(m.stack.reg(0).as_i64(), -300);
}

#[test]
fn push_past_the_stack_overflows() {
    // The main stack holds 65536 registers: 258 pushes of 255 go past it.
    let mut code = Vec::new();
    for _ in 0..258 {
        code.push(5u8);
        code.push(255u8);
    }
    code.push(0);
    let mut m = machine(code, vec![]);
    match run(&mut m) {
        Outcome::Stopped(Status::Failure(e)) => assert_eq!(e.message, "stack overflow"),
        other => panic!("unexpected {:?}", other),
    }
}

#[test]
fn string_constants_go_to_the_heap() {
    let mut constants = str_entry("hello");
    constants.extend(i64_entry(3));
    let m = machine(vec![0], constants);
    assert_eq!(m.constants.len(), 2);
    assert_eq!(m.constants[0].tag(), TAG_STR);
    assert_eq!(m.objects.get(m.constants[0].as_object()).string(), "hello");
    assert_eq!(m.constants[1], VMData::new_i64(3));
}

#[test]
fn constant_kinds_decode() {
    let mut constants = vec![1u8, 1, 3, 0xff, 4];
    constants.extend_from_slice(&(-2i16).to_le_bytes());
    constants.push(9);
    constants.extend_from_slice(&70000u32.to_le_bytes());
    constants.push(10);
    constants.extend_from_slice(&u64::MAX.to_le_bytes());
    let m = machine(vec![0], constants);
    assert_eq!(m.constants.len(), 5);
    assert!(m.constants[0].as_bool());
    assert_eq!(m.constants[1].as_i8(), -1);
    assert_eq!(m.constants[2].as_i16(), -2);
    assert_eq!(m.constants[3].as_u32(), 70000);
    assert_eq!(m.constants[4].as_u64(), u64::MAX);
}

#[test]
fn too_many_strings_run_out_of_memory() {
    let mut constants = str_entry("a");
    constants.extend(str_entry("b"));
    constants.extend(str_entry("c"));
    let mut m = Machine::new(vec![0], 2);
    let r = m.bytes_to_constants(&constants);
    assert_eq!(r.unwrap_err().message, "out of memory");
    assert_eq!(m.constants.len(), 2);
}

#[test]
fn malformed_tables_are_refused() {
    assert!(constant_table_valid(&[]));
    assert!(constant_table_valid(&i64_entry(1)));
    assert!(!constant_table_valid(&[11]));
    assert!(!constant_table_valid(&[6, 1, 2]));
    let mut bad_text = vec![2u8];
    bad_text.extend_from_slice(&1u64.to_le_bytes());
    bad_text.push(0xff);
    assert!(!constant_table_valid(&bad_text));
    let mut short_text = vec![2u8];
    short_text.extend_from_slice(&5u64.to_le_bytes());
    short_text.push(b'a');
    assert!(!constant_table_valid(&short_text));
}

#[test]
fn swap_acts_on_the_current_frame() {
    let constants = i64_entry(21);
    // 0: push 2; 2: r1 = c0; 5: call 14 (dst r2, args [r1]); 13: return
    // 14: swap r0 r1; 17: return
    let mut code = vec![5, 2, 21, 1, 0, 3];
    code.extend_from_slice(&14u32.to_le_bytes());
    code.extend_from_slice(&[2, 1, 1, 0, 2, 0, 1, 0]);
    let mut m = machine(code, constants);
    assert_eq!(run(&mut m), Outcome::Stopped(Status::Success));
    assert_eq!(m.stack.reg(2).as_i64(), 21);
    assert_eq!(m.stack.reg(1).as_i64(), 21);
    assert_eq!(m.stack.reg(0), VMData::new_unit());
}

#[test]
fn swap_outside_the_frame_is_a_fault() {
    let code = vec![5, 1, 2, 0, 5, 0];
    let mut m = machine(code, vec![]);
    assert_eq!(m.step(), Outcome::Running);
    assert!(matches!(m.step(), Outcome::Fault(_)));
    assert_eq!(m.current.pointer, 2);
}
