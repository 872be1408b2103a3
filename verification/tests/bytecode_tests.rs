use azurite::bytecode::Bytecode;
use azurite::codegen::BytecodeModule;
use azurite::instruction::{decode, Disassembler, Instruction};
use azurite::ir::{FunctionIndex, FunctionLookup, Variable, IR};

#[test]
fn opcode_numbers() {
    assert_eq!(Bytecode::Return.as_u8(), 0);
    assert_eq!(Bytecode::JumpCond.as_u8(), 24);
    assert_eq!(Bytecode::CastToFloat.as_u8(), 36);
    assert_eq!(Bytecode::from_u8(11), Some(Bytecode::Add));
    assert_eq!(Bytecode::from_u8(37), None);
    for v in 0..=255u8 {
        if let Some(b) = Bytecode::from_u8(v) {
            assert_eq!(b.as_u8(), v);
        }
    }
}

fn emitted(ir: IR) -> Vec<u8> {
    let mut m = BytecodeModule::new();
    m.ir(ir);
    m.bytecode
}

#[test]
fn binary_instruction_layout() {
    let bytes = emitted(IR::Add { dst: Variable(1), left: Variable(2), right: Variable(3) });
    assert_eq!(bytes, vec![11, 1, 2, 3]);
    assert_eq!(
        decode(&bytes, 0),
        Some((Instruction::Binary { op: Bytecode::Add, dst: 1, left: 2, right: 3 }, 4))
    );
}

#[test]
fn registers_are_written_as_their_low_byte() {
    let bytes = emitted(IR::Copy { dst: Variable(257), src: Variable(2) });
    assert_eq!(bytes, vec![1, 1, 2]);
}

#[test]
fn calls_wait_for_linking() {
    let mut m = BytecodeModule::new();
    m.emit_byte(99);
    m.ir(IR::Call { dst: Variable(0), id: FunctionIndex(4), args: vec![Variable(1), Variable(2)] });
    assert_eq!(m.bytecode, vec![99, 3, 255, 255, 255, 255, 0, 2, 1, 2]);
    assert_eq!(m.function_calls, vec![(FunctionIndex(4), 1)]);
    assert_eq!(
        decode(&m.bytecode, 1),
        Some((Instruction::Call { function: u32::MAX, dst: 0, args: vec![1, 2] }, 10))
    );
}

#[test]
fn extern_calls_carry_their_index() {
    let bytes = emitted(IR::ExtCall { dst: Variable(5), id: FunctionIndex(0x01020304), args: vec![] });
    assert_eq!(bytes, vec![4, 4, 3, 2, 1, 5, 0]);
    assert_eq!(decode(&bytes, 0), Some((Instruction::ExtCall { index: 0x01020304, dst: 5, args: vec![] }, 7)));
}

#[test]
fn noop_writes_nothing() {
    assert_eq!(emitted(IR::Noop), Vec::<u8>::new());
}

#[test]
fn every_lowered_instruction_reads_back() {
    let all = vec![
        IR::Copy { dst: Variable(1), src: Variable(2) },
        IR::Swap { v1: Variable(1), v2: Variable(2) },
        IR::Load { dst: Variable(3), data: 7 },
        IR::Unit { dst: Variable(3) },
        IR::Subtract { dst: Variable(1), left: Variable(2), right: Variable(3) },
        IR::Multiply { dst: Variable(1), left: Variable(2), right: Variable(3) },
        IR::Divide { dst: Variable(1), left: Variable(2), right: Variable(3) },
        IR::Modulo { dst: Variable(1), left: Variable(2), right: Variable(3) },
        IR::Equals { dst: Variable(1), left: Variable(2), right: Variable(3) },
        IR::NotEquals { dst: Variable(1), left: Variable(2), right: Variable(3) },
        IR::GreaterThan { dst: Variable(1), left: Variable(2), right: Variable(3) },
        IR::LesserThan { dst: Variable(1), left: Variable(2), right: Variable(3) },
        IR::GreaterEquals { dst: Variable(1), left: Variable(2), right: Variable(3) },
        IR::LesserEquals { dst: Variable(1), left: Variable(2), right: Variable(3) },
        IR::UnaryNot { dst: Variable(1), val: Variable(2) },
        IR::UnaryNeg { dst: Variable(1), val: Variable(2) },
        IR::Struct { dst: Variable(1), fields: vec![Variable(4), Variable(5)] },
        IR::AccStruct { dst: Variable(1), val: Variable(2), index: 3 },
        IR::SetField { dst: Variable(1), data: Variable(2), index: 3 },
        IR::CastToI8 { dst: Variable(1), val: Variable(2) },
        IR::CastToI16 { dst: Variable(1), val: Variable(2) },
        IR::CastToI32 { dst: Variable(1), val: Variable(2) },
        IR::CastToI64 { dst: Variable(1), val: Variable(2) },
        IR::CastToU8 { dst: Variable(1), val: Variable(2) },
        IR::CastToU16 { dst: Variable(1), val: Variable(2) },
        IR::CastToU32 { dst: Variable(1), val: Variable(2) },
        IR::CastToU64 { dst: Variable(1), val: Variable(2) },
        IR::CastToFloat { dst: Variable(1), val: Variable(2) },
    ];
    let mut m = BytecodeModule::new();
    for i in &all {
        m.ir(i.clone());
    }
    let mut d = Disassembler { code: m.bytecode.clone(), top: 0 };
    let mut count = 0;
    while let Some(_) = d.instruction() {
        count += 1;
    }
    assert_eq!(count, all.len());
    assert_eq!(d.top, m.bytecode.len());
}

#[test]
fn jumps_and_extern_files_decode() {
    let mut code = vec![23, 1, 0, 0, 0, 24, 2, 3, 0, 0, 0, 4, 0, 0, 0];
    code.extend_from_slice(&[7, b'l', b'i', b'b', 0, 1, 9, 0, 0, 0, b'f', 0]);
    let (a, n) = decode(&code, 0).unwrap();
    assert_eq!(a, Instruction::Jump { to: 1 });
    let (b, n2) = decode(&code, n).unwrap();
    assert_eq!(b, Instruction::JumpCond { cond: 2, if_true: 3, if_false: 4 });
    let (c, n3) = decode(&code, n2).unwrap();
    assert_eq!(c, Instruction::ExternFile { file: b"lib".to_vec(), functions: vec![(9, b"f".to_vec())] });
    assert_eq!(n3, code.len());
}

#[test]
fn malformed_bytes_are_refused() {
    assert_eq!(decode(&[200], 0), None);
    assert_eq!(decode(&[11, 1, 2], 0), None);
    assert_eq!(decode(&[3, 0, 0, 0, 0, 1, 3, 1], 0), None);
    assert_eq!(decode(&[7, b'a'], 0), None);
    assert_eq!(decode(&[], 0), None);
}

#[test]
fn disassembler_fields() {
    let mut d = Disassembler { code: vec![5, 9, 1, 0, 0, 0, b'o', b'k', 0], top: 0 };
    assert_eq!(d.bytecode(), Bytecode::Push);
    assert_eq!(d.next(), 9);
    assert_eq!(d.u32(), 1);
    assert_eq!(d.string(), "ok");
    assert_eq!(d.top, 9);
    assert_eq!(d.instruction(), None);
}

#[test]
fn emit_numbers() {
    let mut m = BytecodeModule::new();
    m.emit_u32(0x0a0b0c0d);
    m.emit_u64(1);
    m.emit_bytecode(Bytecode::Pop);
    assert_eq!(m.bytecode, vec![0x0d, 0x0c, 0x0b, 0x0a, 1, 0, 0, 0, 0, 0, 0, 0, 6]);
}

#[test]
fn function_lookup_number() {
    assert_eq!(FunctionLookup::Normal(FunctionIndex(3)).without_type(), 3);
    assert_eq!(FunctionLookup::Extern(8).without_type(), 8);
}
