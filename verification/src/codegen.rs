//! Lowering register instructions to bytecode. Registers, constant indices
//! and counts are written as one byte each (the low byte of their number),
//! a call's target as four bytes that stay `u32::MAX` until the call is
//! linked to the start of the called function.
use vstd::prelude::*;
use vstd::bytes::{spec_u32_to_le_bytes, spec_u64_to_le_bytes, u32_to_le_bytes, u64_to_le_bytes, lemma_auto_spec_u32_to_from_le_bytes};
use crate::bytecode::{Bytecode, opcode};
use crate::instruction::{Op, op_bytes, op_wf, decode_at, law_decode_op_bytes};
use crate::ir::{IR, Variable, FunctionIndex, Block, BlockIndex, BlockTerminator, Function, used_registers};
use crate::ast_to_ir::ExternFunction;
use crate::constants::symbol_bytes;
use crate::instruction::{zstr_bytes, functions_bytes};
use crate::symbol_table::{SymbolIndex, SymbolTable, SymbolValue};
use crate::values::{arith, order, is_arith, is_order, tdiv, trem};
use crate::vm::cast_target;
use crate::optimize::written;
use crate::runtime::{TAG_I8, TAG_I16, TAG_I32, TAG_I64, TAG_U8, TAG_U16, TAG_U32, TAG_U64, TAG_FLOAT};

verus! {

/// The byte a register is written as.
pub open spec fn reg(v: Variable) -> u8 {
    v.0 as u8
}

/// The bytes a list of registers is written as.
pub open spec fn regs(vs: Seq<Variable>) -> Seq<u8> {
    vs.map_values(|v: Variable| reg(v))
}

/// The instruction a register instruction is lowered to.
pub open spec fn ir_op(i: IR) -> Op {
    match i {
        IR::Copy { dst, src } => Op::Copy { dst: reg(dst), src: reg(src) },
        IR::Swap { v1, v2 } => Op::Swap { v1: reg(v1), v2: reg(v2) },
        IR::Load { dst, data } => Op::LoadConst { dst: reg(dst), index: data as u8 },
        IR::Unit { dst } => Op::Unit { dst: reg(dst) },
        IR::Add { dst, left, right } => Op::Binary { op: Bytecode::Add, dst: reg(dst), left: reg(left), right: reg(right) },
        IR::Subtract { dst, left, right } => Op::Binary { op: Bytecode::Subtract, dst: reg(dst), left: reg(left), right: reg(right) },
        IR::Multiply { dst, left, right } => Op::Binary { op: Bytecode::Multiply, dst: reg(dst), left: reg(left), right: reg(right) },
        IR::Divide { dst, left, right } => Op::Binary { op: Bytecode::Divide, dst: reg(dst), left: reg(left), right: reg(right) },
        IR::Modulo { dst, left, right } => Op::Binary { op: Bytecode::Modulo, dst: reg(dst), left: reg(left), right: reg(right) },
        IR::Equals { dst, left, right } => Op::Binary { op: Bytecode::Equals, dst: reg(dst), left: reg(left), right: reg(right) },
        IR::NotEquals { dst, left, right } => Op::Binary { op: Bytecode::NotEquals, dst: reg(dst), left: reg(left), right: reg(right) },
        IR::GreaterThan { dst, left, right } => Op::Binary { op: Bytecode::GreaterThan, dst: reg(dst), left: reg(left), right: reg(right) },
        IR::LesserThan { dst, left, right } => Op::Binary { op: Bytecode::LesserThan, dst: reg(dst), left: reg(left), right: reg(right) },
        IR::GreaterEquals { dst, left, right } => Op::Binary { op: Bytecode::GreaterEquals, dst: reg(dst), left: reg(left), right: reg(right) },
        IR::LesserEquals { dst, left, right } => Op::Binary { op: Bytecode::LesserEquals, dst: reg(dst), left: reg(left), right: reg(right) },
        IR::UnaryNot { dst, val } => Op::Unary { op: Bytecode::UnaryNot, dst: reg(dst), val: reg(val) },
        IR::UnaryNeg { dst, val } => Op::Unary { op: Bytecode::UnaryNeg, dst: reg(dst), val: reg(val) },
        IR::Call { dst, args, .. } => Op::Call { function: u32::MAX, dst: reg(dst), args: regs(args@) },
        IR::ExtCall { dst, id, args } => Op::ExtCall { index: id.0, dst: reg(dst), args: regs(args@) },
        IR::Struct { dst, fields } => Op::Struct { dst: reg(dst), fields: regs(fields@) },
        IR::AccStruct { dst, val, index } => Op::AccStruct { dst: reg(dst), val: reg(val), index },
        IR::SetField { dst, data, index } => Op::SetField { dst: reg(dst), data: reg(data), index },
        IR::CastToI8 { dst, val } => Op::Unary { op: Bytecode::CastToI8, dst: reg(dst), val: reg(val) },
        IR::CastToI16 { dst, val } => Op::Unary { op: Bytecode::CastToI16, dst: reg(dst), val: reg(val) },
        IR::CastToI32 { dst, val } => Op::Unary { op: Bytecode::CastToI32, dst: reg(dst), val: reg(val) },
        IR::CastToI64 { dst, val } => Op::Unary { op: Bytecode::CastToI64, dst: reg(dst), val: reg(val) },
        IR::CastToU8 { dst, val } => Op::Unary { op: Bytecode::CastToU8, dst: reg(dst), val: reg(val) },
        IR::CastToU16 { dst, val } => Op::Unary { op: Bytecode::CastToU16, dst: reg(dst), val: reg(val) },
        IR::CastToU32 { dst, val } => Op::Unary { op: Bytecode::CastToU32, dst: reg(dst), val: reg(val) },
        IR::CastToU64 { dst, val } => Op::Unary { op: Bytecode::CastToU64, dst: reg(dst), val: reg(val) },
        IR::CastToFloat { dst, val } => Op::Unary { op: Bytecode::CastToFloat, dst: reg(dst), val: reg(val) },
        IR::Noop => Op::Return,
    }
}

/// The bytes a register instruction is lowered to; a no-op writes none.
pub open spec fn ir_bytes(i: IR) -> Seq<u8> {
    if i is Noop {
        Seq::empty()
    } else {
        op_bytes(ir_op(i))
    }
}

/// Collects the bytecode of a program and the places where calls still
/// wait for the start of the function they call.
pub struct BytecodeModule {
    pub bytecode: Vec<u8>,
    pub function_calls: Vec<(FunctionIndex, usize)>,
}

impl BytecodeModule {
    /// An empty module.
    pub fn new() -> (r: BytecodeModule)
        ensures
            r.bytecode@ == Seq::<u8>::empty(),
            r.function_calls@ == Seq::<(FunctionIndex, usize)>::empty(),
    {
        BytecodeModule { bytecode: Vec::new(), function_calls: Vec::new() }
    }

    /// Appends one byte.
    pub fn emit_byte(&mut self, byte: u8)
        ensures
            final(self).bytecode@ == old(self).bytecode@.push(byte),
            final(self).function_calls == old(self).function_calls,
    {
        self.bytecode.push(byte);
    }

    /// Appends the byte of an opcode.
    pub fn emit_bytecode(&mut self, bytecode: Bytecode)
        ensures
            final(self).bytecode@ == old(self).bytecode@.push(opcode(bytecode)),
            final(self).function_calls == old(self).function_calls,
    {
        self.emit_byte(bytecode.as_u8());
    }

    /// Appends the four little-endian bytes of `value`.
    pub fn emit_u32(&mut self, value: u32)
        ensures
            final(self).bytecode@ == old(self).bytecode@ + spec_u32_to_le_bytes(value),
            final(self).function_calls == old(self).function_calls,
    {
        let bytes = u32_to_le_bytes(value);
        self.emit_byte(bytes[0]);
        self.emit_byte(bytes[1]);
        self.emit_byte(bytes[2]);
        self.emit_byte(bytes[3]);
        assert(self.bytecode@ =~= old(self).bytecode@ + spec_u32_to_le_bytes(value));
    }

    /// Appends the eight little-endian bytes of `value`.
    pub fn emit_u64(&mut self, value: u64)
        ensures
            final(self).bytecode@ == old(self).bytecode@ + spec_u64_to_le_bytes(value),
            final(self).function_calls == old(self).function_calls,
    {
        let bytes = u64_to_le_bytes(value);
        self.emit_byte(bytes[0]);
        self.emit_byte(bytes[1]);
        self.emit_byte(bytes[2]);
        self.emit_byte(bytes[3]);
        self.emit_byte(bytes[4]);
        self.emit_byte(bytes[5]);
        self.emit_byte(bytes[6]);
        self.emit_byte(bytes[7]);
        assert(self.bytecode@ =~= old(self).bytecode@ + spec_u64_to_le_bytes(value));
    }

    /// Appends a count byte and one byte per register.
    fn emit_registers(&mut self, vs: &Vec<Variable>)
        ensures
            final(self).bytecode@ == old(self).bytecode@ + seq![vs@.len() as u8] + regs(vs@),
            final(self).function_calls == old(self).function_calls,
    {
        self.emit_byte(vs.len() as u8);
        let mut i: usize = 0;
        while i < vs.len()
            invariant
                i <= vs@.len(),
                self.function_calls == old(self).function_calls,
                self.bytecode@ == old(self).bytecode@ + seq![vs@.len() as u8] + regs(vs@.subrange(0, i as int)),
            decreases vs@.len() - i,
        {
            self.emit_byte(vs[i].0 as u8);
            i = i + 1;
            assert(regs(vs@.subrange(0, i as int)) =~= regs(vs@.subrange(0, i - 1 as int)).push(reg(vs@[i - 1])));
        }
        assert(vs@.subrange(0, vs@.len() as int) =~= vs@);
    }

    fn emit2(&mut self, b: Bytecode, x: u8, y: u8)
        ensures
            final(self).bytecode@ == old(self).bytecode@ + seq![opcode(b), x, y],
            final(self).function_calls == old(self).function_calls,
    {
        self.emit_bytecode(b);
        self.emit_byte(x);
        self.emit_byte(y);
        assert(self.bytecode@ =~= old(self).bytecode@ + seq![opcode(b), x, y]);
    }

    fn emit3(&mut self, b: Bytecode, x: u8, y: u8, z: u8)
        ensures
            final(self).bytecode@ == old(self).bytecode@ + seq![opcode(b), x, y, z],
            final(self).function_calls == old(self).function_calls,
    {
        self.emit_bytecode(b);
        self.emit_byte(x);
        self.emit_byte(y);
        self.emit_byte(z);
        assert(self.bytecode@ =~= old(self).bytecode@ + seq![opcode(b), x, y, z]);
    }

    /// Appends the bytecode of one register instruction. A call is written
    /// with the target `u32::MAX` and its position is recorded, so that it
    /// can be linked once every function's start is known.
    pub fn ir(&mut self, ir: IR)
        ensures
            final(self).bytecode@ == old(self).bytecode@ + ir_bytes(ir),
            final(self).function_calls@ == (match ir {
                IR::Call { id, .. } => old(self).function_calls@.push((id, old(self).bytecode@.len() as usize)),
                _ => old(self).function_calls@,
            }),
    {
        match ir {
            IR::Copy { dst, src } => self.emit2(Bytecode::Copy, dst.0 as u8, src.0 as u8),
            IR::Swap { v1, v2 } => self.emit2(Bytecode::Swap, v1.0 as u8, v2.0 as u8),
            IR::Load { dst, data } => self.emit2(Bytecode::LoadConst, dst.0 as u8, data as u8),
            IR::Call { id, dst, args } => {
                let at = self.bytecode.len();
                self.function_calls.push((id, at));
                self.emit_bytecode(Bytecode::Call);
                self.emit_u32(u32::MAX);
                self.emit_byte(dst.0 as u8);
                self.emit_registers(&args);
                assert(self.bytecode@ =~= old(self).bytecode@ + ir_bytes(ir));
            },
            IR::ExtCall { id, dst, args } => {
                self.emit_bytecode(Bytecode::ExtCall);
                self.emit_u32(id.0);
                self.emit_byte(dst.0 as u8);
                self.emit_registers(&args);
                assert(self.bytecode@ =~= old(self).bytecode@ + ir_bytes(ir));
            },
            IR::Add { dst, left, right } => self.emit3(Bytecode::Add, dst.0 as u8, left.0 as u8, right.0 as u8),
            IR::Subtract { dst, left, right } => self.emit3(Bytecode::Subtract, dst.0 as u8, left.0 as u8, right.0 as u8),
            IR::Multiply { dst, left, right } => self.emit3(Bytecode::Multiply, dst.0 as u8, left.0 as u8, right.0 as u8),
            IR::Divide { dst, left, right } => self.emit3(Bytecode::Divide, dst.0 as u8, left.0 as u8, right.0 as u8),
            IR::Modulo { dst, left, right } => self.emit3(Bytecode::Modulo, dst.0 as u8, left.0 as u8, right.0 as u8),
            IR::Equals { dst, left, right } => self.emit3(Bytecode::Equals, dst.0 as u8, left.0 as u8, right.0 as u8),
            IR::NotEquals { dst, left, right } => self.emit3(Bytecode::NotEquals, dst.0 as u8, left.0 as u8, right.0 as u8),
            IR::GreaterThan { dst, left, right } => self.emit3(Bytecode::GreaterThan, dst.0 as u8, left.0 as u8, right.0 as u8),
            IR::LesserThan { dst, left, right } => self.emit3(Bytecode::LesserThan, dst.0 as u8, left.0 as u8, right.0 as u8),
            IR::GreaterEquals { dst, left, right } => self.emit3(Bytecode::GreaterEquals, dst.0 as u8, left.0 as u8, right.0 as u8),
            IR::LesserEquals { dst, left, right } => self.emit3(Bytecode::LesserEquals, dst.0 as u8, left.0 as u8, right.0 as u8),
            IR::Unit { dst } => {
                self.emit_bytecode(Bytecode::Unit);
                self.emit_byte(dst.0 as u8);
                assert(self.bytecode@ =~= old(self).bytecode@ + ir_bytes(ir));
            },
            IR::Struct { dst, fields } => {
                self.emit_bytecode(Bytecode::Struct);
                self.emit_byte(dst.0 as u8);
                self.emit_registers(&fields);
                assert(self.bytecode@ =~= old(self).bytecode@ + ir_bytes(ir));
            },
            IR::AccStruct { dst, val, index } => self.emit3(Bytecode::AccStruct, dst.0 as u8, val.0 as u8, index),
            IR::SetField { dst, data, index } => self.emit3(Bytecode::SetField, dst.0 as u8, data.0 as u8, index),
            IR::Noop => {
                assert(self.bytecode@ =~= old(self).bytecode@ + ir_bytes(ir));
            },
            IR::UnaryNot { dst, val } => self.emit2(Bytecode::UnaryNot, dst.0 as u8, val.0 as u8),
            IR::UnaryNeg { dst, val } => self.emit2(Bytecode::UnaryNeg, dst.0 as u8, val.0 as u8),
            IR::CastToI8 { dst, val } => self.emit2(Bytecode::CastToI8, dst.0 as u8, val.0 as u8),
            IR::CastToI16 { dst, val } => self.emit2(Bytecode::CastToI16, dst.0 as u8, val.0 as u8),
            IR::CastToI32 { dst, val } => self.emit2(Bytecode::CastToI32, dst.0 as u8, val.0 as u8),
            IR::CastToI64 { dst, val } => self.emit2(Bytecode::CastToI64, dst.0 as u8, val.0 as u8),
            IR::CastToU8 { dst, val } => self.emit2(Bytecode::CastToU8, dst.0 as u8, val.0 as u8),
            IR::CastToU16 { dst, val } => self.emit2(Bytecode::CastToU16, dst.0 as u8, val.0 as u8),
            IR::CastToU32 { dst, val } => self.emit2(Bytecode::CastToU32, dst.0 as u8, val.0 as u8),
            IR::CastToU64 { dst, val } => self.emit2(Bytecode::CastToU64, dst.0 as u8, val.0 as u8),
            IR::CastToFloat { dst, val } => self.emit2(Bytecode::CastToFloat, dst.0 as u8, val.0 as u8),
        }
    }
}

/// The bytes of register instructions, one after the other.
pub open spec fn irs_bytes(s: Seq<IR>) -> Seq<u8>
    decreases s.len(),
{
    if s.len() == 0 {
        Seq::empty()
    } else {
        irs_bytes(s.drop_last()) + ir_bytes(s.last())
    }
}

/// The calls a register instruction records: its target and where its
/// opcode stands, `at` being where the instruction is written.
pub open spec fn ir_calls(i: IR, at: nat) -> Seq<(FunctionIndex, usize)> {
    match i {
        IR::Call { id, .. } => seq![(id, at as usize)],
        _ => Seq::empty(),
    }
}

/// The calls a list of register instructions written at `at` records.
pub open spec fn irs_calls(s: Seq<IR>, at: nat) -> Seq<(FunctionIndex, usize)>
    decreases s.len(),
{
    if s.len() == 0 {
        Seq::empty()
    } else {
        irs_calls(s.drop_last(), at) + ir_calls(s.last(), at + irs_bytes(s.drop_last()).len())
    }
}

/// A copy of a register instruction.
fn copy_ir(i: &IR) -> (r: IR)
    ensures
        ir_bytes(r) == ir_bytes(*i),
        ir_calls(r, 0) == ir_calls(*i, 0),
        forall|at: nat| ir_calls(r, at) == ir_calls(*i, at),
{
    match i {
        IR::Call { id, dst, args } => {
            let a = args.clone();
            assert(a@ =~= args@) by {
                assert forall|k: int| 0 <= k < a@.len() implies a@[k] == args@[k] by {
                    assert(vstd::pervasive::cloned(args@[k], a@[k]));
                }
            }
            IR::Call { id: *id, dst: *dst, args: a }
        },
        IR::ExtCall { id, dst, args } => {
            let a = args.clone();
            assert(a@ =~= args@) by {
                assert forall|k: int| 0 <= k < a@.len() implies a@[k] == args@[k] by {
                    assert(vstd::pervasive::cloned(args@[k], a@[k]));
                }
            }
            IR::ExtCall { id: *id, dst: *dst, args: a }
        },
        IR::Struct { dst, fields } => {
            let a = fields.clone();
            assert(a@ =~= fields@) by {
                assert forall|k: int| 0 <= k < a@.len() implies a@[k] == fields@[k] by {
                    assert(vstd::pervasive::cloned(fields@[k], a@[k]));
                }
            }
            IR::Struct { dst: *dst, fields: a }
        },
        IR::Copy { dst, src } => IR::Copy { dst: *dst, src: *src },
        IR::Swap { v1, v2 } => IR::Swap { v1: *v1, v2: *v2 },
        IR::Load { dst, data } => IR::Load { dst: *dst, data: *data },
        IR::Unit { dst } => IR::Unit { dst: *dst },
        IR::Add { dst, left, right } => IR::Add { dst: *dst, left: *left, right: *right },
        IR::Subtract { dst, left, right } => IR::Subtract { dst: *dst, left: *left, right: *right },
        IR::Multiply { dst, left, right } => IR::Multiply { dst: *dst, left: *left, right: *right },
        IR::Divide { dst, left, right } => IR::Divide { dst: *dst, left: *left, right: *right },
        IR::Modulo { dst, left, right } => IR::Modulo { dst: *dst, left: *left, right: *right },
        IR::Equals { dst, left, right } => IR::Equals { dst: *dst, left: *left, right: *right },
        IR::NotEquals { dst, left, right } => IR::NotEquals { dst: *dst, left: *left, right: *right },
        IR::GreaterThan { dst, left, right } => IR::GreaterThan { dst: *dst, left: *left, right: *right },
        IR::LesserThan { dst, left, right } => IR::LesserThan { dst: *dst, left: *left, right: *right },
        IR::GreaterEquals { dst, left, right } => IR::GreaterEquals { dst: *dst, left: *left, right: *right },
        IR::LesserEquals { dst, left, right } => IR::LesserEquals { dst: *dst, left: *left, right: *right },
        IR::UnaryNot { dst, val } => IR::UnaryNot { dst: *dst, val: *val },
        IR::UnaryNeg { dst, val } => IR::UnaryNeg { dst: *dst, val: *val },
        IR::AccStruct { dst, val, index } => IR::AccStruct { dst: *dst, val: *val, index: *index },
        IR::SetField { dst, data, index } => IR::SetField { dst: *dst, data: *data, index: *index },
        IR::CastToI8 { dst, val } => IR::CastToI8 { dst: *dst, val: *val },
        IR::CastToI16 { dst, val } => IR::CastToI16 { dst: *dst, val: *val },
        IR::CastToI32 { dst, val } => IR::CastToI32 { dst: *dst, val: *val },
        IR::CastToI64 { dst, val } => IR::CastToI64 { dst: *dst, val: *val },
        IR::CastToU8 { dst, val } => IR::CastToU8 { dst: *dst, val: *val },
        IR::CastToU16 { dst, val } => IR::CastToU16 { dst: *dst, val: *val },
        IR::CastToU32 { dst, val } => IR::CastToU32 { dst: *dst, val: *val },
        IR::CastToU64 { dst, val } => IR::CastToU64 { dst: *dst, val: *val },
        IR::CastToFloat { dst, val } => IR::CastToFloat { dst: *dst, val: *val },
        IR::Noop => IR::Noop,
    }
}

impl BytecodeModule {
    /// Appends the bytecode of a list of register instructions.
    fn emit_irs(&mut self, instructions: &Vec<IR>)
        ensures
            final(self).bytecode@ == old(self).bytecode@ + irs_bytes(instructions@),
            final(self).function_calls@ == old(self).function_calls@ + irs_calls(instructions@, old(self).bytecode@.len()),
            final(self).function_calls@.len() >= old(self).function_calls@.len(),
            final(self).function_calls@.subrange(0, old(self).function_calls@.len() as int) == old(self).function_calls@,
            forall|k: int| old(self).function_calls@.len() <= k < final(self).function_calls@.len()
                ==> (#[trigger] final(self).function_calls@[k]).1 + 5 <= final(self).bytecode@.len(),
    {
        let mut i: usize = 0;
        assert(instructions@.take(0) =~= Seq::<IR>::empty());
        while i < instructions.len()
            invariant
                i <= instructions@.len(),
                self.bytecode@ == old(self).bytecode@ + irs_bytes(instructions@.take(i as int)),
                self.function_calls@ == old(self).function_calls@ + irs_calls(instructions@.take(i as int), old(self).bytecode@.len()),
                self.function_calls@.len() >= old(self).function_calls@.len(),
                self.function_calls@.subrange(0, old(self).function_calls@.len() as int) == old(self).function_calls@,
                forall|k: int| old(self).function_calls@.len() <= k < self.function_calls@.len()
                    ==> (#[trigger] self.function_calls@[k]).1 + 5 <= self.bytecode@.len(),
            decreases instructions@.len() - i,
        {
            let ghost before = *self;
            let ir = copy_ir(&instructions[i]);
            self.ir(ir);
            proof {
                let t = instructions@.take(i as int + 1);
                assert(t.drop_last() =~= instructions@.take(i as int));
                assert(t.last() == instructions@[i as int]);
                assert(self.bytecode@ =~= old(self).bytecode@ + irs_bytes(t));
                assert(before.bytecode@.len() == old(self).bytecode@.len() + irs_bytes(t.drop_last()).len());
                assert(self.function_calls@ =~= old(self).function_calls@ + irs_calls(t, old(self).bytecode@.len()));
                assert(self.function_calls@.subrange(0, old(self).function_calls@.len() as int)
                    =~= before.function_calls@.subrange(0, old(self).function_calls@.len() as int));
                if ir is Call {
                    lemma_auto_spec_u32_to_from_le_bytes();
                    assert(ir_bytes(ir).len() >= 5);
                }
            }
            i = i + 1;
        }
        assert(instructions@.take(instructions@.len() as int) =~= instructions@);
    }
}

/// How many bytes a terminator is written as: a jump five, a conditional
/// jump ten, a return three (the pop of the frame and the return).
pub open spec fn ending_size(t: BlockTerminator) -> nat {
    match t {
        BlockTerminator::Goto(_) => 5,
        BlockTerminator::SwitchBool { .. } => 10,
        BlockTerminator::Return => 3,
    }
}

/// How many bytes a block is written as.
pub open spec fn block_size(b: Block) -> nat {
    irs_bytes(b.instructions@).len() + ending_size(b.ending)
}

/// How many bytes the first `k` blocks are written as.
pub open spec fn offset(bs: Seq<Block>, k: int) -> nat
    decreases k,
{
    if k <= 0 || k > bs.len() {
        0
    } else {
        offset(bs, k - 1) + block_size(bs[k - 1])
    }
}

/// The position of the first block numbered `id` from `k` on.
pub open spec fn block_position(bs: Seq<Block>, id: BlockIndex, k: int) -> int
    decreases bs.len() - k,
{
    if k < 0 || k >= bs.len() {
        0
    } else if bs[k].block_index == id {
        k
    } else {
        block_position(bs, id, k + 1)
    }
}

/// Where the block numbered `id` starts, for a function written at `base`
/// (its first two bytes reserve the frame), cut to four bytes.
pub open spec fn jump_target(bs: Seq<Block>, base: nat, id: BlockIndex) -> u32 {
    (base + 2 + offset(bs, block_position(bs, id, 0))) as u32
}

/// The bytes a terminator is written as: a jump to the target block, a
/// conditional jump on a register to the two target blocks, or a return
/// that first pops `pop` registers.
pub open spec fn ending_bytes(t: BlockTerminator, bs: Seq<Block>, base: nat, pop: u8) -> Seq<u8> {
    match t {
        BlockTerminator::Goto(v) => op_bytes(Op::Jump { to: jump_target(bs, base, v) }),
        BlockTerminator::SwitchBool { cond, op1, op2 } => op_bytes(
            Op::JumpCond { cond: reg(cond), if_true: jump_target(bs, base, op1), if_false: jump_target(bs, base, op2) },
        ),
        BlockTerminator::Return => op_bytes(Op::Pop { amount: pop }) + op_bytes(Op::Return),
    }
}

/// The bytes of the first `k` blocks of `bs`.
pub open spec fn blocks_code(bs: Seq<Block>, k: int, base: nat, pop: u8) -> Seq<u8>
    decreases k,
{
    if k <= 0 || k > bs.len() {
        Seq::empty()
    } else {
        blocks_code(bs, k - 1, base, pop) + irs_bytes(bs[k - 1].instructions@) + ending_bytes(bs[k - 1].ending, bs, base, pop)
    }
}

/// The bytes of a function written at `base`: the push of the registers
/// beyond its arguments, then its blocks in order.
pub open spec fn function_code(f: Function, base: nat) -> Seq<u8> {
    op_bytes(Op::Push { amount: (f.stack_size - f.argument_count) as u8 }) + blocks_code(
        f.blocks@,
        f.blocks@.len() as int,
        base,
        (f.stack_size - 1) as u8,
    )
}

/// The calls the first `k` blocks of `bs` record, the function being
/// written at `base`.
pub open spec fn blocks_calls(bs: Seq<Block>, k: int, base: nat) -> Seq<(FunctionIndex, usize)>
    decreases k,
{
    if k <= 0 || k > bs.len() {
        Seq::empty()
    } else {
        blocks_calls(bs, k - 1, base) + irs_calls(bs[k - 1].instructions@, base + 2 + offset(bs, k - 1))
    }
}

/// The calls a function written at `base` records.
pub open spec fn function_calls_of(f: Function, base: nat) -> Seq<(FunctionIndex, usize)> {
    blocks_calls(f.blocks@, f.blocks@.len() as int, base)
}

proof fn lemma_blocks_code_len(bs: Seq<Block>, k: int, base: nat, pop: u8)
    requires
        0 <= k <= bs.len(),
    ensures
        blocks_code(bs, k, base, pop).len() == offset(bs, k),
    decreases k,
{
    if k > 0 {
        lemma_blocks_code_len(bs, k - 1, base, pop);
        lemma_ending_size(bs[k - 1].ending, bs, base, pop);
    }
}

/// Every jump of the function names one of its blocks.
pub open spec fn targets_named(bs: Seq<Block>) -> bool {
    forall|k: int| 0 <= k < bs.len() ==> ending_named((#[trigger] bs[k]).ending, bs)
}

/// The position of the first block numbered `id`.
fn find_block_position(blocks: &Vec<Block>, id: BlockIndex) -> (r: usize)
    requires
        exists|j: int| 0 <= j < blocks@.len() && (#[trigger] blocks@[j]).block_index == id,
    ensures
        r == block_position(blocks@, id, 0),
        r < blocks@.len(),
{
    let mut k: usize = 0;
    while k < blocks.len()
        invariant
            k <= blocks@.len(),
            block_position(blocks@, id, 0) == block_position(blocks@, id, k as int),
            forall|j: int| 0 <= j < k ==> (#[trigger] blocks@[j]).block_index != id,
            exists|j: int| 0 <= j < blocks@.len() && (#[trigger] blocks@[j]).block_index == id,
        decreases blocks@.len() - k,
    {
        if blocks[k].block_index == id {
            return k;
        }
        k = k + 1;
    }
    proof {
        let j = choose|j: int| 0 <= j < blocks@.len() && (#[trigger] blocks@[j]).block_index == id;
        assert(blocks@[j].block_index != id);
    }
    0
}

proof fn lemma_ending_size(t: BlockTerminator, bs: Seq<Block>, base: nat, pop: u8)
    ensures
        ending_bytes(t, bs, base, pop).len() == ending_size(t),
{
    lemma_auto_spec_u32_to_from_le_bytes();
}

/// The terminator `t` names only blocks of `bs`.
pub open spec fn ending_named(t: BlockTerminator, bs: Seq<Block>) -> bool {
    match t {
        BlockTerminator::Goto(v) => exists|j: int| 0 <= j < bs.len() && (#[trigger] bs[j]).block_index == v,
        BlockTerminator::SwitchBool { op1, op2, .. } => (exists|j: int| 0 <= j < bs.len() && (#[trigger] bs[j]).block_index == op1)
            && (exists|j: int| 0 <= j < bs.len() && (#[trigger] bs[j]).block_index == op2),
        BlockTerminator::Return => true,
    }
}

impl BytecodeModule {
    /// Appends a terminator, its jumps going to the starts in `starts`.
    fn emit_ending(&mut self, t: BlockTerminator, blocks: &Vec<Block>, starts: &Vec<usize>, base: usize, pop: u8)
        requires
            ending_named(t, blocks@),
            starts@.len() == blocks@.len(),
            forall|j: int| 0 <= j < blocks@.len() ==> #[trigger] starts@[j] == base + 2 + offset(blocks@, j),
        ensures
            final(self).bytecode@ == old(self).bytecode@ + ending_bytes(t, blocks@, base as nat, pop),
            final(self).function_calls == old(self).function_calls,
    {
        match t {
            BlockTerminator::Goto(v) => {
                let j = find_block_position(blocks, v);
                self.emit_bytecode(Bytecode::Jump);
                self.emit_u32(starts[j] as u32);
                assert(self.bytecode@ =~= old(self).bytecode@ + ending_bytes(t, blocks@, base as nat, pop));
            },
            BlockTerminator::SwitchBool { cond, op1, op2 } => {
                let j1 = find_block_position(blocks, op1);
                let j2 = find_block_position(blocks, op2);
                self.emit_bytecode(Bytecode::JumpCond);
                self.emit_byte(cond.0 as u8);
                self.emit_u32(starts[j1] as u32);
                self.emit_u32(starts[j2] as u32);
                assert(self.bytecode@ =~= old(self).bytecode@ + ending_bytes(t, blocks@, base as nat, pop));
            },
            BlockTerminator::Return => {
                self.emit_bytecode(Bytecode::Pop);
                self.emit_byte(pop);
                self.emit_bytecode(Bytecode::Return);
                assert(self.bytecode@ =~= old(self).bytecode@ + ending_bytes(t, blocks@, base as nat, pop));
            },
        }
    }

    /// Appends `n` bytes 255, room for a terminator still to be written.
    fn emit_room(&mut self, n: usize)
        ensures
            final(self).bytecode@.len() == old(self).bytecode@.len() + n,
            final(self).bytecode@.subrange(0, old(self).bytecode@.len() as int) == old(self).bytecode@,
            final(self).function_calls == old(self).function_calls,
    {
        let mut i: usize = 0;
        while i < n
            invariant
                i <= n,
                self.bytecode@.len() == old(self).bytecode@.len() + i,
                self.bytecode@.subrange(0, old(self).bytecode@.len() as int) == old(self).bytecode@,
                self.function_calls == old(self).function_calls,
            decreases n - i,
        {
            let ghost before = self.bytecode@;
            self.emit_byte(255);
            assert(self.bytecode@.subrange(0, old(self).bytecode@.len() as int) =~= before.subrange(0, old(self).bytecode@.len() as int));
            i = i + 1;
        }
    }

    /// Appends the bytecode of a function: the push that reserves the
    /// registers beyond its arguments, then each block's instructions and
    /// its terminator, the jumps going to where their blocks start.
    /// Records where the function starts, and the calls it makes.
    pub fn codegen_blocks(&mut self, function: &Function, function_starts: &mut Vec<(FunctionIndex, u32)>)
        requires
            function.argument_count <= function.stack_size,
            function.stack_size - function.argument_count <= 255,
            1 <= function.stack_size <= 256,
            targets_named(function.blocks@),
        ensures
            final(self).bytecode@ == old(self).bytecode@ + function_code(*function, old(self).bytecode@.len()),
            final(function_starts)@ == old(function_starts)@.push((function.function_index, old(self).bytecode@.len() as u32)),
            final(self).function_calls@ == old(self).function_calls@ + function_calls_of(*function, old(self).bytecode@.len()),
            final(self).function_calls@.len() >= old(self).function_calls@.len(),
            final(self).function_calls@.subrange(0, old(self).function_calls@.len() as int) == old(self).function_calls@,
            forall|k: int| old(self).function_calls@.len() <= k < final(self).function_calls@.len()
                ==> (#[trigger] final(self).function_calls@[k]).1 + 5 <= final(self).bytecode@.len(),
    {
        let ghost b0 = self.bytecode@;
        let ghost bs = function.blocks@;
        let base = self.bytecode.len();
        let calls_before = self.function_calls.len();
        function_starts.push((function.function_index, base as u32));
        let push_amount = (function.stack_size as usize - function.argument_count) as u8;
        let pop_amount = (function.stack_size - 1) as u8;
        // Where each block will start.
        self.emit_bytecode(Bytecode::Push);
        self.emit_byte(push_amount);
        let mut starts: Vec<usize> = Vec::new();
        let n = function.blocks.len();
        let mut k: usize = 0;
        while k < n
            invariant
                n == bs.len(),
                bs == function.blocks@,
                k <= n,
                self.bytecode@.len() == base + 2 + offset(bs, k as int),
                starts@.len() == k,
                forall|j: int| 0 <= j < k ==> #[trigger] starts@[j] == base + 2 + offset(bs, j),
                self.function_calls@.len() >= calls_before,
                calls_before == old(self).function_calls@.len(),
                self.function_calls@.subrange(0, calls_before as int) == old(self).function_calls@,
                self.bytecode@.subrange(0, base as int) == b0,
                base == b0.len(),
            decreases n - k,
        {
            starts.push(self.bytecode.len());
            let ghost pre = self.bytecode@;
            let ghost cpre = self.function_calls@;
            self.emit_irs(&function.blocks[k].instructions);
            assert(self.bytecode@.subrange(0, base as int) =~= pre.subrange(0, base as int));
            assert(self.function_calls@.subrange(0, calls_before as int) =~= cpre.subrange(0, calls_before as int));
            let ghost pre2 = self.bytecode@;
            let room: usize = match function.blocks[k].ending {
                BlockTerminator::Goto(_) => 5,
                BlockTerminator::SwitchBool { .. } => 10,
                BlockTerminator::Return => 3,
            };
            self.emit_room(room);
            proof {
                assert(self.bytecode@.subrange(0, base as int) =~= pre2.subrange(0, base as int));
                assert(bs[k as int] == function.blocks@[k as int]);
            }
            k = k + 1;
        }
        self.bytecode.truncate(base);
        self.function_calls.truncate(calls_before);
        assert(self.bytecode@ =~= b0);
        assert(self.function_calls@ =~= old(self).function_calls@);
        assert(self.function_calls@ =~= old(self).function_calls@ + blocks_calls(bs, 0, base as nat));
        // The code itself.
        self.emit_bytecode(Bytecode::Push);
        self.emit_byte(push_amount);
        let ghost head = op_bytes(Op::Push { amount: push_amount });
        assert(self.bytecode@ =~= b0 + head + blocks_code(bs, 0, base as nat, pop_amount));
        let mut k: usize = 0;
        while k < n
            invariant
                n == bs.len(),
                bs == function.blocks@,
                k <= n,
                starts@.len() == n,
                forall|j: int| 0 <= j < n ==> #[trigger] starts@[j] == base + 2 + offset(bs, j),
                targets_named(bs),
                self.bytecode@ == b0 + head + blocks_code(bs, k as int, base as nat, pop_amount),
                self.function_calls@ == old(self).function_calls@ + blocks_calls(bs, k as int, base as nat),
                head.len() == 2,
                self.function_calls@.len() >= old(self).function_calls@.len(),
                self.function_calls@.subrange(0, old(self).function_calls@.len() as int) == old(self).function_calls@,
                forall|c: int| old(self).function_calls@.len() <= c < self.function_calls@.len()
                    ==> (#[trigger] self.function_calls@[c]).1 + 5 <= self.bytecode@.len(),
                base == b0.len(),
            decreases n - k,
        {
            let ghost cpre = self.function_calls@;
            let ghost lpre = self.bytecode@.len();
            proof {
                lemma_blocks_code_len(bs, k as int, base as nat, pop_amount);
                assert(lpre == base + 2 + offset(bs, k as int));
            }
            self.emit_irs(&function.blocks[k].instructions);
            let ghost mid = self.bytecode@;
            let ending = function.blocks[k].ending;
            proof {
                assert(bs[k as int] == function.blocks@[k as int]);
                assert(targets_named(bs));
                assert(ending == bs[k as int].ending);
            }
            self.emit_ending(ending, &function.blocks, &starts, base, pop_amount);
            proof {
                let e = ending_bytes(bs[k as int].ending, bs, base as nat, pop_amount);
                assert(self.bytecode@ =~= mid + e);
                assert(self.bytecode@ =~= b0 + head + blocks_code(bs, k as int + 1, base as nat, pop_amount));
                assert(self.function_calls@ =~= old(self).function_calls@ + blocks_calls(bs, k as int + 1, base as nat));
                assert(self.function_calls@.subrange(0, old(self).function_calls@.len() as int)
                    =~= cpre.subrange(0, old(self).function_calls@.len() as int));
                assert forall|c: int| old(self).function_calls@.len() <= c < self.function_calls@.len()
                    implies (#[trigger] self.function_calls@[c]).1 + 5 <= self.bytecode@.len() by {
                    if c < cpre.len() {
                        assert(self.function_calls@.subrange(0, cpre.len() as int)[c] == cpre[c]);
                        assert(cpre[c].1 + 5 <= lpre);
                    } else {
                        assert(self.function_calls@[c].1 + 5 <= mid.len());
                    }
                }
            }
            k = k + 1;
        }
    }
}

/// Where the function numbered `id` starts, as the first entry for it in
/// `starts` records it.
pub open spec fn start_of(starts: Seq<(FunctionIndex, u32)>, id: FunctionIndex) -> u32
    decreases starts.len(),
{
    if starts.len() == 0 {
        0
    } else if starts[0].0 == id {
        starts[0].1
    } else {
        start_of(starts.drop_first(), id)
    }
}

/// `starts` has an entry for the function numbered `id`.
pub open spec fn has_start(starts: Seq<(FunctionIndex, u32)>, id: FunctionIndex) -> bool {
    exists|k: int| 0 <= k < starts.len() && (#[trigger] starts[k]).0 == id
}

/// `b` with the four bytes after `at` replaced by `target`, least
/// significant first.
pub open spec fn patch(b: Seq<u8>, at: int, target: u32) -> Seq<u8> {
    let t = spec_u32_to_le_bytes(target);
    b.update(at + 1, t[0]).update(at + 2, t[1]).update(at + 3, t[2]).update(at + 4, t[3])
}

/// `b` with every call of `calls` linked, in order, to the start of the
/// function it calls.
pub open spec fn linked(b: Seq<u8>, calls: Seq<(FunctionIndex, usize)>, starts: Seq<(FunctionIndex, u32)>) -> Seq<u8>
    decreases calls.len(),
{
    if calls.len() == 0 {
        b
    } else {
        patch(linked(b, calls.drop_last(), starts), calls.last().1 as int, start_of(starts, calls.last().0))
    }
}

/// The start of the function numbered `id`, found from the front.
fn find_start(starts: &Vec<(FunctionIndex, u32)>, id: FunctionIndex) -> (r: u32)
    requires
        has_start(starts@, id),
    ensures
        r == start_of(starts@, id),
{
    let mut k: usize = 0;
    assert(starts@.subrange(0, starts@.len() as int) =~= starts@);
    while k < starts.len()
        invariant
            k <= starts@.len(),
            has_start(starts@, id),
            forall|j: int| 0 <= j < k ==> (#[trigger] starts@[j]).0 != id,
            start_of(starts@, id) == start_of(starts@.subrange(k as int, starts@.len() as int), id),
        decreases starts@.len() - k,
    {
        let ghost rest = starts@.subrange(k as int, starts@.len() as int);
        assert(rest[0] == starts@[k as int]);
        if starts[k].0 == id {
            return starts[k].1;
        }
        assert(rest.drop_first() =~= starts@.subrange(k as int + 1, starts@.len() as int));
        k = k + 1;
    }
    proof {
        let j = choose|j: int| 0 <= j < starts@.len() && (#[trigger] starts@[j]).0 == id;
        assert(starts@[j].0 != id);
    }
    0
}

impl BytecodeModule {
    /// Links every recorded call to the start of the function it calls:
    /// the four bytes after each call's opcode become the start in
    /// `function_starts`, least significant first.
    pub fn link_calls(&mut self, function_starts: &Vec<(FunctionIndex, u32)>)
        requires
            forall|k: int| 0 <= k < old(self).function_calls@.len() ==> {
                &&& has_start(function_starts@, (#[trigger] old(self).function_calls@[k]).0)
                &&& old(self).function_calls@[k].1 + 5 <= old(self).bytecode@.len()
            },
        ensures
            final(self).bytecode@ == linked(old(self).bytecode@, old(self).function_calls@, function_starts@),
            final(self).function_calls == old(self).function_calls,
    {
        let ghost b0 = self.bytecode@;
        let total = self.bytecode.len();
        let n = self.function_calls.len();
        let mut k: usize = 0;
        assert(self.function_calls@.take(0) =~= Seq::<(FunctionIndex, usize)>::empty());
        while k < n
            invariant
                k <= n,
                n == self.function_calls@.len(),
                self.function_calls == old(self).function_calls,
                b0 == old(self).bytecode@,
                self.bytecode@.len() == b0.len(),
                total == b0.len(),
                forall|j: int| 0 <= j < old(self).function_calls@.len() ==> {
                    &&& has_start(function_starts@, (#[trigger] old(self).function_calls@[j]).0)
                    &&& old(self).function_calls@[j].1 + 5 <= old(self).bytecode@.len()
                },
                self.bytecode@ == linked(b0, self.function_calls@.take(k as int), function_starts@),
            decreases n - k,
        {
            let (id, at) = self.function_calls[k];
            assert(has_start(function_starts@, old(self).function_calls@[k as int].0));
            assert(old(self).function_calls@[k as int].1 + 5 <= b0.len());
            let target = find_start(function_starts, id);
            let bytes = u32_to_le_bytes(target);
            self.bytecode.set(at + 1, bytes[0]);
            self.bytecode.set(at + 2, bytes[1]);
            self.bytecode.set(at + 3, bytes[2]);
            self.bytecode.set(at + 4, bytes[3]);
            proof {
                let c = self.function_calls@.take(k as int + 1);
                assert(c.drop_last() =~= self.function_calls@.take(k as int));
                assert(c.last() == (id, at));
            }
            k = k + 1;
        }
        assert(self.function_calls@.take(n as int) =~= self.function_calls@);
    }
}

/// The function list of an extern file entry: each function's number and
/// the bytes of its name in the library.
pub open spec fn extern_list(table: Seq<SymbolValue>, fs: Seq<ExternFunction>) -> Seq<(u32, Seq<u8>)> {
    fs.map_values(|f: ExternFunction| (f.function_index.0, symbol_bytes(table, f.path.0 as nat)))
}

/// The entry that names an extern file and the functions taken from it.
pub open spec fn extern_bytes(table: Seq<SymbolValue>, file: SymbolIndex, fs: Seq<ExternFunction>) -> Seq<u8> {
    op_bytes(Op::ExternFile { file: symbol_bytes(table, file.0 as nat), functions: extern_list(table, fs) })
}

/// The entries of the first `k` extern files.
pub open spec fn externs_bytes(table: Seq<SymbolValue>, es: Seq<(SymbolIndex, Vec<ExternFunction>)>, k: int) -> Seq<u8>
    decreases k,
{
    if k <= 0 || k > es.len() {
        Seq::empty()
    } else {
        externs_bytes(table, es, k - 1) + extern_bytes(table, es[k - 1].0, es[k - 1].1@)
    }
}

/// The code of the first `k` functions, written one after the other from
/// `base`.
pub open spec fn functions_code(fs: Seq<Function>, k: int, base: nat) -> Seq<u8>
    decreases k,
{
    if k <= 0 || k > fs.len() {
        Seq::empty()
    } else {
        let prev = functions_code(fs, k - 1, base);
        prev + function_code(fs[k - 1], base + prev.len())
    }
}

/// The calls the first `k` functions record.
pub open spec fn functions_calls(fs: Seq<Function>, k: int, base: nat) -> Seq<(FunctionIndex, usize)>
    decreases k,
{
    if k <= 0 || k > fs.len() {
        Seq::empty()
    } else {
        functions_calls(fs, k - 1, base) + function_calls_of(fs[k - 1], base + functions_code(fs, k - 1, base).len())
    }
}

/// Where the first `k` functions start.
pub open spec fn functions_starts(fs: Seq<Function>, k: int, base: nat) -> Seq<(FunctionIndex, u32)>
    decreases k,
{
    if k <= 0 || k > fs.len() {
        Seq::empty()
    } else {
        functions_starts(fs, k - 1, base).push(
            (fs[k - 1].function_index, (base + functions_code(fs, k - 1, base).len()) as u32),
        )
    }
}

/// The bytecode of a program: its extern files, then its functions, every
/// call linked to the start of the function it calls.
pub open spec fn module_bytes(table: Seq<SymbolValue>, es: Seq<(SymbolIndex, Vec<ExternFunction>)>, fs: Seq<Function>) -> Seq<u8> {
    let head = externs_bytes(table, es, es.len() as int);
    linked(
        head + functions_code(fs, fs.len() as int, head.len()),
        functions_calls(fs, fs.len() as int, head.len()),
        functions_starts(fs, fs.len() as int, head.len()),
    )
}

/// A function the code generator can write: its frame fits the push and
/// pop counts and every jump names one of its blocks.
pub open spec fn writable_function(f: Function) -> bool {
    &&& f.argument_count <= f.stack_size
    &&& f.stack_size - f.argument_count <= 255
    &&& 1 <= f.stack_size <= 256
    &&& targets_named(f.blocks@)
}

/// Every call of `s` names a function of `fs`.
pub open spec fn calls_known(s: Seq<IR>, fs: Seq<Function>) -> bool {
    forall|i: int| 0 <= i < s.len() ==> ((#[trigger] s[i]) matches IR::Call { id, .. } ==> exists|j: int|
        0 <= j < fs.len() && (#[trigger] fs[j]).function_index == id)
}

/// Every call in the functions `fs` names one of them.
pub open spec fn all_calls_known(fs: Seq<Function>) -> bool {
    forall|k: int, b: int| 0 <= k < fs.len() && 0 <= b < fs[k].blocks@.len()
        ==> calls_known(#[trigger] fs[k].blocks@[b].instructions@, fs)
}

proof fn lemma_irs_calls_known(s: Seq<IR>, at: nat, fs: Seq<Function>)
    requires
        calls_known(s, fs),
    ensures
        forall|c: int| 0 <= c < irs_calls(s, at).len() ==> exists|j: int|
            0 <= j < fs.len() && (#[trigger] fs[j]).function_index == (#[trigger] irs_calls(s, at)[c]).0,
    decreases s.len(),
{
    if s.len() > 0 {
        let p = s.drop_last();
        assert(calls_known(p, fs)) by {
            assert forall|i: int| 0 <= i < p.len() implies ((#[trigger] p[i]) matches IR::Call { id, .. } ==> exists|j: int|
                0 <= j < fs.len() && (#[trigger] fs[j]).function_index == id) by {
                assert(p[i] == s[i]);
            }
        }
        lemma_irs_calls_known(p, at, fs);
        assert(s.last() == s[s.len() - 1]);
        let a = irs_calls(p, at);
        let b = ir_calls(s.last(), at + irs_bytes(p).len());
        assert forall|c: int| 0 <= c < irs_calls(s, at).len() implies exists|j: int|
            0 <= j < fs.len() && (#[trigger] fs[j]).function_index == (#[trigger] irs_calls(s, at)[c]).0 by {
            if c < a.len() {
                assert(irs_calls(s, at)[c] == a[c]);
            } else {
                assert(irs_calls(s, at)[c] == b[c - a.len()]);
            }
        }
    }
}

proof fn lemma_blocks_calls_known(bs: Seq<Block>, k: int, base: nat, fs: Seq<Function>)
    requires
        0 <= k <= bs.len(),
        forall|b: int| 0 <= b < bs.len() ==> calls_known(#[trigger] bs[b].instructions@, fs),
    ensures
        forall|c: int| 0 <= c < blocks_calls(bs, k, base).len() ==> exists|j: int|
            0 <= j < fs.len() && (#[trigger] fs[j]).function_index == (#[trigger] blocks_calls(bs, k, base)[c]).0,
    decreases k,
{
    if k > 0 {
        lemma_blocks_calls_known(bs, k - 1, base, fs);
        let s = bs[k - 1].instructions@;
        let at = base + 2 + offset(bs, k - 1);
        lemma_irs_calls_known(s, at, fs);
        let a = blocks_calls(bs, k - 1, base);
        let b = irs_calls(s, at);
        assert forall|c: int| 0 <= c < blocks_calls(bs, k, base).len() implies exists|j: int|
            0 <= j < fs.len() && (#[trigger] fs[j]).function_index == (#[trigger] blocks_calls(bs, k, base)[c]).0 by {
            if c < a.len() {
                assert(blocks_calls(bs, k, base)[c] == a[c]);
            } else {
                assert(blocks_calls(bs, k, base)[c] == b[c - a.len()]);
            }
        }
    }
}

proof fn lemma_starts_has(fs: Seq<Function>, k: int, base: nat, j: int)
    requires
        0 <= j < k <= fs.len(),
    ensures
        has_start(functions_starts(fs, k, base), fs[j].function_index),
    decreases k,
{
    let st = functions_starts(fs, k, base);
    lemma_starts_len(fs, k - 1, base);
    if j == k - 1 {
        assert(st[k - 1].0 == fs[j].function_index);
    } else {
        lemma_starts_has(fs, k - 1, base, j);
        let prev = functions_starts(fs, k - 1, base);
        let w = choose|w: int| 0 <= w < prev.len() && (#[trigger] prev[w]).0 == fs[j].function_index;
        assert(st[w] == prev[w]);
    }
}

proof fn lemma_starts_len(fs: Seq<Function>, k: int, base: nat)
    requires
        0 <= k <= fs.len(),
    ensures
        functions_starts(fs, k, base).len() == k,
    decreases k,
{
    if k > 0 {
        lemma_starts_len(fs, k - 1, base);
    }
}

proof fn lemma_extern_list_push(table: Seq<SymbolValue>, fs: Seq<ExternFunction>, k: int)
    requires
        0 <= k < fs.len(),
    ensures
        functions_bytes(extern_list(table, fs.take(k + 1))) == functions_bytes(extern_list(table, fs.take(k)))
            + spec_u32_to_le_bytes(fs[k].function_index.0) + zstr_bytes(symbol_bytes(table, fs[k].path.0 as nat)),
    decreases k,
{
    let l1 = extern_list(table, fs.take(k + 1));
    let l0 = extern_list(table, fs.take(k));
    if k == 0 {
        assert(l0 =~= Seq::<(u32, Seq<u8>)>::empty());
        assert(l1.drop_first() =~= Seq::<(u32, Seq<u8>)>::empty());
        assert(functions_bytes(l1.drop_first()) =~= Seq::<u8>::empty());
        assert(functions_bytes(l1) =~= functions_bytes(l0) + spec_u32_to_le_bytes(fs[k].function_index.0)
            + zstr_bytes(symbol_bytes(table, fs[k].path.0 as nat)));
    } else {
        let tail = fs.drop_first();
        lemma_extern_list_push(table, tail, k - 1);
        assert(l1.drop_first() =~= extern_list(table, tail.take(k)));
        assert(l0.drop_first() =~= extern_list(table, tail.take(k - 1)));
        assert(l1[0] == l0[0]);
        assert(tail[k - 1] == fs[k]);
        assert(functions_bytes(l1) =~= functions_bytes(l0) + spec_u32_to_le_bytes(fs[k].function_index.0)
            + zstr_bytes(symbol_bytes(table, fs[k].path.0 as nat)));
    }
}

impl BytecodeModule {
    /// Appends the UTF-8 bytes of symbol `i`, closed by a zero byte.
    fn emit_name(&mut self, symbol_table: &SymbolTable, i: &SymbolIndex)
        requires
            symbol_table.wf(),
            i.0 < symbol_table@.len(),
        ensures
            final(self).bytecode@ == old(self).bytecode@ + zstr_bytes(symbol_bytes(symbol_table@, i.0 as nat)),
            final(self).function_calls == old(self).function_calls,
    {
        let text = symbol_table.get(i);
        let bytes = text.as_str().as_bytes();
        let mut k: usize = 0;
        while k < bytes.len()
            invariant
                k <= bytes@.len(),
                self.bytecode@ == old(self).bytecode@ + bytes@.take(k as int),
                self.function_calls == old(self).function_calls,
            decreases bytes@.len() - k,
        {
            self.emit_byte(bytes[k]);
            assert(bytes@.take(k as int + 1) =~= bytes@.take(k as int).push(bytes@[k as int]));
            k = k + 1;
        }
        assert(bytes@.take(bytes@.len() as int) =~= bytes@);
        self.emit_byte(0);
        assert(self.bytecode@ =~= old(self).bytecode@ + zstr_bytes(symbol_bytes(symbol_table@, i.0 as nat)));
    }

    /// Appends the entry of one extern file.
    fn emit_extern(&mut self, symbol_table: &SymbolTable, file: &SymbolIndex, functions: &Vec<ExternFunction>)
        requires
            symbol_table.wf(),
            file.0 < symbol_table@.len(),
            functions@.len() <= 255,
            forall|k: int| 0 <= k < functions@.len() ==> (#[trigger] functions@[k]).path.0 < symbol_table@.len(),
        ensures
            final(self).bytecode@ == old(self).bytecode@ + extern_bytes(symbol_table@, *file, functions@),
            final(self).function_calls == old(self).function_calls,
    {
        self.emit_bytecode(Bytecode::ExternFile);
        self.emit_name(symbol_table, file);
        self.emit_byte(functions.len() as u8);
        let ghost head = self.bytecode@;
        let mut k: usize = 0;
        assert(functions_bytes(extern_list(symbol_table@, functions@.take(0))) =~= Seq::<u8>::empty()) by {
            assert(extern_list(symbol_table@, functions@.take(0)) =~= Seq::<(u32, Seq<u8>)>::empty());
        }
        while k < functions.len()
            invariant
                k <= functions@.len(),
                symbol_table.wf(),
                forall|j: int| 0 <= j < functions@.len() ==> (#[trigger] functions@[j]).path.0 < symbol_table@.len(),
                self.bytecode@ == head + functions_bytes(extern_list(symbol_table@, functions@.take(k as int))),
                self.function_calls == old(self).function_calls,
            decreases functions@.len() - k,
        {
            let f = &functions[k];
            assert(functions@[k as int].path.0 < symbol_table@.len());
            self.emit_u32(f.function_index.0);
            self.emit_name(symbol_table, &f.path);
            proof {
                lemma_extern_list_push(symbol_table@, functions@, k as int);
            }
            assert(self.bytecode@ =~= head + functions_bytes(extern_list(symbol_table@, functions@.take(k as int + 1))));
            k = k + 1;
        }
        assert(functions@.take(functions@.len() as int) =~= functions@);
        assert(extern_list(symbol_table@, functions@).len() == functions@.len());
        assert(self.bytecode@ =~= old(self).bytecode@ + extern_bytes(symbol_table@, *file, functions@));
    }
}

/// Writes a program: the entries of its extern files, in the order given,
/// then each function, then links every call to the start of the
/// function it calls.
pub fn codegen(symbol_table: &SymbolTable, externs: &Vec<(SymbolIndex, Vec<ExternFunction>)>, functions: &Vec<Function>)
    -> (r: Vec<u8>)
    requires
        symbol_table.wf(),
        forall|k: int| 0 <= k < externs@.len() ==> {
            &&& (#[trigger] externs@[k]).0.0 < symbol_table@.len()
            &&& externs@[k].1@.len() <= 255
            &&& forall|j: int| 0 <= j < externs@[k].1@.len() ==> (#[trigger] externs@[k].1@[j]).path.0 < symbol_table@.len()
        },
        forall|k: int| 0 <= k < functions@.len() ==> writable_function(#[trigger] functions@[k]),
        all_calls_known(functions@),
    ensures
        r@ == module_bytes(symbol_table@, externs@, functions@),
{
    let mut module = BytecodeModule::new();
    let mut e: usize = 0;
    while e < externs.len()
        invariant
            e <= externs@.len(),
            symbol_table.wf(),
            forall|k: int| 0 <= k < externs@.len() ==> {
                &&& (#[trigger] externs@[k]).0.0 < symbol_table@.len()
                &&& externs@[k].1@.len() <= 255
                &&& forall|j: int| 0 <= j < externs@[k].1@.len() ==> (#[trigger] externs@[k].1@[j]).path.0 < symbol_table@.len()
            },
            module.bytecode@ == externs_bytes(symbol_table@, externs@, e as int),
            module.function_calls@ == Seq::<(FunctionIndex, usize)>::empty(),
        decreases externs@.len() - e,
    {
        assert(externs@[e as int].0.0 < symbol_table@.len());
        module.emit_extern(symbol_table, &externs[e].0, &externs[e].1);
        e = e + 1;
    }
    let ghost head = module.bytecode@;
    let ghost hl = head.len();
    let ghost fs = functions@;
    let mut starts: Vec<(FunctionIndex, u32)> = Vec::new();
    let mut k: usize = 0;
    while k < functions.len()
        invariant
            k <= fs.len(),
            fs == functions@,
            forall|j: int| 0 <= j < fs.len() ==> writable_function(#[trigger] fs[j]),
            module.bytecode@ == head + functions_code(fs, k as int, hl),
            module.function_calls@ == functions_calls(fs, k as int, hl),
            starts@ == functions_starts(fs, k as int, hl),
            hl == head.len(),
            forall|c: int| 0 <= c < module.function_calls@.len() ==> (#[trigger] module.function_calls@[c]).1 + 5
                <= module.bytecode@.len(),
        decreases fs.len() - k,
    {
        let ghost pre = module.bytecode@;
        let ghost cpre = module.function_calls@;
        assert(writable_function(fs[k as int]));
        assert(pre.len() == hl + functions_code(fs, k as int, hl).len());
        module.codegen_blocks(&functions[k], &mut starts);
        proof {
            assert(module.bytecode@ =~= head + functions_code(fs, k as int + 1, hl));
            assert(module.function_calls@ =~= functions_calls(fs, k as int + 1, hl));
            assert forall|c: int| 0 <= c < module.function_calls@.len() implies (#[trigger] module.function_calls@[c]).1 + 5
                <= module.bytecode@.len() by {
                if c < cpre.len() {
                    assert(module.function_calls@.subrange(0, cpre.len() as int)[c] == cpre[c]);
                }
            }
        }
        k = k + 1;
    }
    proof {
        lemma_starts_len(fs, fs.len() as int, hl);
        assert forall|c: int| 0 <= c < module.function_calls@.len() implies has_start(
            starts@,
            (#[trigger] module.function_calls@[c]).0,
        ) by {
            lemma_functions_calls_known(fs, fs.len() as int, hl);
            let j = choose|j: int| 0 <= j < fs.len() && (#[trigger] fs[j]).function_index == module.function_calls@[c].0;
            lemma_starts_has(fs, fs.len() as int, hl, j);
        }
    }
    module.link_calls(&starts);
    module.bytecode
}

proof fn lemma_functions_calls_known(fs: Seq<Function>, k: int, base: nat)
    requires
        0 <= k <= fs.len(),
        all_calls_known(fs),
    ensures
        forall|c: int| 0 <= c < functions_calls(fs, k, base).len() ==> exists|j: int|
            0 <= j < fs.len() && (#[trigger] fs[j]).function_index == (#[trigger] functions_calls(fs, k, base)[c]).0,
    decreases k,
{
    if k > 0 {
        lemma_functions_calls_known(fs, k - 1, base);
        let f = fs[k - 1];
        let at = base + functions_code(fs, k - 1, base).len();
        assert forall|b: int| 0 <= b < f.blocks@.len() implies calls_known(#[trigger] f.blocks@[b].instructions@, fs) by {
            assert(calls_known(fs[k - 1].blocks@[b].instructions@, fs));
        }
        lemma_blocks_calls_known(f.blocks@, f.blocks@.len() as int, at, fs);
        let a = functions_calls(fs, k - 1, base);
        let b = function_calls_of(f, at);
        assert forall|c: int| 0 <= c < functions_calls(fs, k, base).len() implies exists|j: int|
            0 <= j < fs.len() && (#[trigger] fs[j]).function_index == (#[trigger] functions_calls(fs, k, base)[c]).0 by {
            if c < a.len() {
                assert(functions_calls(fs, k, base)[c] == a[c]);
            } else {
                assert(functions_calls(fs, k, base)[c] == b[c - a.len()]);
            }
        }
    }
}

/// What the code generator writes for an instruction, the disassembler
/// reads back as the lowered instruction, wherever in a stream it stands:
/// a register list must fit its count byte.
pub proof fn law_emitted_ir_decodes(code: Seq<u8>, pos: int, i: IR)
    requires
        !(i is Noop),
        i matches IR::Call { args, .. } ==> args@.len() < 256,
        i matches IR::ExtCall { args, .. } ==> args@.len() < 256,
        i matches IR::Struct { fields, .. } ==> fields@.len() < 256,
        0 <= pos,
        pos + ir_bytes(i).len() <= code.len(),
        code.subrange(pos, pos + ir_bytes(i).len()) == ir_bytes(i),
    ensures
        decode_at(code, pos) == Some((ir_op(i), pos + ir_bytes(i).len())),
{
    assert(op_wf(ir_op(i)));
    law_decode_op_bytes(code, pos, ir_op(i));
}

/// The opcode a register instruction is lowered to, where it is an
/// operation on values.
pub open spec fn lowered_opcode(i: IR) -> Bytecode {
    match ir_op(i) {
        Op::Binary { op, .. } => op,
        Op::Unary { op, .. } => op,
        _ => Bytecode::Return,
    }
}

/// `i` is written as a binary operation: its opcode, then the registers
/// `dst`, `left` and `right` in that order.
pub open spec fn lowered_binary(i: IR, dst: Variable, left: Variable, right: Variable) -> bool {
    &&& ir_op(i) == Op::Binary { op: lowered_opcode(i), dst: reg(dst), left: reg(left), right: reg(right) }
    &&& ir_bytes(i) == seq![opcode(lowered_opcode(i)), reg(dst), reg(left), reg(right)]
}

/// `i` is written as a unary operation: its opcode, then the registers
/// `dst` and `val`.
pub open spec fn lowered_unary(i: IR, dst: Variable, val: Variable) -> bool {
    &&& ir_op(i) == Op::Unary { op: lowered_opcode(i), dst: reg(dst), val: reg(val) }
    &&& ir_bytes(i) == seq![opcode(lowered_opcode(i)), reg(dst), reg(val)]
}

/// `i` is written as a cast of `val` into `dst` whose result has type tag
/// `tag`.
pub open spec fn lowered_cast(i: IR, dst: Variable, val: Variable, tag: u64) -> bool {
    &&& lowered_unary(i, dst, val)
    &&& lowered_opcode(i) != Bytecode::UnaryNot
    &&& lowered_opcode(i) != Bytecode::UnaryNeg
    &&& cast_target(lowered_opcode(i)) == tag
}

/// Every operation on values is written as the opcode whose meaning in the
/// machine is the instruction's own, on the same registers in the same
/// order: for any operands `x` and `y` an addition adds, a subtraction
/// takes `y` from `x`, a division and a remainder truncate toward zero, an
/// equality test is the machine's equality test, a comparison compares the
/// same way round; a not and a negation are those operations, and a cast
/// converts to the type it names.
pub proof fn law_lowered_operation_meaning(i: IR, x: int, y: int)
    ensures
        i matches IR::Add { dst, left, right } ==> lowered_binary(i, dst, left, right)
            && is_arith(lowered_opcode(i)) && arith(lowered_opcode(i), x, y) == x + y,
        i matches IR::Subtract { dst, left, right } ==> lowered_binary(i, dst, left, right)
            && is_arith(lowered_opcode(i)) && arith(lowered_opcode(i), x, y) == x - y,
        i matches IR::Multiply { dst, left, right } ==> lowered_binary(i, dst, left, right)
            && is_arith(lowered_opcode(i)) && arith(lowered_opcode(i), x, y) == x * y,
        i matches IR::Divide { dst, left, right } ==> lowered_binary(i, dst, left, right)
            && is_arith(lowered_opcode(i)) && arith(lowered_opcode(i), x, y) == tdiv(x, y),
        i matches IR::Modulo { dst, left, right } ==> lowered_binary(i, dst, left, right)
            && is_arith(lowered_opcode(i)) && arith(lowered_opcode(i), x, y) == trem(x, y),
        i matches IR::Equals { dst, left, right } ==> lowered_binary(i, dst, left, right)
            && lowered_opcode(i) == Bytecode::Equals,
        i matches IR::NotEquals { dst, left, right } ==> lowered_binary(i, dst, left, right)
            && lowered_opcode(i) == Bytecode::NotEquals,
        i matches IR::GreaterThan { dst, left, right } ==> lowered_binary(i, dst, left, right)
            && is_order(lowered_opcode(i)) && order(lowered_opcode(i), x, y) == (x > y),
        i matches IR::LesserThan { dst, left, right } ==> lowered_binary(i, dst, left, right)
            && is_order(lowered_opcode(i)) && order(lowered_opcode(i), x, y) == (x < y),
        i matches IR::GreaterEquals { dst, left, right } ==> lowered_binary(i, dst, left, right)
            && is_order(lowered_opcode(i)) && order(lowered_opcode(i), x, y) == (x >= y),
        i matches IR::LesserEquals { dst, left, right } ==> lowered_binary(i, dst, left, right)
            && is_order(lowered_opcode(i)) && order(lowered_opcode(i), x, y) == (x <= y),
        i matches IR::UnaryNot { dst, val } ==> lowered_unary(i, dst, val) && lowered_opcode(i) == Bytecode::UnaryNot,
        i matches IR::UnaryNeg { dst, val } ==> lowered_unary(i, dst, val) && lowered_opcode(i) == Bytecode::UnaryNeg,
        i matches IR::CastToI8 { dst, val } ==> lowered_cast(i, dst, val, TAG_I8),
        i matches IR::CastToI16 { dst, val } ==> lowered_cast(i, dst, val, TAG_I16),
        i matches IR::CastToI32 { dst, val } ==> lowered_cast(i, dst, val, TAG_I32),
        i matches IR::CastToI64 { dst, val } ==> lowered_cast(i, dst, val, TAG_I64),
        i matches IR::CastToU8 { dst, val } ==> lowered_cast(i, dst, val, TAG_U8),
        i matches IR::CastToU16 { dst, val } ==> lowered_cast(i, dst, val, TAG_U16),
        i matches IR::CastToU32 { dst, val } ==> lowered_cast(i, dst, val, TAG_U32),
        i matches IR::CastToU64 { dst, val } ==> lowered_cast(i, dst, val, TAG_U64),
        i matches IR::CastToFloat { dst, val } ==> lowered_cast(i, dst, val, TAG_FLOAT),
{
}

/// The registers an instruction reads in the machine, in order: a field
/// store reads the value and then the structure it changes.
pub open spec fn op_reads(op: Op) -> Seq<u8> {
    match op {
        Op::Copy { src, .. } => seq![src],
        Op::Swap { v1, v2 } => seq![v1, v2],
        Op::Call { args, .. } => args,
        Op::ExtCall { args, .. } => args,
        Op::Struct { fields, .. } => fields,
        Op::AccStruct { val, .. } => seq![val],
        Op::SetField { dst, data, .. } => seq![data, dst],
        Op::Binary { left, right, .. } => seq![left, right],
        Op::Unary { val, .. } => seq![val],
        _ => Seq::empty(),
    }
}

/// The one register whose value an instruction stores or changes in the
/// machine; a swap changes two and counts as none.
pub open spec fn op_target(op: Op) -> Option<u8> {
    match op {
        Op::Copy { dst, .. } => Some(dst),
        Op::Call { dst, .. } => Some(dst),
        Op::ExtCall { dst, .. } => Some(dst),
        Op::Struct { dst, .. } => Some(dst),
        Op::AccStruct { dst, .. } => Some(dst),
        Op::SetField { dst, .. } => Some(dst),
        Op::Binary { dst, .. } => Some(dst),
        Op::LoadConst { dst, .. } => Some(dst),
        Op::Unit { dst } => Some(dst),
        Op::Unary { dst, .. } => Some(dst),
        _ => None,
    }
}

/// Lowering keeps each register in its role: the machine instruction reads
/// the bytes of the registers the register instruction reads, in the same
/// order (the operand of a not or a negation, which the register analysis
/// does not count as read, is read too), and stores into the byte of the
/// register it writes; a constant
/// is loaded from the slot the instruction names, a structure field is the
/// one it names, and an extern call calls the function it names.
pub proof fn law_lowered_registers(i: IR)
    requires
        !(i is Noop),
    ensures
        !(i is UnaryNot || i is UnaryNeg) ==> op_reads(ir_op(i)) == regs(used_registers(i)),
        i matches IR::UnaryNot { val, .. } ==> op_reads(ir_op(i)) == seq![reg(val)] && used_registers(i).len() == 0,
        i matches IR::UnaryNeg { val, .. } ==> op_reads(ir_op(i)) == seq![reg(val)] && used_registers(i).len() == 0,
        op_target(ir_op(i)) == (match written(i) {
            Some(w) => Some(reg(w)),
            None => None,
        }),
        i matches IR::Load { data, .. } ==> (ir_op(i) matches Op::LoadConst { index, .. } && index == data as u8),
        i matches IR::AccStruct { index, .. } ==> (ir_op(i) matches Op::AccStruct { index: k, .. } && k == index),
        i matches IR::SetField { index, .. } ==> (ir_op(i) matches Op::SetField { index: k, .. } && k == index),
        i matches IR::ExtCall { id, .. } ==> (ir_op(i) matches Op::ExtCall { index, .. } && index == id.0),
        i is Call ==> (ir_op(i) matches Op::Call { function, .. } && function == u32::MAX),
{
    let u = used_registers(i);
    assert(regs(u).len() == u.len());
    if u.len() >= 1 {
        assert(regs(u)[0] == reg(u[0]));
    }
    if u.len() >= 2 {
        assert(regs(u)[1] == reg(u[1]));
    }
    match i {
        IR::Call { .. } => {},
        IR::ExtCall { .. } => {},
        IR::Struct { .. } => {},
        IR::Copy { .. } => { assert(op_reads(ir_op(i)) =~= regs(u)); },
        IR::Swap { .. } => { assert(op_reads(ir_op(i)) =~= regs(u)); },
        IR::SetField { .. } => { assert(op_reads(ir_op(i)) =~= regs(u)); },
        IR::AccStruct { .. } => { assert(op_reads(ir_op(i)) =~= regs(u)); },
        IR::Load { .. } => { assert(op_reads(ir_op(i)) =~= regs(u)); },
        IR::Unit { .. } => { assert(op_reads(ir_op(i)) =~= regs(u)); },
        IR::UnaryNot { val, .. } => { assert(op_reads(ir_op(i)) =~= seq![reg(val)]); },
        IR::UnaryNeg { val, .. } => { assert(op_reads(ir_op(i)) =~= seq![reg(val)]); },
        IR::CastToI8 { .. } => { assert(op_reads(ir_op(i)) =~= regs(u)); },
        IR::CastToI16 { .. } => { assert(op_reads(ir_op(i)) =~= regs(u)); },
        IR::CastToI32 { .. } => { assert(op_reads(ir_op(i)) =~= regs(u)); },
        IR::CastToI64 { .. } => { assert(op_reads(ir_op(i)) =~= regs(u)); },
        IR::CastToU8 { .. } => { assert(op_reads(ir_op(i)) =~= regs(u)); },
        IR::CastToU16 { .. } => { assert(op_reads(ir_op(i)) =~= regs(u)); },
        IR::CastToU32 { .. } => { assert(op_reads(ir_op(i)) =~= regs(u)); },
        IR::CastToU64 { .. } => { assert(op_reads(ir_op(i)) =~= regs(u)); },
        IR::CastToFloat { .. } => { assert(op_reads(ir_op(i)) =~= regs(u)); },
        _ => {
            assert(op_reads(ir_op(i)) =~= regs(u));
        },
    }
}

} // verus!
