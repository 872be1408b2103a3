//! The compiler's intermediate representation: functions made of blocks,
//! blocks made of register instructions and ended by a terminator.
use vstd::prelude::*;
use crate::symbol_table::SymbolIndex;

verus! {

/// The number a function is called by.
#[derive(Debug, PartialEq, Eq, Clone, Copy, Hash, Structural)]
pub struct FunctionIndex(pub u32);

/// The number of a block within its function.
#[derive(Debug, PartialEq, Eq, Clone, Copy, Hash, Structural)]
pub struct BlockIndex(pub u32);

/// A register of the current call frame.
#[derive(Debug, PartialEq, Eq, Clone, Copy, Hash, Structural)]
pub struct Variable(pub u32);

/// How a block hands control on.
#[derive(Debug, Clone, Copy, PartialEq, Eq, Structural)]
pub enum BlockTerminator {
    Goto(BlockIndex),
    SwitchBool { cond: Variable, op1: BlockIndex, op2: BlockIndex },
    Return,
}

/// One register instruction.
#[derive(Debug, Clone, PartialEq)]
pub enum IR {
    Copy { dst: Variable, src: Variable },
    Swap { v1: Variable, v2: Variable },
    Load { dst: Variable, data: u32 },
    Unit { dst: Variable },
    Add { dst: Variable, left: Variable, right: Variable },
    Subtract { dst: Variable, left: Variable, right: Variable },
    Multiply { dst: Variable, left: Variable, right: Variable },
    Divide { dst: Variable, left: Variable, right: Variable },
    Modulo { dst: Variable, left: Variable, right: Variable },
    Equals { dst: Variable, left: Variable, right: Variable },
    NotEquals { dst: Variable, left: Variable, right: Variable },
    GreaterThan { dst: Variable, left: Variable, right: Variable },
    LesserThan { dst: Variable, left: Variable, right: Variable },
    GreaterEquals { dst: Variable, left: Variable, right: Variable },
    LesserEquals { dst: Variable, left: Variable, right: Variable },
    UnaryNot { dst: Variable, val: Variable },
    UnaryNeg { dst: Variable, val: Variable },
    Call { dst: Variable, id: FunctionIndex, args: Vec<Variable> },
    ExtCall { dst: Variable, id: FunctionIndex, args: Vec<Variable> },
    Struct { dst: Variable, fields: Vec<Variable> },
    AccStruct { dst: Variable, val: Variable, index: u8 },
    SetField { dst: Variable, data: Variable, index: u8 },
    CastToI8 { dst: Variable, val: Variable },
    CastToI16 { dst: Variable, val: Variable },
    CastToI32 { dst: Variable, val: Variable },
    CastToI64 { dst: Variable, val: Variable },
    CastToU8 { dst: Variable, val: Variable },
    CastToU16 { dst: Variable, val: Variable },
    CastToU32 { dst: Variable, val: Variable },
    CastToU64 { dst: Variable, val: Variable },
    CastToFloat { dst: Variable, val: Variable },
    Noop,
}

/// A straight run of instructions and the terminator that ends it.
#[derive(Debug, Clone, PartialEq)]
pub struct Block {
    pub block_index: BlockIndex,
    pub instructions: Vec<IR>,
    pub ending: BlockTerminator,
}

impl Block {
    /// Appends an instruction.
    pub fn ir(&mut self, ir: IR)
        ensures
            final(self).instructions@ == old(self).instructions@.push(ir),
            final(self).block_index == old(self).block_index,
            final(self).ending == old(self).ending,
    {
        self.instructions.push(ir);
    }
}

/// A function of the program in register form: its blocks and the block
/// it starts at.
pub struct Function {
    pub identifier: SymbolIndex,
    pub function_index: FunctionIndex,
    pub argument_count: usize,
    pub variable_counter: u32,
    pub stack_size: u32,
    pub blocks: Vec<Block>,
    pub entry: BlockIndex,
}

/// Where the value of a converted expression ended up.
pub enum Result {
    Variable(Variable),
}

/// A call target: a function of the program or an extern one.
#[derive(Debug, Clone, Copy, PartialEq, Eq, Structural)]
pub enum FunctionLookup {
    Normal(FunctionIndex),
    Extern(u32),
}

impl FunctionLookup {
    /// The target's number, whichever kind it is.
    pub fn without_type(&self) -> (r: u32)
        ensures
            r == match *self {
                FunctionLookup::Normal(v) => v.0,
                FunctionLookup::Extern(v) => v,
            },
    {
        match self {
            FunctionLookup::Normal(v) => v.0,
            FunctionLookup::Extern(v) => *v,
        }
    }
}

/// The registers an instruction reads, in the order the register
/// allocator looks at them; `SetField` also counts the structure it writes
/// into.
pub open spec fn used_registers(i: IR) -> Seq<Variable> {
    match i {
        IR::Copy { src, .. } => seq![src],
        IR::Swap { v1, v2 } => seq![v1, v2],
        IR::Add { left, right, .. } => seq![left, right],
        IR::Subtract { left, right, .. } => seq![left, right],
        IR::Multiply { left, right, .. } => seq![left, right],
        IR::Divide { left, right, .. } => seq![left, right],
        IR::Modulo { left, right, .. } => seq![left, right],
        IR::Equals { left, right, .. } => seq![left, right],
        IR::NotEquals { left, right, .. } => seq![left, right],
        IR::GreaterThan { left, right, .. } => seq![left, right],
        IR::LesserThan { left, right, .. } => seq![left, right],
        IR::GreaterEquals { left, right, .. } => seq![left, right],
        IR::LesserEquals { left, right, .. } => seq![left, right],
        IR::AccStruct { val, .. } => seq![val],
        IR::SetField { dst, data, .. } => seq![data, dst],
        IR::CastToI8 { val, .. } => seq![val],
        IR::CastToI16 { val, .. } => seq![val],
        IR::CastToI32 { val, .. } => seq![val],
        IR::CastToI64 { val, .. } => seq![val],
        IR::CastToU8 { val, .. } => seq![val],
        IR::CastToU16 { val, .. } => seq![val],
        IR::CastToU32 { val, .. } => seq![val],
        IR::CastToU64 { val, .. } => seq![val],
        IR::CastToFloat { val, .. } => seq![val],
        IR::ExtCall { args, .. } => args@,
        IR::Struct { fields, .. } => fields@,
        IR::Call { args, .. } => args@,
        _ => Seq::empty(),
    }
}

fn push_all(storage: &mut Vec<Variable>, items: &Vec<Variable>)
    ensures
        final(storage)@ == old(storage)@ + items@,
{
    let mut i: usize = 0;
    while i < items.len()
        invariant
            i <= items@.len(),
            storage@ == old(storage)@ + items@.subrange(0, i as int),
        decreases items@.len() - i,
    {
        storage.push(items[i]);
        i = i + 1;
        assert(storage@ =~= old(storage)@ + items@.subrange(0, i as int));
    }
    assert(items@.subrange(0, items@.len() as int) =~= items@);
}

/// Appends the registers that `i` reads to `storage`.
pub fn instruction_used_registers(i: &IR, storage: &mut Vec<Variable>)
    ensures
        final(storage)@ == old(storage)@ + used_registers(*i),
{
    match i {
        IR::Copy { src, .. } => {
            storage.push(*src);
        },
        IR::Swap { v1, v2 } => {
            storage.push(*v1);
            storage.push(*v2);
        },
        IR::Add { left, right, .. }
        | IR::Subtract { left, right, .. }
        | IR::Multiply { left, right, .. }
        | IR::Divide { left, right, .. }
        | IR::Modulo { left, right, .. }
        | IR::Equals { left, right, .. }
        | IR::NotEquals { left, right, .. }
        | IR::GreaterThan { left, right, .. }
        | IR::LesserThan { left, right, .. }
        | IR::GreaterEquals { left, right, .. }
        | IR::LesserEquals { left, right, .. } => {
            storage.push(*left);
            storage.push(*right);
        },
        IR::AccStruct { val, .. } => {
            storage.push(*val);
        },
        IR::SetField { dst, data, .. } => {
            storage.push(*data);
            storage.push(*dst);
        },
        IR::CastToI8 { val, .. }
        | IR::CastToI16 { val, .. }
        | IR::CastToI32 { val, .. }
        | IR::CastToI64 { val, .. }
        | IR::CastToU8 { val, .. }
        | IR::CastToU16 { val, .. }
        | IR::CastToU32 { val, .. }
        | IR::CastToU64 { val, .. }
        | IR::CastToFloat { val, .. } => {
            storage.push(*val);
        },
        IR::ExtCall { args, .. } | IR::Struct { fields: args, .. } | IR::Call { args, .. } => {
            push_all(storage, args);
        },
        _ => {
            assert(old(storage)@ + Seq::<Variable>::empty() =~= old(storage)@);
        },
    }
    proof {
        assert(storage@ =~= old(storage)@ + used_registers(*i));
    }
}

} // verus!
