//! The interpreter of the virtual machine: one instruction at a time.
//!
//! `Machine::step` reads the instruction at the program counter and does
//! what it says to the registers, the heap and the call stack. What only
//! the caller can do is handed back as an `Outcome`: arithmetic on floats,
//! loading an extern library, and calling an extern function; the caller
//! then completes the instruction with `finish_float` or `finish_extern`.
//! Where the machine would have no way to go on (a byte that names no
//! instruction, a register outside the frame, operands of the wrong type)
//! the step is a `Fault` and changes nothing.
use vstd::prelude::*;
use vstd::utf8::valid_utf8;
use vstd::pervasive::unreached;
use crate::bytecode::{Bytecode, is_binary, is_unary};
use crate::heap::{ObjectMap, Object, ObjectData, Structure, children, marks_only_free, roots_valid, reachable, create_object, lemma_root_reachable,
    all_live, same_data, lemma_all_live_same_data, free_complete, no_free_slot, free_count};
use crate::instruction::{Op, Instruction, decode_at, decode};
use crate::runtime::{Stack, Status, FatalError, VMData, ObjectIndex, STACK_SIZE, TAG_FLOAT, TAG_BOOL, TAG_UNIT, TAG_STR,
    TAG_U8, TAG_U16, TAG_U32, TAG_U64, TAG_I8, TAG_I16, TAG_I32, TAG_I64};
use crate::text::string_from_utf8;
use crate::values::{is_int_tag, is_signed_tag, int_value, canon, arith, order, is_arith, is_order, bool_value, fits,
    int_arith, int_order, int_cast, int_negate};

verus! {

/// The tag the interpreter gives structure values.
pub const TAG_STRUCT: u64 = 257;

/// Where a function call stands: the next instruction, the first register
/// of its frame, and the register of the caller that receives its result.
#[derive(Clone, Copy, Debug, PartialEq, Eq, Structural)]
pub struct Frame {
    pub pointer: usize,
    pub offset: usize,
    pub return_to: u8,
}

/// The state of a running program.
pub struct Machine {
    pub stack: Stack,
    pub objects: ObjectMap,
    pub constants: Vec<VMData>,
    pub code: Vec<u8>,
    pub current: Frame,
    pub callstack: Vec<Frame>,
}

/// What a step leaves to the caller.
#[derive(Debug, Clone, PartialEq, Eq)]
pub enum Outcome {
    /// The instruction is done; step again.
    Running,
    /// The program ended.
    Stopped(Status),
    /// The machine cannot go on; nothing was changed.
    Fault(String),
    /// A float operation: compute it from the operands and store the
    /// result with `finish_float`.
    Float { op: Bytecode, dst: u8, left: VMData, right: VMData },
    /// An extern library to load, with the functions to take from it.
    LoadLibrary { path: String, functions: Vec<(u32, String)> },
    /// An extern function to call; the frame is set up. Complete the call
    /// with `finish_extern`.
    CallExtern { index: u32, dst: u8, arg_count: usize },
}

/// Values of this kind refer to a heap slot.
pub open spec fn values_valid(vs: Seq<VMData>, len: nat) -> bool {
    forall|i: int| 0 <= i < vs.len() && #[trigger] vs[i].spec_is_object() ==> vs[i].data < len
}

impl Machine {
    pub open spec fn regs(&self) -> Seq<VMData> {
        self.stack.values()
    }

    pub open spec fn off(&self) -> int {
        self.stack.offset() as int
    }

    pub open spec fn top(&self) -> int {
        self.stack.top() as int
    }

    pub open spec fn heap(&self) -> Seq<Object> {
        self.objects.objects()
    }

    /// Register `r` of the current frame is in use.
    pub open spec fn reg_ok(&self, r: u8) -> bool {
        self.off() + r < self.top() && self.off() + r < STACK_SIZE
    }

    /// Register `r` of the current frame.
    pub open spec fn reg(&self, r: u8) -> VMData {
        self.regs()[self.off() + r]
    }

    /// The machine's invariant: a full stack, a heap that can take
    /// objects, and every reference in a register or constant naming a
    /// slot.
    pub open spec fn wf(&self) -> bool {
        &&& self.regs().len() == STACK_SIZE
        &&& self.top() <= STACK_SIZE
        &&& self.objects.wf()
        &&& free_complete(self.heap(), self.objects.free_slot().index as int)
        &&& marks_only_free(self.heap())
        &&& values_valid(self.regs(), self.heap().len())
        &&& values_valid(self.constants@, self.heap().len())
    }

    /// Nothing changed.
    pub open spec fn same(&self, other: &Machine) -> bool {
        &&& other.regs() == self.regs()
        &&& other.off() == self.off()
        &&& other.top() == self.top()
        &&& other.heap() == self.heap()
        &&& other.objects.free_slot() == self.objects.free_slot()
        &&& other.constants@ == self.constants@
        &&& other.code@ == self.code@
        &&& other.current == self.current
        &&& other.callstack@ == self.callstack@
    }

    /// Only the program counter moved, to `n`.
    pub open spec fn moved(&self, other: &Machine, n: int) -> bool {
        &&& other.regs() == self.regs()
        &&& other.off() == self.off()
        &&& other.top() == self.top()
        &&& other.heap() == self.heap()
        &&& other.objects.free_slot() == self.objects.free_slot()
        &&& other.constants@ == self.constants@
        &&& other.code@ == self.code@
        &&& other.current == (Frame { pointer: n as usize, ..self.current })
        &&& other.callstack@ == self.callstack@
    }

    /// The program counter moved to `n` and register `dst` now holds `v`.
    pub open spec fn wrote(&self, other: &Machine, dst: u8, v: VMData, n: int) -> bool {
        &&& other.regs() == self.regs().update(self.off() + dst, v)
        &&& other.off() == self.off()
        &&& other.top() == self.top()
        &&& other.heap() == self.heap()
        &&& other.objects.free_slot() == self.objects.free_slot()
        &&& other.constants@ == self.constants@
        &&& other.code@ == self.code@
        &&& other.current == (Frame { pointer: n as usize, ..self.current })
        &&& other.callstack@ == self.callstack@
    }
}

/// Two values of one numeric type: integers of one type, or two floats.
pub open spec fn same_number_type(a: VMData, b: VMData) -> bool {
    a.tag == b.tag && (is_int_tag(a.tag) || a.tag == TAG_FLOAT)
}

/// The tag an integer cast opcode converts to, or `TAG_FLOAT`.
pub open spec fn cast_target(op: Bytecode) -> u64 {
    if op == Bytecode::CastToI8 {
        TAG_I8
    } else if op == Bytecode::CastToI16 {
        TAG_I16
    } else if op == Bytecode::CastToI32 {
        TAG_I32
    } else if op == Bytecode::CastToI64 {
        TAG_I64
    } else if op == Bytecode::CastToU8 {
        TAG_U8
    } else if op == Bytecode::CastToU16 {
        TAG_U16
    } else if op == Bytecode::CastToU32 {
        TAG_U32
    } else if op == Bytecode::CastToU64 {
        TAG_U64
    } else {
        TAG_FLOAT
    }
}

/// The registers after copying the arguments of a call one by one: the
/// `k`-th argument register of the caller's frame (at `off`) goes to slot
/// `base + k` of the callee's.
pub open spec fn copy_args(regs: Seq<VMData>, off: int, base: int, args: Seq<u8>, k: int) -> Seq<VMData>
    decreases k,
{
    if k <= 0 {
        regs
    } else {
        let before = copy_args(regs, off, base, args, k - 1);
        before.update(off + base + (k - 1), before[off + args[k - 1]])
    }
}

/// What happens to a binary operation whose operands are `a` and `b`.
pub open spec fn binary_post(old: &Machine, new: &Machine, r: Outcome, op: Bytecode, dst: u8, a: VMData, b: VMData, n: int) -> bool {
    if op == Bytecode::Equals || op == Bytecode::NotEquals {
        if a.tag == TAG_FLOAT && b.tag == TAG_FLOAT {
            r == Outcome::Float { op, dst, left: a, right: b } && old.moved(new, n)
        } else {
            r is Running && old.wrote(new, dst, bool_value((a == b) == (op == Bytecode::Equals)), n)
        }
    } else if !same_number_type(a, b) {
        r is Fault && old.same(new)
    } else if a.tag == TAG_FLOAT {
        r == Outcome::Float { op, dst, left: a, right: b } && old.moved(new, n)
    } else if is_order(op) {
        r is Running && old.wrote(new, dst, bool_value(order(op, int_value(a), int_value(b))), n)
    } else if op == Bytecode::Divide && int_value(b) == 0 {
        (r matches Outcome::Stopped(Status::Failure(e)) && e.message@ == "division by zero"@) && old.moved(new, n)
    } else if op == Bytecode::Modulo && int_value(b) == 0 {
        r is Fault && old.same(new)
    } else {
        r is Running && old.wrote(new, dst, VMData { tag: a.tag, data: canon(a.tag, arith(op, int_value(a), int_value(b))) }, n)
    }
}

/// What happens to a unary operation or a cast whose operand is `v`.
pub open spec fn unary_post(old: &Machine, new: &Machine, r: Outcome, op: Bytecode, dst: u8, v: VMData, n: int) -> bool {
    if op == Bytecode::UnaryNot {
        if v.tag == TAG_BOOL {
            r is Running && old.wrote(new, dst, bool_value(v.data == 0), n)
        } else {
            r is Fault && old.same(new)
        }
    } else if op == Bytecode::UnaryNeg {
        if v.tag == TAG_FLOAT {
            r == Outcome::Float { op, dst, left: v, right: v } && old.moved(new, n)
        } else if is_signed_tag(v.tag) && fits(v.tag, -int_value(v)) {
            r is Running && old.wrote(new, dst, VMData { tag: v.tag, data: canon(v.tag, -int_value(v)) }, n)
        } else {
            r is Fault && old.same(new)
        }
    } else {
        if v.tag == TAG_FLOAT || (is_int_tag(v.tag) && cast_target(op) == TAG_FLOAT) {
            r == Outcome::Float { op, dst, left: v, right: v } && old.moved(new, n)
        } else if is_int_tag(v.tag) {
            r is Running && old.wrote(new, dst, VMData { tag: cast_target(op), data: canon(cast_target(op), int_value(v)) }, n)
        } else {
            r is Fault && old.same(new)
        }
    }
}

/// The structure a register refers to, and its fields.
pub open spec fn struct_at(m: &Machine, r: u8) -> Option<Seq<VMData>> {
    let v = m.reg(r);
    if v.spec_is_object() && v.data < m.heap().len() {
        match m.heap()[v.data as int].data {
            ObjectData::Struct(s) => Some(s.view()),
            _ => None,
        }
    } else {
        None
    }
}

/// What the arguments of a call need: the stack has room for them and the
/// result slot, every argument register lies in the frame, and the
/// callee's slots can be named by a register byte.
pub open spec fn call_fits(old: &Machine, args: Seq<u8>) -> bool {
    let top1 = old.top() + args.len() + 1;
    &&& old.off() <= top1 - args.len()
    &&& forall|k: int| 0 <= k < args.len() ==> old.off() + #[trigger] args[k] < top1 && old.off() + args[k] < STACK_SIZE
    &&& args.len() > 0 ==> top1 - old.off() - 1 < 256
}

/// The registers and stack after a call's frame is set up.
pub open spec fn call_frame(old: &Machine, new: &Machine, args: Seq<u8>) -> bool {
    let top1 = old.top() + args.len() + 1;
    &&& new.regs() == copy_args(old.regs(), old.off(), top1 - args.len() - old.off(), args, args.len() as int)
    &&& new.top() == top1
    &&& new.off() == top1 - args.len() - 1
    &&& new.heap() == old.heap()
    &&& new.objects.free_slot() == old.objects.free_slot()
    &&& new.constants@ == old.constants@
    &&& new.code@ == old.code@
}

/// A push of `amount` registers that overflows the stack ends the program;
/// the registers stay taken.
pub open spec fn overflowed(old: &Machine, new: &Machine, r: Outcome, amount: int, n: int) -> bool {
    &&& r matches Outcome::Stopped(Status::Failure(e)) && e.message@ == "stack overflow"@
    &&& new.regs() == old.regs()
    &&& new.off() == old.off()
    &&& new.top() == old.top() + amount
    &&& new.heap() == old.heap()
    &&& new.constants@ == old.constants@
    &&& new.code@ == old.code@
    &&& new.current == (Frame { pointer: n as usize, ..old.current })
    &&& new.callstack@ == old.callstack@
}

/// Every register in `rs` is in the frame.
pub open spec fn all_regs_ok(m: &Machine, rs: Seq<u8>) -> bool {
    forall|k: int| 0 <= k < rs.len() ==> m.reg_ok(#[trigger] rs[k])
}

/// Every function name is valid UTF-8.
pub open spec fn all_utf8(fs: Seq<(u32, Seq<u8>)>) -> bool {
    forall|k: int| 0 <= k < fs.len() ==> valid_utf8(#[trigger] fs[k].1)
}

/// What one instruction does.
pub open spec fn op_post(old: &Machine, new: &Machine, r: Outcome, op: Op, n: int) -> bool {
    match op {
        Op::Return => if old.callstack@.len() == 0 {
            r == Outcome::Stopped(Status::Success) && old.moved(new, n)
        } else {
            let caller = old.callstack@.last();
            let ret = caller.offset + old.current.return_to;
            if old.reg_ok(0) && caller.offset < old.top() && ret < old.top() && ret < STACK_SIZE {
                &&& r is Running
                &&& new.regs() == old.regs().update(ret, old.reg(0))
                &&& new.off() == caller.offset
                &&& new.top() == old.top() - 1
                &&& new.heap() == old.heap()
                &&& new.objects.free_slot() == old.objects.free_slot()
                &&& new.constants@ == old.constants@
                &&& new.code@ == old.code@
                &&& new.current == caller
                &&& new.callstack@ == old.callstack@.drop_last()
            } else {
                r is Fault && old.same(new)
            }
        },
        Op::Copy { dst, src } => if old.reg_ok(dst) && old.reg_ok(src) {
            r is Running && old.wrote(new, dst, old.reg(src), n)
        } else {
            r is Fault && old.same(new)
        },
        Op::Swap { v1, v2 } => if old.reg_ok(v1) && old.reg_ok(v2) {
            &&& r is Running
            &&& new.regs() == old.regs().update(old.off() + v1, old.reg(v2)).update(old.off() + v2, old.reg(v1))
            &&& new.off() == old.off()
            &&& new.top() == old.top()
            &&& new.heap() == old.heap()
            &&& new.constants@ == old.constants@
            &&& new.code@ == old.code@
            &&& new.current == (Frame { pointer: n as usize, ..old.current })
            &&& new.callstack@ == old.callstack@
        } else {
            r is Fault && old.same(new)
        },
        Op::Call { function, dst, args } => if old.top() + args.len() + 1 >= STACK_SIZE {
            overflowed(old, new, r, args.len() + 1 as int, n)
        } else if !call_fits(old, args) {
            r is Fault && old.same(new)
        } else {
            &&& r is Running
            &&& call_frame(old, new, args)
            &&& new.current == (Frame { pointer: function as usize, offset: old.top() as usize, return_to: dst })
            &&& new.callstack@ == old.callstack@.push(Frame { pointer: n as usize, ..old.current })
        },
        Op::ExtCall { index, dst, args } => if old.top() + args.len() + 1 >= STACK_SIZE {
            overflowed(old, new, r, args.len() + 1 as int, n)
        } else if !call_fits(old, args) {
            r is Fault && old.same(new)
        } else {
            &&& r == Outcome::CallExtern { index, dst, arg_count: args.len() as usize }
            &&& call_frame(old, new, args)
            &&& new.current == (Frame { pointer: n as usize, ..old.current })
            &&& new.callstack@ == old.callstack@
        },
        Op::Push { amount } => if old.top() + amount >= STACK_SIZE {
            overflowed(old, new, r, amount as int, n)
        } else {
            &&& r is Running
            &&& new.regs() == old.regs()
            &&& new.off() == old.off()
            &&& new.top() == old.top() + amount
            &&& new.heap() == old.heap()
            &&& new.constants@ == old.constants@
            &&& new.code@ == old.code@
            &&& new.current == (Frame { pointer: n as usize, ..old.current })
            &&& new.callstack@ == old.callstack@
        },
        Op::Pop { amount } => if amount <= old.top() {
            &&& r is Running
            &&& new.regs() == old.regs()
            &&& new.off() == old.off()
            &&& new.top() == old.top() - amount
            &&& new.heap() == old.heap()
            &&& new.constants@ == old.constants@
            &&& new.code@ == old.code@
            &&& new.current == (Frame { pointer: n as usize, ..old.current })
            &&& new.callstack@ == old.callstack@
        } else {
            r is Fault && old.same(new)
        },
        Op::ExternFile { file, functions } => if valid_utf8(file) && all_utf8(functions) {
            &&& r matches Outcome::LoadLibrary { path, functions: fs } && path@ == vstd::utf8::decode_utf8(file)
                && fs@.len() == functions.len()
                && forall|k: int| 0 <= k < functions.len() ==> (#[trigger] fs@[k]).0 == functions[k].0
                    && fs@[k].1@ == vstd::utf8::decode_utf8(functions[k].1)
            &&& old.moved(new, n)
        } else {
            r is Fault && old.same(new)
        },
        Op::Struct { dst, fields } => if old.reg_ok(dst) && all_regs_ok(old, fields) {
            ||| {
                &&& r matches Outcome::Stopped(Status::Failure(e)) && e.message@ == "out of memory"@
                &&& all_live(old.heap(), old.regs().take(old.top()) + old.constants@)
                &&& no_free_slot(new.heap())
                &&& same_data(old.heap(), new.heap())
                &&& new.regs() == old.regs()
                &&& new.off() == old.off()
                &&& new.top() == old.top()
                &&& new.constants@ == old.constants@
                &&& new.code@ == old.code@
                &&& new.current == (Frame { pointer: n as usize, ..old.current })
                &&& new.callstack@ == old.callstack@
            }
            ||| {
                &&& r is Running
                &&& exists|i: int| {
                    &&& 0 <= i < new.heap().len()
                    &&& #[trigger] new.heap()[i].data matches ObjectData::Struct(s)
                        && s.view() == fields.map_values(|f: u8| old.reg(f))
                    &&& !new.heap()[i].liveliness_status
                    &&& new.regs() == old.regs().update(old.off() + dst, VMData { tag: TAG_STRUCT, data: i as u64 })
                }
                &&& new.off() == old.off()
                &&& new.top() == old.top()
                &&& new.heap().len() == old.heap().len()
                &&& new.constants@ == old.constants@
                &&& new.code@ == old.code@
                &&& new.current == (Frame { pointer: n as usize, ..old.current })
                &&& new.callstack@ == old.callstack@
            }
        } else {
            r is Fault && old.same(new)
        },
        Op::AccStruct { dst, val, index } => if old.reg_ok(dst) && old.reg_ok(val)
            && struct_at(old, val) is Some && index < struct_at(old, val)->0.len() {
            r is Running && old.wrote(new, dst, struct_at(old, val)->0[index as int], n)
        } else {
            r is Fault && old.same(new)
        },
        Op::SetField { dst, data, index } => if old.reg_ok(dst) && old.reg_ok(data)
            && struct_at(old, dst) is Some && index < struct_at(old, dst)->0.len() {
            let at = old.reg(dst).data as int;
            &&& r is Running
            &&& new.heap().len() == old.heap().len()
            &&& new.heap()[at].liveliness_status == old.heap()[at].liveliness_status
            &&& new.heap()[at].data matches ObjectData::Struct(s)
                && s.view() == struct_at(old, dst)->0.update(index as int, old.reg(data))
            &&& forall|j: int| 0 <= j < old.heap().len() && j != at ==> #[trigger] new.heap()[j] == old.heap()[j]
            &&& new.objects.free_slot() == old.objects.free_slot()
            &&& new.regs() == old.regs()
            &&& new.off() == old.off()
            &&& new.top() == old.top()
            &&& new.constants@ == old.constants@
            &&& new.code@ == old.code@
            &&& new.current == (Frame { pointer: n as usize, ..old.current })
            &&& new.callstack@ == old.callstack@
        } else {
            r is Fault && old.same(new)
        },
        Op::Binary { op, dst, left, right } => if old.reg_ok(dst) && old.reg_ok(left) && old.reg_ok(right) {
            binary_post(old, new, r, op, dst, old.reg(left), old.reg(right), n)
        } else {
            r is Fault && old.same(new)
        },
        Op::LoadConst { dst, index } => if old.reg_ok(dst) && index < old.constants@.len() {
            r is Running && old.wrote(new, dst, old.constants@[index as int], n)
        } else {
            r is Fault && old.same(new)
        },
        Op::Unit { dst } => if old.reg_ok(dst) {
            r is Running && old.wrote(new, dst, VMData { tag: TAG_UNIT, data: 0 }, n)
        } else {
            r is Fault && old.same(new)
        },
        Op::Jump { to } => r is Running && old.moved(new, to as int),
        Op::JumpCond { cond, if_true, if_false } => if old.reg_ok(cond) && old.reg(cond).tag == TAG_BOOL {
            r is Running && old.moved(new, if old.reg(cond).data != 0 { if_true as int } else { if_false as int })
        } else {
            r is Fault && old.same(new)
        },
        Op::Unary { op, dst, val } => if old.reg_ok(dst) && old.reg_ok(val) {
            unary_post(old, new, r, op, dst, old.reg(val), n)
        } else {
            r is Fault && old.same(new)
        },
    }
}

/// What a step does: the instruction at the program counter, or a fault
/// where no instruction can be read there.
pub open spec fn step_post(old: &Machine, new: &Machine, r: Outcome) -> bool {
    match decode_at(old.code@, old.current.pointer as int) {
        None => r is Fault && old.same(new),
        Some((op, n)) => op_post(old, new, r, op, n),
    }
}

proof fn lemma_roots_valid(m: &Machine)
    requires
        m.wf(),
    ensures
        roots_valid(m.heap(), m.regs().take(m.top()) + m.constants@),
{
    let roots = m.regs().take(m.top()) + m.constants@;
    assert forall|r: int| 0 <= r < roots.len() && #[trigger] roots[r].spec_is_object() implies roots[r].data < m.heap().len() by {
        if r < m.top() {
            assert(roots[r] == m.regs()[r]);
        } else {
            assert(roots[r] == m.constants@[r - m.top()]);
        }
    }
}

impl Machine {
    fn reg_ok_exec(&self, r: u8) -> (b: bool)
        ensures
            b == self.reg_ok(r),
    {
        let off = self.stack.get_offset();
        let top = self.stack.get_top();
        let r = r as usize;
        off < STACK_SIZE && r < STACK_SIZE - off && off <= top && r < top - off
    }

    fn fault(&self, message: &str) -> (r: Outcome)
        ensures
            r matches Outcome::Fault(m) && m@ == message@,
    {
        Outcome::Fault(message.to_owned())
    }

    /// Writes register `dst`, which must be in the frame, and moves on to `n`.
    fn write(&mut self, dst: u8, v: VMData, n: usize)
        requires
            old(self).wf(),
            old(self).reg_ok(dst),
            v.spec_is_object() ==> v.data < old(self).heap().len(),
        ensures
            old(self).wrote(final(self), dst, v, n as int),
            final(self).wf(),
    {
        self.stack.set_reg(dst, v);
        self.current.pointer = n;
        proof {
            let regs = self.regs();
            assert forall|i: int| 0 <= i < regs.len() && #[trigger] regs[i].spec_is_object() implies regs[i].data < self.heap().len() by {
                if i != old(self).off() + dst {
                    assert(regs[i] == old(self).regs()[i]);
                }
            }
        }
    }

    fn exec_return(&mut self, n: usize) -> (r: Outcome)
        requires
            old(self).wf(),
        ensures
            op_post(old(self), final(self), r, Op::Return, n as int),
            r is Stopped || final(self).wf(),
    {
        let len = self.callstack.len();
        if len == 0 {
            self.current.pointer = n;
            return Outcome::Stopped(Status::Success);
        }
        let caller = self.callstack[len - 1];
        let top = self.stack.get_top();
        if !self.reg_ok_exec(0) || caller.offset >= top || (self.current.return_to as usize) >= top - caller.offset
            || caller.offset + (self.current.return_to as usize) >= STACK_SIZE {
            return self.fault("return outside the stack");
        }
        let ret_val = self.stack.reg(0);
        let ret_reg = self.current.return_to;
        self.callstack.pop();
        self.current = caller;
        self.stack.set_stack_offset(caller.offset);
        self.stack.set_reg(ret_reg, ret_val);
        self.stack.pop(1);
        proof {
            assert(self.callstack@ =~= old(self).callstack@.drop_last());
            let regs = self.regs();
            assert forall|i: int| 0 <= i < regs.len() && #[trigger] regs[i].spec_is_object() implies regs[i].data < self.heap().len() by {
                if i != caller.offset + ret_reg {
                    assert(regs[i] == old(self).regs()[i]);
                }
            }
        }
        Outcome::Running
    }

    fn exec_call(&mut self, external: bool, number: u32, dst: u8, args: &Vec<u8>, n: usize) -> (r: Outcome)
        requires
            old(self).wf(),
            args@.len() < 256,
        ensures
            external ==> op_post(old(self), final(self), r, Op::ExtCall { index: number, dst, args: args@ }, n as int),
            !external ==> op_post(old(self), final(self), r, Op::Call { function: number, dst, args: args@ }, n as int),
            r is Stopped || final(self).wf(),
    {
        let argc = args.len();
        let top = self.stack.get_top();
        let off = self.stack.get_offset();
        if top + argc + 1 >= STACK_SIZE {
            let st = self.stack.push(argc + 1);
            self.current.pointer = n;
            return Outcome::Stopped(st);
        }
        let top1 = top + argc + 1;
        if off > top + 1 {
            return self.fault("call outside the stack");
        }
        if argc > 0 && top1 - off - 1 >= 256 {
            return self.fault("call outside the stack");
        }
        if !args_fit(args, off, top1) {
            return self.fault("argument outside the stack");
        }
        proof {
            assert(call_fits(old(self), args@));
        }
        let _ = self.stack.push(argc + 1);
        let temp = top1 - argc - off;
        let mut v: usize = 0;
        while v < argc
            invariant
                v <= argc,
                argc == args@.len(),
                argc < 256,
                top1 == top + argc + 1,
                top1 < STACK_SIZE,
                off == old(self).off(),
                temp == top1 - argc - off,
                argc > 0 ==> temp + argc - 1 < 256,
                self.stack.offset() == off,
                self.stack.top() == top1,
                self.stack.values().len() == STACK_SIZE,
                forall|j: int| 0 <= j < argc ==> off + #[trigger] args@[j] < top1 && off + args@[j] < STACK_SIZE,
                self.stack.values() == copy_args(old(self).regs(), off as int, temp as int, args@, v as int),
                self.objects == old(self).objects,
                self.constants == old(self).constants,
                self.code == old(self).code,
                self.current == old(self).current,
                self.callstack == old(self).callstack,
            decreases argc - v,
        {
            let val = self.stack.reg(args[v]);
            self.stack.set_reg((temp + v) as u8, val);
            v = v + 1;
        }
        let frame_start = top1 - argc - 1;
        if external {
            self.stack.set_stack_offset(frame_start);
            self.current.pointer = n;
        } else {
            let here = Frame { pointer: n, ..self.current };
            self.callstack.push(here);
            self.current = Frame { pointer: number as usize, offset: frame_start, return_to: dst };
            self.stack.set_stack_offset(frame_start);
        }
        proof {
            lemma_copy_args_valid(old(self).regs(), off as int, temp as int, args@, argc as int, self.heap().len());
        }
        if external {
            Outcome::CallExtern { index: number, dst, arg_count: argc }
        } else {
            Outcome::Running
        }
    }
}

/// Every argument register lies below `top1` and in the stack, counted
/// from `off`.
fn args_fit(args: &Vec<u8>, off: usize, top1: usize) -> (r: bool)
    requires
        off <= top1 <= STACK_SIZE,
    ensures
        r == forall|j: int| 0 <= j < args@.len() ==> off + #[trigger] args@[j] < top1 && off + args@[j] < STACK_SIZE,
{
    let mut k: usize = 0;
    while k < args.len()
        invariant
            k <= args@.len(),
            off <= top1 <= STACK_SIZE,
            forall|j: int| 0 <= j < k ==> off + #[trigger] args@[j] < top1 && off + args@[j] < STACK_SIZE,
        decreases args@.len() - k,
    {
        let a = args[k] as usize;
        if a >= top1 - off || a >= STACK_SIZE - off {
            return false;
        }
        k = k + 1;
    }
    true
}

proof fn lemma_copy_args_valid(regs: Seq<VMData>, off: int, base: int, args: Seq<u8>, k: int, len: nat)
    requires
        values_valid(regs, len),
        0 <= k <= args.len(),
        forall|j: int| 0 <= j < k ==> 0 <= off + #[trigger] args[j] < regs.len(),
        0 <= off + base,
        off + base + k <= regs.len(),
    ensures
        values_valid(copy_args(regs, off, base, args, k), len),
        copy_args(regs, off, base, args, k).len() == regs.len(),
    decreases k,
{
    if k > 0 {
        lemma_copy_args_valid(regs, off, base, args, k - 1, len);
        let before = copy_args(regs, off, base, args, k - 1);
        let after = copy_args(regs, off, base, args, k);
        assert forall|i: int| 0 <= i < after.len() && #[trigger] after[i].spec_is_object() implies after[i].data < len by {
            if i != off + base + (k - 1) {
                assert(after[i] == before[i]);
            } else {
                assert(after[i] == before[off + args[k - 1]]);
            }
        }
    }
}

impl Machine {
    fn exec_push(&mut self, amount: u8, n: usize) -> (r: Outcome)
        requires
            old(self).wf(),
        ensures
            op_post(old(self), final(self), r, Op::Push { amount }, n as int),
            r is Stopped || final(self).wf(),
    {
        let st = self.stack.push(amount as usize);
        self.current.pointer = n;
        if st.is_ok() {
            Outcome::Running
        } else {
            Outcome::Stopped(st)
        }
    }

    fn exec_pop(&mut self, amount: u8, n: usize) -> (r: Outcome)
        requires
            old(self).wf(),
        ensures
            op_post(old(self), final(self), r, Op::Pop { amount }, n as int),
            final(self).wf(),
    {
        if amount as usize > self.stack.get_top() {
            return self.fault("pop below the bottom of the stack");
        }
        self.stack.pop(amount as usize);
        self.current.pointer = n;
        Outcome::Running
    }

    fn exec_extern_file(&mut self, file: &Vec<u8>, functions: &Vec<(u32, Vec<u8>)>, n: usize) -> (r: Outcome)
        requires
            old(self).wf(),
        ensures
            op_post(old(self), final(self), r, Op::ExternFile { file: file@, functions: crate::instruction::functions_view(functions@) }, n as int),
            final(self).wf(),
    {
        let path = match string_from_utf8(file.clone()) {
            Some(p) => p,
            None => return self.fault("extern file name is not UTF-8"),
        };
        match names_of(functions) {
            Some(names) => {
                self.current.pointer = n;
                Outcome::LoadLibrary { path, functions: names }
            },
            None => self.fault("extern function name is not UTF-8"),
        }
    }

    fn exec_struct(&mut self, dst: u8, fields: &Vec<u8>, n: usize) -> (r: Outcome)
        requires
            old(self).wf(),
        ensures
            op_post(old(self), final(self), r, Op::Struct { dst, fields: fields@ }, n as int),
            r is Stopped || final(self).wf(),
    {
        if !self.reg_ok_exec(dst) {
            return self.fault("register outside the frame");
        }
        if !self.regs_ok(fields) {
            return self.fault("register outside the frame");
        }
        let mut values: Vec<VMData> = Vec::new();
        let mut k: usize = 0;
        while k < fields.len()
            invariant
                k <= fields@.len(),
                old(self).wf(),
                old(self).same(self),
                values@ == fields@.take(k as int).map_values(|f: u8| old(self).reg(f)),
                forall|j: int| 0 <= j < fields@.len() ==> old(self).reg_ok(#[trigger] fields@[j]),
            decreases fields@.len() - k,
        {
            let v = self.stack.reg(fields[k]);
            values.push(v);
            k = k + 1;
            assert(values@ =~= fields@.take(k as int).map_values(|f: u8| old(self).reg(f)));
        }
        assert(fields@.take(fields@.len() as int) =~= fields@);
        proof {
            lemma_roots_valid(self);
        }
        let ghost vals = values@;
        let object = Object::new(ObjectData::Struct(Structure::new(values)));
        proof {
            assert forall|k: int| 0 <= k < children(object).len() && #[trigger] children(object)[k].spec_is_object()
                implies children(object)[k].data < self.heap().len() by {
                assert(children(object)[k] == old(self).reg(fields@[k]));
                assert(old(self).regs()[old(self).off() + fields@[k]] == children(object)[k]);
            }
        }
        let made = create_object(&mut self.objects, object, self.stack.in_use(), self.constants.as_slice());
        match made {
            Ok(index) => {
                let v = VMData::new(TAG_STRUCT, index.index);
                self.write(dst, v, n);
                proof {
                    assert(self.heap()[index.index as int].data matches ObjectData::Struct(s) && s.view() == fields@.map_values(|f: u8| old(self).reg(f)));
                }
                Outcome::Running
            },
            Err(e) => {
                self.current.pointer = n;
                Outcome::Stopped(Status::Failure(e))
            },
        }
    }

    /// The fields of the structure that register `r` refers to.
    fn struct_fields(&self, r: u8) -> (f: Option<&Vec<VMData>>)
        requires
            self.wf(),
            self.reg_ok(r),
        ensures
            match f {
                Some(v) => struct_at(self, r) == Some(v@),
                None => struct_at(self, r) is None,
            },
    {
        let v = self.stack.reg(r);
        if !v.is_object() || v.data >= self.objects.len() as u64 {
            return None;
        }
        let object = self.objects.get(ObjectIndex::new(v.data));
        match &object.data {
            ObjectData::Struct(s) => Some(s.fields_vec()),
            _ => None,
        }
    }

    fn exec_acc_struct(&mut self, dst: u8, val: u8, index: u8, n: usize) -> (r: Outcome)
        requires
            old(self).wf(),
        ensures
            op_post(old(self), final(self), r, Op::AccStruct { dst, val, index }, n as int),
            final(self).wf(),
    {
        if !self.reg_ok_exec(dst) || !self.reg_ok_exec(val) {
            return self.fault("register outside the frame");
        }
        let value = match self.struct_fields(val) {
            Some(fields) => {
                if (index as usize) < fields.len() {
                    fields[index as usize]
                } else {
                    return self.fault("field outside the structure");
                }
            },
            None => return self.fault("not a structure"),
        };
        proof {
            let at = old(self).reg(val).data as int;
            assert(children(old(self).heap()[at]) == struct_at(old(self), val)->0);
            assert(children(old(self).heap()[at])[index as int] == value);
        }
        self.write(dst, value, n);
        Outcome::Running
    }

    fn exec_set_field(&mut self, dst: u8, data: u8, index: u8, n: usize) -> (r: Outcome)
        requires
            old(self).wf(),
        ensures
            op_post(old(self), final(self), r, Op::SetField { dst, data, index }, n as int),
            final(self).wf(),
    {
        if !self.reg_ok_exec(dst) || !self.reg_ok_exec(data) {
            return self.fault("register outside the frame");
        }
        match self.struct_fields(dst) {
            Some(fields) => {
                if (index as usize) >= fields.len() {
                    return self.fault("field outside the structure");
                }
            },
            None => return self.fault("not a structure"),
        }
        let target = self.stack.reg(dst);
        let value = self.stack.reg(data);
        let ghost before = self.heap();
        self.objects.set_field(ObjectIndex::new(target.data), index as usize, value);
        self.current.pointer = n;
        proof {
            let after = self.heap();
            let at = target.data as int;
            assert forall|a: int, k: int|
                0 <= a < after.len() && 0 <= k < children(after[a]).len() && #[trigger] children(after[a])[k].spec_is_object()
                implies children(after[a])[k].data < after.len() by {
                if a != at {
                    assert(after[a] == before[a]);
                } else if k != index {
                    assert(children(after[a])[k] == children(before[a])[k]);
                }
            }
            assert forall|a: int| 0 <= a < after.len() && (#[trigger] after[a].data matches ObjectData::Free { next })
                implies after[a].data->next.index < after.len() by {
                if a != at {
                    assert(after[a] == before[a]);
                }
            }
            assert forall|a: int| 0 <= a < after.len() && #[trigger] after[a].liveliness_status implies after[a].data is Free by {
                if a != at {
                    assert(after[a] == before[a]);
                } else {
                    assert(before[a].data is Struct);
                    assert(!before[a].liveliness_status);
                }
            }
        }
        Outcome::Running
    }
}

/// The names of an extern file's functions as text; `None` when one is
/// not valid UTF-8.
fn names_of(functions: &Vec<(u32, Vec<u8>)>) -> (r: Option<Vec<(u32, String)>>)
    ensures
        ({
            let fs = crate::instruction::functions_view(functions@);
            match r {
                Some(names) => all_utf8(fs)
                    && names@.len() == fs.len()
                    && forall|k: int| 0 <= k < fs.len() ==> (#[trigger] names@[k]).0 == fs[k].0
                        && names@[k].1@ == vstd::utf8::decode_utf8(fs[k].1),
                None => !all_utf8(fs),
            }
        }),
{
    let ghost fs = crate::instruction::functions_view(functions@);
    let mut names: Vec<(u32, String)> = Vec::new();
    let mut k: usize = 0;
    while k < functions.len()
        invariant
            k <= functions@.len(),
            fs == crate::instruction::functions_view(functions@),
            names@.len() == k,
            forall|j: int| 0 <= j < k ==> valid_utf8(#[trigger] fs[j].1),
            forall|j: int| 0 <= j < k ==> (#[trigger] names@[j]).0 == fs[j].0
                && names@[j].1@ == vstd::utf8::decode_utf8(fs[j].1),
        decreases functions@.len() - k,
    {
        let (index, bytes) = (functions[k].0, functions[k].1.clone());
        assert(fs[k as int] == (index, bytes@));
        match string_from_utf8(bytes) {
            Some(name) => names.push((index, name)),
            None => {
                assert(!valid_utf8(fs[k as int].1));
                return None;
            },
        }
        k = k + 1;
    }
    Some(names)
}

impl Machine {
    /// Every register in `rs` is in the frame.
    fn regs_ok(&self, rs: &Vec<u8>) -> (b: bool)
        ensures
            b == all_regs_ok(self, rs@),
    {
        let mut k: usize = 0;
        while k < rs.len()
            invariant
                k <= rs@.len(),
                forall|j: int| 0 <= j < k ==> self.reg_ok(#[trigger] rs@[j]),
            decreases rs@.len() - k,
        {
            if !self.reg_ok_exec(rs[k]) {
                assert(!self.reg_ok(rs@[k as int]));
                return false;
            }
            k = k + 1;
        }
        true
    }
}

fn cast_target_exec(op: Bytecode) -> (r: u64)
    ensures
        r == cast_target(op),
{
    match op {
        Bytecode::CastToI8 => TAG_I8,
        Bytecode::CastToI16 => TAG_I16,
        Bytecode::CastToI32 => TAG_I32,
        Bytecode::CastToI64 => TAG_I64,
        Bytecode::CastToU8 => TAG_U8,
        Bytecode::CastToU16 => TAG_U16,
        Bytecode::CastToU32 => TAG_U32,
        Bytecode::CastToU64 => TAG_U64,
        _ => TAG_FLOAT,
    }
}

fn is_int_tag_exec(t: u64) -> (r: bool)
    ensures
        r == is_int_tag(t),
{
    TAG_I8 <= t && t <= TAG_U64
}

impl Machine {
    fn exec_binary(&mut self, op: Bytecode, dst: u8, left: u8, right: u8, n: usize) -> (r: Outcome)
        requires
            old(self).wf(),
            is_binary(op),
        ensures
            op_post(old(self), final(self), r, Op::Binary { op, dst, left, right }, n as int),
            r is Stopped || final(self).wf(),
    {
        if !self.reg_ok_exec(dst) || !self.reg_ok_exec(left) || !self.reg_ok_exec(right) {
            return self.fault("register outside the frame");
        }
        let a = self.stack.reg(left);
        let b = self.stack.reg(right);
        if op == Bytecode::Equals || op == Bytecode::NotEquals {
            if a.tag == TAG_FLOAT && b.tag == TAG_FLOAT {
                self.current.pointer = n;
                return Outcome::Float { op, dst, left: a, right: b };
            }
            let same = a == b;
            let v = VMData::new_bool(same == (op == Bytecode::Equals));
            self.write(dst, v, n);
            return Outcome::Running;
        }
        if !(a.tag == b.tag && (is_int_tag_exec(a.tag) || a.tag == TAG_FLOAT)) {
            return self.fault("operands of different types");
        }
        if a.tag == TAG_FLOAT {
            self.current.pointer = n;
            return Outcome::Float { op, dst, left: a, right: b };
        }
        if op == Bytecode::GreaterThan || op == Bytecode::LesserThan || op == Bytecode::GreaterEquals
            || op == Bytecode::LesserEquals {
            let v = int_order(op, a, b);
            self.write(dst, v, n);
            return Outcome::Running;
        }
        if op == Bytecode::Divide && crate::values::int_is_zero(b) {
            self.current.pointer = n;
            return Outcome::Stopped(Status::Failure(FatalError::new(String::from_str("division by zero"))));
        }
        if op == Bytecode::Modulo && crate::values::int_is_zero(b) {
            return self.fault("remainder by zero");
        }
        let v = int_arith(op, a, b);
        self.write(dst, v, n);
        Outcome::Running
    }

    fn exec_unary(&mut self, op: Bytecode, dst: u8, val: u8, n: usize) -> (r: Outcome)
        requires
            old(self).wf(),
            is_unary(op),
        ensures
            op_post(old(self), final(self), r, Op::Unary { op, dst, val }, n as int),
            r is Stopped || final(self).wf(),
    {
        if !self.reg_ok_exec(dst) || !self.reg_ok_exec(val) {
            return self.fault("register outside the frame");
        }
        let v = self.stack.reg(val);
        if op == Bytecode::UnaryNot {
            if v.tag != TAG_BOOL {
                return self.fault("not a bool");
            }
            self.write(dst, VMData::new_bool(v.data == 0), n);
            return Outcome::Running;
        }
        if op == Bytecode::UnaryNeg {
            if v.tag == TAG_FLOAT {
                self.current.pointer = n;
                return Outcome::Float { op, dst, left: v, right: v };
            }
            if !(TAG_I8 <= v.tag && v.tag <= TAG_I64) || !crate::values::negation_fits(v) {
                return self.fault("cannot negate");
            }
            let w = int_negate(v);
            self.write(dst, w, n);
            return Outcome::Running;
        }
        let target = cast_target_exec(op);
        if v.tag == TAG_FLOAT || (is_int_tag_exec(v.tag) && target == TAG_FLOAT) {
            self.current.pointer = n;
            return Outcome::Float { op, dst, left: v, right: v };
        }
        if !is_int_tag_exec(v.tag) {
            return self.fault("not a number");
        }
        let w = int_cast(target, v);
        self.write(dst, w, n);
        Outcome::Running
    }

    fn exec_copy(&mut self, dst: u8, src: u8, n: usize) -> (r: Outcome)
        requires
            old(self).wf(),
        ensures
            op_post(old(self), final(self), r, Op::Copy { dst, src }, n as int),
            final(self).wf(),
    {
        if !self.reg_ok_exec(dst) || !self.reg_ok_exec(src) {
            return self.fault("register outside the frame");
        }
        let v = self.stack.reg(src);
        self.write(dst, v, n);
        Outcome::Running
    }

    fn exec_load_const(&mut self, dst: u8, index: u8, n: usize) -> (r: Outcome)
        requires
            old(self).wf(),
        ensures
            op_post(old(self), final(self), r, Op::LoadConst { dst, index }, n as int),
            final(self).wf(),
    {
        if !self.reg_ok_exec(dst) || index as usize >= self.constants.len() {
            return self.fault("constant outside the table");
        }
        let v = self.constants[index as usize];
        self.write(dst, v, n);
        Outcome::Running
    }

    fn exec_unit(&mut self, dst: u8, n: usize) -> (r: Outcome)
        requires
            old(self).wf(),
        ensures
            op_post(old(self), final(self), r, Op::Unit { dst }, n as int),
            final(self).wf(),
    {
        if !self.reg_ok_exec(dst) {
            return self.fault("register outside the frame");
        }
        self.write(dst, VMData::new_unit(), n);
        Outcome::Running
    }

    fn exec_swap(&mut self, v1: u8, v2: u8, n: usize) -> (r: Outcome)
        requires
            old(self).wf(),
        ensures
            op_post(old(self), final(self), r, Op::Swap { v1, v2 }, n as int),
            final(self).wf(),
    {
        if !self.reg_ok_exec(v1) || !self.reg_ok_exec(v2) {
            return self.fault("register outside the frame");
        }
        let off = self.stack.get_offset();
        let a = off + v1 as usize;
        let b = off + v2 as usize;
        self.stack.swap(a, b);
        self.current.pointer = n;
        proof {
            let regs = self.regs();
            assert forall|i: int| 0 <= i < regs.len() && #[trigger] regs[i].spec_is_object() implies regs[i].data < self.heap().len() by {
                if i == b {
                    assert(regs[i] == old(self).regs()[a as int]);
                } else if i == a {
                    assert(regs[i] == old(self).regs()[b as int]);
                } else {
                    assert(regs[i] == old(self).regs()[i]);
                }
            }
        }
        Outcome::Running
    }

    fn exec_jump_cond(&mut self, cond: u8, if_true: u32, if_false: u32) -> (r: Outcome)
        requires
            old(self).wf(),
        ensures
            op_post(old(self), final(self), r, Op::JumpCond { cond, if_true, if_false }, 0),
            final(self).wf(),
    {
        if !self.reg_ok_exec(cond) {
            return self.fault("register outside the frame");
        }
        let v = self.stack.reg(cond);
        if v.tag != TAG_BOOL {
            return self.fault("not a bool");
        }
        self.current.pointer = if v.data != 0 { if_true as usize } else { if_false as usize };
        Outcome::Running
    }

    /// Does the instruction at the program counter.
    pub fn step(&mut self) -> (r: Outcome)
        requires
            old(self).wf(),
        ensures
            step_post(old(self), final(self), r),
            r is Stopped || final(self).wf(),
    {
        let decoded = decode(self.code.as_slice(), self.current.pointer);
        match decoded {
            None => self.fault("no instruction at the program counter"),
            Some((instr, n)) => match instr {
                Instruction::Return => self.exec_return(n),
                Instruction::Copy { dst, src } => self.exec_copy(dst, src, n),
                Instruction::Swap { v1, v2 } => self.exec_swap(v1, v2, n),
                Instruction::Call { function, dst, args } => self.exec_call(false, function, dst, &args, n),
                Instruction::ExtCall { index, dst, args } => self.exec_call(true, index, dst, &args, n),
                Instruction::Push { amount } => self.exec_push(amount, n),
                Instruction::Pop { amount } => self.exec_pop(amount, n),
                Instruction::ExternFile { file, functions } => self.exec_extern_file(&file, &functions, n),
                Instruction::Struct { dst, fields } => self.exec_struct(dst, &fields, n),
                Instruction::AccStruct { dst, val, index } => self.exec_acc_struct(dst, val, index, n),
                Instruction::SetField { dst, data, index } => self.exec_set_field(dst, data, index, n),
                Instruction::Binary { op, dst, left, right } => self.exec_binary(op, dst, left, right, n),
                Instruction::LoadConst { dst, index } => self.exec_load_const(dst, index, n),
                Instruction::Unit { dst } => self.exec_unit(dst, n),
                Instruction::Jump { to } => {
                    self.current.pointer = to as usize;
                    Outcome::Running
                },
                Instruction::JumpCond { cond, if_true, if_false } => self.exec_jump_cond(cond, if_true, if_false),
                Instruction::Unary { op, dst, val } => self.exec_unary(op, dst, val, n),
            },
        }
    }

    /// Stores the result of a float operation in register `dst`; a
    /// register outside the frame, or a reference to no slot, is a fault.
    pub fn finish_float(&mut self, dst: u8, value: VMData) -> (r: Outcome)
        requires
            old(self).wf(),
        ensures
            if old(self).reg_ok(dst) && (value.spec_is_object() ==> value.data < old(self).heap().len()) {
                r is Running && old(self).wrote(final(self), dst, value, old(self).current.pointer as int)
            } else {
                r is Fault && old(self).same(final(self))
            },
            final(self).wf(),
    {
        if !self.reg_ok_exec(dst) || (value.is_object() && value.data >= self.objects.len() as u64) {
            return self.fault("result outside the frame");
        }
        let n = self.current.pointer;
        self.write(dst, value, n);
        Outcome::Running
    }

    /// Completes a call of an extern function that returned normally: its
    /// result (register 0 of its frame) goes to register `dst` of the
    /// caller, whose frame is restored, and the call's registers are
    /// given back.
    pub fn finish_extern(&mut self, dst: u8, arg_count: usize) -> (r: Outcome)
        requires
            old(self).wf(),
        ensures
            ({
                let off = old(self).current.offset;
                let ret = off + dst;
                if old(self).reg_ok(0) && off < old(self).top() && ret < old(self).top() && ret < STACK_SIZE
                    && arg_count + 1 <= old(self).top() {
                    &&& r is Running
                    &&& final(self).regs() == old(self).regs().update(ret, old(self).reg(0))
                    &&& final(self).off() == off
                    &&& final(self).top() == old(self).top() - arg_count - 1
                    &&& final(self).heap() == old(self).heap()
                    &&& final(self).constants@ == old(self).constants@
                    &&& final(self).code@ == old(self).code@
                    &&& final(self).current == old(self).current
                    &&& final(self).callstack@ == old(self).callstack@
                } else {
                    r is Fault && old(self).same(final(self))
                }
            }),
            final(self).wf(),
    {
        let off = self.current.offset;
        let top = self.stack.get_top();
        if !self.reg_ok_exec(0) || off >= top || (dst as usize) >= top - off || off + (dst as usize) >= STACK_SIZE
            || arg_count >= top {
            return self.fault("extern call outside the stack");
        }
        let ret_val = self.stack.reg(0);
        self.stack.set_stack_offset(off);
        self.stack.set_reg(dst, ret_val);
        self.stack.pop(arg_count + 1);
        proof {
            let regs = self.regs();
            assert forall|i: int| 0 <= i < regs.len() && #[trigger] regs[i].spec_is_object() implies regs[i].data < self.heap().len() by {
                if i != off + dst {
                    assert(regs[i] == old(self).regs()[i]);
                }
            }
        }
        Outcome::Running
    }
}

/// One entry of a constant table: a value, or the UTF-8 bytes of a string
/// that goes into the heap.
pub enum Constant {
    Value(VMData),
    Text(Seq<u8>),
}

/// The little-endian unsigned number in `len` bytes at `p`.
pub open spec fn le_at(b: Seq<u8>, p: int, len: nat) -> nat
    decreases len,
{
    if len == 0 {
        0
    } else {
        b[p] as nat + 256 * le_at(b, p + 1, (len - 1) as nat)
    }
}

/// How many payload bytes an entry of type byte `t` has, for the fixed
/// size kinds.
pub open spec fn fixed_size(t: u8) -> nat {
    if t == 0 { 8 }
    else if t == 1 { 1 }
    else if t == 3 || t == 7 { 1 }
    else if t == 4 || t == 8 { 2 }
    else if t == 5 || t == 9 { 4 }
    else { 8 }
}

/// The tag of the value an entry of type byte `t` holds.
pub open spec fn entry_tag(t: u8) -> u64 {
    if t == 0 { TAG_FLOAT }
    else if t == 1 { TAG_BOOL }
    else if t == 3 { TAG_I8 }
    else if t == 4 { TAG_I16 }
    else if t == 5 { TAG_I32 }
    else if t == 6 { TAG_I64 }
    else if t == 7 { TAG_U8 }
    else if t == 8 { TAG_U16 }
    else if t == 9 { TAG_U32 }
    else { TAG_U64 }
}

/// The value of a fixed size entry whose payload is the number `x`.
pub open spec fn entry_value(t: u8, x: nat) -> VMData {
    if t == 0 {
        VMData { tag: TAG_FLOAT, data: x as u64 }
    } else if t == 1 {
        bool_value(x == 1)
    } else {
        let tag = entry_tag(t);
        let signed: int = if t == 3 {
            ((x as u8) as i8) as int
        } else if t == 4 {
            ((x as u16) as i16) as int
        } else if t == 5 {
            ((x as u32) as i32) as int
        } else if t == 6 {
            ((x as u64) as i64) as int
        } else {
            x as int
        };
        VMData { tag, data: canon(tag, signed) }
    }
}

/// The entries of a constant table from `p` on: a type byte (0 float,
/// 1 bool, 2 string, 3 to 6 signed and 7 to 10 unsigned integers of 1, 2,
/// 4 and 8 bytes) and its little-endian payload; a string is its length
/// in eight bytes and its bytes. `None` for an unknown type byte or a
/// payload that runs past the end.
pub open spec fn parse_constants(b: Seq<u8>, p: int) -> Option<Seq<Constant>>
    decreases b.len() - p,
{
    if p < 0 || p >= b.len() {
        Some(Seq::empty())
    } else {
        let t = b[p];
        if t > 10 {
            None
        } else if t == 2 {
            if p + 9 > b.len() {
                None
            } else {
                let len = le_at(b, p + 1, 8);
                if p + 9 + len > b.len() {
                    None
                } else {
                    match parse_constants(b, p + 9 + len) {
                        Some(rest) => Some(seq![Constant::Text(b.subrange(p + 9, p + 9 + len))] + rest),
                        None => None,
                    }
                }
            }
        } else {
            let size = fixed_size(t);
            if p + 1 + size > b.len() {
                None
            } else {
                match parse_constants(b, p + 1 + size) {
                    Some(rest) => Some(seq![Constant::Value(entry_value(t, le_at(b, p + 1, size)))] + rest),
                    None => None,
                }
            }
        }
    }
}

/// A constant table entry as it stands in the machine: a value as it is,
/// a string as a reference to a string slot.
pub open spec fn loaded(c: Constant, v: VMData, heap: Seq<Object>) -> bool {
    match c {
        Constant::Value(x) => v == x,
        Constant::Text(t) => {
            &&& v.tag == TAG_STR
            &&& v.data < heap.len()
            &&& heap[v.data as int].data matches ObjectData::String(s)
            &&& s@ == vstd::utf8::decode_utf8(t)
        },
    }
}

fn read_le(b: &[u8], p: usize, len: usize) -> (r: u64)
    requires
        len <= 8,
        p + len <= b@.len(),
    ensures
        r == le_at(b@, p as int, len as nat),
    decreases len,
{
    if len == 0 {
        0
    } else {
        let n = b.len();
        assert(p + len <= n);
        let rest = read_le(b, p + 1, len - 1);
        proof {
            assert(le_at(b@, p + 1, (len - 1) as nat) < pow256((len - 1) as nat)) by {
                lemma_le_bound(b@, p + 1, (len - 1) as nat);
            }
            lemma_pow256_le((len - 1) as nat);
        }
        (b[p] as u64) + 256 * rest
    }
}

pub open spec fn pow256(n: nat) -> nat
    decreases n,
{
    if n == 0 { 1 } else { 256 * pow256((n - 1) as nat) }
}

proof fn lemma_le_bound(b: Seq<u8>, p: int, len: nat)
    ensures
        le_at(b, p, len) < pow256(len),
    decreases len,
{
    if len > 0 {
        lemma_le_bound(b, p + 1, (len - 1) as nat);
        assert(b[p] as nat + 256 * le_at(b, p + 1, (len - 1) as nat) < pow256(len)) by (nonlinear_arith)
            requires
                b[p] < 256,
                le_at(b, p + 1, (len - 1) as nat) + 1 <= pow256((len - 1) as nat),
                pow256(len) == 256 * pow256((len - 1) as nat),
        ;
    }
}

proof fn lemma_pow256_le(n: nat)
    requires
        n <= 7,
    ensures
        256 * pow256(n) <= 0x1_0000_0000_0000_0000,
{
    reveal_with_fuel(pow256, 8);
}

fn entry_value_exec(t: u8, x: u64) -> (r: VMData)
    requires
        t <= 10,
        t != 2,
        x < pow256(fixed_size(t)),
    ensures
        r == entry_value(t, x as nat),
{
    proof {
        reveal_with_fuel(pow256, 9);
    }
    if t == 0 {
        VMData::new(TAG_FLOAT, x)
    } else if t == 1 {
        VMData::new_bool(x == 1)
    } else if t == 3 {
        VMData::new(TAG_I8, ((x as u8) as i8) as u64)
    } else if t == 4 {
        VMData::new(TAG_I16, ((x as u16) as i16) as u64)
    } else if t == 5 {
        VMData::new(TAG_I32, ((x as u32) as i32) as u64)
    } else if t == 6 {
        VMData::new(TAG_I64, (x as i64) as u64)
    } else if t == 7 {
        VMData::new(TAG_U8, x)
    } else if t == 8 {
        VMData::new(TAG_U16, x)
    } else if t == 9 {
        VMData::new(TAG_U32, x)
    } else {
        VMData::new(TAG_U64, x)
    }
}

} // verus!

verus! {

/// A parsed constant table entry.
enum Entry {
    Value(VMData),
    Text(String, Ghost<Seq<u8>>),
}

spec fn entry_view(e: Entry) -> Constant {
    match e {
        Entry::Value(v) => Constant::Value(v),
        Entry::Text(_, g) => Constant::Text(g@),
    }
}

/// How many constants of a table are strings, each of which takes a slot
/// of the heap.
pub open spec fn text_count(cs: Seq<Constant>) -> nat
    decreases cs.len(),
{
    if cs.len() == 0 {
        0
    } else {
        (if cs[0] is Text { 1nat } else { 0nat }) + text_count(cs.drop_first())
    }
}

spec fn entries_view(es: Seq<Entry>) -> Seq<Constant> {
    es.map_values(|e: Entry| entry_view(e))
}

/// A string entry holds the text its bytes encode.
spec fn entry_ok(e: Entry) -> bool {
    match e {
        Entry::Value(v) => !v.spec_is_object(),
        Entry::Text(s, g) => valid_utf8(g@) && s@ == vstd::utf8::decode_utf8(g@),
    }
}

/// Every string of the table is valid UTF-8.
pub open spec fn texts_valid(cs: Seq<Constant>) -> bool {
    forall|k: int| 0 <= k < cs.len() ==> (#[trigger] cs[k] matches Constant::Text(t) ==> valid_utf8(t))
}

proof fn lemma_entries_texts_valid(es: Seq<Entry>)
    requires
        forall|k: int| 0 <= k < es.len() ==> entry_ok(#[trigger] es[k]),
    ensures
        texts_valid(entries_view(es)),
{
    let cs = entries_view(es);
    assert forall|k: int| 0 <= k < cs.len() implies (#[trigger] cs[k] matches Constant::Text(t) ==> valid_utf8(t)) by {
        assert(entry_ok(es[k]));
    }
}

/// The constants of a table, with every string already read as text;
/// `None` where the table is malformed or a string is not UTF-8.
fn parse_entries(b: &[u8]) -> (r: Option<Vec<Entry>>)
    ensures
        match r {
            Some(es) => parse_constants(b@, 0) == Some(entries_view(es@))
                && forall|k: int| 0 <= k < es@.len() ==> entry_ok(#[trigger] es@[k]),
            None => !(parse_constants(b@, 0) matches Some(cs) && texts_valid(cs)),
        },
{
    let len = b.len();
    let mut es: Vec<Entry> = Vec::new();
    let mut p: usize = 0;
    while p < len
        invariant
            len == b@.len(),
            p <= len,
            parse_constants(b@, 0) == match parse_constants(b@, p as int) {
                Some(rest) => Some(entries_view(es@) + rest),
                None => None,
            },
            forall|k: int| 0 <= k < es@.len() ==> entry_ok(#[trigger] es@[k]),
        decreases len - p,
    {
        let t = b[p];
        if t > 10 {
            return None;
        }
        if t == 2 {
            if len - p < 9 {
                return None;
            }
            let n = read_le(b, p + 1, 8);
            if n > (len - p - 9) as u64 {
                return None;
            }
            let start = p + 9;
            let end = start + n as usize;
            let bytes = crate::instruction::copy_range_pub(b, start, end);
            let ghost text = bytes@;
            match string_from_utf8(bytes) {
                Some(s) => {
                    let e = Entry::Text(s, Ghost(text));
                    proof {
                        assert(entries_view(es@.push(e)) =~= entries_view(es@).push(Constant::Text(text)));
                        let rest = parse_constants(b@, end as int);
                        if let Some(r) = rest {
                            assert(entries_view(es@) + (seq![Constant::Text(text)] + r) =~= entries_view(es@).push(Constant::Text(text)) + r);
                        }
                    }
                    es.push(e);
                },
                None => {
                    proof {
                        let rest = parse_constants(b@, end as int);
                        if let Some(r) = rest {
                            let cs = entries_view(es@) + (seq![Constant::Text(text)] + r);
                            assert(cs[es@.len() as int] == Constant::Text(text));
                        }
                    }
                    return None;
                },
            }
            p = end;
        } else {
            let size: usize = if t == 0 || t == 6 || t == 10 { 8 } else if t == 5 || t == 9 { 4 } else if t == 4 || t == 8 { 2 } else { 1 };
            assert(size == fixed_size(t));
            if len - p < 1 + size {
                return None;
            }
            let x = read_le(b, p + 1, size);
            proof {
                lemma_le_bound(b@, p + 1, size as nat);
            }
            let v = entry_value_exec(t, x);
            proof {
                assert(entries_view(es@.push(Entry::Value(v))) =~= entries_view(es@).push(Constant::Value(v)));
                let rest = parse_constants(b@, p + 1 + size);
                if let Some(r) = rest {
                    assert(entries_view(es@) + (seq![Constant::Value(v)] + r) =~= entries_view(es@).push(Constant::Value(v)) + r);
                }
            }
            es.push(Entry::Value(v));
            p = p + 1 + size;
        }
    }
    proof {
        assert(entries_view(es@) + Seq::<Constant>::empty() =~= entries_view(es@));
    }
    Some(es)
}

impl Machine {
    /// A machine at the start of `code`: one register in use, holding
    /// unit, no constants, an empty call stack, and a heap of `heap_size`
    /// empty slots.
    pub fn new(code: Vec<u8>, heap_size: usize) -> (m: Machine)
        requires
            heap_size > 0,
        ensures
            m.wf(),
            m.code@ == code@,
            m.constants@ == Seq::<VMData>::empty(),
            m.callstack@ == Seq::<Frame>::empty(),
            m.current == (Frame { pointer: 0, offset: 0, return_to: 0 }),
            m.off() == 0,
            m.top() == 1,
            forall|i: int| 0 <= i < STACK_SIZE ==> #[trigger] m.regs()[i] == VMData::new_unit_spec(),
            m.heap().len() == heap_size,
            forall|i: int| 0 <= i < heap_size ==> #[trigger] m.heap()[i].data is Free,
    {
        let stack = Stack::new();
        let objects = ObjectMap::new(heap_size);
        let m = Machine {
            stack,
            objects,
            constants: Vec::new(),
            code,
            current: Frame { pointer: 0, offset: 0, return_to: 0 },
            callstack: Vec::new(),
        };
        proof {
            assert forall|i: int| 0 <= i < m.heap().len() && #[trigger] m.heap()[i].liveliness_status
                implies m.heap()[i].data is Free by {
            }
            assert forall|i: int| 0 <= i < m.regs().len() && #[trigger] m.regs()[i].spec_is_object()
                implies m.regs()[i].data < m.heap().len() by {
                assert(m.regs()[i] == VMData::new_unit_spec());
            }
        }
        m
    }

    /// Reads the constant table `data` and appends its entries to the
    /// constants, each string into a new string slot of the heap. Fails
    /// only where the heap has no room for a string, after collecting
    /// garbage: then no slot of the heap is empty, and every object it
    /// holds is reachable from the registers in use and the constants.
    pub fn bytes_to_constants(&mut self, data: &[u8]) -> (r: Result<(), FatalError>)
        requires
            old(self).wf(),
            parse_constants(data@, 0) matches Some(cs) && texts_valid(cs),
        ensures
            final(self).wf(),
            final(self).regs() == old(self).regs(),
            final(self).off() == old(self).off(),
            final(self).top() == old(self).top(),
            final(self).code@ == old(self).code@,
            final(self).current == old(self).current,
            final(self).callstack@ == old(self).callstack@,
            final(self).heap().len() == old(self).heap().len(),
            final(self).constants@.subrange(0, old(self).constants@.len() as int) == old(self).constants@,
            match r {
                Ok(()) => parse_constants(data@, 0) matches Some(cs)
                    && final(self).constants@.len() == old(self).constants@.len() + cs.len()
                    && forall|k: int| 0 <= k < cs.len() ==> loaded(#[trigger] cs[k],
                        final(self).constants@[old(self).constants@.len() + k], final(self).heap()),
                Err(e) => e.message@ == "out of memory"@
                    && no_free_slot(final(self).heap())
                    && all_live(final(self).heap(), final(self).regs().take(final(self).top()) + final(self).constants@),
            },
            parse_constants(data@, 0) matches Some(cs) && free_count(old(self).heap()) >= text_count(cs) ==> r is Ok,
    {
        let es = match parse_entries(data) {
            Some(es) => es,
            None => {
                assert(false);
                unreached()
            },
        };
        let ghost cs = entries_view(es@);
        let ghost start = self.constants@.len();
        let n = es.len();
        let mut k: usize = 0;
        proof {
            assert(cs.subrange(0, n as int) =~= cs);
        }
        while k < n
            invariant
                n == es@.len(),
                k <= n,
                cs == entries_view(es@),
                forall|q: int| 0 <= q < es@.len() ==> entry_ok(#[trigger] es@[q]),
                self.wf(),
                self.regs() == old(self).regs(),
                self.off() == old(self).off(),
                self.top() == old(self).top(),
                self.code@ == old(self).code@,
                self.current == old(self).current,
                self.callstack@ == old(self).callstack@,
                self.heap().len() == old(self).heap().len(),
                start == old(self).constants@.len(),
                self.constants@.len() == start + k,
                self.constants@.subrange(0, start as int) == old(self).constants@,
                forall|q: int| 0 <= q < k ==> loaded(#[trigger] cs[q], self.constants@[start + q], self.heap()),
                free_count(old(self).heap()) >= text_count(cs) ==> free_count(self.heap()) >= text_count(cs.subrange(k as int, n as int)),
                parse_constants(data@, 0) == Some(cs),
            decreases n - k,
        {
            let ghost before = *self;
            proof {
                let rest = cs.subrange(k as int, n as int);
                assert(rest.drop_first() =~= cs.subrange(k as int + 1, n as int));
                assert(rest[0] == cs[k as int]);
            }
            match &es[k] {
                Entry::Value(v) => {
                    self.constants.push(*v);
                    proof {
                        assert(entry_ok(es@[k as int]));
                        assert forall|i: int| 0 <= i < self.constants@.len() && #[trigger] self.constants@[i].spec_is_object()
                            implies self.constants@[i].data < self.heap().len() by {
                            if i < before.constants@.len() {
                                assert(self.constants@[i] == before.constants@[i]);
                            }
                        }
                        assert(cs[k as int] == Constant::Value(*v));
                        assert forall|q: int| 0 <= q < k + 1 implies loaded(#[trigger] cs[q], self.constants@[start + q], self.heap()) by {
                            if q < k {
                                assert(self.constants@[start + q] == before.constants@[start + q]);
                            }
                        }
                        assert(self.constants@.subrange(0, start as int) =~= before.constants@.subrange(0, start as int));
                    }
                },
                Entry::Text(text, g) => {
                    proof {
                        lemma_roots_valid(self);
                        assert(entry_ok(es@[k as int]));
                    }
                    let object = Object::new(ObjectData::String(text.clone()));
                    let made = create_object(&mut self.objects, object, self.stack.in_use(), self.constants.as_slice());
                    let ghost roots = before.regs().take(before.top()) + before.constants@;
                    match made {
                        Ok(index) => {
                            let v = VMData::new(TAG_STR, index.index);
                            self.constants.push(v);
                            proof {
                                assert(cs[k as int] == Constant::Text(g@));
                                assert forall|q: int| 0 <= q < k + 1 implies loaded(#[trigger] cs[q], self.constants@[start + q], self.heap()) by {
                                    if q < k {
                                        let c = before.constants@[start + q];
                                        assert(self.constants@[start + q] == c);
                                        if cs[q] is Text {
                                            assert(roots[before.top() + start + q] == c);
                                            lemma_root_reachable(before.heap(), roots, before.top() + start + q);
                                        }
                                    }
                                }
                                assert(self.constants@.subrange(0, start as int) =~= before.constants@.subrange(0, start as int));
                                assert forall|i: int| 0 <= i < self.constants@.len() && #[trigger] self.constants@[i].spec_is_object()
                                    implies self.constants@[i].data < self.heap().len() by {
                                    if i < before.constants@.len() {
                                        assert(self.constants@[i] == before.constants@[i]);
                                    }
                                }
                            }
                        },
                        Err(e) => {
                            proof {
                                lemma_all_live_same_data(before.heap(), self.heap(), roots);
                                assert(cs[k as int] is Text);
                                if free_count(old(self).heap()) >= text_count(cs) {
                                    let rest = cs.subrange(k as int, n as int);
                                    assert(rest[0] is Text);
                                    assert(text_count(rest) >= 1);
                                    assert(free_count(before.heap()) > 0);
                                    assert(free_complete(before.objects.objects(), before.objects.free_slot().index as int));
                                    assert(false);
                                }
                            }
                            return Err(e);
                        },
                    }
                },
            }
            k = k + 1;
        }
        Ok(())
    }
}

/// Whether `data` is a constant table that `Machine::bytes_to_constants`
/// can read: well formed, with every string valid UTF-8.
pub fn constant_table_valid(data: &[u8]) -> (b: bool)
    ensures
        b == (parse_constants(data@, 0) matches Some(cs) && texts_valid(cs)),
{
    match parse_entries(data) {
        Some(es) => {
            proof {
                lemma_entries_texts_valid(es@);
            }
            true
        },
        None => false,
    }
}

} // verus!
