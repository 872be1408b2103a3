//! Removal of dead stores: an instruction whose result no one reads is
//! dropped. Whether a register is read later is decided per block from the
//! block's own instructions and a search along the terminators through a
//! table of the registers the blocks read.
use vstd::prelude::*;
use crate::ir::{Block, BlockIndex, BlockTerminator, Function, IR, Variable, used_registers, instruction_used_registers};
use crate::optimize::{BlockShape, shapes, shape, written};
use std::collections::HashMap;

verus! {

broadcast use vstd::std_specs::hash::group_hash_axioms;

/// One row of the table the search walks: a block's number, the registers
/// read by that block and all blocks before it, and its terminator.
pub struct BlockUse {
    pub index: BlockIndex,
    pub used: Seq<Variable>,
    pub ending: BlockTerminator,
}

/// The table the search walks, as the exec map of a block's number to the
/// registers read up to it and its terminator holds it.
pub open spec fn table_view(m: Map<u32, (Vec<Variable>, BlockTerminator)>) -> Map<u32, BlockUse> {
    Map::new(
        |k: u32| m.contains_key(k),
        |k: u32| BlockUse { index: BlockIndex(k), used: m[k].0@, ending: m[k].1 },
    )
}

/// The registers read by the instructions in `s`, in order.
pub open spec fn reads(s: Seq<IR>) -> Seq<Variable>
    decreases s.len(),
{
    if s.len() == 0 {
        Seq::empty()
    } else {
        reads(s.drop_last()) + used_registers(s.last())
    }
}

/// The registers read by blocks `0` to `k - 1`, in order.
pub open spec fn reads_upto(bs: Seq<BlockShape>, k: int) -> Seq<Variable>
    decreases k,
{
    if k <= 0 {
        Seq::empty()
    } else {
        reads_upto(bs, k - 1) + reads(bs[k - 1].instructions)
    }
}

/// The table of the first `k` blocks: each block's number gives what it and
/// the blocks before it read, and its terminator; a later block with the
/// same number replaces an earlier one.
pub open spec fn table_upto(bs: Seq<BlockShape>, k: int) -> Map<u32, BlockUse>
    decreases k,
{
    if k <= 0 || k > bs.len() {
        Map::empty()
    } else {
        table_upto(bs, k - 1).insert(
            bs[k - 1].index.0,
            BlockUse { index: bs[k - 1].index, used: reads_upto(bs, k), ending: bs[k - 1].ending },
        )
    }
}

/// The table of a function's blocks.
pub open spec fn block_table(bs: Seq<BlockShape>) -> Map<u32, BlockUse> {
    table_upto(bs, bs.len() as int)
}

/// The row of block `id`, if it has one.
pub open spec fn lookup(t: Map<u32, BlockUse>, id: BlockIndex) -> Option<BlockUse> {
    if t.contains_key(id.0) {
        Some(t[id.0])
    } else {
        None
    }
}

/// Whether `reg` is read along the terminator `term`, searching at most
/// `fuel` terminators deep: a `Goto` looks at its row and goes on with
/// that row's terminator; a switch reads its condition, then looks at the
/// first branch and its search, then at the second. `None` where the fuel
/// runs out or a row is missing.
pub open spec fn search(t: Map<u32, BlockUse>, term: BlockTerminator, reg: Variable, fuel: nat) -> Option<bool>
    decreases fuel,
{
    if fuel == 0 {
        None
    } else {
        match term {
            BlockTerminator::Return => Some(false),
            BlockTerminator::Goto(v) => match lookup(t, v) {
                None => None,
                Some(u) => if u.used.contains(reg) { Some(true) } else { search(t, u.ending, reg, (fuel - 1) as nat) },
            },
            BlockTerminator::SwitchBool { cond, op1, op2 } => if cond == reg {
                Some(true)
            } else {
                match lookup(t, op1) {
                    None => None,
                    Some(u) => if u.used.contains(reg) {
                        Some(true)
                    } else {
                        match search(t, u.ending, reg, (fuel - 1) as nat) {
                            None => None,
                            Some(true) => Some(true),
                            Some(false) => match lookup(t, op2) {
                                None => None,
                                Some(w) => if w.used.contains(reg) {
                                    Some(true)
                                } else {
                                    search(t, w.ending, reg, (fuel - 1) as nat)
                                },
                            },
                        }
                    },
                }
            },
        }
    }
}

/// A search that ends keeps its answer with more fuel.
pub proof fn lemma_search_more_fuel(t: Map<u32, BlockUse>, term: BlockTerminator, reg: Variable, fuel: nat, more: nat)
    requires
        search(t, term, reg, fuel) is Some,
        fuel <= more,
    ensures
        search(t, term, reg, more) == search(t, term, reg, fuel),
    decreases fuel,
{
    match term {
        BlockTerminator::Goto(v) => {
            if let Some(u) = lookup(t, v) {
                if !u.used.contains(reg) {
                    lemma_search_more_fuel(t, u.ending, reg, (fuel - 1) as nat, (more - 1) as nat);
                }
            }
        },
        BlockTerminator::SwitchBool { cond, op1, op2 } => {
            if cond != reg {
                if let Some(u) = lookup(t, op1) {
                    if !u.used.contains(reg) {
                        lemma_search_more_fuel(t, u.ending, reg, (fuel - 1) as nat, (more - 1) as nat);
                        if search(t, u.ending, reg, (fuel - 1) as nat) == Some(false) {
                            if let Some(w) = lookup(t, op2) {
                                if !w.used.contains(reg) {
                                    lemma_search_more_fuel(t, w.ending, reg, (fuel - 1) as nat, (more - 1) as nat);
                                }
                            }
                        }
                    }
                }
            }
        },
        BlockTerminator::Return => {},
    }
}

/// The search along `term` ends.
pub open spec fn search_ends(t: Map<u32, BlockUse>, term: BlockTerminator, reg: Variable) -> bool {
    exists|fuel: nat| #[trigger] search(t, term, reg, fuel) is Some
}

/// The search's answer, where it ends.
pub open spec fn found_later(t: Map<u32, BlockUse>, term: BlockTerminator, reg: Variable) -> bool {
    search(t, term, reg, choose|fuel: nat| #[trigger] search(t, term, reg, fuel) is Some) == Some(true)
}

/// `reg` is read after an instruction of a block with these instructions
/// and terminator: it is the return register, some instruction of the
/// block reads it, or the search along the terminator finds it.
pub open spec fn used_later(reg: Variable, term: BlockTerminator, instructions: Seq<IR>, t: Map<u32, BlockUse>) -> bool {
    ||| reg == Variable(0)
    ||| reads(instructions).contains(reg)
    ||| found_later(t, term, reg)
}

/// Whether `reg` is among `vs`.
fn contains_variable(vs: &Vec<Variable>, reg: Variable) -> (r: bool)
    ensures
        r == vs@.contains(reg),
{
    let mut k: usize = 0;
    while k < vs.len()
        invariant
            k <= vs@.len(),
            forall|j: int| 0 <= j < k ==> vs@[j] != reg,
        decreases vs@.len() - k,
    {
        if vs[k] == reg {
            return true;
        }
        k = k + 1;
    }
    false
}

/// The search along `term`, with the fuel it ends within.
fn search_exec(table: &HashMap<u32, (Vec<Variable>, BlockTerminator)>, term: BlockTerminator, reg: Variable, Ghost(fuel): Ghost<nat>) -> (r: bool)
    requires
        search(table_view(table@), term, reg, fuel) is Some,
    ensures
        search(table_view(table@), term, reg, fuel) == Some(r),
    decreases fuel,
{
    let ghost t = table_view(table@);
    match term {
        BlockTerminator::Return => false,
        BlockTerminator::Goto(v) => {
            let row = match table.get(&v.0) {
                Some(row) => row,
                None => {
                    assert(false);
                    return false;
                },
            };
            if contains_variable(&row.0, reg) {
                true
            } else {
                search_exec(table, row.1, reg, Ghost((fuel - 1) as nat))
            }
        },
        BlockTerminator::SwitchBool { cond, op1, op2 } => {
            if cond == reg {
                return true;
            }
            let row = match table.get(&op1.0) {
                Some(row) => row,
                None => {
                    assert(false);
                    return false;
                },
            };
            if contains_variable(&row.0, reg) {
                return true;
            }
            if search_exec(table, row.1, reg, Ghost((fuel - 1) as nat)) {
                return true;
            }
            let row2 = match table.get(&op2.0) {
                Some(row2) => row2,
                None => {
                    assert(false);
                    return false;
                },
            };
            if contains_variable(&row2.0, reg) {
                true
            } else {
                search_exec(table, row2.1, reg, Ghost((fuel - 1) as nat))
            }
        },
    }
}

/// Whether some instruction of `instructions` reads `reg`.
fn read_in(instructions: &[IR], reg: Variable) -> (r: bool)
    ensures
        r == reads(instructions@).contains(reg),
{
    let mut storage: Vec<Variable> = Vec::new();
    let mut k: usize = 0;
    while k < instructions.len()
        invariant
            k <= instructions@.len(),
            !reads(instructions@.take(k as int)).contains(reg),
        decreases instructions@.len() - k,
    {
        storage.clear();
        instruction_used_registers(&instructions[k], &mut storage);
        assert(instructions@.take(k + 1).drop_last() =~= instructions@.take(k as int));
        assert(storage@ =~= used_registers(instructions@[k as int]));
        if contains_variable(&storage, reg) {
            proof {
                let i = choose|i: int| 0 <= i < storage@.len() && storage@[i] == reg;
                let rs = reads(instructions@.take(k + 1));
                assert(rs[rs.len() - storage@.len() + i] == reg);
            }
            proof {
                lemma_reads_prefix(instructions@, k + 1);
            }
            return true;
        }
        proof {
            let rs = reads(instructions@.take(k + 1));
            if rs.contains(reg) {
                let i = choose|i: int| 0 <= i < rs.len() && rs[i] == reg;
                let before = reads(instructions@.take(k as int));
                if i < before.len() {
                    assert(before[i] == reg);
                } else {
                    assert(storage@[i - before.len()] == reg);
                }
            }
        }
        k = k + 1;
    }
    assert(instructions@.take(instructions@.len() as int) =~= instructions@);
    false
}

/// What a prefix reads is read by the whole sequence.
proof fn lemma_reads_prefix(s: Seq<IR>, k: int)
    requires
        0 <= k <= s.len(),
    ensures
        forall|v: Variable| reads(s.take(k)).contains(v) ==> reads(s).contains(v),
    decreases s.len() - k,
{
    if k < s.len() {
        lemma_reads_prefix(s, k + 1);
        assert(s.take(k + 1).drop_last() =~= s.take(k));
        assert forall|v: Variable| reads(s.take(k)).contains(v) implies reads(s.take(k + 1)).contains(v) by {
            let i = choose|i: int| 0 <= i < reads(s.take(k)).len() && reads(s.take(k))[i] == v;
            assert(reads(s.take(k + 1))[i] == v);
        }
    } else {
        assert(s.take(k) =~= s);
    }
}

/// Whether `reg` is read after an instruction of the block with these
/// instructions and terminator.
pub fn is_register_used_later(reg: Variable, term: &BlockTerminator, instructions: &[IR],
    block_map: &HashMap<u32, (Vec<Variable>, BlockTerminator)>) -> (r: bool)
    requires
        reg == Variable(0) || reads(instructions@).contains(reg) || search_ends(table_view(block_map@), *term, reg),
    ensures
        r == used_later(reg, *term, instructions@, table_view(block_map@)),
{
    if reg == Variable(0) {
        return true;
    }
    if read_in(instructions, reg) {
        return true;
    }
    let ghost t = table_view(block_map@);
    let ghost fuel = choose|fuel: nat| #[trigger] search(t, *term, reg, fuel) is Some;
    search_exec(block_map, *term, reg, Ghost(fuel))
}

/// The register whose value an instruction only stores, where the
/// instruction can go when no one reads it; `None` for the instructions
/// that are always kept (a unit, a call, a swap, which has two).
pub open spec fn stored(i: IR) -> Option<Variable> {
    match i {
        IR::Copy { dst, .. } => Some(dst),
        IR::Struct { dst, .. } => Some(dst),
        IR::AccStruct { dst, .. } => Some(dst),
        IR::SetField { dst, .. } => Some(dst),
        IR::CastToI8 { dst, .. } => Some(dst),
        IR::CastToI16 { dst, .. } => Some(dst),
        IR::CastToI32 { dst, .. } => Some(dst),
        IR::CastToI64 { dst, .. } => Some(dst),
        IR::CastToU8 { dst, .. } => Some(dst),
        IR::CastToU16 { dst, .. } => Some(dst),
        IR::CastToU32 { dst, .. } => Some(dst),
        IR::CastToU64 { dst, .. } => Some(dst),
        IR::CastToFloat { dst, .. } => Some(dst),
        IR::Add { dst, .. } => Some(dst),
        IR::Subtract { dst, .. } => Some(dst),
        IR::Multiply { dst, .. } => Some(dst),
        IR::Divide { dst, .. } => Some(dst),
        IR::Modulo { dst, .. } => Some(dst),
        IR::Equals { dst, .. } => Some(dst),
        IR::NotEquals { dst, .. } => Some(dst),
        IR::GreaterThan { dst, .. } => Some(dst),
        IR::LesserThan { dst, .. } => Some(dst),
        IR::GreaterEquals { dst, .. } => Some(dst),
        IR::LesserEquals { dst, .. } => Some(dst),
        IR::UnaryNot { dst, .. } => Some(dst),
        IR::UnaryNeg { dst, .. } => Some(dst),
        IR::Load { dst, .. } => Some(dst),
        _ => None,
    }
}

fn stored_exec(i: &IR) -> (r: Option<Variable>)
    ensures
        r == stored(*i),
{
    match i {
        IR::Copy { dst, .. } => Some(*dst),
        IR::Struct { dst, .. } => Some(*dst),
        IR::AccStruct { dst, .. } => Some(*dst),
        IR::SetField { dst, .. } => Some(*dst),
        IR::CastToI8 { dst, .. } => Some(*dst),
        IR::CastToI16 { dst, .. } => Some(*dst),
        IR::CastToI32 { dst, .. } => Some(*dst),
        IR::CastToI64 { dst, .. } => Some(*dst),
        IR::CastToU8 { dst, .. } => Some(*dst),
        IR::CastToU16 { dst, .. } => Some(*dst),
        IR::CastToU32 { dst, .. } => Some(*dst),
        IR::CastToU64 { dst, .. } => Some(*dst),
        IR::CastToFloat { dst, .. } => Some(*dst),
        IR::Add { dst, .. } => Some(*dst),
        IR::Subtract { dst, .. } => Some(*dst),
        IR::Multiply { dst, .. } => Some(*dst),
        IR::Divide { dst, .. } => Some(*dst),
        IR::Modulo { dst, .. } => Some(*dst),
        IR::Equals { dst, .. } => Some(*dst),
        IR::NotEquals { dst, .. } => Some(*dst),
        IR::GreaterThan { dst, .. } => Some(*dst),
        IR::LesserThan { dst, .. } => Some(*dst),
        IR::GreaterEquals { dst, .. } => Some(*dst),
        IR::LesserEquals { dst, .. } => Some(*dst),
        IR::UnaryNot { dst, .. } => Some(*dst),
        IR::UnaryNeg { dst, .. } => Some(*dst),
        IR::Load { dst, .. } => Some(*dst),
        _ => None,
    }
}

/// The search for `reg` can be answered for block `b`.
pub open spec fn answerable(reg: Variable, b: BlockShape, t: Map<u32, BlockUse>) -> bool {
    reg == Variable(0) || reads(b.instructions).contains(reg) || search_ends(t, b.ending, reg)
}

/// Instruction `i` of block `b` stores a value no one reads: a swap of two
/// registers neither of which is read later, or an instruction whose
/// stored register is not read later.
pub open spec fn dead(i: IR, b: BlockShape, t: Map<u32, BlockUse>) -> bool {
    match i {
        IR::Swap { v1, v2 } => !used_later(v1, b.ending, b.instructions, t) && !used_later(v2, b.ending, b.instructions, t),
        _ => match stored(i) {
            Some(d) => !used_later(d, b.ending, b.instructions, t),
            None => false,
        },
    }
}

/// Every question that deciding `i` asks can be answered; the second
/// register of a swap is asked about only where the first is not read.
pub open spec fn decidable(i: IR, b: BlockShape, t: Map<u32, BlockUse>) -> bool {
    match i {
        IR::Swap { v1, v2 } => answerable(v1, b, t) && (used_later(v1, b.ending, b.instructions, t) || answerable(v2, b, t)),
        _ => match stored(i) {
            Some(d) => answerable(d, b, t),
            None => true,
        },
    }
}

/// The instructions of `s` that are not dead in block `b`, in order.
pub open spec fn live_instructions(s: Seq<IR>, b: BlockShape, t: Map<u32, BlockUse>) -> Seq<IR>
    decreases s.len(),
{
    if s.len() == 0 {
        s
    } else {
        let rest = live_instructions(s.drop_last(), b, t);
        if dead(s.last(), b, t) { rest } else { rest.push(s.last()) }
    }
}

/// The blocks after dead stores are removed, each decided against the
/// table of the blocks as they were.
pub open spec fn allocated(bs: Seq<BlockShape>) -> Seq<BlockShape> {
    let t = block_table(bs);
    Seq::new(bs.len(), |k: int| BlockShape {
        index: bs[k].index,
        instructions: live_instructions(bs[k].instructions, bs[k], t),
        ending: bs[k].ending,
    })
}

/// Every decision `register_alloc` takes on these blocks can be taken.
pub open spec fn allocatable(bs: Seq<BlockShape>) -> bool {
    forall|k: int, j: int| 0 <= k < bs.len() && 0 <= j < bs[k].instructions.len()
        ==> decidable(#[trigger] bs[k].instructions[j], bs[k], block_table(bs))
}

fn copy_variables(v: &Vec<Variable>) -> (r: Vec<Variable>)
    ensures
        r@ == v@,
{
    let mut r: Vec<Variable> = Vec::new();
    let mut k: usize = 0;
    while k < v.len()
        invariant
            k <= v@.len(),
            r@ == v@.take(k as int),
        decreases v@.len() - k,
    {
        r.push(v[k]);
        k = k + 1;
        assert(r@ =~= v@.take(k as int));
    }
    assert(v@.take(v@.len() as int) =~= v@);
    r
}

impl Function {
    /// The table of the blocks: for each, its number, the registers it and
    /// the blocks before it read, and its terminator.
    pub fn generate_block_map(&self) -> (r: HashMap<u32, (Vec<Variable>, BlockTerminator)>)
        ensures
            table_view(r@) == block_table(shapes(self.blocks@)),
    {
        let ghost bs = shapes(self.blocks@);
        let mut table: HashMap<u32, (Vec<Variable>, BlockTerminator)> = HashMap::new();
        let mut storage: Vec<Variable> = Vec::new();
        let n = self.blocks.len();
        let mut k: usize = 0;
        proof {
            assert(table_view(table@) =~= table_upto(bs, 0));
        }
        while k < n
            invariant
                k <= n,
                n == bs.len(),
                bs == shapes(self.blocks@),
                storage@ == reads_upto(bs, k as int),
                table_view(table@) == table_upto(bs, k as int),
            decreases n - k,
        {
            let block = &self.blocks[k];
            assert(bs[k as int] == shape(*block));
            let mut i: usize = 0;
            while i < block.instructions.len()
                invariant
                    i <= block.instructions@.len(),
                    storage@ == reads_upto(bs, k as int) + reads(block.instructions@.take(i as int)),
                decreases block.instructions@.len() - i,
            {
                let ghost before = storage@;
                instruction_used_registers(&block.instructions[i], &mut storage);
                assert(block.instructions@.take(i + 1).drop_last() =~= block.instructions@.take(i as int));
                i = i + 1;
                assert(storage@ =~= reads_upto(bs, k as int) + reads(block.instructions@.take(i as int)));
            }
            assert(block.instructions@.take(i as int) =~= block.instructions@);
            let used = copy_variables(&storage);
            let ghost before = table@;
            table.insert(block.block_index.0, (used, block.ending));
            proof {
                assert(table@ == before.insert(block.block_index.0, (used, block.ending)));
                assert(table_view(table@) =~= table_view(before).insert(
                    block.block_index.0,
                    BlockUse { index: block.block_index, used: used@, ending: block.ending },
                ));
                assert(table_view(table@) =~= table_upto(bs, k as int + 1));
            }
            k = k + 1;
        }
        table
    }
}

/// Whether instruction `i` of `block` is dead.
fn is_dead(i: &IR, block: &Block, table: &HashMap<u32, (Vec<Variable>, BlockTerminator)>) -> (r: bool)
    requires
        decidable(*i, shape(*block), table_view(table@)),
    ensures
        r == dead(*i, shape(*block), table_view(table@)),
{
    match i {
        IR::Swap { v1, v2 } => {
            !is_register_used_later(*v1, &block.ending, block.instructions.as_slice(), table)
                && !is_register_used_later(*v2, &block.ending, block.instructions.as_slice(), table)
        },
        _ => match stored_exec(i) {
            Some(d) => !is_register_used_later(d, &block.ending, block.instructions.as_slice(), table),
            None => false,
        },
    }
}

/// Removes the instructions that `flags` marks, which are those dead in `b`.
fn remove_dead(instructions: &mut Vec<IR>, flags: &Vec<bool>, Ghost(b): Ghost<BlockShape>, Ghost(t): Ghost<Map<u32, BlockUse>>)
    requires
        flags@.len() == old(instructions)@.len(),
        forall|j: int| 0 <= j < flags@.len() ==> flags@[j] == dead(#[trigger] old(instructions)@[j], b, t),
    ensures
        final(instructions)@ == live_instructions(old(instructions)@, b, t),
{
    let ghost s = instructions@;
    let mut k: usize = 0;
    let mut m: usize = 0;
    while m < flags.len()
        invariant
            flags@.len() == s.len(),
            forall|j: int| 0 <= j < flags@.len() ==> flags@[j] == dead(#[trigger] s[j], b, t),
            m <= s.len(),
            k == live_instructions(s.take(m as int), b, t).len(),
            instructions@ == live_instructions(s.take(m as int), b, t) + s.skip(m as int),
        decreases s.len() - m,
    {
        assert(s.take(m + 1).drop_last() =~= s.take(m as int));
        assert(instructions@[k as int] == s[m as int]);
        let len = instructions.len();
        assert(k < len);
        if flags[m] {
            instructions.remove(k);
        } else {
            k = k + 1;
        }
        m = m + 1;
        assert(instructions@ =~= live_instructions(s.take(m as int), b, t) + s.skip(m as int));
    }
    assert(s.take(m as int) =~= s);
    assert(instructions@ =~= live_instructions(s, b, t));
}

impl Function {
    /// Removes from every block the instructions that store a value no one
    /// reads later.
    pub fn register_alloc(&mut self)
        requires
            allocatable(shapes(old(self).blocks@)),
        ensures
            shapes(final(self).blocks@) == allocated(shapes(old(self).blocks@)),
            final(self).entry == old(self).entry,
            final(self).identifier == old(self).identifier,
            final(self).function_index == old(self).function_index,
            final(self).argument_count == old(self).argument_count,
            final(self).variable_counter == old(self).variable_counter,
            final(self).stack_size == old(self).stack_size,
    {
        let table = self.generate_block_map();
        let ghost bs = shapes(self.blocks@);
        let ghost t = block_table(bs);
        let n = self.blocks.len();
        let mut k: usize = 0;
        while k < n
            invariant
                k <= n,
                n == bs.len(),
                self.blocks@.len() == n,
                table_view(table@) == t,
                t == block_table(bs),
                allocatable(bs),
                forall|j: int| 0 <= j < k ==> #[trigger] shapes(self.blocks@)[j] == allocated(bs)[j],
                forall|j: int| k <= j < n ==> #[trigger] shapes(self.blocks@)[j] == bs[j],
                self.entry == old(self).entry,
                self.identifier == old(self).identifier,
                self.function_index == old(self).function_index,
                self.argument_count == old(self).argument_count,
                self.variable_counter == old(self).variable_counter,
                self.stack_size == old(self).stack_size,
            decreases n - k,
        {
            let ghost before = self.blocks@;
            assert(shapes(before)[k as int] == shape(before[k as int]));
            let mut flags: Vec<bool> = Vec::new();
            let block = &self.blocks[k];
            let ghost b = shape(*block);
            assert(b == bs[k as int]);
            let mut i: usize = 0;
            while i < block.instructions.len()
                invariant
                    i <= block.instructions@.len(),
                    b == shape(*block),
                    b == bs[k as int],
                    0 <= k < bs.len(),
                    table_view(table@) == t,
                    t == block_table(bs),
                    allocatable(bs),
                    flags@.len() == i,
                    forall|j: int| 0 <= j < i ==> flags@[j] == dead(#[trigger] block.instructions@[j], b, t),
                decreases block.instructions@.len() - i,
            {
                assert(decidable(bs[k as int].instructions[i as int], bs[k as int], t));
                let d = is_dead(&block.instructions[i], block, &table);
                flags.push(d);
                i = i + 1;
            }
            let mut block = self.blocks.remove(k);
            remove_dead(&mut block.instructions, &flags, Ghost(b), Ghost(t));
            let ghost nb = block;
            self.blocks.insert(k, block);
            proof {
                assert(self.blocks@ =~= before.update(k as int, nb));
                assert(shape(nb) == allocated(bs)[k as int]);
                assert forall|j: int| 0 <= j < k + 1 implies #[trigger] shapes(self.blocks@)[j] == allocated(bs)[j] by {
                    if j < k {
                        assert(shapes(before)[j] == shape(before[j]));
                    }
                }
                assert forall|j: int| k + 1 <= j < n implies #[trigger] shapes(self.blocks@)[j] == bs[j] by {
                    assert(shapes(before)[j] == shape(before[j]));
                }
            }
            k = k + 1;
        }
        assert(shapes(self.blocks@) =~= allocated(bs));
    }
}

/// The instructions that are not dead all stay, and nothing is added.
proof fn lemma_live_instructions(s: Seq<IR>, b: BlockShape, t: Map<u32, BlockUse>)
    ensures
        live_instructions(s, b, t).len() <= s.len(),
        forall|j: int| 0 <= j < s.len() && !dead(#[trigger] s[j], b, t) ==> live_instructions(s, b, t).contains(s[j]),
        forall|j: int| 0 <= j < live_instructions(s, b, t).len() ==> s.contains(#[trigger] live_instructions(s, b, t)[j]),
        forall|j: int| 0 <= j < live_instructions(s, b, t).len() ==> !dead(#[trigger] live_instructions(s, b, t)[j], b, t),
    decreases s.len(),
{
    if s.len() > 0 {
        let r = s.drop_last();
        lemma_live_instructions(r, b, t);
        let out = live_instructions(s, b, t);
        let before = live_instructions(r, b, t);
        assert forall|j: int| 0 <= j < s.len() && !dead(#[trigger] s[j], b, t) implies out.contains(s[j]) by {
            if j < s.len() - 1 {
                assert(r[j] == s[j]);
                let i = choose|i: int| 0 <= i < before.len() && before[i] == r[j];
                assert(out[i] == s[j]);
            } else {
                assert(out[out.len() - 1] == s[j]);
            }
        }
        assert forall|j: int| 0 <= j < out.len() implies s.contains(#[trigger] out[j]) by {
            if j < before.len() {
                assert(out[j] == before[j]);
                let i = choose|i: int| 0 <= i < r.len() && r[i] == before[j];
                assert(s[i] == r[i]);
            } else {
                assert(out[j] == s[s.len() - 1]);
            }
        }
        assert forall|j: int| 0 <= j < out.len() implies !dead(#[trigger] out[j], b, t) by {
            if j < before.len() {
                assert(out[j] == before[j]);
            }
        }
    }
}

/// Removing dead stores keeps every block's number and terminator, keeps
/// every instruction that writes the return register or that is never
/// removed (a unit, a call, an extern call, a no-op), drops every other
/// instruction whose written register no one reads later (a swap where
/// neither register is read later), adds no instruction, and leaves no
/// more instructions than there were.
pub proof fn law_register_alloc_keeps(bs: Seq<BlockShape>, k: int, j: int)
    requires
        0 <= k < bs.len(),
        0 <= j < bs[k].instructions.len(),
    ensures
        allocated(bs).len() == bs.len(),
        allocated(bs)[k].index == bs[k].index,
        allocated(bs)[k].ending == bs[k].ending,
        allocated(bs)[k].instructions.len() <= bs[k].instructions.len(),
        stored(bs[k].instructions[j]) == Some(Variable(0))
            || (stored(bs[k].instructions[j]) is None && !(bs[k].instructions[j] is Swap))
            ==> allocated(bs)[k].instructions.contains(bs[k].instructions[j]),
        bs[k].instructions[j] is Call || bs[k].instructions[j] is ExtCall || bs[k].instructions[j] is Unit
            || bs[k].instructions[j] is Noop
            ==> allocated(bs)[k].instructions.contains(bs[k].instructions[j]),
        written(bs[k].instructions[j]) == Some(Variable(0))
            ==> allocated(bs)[k].instructions.contains(bs[k].instructions[j]),
        !(bs[k].instructions[j] is Call || bs[k].instructions[j] is ExtCall || bs[k].instructions[j] is Unit
            || bs[k].instructions[j] is Noop || bs[k].instructions[j] is Swap)
            && (written(bs[k].instructions[j]) matches Some(d)
            && !used_later(d, bs[k].ending, bs[k].instructions, block_table(bs)))
            ==> !allocated(bs)[k].instructions.contains(bs[k].instructions[j]),
        bs[k].instructions[j] matches IR::Swap { v1, v2 }
            ==> (!used_later(v1, bs[k].ending, bs[k].instructions, block_table(bs))
            && !used_later(v2, bs[k].ending, bs[k].instructions, block_table(bs))
            ==> !allocated(bs)[k].instructions.contains(bs[k].instructions[j])),
        forall|i: int| 0 <= i < allocated(bs)[k].instructions.len()
            ==> bs[k].instructions.contains(#[trigger] allocated(bs)[k].instructions[i]),
{
    lemma_live_instructions(bs[k].instructions, bs[k], block_table(bs));
}

} // verus!
