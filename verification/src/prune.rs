//! Optimizing the program as a whole: dropping the functions that no call
//! reaches, numbering the rest densely in the order their first calls are
//! met, and optimizing every function until nothing changes.
use vstd::prelude::*;
use std::collections::BTreeMap;
use crate::ast_to_ir::{
    ConversionState, ascending, first_seen, function_keys, lemma_ascending_unique, lemma_first_seen,
    lemma_index_of_unique, position,
};
use crate::ast::Data;
use crate::ir::{Block, BlockIndex, BlockTerminator, Function, FunctionIndex, IR, Variable};
use crate::optimize::{BlockShape, shapes, shape, optimized, targets_exist, has_index};
use crate::register_alloc::{allocated, allocatable};

verus! {

/// The functions called by a run of instructions, in order, with repeats.
pub open spec fn ir_call_ids(s: Seq<IR>) -> Seq<u32>
    decreases s.len(),
{
    if s.len() == 0 {
        Seq::empty()
    } else {
        ir_call_ids(s.drop_last()) + match s.last() {
            IR::Call { id, .. } => seq![id.0],
            _ => Seq::empty(),
        }
    }
}

/// The functions called by a run of blocks, in order, with repeats.
pub open spec fn blocks_call_ids(bs: Seq<Block>) -> Seq<u32>
    decreases bs.len(),
{
    if bs.len() == 0 {
        Seq::empty()
    } else {
        blocks_call_ids(bs.drop_last()) + ir_call_ids(bs.last().instructions@)
    }
}

/// The functions called by the functions `ks` of `m`, in order.
pub open spec fn functions_call_ids(m: Map<usize, Function>, ks: Seq<usize>) -> Seq<u32>
    decreases ks.len(),
{
    if ks.len() == 0 {
        Seq::empty()
    } else {
        functions_call_ids(m, ks.drop_last()) + blocks_call_ids(m[ks.last()].blocks@)
    }
}

/// The numbers of the functions that stay, each once: the entry function's
/// number 0 first, then every called function in the order its first call
/// is met (functions by symbol, their blocks and instructions in order).
/// A function's new number is its position here.
pub open spec fn call_order(m: Map<usize, Function>, ks: Seq<usize>) -> Seq<u32> {
    first_seen(seq![0u32] + functions_call_ids(m, ks))
}

/// An instruction with its call numbered by the position of its target in
/// `order`.
pub open spec fn renumber_call(i: IR, order: Seq<u32>) -> IR {
    match i {
        IR::Call { dst, id, args } => IR::Call { dst, id: FunctionIndex(order.index_of(id.0) as u32), args },
        _ => i,
    }
}

/// `n` is `o` with its own number and every call renumbered by `order`.
pub open spec fn calls_renumbered(o: Function, n: Function, order: Seq<u32>) -> bool {
    &&& n.identifier == o.identifier
    &&& n.function_index == FunctionIndex(order.index_of(o.function_index.0) as u32)
    &&& n.argument_count == o.argument_count
    &&& n.variable_counter == o.variable_counter
    &&& n.stack_size == o.stack_size
    &&& n.entry == o.entry
    &&& n.blocks@.len() == o.blocks@.len()
    &&& forall|b: int| 0 <= b < o.blocks@.len() ==> {
        &&& (#[trigger] n.blocks@[b]).block_index == o.blocks@[b].block_index
        &&& n.blocks@[b].ending == o.blocks@[b].ending
        &&& n.blocks@[b].instructions@.len() == o.blocks@[b].instructions@.len()
        &&& forall|k: int| 0 <= k < o.blocks@[b].instructions@.len() ==> (#[trigger] n.blocks@[b].instructions@[k]) == renumber_call(
            o.blocks@[b].instructions@[k],
            order,
        )
    }
}

/// What pruning promises for the call order `order`: the functions whose
/// number is in `order` stay, renumbered; the others are gone, and
/// `removed` tells whether there was one; nothing else changes.
pub open spec fn pruned(o: ConversionState, n: ConversionState, removed: bool, order: Seq<u32>) -> bool {
    &&& n.functions@.dom() == Set::new(|k: usize| o.functions@.contains_key(k) && order.contains(o.functions@[k].function_index.0))
    &&& forall|k: usize| #[trigger] n.functions@.contains_key(k) ==> calls_renumbered(o.functions@[k], n.functions@[k], order)
    &&& removed == exists|k: usize| #[trigger] o.functions@.contains_key(k) && !order.contains(o.functions@[k].function_index.0)
    &&& n.extern_functions == o.extern_functions
    &&& n.constants == o.constants
    &&& n.function_counter == o.function_counter
    &&& n.extern_counter == o.extern_counter
    &&& n.symbol_table == o.symbol_table
}


/// A function as the program-wide optimizer sees it: its number, its entry
/// block and its blocks.
pub struct FunctionShape {
    pub number: u32,
    pub entry: BlockIndex,
    pub blocks: Seq<BlockShape>,
}

/// The functions of a table, by symbol, as the optimizer sees them.
pub open spec fn function_shapes(m: Map<usize, Function>) -> Map<usize, FunctionShape> {
    Map::new(
        |k: usize| m.contains_key(k),
        |k: usize| FunctionShape { number: m[k].function_index.0, entry: m[k].entry, blocks: shapes(m[k].blocks@) },
    )
}

/// The functions called by a run of blocks, in order, with repeats.
pub open spec fn shape_call_ids(bs: Seq<BlockShape>) -> Seq<u32>
    decreases bs.len(),
{
    if bs.len() == 0 {
        Seq::empty()
    } else {
        shape_call_ids(bs.drop_last()) + ir_call_ids(bs.last().instructions)
    }
}

/// The functions called by the functions `ks` of `t`, in order.
pub open spec fn table_call_ids(t: Map<usize, FunctionShape>, ks: Seq<usize>) -> Seq<u32>
    decreases ks.len(),
{
    if ks.len() == 0 {
        Seq::empty()
    } else {
        table_call_ids(t, ks.drop_last()) + shape_call_ids(t[ks.last()].blocks)
    }
}

/// The symbols of a table in increasing order.
pub open spec fn key_order(d: Set<usize>) -> Seq<usize> {
    choose|ks: Seq<usize>| ascending(ks) && ks.to_set() == d
}

/// The numbers of the functions that stay, as `call_order` gives them.
pub open spec fn table_order(t: Map<usize, FunctionShape>) -> Seq<u32> {
    first_seen(seq![0u32] + table_call_ids(t, key_order(t.dom())))
}

/// Blocks with every call renumbered by `order`.
pub open spec fn renumber_shapes(bs: Seq<BlockShape>, order: Seq<u32>) -> Seq<BlockShape> {
    bs.map_values(
        |b: BlockShape|
            BlockShape { index: b.index, instructions: b.instructions.map_values(|i: IR| renumber_call(i, order)), ending: b.ending },
    )
}

/// The table after the uncalled functions are dropped and the rest renumbered.
pub open spec fn pruned_table(t: Map<usize, FunctionShape>) -> Map<usize, FunctionShape> {
    let order = table_order(t);
    Map::new(
        |k: usize| t.contains_key(k) && order.contains(t[k].number),
        |k: usize|
            FunctionShape {
                number: order.index_of(t[k].number) as u32,
                entry: t[k].entry,
                blocks: renumber_shapes(t[k].blocks, order),
            },
    )
}

/// Whether pruning drops a function.
pub open spec fn table_removes(t: Map<usize, FunctionShape>) -> bool {
    exists|k: usize| #[trigger] t.contains_key(k) && !table_order(t).contains(t[k].number)
}

/// Whether optimizing the function `k` of `t` merges a block.
pub open spec fn merges(t: Map<usize, FunctionShape>, k: usize) -> bool {
    optimized(t[k].blocks, t[k].entry, true).unwrap().1
}

/// How many of the functions `ks` are optimized in a round: they are taken
/// in order, and the round stops after the first one that merges a block.
pub open spec fn optimized_count(t: Map<usize, FunctionShape>, ks: Seq<usize>) -> nat
    decreases ks.len(),
{
    if ks.len() == 0 {
        0
    } else if merges(t, ks[0]) {
        1
    } else {
        1 + optimized_count(t, ks.drop_first())
    }
}

/// Whether the function `k` is among those a round optimizes.
pub open spec fn optimized_in_round(t: Map<usize, FunctionShape>, k: usize) -> bool {
    key_order(t.dom()).index_of(k) < optimized_count(t, key_order(t.dom()))
}

/// The functions a round optimizes, with merging, and then every function
/// cleared of dead stores.
pub open spec fn optimized_table(t: Map<usize, FunctionShape>) -> Map<usize, FunctionShape> {
    Map::new(
        |k: usize| t.contains_key(k),
        |k: usize|
            FunctionShape {
                number: t[k].number,
                entry: t[k].entry,
                blocks: allocated(
                    if optimized_in_round(t, k) {
                        optimized(t[k].blocks, t[k].entry, true).unwrap().0
                    } else {
                        t[k].blocks
                    },
                ),
            },
    )
}

/// Whether optimizing merges a block in some function.
pub open spec fn table_merges(t: Map<usize, FunctionShape>) -> bool {
    exists|k: usize| #[trigger] t.contains_key(k) && optimized_in_round(t, k) && merges(t, k)
}

/// One round can run on `t`: the numbers fit, every function that stays
/// and is optimized names only blocks it has and can be cleared of dead
/// stores once optimized, and every other one can be cleared as it is.
pub open spec fn round_ready(t: Map<usize, FunctionShape>) -> bool {
    &&& table_order(t).len() < u32::MAX
    &&& forall|k: usize| #[trigger] pruned_table(t).contains_key(k) ==> {
        let f = pruned_table(t)[k];
        if optimized_in_round(pruned_table(t), k) {
            &&& targets_exist(f.blocks)
            &&& has_index(f.blocks, f.entry)
            &&& allocatable(optimized(f.blocks, f.entry, true).unwrap().0)
        } else {
            allocatable(f.blocks)
        }
    }
}

/// The table after one round: prune, optimize, clear dead stores.
pub open spec fn next_table(t: Map<usize, FunctionShape>) -> Map<usize, FunctionShape> {
    optimized_table(pruned_table(t))
}

/// Whether a round changed something: a function dropped or a block merged.
pub open spec fn round_changes(t: Map<usize, FunctionShape>) -> bool {
    table_removes(t) || table_merges(pruned_table(t))
}

/// Rounds from `t` come to one that changes nothing within `fuel` rounds,
/// each of them able to run.
pub open spec fn settles(t: Map<usize, FunctionShape>, fuel: nat) -> bool
    decreases fuel,
{
    fuel > 0 && round_ready(t) && (round_changes(t) ==> settles(next_table(t), (fuel - 1) as nat))
}

/// The table after the first round that changes nothing.
pub open spec fn settled(t: Map<usize, FunctionShape>, fuel: nat) -> Map<usize, FunctionShape>
    decreases fuel,
{
    if fuel > 0 && round_changes(t) {
        settled(next_table(t), (fuel - 1) as nat)
    } else {
        next_table(t)
    }
}

/// A number of rounds within which `t` settles, where there is one.
pub open spec fn rounds_needed(t: Map<usize, FunctionShape>) -> nat {
    choose|fuel: nat| settles(t, fuel)
}

/// The table the rounds of `t` settle on, each function then cleared of
/// dead stores once more.
pub open spec fn final_table(t: Map<usize, FunctionShape>) -> Map<usize, FunctionShape> {
    reallocated(settled(t, rounds_needed(t)))
}

/// Every function of `t` cleared of dead stores once more.
pub open spec fn reallocated(t: Map<usize, FunctionShape>) -> Map<usize, FunctionShape> {
    Map::new(|k: usize| t.contains_key(k), |k: usize| FunctionShape { blocks: allocated(t[k].blocks), ..t[k] })
}


/// The constants the loads of a run of instructions read, in order.
pub open spec fn ir_loads(s: Seq<IR>) -> Seq<u32>
    decreases s.len(),
{
    if s.len() == 0 {
        Seq::empty()
    } else {
        ir_loads(s.drop_last()) + match s.last() {
            IR::Load { data, .. } => seq![data],
            _ => Seq::empty(),
        }
    }
}

/// The constants the loads of a run of blocks read, in order.
pub open spec fn shape_loads(bs: Seq<BlockShape>) -> Seq<u32>
    decreases bs.len(),
{
    if bs.len() == 0 {
        Seq::empty()
    } else {
        shape_loads(bs.drop_last()) + ir_loads(bs.last().instructions)
    }
}

/// The constants the loads of the functions `ks` of `t` read, in order.
pub open spec fn table_loads(t: Map<usize, FunctionShape>, ks: Seq<usize>) -> Seq<u32>
    decreases ks.len(),
{
    if ks.len() == 0 {
        Seq::empty()
    } else {
        table_loads(t, ks.drop_last()) + shape_loads(t[ks.last()].blocks)
    }
}

/// The constants the loads of a table read, functions by symbol.
pub open spec fn all_loads(t: Map<usize, FunctionShape>) -> Seq<u32> {
    table_loads(t, key_order(t.dom()))
}

/// The table the renumbering of constants keeps after the loads `loads`:
/// the `n`-th load files its constant under the number `n`, keyed by the
/// constant's number, or, where that number is already a key, by the
/// number that key was given.
pub open spec fn load_keys(loads: Seq<u32>) -> Map<u32, u32>
    decreases loads.len(),
{
    if loads.len() == 0 {
        Map::empty()
    } else {
        let m = load_keys(loads.drop_last());
        let d = loads.last();
        let key = if m.contains_key(d) { m[d] } else { d };
        m.insert(key, (loads.len() - 1) as u32)
    }
}

/// The constants after renumbering: for each position `p` below `n` that
/// the table `m` gives to a key, the old constant at that key.
pub open spec fn kept_constants(old: Seq<Data>, m: Map<u32, u32>, n: nat) -> Seq<Data>
    decreases n,
{
    if n == 0 {
        Seq::empty()
    } else {
        let p = (n - 1) as nat;
        kept_constants(old, m, p) + if exists|k: u32| #[trigger] m.contains_key(k) && m[k] == p {
            seq![old[(choose|k: u32| #[trigger] m.contains_key(k) && m[k] == p) as int]]
        } else {
            Seq::empty()
        }
    }
}

/// Instructions with their loads numbered in order from `start`.
pub open spec fn number_loads(s: Seq<IR>, start: nat) -> Seq<IR>
    decreases s.len(),
{
    if s.len() == 0 {
        s
    } else {
        number_loads(s.drop_last(), start).push(
            match s.last() {
                IR::Load { dst, .. } => IR::Load { dst, data: (start + ir_loads(s.drop_last()).len()) as u32 },
                i => i,
            },
        )
    }
}

/// Blocks with their loads numbered in order from `start`.
pub open spec fn number_block_loads(bs: Seq<BlockShape>, start: nat) -> Seq<BlockShape>
    decreases bs.len(),
{
    if bs.len() == 0 {
        bs
    } else {
        let b = bs.last();
        number_block_loads(bs.drop_last(), start).push(
            BlockShape { instructions: number_loads(b.instructions, start + shape_loads(bs.drop_last()).len()), ..b },
        )
    }
}

/// The table with every load numbered by its place among all loads.
pub open spec fn numbered_table(t: Map<usize, FunctionShape>) -> Map<usize, FunctionShape> {
    let ks = key_order(t.dom());
    Map::new(
        |k: usize| t.contains_key(k),
        |k: usize|
            FunctionShape {
                blocks: number_block_loads(t[k].blocks, table_loads(t, ks.take(ks.index_of(k))).len()),
                ..t[k]
            },
    )
}

/// `by_pos` lists, for each number given so far, the key that holds it.
pub open spec fn positions(m: Map<u32, u32>, by_pos: Seq<Option<u32>>) -> bool {
    &&& forall|p: int| 0 <= p < by_pos.len() && (#[trigger] by_pos[p]) is Some ==> m.contains_key(by_pos[p]->0) && m[by_pos[p]->0] == p
    &&& forall|k: u32| #[trigger] m.contains_key(k) ==> m[k] < by_pos.len() && by_pos[m[k] as int] == Some(k)
}

/// Adds the call of `i`, if it is one, to the values seen first.
fn note_call(used: &mut Vec<u32>, i: &IR, Ghost(seen): Ghost<Seq<u32>>)
    requires
        old(used)@ == first_seen(seen),
    ensures
        final(used)@ == first_seen(seen + ir_call_ids(seq![*i])),
{
    let ghost t = seq![*i];
    proof {
        assert(t.drop_last() =~= Seq::<IR>::empty());
        assert(t.last() == *i);
        assert(ir_call_ids(t.drop_last()) =~= Seq::<u32>::empty());
    }
    match i {
        IR::Call { id, .. } => {
            proof {
                assert(ir_call_ids(t) =~= seq![id.0]);
                assert((seen + seq![id.0]).drop_last() =~= seen);
                assert((seen + seq![id.0]).last() == id.0);
            }
            match position(used, id.0) {
                Some(_) => {},
                None => {
                    used.push(id.0);
                },
            }
        },
        _ => {
            proof {
                assert(ir_call_ids(t) =~= Seq::<u32>::empty());
                assert(seen + ir_call_ids(t) =~= seen);
            }
        },
    }
}

proof fn lemma_ir_call_step(s: Seq<IR>, k: int)
    requires
        0 <= k < s.len(),
    ensures
        ir_call_ids(s.subrange(0, k + 1)) == ir_call_ids(s.subrange(0, k)) + ir_call_ids(seq![s[k]]),
{
    let t = seq![s[k]];
    assert(t.drop_last() =~= Seq::<IR>::empty());
    assert(s.subrange(0, k + 1).drop_last() =~= s.subrange(0, k));
    assert(ir_call_ids(Seq::<IR>::empty()) =~= Seq::<u32>::empty());
    assert(ir_call_ids(t) =~= Seq::<u32>::empty() + match s[k] {
        IR::Call { id, .. } => seq![id.0],
        _ => Seq::empty(),
    });
}

/// The call order of the functions `keys`.
fn call_order_of(functions: &BTreeMap<usize, Function>, keys: &Vec<usize>) -> (used: Vec<u32>)
    requires
        forall|i: int| 0 <= i < keys@.len() ==> functions@.contains_key(#[trigger] keys@[i]),
    ensures
        used@ == call_order(functions@, keys@),
{
    let mut used: Vec<u32> = Vec::new();
    used.push(0);
    let n = keys.len();
    let mut i: usize = 0;
    proof {
        let z = seq![0u32];
        assert(z.drop_last() =~= Seq::<u32>::empty());
        assert(first_seen(Seq::<u32>::empty()) =~= Seq::<u32>::empty());
        assert(first_seen(z) =~= seq![0u32]);
        assert(keys@.subrange(0, 0) =~= Seq::<usize>::empty());
        assert(z + functions_call_ids(functions@, Seq::<usize>::empty()) =~= z);
    }
    while i < n
        invariant
            n == keys@.len(),
            i <= n,
            forall|j: int| 0 <= j < keys@.len() ==> functions@.contains_key(#[trigger] keys@[j]),
            used@ == first_seen(seq![0u32] + functions_call_ids(functions@, keys@.subrange(0, i as int))),
        decreases n - i,
    {
        let f = functions.get(&keys[i]).unwrap();
        let ghost a = seq![0u32] + functions_call_ids(functions@, keys@.subrange(0, i as int));
        let nb = f.blocks.len();
        let mut b: usize = 0;
        proof {
            assert(f.blocks@.subrange(0, 0) =~= Seq::<Block>::empty());
            assert(a + blocks_call_ids(Seq::<Block>::empty()) =~= a);
        }
        while b < nb
            invariant
                nb == f.blocks@.len(),
                b <= nb,
                used@ == first_seen(a + blocks_call_ids(f.blocks@.subrange(0, b as int))),
            decreases nb - b,
        {
            let instrs = &f.blocks[b].instructions;
            let ghost pre = a + blocks_call_ids(f.blocks@.subrange(0, b as int));
            let m = instrs.len();
            let mut k: usize = 0;
            proof {
                assert(instrs@.subrange(0, 0) =~= Seq::<IR>::empty());
                assert(pre + ir_call_ids(Seq::<IR>::empty()) =~= pre);
            }
            while k < m
                invariant
                    m == instrs@.len(),
                    k <= m,
                    used@ == first_seen(pre + ir_call_ids(instrs@.subrange(0, k as int))),
                decreases m - k,
            {
                note_call(&mut used, &instrs[k], Ghost(pre + ir_call_ids(instrs@.subrange(0, k as int))));
                proof {
                    lemma_ir_call_step(instrs@, k as int);
                    assert(pre + ir_call_ids(instrs@.subrange(0, k as int)) + ir_call_ids(seq![instrs@[k as int]]) =~= pre + ir_call_ids(
                        instrs@.subrange(0, k as int + 1),
                    ));
                }
                k = k + 1;
            }
            proof {
                assert(instrs@.subrange(0, m as int) =~= instrs@);
                let bs = f.blocks@.subrange(0, b as int + 1);
                assert(bs.drop_last() =~= f.blocks@.subrange(0, b as int));
                assert(bs.last() == f.blocks@[b as int]);
                assert(pre + ir_call_ids(instrs@) =~= a + blocks_call_ids(bs));
            }
            b = b + 1;
        }
        proof {
            assert(f.blocks@.subrange(0, nb as int) =~= f.blocks@);
            let ks = keys@.subrange(0, i as int + 1);
            assert(ks.drop_last() =~= keys@.subrange(0, i as int));
            assert(ks.last() == keys@[i as int]);
            assert(a + blocks_call_ids(f.blocks@) =~= seq![0u32] + functions_call_ids(functions@, ks));
        }
        i = i + 1;
    }
    proof {
        assert(keys@.subrange(0, n as int) =~= keys@);
    }
    used
}

proof fn lemma_ir_call_contains(s: Seq<IR>, k: int)
    requires
        0 <= k < s.len(),
    ensures
        match s[k] {
            IR::Call { id, .. } => ir_call_ids(s).contains(id.0),
            _ => true,
        },
    decreases s.len(),
{
    let p = s.drop_last();
    let tail = match s.last() {
        IR::Call { id, .. } => seq![id.0],
        _ => Seq::<u32>::empty(),
    };
    assert(ir_call_ids(s) == ir_call_ids(p) + tail);
    if k < s.len() - 1 {
        lemma_ir_call_contains(p, k);
        assert(p[k] == s[k]);
        match s[k] {
            IR::Call { id, .. } => {
                let w = choose|w: int| 0 <= w < ir_call_ids(p).len() && ir_call_ids(p)[w] == id.0;
                assert(ir_call_ids(s)[w] == id.0);
            },
            _ => {},
        }
    } else {
        match s[k] {
            IR::Call { id, .. } => {
                assert(ir_call_ids(s)[ir_call_ids(p).len() as int] == id.0);
            },
            _ => {},
        }
    }
}

proof fn lemma_blocks_call_contains(bs: Seq<Block>, b: int, x: u32)
    requires
        0 <= b < bs.len(),
        ir_call_ids(bs[b].instructions@).contains(x),
    ensures
        blocks_call_ids(bs).contains(x),
    decreases bs.len(),
{
    let p = bs.drop_last();
    assert(blocks_call_ids(bs) == blocks_call_ids(p) + ir_call_ids(bs.last().instructions@));
    if b < bs.len() - 1 {
        assert(p[b] == bs[b]);
        lemma_blocks_call_contains(p, b, x);
        let w = choose|w: int| 0 <= w < blocks_call_ids(p).len() && blocks_call_ids(p)[w] == x;
        assert(blocks_call_ids(bs)[w] == x);
    } else {
        let w = choose|w: int| 0 <= w < ir_call_ids(bs[b].instructions@).len() && ir_call_ids(bs[b].instructions@)[w] == x;
        assert(blocks_call_ids(bs)[blocks_call_ids(p).len() + w] == x);
    }
}

proof fn lemma_functions_call_contains(m: Map<usize, Function>, ks: Seq<usize>, i: int, x: u32)
    requires
        0 <= i < ks.len(),
        blocks_call_ids(m[ks[i]].blocks@).contains(x),
    ensures
        (seq![0u32] + functions_call_ids(m, ks)).contains(x),
    decreases ks.len(),
{
    let p = ks.drop_last();
    let all = functions_call_ids(m, ks);
    assert(all == functions_call_ids(m, p) + blocks_call_ids(m[ks.last()].blocks@));
    let w: int = if i < ks.len() - 1 {
        assert(p[i] == ks[i]);
        lemma_functions_call_contains(m, p, i, x);
        let w = choose|w: int| 0 <= w < (seq![0u32] + functions_call_ids(m, p)).len() && (seq![0u32] + functions_call_ids(m, p))[w] == x;
        w
    } else {
        let v = choose|v: int| 0 <= v < blocks_call_ids(m[ks[i]].blocks@).len() && blocks_call_ids(m[ks[i]].blocks@)[v] == x;
        1 + functions_call_ids(m, p).len() + v
    };
    assert((seq![0u32] + all)[w] == x);
}

/// Every call of `f` targets a value of `order`.
pub open spec fn calls_in(f: Function, order: Seq<u32>) -> bool {
    forall|b: int, k: int| 0 <= b < f.blocks@.len() && 0 <= k < f.blocks@[b].instructions@.len() ==> match #[trigger] f.blocks@[b].instructions@[k] {
        IR::Call { id, .. } => order.contains(id.0),
        _ => true,
    }
}

fn renumber_call_one(i: IR, order: &Vec<u32>) -> (r: IR)
    requires
        order@.no_duplicates(),
        order@.len() < u32::MAX,
        match i {
            IR::Call { id, .. } => order@.contains(id.0),
            _ => true,
        },
    ensures
        r == renumber_call(i, order@),
{
    match i {
        IR::Call { dst, id, args } => {
            let j = position(order, id.0).unwrap();
            proof {
                lemma_index_of_unique(order@, j as int, id.0);
            }
            IR::Call { dst, id: FunctionIndex(j as u32), args }
        },
        other => other,
    }
}

fn renumber_call_block(block: &mut Block, order: &Vec<u32>)
    requires
        order@.no_duplicates(),
        order@.len() < u32::MAX,
        forall|k: int| 0 <= k < old(block).instructions@.len() ==> match #[trigger] old(block).instructions@[k] {
            IR::Call { id, .. } => order@.contains(id.0),
            _ => true,
        },
    ensures
        final(block).block_index == old(block).block_index,
        final(block).ending == old(block).ending,
        final(block).instructions@.len() == old(block).instructions@.len(),
        forall|k: int| 0 <= k < old(block).instructions@.len() ==> (#[trigger] final(block).instructions@[k]) == renumber_call(
            old(block).instructions@[k],
            order@,
        ),
{
    let n = block.instructions.len();
    let mut k: usize = 0;
    while k < n
        invariant
            n == block.instructions@.len(),
            n == old(block).instructions@.len(),
            k <= n,
            order@.no_duplicates(),
            order@.len() < u32::MAX,
            block.block_index == old(block).block_index,
            block.ending == old(block).ending,
            forall|j: int| 0 <= j < k ==> (#[trigger] block.instructions@[j]) == renumber_call(old(block).instructions@[j], order@),
            forall|j: int| k <= j < n ==> (#[trigger] block.instructions@[j]) == old(block).instructions@[j],
            forall|j: int| 0 <= j < n ==> match #[trigger] old(block).instructions@[j] {
                IR::Call { id, .. } => order@.contains(id.0),
                _ => true,
            },
        decreases n - k,
    {
        let mut cur = IR::Noop;
        std::mem::swap(&mut cur, &mut block.instructions[k]);
        let next = renumber_call_one(cur, order);
        block.instructions.set(k, next);
        k = k + 1;
    }
}

/// Renumbers the calls of `f` and gives it the number `index`.
fn renumber_calls(f: &mut Function, order: &Vec<u32>, index: FunctionIndex)
    requires
        order@.no_duplicates(),
        order@.len() < u32::MAX,
        calls_in(*old(f), order@),
        index == FunctionIndex(order@.index_of(old(f).function_index.0) as u32),
    ensures
        calls_renumbered(*old(f), *final(f), order@),
{
    let n = f.blocks.len();
    let mut b: usize = 0;
    f.function_index = index;
    while b < n
        invariant
            n == f.blocks@.len(),
            n == old(f).blocks@.len(),
            b <= n,
            order@.no_duplicates(),
            order@.len() < u32::MAX,
            calls_in(*old(f), order@),
            f.identifier == old(f).identifier,
            f.function_index == index,
            f.argument_count == old(f).argument_count,
            f.variable_counter == old(f).variable_counter,
            f.stack_size == old(f).stack_size,
            f.entry == old(f).entry,
            forall|j: int| 0 <= j < b ==> {
                &&& (#[trigger] f.blocks@[j]).block_index == old(f).blocks@[j].block_index
                &&& f.blocks@[j].ending == old(f).blocks@[j].ending
                &&& f.blocks@[j].instructions@.len() == old(f).blocks@[j].instructions@.len()
                &&& forall|k: int| 0 <= k < old(f).blocks@[j].instructions@.len() ==> (#[trigger] f.blocks@[j].instructions@[k])
                    == renumber_call(old(f).blocks@[j].instructions@[k], order@)
            },
            forall|j: int| b <= j < n ==> (#[trigger] f.blocks@[j]) == old(f).blocks@[j],
        decreases n - b,
    {
        let mut blk = Block { block_index: BlockIndex(0), instructions: Vec::new(), ending: BlockTerminator::Return };
        std::mem::swap(&mut blk, &mut f.blocks[b]);
        proof {
            assert(blk == old(f).blocks@[b as int]);
            assert forall|k: int| 0 <= k < blk.instructions@.len() implies match #[trigger] blk.instructions@[k] {
                IR::Call { id, .. } => order@.contains(id.0),
                _ => true,
            } by {
                assert(blk.instructions@[k] == old(f).blocks@[b as int].instructions@[k]);
            }
        }
        renumber_call_block(&mut blk, order);
        f.blocks.set(b, blk);
        b = b + 1;
    }
}



proof fn lemma_count_lower(t: Map<usize, FunctionShape>, ks: Seq<usize>, i: int)
    requires
        0 <= i < ks.len(),
        forall|j: int| 0 <= j < i ==> !merges(t, #[trigger] ks[j]),
    ensures
        optimized_count(t, ks) > i,
    decreases i,
{
    if i > 0 {
        let r = ks.drop_first();
        assert(!merges(t, ks[0]));
        assert forall|j: int| 0 <= j < i - 1 implies !merges(t, #[trigger] r[j]) by {
            assert(r[j] == ks[j + 1]);
        }
        lemma_count_lower(t, r, i - 1);
    }
}

proof fn lemma_count_exact(t: Map<usize, FunctionShape>, ks: Seq<usize>, c: int, stopped: bool)
    requires
        0 <= c <= ks.len(),
        stopped ==> c > 0 && merges(t, ks[c - 1]) && forall|j: int| 0 <= j < c - 1 ==> !merges(t, #[trigger] ks[j]),
        !stopped ==> c == ks.len() && forall|j: int| 0 <= j < c ==> !merges(t, #[trigger] ks[j]),
    ensures
        optimized_count(t, ks) == c,
    decreases ks.len(),
{
    if ks.len() > 0 && !(stopped && c == 1) {
        let r = ks.drop_first();
        if c > 0 {
            assert(c - 1 > 0 || !stopped);
            assert(!merges(t, ks[0]));
        }
        assert forall|j: int| 0 <= j < r.len() implies r[j] == ks[j + 1] by {}
        if c > 0 {
            lemma_count_exact(t, r, c - 1, stopped);
        }
    }
}

impl ConversionState {
    /// Keeps the functions that are called, numbered by where their first
    /// call is met (the entry function, number 0, stays first), with every
    /// call renumbered to match, and drops the others; returns whether one
    /// was dropped.
    pub fn prune_functions(&mut self) -> (removed: bool)
        requires
            forall|ks: Seq<usize>| ascending(ks) && ks.to_set() == old(self).functions@.dom() ==> call_order(
                old(self).functions@,
                ks,
            ).len() < u32::MAX,
        ensures
            forall|ks: Seq<usize>| ascending(ks) && ks.to_set() == old(self).functions@.dom() ==> pruned(
                *old(self),
                *final(self),
                removed,
                call_order(old(self).functions@, ks),
            ),
    {
        let ghost s0 = *self;
        let keys = function_keys(&self.functions);
        proof {
            assert forall|i: int| 0 <= i < keys@.len() implies self.functions@.contains_key(#[trigger] keys@[i]) by {
                assert(keys@.to_set().contains(keys@[i]));
            }
        }
        let order = call_order_of(&self.functions, &keys);
        let ghost fo = order@;
        let ghost all = seq![0u32] + functions_call_ids(s0.functions@, keys@);
        proof {
            lemma_first_seen(all);
        }
        let mut removed = false;
        let n = keys.len();
        proof {
            assert forall|j: int| 0 <= j < n implies #[trigger] self.functions@.contains_key(keys@[j]) by {
                assert(keys@.to_set().contains(keys@[j]));
            }
        }
        let mut i: usize = 0;
        while i < n
            invariant
                n == keys@.len(),
                i <= n,
                ascending(keys@),
                keys@.to_set() == s0.functions@.dom(),
                fo == first_seen(all),
                all == seq![0u32] + functions_call_ids(s0.functions@, keys@),
                order@ == fo,
                fo.no_duplicates(),
                fo.len() < u32::MAX,
                forall|x: u32| fo.contains(x) <==> all.contains(x),
                forall|k: usize| #[trigger] self.functions@.contains_key(k) ==> s0.functions@.contains_key(k),
                forall|j: int| 0 <= j < i ==> (#[trigger] self.functions@.contains_key(keys@[j])
                    <==> fo.contains(s0.functions@[keys@[j]].function_index.0)),
                forall|j: int| 0 <= j < i && self.functions@.contains_key(keys@[j]) ==> calls_renumbered(
                    s0.functions@[keys@[j]],
                    #[trigger] self.functions@[keys@[j]],
                    fo,
                ),
                forall|j: int| i <= j < n ==> #[trigger] self.functions@.contains_key(keys@[j]),
                forall|j: int| i <= j < n ==> #[trigger] self.functions@[keys@[j]] == s0.functions@[keys@[j]],
                removed == exists|j: int| 0 <= j < i && !fo.contains(#[trigger] s0.functions@[keys@[j]].function_index.0),
                self.extern_functions == s0.extern_functions,
                self.constants == s0.constants,
                self.function_counter == s0.function_counter,
                self.extern_counter == s0.extern_counter,
                self.symbol_table == s0.symbol_table,
            decreases n - i,
        {
            let key = keys[i];
            let ghost before = self.functions@;
            let ghost was_removed = removed;
            assert(self.functions@.contains_key(keys@[i as int]) && self.functions@[keys@[i as int]] == s0.functions@[keys@[i as int]]);
            let mut f = self.functions.remove(&key).unwrap();
            proof {
                assert(f == s0.functions@[keys@[i as int]]);
                assert forall|b: int, k: int| 0 <= b < f.blocks@.len() && 0 <= k < f.blocks@[b].instructions@.len() implies match #[trigger] f.blocks@[b].instructions@[k] {
                    IR::Call { id, .. } => fo.contains(id.0),
                    _ => true,
                } by {
                    lemma_ir_call_contains(f.blocks@[b].instructions@, k);
                    match f.blocks@[b].instructions@[k] {
                        IR::Call { id, .. } => {
                            lemma_blocks_call_contains(f.blocks@, b, id.0);
                            lemma_functions_call_contains(s0.functions@, keys@, i as int, id.0);
                        },
                        _ => {},
                    }
                }
                assert forall|j: int| 0 <= j < n && j != i implies keys@[j] != keys@[i as int] by {
                    if j < i { assert(keys@[j] < keys@[i as int]); } else { assert(keys@[i as int] < keys@[j]); }
                }
            }
            match position(&order, f.function_index.0) {
                Some(p) => {
                    proof {
                        lemma_index_of_unique(fo, p as int, f.function_index.0);
                    }
                    renumber_calls(&mut f, &order, FunctionIndex(p as u32));
                    self.functions.insert(key, f);
                },
                None => {
                    removed = true;
                },
            }
            proof {
                assert forall|j: int| 0 <= j < i + 1 implies (#[trigger] self.functions@.contains_key(keys@[j])
                    <==> fo.contains(s0.functions@[keys@[j]].function_index.0)) by {
                    if j < i {
                        assert(keys@[j] != keys@[i as int]);
                    }
                }
                assert forall|j: int| 0 <= j < i + 1 && self.functions@.contains_key(keys@[j]) implies calls_renumbered(
                    s0.functions@[keys@[j]],
                    #[trigger] self.functions@[keys@[j]],
                    fo,
                ) by {
                    if j < i {
                        assert(keys@[j] != keys@[i as int]);
                        assert(self.functions@[keys@[j]] == before[keys@[j]]);
                    }
                }
                assert forall|j: int| i + 1 <= j < n implies #[trigger] self.functions@.contains_key(keys@[j]) by {
                    assert(keys@[j] != keys@[i as int]);
                }
                assert forall|j: int| i + 1 <= j < n implies #[trigger] self.functions@[keys@[j]] == s0.functions@[keys@[j]] by {
                    assert(keys@[j] != keys@[i as int]);
                    assert(self.functions@[keys@[j]] == before[keys@[j]]);
                }
                if !fo.contains(s0.functions@[keys@[i as int]].function_index.0) {
                    assert(removed);
                } else if was_removed {
                    let w = choose|j: int| 0 <= j < i && !fo.contains(#[trigger] s0.functions@[keys@[j]].function_index.0);
                    assert(0 <= w < i + 1);
                }
            }
            i = i + 1;
        }
        proof {
            assert forall|ks: Seq<usize>| ascending(ks) && ks.to_set() == s0.functions@.dom() implies pruned(
                s0,
                *self,
                removed,
                call_order(s0.functions@, ks),
            ) by {
                lemma_ascending_unique(ks, keys@);
                assert(call_order(s0.functions@, ks) == fo);
                assert forall|k: usize| self.functions@.contains_key(k) <==> (s0.functions@.contains_key(k) && fo.contains(
                    s0.functions@[k].function_index.0,
                )) by {
                    if s0.functions@.contains_key(k) {
                        assert(keys@.to_set().contains(k));
                        let j = choose|j: int| 0 <= j < keys@.len() && keys@[j] == k;
                        assert(self.functions@.contains_key(keys@[j]) <==> fo.contains(s0.functions@[keys@[j]].function_index.0));
                    }
                }
                assert(self.functions@.dom() =~= Set::new(|k: usize| s0.functions@.contains_key(k) && fo.contains(s0.functions@[k].function_index.0)));
                assert forall|k: usize| #[trigger] self.functions@.contains_key(k) implies calls_renumbered(s0.functions@[k], self.functions@[k], fo) by {
                    assert(keys@.to_set().contains(k));
                    let j = choose|j: int| 0 <= j < keys@.len() && keys@[j] == k;
                    assert(calls_renumbered(s0.functions@[keys@[j]], self.functions@[keys@[j]], fo));
                }
                if removed {
                    let j = choose|j: int| 0 <= j < n && !fo.contains(#[trigger] s0.functions@[keys@[j]].function_index.0);
                    assert(keys@.to_set().contains(keys@[j]));
                    assert(s0.functions@.contains_key(keys@[j]));
                }
                if exists|k: usize| #[trigger] s0.functions@.contains_key(k) && !fo.contains(s0.functions@[k].function_index.0) {
                    let k = choose|k: usize| #[trigger] s0.functions@.contains_key(k) && !fo.contains(s0.functions@[k].function_index.0);
                    assert(keys@.to_set().contains(k));
                    let j = choose|j: int| 0 <= j < keys@.len() && keys@[j] == k;
                    assert(!fo.contains(s0.functions@[keys@[j]].function_index.0));
                }
            }
        }
        removed
    }
}




/// The rounds end with a round that drops no function and merges no block:
/// what they settle on is what such a round gives.
pub proof fn law_rounds_end_unchanged(t: Map<usize, FunctionShape>, fuel: nat)
    requires
        settles(t, fuel),
    ensures
        exists|u: Map<usize, FunctionShape>| round_ready(u) && !round_changes(u) && #[trigger] next_table(u) == settled(t, fuel),
    decreases fuel,
{
    if round_changes(t) {
        law_rounds_end_unchanged(next_table(t), (fuel - 1) as nat);
        let u = choose|u: Map<usize, FunctionShape>| round_ready(u) && !round_changes(u) && #[trigger] next_table(u) == settled(
            next_table(t),
            (fuel - 1) as nat,
        );
        assert(next_table(u) == settled(t, fuel));
    } else {
        assert(next_table(t) == settled(t, fuel));
    }
}

/// Pruning keeps the entry function, the one numbered 0, and it keeps the
/// number 0.
pub proof fn law_entry_function_stays(o: ConversionState, n: ConversionState, removed: bool, ks: Seq<usize>, k: usize)
    requires
        ascending(ks),
        ks.to_set() == o.functions@.dom(),
        pruned(o, n, removed, call_order(o.functions@, ks)),
        o.functions@.contains_key(k),
        o.functions@[k].function_index == FunctionIndex(0),
    ensures
        n.functions@.contains_key(k),
        n.functions@[k].function_index == FunctionIndex(0),
{
    let all = seq![0u32] + functions_call_ids(o.functions@, ks);
    let order = call_order(o.functions@, ks);
    lemma_first_seen(all);
    assert(all[0] == 0u32);
    assert(all.contains(0u32));
    assert(order.contains(0u32));
    lemma_first_seen_starts(all);
    lemma_index_of_unique(order, 0, 0u32);
    assert(n.functions@.dom().contains(k));
    assert(calls_renumbered(o.functions@[k], n.functions@[k], order));
}

/// `first_seen` keeps the first value first.
proof fn lemma_first_seen_starts(s: Seq<u32>)
    requires
        s.len() > 0,
    ensures
        first_seen(s).len() > 0,
        first_seen(s)[0] == s[0],
    decreases s.len(),
{
    if s.len() == 1 {
        assert(s.drop_last() =~= Seq::<u32>::empty());
        assert(first_seen(s.drop_last()) =~= Seq::<u32>::empty());
    } else {
        lemma_first_seen_starts(s.drop_last());
        assert(s.drop_last()[0] == s[0]);
    }
}

/// After pruning, every call of a function that stays targets a function
/// that stays, under its new number, where every call before targeted a
/// function of the program.
pub proof fn law_calls_stay_closed(o: ConversionState, n: ConversionState, removed: bool, ks: Seq<usize>, k: usize, b: int, i: int)
    requires
        ascending(ks),
        ks.to_set() == o.functions@.dom(),
        pruned(o, n, removed, call_order(o.functions@, ks)),
        forall|f: usize, c: int, j: int| #[trigger] o.functions@.contains_key(f) && 0 <= c < o.functions@[f].blocks@.len() && 0 <= j
            < o.functions@[f].blocks@[c].instructions@.len() ==> match #[trigger] o.functions@[f].blocks@[c].instructions@[j] {
            IR::Call { id, .. } => exists|g: usize| #[trigger] o.functions@.contains_key(g) && o.functions@[g].function_index == id,
            _ => true,
        },
        n.functions@.contains_key(k),
        0 <= b < n.functions@[k].blocks@.len(),
        0 <= i < n.functions@[k].blocks@[b].instructions@.len(),
        n.functions@[k].blocks@[b].instructions@[i] is Call,
    ensures
        exists|g: usize| #[trigger] n.functions@.contains_key(g) && n.functions@[g].function_index == n.functions@[k].blocks@[b].instructions@[i]->Call_id,
{
    let order = call_order(o.functions@, ks);
    let all = seq![0u32] + functions_call_ids(o.functions@, ks);
    lemma_first_seen(all);
    let of = o.functions@[k];
    assert(calls_renumbered(of, n.functions@[k], order));
    let oi = of.blocks@[b].instructions@[i];
    assert(n.functions@[k].blocks@[b].instructions@[i] == renumber_call(oi, order));
    match oi {
        IR::Call { id, .. } => {
            assert(o.functions@.contains_key(k) && 0 <= b < of.blocks@.len() && 0 <= i < of.blocks@[b].instructions@.len());
            let g = choose|g: usize| #[trigger] o.functions@.contains_key(g) && o.functions@[g].function_index == id;
            assert(ks.to_set().contains(k));
            let p = choose|p: int| 0 <= p < ks.len() && ks[p] == k;
            assert forall|q: int| 0 <= q < ks.len() implies o.functions@.contains_key(#[trigger] ks[q]) by {
                assert(ks.to_set().contains(ks[q]));
            }
            lemma_ir_call_contains(of.blocks@[b].instructions@, i);
            lemma_blocks_call_contains(of.blocks@, b, id.0);
            lemma_functions_call_contains(o.functions@, ks, p, id.0);
            assert(order.contains(id.0));
            assert(n.functions@.dom().contains(g));
            assert(calls_renumbered(o.functions@[g], n.functions@[g], order));
        },
        _ => {},
    }
}

proof fn lemma_blocks_shape_calls(bs: Seq<Block>)
    ensures
        blocks_call_ids(bs) == shape_call_ids(shapes(bs)),
    decreases bs.len(),
{
    if bs.len() > 0 {
        lemma_blocks_shape_calls(bs.drop_last());
        assert(shapes(bs).drop_last() =~= shapes(bs.drop_last()));
        assert(shapes(bs).last() == shape(bs.last()));
    }
}

proof fn lemma_table_calls(m: Map<usize, Function>, ks: Seq<usize>)
    requires
        forall|i: int| 0 <= i < ks.len() ==> m.contains_key(#[trigger] ks[i]),
    ensures
        functions_call_ids(m, ks) == table_call_ids(function_shapes(m), ks),
    decreases ks.len(),
{
    if ks.len() > 0 {
        let p = ks.drop_last();
        assert forall|i: int| 0 <= i < p.len() implies m.contains_key(#[trigger] p[i]) by {
            assert(p[i] == ks[i]);
        }
        lemma_table_calls(m, p);
        assert(m.contains_key(ks[ks.len() - 1]));
        lemma_blocks_shape_calls(m[ks.last()].blocks@);
    }
}

/// The symbols `keys` are the ones `key_order` picks.
proof fn lemma_key_order(d: Set<usize>, keys: Seq<usize>)
    requires
        ascending(keys),
        keys.to_set() == d,
    ensures
        key_order(d) == keys,
{
    let ks = key_order(d);
    assert(ascending(keys) && keys.to_set() == d);
    assert(ascending(ks) && ks.to_set() == d);
    lemma_ascending_unique(ks, keys);
}

/// Pruning, told over the whole functions, is `pruned_table` over their
/// shapes.
proof fn lemma_pruned_shapes(o: ConversionState, n: ConversionState, removed: bool, keys: Seq<usize>)
    requires
        ascending(keys),
        keys.to_set() == o.functions@.dom(),
        pruned(o, n, removed, call_order(o.functions@, keys)),
    ensures
        function_shapes(n.functions@) == pruned_table(function_shapes(o.functions@)),
        removed == table_removes(function_shapes(o.functions@)),
        table_order(function_shapes(o.functions@)) == call_order(o.functions@, keys),
{
    let t = function_shapes(o.functions@);
    assert(t.dom() =~= o.functions@.dom());
    lemma_key_order(t.dom(), keys);
    assert forall|i: int| 0 <= i < keys.len() implies o.functions@.contains_key(#[trigger] keys[i]) by {
        assert(keys.to_set().contains(keys[i]));
    }
    lemma_table_calls(o.functions@, keys);
    let order = call_order(o.functions@, keys);
    assert(table_order(t) == order);
    let nt = function_shapes(n.functions@);
    let pt = pruned_table(t);
    assert(nt.dom() =~= pt.dom());
    assert forall|k: usize| #[trigger] nt.contains_key(k) implies nt[k] == pt[k] by {
        let of = o.functions@[k];
        let nf = n.functions@[k];
        assert(calls_renumbered(of, nf, order));
        assert(shapes(nf.blocks@) =~= renumber_shapes(shapes(of.blocks@), order)) by {
            assert forall|b: int| 0 <= b < of.blocks@.len() implies #[trigger] shapes(nf.blocks@)[b] == renumber_shapes(
                shapes(of.blocks@),
                order,
            )[b] by {
                assert(nf.blocks@[b].instructions@ =~= of.blocks@[b].instructions@.map_values(|i: IR| renumber_call(i, order)));
            }
        }
    }
    assert(nt =~= pt);
    if removed {
        let k = choose|k: usize| #[trigger] o.functions@.contains_key(k) && !order.contains(o.functions@[k].function_index.0);
        assert(t.contains_key(k) && !table_order(t).contains(t[k].number));
    }
    if table_removes(t) {
        let k = choose|k: usize| #[trigger] t.contains_key(k) && !table_order(t).contains(t[k].number);
        assert(o.functions@.contains_key(k) && !order.contains(o.functions@[k].function_index.0));
    }
}

impl ConversionState {
    /// Optimizes the functions in symbol order, merging blocks, and stops
    /// after the first that merges a block; returns whether one did.
    fn optimize_functions(&mut self) -> (changed: bool)
        requires
            forall|k: usize| #[trigger] old(self).functions@.contains_key(k) && optimized_in_round(function_shapes(old(self).functions@), k)
                ==> old(self).functions@[k].wf(),
        ensures
            final(self).functions@.dom() == old(self).functions@.dom(),
            forall|k: usize| #[trigger] old(self).functions@.contains_key(k) ==> {
                &&& optimized_in_round(function_shapes(old(self).functions@), k) ==> shapes(final(self).functions@[k].blocks@)
                    == optimized(shapes(old(self).functions@[k].blocks@), old(self).functions@[k].entry, true).unwrap().0
                &&& !optimized_in_round(function_shapes(old(self).functions@), k) ==> final(self).functions@[k].blocks
                    == old(self).functions@[k].blocks
                &&& final(self).functions@[k].entry == old(self).functions@[k].entry
                &&& final(self).functions@[k].identifier == old(self).functions@[k].identifier
                &&& final(self).functions@[k].function_index == old(self).functions@[k].function_index
                &&& final(self).functions@[k].argument_count == old(self).functions@[k].argument_count
                &&& final(self).functions@[k].variable_counter == old(self).functions@[k].variable_counter
                &&& final(self).functions@[k].stack_size == old(self).functions@[k].stack_size
            },
            changed == table_merges(function_shapes(old(self).functions@)),
            final(self).extern_functions == old(self).extern_functions,
            final(self).constants == old(self).constants,
            final(self).function_counter == old(self).function_counter,
            final(self).extern_counter == old(self).extern_counter,
            final(self).symbol_table == old(self).symbol_table,
    {
        let ghost s0 = *self;
        let ghost t = function_shapes(s0.functions@);
        let keys = function_keys(&self.functions);
        proof {
            assert(t.dom() =~= s0.functions@.dom());
            lemma_key_order(t.dom(), keys@);
        }
        let n = keys.len();
        let mut changed = false;
        let mut i: usize = 0;
        proof {
            assert forall|j: int| 0 <= j < n implies #[trigger] self.functions@.contains_key(keys@[j]) by {
                assert(keys@.to_set().contains(keys@[j]));
            }
        }
        while i < n && !changed
            invariant
                n == keys@.len(),
                i <= n,
                ascending(keys@),
                keys@.to_set() == s0.functions@.dom(),
                t == function_shapes(s0.functions@),
                key_order(t.dom()) == keys@,
                forall|k: usize| #[trigger] s0.functions@.contains_key(k) && optimized_in_round(t, k) ==> s0.functions@[k].wf(),
                self.functions@.dom() == s0.functions@.dom(),
                !changed ==> forall|j: int| 0 <= j < i ==> !merges(t, #[trigger] keys@[j]),
                changed ==> i > 0 && merges(t, keys@[i - 1]) && forall|j: int| 0 <= j < i - 1 ==> !merges(t, #[trigger] keys@[j]),
                forall|j: int| 0 <= j < i ==> {
                    let o = s0.functions@[keys@[j]];
                    let f = #[trigger] self.functions@[keys@[j]];
                    &&& shapes(f.blocks@) == optimized(shapes(o.blocks@), o.entry, true).unwrap().0
                    &&& f.entry == o.entry
                    &&& f.identifier == o.identifier
                    &&& f.function_index == o.function_index
                    &&& f.argument_count == o.argument_count
                    &&& f.variable_counter == o.variable_counter
                    &&& f.stack_size == o.stack_size
                },
                forall|j: int| i <= j < n ==> #[trigger] self.functions@[keys@[j]] == s0.functions@[keys@[j]],
                self.extern_functions == s0.extern_functions,
                self.constants == s0.constants,
                self.function_counter == s0.function_counter,
                self.extern_counter == s0.extern_counter,
                self.symbol_table == s0.symbol_table,
            decreases n - i,
        {
            let key = keys[i];
            let ghost before = self.functions@;
            proof {
                assert(keys@.to_set().contains(keys@[i as int]));
                assert(self.functions@[keys@[i as int]] == s0.functions@[keys@[i as int]]);
                assert forall|j: int| 0 <= j < n && j != i implies keys@[j] != keys@[i as int] by {
                    if j < i { assert(keys@[j] < keys@[i as int]); } else { assert(keys@[i as int] < keys@[j]); }
                }
                lemma_count_lower(t, keys@, i as int);
                lemma_key_index(keys@, i as int);
                assert(optimized_in_round(t, keys@[i as int]));
            }
            let mut f = self.functions.remove(&key).unwrap();
            let c = f.optimize(true);
            self.functions.insert(key, f);
            changed = c;
            proof {
                assert(t[keys@[i as int]].blocks == shapes(s0.functions@[keys@[i as int]].blocks@));
                assert(c == merges(t, keys@[i as int]));
                assert(self.functions@.dom() =~= s0.functions@.dom());
                assert forall|j: int| 0 <= j < i + 1 implies {
                    let o = s0.functions@[keys@[j]];
                    let f = #[trigger] self.functions@[keys@[j]];
                    &&& shapes(f.blocks@) == optimized(shapes(o.blocks@), o.entry, true).unwrap().0
                    &&& f.entry == o.entry
                    &&& f.identifier == o.identifier
                    &&& f.function_index == o.function_index
                    &&& f.argument_count == o.argument_count
                    &&& f.variable_counter == o.variable_counter
                    &&& f.stack_size == o.stack_size
                } by {
                    if j < i {
                        assert(self.functions@[keys@[j]] == before[keys@[j]]);
                    }
                }
                assert forall|j: int| i + 1 <= j < n implies #[trigger] self.functions@[keys@[j]] == s0.functions@[keys@[j]] by {
                    assert(self.functions@[keys@[j]] == before[keys@[j]]);
                }
            }
            i = i + 1;
        }
        proof {
            lemma_count_exact(t, keys@, i as int, changed);
            assert forall|k: usize| #[trigger] s0.functions@.contains_key(k) implies {
                &&& optimized_in_round(t, k) ==> shapes(self.functions@[k].blocks@) == optimized(
                    shapes(s0.functions@[k].blocks@),
                    s0.functions@[k].entry,
                    true,
                ).unwrap().0
                &&& !optimized_in_round(t, k) ==> self.functions@[k].blocks == s0.functions@[k].blocks
                &&& self.functions@[k].entry == s0.functions@[k].entry
                &&& self.functions@[k].identifier == s0.functions@[k].identifier
                &&& self.functions@[k].function_index == s0.functions@[k].function_index
                &&& self.functions@[k].argument_count == s0.functions@[k].argument_count
                &&& self.functions@[k].variable_counter == s0.functions@[k].variable_counter
                &&& self.functions@[k].stack_size == s0.functions@[k].stack_size
            } by {
                assert(keys@.to_set().contains(k));
                let j = choose|j: int| 0 <= j < keys@.len() && keys@[j] == k;
                lemma_key_index(keys@, j);
                assert(self.functions@[keys@[j]] == self.functions@[k]);
            }
            if changed {
                let k = keys@[i - 1];
                assert(keys@.to_set().contains(k));
                lemma_key_index(keys@, i - 1);
                assert(t.contains_key(k) && optimized_in_round(t, k) && merges(t, k));
            }
            if table_merges(t) {
                let k = choose|k: usize| #[trigger] t.contains_key(k) && optimized_in_round(t, k) && merges(t, k);
                assert(keys@.to_set().contains(k));
                let j = choose|j: int| 0 <= j < keys@.len() && keys@[j] == k;
                lemma_key_index(keys@, j);
                if !changed {
                    assert(!merges(t, keys@[j]));
                }
            }
        }
        changed
    }

    /// Clears every function of dead stores.
    fn allocate_functions(&mut self)
        requires
            forall|k: usize| #[trigger] old(self).functions@.contains_key(k) ==> allocatable(shapes(old(self).functions@[k].blocks@)),
        ensures
            final(self).functions@.dom() == old(self).functions@.dom(),
            forall|k: usize| #[trigger] old(self).functions@.contains_key(k) ==> {
                &&& shapes(final(self).functions@[k].blocks@) == allocated(shapes(old(self).functions@[k].blocks@))
                &&& final(self).functions@[k].entry == old(self).functions@[k].entry
                &&& final(self).functions@[k].identifier == old(self).functions@[k].identifier
                &&& final(self).functions@[k].function_index == old(self).functions@[k].function_index
                &&& final(self).functions@[k].argument_count == old(self).functions@[k].argument_count
                &&& final(self).functions@[k].variable_counter == old(self).functions@[k].variable_counter
                &&& final(self).functions@[k].stack_size == old(self).functions@[k].stack_size
            },
            final(self).extern_functions == old(self).extern_functions,
            final(self).constants == old(self).constants,
            final(self).function_counter == old(self).function_counter,
            final(self).extern_counter == old(self).extern_counter,
            final(self).symbol_table == old(self).symbol_table,
    {
        let ghost s0 = *self;
        let keys = function_keys(&self.functions);
        let n = keys.len();
        let mut i: usize = 0;
        while i < n
            invariant
                n == keys@.len(),
                i <= n,
                ascending(keys@),
                keys@.to_set() == s0.functions@.dom(),
                forall|k: usize| #[trigger] s0.functions@.contains_key(k) ==> allocatable(shapes(s0.functions@[k].blocks@)),
                self.functions@.dom() == s0.functions@.dom(),
                forall|j: int| 0 <= j < i ==> {
                    let o = s0.functions@[keys@[j]];
                    let f = #[trigger] self.functions@[keys@[j]];
                    &&& shapes(f.blocks@) == allocated(shapes(o.blocks@))
                    &&& f.entry == o.entry
                    &&& f.identifier == o.identifier
                    &&& f.function_index == o.function_index
                    &&& f.argument_count == o.argument_count
                    &&& f.variable_counter == o.variable_counter
                    &&& f.stack_size == o.stack_size
                },
                forall|j: int| i <= j < n ==> #[trigger] self.functions@[keys@[j]] == s0.functions@[keys@[j]],
                self.extern_functions == s0.extern_functions,
                self.constants == s0.constants,
                self.function_counter == s0.function_counter,
                self.extern_counter == s0.extern_counter,
                self.symbol_table == s0.symbol_table,
            decreases n - i,
        {
            let key = keys[i];
            let ghost before = self.functions@;
            proof {
                assert(keys@.to_set().contains(keys@[i as int]));
                assert(self.functions@[keys@[i as int]] == s0.functions@[keys@[i as int]]);
                assert forall|j: int| 0 <= j < n && j != i implies keys@[j] != keys@[i as int] by {
                    if j < i { assert(keys@[j] < keys@[i as int]); } else { assert(keys@[i as int] < keys@[j]); }
                }
            }
            let mut f = self.functions.remove(&key).unwrap();
            f.register_alloc();
            self.functions.insert(key, f);
            proof {
                assert(self.functions@.dom() =~= s0.functions@.dom());
                assert forall|j: int| 0 <= j < i + 1 implies {
                    let o = s0.functions@[keys@[j]];
                    let f = #[trigger] self.functions@[keys@[j]];
                    &&& shapes(f.blocks@) == allocated(shapes(o.blocks@))
                    &&& f.entry == o.entry
                    &&& f.identifier == o.identifier
                    &&& f.function_index == o.function_index
                    &&& f.argument_count == o.argument_count
                    &&& f.variable_counter == o.variable_counter
                    &&& f.stack_size == o.stack_size
                } by {
                    if j < i {
                        assert(self.functions@[keys@[j]] == before[keys@[j]]);
                    }
                }
                assert forall|j: int| i + 1 <= j < n implies #[trigger] self.functions@[keys@[j]] == s0.functions@[keys@[j]] by {
                    assert(self.functions@[keys@[j]] == before[keys@[j]]);
                }
            }
            i = i + 1;
        }
        proof {
            assert forall|k: usize| #[trigger] s0.functions@.contains_key(k) implies {
                &&& shapes(self.functions@[k].blocks@) == allocated(shapes(s0.functions@[k].blocks@))
                &&& self.functions@[k].entry == s0.functions@[k].entry
                &&& self.functions@[k].identifier == s0.functions@[k].identifier
                &&& self.functions@[k].function_index == s0.functions@[k].function_index
                &&& self.functions@[k].argument_count == s0.functions@[k].argument_count
                &&& self.functions@[k].variable_counter == s0.functions@[k].variable_counter
                &&& self.functions@[k].stack_size == s0.functions@[k].stack_size
            } by {
                assert(keys@.to_set().contains(k));
                let j = choose|j: int| 0 <= j < keys@.len() && keys@[j] == k;
                assert(self.functions@[keys@[j]] == self.functions@[k]);
            }
        }
    }
}


/// Functions `n` keep what `o` says of their name, arguments and frame.
pub open spec fn same_frames(o: Map<usize, Function>, n: Map<usize, Function>) -> bool {
    forall|k: usize| #[trigger] n.contains_key(k) ==> {
        &&& o.contains_key(k)
        &&& n[k].identifier == o[k].identifier
        &&& n[k].argument_count == o[k].argument_count
        &&& n[k].variable_counter == o[k].variable_counter
        &&& n[k].stack_size == o[k].stack_size
    }
}

proof fn lemma_order_matches(m: Map<usize, Function>, keys: Seq<usize>)
    requires
        ascending(keys),
        keys.to_set() == m.dom(),
    ensures
        table_order(function_shapes(m)) == call_order(m, keys),
        forall|ks: Seq<usize>| ascending(ks) && ks.to_set() == m.dom() ==> ks == keys,
{
    let t = function_shapes(m);
    assert(t.dom() =~= m.dom());
    lemma_key_order(t.dom(), keys);
    assert forall|i: int| 0 <= i < keys.len() implies m.contains_key(#[trigger] keys[i]) by {
        assert(keys.to_set().contains(keys[i]));
    }
    lemma_table_calls(m, keys);
    assert forall|ks: Seq<usize>| ascending(ks) && ks.to_set() == m.dom() implies ks == keys by {
        lemma_ascending_unique(ks, keys);
    }
}

impl ConversionState {
    /// Optimizes the program: rounds of dropping the functions no call
    /// reaches (renumbering the rest), optimizing every function with block
    /// merging and clearing it of dead stores, until a round drops nothing
    /// and merges nothing; then clears every function of dead stores once
    /// more, renumbers the constants the loads read, and renames every
    /// function's registers densely.
    pub fn optimize(&mut self)
        requires
            exists|fuel: nat| settles(function_shapes(old(self).functions@), fuel),
            forall|k: usize| #[trigger] settled(
                function_shapes(old(self).functions@),
                rounds_needed(function_shapes(old(self).functions@)),
            ).contains_key(k) ==> allocatable(
                settled(function_shapes(old(self).functions@), rounds_needed(function_shapes(old(self).functions@)))[k].blocks,
            ),
            all_loads(final_table(function_shapes(old(self).functions@))).len() < u32::MAX,
            forall|k: u32| #[trigger] load_keys(all_loads(final_table(function_shapes(old(self).functions@)))).contains_key(k) ==> k
                < old(self).constants@.len(),
            forall|k: usize| #[trigger] numbered_table(final_table(function_shapes(old(self).functions@))).contains_key(k) ==> {
                &&& old(self).functions@[k].argument_count < u32::MAX
                &&& register_order(
                    old(self).functions@[k].argument_count as nat,
                    numbered_table(final_table(function_shapes(old(self).functions@)))[k].blocks,
                ).len() < u32::MAX
            },
        ensures
            final(self).functions@.dom() == numbered_table(final_table(function_shapes(old(self).functions@))).dom(),
            forall|k: usize| #[trigger] final(self).functions@.contains_key(k) ==> {
                let f = numbered_table(final_table(function_shapes(old(self).functions@)))[k];
                &&& final(self).functions@[k].function_index.0 == f.number
                &&& final(self).functions@[k].entry == f.entry
                &&& registers_renamed(
                    f.blocks,
                    shapes(final(self).functions@[k].blocks@),
                    register_order(old(self).functions@[k].argument_count as nat, f.blocks),
                )
            },
            final(self).constants@ == kept_constants(
                old(self).constants@,
                load_keys(all_loads(final_table(function_shapes(old(self).functions@)))),
                all_loads(final_table(function_shapes(old(self).functions@))).len(),
            ),
            same_frames(old(self).functions@, final(self).functions@),
            final(self).extern_functions == old(self).extern_functions,
            final(self).function_counter == old(self).function_counter,
            final(self).extern_counter == old(self).extern_counter,
            final(self).symbol_table == old(self).symbol_table,
    {
        let ghost s0 = *self;
        let ghost t0 = function_shapes(s0.functions@);
        let ghost target = settled(t0, rounds_needed(t0));
        let ghost mut left: nat = rounds_needed(t0);
        let mut again = true;
        while again
            invariant
                again ==> settles(function_shapes(self.functions@), left),
                again ==> settled(function_shapes(self.functions@), left) == target,
                !again ==> function_shapes(self.functions@) == target,
                same_frames(s0.functions@, self.functions@),
                self.extern_functions == s0.extern_functions,
                self.constants == s0.constants,
                self.function_counter == s0.function_counter,
                self.extern_counter == s0.extern_counter,
                self.symbol_table == s0.symbol_table,
            decreases left + if again { 1nat } else { 0nat },
        {
            let ghost s1 = *self;
            let ghost t = function_shapes(s1.functions@);
            let keys = function_keys(&self.functions);
            proof {
                lemma_order_matches(s1.functions@, keys@);
            }
            let removed = self.prune_functions();
            let ghost s2 = *self;
            proof {
                lemma_pruned_shapes(s1, s2, removed, keys@);
                let pt = pruned_table(t);
                assert(function_shapes(s2.functions@) == pt);
                assert forall|k: usize| #[trigger] s2.functions@.contains_key(k) && optimized_in_round(function_shapes(s2.functions@), k)
                    implies s2.functions@[k].wf() by {
                    assert(pt.contains_key(k));
                    assert(pt[k] == function_shapes(s2.functions@)[k]);
                }
            }
            let merged = self.optimize_functions();
            let ghost s3 = *self;
            proof {
                let pt = pruned_table(t);
                assert forall|k: usize| #[trigger] s3.functions@.contains_key(k) implies allocatable(shapes(s3.functions@[k].blocks@)) by {
                    assert(pt.contains_key(k));
                    assert(pt[k] == function_shapes(s2.functions@)[k]);
                }
                assert(merged == table_merges(pt));
            }
            self.allocate_functions();
            proof {
                let pt = pruned_table(t);
                let nt = function_shapes(self.functions@);
                assert forall|k: usize| #[trigger] nt.contains_key(k) implies nt[k] == optimized_table(pt)[k] by {
                    assert(pt[k] == function_shapes(s2.functions@)[k]);
                    assert(pt.contains_key(k));
                }
                assert(nt =~= optimized_table(pt));
                assert(nt == next_table(t));
                assert(round_changes(t) == (removed || merged));
            }
            if removed || merged {
                proof {
                    left = (left - 1) as nat;
                }
            } else {
                again = false;
            }
        }
        let ghost s4 = *self;
        proof {
            assert forall|k: usize| #[trigger] s4.functions@.contains_key(k) implies allocatable(shapes(s4.functions@[k].blocks@)) by {
                assert(function_shapes(s4.functions@).contains_key(k));
                assert(target.contains_key(k));
                assert(target[k] == function_shapes(s4.functions@)[k]);
            }
        }
        self.allocate_functions();
        proof {
            let nt = function_shapes(self.functions@);
            assert forall|k: usize| #[trigger] nt.contains_key(k) implies nt[k] == reallocated(target)[k] by {
                assert(target[k] == function_shapes(s4.functions@)[k]);
            }
            assert(nt =~= reallocated(target));
        }
        self.renumber_constants();
        let ghost s5 = *self;
        proof {
            let tt = numbered_table(final_table(t0));
            assert(function_shapes(s5.functions@) == tt);
            assert forall|k: usize| #[trigger] s5.functions@.contains_key(k) implies s5.functions@[k].argument_count < u32::MAX
                && register_order(s5.functions@[k].argument_count as nat, shapes(s5.functions@[k].blocks@)).len() < u32::MAX by {
                assert(tt.contains_key(k));
                assert(tt[k] == function_shapes(s5.functions@)[k]);
            }
        }
        self.rename_registers_everywhere();
        proof {
            let tt = numbered_table(final_table(t0));
            assert(self.functions@.dom() =~= tt.dom()) by {
                assert(function_shapes(s5.functions@).dom() == s5.functions@.dom());
            }
            assert forall|k: usize| #[trigger] self.functions@.contains_key(k) implies ({
                let f = tt[k];
                &&& self.functions@[k].function_index.0 == f.number
                &&& self.functions@[k].entry == f.entry
                &&& registers_renamed(f.blocks, shapes(self.functions@[k].blocks@), register_order(s0.functions@[k].argument_count as nat, f.blocks))
            }) by {
                assert(tt[k] == function_shapes(s5.functions@)[k]);
            }
        }
    }
}


/// Files the load `i`, if it is one, in the renumbering of constants, and
/// gives it its new number.
fn note_load(i: IR, used: &mut BTreeMap<u32, u32>, by_pos: &mut Vec<Option<u32>>, Ghost(seen): Ghost<Seq<u32>>) -> (r: IR)
    requires
        old(used)@ == load_keys(seen),
        old(by_pos)@.len() == seen.len(),
        positions(old(used)@, old(by_pos)@),
        seen.len() < u32::MAX,
    ensures
        final(used)@ == load_keys(seen + ir_loads(seq![i])),
        final(by_pos)@.len() == (seen + ir_loads(seq![i])).len(),
        positions(final(used)@, final(by_pos)@),
        r == match i {
            IR::Load { dst, .. } => IR::Load { dst, data: seen.len() as u32 },
            _ => i,
        },
{
    let ghost t = seq![i];
    proof {
        assert(t.drop_last() =~= Seq::<IR>::empty());
        assert(t.last() == i);
        assert(ir_loads(t.drop_last()) =~= Seq::<u32>::empty());
    }
    match i {
        IR::Load { dst, data } => {
            let ghost m = used@;
            let ghost bp = by_pos@;
            let c = by_pos.len() as u32;
            let key = match used.get(&data) {
                Some(v) => *v,
                None => data,
            };
            proof {
                assert(ir_loads(t) =~= seq![data]);
                let ns = seen + seq![data];
                assert(ns.drop_last() =~= seen);
                assert(ns.last() == data);
                assert(load_keys(ns) == m.insert(key, c));
            }
            let prev = used.insert(key, c);
            match prev {
                Some(v0) => {
                    proof {
                        assert(m.contains_key(key));
                        assert(m[key] < bp.len());
                    }
                    by_pos.set(v0 as usize, None);
                },
                None => {},
            }
            by_pos.push(Some(key));
            proof {
                let nm = used@;
                let nb = by_pos@;
                assert(nm == m.insert(key, c));
                assert forall|p: int| 0 <= p < nb.len() && (#[trigger] nb[p]) is Some implies nm.contains_key(nb[p]->0) && nm[nb[p]->0] == p by {
                    if p < bp.len() {
                        assert(nb[p] == bp[p] || (m.contains_key(key) && p == m[key]));
                        if m.contains_key(key) && p == m[key] {
                            assert(nb[p] is None);
                        } else {
                            assert(nb[p] == bp[p]);
                            let k = bp[p]->0;
                            assert(m.contains_key(k) && m[k] == p);
                            if k == key {
                                assert(m.contains_key(key) && m[key] == p);
                            }
                        }
                    }
                }
                assert forall|k: u32| #[trigger] nm.contains_key(k) implies nm[k] < nb.len() && nb[nm[k] as int] == Some(k) by {
                    if k != key {
                        assert(m.contains_key(k));
                        assert(bp[m[k] as int] == Some(k));
                        if m.contains_key(key) {
                            assert(bp[m[key] as int] == Some(key));
                            assert(m[k] != m[key]);
                        }
                    }
                }
            }
            IR::Load { dst, data: c }
        },
        other => {
            proof {
                assert(ir_loads(t) =~= Seq::<u32>::empty());
                assert(seen + ir_loads(t) =~= seen);
            }
            other
        },
    }
}

proof fn lemma_ir_loads_step(s: Seq<IR>, k: int)
    requires
        0 <= k < s.len(),
    ensures
        ir_loads(s.take(k + 1)) == ir_loads(s.take(k)) + ir_loads(seq![s[k]]),
{
    let t = seq![s[k]];
    assert(t.drop_last() =~= Seq::<IR>::empty());
    assert(s.take(k + 1).drop_last() =~= s.take(k));
    assert(s.take(k + 1).last() == s[k]);
    assert(ir_loads(Seq::<IR>::empty()) =~= Seq::<u32>::empty());
    assert(ir_loads(t) =~= Seq::<u32>::empty() + match s[k] {
        IR::Load { data, .. } => seq![data],
        _ => Seq::empty(),
    });
}

proof fn lemma_number_loads(s: Seq<IR>, start: nat)
    ensures
        number_loads(s, start).len() == s.len(),
        forall|j: int| 0 <= j < s.len() ==> #[trigger] number_loads(s, start)[j] == match s[j] {
            IR::Load { dst, .. } => IR::Load { dst, data: (start + ir_loads(s.take(j)).len()) as u32 },
            i => i,
        },
    decreases s.len(),
{
    if s.len() > 0 {
        let p = s.drop_last();
        lemma_number_loads(p, start);
        assert forall|j: int| 0 <= j < s.len() implies #[trigger] number_loads(s, start)[j] == match s[j] {
            IR::Load { dst, .. } => IR::Load { dst, data: (start + ir_loads(s.take(j)).len()) as u32 },
            i => i,
        } by {
            if j < s.len() - 1 {
                assert(p[j] == s[j]);
                assert(p.take(j) =~= s.take(j));
            } else {
                assert(s.take(j) =~= p);
            }
        }
    }
}

proof fn lemma_shape_loads_step(bs: Seq<BlockShape>, b: int)
    requires
        0 <= b < bs.len(),
    ensures
        shape_loads(bs.take(b + 1)) == shape_loads(bs.take(b)) + ir_loads(bs[b].instructions),
{
    assert(bs.take(b + 1).drop_last() =~= bs.take(b));
    assert(bs.take(b + 1).last() == bs[b]);
}

proof fn lemma_number_block_loads(bs: Seq<BlockShape>, start: nat)
    ensures
        number_block_loads(bs, start).len() == bs.len(),
        forall|b: int| 0 <= b < bs.len() ==> #[trigger] number_block_loads(bs, start)[b] == (BlockShape {
            instructions: number_loads(bs[b].instructions, start + shape_loads(bs.take(b)).len()),
            ..bs[b]
        }),
    decreases bs.len(),
{
    if bs.len() > 0 {
        let p = bs.drop_last();
        lemma_number_block_loads(p, start);
        assert forall|b: int| 0 <= b < bs.len() implies #[trigger] number_block_loads(bs, start)[b] == (BlockShape {
            instructions: number_loads(bs[b].instructions, start + shape_loads(bs.take(b)).len()),
            ..bs[b]
        }) by {
            if b < bs.len() - 1 {
                assert(p[b] == bs[b]);
                assert(p.take(b) =~= bs.take(b));
            } else {
                assert(bs.take(b) =~= p);
            }
        }
    }
}

/// Numbers the loads of `f` in order, going on from the loads `seen`.
fn number_function_loads(f: &mut Function, used: &mut BTreeMap<u32, u32>, by_pos: &mut Vec<Option<u32>>, Ghost(seen): Ghost<Seq<u32>>)
    requires
        old(used)@ == load_keys(seen),
        old(by_pos)@.len() == seen.len(),
        positions(old(used)@, old(by_pos)@),
        seen.len() + shape_loads(shapes(old(f).blocks@)).len() < u32::MAX,
    ensures
        final(used)@ == load_keys(seen + shape_loads(shapes(old(f).blocks@))),
        final(by_pos)@.len() == seen.len() + shape_loads(shapes(old(f).blocks@)).len(),
        positions(final(used)@, final(by_pos)@),
        shapes(final(f).blocks@) == number_block_loads(shapes(old(f).blocks@), seen.len()),
        final(f).identifier == old(f).identifier,
        final(f).function_index == old(f).function_index,
        final(f).argument_count == old(f).argument_count,
        final(f).variable_counter == old(f).variable_counter,
        final(f).stack_size == old(f).stack_size,
        final(f).entry == old(f).entry,
{
    let ghost ob = shapes(f.blocks@);
    let ghost start = seen.len();
    proof {
        lemma_number_block_loads(ob, start);
        assert(ob.take(0) =~= Seq::<BlockShape>::empty());
        assert(seen + shape_loads(Seq::<BlockShape>::empty()) =~= seen);
    }
    let nb = f.blocks.len();
    let mut b: usize = 0;
    while b < nb
        invariant
            nb == f.blocks@.len(),
            nb == ob.len(),
            b <= nb,
            ob == shapes(old(f).blocks@),
            start == seen.len(),
            seen.len() + shape_loads(ob).len() < u32::MAX,
            used@ == load_keys(seen + shape_loads(ob.take(b as int))),
            by_pos@.len() == seen.len() + shape_loads(ob.take(b as int)).len(),
            positions(used@, by_pos@),
            number_block_loads(ob, start).len() == ob.len(),
            forall|j: int| 0 <= j < nb ==> #[trigger] number_block_loads(ob, start)[j] == (BlockShape {
                instructions: number_loads(ob[j].instructions, start + shape_loads(ob.take(j)).len()),
                ..ob[j]
            }),
            forall|j: int| 0 <= j < b ==> #[trigger] shape(f.blocks@[j]) == number_block_loads(ob, start)[j],
            forall|j: int| b <= j < nb ==> #[trigger] f.blocks@[j] == old(f).blocks@[j],
            f.identifier == old(f).identifier,
            f.function_index == old(f).function_index,
            f.argument_count == old(f).argument_count,
            f.variable_counter == old(f).variable_counter,
            f.stack_size == old(f).stack_size,
            f.entry == old(f).entry,
        decreases nb - b,
    {
        let mut blk = Block { block_index: BlockIndex(0), instructions: Vec::new(), ending: BlockTerminator::Return };
        std::mem::swap(&mut blk, &mut f.blocks[b]);
        let ghost oi = blk.instructions@;
        let ghost pre = seen + shape_loads(ob.take(b as int));
        let ghost bstart = start + shape_loads(ob.take(b as int)).len();
        proof {
            assert(blk == old(f).blocks@[b as int]);
            assert(ob[b as int] == shape(blk));
            lemma_number_loads(oi, bstart);
            lemma_shape_loads_step(ob, b as int);
            assert(oi.take(0) =~= Seq::<IR>::empty());
            assert(pre + ir_loads(Seq::<IR>::empty()) =~= pre);
            assert(shape_loads(ob.take(b as int + 1)).len() <= shape_loads(ob).len()) by {
                lemma_shape_loads_prefix(ob, b as int + 1);
            }
        }
        let m = blk.instructions.len();
        let mut k: usize = 0;
        while k < m
            invariant
                m == blk.instructions@.len(),
                m == oi.len(),
                k <= m,
                pre.len() == bstart,
                pre.len() + ir_loads(oi).len() < u32::MAX,
                used@ == load_keys(pre + ir_loads(oi.take(k as int))),
                by_pos@.len() == pre.len() + ir_loads(oi.take(k as int)).len(),
                positions(used@, by_pos@),
                number_loads(oi, bstart).len() == oi.len(),
                forall|j: int| 0 <= j < oi.len() ==> #[trigger] number_loads(oi, bstart)[j] == match oi[j] {
                    IR::Load { dst, .. } => IR::Load { dst, data: (bstart + ir_loads(oi.take(j)).len()) as u32 },
                    i => i,
                },
                forall|j: int| 0 <= j < k ==> #[trigger] blk.instructions@[j] == number_loads(oi, bstart)[j],
                forall|j: int| k <= j < m ==> #[trigger] blk.instructions@[j] == oi[j],
                blk.block_index == old(f).blocks@[b as int].block_index,
                blk.ending == old(f).blocks@[b as int].ending,
            decreases m - k,
        {
            let mut cur = IR::Noop;
            std::mem::swap(&mut cur, &mut blk.instructions[k]);
            proof {
                lemma_ir_loads_step(oi, k as int);
                assert(ir_loads(oi.take(k as int + 1)).len() <= ir_loads(oi).len()) by {
                    lemma_ir_loads_prefix(oi, k as int + 1);
                }
            }
            let next = note_load(cur, used, by_pos, Ghost(pre + ir_loads(oi.take(k as int))));
            proof {
                assert(pre + ir_loads(oi.take(k as int)) + ir_loads(seq![oi[k as int]]) =~= pre + ir_loads(oi.take(k as int + 1)));
            }
            blk.instructions.set(k, next);
            k = k + 1;
        }
        proof {
            assert(oi.take(m as int) =~= oi);
            assert(blk.instructions@ =~= number_loads(oi, bstart));
            assert(pre + ir_loads(oi) =~= seen + shape_loads(ob.take(b as int + 1)));
        }
        f.blocks.set(b, blk);
        b = b + 1;
    }
    proof {
        assert(ob.take(nb as int) =~= ob);
        assert(shapes(f.blocks@) =~= number_block_loads(ob, start)) by {
            assert forall|j: int| 0 <= j < nb implies #[trigger] shapes(f.blocks@)[j] == number_block_loads(ob, start)[j] by {
                assert(shapes(f.blocks@)[j] == shape(f.blocks@[j]));
            }
        }
    }
}

proof fn lemma_ir_loads_prefix(s: Seq<IR>, k: int)
    requires
        0 <= k <= s.len(),
    ensures
        ir_loads(s.take(k)).len() <= ir_loads(s).len(),
    decreases s.len() - k,
{
    if k < s.len() {
        lemma_ir_loads_step(s, k);
        lemma_ir_loads_prefix(s, k + 1);
    } else {
        assert(s.take(k) =~= s);
    }
}

proof fn lemma_shape_loads_prefix(bs: Seq<BlockShape>, k: int)
    requires
        0 <= k <= bs.len(),
    ensures
        shape_loads(bs.take(k)).len() <= shape_loads(bs).len(),
    decreases bs.len() - k,
{
    if k < bs.len() {
        lemma_shape_loads_step(bs, k);
        lemma_shape_loads_prefix(bs, k + 1);
    } else {
        assert(bs.take(k) =~= bs);
    }
}


proof fn lemma_key_index(keys: Seq<usize>, i: int)
    requires
        ascending(keys),
        0 <= i < keys.len(),
    ensures
        keys.index_of(keys[i]) == i,
{
    assert(0 <= i < keys.len() && keys[i] == keys[i]);
    let j = keys.index_of(keys[i]);
    assert(0 <= j < keys.len() && keys[j] == keys[i]);
    if j < i {
        assert(keys[j] < keys[i]);
    } else if i < j {
        assert(keys[i] < keys[j]);
    }
}

proof fn lemma_table_loads_step(t: Map<usize, FunctionShape>, ks: Seq<usize>, i: int)
    requires
        0 <= i < ks.len(),
    ensures
        table_loads(t, ks.take(i + 1)) == table_loads(t, ks.take(i)) + shape_loads(t[ks[i]].blocks),
{
    assert(ks.take(i + 1).drop_last() =~= ks.take(i));
    assert(ks.take(i + 1).last() == ks[i]);
}

proof fn lemma_table_loads_prefix(t: Map<usize, FunctionShape>, ks: Seq<usize>, k: int)
    requires
        0 <= k <= ks.len(),
    ensures
        table_loads(t, ks.take(k)).len() <= table_loads(t, ks).len(),
    decreases ks.len() - k,
{
    if k < ks.len() {
        lemma_table_loads_step(t, ks, k);
        lemma_table_loads_prefix(t, ks, k + 1);
    } else {
        assert(ks.take(k) =~= ks);
    }
}

impl ConversionState {
    /// Renumbers the constants the loads read: the loads, functions by
    /// symbol and blocks and instructions in order, are numbered 0, 1, 2,
    /// ...; each is filed under its constant's number, or, where that
    /// number was filed before, under the number it was given then; the
    /// new table of constants holds, in order of the numbers still filed,
    /// the old constant at each key.
    fn renumber_constants(&mut self)
        requires
            all_loads(function_shapes(old(self).functions@)).len() < u32::MAX,
            forall|k: u32| #[trigger] load_keys(all_loads(function_shapes(old(self).functions@))).contains_key(k) ==> k
                < old(self).constants@.len(),
        ensures
            function_shapes(final(self).functions@) == numbered_table(function_shapes(old(self).functions@)),
            final(self).constants@ == kept_constants(
                old(self).constants@,
                load_keys(all_loads(function_shapes(old(self).functions@))),
                all_loads(function_shapes(old(self).functions@)).len(),
            ),
            same_frames(old(self).functions@, final(self).functions@),
            final(self).extern_functions == old(self).extern_functions,
            final(self).function_counter == old(self).function_counter,
            final(self).extern_counter == old(self).extern_counter,
            final(self).symbol_table == old(self).symbol_table,
    {
        let ghost s0 = *self;
        let ghost t = function_shapes(s0.functions@);
        let keys = function_keys(&self.functions);
        proof {
            assert(t.dom() =~= s0.functions@.dom());
            lemma_key_order(t.dom(), keys@);
            assert(keys@.take(0) =~= Seq::<usize>::empty());
        }
        let mut used: BTreeMap<u32, u32> = BTreeMap::new();
        let mut by_pos: Vec<Option<u32>> = Vec::new();
        let n = keys.len();
        let mut i: usize = 0;
        proof {
            assert forall|j: int| 0 <= j < n implies #[trigger] self.functions@.contains_key(keys@[j]) by {
                assert(keys@.to_set().contains(keys@[j]));
            }
            assert(load_keys(Seq::<u32>::empty()) =~= Map::<u32, u32>::empty());
        }
        while i < n
            invariant
                n == keys@.len(),
                i <= n,
                ascending(keys@),
                keys@.to_set() == s0.functions@.dom(),
                key_order(t.dom()) == keys@,
                t == function_shapes(s0.functions@),
                table_loads(t, keys@).len() < u32::MAX,
                used@ == load_keys(table_loads(t, keys@.take(i as int))),
                by_pos@.len() == table_loads(t, keys@.take(i as int)).len(),
                positions(used@, by_pos@),
                self.functions@.dom() == s0.functions@.dom(),
                forall|j: int| 0 <= j < i ==> {
                    let o = s0.functions@[keys@[j]];
                    let f = #[trigger] self.functions@[keys@[j]];
                    &&& shapes(f.blocks@) == number_block_loads(shapes(o.blocks@), table_loads(t, keys@.take(j)).len())
                    &&& f.entry == o.entry
                    &&& f.identifier == o.identifier
                    &&& f.function_index == o.function_index
                    &&& f.argument_count == o.argument_count
                    &&& f.variable_counter == o.variable_counter
                    &&& f.stack_size == o.stack_size
                },
                forall|j: int| i <= j < n ==> #[trigger] self.functions@[keys@[j]] == s0.functions@[keys@[j]],
                self.extern_functions == s0.extern_functions,
                self.constants == s0.constants,
                self.function_counter == s0.function_counter,
                self.extern_counter == s0.extern_counter,
                self.symbol_table == s0.symbol_table,
            decreases n - i,
        {
            let key = keys[i];
            let ghost before = self.functions@;
            proof {
                assert(keys@.to_set().contains(keys@[i as int]));
                assert(self.functions@[keys@[i as int]] == s0.functions@[keys@[i as int]]);
                assert forall|j: int| 0 <= j < n && j != i implies keys@[j] != keys@[i as int] by {
                    if j < i { assert(keys@[j] < keys@[i as int]); } else { assert(keys@[i as int] < keys@[j]); }
                }
                lemma_table_loads_step(t, keys@, i as int);
                lemma_table_loads_prefix(t, keys@, i as int + 1);
                assert(t[keys@[i as int]].blocks == shapes(s0.functions@[keys@[i as int]].blocks@));
            }
            let mut f = self.functions.remove(&key).unwrap();
            number_function_loads(&mut f, &mut used, &mut by_pos, Ghost(table_loads(t, keys@.take(i as int))));
            self.functions.insert(key, f);
            proof {
                assert(self.functions@.dom() =~= s0.functions@.dom());
                assert forall|j: int| 0 <= j < i + 1 implies {
                    let o = s0.functions@[keys@[j]];
                    let f = #[trigger] self.functions@[keys@[j]];
                    &&& shapes(f.blocks@) == number_block_loads(shapes(o.blocks@), table_loads(t, keys@.take(j)).len())
                    &&& f.entry == o.entry
                    &&& f.identifier == o.identifier
                    &&& f.function_index == o.function_index
                    &&& f.argument_count == o.argument_count
                    &&& f.variable_counter == o.variable_counter
                    &&& f.stack_size == o.stack_size
                } by {
                    if j < i {
                        assert(self.functions@[keys@[j]] == before[keys@[j]]);
                    }
                }
                assert forall|j: int| i + 1 <= j < n implies #[trigger] self.functions@[keys@[j]] == s0.functions@[keys@[j]] by {
                    assert(self.functions@[keys@[j]] == before[keys@[j]]);
                }
            }
            i = i + 1;
        }
        let ghost m = used@;
        let ghost loads = table_loads(t, keys@);
        proof {
            assert(keys@.take(n as int) =~= keys@);
            assert(loads == all_loads(t));
        }
        let total = by_pos.len();
        let mut constants: Vec<Data> = Vec::new();
        let mut p: usize = 0;
        while p < total
            invariant
                total == by_pos@.len(),
                total == loads.len(),
                p <= total,
                m == load_keys(loads),
                used@ == m,
                positions(m, by_pos@),
                loads == all_loads(t),
                forall|k: u32| #[trigger] m.contains_key(k) ==> k < s0.constants@.len(),
                self.constants == s0.constants,
                constants@ == kept_constants(s0.constants@, m, p as nat),
            decreases total - p,
        {
            let ghost np = (p + 1) as nat;
            match by_pos[p] {
                Some(k) => {
                    proof {
                        assert(m.contains_key(k) && m[k] == p);
                        let c = choose|c: u32| #[trigger] m.contains_key(c) && m[c] == p as nat;
                        assert(by_pos@[m[c] as int] == Some(c));
                        assert(c == k);
                    }
                    constants.push(self.constants[k as usize]);
                },
                None => {
                    proof {
                        if exists|c: u32| #[trigger] m.contains_key(c) && m[c] == p as nat {
                            let c = choose|c: u32| #[trigger] m.contains_key(c) && m[c] == p as nat;
                            assert(by_pos@[m[c] as int] == Some(c));
                        }
                    }
                },
            }
            proof {
                assert((np - 1) as nat == p as nat);
            }
            p = p + 1;
        }
        self.constants = constants;
        proof {
            let nt = function_shapes(self.functions@);
            let want = numbered_table(t);
            assert forall|k: usize| #[trigger] nt.contains_key(k) implies nt[k] == want[k] by {
                assert(keys@.to_set().contains(k));
                let j = choose|j: int| 0 <= j < keys@.len() && keys@[j] == k;
                lemma_key_index(keys@, j);
                assert(self.functions@[keys@[j]] == self.functions@[k]);
            }
            assert(nt =~= want);
        }
    }
}


/// The new name of register `v`: its place in `order`.
pub open spec fn renamed_register(v: Variable, order: Seq<u32>) -> Variable {
    Variable(order.index_of(v.0) as u32)
}

fn push_register_numbers(out: &mut Vec<u32>, vs: &Vec<Variable>)
    ensures
        final(out)@ == old(out)@ + vs@.map_values(|a: Variable| a.0),
{
    let mut j: usize = 0;
    while j < vs.len()
        invariant
            j <= vs@.len(),
            out@ == old(out)@ + vs@.subrange(0, j as int).map_values(|a: Variable| a.0),
        decreases vs@.len() - j,
    {
        out.push(vs[j].0);
        proof {
            assert(vs@.subrange(0, j as int + 1).map_values(|a: Variable| a.0) =~= vs@.subrange(0, j as int).map_values(|a: Variable| a.0).push(vs@[j as int].0));
        }
        j = j + 1;
    }
    proof {
        assert(vs@.subrange(0, vs@.len() as int) =~= vs@);
    }
}

fn rename_register(v: Variable, order: &Vec<u32>) -> (r: Variable)
    requires
        order@.no_duplicates(),
        order@.len() < u32::MAX,
        order@.contains(v.0),
    ensures
        r == renamed_register(v, order@),
{
    let j = position(order, v.0).unwrap();
    proof {
        lemma_index_of_unique(order@, j as int, v.0);
    }
    Variable(j as u32)
}

fn rename_registers(vs: Vec<Variable>, order: &Vec<u32>) -> (r: Vec<Variable>)
    requires
        order@.no_duplicates(),
        order@.len() < u32::MAX,
        forall|j: int| 0 <= j < vs@.len() ==> order@.contains(#[trigger] vs@[j].0),
    ensures
        r@ == vs@.map_values(|a: Variable| renamed_register(a, order@)),
{
    let mut out: Vec<Variable> = Vec::new();
    let mut j: usize = 0;
    while j < vs.len()
        invariant
            j <= vs@.len(),
            order@.no_duplicates(),
            order@.len() < u32::MAX,
            forall|i: int| 0 <= i < vs@.len() ==> order@.contains(#[trigger] vs@[i].0),
            out@ == vs@.subrange(0, j as int).map_values(|a: Variable| renamed_register(a, order@)),
        decreases vs@.len() - j,
    {
        let x = rename_register(vs[j], order);
        out.push(x);
        proof {
            assert(vs@.subrange(0, j as int + 1).map_values(|a: Variable| renamed_register(a, order@)) =~= vs@.subrange(0, j as int).map_values(
                |a: Variable| renamed_register(a, order@),
            ).push(x));
        }
        j = j + 1;
    }
    proof {
        assert(vs@.subrange(0, vs@.len() as int) =~= vs@);
    }
    out
}

/// The registers an instruction names, in the order new numbers are
/// handed out.
pub open spec fn named_registers(i: IR) -> Seq<u32> {
    match i {
        IR::Copy { dst, src } => seq![dst.0, src.0],
        IR::Swap { v1, v2 } => seq![v1.0, v2.0],
        IR::CastToI8 { dst, val } => seq![dst.0, val.0],
        IR::CastToI16 { dst, val } => seq![dst.0, val.0],
        IR::CastToI32 { dst, val } => seq![dst.0, val.0],
        IR::CastToI64 { dst, val } => seq![dst.0, val.0],
        IR::CastToU8 { dst, val } => seq![dst.0, val.0],
        IR::CastToU16 { dst, val } => seq![dst.0, val.0],
        IR::CastToU32 { dst, val } => seq![dst.0, val.0],
        IR::CastToU64 { dst, val } => seq![dst.0, val.0],
        IR::CastToFloat { dst, val } => seq![dst.0, val.0],
        IR::AccStruct { dst, val, .. } => seq![dst.0, val.0],
        IR::SetField { dst, data, .. } => seq![dst.0, data.0],
        IR::UnaryNot { dst, val } => seq![dst.0, val.0],
        IR::UnaryNeg { dst, val } => seq![dst.0, val.0],
        IR::Add { dst, left, right } => seq![dst.0, left.0, right.0],
        IR::Subtract { dst, left, right } => seq![dst.0, left.0, right.0],
        IR::Multiply { dst, left, right } => seq![dst.0, left.0, right.0],
        IR::Divide { dst, left, right } => seq![dst.0, left.0, right.0],
        IR::Modulo { dst, left, right } => seq![dst.0, left.0, right.0],
        IR::Equals { dst, left, right } => seq![dst.0, left.0, right.0],
        IR::NotEquals { dst, left, right } => seq![dst.0, left.0, right.0],
        IR::GreaterThan { dst, left, right } => seq![dst.0, left.0, right.0],
        IR::LesserThan { dst, left, right } => seq![dst.0, left.0, right.0],
        IR::GreaterEquals { dst, left, right } => seq![dst.0, left.0, right.0],
        IR::LesserEquals { dst, left, right } => seq![dst.0, left.0, right.0],
        IR::ExtCall { dst, args, .. } => seq![dst.0] + args@.map_values(|a: Variable| a.0),
        IR::Struct { dst, fields } => seq![dst.0] + fields@.map_values(|a: Variable| a.0),
        IR::Call { dst, args, .. } => seq![dst.0] + args@.map_values(|a: Variable| a.0),
        IR::Load { dst, .. } => seq![dst.0],
        IR::Unit { dst } => seq![dst.0],
        IR::Noop => Seq::empty(),
    }
}

/// `n` is `o` with every register renamed by `order`.
pub open spec fn renamed_ir(o: IR, n: IR, order: Seq<u32>) -> bool {
    match o {
        IR::Copy { dst, src } => n == (IR::Copy { dst: renamed_register(dst, order), src: renamed_register(src, order) }),
        IR::Swap { v1, v2 } => n == (IR::Swap { v1: renamed_register(v1, order), v2: renamed_register(v2, order) }),
        IR::CastToI8 { dst, val } => n == (IR::CastToI8 { dst: renamed_register(dst, order), val: renamed_register(val, order) }),
        IR::CastToI16 { dst, val } => n == (IR::CastToI16 { dst: renamed_register(dst, order), val: renamed_register(val, order) }),
        IR::CastToI32 { dst, val } => n == (IR::CastToI32 { dst: renamed_register(dst, order), val: renamed_register(val, order) }),
        IR::CastToI64 { dst, val } => n == (IR::CastToI64 { dst: renamed_register(dst, order), val: renamed_register(val, order) }),
        IR::CastToU8 { dst, val } => n == (IR::CastToU8 { dst: renamed_register(dst, order), val: renamed_register(val, order) }),
        IR::CastToU16 { dst, val } => n == (IR::CastToU16 { dst: renamed_register(dst, order), val: renamed_register(val, order) }),
        IR::CastToU32 { dst, val } => n == (IR::CastToU32 { dst: renamed_register(dst, order), val: renamed_register(val, order) }),
        IR::CastToU64 { dst, val } => n == (IR::CastToU64 { dst: renamed_register(dst, order), val: renamed_register(val, order) }),
        IR::CastToFloat { dst, val } => n == (IR::CastToFloat { dst: renamed_register(dst, order), val: renamed_register(val, order) }),
        IR::AccStruct { dst, val, index } => n == (IR::AccStruct { dst: renamed_register(dst, order), val: renamed_register(val, order), index }),
        IR::SetField { dst, data, index } => n == (IR::SetField { dst: renamed_register(dst, order), data: renamed_register(data, order), index }),
        IR::UnaryNot { dst, val } => n == (IR::UnaryNot { dst: renamed_register(dst, order), val: renamed_register(val, order) }),
        IR::UnaryNeg { dst, val } => n == (IR::UnaryNeg { dst: renamed_register(dst, order), val: renamed_register(val, order) }),
        IR::Add { dst, left, right } => n == (IR::Add { dst: renamed_register(dst, order), left: renamed_register(left, order), right: renamed_register(right, order) }),
        IR::Subtract { dst, left, right } => n == (IR::Subtract { dst: renamed_register(dst, order), left: renamed_register(left, order), right: renamed_register(right, order) }),
        IR::Multiply { dst, left, right } => n == (IR::Multiply { dst: renamed_register(dst, order), left: renamed_register(left, order), right: renamed_register(right, order) }),
        IR::Divide { dst, left, right } => n == (IR::Divide { dst: renamed_register(dst, order), left: renamed_register(left, order), right: renamed_register(right, order) }),
        IR::Modulo { dst, left, right } => n == (IR::Modulo { dst: renamed_register(dst, order), left: renamed_register(left, order), right: renamed_register(right, order) }),
        IR::Equals { dst, left, right } => n == (IR::Equals { dst: renamed_register(dst, order), left: renamed_register(left, order), right: renamed_register(right, order) }),
        IR::NotEquals { dst, left, right } => n == (IR::NotEquals { dst: renamed_register(dst, order), left: renamed_register(left, order), right: renamed_register(right, order) }),
        IR::GreaterThan { dst, left, right } => n == (IR::GreaterThan { dst: renamed_register(dst, order), left: renamed_register(left, order), right: renamed_register(right, order) }),
        IR::LesserThan { dst, left, right } => n == (IR::LesserThan { dst: renamed_register(dst, order), left: renamed_register(left, order), right: renamed_register(right, order) }),
        IR::GreaterEquals { dst, left, right } => n == (IR::GreaterEquals { dst: renamed_register(dst, order), left: renamed_register(left, order), right: renamed_register(right, order) }),
        IR::LesserEquals { dst, left, right } => n == (IR::LesserEquals { dst: renamed_register(dst, order), left: renamed_register(left, order), right: renamed_register(right, order) }),
        IR::ExtCall { dst, id, args } => n matches IR::ExtCall { dst: n_dst, id: n_id, args: n_args } && n_dst == renamed_register(dst, order) && n_id == id && n_args@ == args@.map_values(|a: Variable| renamed_register(a, order)),
        IR::Struct { dst, fields } => n matches IR::Struct { dst: n_dst, fields: n_fields } && n_dst == renamed_register(dst, order) && n_fields@ == fields@.map_values(|a: Variable| renamed_register(a, order)),
        IR::Call { dst, id, args } => n matches IR::Call { dst: n_dst, id: n_id, args: n_args } && n_dst == renamed_register(dst, order) && n_id == id && n_args@ == args@.map_values(|a: Variable| renamed_register(a, order)),
        IR::Load { dst, data } => n == (IR::Load { dst: renamed_register(dst, order), data }),
        IR::Unit { dst } => n == (IR::Unit { dst: renamed_register(dst, order) }),
        IR::Noop => n == IR::Noop,
    }
}

/// The registers `i` names, in the order new numbers are handed out.
fn named_registers_of(i: &IR) -> (out: Vec<u32>)
    ensures
        out@ == named_registers(*i),
{
    let mut out: Vec<u32> = Vec::new();
    match i {
        IR::Copy { dst, src } => {
            out.push(dst.0);
            out.push(src.0);
        },
        IR::Swap { v1, v2 } => {
            out.push(v1.0);
            out.push(v2.0);
        },
        IR::CastToI8 { dst, val } => {
            out.push(dst.0);
            out.push(val.0);
        },
        IR::CastToI16 { dst, val } => {
            out.push(dst.0);
            out.push(val.0);
        },
        IR::CastToI32 { dst, val } => {
            out.push(dst.0);
            out.push(val.0);
        },
        IR::CastToI64 { dst, val } => {
            out.push(dst.0);
            out.push(val.0);
        },
        IR::CastToU8 { dst, val } => {
            out.push(dst.0);
            out.push(val.0);
        },
        IR::CastToU16 { dst, val } => {
            out.push(dst.0);
            out.push(val.0);
        },
        IR::CastToU32 { dst, val } => {
            out.push(dst.0);
            out.push(val.0);
        },
        IR::CastToU64 { dst, val } => {
            out.push(dst.0);
            out.push(val.0);
        },
        IR::CastToFloat { dst, val } => {
            out.push(dst.0);
            out.push(val.0);
        },
        IR::AccStruct { dst, val, .. } => {
            out.push(dst.0);
            out.push(val.0);
        },
        IR::SetField { dst, data, .. } => {
            out.push(dst.0);
            out.push(data.0);
        },
        IR::UnaryNot { dst, val } => {
            out.push(dst.0);
            out.push(val.0);
        },
        IR::UnaryNeg { dst, val } => {
            out.push(dst.0);
            out.push(val.0);
        },
        IR::Add { dst, left, right } => {
            out.push(dst.0);
            out.push(left.0);
            out.push(right.0);
        },
        IR::Subtract { dst, left, right } => {
            out.push(dst.0);
            out.push(left.0);
            out.push(right.0);
        },
        IR::Multiply { dst, left, right } => {
            out.push(dst.0);
            out.push(left.0);
            out.push(right.0);
        },
        IR::Divide { dst, left, right } => {
            out.push(dst.0);
            out.push(left.0);
            out.push(right.0);
        },
        IR::Modulo { dst, left, right } => {
            out.push(dst.0);
            out.push(left.0);
            out.push(right.0);
        },
        IR::Equals { dst, left, right } => {
            out.push(dst.0);
            out.push(left.0);
            out.push(right.0);
        },
        IR::NotEquals { dst, left, right } => {
            out.push(dst.0);
            out.push(left.0);
            out.push(right.0);
        },
        IR::GreaterThan { dst, left, right } => {
            out.push(dst.0);
            out.push(left.0);
            out.push(right.0);
        },
        IR::LesserThan { dst, left, right } => {
            out.push(dst.0);
            out.push(left.0);
            out.push(right.0);
        },
        IR::GreaterEquals { dst, left, right } => {
            out.push(dst.0);
            out.push(left.0);
            out.push(right.0);
        },
        IR::LesserEquals { dst, left, right } => {
            out.push(dst.0);
            out.push(left.0);
            out.push(right.0);
        },
        IR::ExtCall { dst, args, .. } => {
            out.push(dst.0);
            push_register_numbers(&mut out, args);
        },
        IR::Struct { dst, fields } => {
            out.push(dst.0);
            push_register_numbers(&mut out, fields);
        },
        IR::Call { dst, args, .. } => {
            out.push(dst.0);
            push_register_numbers(&mut out, args);
        },
        IR::Load { dst, .. } => {
            out.push(dst.0);
        },
        IR::Unit { dst } => {
            out.push(dst.0);
        },
        IR::Noop => {},
    }
    proof {
        assert(out@ =~= named_registers(*i));
    }
    out
}

/// `i` with every register renamed by `order`.
fn rename_ir(i: IR, order: &Vec<u32>) -> (r: IR)
    requires
        order@.no_duplicates(),
        order@.len() < u32::MAX,
        forall|k: int| 0 <= k < named_registers(i).len() ==> order@.contains(#[trigger] named_registers(i)[k]),
    ensures
        renamed_ir(i, r, order@),
{
    proof {
        if named_registers(i).len() > 0 {
            assert(order@.contains(named_registers(i)[0]));
        }
        if named_registers(i).len() > 1 {
            assert(order@.contains(named_registers(i)[1]));
        }
        if named_registers(i).len() > 2 {
            assert(order@.contains(named_registers(i)[2]));
        }
    }
    match i {
        IR::Copy { dst, src } => IR::Copy { dst: rename_register(dst, order), src: rename_register(src, order) },
        IR::Swap { v1, v2 } => IR::Swap { v1: rename_register(v1, order), v2: rename_register(v2, order) },
        IR::CastToI8 { dst, val } => IR::CastToI8 { dst: rename_register(dst, order), val: rename_register(val, order) },
        IR::CastToI16 { dst, val } => IR::CastToI16 { dst: rename_register(dst, order), val: rename_register(val, order) },
        IR::CastToI32 { dst, val } => IR::CastToI32 { dst: rename_register(dst, order), val: rename_register(val, order) },
        IR::CastToI64 { dst, val } => IR::CastToI64 { dst: rename_register(dst, order), val: rename_register(val, order) },
        IR::CastToU8 { dst, val } => IR::CastToU8 { dst: rename_register(dst, order), val: rename_register(val, order) },
        IR::CastToU16 { dst, val } => IR::CastToU16 { dst: rename_register(dst, order), val: rename_register(val, order) },
        IR::CastToU32 { dst, val } => IR::CastToU32 { dst: rename_register(dst, order), val: rename_register(val, order) },
        IR::CastToU64 { dst, val } => IR::CastToU64 { dst: rename_register(dst, order), val: rename_register(val, order) },
        IR::CastToFloat { dst, val } => IR::CastToFloat { dst: rename_register(dst, order), val: rename_register(val, order) },
        IR::AccStruct { dst, val, index } => IR::AccStruct { dst: rename_register(dst, order), val: rename_register(val, order), index },
        IR::SetField { dst, data, index } => IR::SetField { dst: rename_register(dst, order), data: rename_register(data, order), index },
        IR::UnaryNot { dst, val } => IR::UnaryNot { dst: rename_register(dst, order), val: rename_register(val, order) },
        IR::UnaryNeg { dst, val } => IR::UnaryNeg { dst: rename_register(dst, order), val: rename_register(val, order) },
        IR::Add { dst, left, right } => IR::Add { dst: rename_register(dst, order), left: rename_register(left, order), right: rename_register(right, order) },
        IR::Subtract { dst, left, right } => IR::Subtract { dst: rename_register(dst, order), left: rename_register(left, order), right: rename_register(right, order) },
        IR::Multiply { dst, left, right } => IR::Multiply { dst: rename_register(dst, order), left: rename_register(left, order), right: rename_register(right, order) },
        IR::Divide { dst, left, right } => IR::Divide { dst: rename_register(dst, order), left: rename_register(left, order), right: rename_register(right, order) },
        IR::Modulo { dst, left, right } => IR::Modulo { dst: rename_register(dst, order), left: rename_register(left, order), right: rename_register(right, order) },
        IR::Equals { dst, left, right } => IR::Equals { dst: rename_register(dst, order), left: rename_register(left, order), right: rename_register(right, order) },
        IR::NotEquals { dst, left, right } => IR::NotEquals { dst: rename_register(dst, order), left: rename_register(left, order), right: rename_register(right, order) },
        IR::GreaterThan { dst, left, right } => IR::GreaterThan { dst: rename_register(dst, order), left: rename_register(left, order), right: rename_register(right, order) },
        IR::LesserThan { dst, left, right } => IR::LesserThan { dst: rename_register(dst, order), left: rename_register(left, order), right: rename_register(right, order) },
        IR::GreaterEquals { dst, left, right } => IR::GreaterEquals { dst: rename_register(dst, order), left: rename_register(left, order), right: rename_register(right, order) },
        IR::LesserEquals { dst, left, right } => IR::LesserEquals { dst: rename_register(dst, order), left: rename_register(left, order), right: rename_register(right, order) },
        IR::ExtCall { dst, id, args } => {
            proof {
                assert(named_registers(IR::ExtCall { dst, id, args })[0] == dst.0);
                assert forall|j: int| 0 <= j < args@.len() implies order@.contains(#[trigger] args@[j].0) by {
                    assert(named_registers(IR::ExtCall { dst, id, args })[1 + j] == args@[j].0);
                }
            }
            IR::ExtCall { dst: rename_register(dst, order), id, args: rename_registers(args, order) }
        },
        IR::Struct { dst, fields } => {
            proof {
                assert(named_registers(IR::Struct { dst, fields })[0] == dst.0);
                assert forall|j: int| 0 <= j < fields@.len() implies order@.contains(#[trigger] fields@[j].0) by {
                    assert(named_registers(IR::Struct { dst, fields })[1 + j] == fields@[j].0);
                }
            }
            IR::Struct { dst: rename_register(dst, order), fields: rename_registers(fields, order) }
        },
        IR::Call { dst, id, args } => {
            proof {
                assert(named_registers(IR::Call { dst, id, args })[0] == dst.0);
                assert forall|j: int| 0 <= j < args@.len() implies order@.contains(#[trigger] args@[j].0) by {
                    assert(named_registers(IR::Call { dst, id, args })[1 + j] == args@[j].0);
                }
            }
            IR::Call { dst: rename_register(dst, order), id, args: rename_registers(args, order) }
        },
        IR::Load { dst, data } => IR::Load { dst: rename_register(dst, order), data },
        IR::Unit { dst } => IR::Unit { dst: rename_register(dst, order) },
        IR::Noop => IR::Noop,
    }
}


/// The registers a run of instructions names, in order, with repeats.
pub open spec fn instr_registers(s: Seq<IR>) -> Seq<u32>
    decreases s.len(),
{
    if s.len() == 0 {
        Seq::empty()
    } else {
        instr_registers(s.drop_last()) + named_registers(s.last())
    }
}

/// The register a terminator names, if any.
pub open spec fn ending_registers(t: BlockTerminator) -> Seq<u32> {
    match t {
        BlockTerminator::SwitchBool { cond, .. } => seq![cond.0],
        _ => Seq::empty(),
    }
}

/// The registers a run of blocks names, in order, with repeats.
pub open spec fn blocks_registers(bs: Seq<BlockShape>) -> Seq<u32>
    decreases bs.len(),
{
    if bs.len() == 0 {
        Seq::empty()
    } else {
        blocks_registers(bs.drop_last()) + instr_registers(bs.last().instructions) + ending_registers(bs.last().ending)
    }
}

/// The return register and the argument registers, which keep their
/// numbers.
pub open spec fn argument_registers(argc: nat) -> Seq<u32> {
    Seq::new(argc + 1, |i: int| i as u32)
}

/// The registers of a function in the order they get their new numbers:
/// the return register and the arguments first, then every other one
/// where it is first named.
pub open spec fn register_order(argc: nat, bs: Seq<BlockShape>) -> Seq<u32> {
    first_seen(argument_registers(argc) + blocks_registers(bs))
}

/// A terminator with its register renamed by `order`.
pub open spec fn renamed_ending(t: BlockTerminator, order: Seq<u32>) -> BlockTerminator {
    match t {
        BlockTerminator::SwitchBool { cond, op1, op2 } => BlockTerminator::SwitchBool { cond: renamed_register(cond, order), op1, op2 },
        _ => t,
    }
}

/// `n` is `o` with every register renamed by `order`.
pub open spec fn registers_renamed(o: Seq<BlockShape>, n: Seq<BlockShape>, order: Seq<u32>) -> bool {
    &&& n.len() == o.len()
    &&& forall|b: int| 0 <= b < o.len() ==> {
        &&& (#[trigger] n[b]).index == o[b].index
        &&& n[b].ending == renamed_ending(o[b].ending, order)
        &&& n[b].instructions.len() == o[b].instructions.len()
        &&& forall|k: int| 0 <= k < o[b].instructions.len() ==> renamed_ir(o[b].instructions[k], #[trigger] n[b].instructions[k], order)
    }
}

fn note_reg(used: &mut Vec<u32>, x: u32, Ghost(seen): Ghost<Seq<u32>>)
    requires
        old(used)@ == first_seen(seen),
    ensures
        final(used)@ == first_seen(seen.push(x)),
{
    proof {
        assert(seen.push(x).drop_last() =~= seen);
        assert(seen.push(x).last() == x);
    }
    match position(used, x) {
        Some(_) => {},
        None => {
            used.push(x);
        },
    }
}

fn note_regs(used: &mut Vec<u32>, xs: &Vec<u32>, Ghost(seen): Ghost<Seq<u32>>)
    requires
        old(used)@ == first_seen(seen),
    ensures
        final(used)@ == first_seen(seen + xs@),
{
    let mut j: usize = 0;
    proof {
        assert(seen + xs@.take(0) =~= seen);
    }
    while j < xs.len()
        invariant
            j <= xs@.len(),
            used@ == first_seen(seen + xs@.take(j as int)),
        decreases xs@.len() - j,
    {
        note_reg(used, xs[j], Ghost(seen + xs@.take(j as int)));
        proof {
            assert((seen + xs@.take(j as int)).push(xs@[j as int]) =~= seen + xs@.take(j as int + 1));
        }
        j = j + 1;
    }
    proof {
        assert(xs@.take(xs@.len() as int) =~= xs@);
    }
}

proof fn lemma_instr_registers_step(s: Seq<IR>, k: int)
    requires
        0 <= k < s.len(),
    ensures
        instr_registers(s.take(k + 1)) == instr_registers(s.take(k)) + named_registers(s[k]),
{
    assert(s.take(k + 1).drop_last() =~= s.take(k));
    assert(s.take(k + 1).last() == s[k]);
}

/// The registers of `f` in the order they get their new numbers.
fn register_order_of(f: &Function) -> (order: Vec<u32>)
    requires
        f.argument_count < u32::MAX,
    ensures
        order@ == register_order(f.argument_count as nat, shapes(f.blocks@)),
{
    let argc = f.argument_count;
    let ghost args = argument_registers(argc as nat);
    let mut order: Vec<u32> = Vec::new();
    let mut a: usize = 0;
    proof {
        assert(args.take(0) =~= Seq::<u32>::empty());
        assert(first_seen(Seq::<u32>::empty()) =~= Seq::<u32>::empty());
    }
    while a <= argc
        invariant
            argc == f.argument_count,
            argc < u32::MAX,
            a <= argc + 1,
            args == argument_registers(argc as nat),
            order@ == first_seen(args.take(a as int)),
        decreases argc + 1 - a,
    {
        note_reg(&mut order, a as u32, Ghost(args.take(a as int)));
        proof {
            assert(args.take(a as int).push(a as u32) =~= args.take(a as int + 1));
        }
        a = a + 1;
    }
    let ghost sh = shapes(f.blocks@);
    proof {
        assert(args.take(argc as int + 1) =~= args);
        assert(sh.take(0) =~= Seq::<BlockShape>::empty());
        assert(args + blocks_registers(Seq::<BlockShape>::empty()) =~= args);
    }
    let nb = f.blocks.len();
    let mut b: usize = 0;
    while b < nb
        invariant
            nb == f.blocks@.len(),
            b <= nb,
            sh == shapes(f.blocks@),
            order@ == first_seen(args + blocks_registers(sh.take(b as int))),
        decreases nb - b,
    {
        let instrs = &f.blocks[b].instructions;
        let ghost pre = args + blocks_registers(sh.take(b as int));
        let m = instrs.len();
        let mut k: usize = 0;
        proof {
            assert(instrs@.take(0) =~= Seq::<IR>::empty());
            assert(pre + instr_registers(Seq::<IR>::empty()) =~= pre);
        }
        while k < m
            invariant
                m == instrs@.len(),
                k <= m,
                order@ == first_seen(pre + instr_registers(instrs@.take(k as int))),
            decreases m - k,
        {
            let rs = named_registers_of(&instrs[k]);
            note_regs(&mut order, &rs, Ghost(pre + instr_registers(instrs@.take(k as int))));
            proof {
                lemma_instr_registers_step(instrs@, k as int);
                assert(pre + instr_registers(instrs@.take(k as int)) + rs@ =~= pre + instr_registers(instrs@.take(k as int + 1)));
            }
            k = k + 1;
        }
        let ghost mid = pre + instr_registers(instrs@);
        proof {
            assert(instrs@.take(m as int) =~= instrs@);
        }
        match &f.blocks[b].ending {
            BlockTerminator::SwitchBool { cond, .. } => {
                note_reg(&mut order, cond.0, Ghost(mid));
                proof {
                    assert(mid.push(cond.0) =~= mid + ending_registers(f.blocks@[b as int].ending));
                }
            },
            _ => {
                proof {
                    assert(mid =~= mid + ending_registers(f.blocks@[b as int].ending));
                }
            },
        }
        proof {
            let t = sh.take(b as int + 1);
            assert(t.drop_last() =~= sh.take(b as int));
            assert(t.last() == sh[b as int]);
            assert(sh[b as int] == shape(f.blocks@[b as int]));
            assert(mid + ending_registers(f.blocks@[b as int].ending) =~= args + blocks_registers(t));
        }
        b = b + 1;
    }
    proof {
        assert(sh.take(nb as int) =~= sh);
    }
    order
}

proof fn lemma_instr_registers_contains(s: Seq<IR>, k: int, j: int)
    requires
        0 <= k < s.len(),
        0 <= j < named_registers(s[k]).len(),
    ensures
        instr_registers(s).contains(named_registers(s[k])[j]),
    decreases s.len(),
{
    let p = s.drop_last();
    if k < s.len() - 1 {
        assert(p[k] == s[k]);
        lemma_instr_registers_contains(p, k, j);
        let w = choose|w: int| 0 <= w < instr_registers(p).len() && instr_registers(p)[w] == named_registers(s[k])[j];
        assert(instr_registers(s)[w] == named_registers(s[k])[j]);
    } else {
        assert(instr_registers(s)[instr_registers(p).len() + j] == named_registers(s[k])[j]);
    }
}

proof fn lemma_blocks_registers_contains(bs: Seq<BlockShape>, b: int, x: u32)
    requires
        0 <= b < bs.len(),
        (instr_registers(bs[b].instructions) + ending_registers(bs[b].ending)).contains(x),
    ensures
        blocks_registers(bs).contains(x),
    decreases bs.len(),
{
    let p = bs.drop_last();
    if b < bs.len() - 1 {
        assert(p[b] == bs[b]);
        lemma_blocks_registers_contains(p, b, x);
        let w = choose|w: int| 0 <= w < blocks_registers(p).len() && blocks_registers(p)[w] == x;
        assert(blocks_registers(bs)[w] == x);
    } else {
        let tail = instr_registers(bs[b].instructions) + ending_registers(bs[b].ending);
        let w = choose|w: int| 0 <= w < tail.len() && tail[w] == x;
        assert(blocks_registers(bs) =~= blocks_registers(p) + tail);
        assert(blocks_registers(bs)[blocks_registers(p).len() + w] == x);
    }
}

impl Function {
    /// Renames the registers densely: the return register and the
    /// arguments keep their numbers, every other register is numbered by
    /// where it is first named, blocks and instructions in order (an
    /// instruction's destination before its operands, a block's
    /// instructions before its terminator).
    pub fn remove_unused_registers(&mut self)
        requires
            old(self).argument_count < u32::MAX,
            register_order(old(self).argument_count as nat, shapes(old(self).blocks@)).len() < u32::MAX,
        ensures
            registers_renamed(
                shapes(old(self).blocks@),
                shapes(final(self).blocks@),
                register_order(old(self).argument_count as nat, shapes(old(self).blocks@)),
            ),
            final(self).identifier == old(self).identifier,
            final(self).function_index == old(self).function_index,
            final(self).argument_count == old(self).argument_count,
            final(self).variable_counter == old(self).variable_counter,
            final(self).stack_size == old(self).stack_size,
            final(self).entry == old(self).entry,
    {
        let order = register_order_of(self);
        let ghost sh = shapes(self.blocks@);
        let ghost all = argument_registers(self.argument_count as nat) + blocks_registers(sh);
        proof {
            lemma_first_seen(all);
        }
        let nb = self.blocks.len();
        let mut b: usize = 0;
        while b < nb
            invariant
                nb == self.blocks@.len(),
                nb == sh.len(),
                b <= nb,
                sh == shapes(old(self).blocks@),
                all == argument_registers(old(self).argument_count as nat) + blocks_registers(sh),
                order@ == first_seen(all),
                order@.no_duplicates(),
                order@.len() < u32::MAX,
                forall|x: u32| order@.contains(x) <==> all.contains(x),
                forall|j: int| 0 <= j < b ==> {
                    &&& (#[trigger] shapes(self.blocks@)[j]).index == sh[j].index
                    &&& shapes(self.blocks@)[j].ending == renamed_ending(sh[j].ending, order@)
                    &&& shapes(self.blocks@)[j].instructions.len() == sh[j].instructions.len()
                    &&& forall|k: int| 0 <= k < sh[j].instructions.len() ==> renamed_ir(sh[j].instructions[k], #[trigger] shapes(self.blocks@)[j].instructions[k], order@)
                },
                forall|j: int| b <= j < nb ==> #[trigger] self.blocks@[j] == old(self).blocks@[j],
                self.identifier == old(self).identifier,
                self.function_index == old(self).function_index,
                self.argument_count == old(self).argument_count,
                self.variable_counter == old(self).variable_counter,
                self.stack_size == old(self).stack_size,
                self.entry == old(self).entry,
            decreases nb - b,
        {
            let ghost sb = self.blocks@;
            let mut blk = Block { block_index: BlockIndex(0), instructions: Vec::new(), ending: BlockTerminator::Return };
            std::mem::swap(&mut blk, &mut self.blocks[b]);
            let ghost ob = blk;
            proof {
                assert(ob == old(self).blocks@[b as int]);
                assert(sh[b as int] == shape(ob));
            }
            let m = blk.instructions.len();
            let mut k: usize = 0;
            while k < m
                invariant
                    m == blk.instructions@.len(),
                    m == ob.instructions@.len(),
                    k <= m,
                    0 <= b < sh.len(),
                    sh[b as int] == shape(ob),
                    order@.no_duplicates(),
                    order@.len() < u32::MAX,
                    forall|x: u32| order@.contains(x) <==> all.contains(x),
                    all == argument_registers(old(self).argument_count as nat) + blocks_registers(sh),
                    forall|j: int| 0 <= j < k ==> renamed_ir(ob.instructions@[j], #[trigger] blk.instructions@[j], order@),
                    forall|j: int| k <= j < m ==> #[trigger] blk.instructions@[j] == ob.instructions@[j],
                    blk.block_index == ob.block_index,
                    blk.ending == ob.ending,
                decreases m - k,
            {
                let mut cur = IR::Noop;
                std::mem::swap(&mut cur, &mut blk.instructions[k]);
                proof {
                    assert(cur == ob.instructions@[k as int]);
                    assert forall|j: int| 0 <= j < named_registers(cur).len() implies order@.contains(#[trigger] named_registers(cur)[j]) by {
                        lemma_instr_registers_contains(ob.instructions@, k as int, j);
                        let x = named_registers(cur)[j];
                        assert((instr_registers(sh[b as int].instructions) + ending_registers(sh[b as int].ending)).contains(x)) by {
                            let w = choose|w: int| 0 <= w < instr_registers(ob.instructions@).len() && instr_registers(ob.instructions@)[w] == x;
                            assert((instr_registers(sh[b as int].instructions) + ending_registers(sh[b as int].ending))[w] == x);
                        }
                        lemma_blocks_registers_contains(sh, b as int, x);
                        let w = choose|w: int| 0 <= w < blocks_registers(sh).len() && blocks_registers(sh)[w] == x;
                        assert(all[argument_registers(old(self).argument_count as nat).len() + w] == x);
                        assert(all.contains(x));
                    }
                }
                let next = rename_ir(cur, &order);
                blk.instructions.set(k, next);
                k = k + 1;
            }
            match blk.ending {
                BlockTerminator::SwitchBool { cond, op1, op2 } => {
                    proof {
                        let x = cond.0;
                        let tail = instr_registers(sh[b as int].instructions) + ending_registers(sh[b as int].ending);
                        assert(tail[instr_registers(sh[b as int].instructions).len() as int] == x);
                        lemma_blocks_registers_contains(sh, b as int, x);
                        let w = choose|w: int| 0 <= w < blocks_registers(sh).len() && blocks_registers(sh)[w] == x;
                        assert(all[argument_registers(old(self).argument_count as nat).len() + w] == x);
                        assert(all.contains(x));
                    }
                    let c = rename_register(cond, &order);
                    blk.ending = BlockTerminator::SwitchBool { cond: c, op1, op2 };
                },
                _ => {},
            }
            let ghost nbk = blk;
            let ghost before = self.blocks@;
            proof {
                assert(nbk.block_index == sh[b as int].index);
                assert(nbk.ending == renamed_ending(sh[b as int].ending, order@));
                assert(nbk.instructions@.len() == sh[b as int].instructions.len());
                assert forall|k: int| 0 <= k < sh[b as int].instructions.len() implies renamed_ir(sh[b as int].instructions[k], #[trigger] nbk.instructions@[k], order@) by {
                    assert(sh[b as int].instructions[k] == ob.instructions@[k]);
                }
            }
            self.blocks.set(b, blk);
            proof {
                assert(shapes(self.blocks@)[b as int] == shape(nbk));
                assert forall|j: int| 0 <= j < b implies #[trigger] shapes(self.blocks@)[j] == shapes(before)[j] by {
                    assert(self.blocks@[j] == before[j]);
                }
                assert forall|j: int| 0 <= j < b + 1 implies {
                    &&& (#[trigger] shapes(self.blocks@)[j]).index == sh[j].index
                    &&& shapes(self.blocks@)[j].ending == renamed_ending(sh[j].ending, order@)
                    &&& shapes(self.blocks@)[j].instructions.len() == sh[j].instructions.len()
                    &&& forall|k: int| 0 <= k < sh[j].instructions.len() ==> renamed_ir(sh[j].instructions[k], #[trigger] shapes(self.blocks@)[j].instructions[k], order@)
                } by {
                    if j == b {
                        assert(shapes(self.blocks@)[j] == shape(nbk));
                    } else {
                        assert(self.blocks@[j] == sb[j]);
                        assert(shapes(self.blocks@)[j] == shapes(sb)[j]);
                    }
                }
            }
            b = b + 1;
        }
        proof {
            assert(shapes(self.blocks@).len() == sh.len());
        }
    }
}


impl ConversionState {
    /// Renames the registers of every function densely.
    fn rename_registers_everywhere(&mut self)
        requires
            forall|k: usize| #[trigger] old(self).functions@.contains_key(k) ==> old(self).functions@[k].argument_count < u32::MAX
                && register_order(old(self).functions@[k].argument_count as nat, shapes(old(self).functions@[k].blocks@)).len() < u32::MAX,
        ensures
            final(self).functions@.dom() == old(self).functions@.dom(),
            forall|k: usize| #[trigger] old(self).functions@.contains_key(k) ==> {
                &&& registers_renamed(
                    shapes(old(self).functions@[k].blocks@),
                    shapes(final(self).functions@[k].blocks@),
                    register_order(old(self).functions@[k].argument_count as nat, shapes(old(self).functions@[k].blocks@)),
                )
                &&& final(self).functions@[k].entry == old(self).functions@[k].entry
                &&& final(self).functions@[k].identifier == old(self).functions@[k].identifier
                &&& final(self).functions@[k].function_index == old(self).functions@[k].function_index
                &&& final(self).functions@[k].argument_count == old(self).functions@[k].argument_count
                &&& final(self).functions@[k].variable_counter == old(self).functions@[k].variable_counter
                &&& final(self).functions@[k].stack_size == old(self).functions@[k].stack_size
            },
            final(self).extern_functions == old(self).extern_functions,
            final(self).constants == old(self).constants,
            final(self).function_counter == old(self).function_counter,
            final(self).extern_counter == old(self).extern_counter,
            final(self).symbol_table == old(self).symbol_table,
    {
        let ghost s0 = *self;
        let keys = function_keys(&self.functions);
        let n = keys.len();
        let mut i: usize = 0;
        while i < n
            invariant
                n == keys@.len(),
                i <= n,
                ascending(keys@),
                keys@.to_set() == s0.functions@.dom(),
                forall|k: usize| #[trigger] s0.functions@.contains_key(k) ==> s0.functions@[k].argument_count < u32::MAX
                    && register_order(s0.functions@[k].argument_count as nat, shapes(s0.functions@[k].blocks@)).len() < u32::MAX,
                self.functions@.dom() == s0.functions@.dom(),
                forall|j: int| 0 <= j < i ==> {
                    let o = s0.functions@[keys@[j]];
                    let f = #[trigger] self.functions@[keys@[j]];
                    &&& registers_renamed(shapes(o.blocks@), shapes(f.blocks@), register_order(o.argument_count as nat, shapes(o.blocks@)))
                    &&& f.entry == o.entry
                    &&& f.identifier == o.identifier
                    &&& f.function_index == o.function_index
                    &&& f.argument_count == o.argument_count
                    &&& f.variable_counter == o.variable_counter
                    &&& f.stack_size == o.stack_size
                },
                forall|j: int| i <= j < n ==> #[trigger] self.functions@[keys@[j]] == s0.functions@[keys@[j]],
                self.extern_functions == s0.extern_functions,
                self.constants == s0.constants,
                self.function_counter == s0.function_counter,
                self.extern_counter == s0.extern_counter,
                self.symbol_table == s0.symbol_table,
            decreases n - i,
        {
            let key = keys[i];
            let ghost before = self.functions@;
            proof {
                assert(keys@.to_set().contains(keys@[i as int]));
                assert(self.functions@[keys@[i as int]] == s0.functions@[keys@[i as int]]);
                assert forall|j: int| 0 <= j < n && j != i implies keys@[j] != keys@[i as int] by {
                    if j < i { assert(keys@[j] < keys@[i as int]); } else { assert(keys@[i as int] < keys@[j]); }
                }
            }
            let mut f = self.functions.remove(&key).unwrap();
            f.remove_unused_registers();
            self.functions.insert(key, f);
            proof {
                assert(self.functions@.dom() =~= s0.functions@.dom());
                assert forall|j: int| 0 <= j < i + 1 implies {
                    let o = s0.functions@[keys@[j]];
                    let f = #[trigger] self.functions@[keys@[j]];
                    &&& registers_renamed(shapes(o.blocks@), shapes(f.blocks@), register_order(o.argument_count as nat, shapes(o.blocks@)))
                    &&& f.entry == o.entry
                    &&& f.identifier == o.identifier
                    &&& f.function_index == o.function_index
                    &&& f.argument_count == o.argument_count
                    &&& f.variable_counter == o.variable_counter
                    &&& f.stack_size == o.stack_size
                } by {
                    if j < i {
                        assert(self.functions@[keys@[j]] == before[keys@[j]]);
                    }
                }
                assert forall|j: int| i + 1 <= j < n implies #[trigger] self.functions@[keys@[j]] == s0.functions@[keys@[j]] by {
                    assert(self.functions@[keys@[j]] == before[keys@[j]]);
                }
            }
            i = i + 1;
        }
        proof {
            assert forall|k: usize| #[trigger] s0.functions@.contains_key(k) implies {
                &&& registers_renamed(
                    shapes(s0.functions@[k].blocks@),
                    shapes(self.functions@[k].blocks@),
                    register_order(s0.functions@[k].argument_count as nat, shapes(s0.functions@[k].blocks@)),
                )
                &&& self.functions@[k].entry == s0.functions@[k].entry
                &&& self.functions@[k].identifier == s0.functions@[k].identifier
                &&& self.functions@[k].function_index == s0.functions@[k].function_index
                &&& self.functions@[k].argument_count == s0.functions@[k].argument_count
                &&& self.functions@[k].variable_counter == s0.functions@[k].variable_counter
                &&& self.functions@[k].stack_size == s0.functions@[k].stack_size
            } by {
                assert(keys@.to_set().contains(k));
                let j = choose|j: int| 0 <= j < keys@.len() && keys@[j] == k;
                assert(self.functions@[keys@[j]] == self.functions@[k]);
            }
        }
    }
}

} // verus!
