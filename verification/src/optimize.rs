//! The optimizer of a function's blocks: it drops the blocks that the entry
//! cannot reach, merges a block into the single block that jumps to it,
//! folds a copy into the instruction that computed its source, drops moves
//! of a register to itself, and numbers the blocks by their position.
use vstd::prelude::*;
use crate::ir::{Block, BlockIndex, BlockTerminator, Function, IR, Variable, used_registers};
use crate::codegen::lowered_opcode;

verus! {

/// A block as the specifications see it.
pub struct BlockShape {
    pub index: BlockIndex,
    pub instructions: Seq<IR>,
    pub ending: BlockTerminator,
}

pub open spec fn shape(b: Block) -> BlockShape {
    BlockShape { index: b.block_index, instructions: b.instructions@, ending: b.ending }
}

pub open spec fn shapes(bs: Seq<Block>) -> Seq<BlockShape> {
    bs.map_values(|b: Block| shape(b))
}

/// The blocks a terminator hands control to, in the order they are
/// pushed on the search stack.
pub open spec fn targets(t: BlockTerminator) -> Seq<BlockIndex> {
    match t {
        BlockTerminator::Goto(v) => seq![v],
        BlockTerminator::SwitchBool { op1, op2, .. } => seq![op1, op2],
        BlockTerminator::Return => seq![],
    }
}

/// Some block is numbered `id`.
pub open spec fn has_index(bs: Seq<BlockShape>, id: BlockIndex) -> bool {
    exists|k: int| 0 <= k < bs.len() && #[trigger] bs[k].index == id
}

/// The first position from `k` on of a block numbered `id`.
pub open spec fn position_from(bs: Seq<BlockShape>, id: BlockIndex, k: int) -> Option<int>
    decreases bs.len() - k,
{
    if k < 0 || k >= bs.len() {
        None
    } else if bs[k].index == id {
        Some(k)
    } else {
        position_from(bs, id, k + 1)
    }
}

/// The first position of a block numbered `id`.
pub open spec fn position(bs: Seq<BlockShape>, id: BlockIndex) -> Option<int> {
    position_from(bs, id, 0)
}

/// Every terminator names a block that exists.
pub open spec fn targets_exist(bs: Seq<BlockShape>) -> bool {
    forall|k: int, t: int| 0 <= k < bs.len() && 0 <= t < targets(bs[k].ending).len()
        ==> has_index(bs, #[trigger] targets(bs[k].ending)[t])
}

/// No two blocks share a number.
pub open spec fn unique_indices(bs: Seq<BlockShape>) -> bool {
    forall|j: int, k: int| 0 <= j < bs.len() && 0 <= k < bs.len() && j != k ==> #[trigger] bs[j].index != #[trigger] bs[k].index
}

/// The blocks that a depth-first search from `stack` takes out of `rest`,
/// after those already in `out`, in the order it reaches them: the top of
/// the stack is looked at first, a block found is moved to the end of
/// `out` and its targets pushed. `None` where a target names no block.
pub open spec fn live_blocks(rest: Seq<BlockShape>, stack: Seq<BlockIndex>, out: Seq<BlockShape>) -> Option<Seq<BlockShape>>
    decreases rest.len(), stack.len(),
{
    if stack.len() == 0 {
        Some(out)
    } else {
        let id = stack.last();
        if has_index(out, id) {
            live_blocks(rest, stack.drop_last(), out)
        } else {
            match position(rest, id) {
                None => None,
                Some(p) => {
                    proof {
                        lemma_position_from(rest, id, 0);
                    }
                    live_blocks(rest.remove(p), stack.drop_last() + targets(rest[p].ending), out.push(rest[p]))
                },
            }
        }
    }
}

pub proof fn lemma_position_from(bs: Seq<BlockShape>, id: BlockIndex, k: int)
    ensures
        position_from(bs, id, k) matches Some(p) ==> k <= p < bs.len() && bs[p].index == id
            && forall|j: int| k <= j < p ==> bs[j].index != id,
        position_from(bs, id, k) is None && 0 <= k ==> forall|j: int| k <= j < bs.len() ==> bs[j].index != id,
    decreases bs.len() - k,
{
    if 0 <= k < bs.len() && bs[k].index != id {
        lemma_position_from(bs, id, k + 1);
    }
}

/// `position` finds a block exactly where one is numbered `id`.
pub proof fn lemma_position(bs: Seq<BlockShape>, id: BlockIndex)
    ensures
        position(bs, id) matches Some(p) ==> 0 <= p < bs.len() && bs[p].index == id
            && forall|j: int| 0 <= j < p ==> bs[j].index != id,
        position(bs, id) is Some <==> has_index(bs, id),
{
    lemma_position_from(bs, id, 0);
    if position(bs, id) is None {
        if has_index(bs, id) {
            let k = choose|k: int| 0 <= k < bs.len() && #[trigger] bs[k].index == id;
            assert(bs[k].index != id);
        }
    }
}

/// The index of the block numbered `id` in `bs`, found by a scan.
fn find_position(bs: &Vec<Block>, id: BlockIndex) -> (r: Option<usize>)
    ensures
        r matches Some(p) ==> position(shapes(bs@), id) == Some(p as int),
        r is None ==> position(shapes(bs@), id) is None,
{
    let ghost s = shapes(bs@);
    proof {
        lemma_position(s, id);
    }
    let mut k: usize = 0;
    while k < bs.len()
        invariant
            k <= bs@.len(),
            s == shapes(bs@),
            forall|j: int| 0 <= j < k ==> s[j].index != id,
            position(s, id) matches Some(p) ==> 0 <= p < s.len() && s[p].index == id
                && forall|j: int| 0 <= j < p ==> s[j].index != id,
            position(s, id) is Some <==> has_index(s, id),
        decreases bs@.len() - k,
    {
        if bs[k].block_index == id {
            assert(s[k as int].index == id);
            proof {
                if let Some(p) = position(s, id) {
                    assert(p == k);
                }
            }
            return Some(k);
        }
        k = k + 1;
    }
    proof {
        if has_index(s, id) {
            let j = choose|j: int| 0 <= j < s.len() && #[trigger] s[j].index == id;
            assert(s[j].index != id);
        }
    }
    None
}

/// Whether some block of `bs` is numbered `id`.
fn contains_index(bs: &Vec<Block>, id: BlockIndex) -> (r: bool)
    ensures
        r == has_index(shapes(bs@), id),
{
    let p = find_position(bs, id);
    proof {
        lemma_position(shapes(bs@), id);
    }
    p.is_some()
}

/// The blocks that the entry reaches, in the order a depth-first search
/// meets them, each as it was.
fn remove_dead_blocks(blocks: Vec<Block>, entry: BlockIndex) -> (r: Vec<Block>)
    requires
        targets_exist(shapes(blocks@)),
        has_index(shapes(blocks@), entry),
    ensures
        live_blocks(shapes(blocks@), seq![entry], seq![]) == Some(shapes(r@)),
        targets_exist(shapes(r@)),
        unique_indices(shapes(r@)),
{
    let ghost start = shapes(blocks@);
    let mut rest = blocks;
    proof {
        assert forall|k: int, t: int| 0 <= k < rest@.len() && 0 <= t < targets(shapes(rest@)[k].ending).len()
            implies has_index(shapes(Seq::<Block>::empty()), #[trigger] targets(shapes(rest@)[k].ending)[t])
                || has_index(shapes(rest@), targets(shapes(rest@)[k].ending)[t]) by {
        }
    }
    let mut stack: Vec<BlockIndex> = Vec::new();
    stack.push(entry);
    let mut out: Vec<Block> = Vec::new();
    proof {
        assert(shapes(out@) =~= Seq::<BlockShape>::empty());
    }
    while stack.len() > 0
        invariant
            live_blocks(start, seq![entry], seq![]) == live_blocks(shapes(rest@), stack@, shapes(out@)),
            forall|t: int| 0 <= t < stack@.len() ==> has_index(shapes(out@), #[trigger] stack@[t]) || has_index(shapes(rest@), stack@[t]),
            forall|k: int, t: int| 0 <= k < rest@.len() && 0 <= t < targets(shapes(rest@)[k].ending).len()
                ==> has_index(shapes(out@), #[trigger] targets(shapes(rest@)[k].ending)[t])
                    || has_index(shapes(rest@), targets(shapes(rest@)[k].ending)[t]),
            forall|k: int, t: int| 0 <= k < out@.len() && 0 <= t < targets(shapes(out@)[k].ending).len()
                ==> has_index(shapes(out@), #[trigger] targets(shapes(out@)[k].ending)[t])
                    || stack@.contains(targets(shapes(out@)[k].ending)[t]),
            unique_indices(shapes(out@)),
        decreases 3 * rest@.len() + stack@.len(),
    {
        let ghost rs = shapes(rest@);
        let ghost os = shapes(out@);
        let ghost st = stack@;
        let id = stack.pop().unwrap();
        assert(st.drop_last() =~= stack@);
        if contains_index(&out, id) {
            proof {
                assert forall|k: int, t: int| 0 <= k < out@.len() && 0 <= t < targets(shapes(out@)[k].ending).len()
                    implies has_index(shapes(out@), #[trigger] targets(shapes(out@)[k].ending)[t])
                        || stack@.contains(targets(shapes(out@)[k].ending)[t]) by {
                    let g = targets(os[k].ending)[t];
                    if !has_index(os, g) {
                        let i = choose|i: int| 0 <= i < st.len() && st[i] == g;
                        if i < st.len() - 1 {
                            assert(stack@[i] == g);
                        }
                    }
                }
                assert forall|t: int| 0 <= t < stack@.len() implies has_index(shapes(out@), #[trigger] stack@[t]) || has_index(shapes(rest@), stack@[t]) by {
                    assert(stack@[t] == st[t]);
                }
            }
            continue;
        }
        let found = find_position(&rest, id);
        let p = match found {
            Some(p) => p,
            None => {
                proof {
                    lemma_position(rs, id);
                    assert(st[st.len() - 1] == id);
                }
                assert(false);
                0
            },
        };
        proof {
            lemma_position(rs, id);
        }
        let block = rest.remove(p);
        let ghost b = shape(block);
        assert(b == rs[p as int]);
        let ending = block.ending;
        match ending {
            BlockTerminator::Goto(v) => {
                stack.push(v);
            },
            BlockTerminator::SwitchBool { op1, op2, .. } => {
                stack.push(op1);
                stack.push(op2);
            },
            BlockTerminator::Return => {},
        }
        out.push(block);
        proof {
            assert(stack@ =~= st.drop_last() + targets(ending));
            assert(shapes(rest@) =~= rs.remove(p as int));
            assert(shapes(out@) =~= os.push(b));
            lemma_moved_block(rs, os, st, p as int, id, shapes(rest@), shapes(out@), stack@);
        }
    }
    out
}

/// The search's invariant survives moving block `p` of `rs` to the end of
/// `os` and pushing its targets.
proof fn lemma_moved_block(rs: Seq<BlockShape>, os: Seq<BlockShape>, st: Seq<BlockIndex>, p: int, id: BlockIndex,
    rs2: Seq<BlockShape>, os2: Seq<BlockShape>, st2: Seq<BlockIndex>)
    requires
        0 <= p < rs.len(),
        rs[p].index == id,
        st.len() > 0,
        st.last() == id,
        !has_index(os, id),
        rs2 == rs.remove(p),
        os2 == os.push(rs[p]),
        st2 == st.drop_last() + targets(rs[p].ending),
        forall|t: int| 0 <= t < st.len() ==> has_index(os, #[trigger] st[t]) || has_index(rs, st[t]),
        forall|k: int, t: int| 0 <= k < rs.len() && 0 <= t < targets(rs[k].ending).len()
            ==> has_index(os, #[trigger] targets(rs[k].ending)[t]) || has_index(rs, targets(rs[k].ending)[t]),
        forall|k: int, t: int| 0 <= k < os.len() && 0 <= t < targets(os[k].ending).len()
            ==> has_index(os, #[trigger] targets(os[k].ending)[t]) || st.contains(targets(os[k].ending)[t]),
        unique_indices(os),
    ensures
        forall|t: int| 0 <= t < st2.len() ==> has_index(os2, #[trigger] st2[t]) || has_index(rs2, st2[t]),
        forall|k: int, t: int| 0 <= k < rs2.len() && 0 <= t < targets(rs2[k].ending).len()
            ==> has_index(os2, #[trigger] targets(rs2[k].ending)[t]) || has_index(rs2, targets(rs2[k].ending)[t]),
        forall|k: int, t: int| 0 <= k < os2.len() && 0 <= t < targets(os2[k].ending).len()
            ==> has_index(os2, #[trigger] targets(os2[k].ending)[t]) || st2.contains(targets(os2[k].ending)[t]),
        unique_indices(os2),
{
    // A number found in `rs` is still found in `rs2`, or it is `id`, which is now in `os2`.
    assert forall|g: BlockIndex| has_index(rs, g) implies has_index(os2, g) || has_index(rs2, g) by {
        let k = choose|k: int| 0 <= k < rs.len() && #[trigger] rs[k].index == g;
        if k < p {
            assert(rs2[k].index == g);
        } else if k > p {
            assert(rs2[k - 1].index == g);
        } else {
            assert(os2[os.len() as int].index == g);
        }
    }
    assert forall|g: BlockIndex| has_index(os, g) implies has_index(os2, g) by {
        let k = choose|k: int| 0 <= k < os.len() && #[trigger] os[k].index == g;
        assert(os2[k].index == g);
    }
    assert forall|t: int| 0 <= t < st2.len() implies has_index(os2, #[trigger] st2[t]) || has_index(rs2, st2[t]) by {
        if t < st.len() - 1 {
            assert(st2[t] == st[t]);
        } else {
            let u = t - (st.len() - 1);
            assert(st2[t] == targets(rs[p].ending)[u]);
        }
    }
    assert forall|k: int, t: int| 0 <= k < rs2.len() && 0 <= t < targets(rs2[k].ending).len()
        implies has_index(os2, #[trigger] targets(rs2[k].ending)[t]) || has_index(rs2, targets(rs2[k].ending)[t]) by {
        if k < p {
            assert(rs2[k] == rs[k]);
        } else {
            assert(rs2[k] == rs[k + 1]);
        }
    }
    assert forall|k: int, t: int| 0 <= k < os2.len() && 0 <= t < targets(os2[k].ending).len()
        implies has_index(os2, #[trigger] targets(os2[k].ending)[t]) || st2.contains(targets(os2[k].ending)[t]) by {
        let g = targets(os2[k].ending)[t];
        if k < os.len() {
            assert(os2[k] == os[k]);
            if !has_index(os, g) {
                let i = choose|i: int| 0 <= i < st.len() && st[i] == g;
                if i < st.len() - 1 {
                    assert(st2[i] == g);
                } else {
                    assert(os2[os.len() as int].index == g);
                }
            }
        } else {
            assert(st2[st.len() - 1 + t] == g);
        }
    }
    assert forall|j: int, k: int| 0 <= j < os2.len() && 0 <= k < os2.len() && j != k
        implies #[trigger] os2[j].index != #[trigger] os2[k].index by {
        if j == os.len() {
            assert(os2[k] == os[k]);
        } else if k == os.len() {
            assert(os2[j] == os[j]);
        }
    }
}

/// Some block not numbered `id` hands control to `g`.
pub open spec fn targeted_by_other(bs: Seq<BlockShape>, id: BlockIndex, g: BlockIndex) -> bool {
    exists|j: int| 0 <= j < bs.len() && bs[j].index != id && #[trigger] targets(bs[j].ending).contains(g)
}

/// Block `k` after merging: where it jumps to a block that no other block
/// hands control to, that block's instructions move to the end of block
/// `k`, whose terminator becomes that block's. Also whether a merge took
/// place.
pub open spec fn inline_one(bs: Seq<BlockShape>, k: int) -> (Seq<BlockShape>, bool) {
    match bs[k].ending {
        BlockTerminator::Goto(g) => if targeted_by_other(bs, bs[k].index, g) {
            (bs, false)
        } else {
            match position(bs, g) {
                None => (bs, false),
                Some(q) => if q == k {
                    (bs, true)
                } else {
                    let emptied = BlockShape { index: bs[q].index, instructions: Seq::empty(), ending: bs[q].ending };
                    let merged = BlockShape {
                        index: bs[k].index,
                        instructions: bs[k].instructions + bs[q].instructions,
                        ending: bs[q].ending,
                    };
                    (bs.update(q, emptied).update(k, merged), true)
                },
            }
        },
        _ => (bs, false),
    }
}

/// Blocks `0` to `n - 1` merged in turn, and whether any merge took place.
pub open spec fn inline_upto(bs: Seq<BlockShape>, n: nat) -> (Seq<BlockShape>, bool)
    decreases n,
{
    if n == 0 {
        (bs, false)
    } else {
        let (s, c) = inline_upto(bs, (n - 1) as nat);
        let (s2, c2) = inline_one(s, n - 1);
        (s2, c || c2)
    }
}

/// The blocks are numbered alike, position by position.
pub open spec fn same_indices(a: Seq<BlockShape>, b: Seq<BlockShape>) -> bool {
    a.len() == b.len() && forall|k: int| 0 <= k < a.len() ==> #[trigger] a[k].index == b[k].index
}

proof fn lemma_same_indices_has(a: Seq<BlockShape>, b: Seq<BlockShape>, g: BlockIndex)
    requires
        same_indices(a, b),
    ensures
        has_index(a, g) == has_index(b, g),
        position(a, g) == position(b, g),
{
    if has_index(a, g) {
        let k = choose|k: int| 0 <= k < a.len() && #[trigger] a[k].index == g;
        assert(b[k].index == g);
    }
    if has_index(b, g) {
        let k = choose|k: int| 0 <= k < b.len() && #[trigger] b[k].index == g;
        assert(a[k].index == g);
    }
    lemma_position_from_same(a, b, g, 0);
}

proof fn lemma_position_from_same(a: Seq<BlockShape>, b: Seq<BlockShape>, g: BlockIndex, k: int)
    requires
        same_indices(a, b),
    ensures
        position_from(a, g, k) == position_from(b, g, k),
    decreases a.len() - k,
{
    if 0 <= k < a.len() {
        lemma_position_from_same(a, b, g, k + 1);
    }
}

/// Merging keeps the numbers and the terminators' targets naming blocks.
proof fn lemma_inline_one(bs: Seq<BlockShape>, k: int)
    requires
        targets_exist(bs),
        unique_indices(bs),
        0 <= k < bs.len(),
    ensures
        same_indices(bs, inline_one(bs, k).0),
        targets_exist(inline_one(bs, k).0),
        unique_indices(inline_one(bs, k).0),
{
    let r = inline_one(bs, k).0;
    if let BlockTerminator::Goto(g) = bs[k].ending {
        if !targeted_by_other(bs, bs[k].index, g) {
            lemma_position(bs, g);
            if let Some(q) = position(bs, g) {
                if q != k {
                    assert(same_indices(bs, r));
                    assert forall|j: int, t: int| 0 <= j < r.len() && 0 <= t < targets(r[j].ending).len()
                        implies has_index(r, #[trigger] targets(r[j].ending)[t]) by {
                        let h = targets(r[j].ending)[t];
                        lemma_same_indices_has(bs, r, h);
                        if j == k {
                            assert(targets(bs[q].ending)[t] == h);
                        } else {
                            assert(r[j].ending == bs[j].ending);
                        }
                    }
                    assert forall|i: int, j: int| 0 <= i < r.len() && 0 <= j < r.len() && i != j
                        implies #[trigger] r[i].index != #[trigger] r[j].index by {
                        assert(r[i].index == bs[i].index && r[j].index == bs[j].index);
                    }
                }
            }
        }
    }
}

proof fn lemma_inline_upto(bs: Seq<BlockShape>, n: nat)
    requires
        targets_exist(bs),
        unique_indices(bs),
        n <= bs.len(),
    ensures
        same_indices(bs, inline_upto(bs, n).0),
        targets_exist(inline_upto(bs, n).0),
        unique_indices(inline_upto(bs, n).0),
    decreases n,
{
    if n > 0 {
        lemma_inline_upto(bs, (n - 1) as nat);
        let s = inline_upto(bs, (n - 1) as nat).0;
        lemma_inline_one(s, n - 1);
        let s2 = inline_one(s, n - 1).0;
        assert(same_indices(bs, s2)) by {
            assert forall|k: int| 0 <= k < bs.len() implies #[trigger] bs[k].index == s2[k].index by {
                assert(bs[k].index == s[k].index);
            }
        }
    }
}

/// Whether a block not numbered `id` hands control to `g`.
fn targeted_by_other_exec(bs: &Vec<Block>, id: BlockIndex, g: BlockIndex) -> (r: bool)
    ensures
        r == targeted_by_other(shapes(bs@), id, g),
{
    let ghost s = shapes(bs@);
    let mut j: usize = 0;
    while j < bs.len()
        invariant
            j <= bs@.len(),
            s == shapes(bs@),
            forall|i: int| 0 <= i < j && s[i].index != id ==> !(#[trigger] targets(s[i].ending)).contains(g),
        decreases bs@.len() - j,
    {
        let b = &bs[j];
        if b.block_index != id {
            let hit = match b.ending {
                BlockTerminator::Goto(v) => v == g,
                BlockTerminator::SwitchBool { op1, op2, .. } => op1 == g || op2 == g,
                BlockTerminator::Return => false,
            };
            proof {
                let ts = targets(s[j as int].ending);
                assert(s[j as int].ending == b.ending);
                if hit {
                    assert(ts.contains(g)) by {
                        if ts[0] == g {
                            assert(ts[0] == g);
                        } else {
                            assert(ts[1] == g);
                        }
                    }
                } else {
                    assert(!ts.contains(g)) by {
                        if ts.contains(g) {
                            let t = choose|t: int| 0 <= t < ts.len() && ts[t] == g;
                            assert(ts[t] == g);
                        }
                    }
                }
            }
            if hit {
                return true;
            }
        }
        j = j + 1;
    }
    proof {
        if targeted_by_other(s, id, g) {
            let i = choose|i: int| 0 <= i < s.len() && s[i].index != id && #[trigger] targets(s[i].ending).contains(g);
            assert(!targets(s[i].ending).contains(g));
        }
    }
    false
}

/// Merges each block, in order, with the block it alone jumps to.
fn inline_blocks(blocks: &mut Vec<Block>) -> (changed: bool)
    requires
        targets_exist(shapes(old(blocks)@)),
        unique_indices(shapes(old(blocks)@)),
    ensures
        (shapes(final(blocks)@), changed) == inline_upto(shapes(old(blocks)@), old(blocks)@.len()),
{
    let ghost start = shapes(blocks@);
    let n = blocks.len();
    let mut changed = false;
    let mut k: usize = 0;
    while k < n
        invariant
            k <= n,
            n == start.len(),
            blocks@.len() == n,
            (shapes(blocks@), changed) == inline_upto(start, k as nat),
            targets_exist(start),
            unique_indices(start),
        decreases n - k,
    {
        proof {
            lemma_inline_upto(start, k as nat);
        }
        let ghost s = shapes(blocks@);
        let ending = blocks[k].ending;
        let id = blocks[k].block_index;
        assert(s[k as int].ending == ending && s[k as int].index == id);
        match ending {
            BlockTerminator::Goto(g) => {
                if !targeted_by_other_exec(blocks, id, g) {
                    proof {
                        lemma_position(s, g);
                        assert(targets(s[k as int].ending)[0] == g);
                    }
                    let found = find_position(blocks, g);
                    let q = match found {
                        Some(q) => q,
                        None => {
                            assert(false);
                            0
                        },
                    };
                    if q != k {
                        let mut target = blocks.remove(q);
                        let mut taken: Vec<IR> = Vec::new();
                        std::mem::swap(&mut taken, &mut target.instructions);
                        let target_ending = target.ending;
                        blocks.insert(q, target);
                        let mut block = blocks.remove(k);
                        block.ending = target_ending;
                        block.instructions.append(&mut taken);
                        blocks.insert(k, block);
                        proof {
                            let (r, _) = inline_one(s, k as int);
                            assert(shapes(blocks@) =~= r);
                        }
                    }
                    changed = true;
                }
            },
            _ => {},
        }
        k = k + 1;
    }
    changed
}

/// The register an instruction writes, as the copy folding sees it;
/// `SetField` counts its structure register.
pub open spec fn written(i: IR) -> Option<Variable> {
    match i {
        IR::Copy { dst, .. } => Some(dst),
        IR::Load { dst, .. } => Some(dst),
        IR::Unit { dst } => Some(dst),
        IR::Add { dst, .. } => Some(dst),
        IR::Subtract { dst, .. } => Some(dst),
        IR::Multiply { dst, .. } => Some(dst),
        IR::Divide { dst, .. } => Some(dst),
        IR::Modulo { dst, .. } => Some(dst),
        IR::Equals { dst, .. } => Some(dst),
        IR::NotEquals { dst, .. } => Some(dst),
        IR::GreaterThan { dst, .. } => Some(dst),
        IR::LesserThan { dst, .. } => Some(dst),
        IR::GreaterEquals { dst, .. } => Some(dst),
        IR::LesserEquals { dst, .. } => Some(dst),
        IR::UnaryNot { dst, .. } => Some(dst),
        IR::UnaryNeg { dst, .. } => Some(dst),
        IR::CastToI8 { dst, .. } => Some(dst),
        IR::CastToI16 { dst, .. } => Some(dst),
        IR::CastToI32 { dst, .. } => Some(dst),
        IR::CastToI64 { dst, .. } => Some(dst),
        IR::CastToU8 { dst, .. } => Some(dst),
        IR::CastToU16 { dst, .. } => Some(dst),
        IR::CastToU32 { dst, .. } => Some(dst),
        IR::CastToU64 { dst, .. } => Some(dst),
        IR::CastToFloat { dst, .. } => Some(dst),
        IR::Call { dst, .. } => Some(dst),
        IR::ExtCall { dst, .. } => Some(dst),
        IR::Struct { dst, .. } => Some(dst),
        IR::AccStruct { dst, .. } => Some(dst),
        IR::SetField { dst, .. } => Some(dst),
        IR::Swap { .. } => None,
        IR::Noop => None,
    }
}

/// `i` with `d` in place of the register it writes.
pub open spec fn with_dst(i: IR, d: Variable) -> IR {
    match i {
        IR::Copy { src, .. } => IR::Copy { dst: d, src },
        IR::Load { data, .. } => IR::Load { dst: d, data },
        IR::Unit { .. } => IR::Unit { dst: d },
        IR::Add { left, right, .. } => IR::Add { dst: d, left, right },
        IR::Subtract { left, right, .. } => IR::Subtract { dst: d, left, right },
        IR::Multiply { left, right, .. } => IR::Multiply { dst: d, left, right },
        IR::Divide { left, right, .. } => IR::Divide { dst: d, left, right },
        IR::Modulo { left, right, .. } => IR::Modulo { dst: d, left, right },
        IR::Equals { left, right, .. } => IR::Equals { dst: d, left, right },
        IR::NotEquals { left, right, .. } => IR::NotEquals { dst: d, left, right },
        IR::GreaterThan { left, right, .. } => IR::GreaterThan { dst: d, left, right },
        IR::LesserThan { left, right, .. } => IR::LesserThan { dst: d, left, right },
        IR::GreaterEquals { left, right, .. } => IR::GreaterEquals { dst: d, left, right },
        IR::LesserEquals { left, right, .. } => IR::LesserEquals { dst: d, left, right },
        IR::UnaryNot { val, .. } => IR::UnaryNot { dst: d, val },
        IR::UnaryNeg { val, .. } => IR::UnaryNeg { dst: d, val },
        IR::CastToI8 { val, .. } => IR::CastToI8 { dst: d, val },
        IR::CastToI16 { val, .. } => IR::CastToI16 { dst: d, val },
        IR::CastToI32 { val, .. } => IR::CastToI32 { dst: d, val },
        IR::CastToI64 { val, .. } => IR::CastToI64 { dst: d, val },
        IR::CastToU8 { val, .. } => IR::CastToU8 { dst: d, val },
        IR::CastToU16 { val, .. } => IR::CastToU16 { dst: d, val },
        IR::CastToU32 { val, .. } => IR::CastToU32 { dst: d, val },
        IR::CastToU64 { val, .. } => IR::CastToU64 { dst: d, val },
        IR::CastToFloat { val, .. } => IR::CastToFloat { dst: d, val },
        IR::Call { id, args, .. } => IR::Call { dst: d, id, args },
        IR::ExtCall { id, args, .. } => IR::ExtCall { dst: d, id, args },
        IR::Struct { fields, .. } => IR::Struct { dst: d, fields },
        IR::AccStruct { val, index, .. } => IR::AccStruct { dst: d, val, index },
        IR::SetField { data, index, .. } => IR::SetField { dst: d, data, index },
        _ => i,
    }
}

fn written_exec(i: &IR) -> (r: Option<Variable>)
    ensures
        r == written(*i),
{
    match i {
        IR::Copy { dst, .. } => Some(*dst),
        IR::Load { dst, .. } => Some(*dst),
        IR::Unit { dst } => Some(*dst),
        IR::Add { dst, .. } => Some(*dst),
        IR::Subtract { dst, .. } => Some(*dst),
        IR::Multiply { dst, .. } => Some(*dst),
        IR::Divide { dst, .. } => Some(*dst),
        IR::Modulo { dst, .. } => Some(*dst),
        IR::Equals { dst, .. } => Some(*dst),
        IR::NotEquals { dst, .. } => Some(*dst),
        IR::GreaterThan { dst, .. } => Some(*dst),
        IR::LesserThan { dst, .. } => Some(*dst),
        IR::GreaterEquals { dst, .. } => Some(*dst),
        IR::LesserEquals { dst, .. } => Some(*dst),
        IR::UnaryNot { dst, .. } => Some(*dst),
        IR::UnaryNeg { dst, .. } => Some(*dst),
        IR::CastToI8 { dst, .. } => Some(*dst),
        IR::CastToI16 { dst, .. } => Some(*dst),
        IR::CastToI32 { dst, .. } => Some(*dst),
        IR::CastToI64 { dst, .. } => Some(*dst),
        IR::CastToU8 { dst, .. } => Some(*dst),
        IR::CastToU16 { dst, .. } => Some(*dst),
        IR::CastToU32 { dst, .. } => Some(*dst),
        IR::CastToU64 { dst, .. } => Some(*dst),
        IR::CastToFloat { dst, .. } => Some(*dst),
        IR::Call { dst, .. } => Some(*dst),
        IR::ExtCall { dst, .. } => Some(*dst),
        IR::Struct { dst, .. } => Some(*dst),
        IR::AccStruct { dst, .. } => Some(*dst),
        IR::SetField { dst, .. } => Some(*dst),
        IR::Swap { .. } => None,
        IR::Noop => None,
    }
}

/// Folding a copy into the instruction before it changes only the register
/// that instruction writes: the new instruction writes `d`, reads the same
/// registers in the same order (a field store reads its structure register
/// last, and that register becomes `d`), is written as the same operation,
/// and setting the written register back gives the instruction as it was.
/// An instruction that writes no register is left as it is.
#[verifier::rlimit(40)]
pub proof fn law_with_dst_keeps_operands(i: IR, d: Variable)
    ensures
        written(i) is Some ==> written(with_dst(i, d)) == Some(d),
        written(i) is None ==> with_dst(i, d) == i,
        !(i is SetField) ==> used_registers(with_dst(i, d)) == used_registers(i),
        i is SetField ==> used_registers(with_dst(i, d)) == seq![used_registers(i)[0], d],
        lowered_opcode(with_dst(i, d)) == lowered_opcode(i),
        written(i) matches Some(w) ==> with_dst(i, w) == i,
        written(i) matches Some(w) ==> with_dst(with_dst(i, d), w) == i,
{
}

fn with_dst_exec(i: IR, d: Variable) -> (r: IR)
    ensures
        r == with_dst(i, d),
{
    match i {
        IR::Copy { src, .. } => IR::Copy { dst: d, src },
        IR::Load { data, .. } => IR::Load { dst: d, data },
        IR::Unit { .. } => IR::Unit { dst: d },
        IR::Add { left, right, .. } => IR::Add { dst: d, left, right },
        IR::Subtract { left, right, .. } => IR::Subtract { dst: d, left, right },
        IR::Multiply { left, right, .. } => IR::Multiply { dst: d, left, right },
        IR::Divide { left, right, .. } => IR::Divide { dst: d, left, right },
        IR::Modulo { left, right, .. } => IR::Modulo { dst: d, left, right },
        IR::Equals { left, right, .. } => IR::Equals { dst: d, left, right },
        IR::NotEquals { left, right, .. } => IR::NotEquals { dst: d, left, right },
        IR::GreaterThan { left, right, .. } => IR::GreaterThan { dst: d, left, right },
        IR::LesserThan { left, right, .. } => IR::LesserThan { dst: d, left, right },
        IR::GreaterEquals { left, right, .. } => IR::GreaterEquals { dst: d, left, right },
        IR::LesserEquals { left, right, .. } => IR::LesserEquals { dst: d, left, right },
        IR::UnaryNot { val, .. } => IR::UnaryNot { dst: d, val },
        IR::UnaryNeg { val, .. } => IR::UnaryNeg { dst: d, val },
        IR::CastToI8 { val, .. } => IR::CastToI8 { dst: d, val },
        IR::CastToI16 { val, .. } => IR::CastToI16 { dst: d, val },
        IR::CastToI32 { val, .. } => IR::CastToI32 { dst: d, val },
        IR::CastToI64 { val, .. } => IR::CastToI64 { dst: d, val },
        IR::CastToU8 { val, .. } => IR::CastToU8 { dst: d, val },
        IR::CastToU16 { val, .. } => IR::CastToU16 { dst: d, val },
        IR::CastToU32 { val, .. } => IR::CastToU32 { dst: d, val },
        IR::CastToU64 { val, .. } => IR::CastToU64 { dst: d, val },
        IR::CastToFloat { val, .. } => IR::CastToFloat { dst: d, val },
        IR::Call { id, args, .. } => IR::Call { dst: d, id, args },
        IR::ExtCall { id, args, .. } => IR::ExtCall { dst: d, id, args },
        IR::Struct { fields, .. } => IR::Struct { dst: d, fields },
        IR::AccStruct { val, index, .. } => IR::AccStruct { dst: d, val, index },
        IR::SetField { data, index, .. } => IR::SetField { dst: d, data, index },
        other => other,
    }
}

/// Instruction `i` writes the register that the copy right after it reads.
pub open spec fn folds_at(s: Seq<IR>, i: int) -> bool {
    &&& 0 <= i
    &&& i + 1 < s.len()
    &&& s[i + 1] matches IR::Copy { src, .. } && written(s[i]) == Some(src)
}

/// The last position at or before `i` where a copy folds.
pub open spec fn last_fold(s: Seq<IR>, i: int) -> Option<int>
    decreases i + 1,
{
    if i < 0 {
        None
    } else if folds_at(s, i) {
        Some(i)
    } else {
        last_fold(s, i - 1)
    }
}

pub proof fn lemma_last_fold(s: Seq<IR>, i: int)
    ensures
        last_fold(s, i) matches Some(j) ==> j <= i && folds_at(s, j) && forall|k: int| j < k <= i ==> !folds_at(s, k),
        last_fold(s, i) is None ==> forall|k: int| 0 <= k <= i ==> !folds_at(s, k),
    decreases i + 1,
{
    if i >= 0 && !folds_at(s, i) {
        lemma_last_fold(s, i - 1);
    }
}

/// The destination of a copy.
pub open spec fn copy_dst(i: IR) -> Variable {
    match i {
        IR::Copy { dst, .. } => dst,
        _ => Variable(0),
    }
}

/// Folds copies from the end: where the last folding copy reads what the
/// instruction before it wrote, that instruction writes the copy's
/// destination instead and the copy goes; until none folds.
pub open spec fn fold_copies(s: Seq<IR>) -> Seq<IR>
    decreases s.len(),
{
    match last_fold(s, s.len() - 2) {
        None => s,
        Some(i) => {
            proof {
                lemma_last_fold(s, s.len() - 2);
            }
            fold_copies(s.update(i, with_dst(s[i], copy_dst(s[i + 1]))).remove(i + 1))
        },
    }
}

/// The instructions of a block with their copies folded.
fn fold_block_copies(instructions: &mut Vec<IR>)
    ensures
        final(instructions)@ == fold_copies(old(instructions)@),
{
    loop
        invariant
            fold_copies(instructions@) == fold_copies(old(instructions)@),
        ensures
            instructions@ == fold_copies(old(instructions)@),
        decreases instructions@.len(),
    {
        let ghost s = instructions@;
        let n = instructions.len();
        let mut j: usize = if n >= 1 { n - 1 } else { 0 };
        let mut found: Option<(usize, Variable)> = None;
        while j > 0
            invariant_except_break
                found is None,
            invariant
                s == instructions@,
                n == s.len(),
                j <= n,
                n >= 1 ==> j <= n - 1,
                last_fold(s, s.len() - 2) == last_fold(s, j - 1),
            ensures
                found matches Some((i, d)) ==> last_fold(s, s.len() - 2) == Some(i as int) && d == copy_dst(s[i as int + 1]),
                found is None ==> last_fold(s, s.len() - 2) is None,
            decreases j,
        {
            let i = j - 1;
            let hit = match &instructions[j] {
                IR::Copy { dst, src } => {
                    match written_exec(&instructions[i]) {
                        Some(w) => if w == *src { Some(*dst) } else { None },
                        None => None,
                    }
                },
                _ => None,
            };
            if let Some(d) = hit {
                assert(folds_at(s, i as int));
                found = Some((i, d));
                break;
            }
            assert(!folds_at(s, i as int));
            j = i;
        }
        match found {
            None => {
                break;
            },
            Some((i, d)) => {
                proof {
                    lemma_last_fold(s, s.len() - 2);
                }
                let ir = instructions.remove(i);
                let rewritten = with_dst_exec(ir, d);
                instructions.insert(i, rewritten);
                instructions.remove(i + 1);
                assert(instructions@ =~= s.update(i as int, with_dst(s[i as int], copy_dst(s[i as int + 1]))).remove(i + 1));
            },
        }
    }
}

/// A copy or a swap of a register with itself.
pub open spec fn self_move(i: IR) -> bool {
    match i {
        IR::Copy { dst, src } => dst == src,
        IR::Swap { v1, v2 } => v1 == v2,
        _ => false,
    }
}

/// The instructions that are no move of a register to itself, in order.
pub open spec fn drop_self_moves(s: Seq<IR>) -> Seq<IR>
    decreases s.len(),
{
    if s.len() == 0 {
        s
    } else {
        let rest = drop_self_moves(s.drop_last());
        if self_move(s.last()) { rest } else { rest.push(s.last()) }
    }
}

fn self_move_exec(i: &IR) -> (r: bool)
    ensures
        r == self_move(*i),
{
    match i {
        IR::Copy { dst, src } => *dst == *src,
        IR::Swap { v1, v2 } => *v1 == *v2,
        _ => false,
    }
}

/// Removes every move of a register to itself.
fn remove_self_moves(instructions: &mut Vec<IR>)
    ensures
        final(instructions)@ == drop_self_moves(old(instructions)@),
{
    let ghost s = instructions@;
    let mut k: usize = 0;
    let ghost mut m: int = 0;
    while k < instructions.len()
        invariant
            0 <= m <= s.len(),
            k == drop_self_moves(s.take(m)).len(),
            instructions@ == drop_self_moves(s.take(m)) + s.skip(m),
        decreases instructions@.len() - k,
    {
        assert(s.take(m + 1).drop_last() =~= s.take(m));
        assert(instructions@[k as int] == s[m]);
        if self_move_exec(&instructions[k]) {
            instructions.remove(k);
            proof {
                assert(instructions@ =~= drop_self_moves(s.take(m + 1)) + s.skip(m + 1));
                m = m + 1;
            }
        } else {
            proof {
                assert(instructions@ =~= drop_self_moves(s.take(m + 1)) + s.skip(m + 1));
                m = m + 1;
            }
            k = k + 1;
        }
    }
    proof {
        assert(s.skip(m).len() == 0);
        assert(s.take(m) =~= s);
        assert(instructions@ =~= drop_self_moves(s));
    }
}

/// A block's instructions after folding copies and dropping self moves.
pub open spec fn clean(b: BlockShape) -> BlockShape {
    BlockShape { index: b.index, instructions: drop_self_moves(fold_copies(b.instructions)), ending: b.ending }
}

/// The new number of block `g`: its position.
pub open spec fn renumbered(bs: Seq<BlockShape>, g: BlockIndex) -> BlockIndex {
    match position(bs, g) {
        Some(p) => BlockIndex(p as u32),
        None => g,
    }
}

pub open spec fn renumbered_ending(bs: Seq<BlockShape>, t: BlockTerminator) -> BlockTerminator {
    match t {
        BlockTerminator::Goto(v) => BlockTerminator::Goto(renumbered(bs, v)),
        BlockTerminator::SwitchBool { cond, op1, op2 } =>
            BlockTerminator::SwitchBool { cond, op1: renumbered(bs, op1), op2: renumbered(bs, op2) },
        BlockTerminator::Return => BlockTerminator::Return,
    }
}

/// Every block numbered by its position, and every target with it.
pub open spec fn renumber(bs: Seq<BlockShape>) -> Seq<BlockShape> {
    Seq::new(bs.len(), |k: int| BlockShape {
        index: BlockIndex(k as u32),
        instructions: bs[k].instructions,
        ending: renumbered_ending(bs, bs[k].ending),
    })
}

/// Folds copies and drops self moves in every block.
fn clean_blocks(blocks: &mut Vec<Block>)
    ensures
        shapes(final(blocks)@) == shapes(old(blocks)@).map_values(|b: BlockShape| clean(b)),
{
    let ghost start = shapes(blocks@);
    let n = blocks.len();
    let mut k: usize = 0;
    while k < n
        invariant
            k <= n,
            n == start.len(),
            blocks@.len() == n,
            forall|j: int| 0 <= j < k ==> #[trigger] shapes(blocks@)[j] == clean(start[j]),
            forall|j: int| k <= j < n ==> #[trigger] shapes(blocks@)[j] == start[j],
        decreases n - k,
    {
        let ghost before = blocks@;
        assert(shapes(before)[k as int] == shape(before[k as int]));
        let mut block = blocks.remove(k);
        assert(shape(block) == start[k as int]);
        fold_block_copies(&mut block.instructions);
        remove_self_moves(&mut block.instructions);
        let ghost b = block;
        blocks.insert(k, block);
        proof {
            assert(blocks@ =~= before.update(k as int, b));
            assert(shape(b) == clean(start[k as int]));
            assert forall|j: int| 0 <= j < k + 1 implies #[trigger] shapes(blocks@)[j] == clean(start[j]) by {
                if j < k {
                    assert(shapes(before)[j] == shape(before[j]));
                }
            }
            assert forall|j: int| k + 1 <= j < n implies #[trigger] shapes(blocks@)[j] == start[j] by {
                assert(shapes(before)[j] == shape(before[j]));
            }
        }
        k = k + 1;
    }
    assert(shapes(blocks@) =~= start.map_values(|b: BlockShape| clean(b)));
}

/// The new number of target `g`, by a scan of the blocks.
fn renumbered_exec(bs: &Vec<Block>, g: BlockIndex) -> (r: BlockIndex)
    ensures
        r == renumbered(shapes(bs@), g),
{
    match find_position(bs, g) {
        Some(p) => BlockIndex(p as u32),
        None => g,
    }
}

/// Numbers the blocks by their position and redirects the terminators.
fn renumber_blocks(blocks: &mut Vec<Block>)
    ensures
        shapes(final(blocks)@) == renumber(shapes(old(blocks)@)),
{
    let ghost start = shapes(blocks@);
    let n = blocks.len();
    let mut endings: Vec<BlockTerminator> = Vec::new();
    let mut k: usize = 0;
    while k < n
        invariant
            k <= n,
            n == blocks@.len(),
            start == shapes(blocks@),
            endings@.len() == k,
            forall|j: int| 0 <= j < k ==> #[trigger] endings@[j] == renumbered_ending(start, start[j].ending),
        decreases n - k,
    {
        let e = match blocks[k].ending {
            BlockTerminator::Goto(v) => BlockTerminator::Goto(renumbered_exec(blocks, v)),
            BlockTerminator::SwitchBool { cond, op1, op2 } => BlockTerminator::SwitchBool {
                cond,
                op1: renumbered_exec(blocks, op1),
                op2: renumbered_exec(blocks, op2),
            },
            BlockTerminator::Return => BlockTerminator::Return,
        };
        assert(start[k as int].ending == blocks@[k as int].ending);
        endings.push(e);
        k = k + 1;
    }
    let mut k: usize = 0;
    while k < n
        invariant
            k <= n,
            n == start.len(),
            blocks@.len() == n,
            endings@.len() == n,
            forall|j: int| 0 <= j < n ==> #[trigger] endings@[j] == renumbered_ending(start, start[j].ending),
            forall|j: int| 0 <= j < k ==> #[trigger] shapes(blocks@)[j] == renumber(start)[j],
            forall|j: int| k <= j < n ==> #[trigger] shapes(blocks@)[j] == start[j],
        decreases n - k,
    {
        let ghost before = blocks@;
        assert(shapes(before)[k as int] == shape(before[k as int]));
        let mut block = blocks.remove(k);
        assert(shape(block) == start[k as int]);
        block.block_index = BlockIndex(k as u32);
        block.ending = endings[k];
        let ghost b = block;
        blocks.insert(k, block);
        proof {
            assert(blocks@ =~= before.update(k as int, b));
            assert(shape(b) == renumber(start)[k as int]);
            assert forall|j: int| 0 <= j < k + 1 implies #[trigger] shapes(blocks@)[j] == renumber(start)[j] by {
                if j < k {
                    assert(shapes(before)[j] == shape(before[j]));
                }
            }
            assert forall|j: int| k + 1 <= j < n implies #[trigger] shapes(blocks@)[j] == start[j] by {
                assert(shapes(before)[j] == shape(before[j]));
            }
        }
        k = k + 1;
    }
    assert(shapes(blocks@) =~= renumber(start));
}

/// The blocks that `Function::optimize` leaves and whether it merged a
/// block: the blocks the entry reaches, merged when `inline` is set,
/// cleaned, and numbered by position. `None` where a terminator or the
/// entry names no block.
pub open spec fn optimized(bs: Seq<BlockShape>, entry: BlockIndex, inline: bool) -> Option<(Seq<BlockShape>, bool)> {
    match live_blocks(bs, seq![entry], seq![]) {
        None => None,
        Some(live) => {
            let (merged, changed) = if inline { inline_upto(live, live.len()) } else { (live, false) };
            Some((renumber(merged.map_values(|b: BlockShape| clean(b))), changed))
        },
    }
}

impl Function {
    /// Every terminator names a block, and so does the entry.
    pub open spec fn wf(&self) -> bool {
        &&& targets_exist(shapes(self.blocks@))
        &&& has_index(shapes(self.blocks@), self.entry)
    }

    /// Optimizes the blocks in place; returns whether a block was merged
    /// into another.
    pub fn optimize(&mut self, inline: bool) -> (changed: bool)
        requires
            old(self).wf(),
        ensures
            optimized(shapes(old(self).blocks@), old(self).entry, inline) == Some((shapes(final(self).blocks@), changed)),
            final(self).entry == old(self).entry,
            final(self).identifier == old(self).identifier,
            final(self).function_index == old(self).function_index,
            final(self).argument_count == old(self).argument_count,
            final(self).variable_counter == old(self).variable_counter,
            final(self).stack_size == old(self).stack_size,
    {
        let mut blocks: Vec<Block> = Vec::new();
        std::mem::swap(&mut blocks, &mut self.blocks);
        let mut live = remove_dead_blocks(blocks, self.entry);
        let ghost after_dead = shapes(live@);
        let changed = if inline {
            inline_blocks(&mut live)
        } else {
            false
        };
        let ghost merged = shapes(live@);
        clean_blocks(&mut live);
        renumber_blocks(&mut live);
        self.blocks = live;
        changed
    }
}

/// `drop_self_moves` leaves no move of a register to itself.
pub proof fn lemma_no_self_moves(s: Seq<IR>)
    ensures
        forall|k: int| 0 <= k < drop_self_moves(s).len() ==> !self_move(#[trigger] drop_self_moves(s)[k]),
        drop_self_moves(s).len() <= s.len(),
    decreases s.len(),
{
    if s.len() > 0 {
        lemma_no_self_moves(s.drop_last());
    }
}

/// Every block the search moves to `out` is numbered differently, the
/// first is the one the stack's bottom names when `out` starts empty, and
/// each block found is one of the blocks given.
proof fn lemma_live_blocks(rest: Seq<BlockShape>, stack: Seq<BlockIndex>, out: Seq<BlockShape>, all: Seq<BlockShape>)
    requires
        forall|k: int| 0 <= k < rest.len() ==> all.contains(#[trigger] rest[k]),
        forall|k: int| 0 <= k < out.len() ==> all.contains(#[trigger] out[k]),
        out.len() + rest.len() <= all.len(),
    ensures
        live_blocks(rest, stack, out) matches Some(r) ==> {
            &&& r.len() >= out.len()
            &&& r.subrange(0, out.len() as int) == out
            &&& r.len() <= all.len()
            &&& forall|k: int| 0 <= k < r.len() ==> all.contains(#[trigger] r[k])
        },
    decreases rest.len(), stack.len(),
{
    if stack.len() > 0 {
        let id = stack.last();
        if has_index(out, id) {
            lemma_live_blocks(rest, stack.drop_last(), out, all);
        } else {
            lemma_position(rest, id);
            if let Some(p) = position(rest, id) {
                let rest2 = rest.remove(p);
                let out2 = out.push(rest[p]);
                assert forall|k: int| 0 <= k < rest2.len() implies all.contains(#[trigger] rest2[k]) by {
                    if k < p {
                        assert(rest2[k] == rest[k]);
                    } else {
                        assert(rest2[k] == rest[k + 1]);
                    }
                }
                assert forall|k: int| 0 <= k < out2.len() implies all.contains(#[trigger] out2[k]) by {
                    if k < out.len() {
                        assert(out2[k] == out[k]);
                    }
                }
                lemma_live_blocks(rest2, stack.drop_last() + targets(rest[p].ending), out2, all);
                if let Some(r) = live_blocks(rest2, stack.drop_last() + targets(rest[p].ending), out2) {
                    assert(r.subrange(0, out.len() as int) =~= r.subrange(0, out2.len() as int).subrange(0, out.len() as int));
                    assert(out2.subrange(0, out.len() as int) =~= out);
                }
            }
        }
    } else {
        assert(out.subrange(0, out.len() as int) =~= out);
    }
}

/// Block `id` is reached from `entry` in `n` jumps.
pub open spec fn reached_in(bs: Seq<BlockShape>, entry: BlockIndex, id: BlockIndex, n: nat) -> bool
    decreases n,
{
    if n == 0 {
        id == entry
    } else {
        exists|k: int, t: int| 0 <= k < bs.len() && 0 <= t < targets(bs[k].ending).len()
            && #[trigger] targets(bs[k].ending)[t] == id && reached_in(bs, entry, bs[k].index, (n - 1) as nat)
    }
}

/// Block `id` is reached from `entry` by some run of jumps.
pub open spec fn reachable_block(bs: Seq<BlockShape>, entry: BlockIndex, id: BlockIndex) -> bool {
    exists|n: nat| reached_in(bs, entry, id, n)
}

proof fn lemma_live_reachable(rest: Seq<BlockShape>, stack: Seq<BlockIndex>, out: Seq<BlockShape>, bs: Seq<BlockShape>, entry: BlockIndex)
    requires
        forall|i: int| 0 <= i < rest.len() ==> bs.contains(#[trigger] rest[i]),
        forall|i: int| 0 <= i < stack.len() ==> reachable_block(bs, entry, #[trigger] stack[i]),
        forall|i: int| 0 <= i < out.len() ==> reachable_block(bs, entry, #[trigger] out[i].index),
    ensures
        live_blocks(rest, stack, out) matches Some(l) ==> forall|i: int| 0 <= i < l.len() ==> reachable_block(bs, entry, #[trigger] l[i].index),
    decreases rest.len(), stack.len(),
{
    if stack.len() > 0 {
        let id = stack.last();
        assert forall|i: int| 0 <= i < stack.drop_last().len() implies reachable_block(bs, entry, #[trigger] stack.drop_last()[i]) by {
            assert(stack.drop_last()[i] == stack[i]);
        }
        if has_index(out, id) {
            lemma_live_reachable(rest, stack.drop_last(), out, bs, entry);
        } else {
            lemma_position_from(rest, id, 0);
            match position(rest, id) {
                None => {},
                Some(p) => {
                    let b = rest[p];
                    assert(bs.contains(b));
                    let kb = choose|kb: int| 0 <= kb < bs.len() && bs[kb] == b;
                    assert(reachable_block(bs, entry, stack[stack.len() - 1]));
                    let n = choose|n: nat| reached_in(bs, entry, id, n);
                    let ns = stack.drop_last() + targets(b.ending);
                    assert forall|i: int| 0 <= i < ns.len() implies reachable_block(bs, entry, #[trigger] ns[i]) by {
                        if i < stack.drop_last().len() {
                            assert(ns[i] == stack.drop_last()[i]);
                        } else {
                            let t = i - stack.drop_last().len();
                            assert(ns[i] == targets(bs[kb].ending)[t]);
                            assert(reached_in(bs, entry, ns[i], n + 1));
                        }
                    }
                    let r2 = rest.remove(p);
                    assert forall|i: int| 0 <= i < r2.len() implies bs.contains(#[trigger] r2[i]) by {
                        if i < p {
                            assert(r2[i] == rest[i]);
                        } else {
                            assert(r2[i] == rest[i + 1]);
                        }
                    }
                    let o2 = out.push(b);
                    assert forall|i: int| 0 <= i < o2.len() implies reachable_block(bs, entry, #[trigger] o2[i].index) by {
                        if i < out.len() {
                            assert(o2[i] == out[i]);
                        }
                    }
                    lemma_live_reachable(r2, ns, o2, bs, entry);
                },
            }
        }
    }
}

/// The search keeps only blocks that the entry reaches: every other block
/// is dropped.
pub proof fn law_live_blocks_reachable(bs: Seq<BlockShape>, entry: BlockIndex)
    ensures
        live_blocks(bs, seq![entry], seq![]) matches Some(l) ==> forall|i: int| 0 <= i < l.len() ==> reachable_block(bs, entry, #[trigger] l[i].index),
{
    assert(reached_in(bs, entry, entry, 0));
    assert forall|i: int| 0 <= i < seq![entry].len() implies reachable_block(bs, entry, #[trigger] seq![entry][i]) by {
        assert(seq![entry][i] == entry);
    }
    assert forall|i: int| 0 <= i < bs.len() implies bs.contains(#[trigger] bs[i]) by {}
    lemma_live_reachable(bs, seq![entry], seq![], bs, entry);
}

/// Numbering the blocks by position keeps every jump on its block: the
/// `t`-th target of block `k` becomes the position of the block it named,
/// and that block keeps its instructions.
pub proof fn law_renumber_keeps_targets(bs: Seq<BlockShape>, k: int, t: int)
    requires
        targets_exist(bs),
        bs.len() <= u32::MAX,
        0 <= k < bs.len(),
        0 <= t < targets(bs[k].ending).len(),
    ensures
        ({
            let g = targets(bs[k].ending)[t];
            let p = targets(renumber(bs)[k].ending)[t].0 as int;
            &&& targets(renumber(bs)[k].ending).len() == targets(bs[k].ending).len()
            &&& 0 <= p < bs.len()
            &&& bs[p].index == g
            &&& renumber(bs)[p].instructions == bs[p].instructions
            &&& forall|j: int| 0 <= j < p ==> bs[j].index != g
        }),
{
    let g = targets(bs[k].ending)[t];
    assert(has_index(bs, g));
    lemma_position(bs, g);
    let p = position(bs, g)->0;
    assert(renumbered(bs, g) == BlockIndex(p as u32));
    assert(renumber(bs)[k].ending == renumbered_ending(bs, bs[k].ending));
    match bs[k].ending {
        BlockTerminator::Goto(v) => {
            assert(targets(renumber(bs)[k].ending)[t] == renumbered(bs, g));
        },
        BlockTerminator::SwitchBool { cond, op1, op2 } => {
            if t == 0 {
                assert(g == op1);
            } else {
                assert(g == op2);
            }
            assert(targets(renumber(bs)[k].ending)[t] == renumbered(bs, g));
        },
        BlockTerminator::Return => {},
    }
    assert((p as u32) as int == p);
}


/// What an optimized function looks like: its blocks are numbered by
/// their position, the first is the entry block, every terminator names a
/// block, no block holds a move of a register to itself, and there are no
/// more blocks than before. So a function whose entry is block 0 is still
/// well formed after `optimize`, and can be optimized again.
pub proof fn law_optimize_result(f: Function, inline: bool, r: Seq<BlockShape>, changed: bool)
    requires
        f.wf(),
        optimized(shapes(f.blocks@), f.entry, inline) == Some((r, changed)),
    ensures
        r.len() >= 1,
        r.len() <= f.blocks@.len(),
        forall|k: int| 0 <= k < r.len() ==> #[trigger] r[k].index == BlockIndex(k as u32),
        r[0].index == BlockIndex(0),
        targets_exist(r),
        forall|k: int, j: int| 0 <= k < r.len() && 0 <= j < r[k].instructions.len()
            ==> !self_move(#[trigger] r[k].instructions[j]),
        f.entry == BlockIndex(0) ==> has_index(r, f.entry),
{
    let bs = shapes(f.blocks@);
    let live = live_blocks(bs, seq![f.entry], seq![])->0;
    assert forall|k: int| 0 <= k < bs.len() implies bs.contains(#[trigger] bs[k]) by {}
    lemma_live_blocks(bs, seq![f.entry], seq![], bs);
    // The first step of the search moves the entry block.
    lemma_position(bs, f.entry);
    let p = position(bs, f.entry)->0;
    assert(!has_index(Seq::<BlockShape>::empty(), f.entry));
    assert forall|k: int| 0 <= k < bs.remove(p).len() implies bs.contains(#[trigger] bs.remove(p)[k]) by {
        if k < p {
            assert(bs.remove(p)[k] == bs[k]);
        } else {
            assert(bs.remove(p)[k] == bs[k + 1]);
        }
    }
    assert(bs.contains(seq![bs[p]][0]));
    lemma_live_blocks(bs.remove(p), seq![f.entry].drop_last() + targets(bs[p].ending), seq![bs[p]], bs);
    assert(live.len() >= 1 && live[0] == bs[p]) by {
        assert(live.subrange(0, 1)[0] == live[0]);
    }
    let (merged, c) = if inline { inline_upto(live, live.len()) } else { (live, false) };
    let cleaned = merged.map_values(|b: BlockShape| clean(b));
    assert(merged.len() == live.len()) by {
        if inline {
            lemma_live_targets(bs, f.entry);
            lemma_inline_upto(live, live.len());
        }
    }
    assert(r == renumber(cleaned));
    assert(r[0].index == BlockIndex(0));
    // Targets: every target of a kept block names a block, so it maps to a position.
    lemma_live_targets(bs, f.entry);
    assert(targets_exist(merged) && unique_indices(merged)) by {
        if inline {
            lemma_inline_upto(live, live.len());
        }
    }
    assert forall|k: int, t: int| 0 <= k < r.len() && 0 <= t < targets(r[k].ending).len()
        implies has_index(r, #[trigger] targets(r[k].ending)[t]) by {
        assert(cleaned[k].ending == merged[k].ending);
        let g = targets(merged[k].ending)[t];
        assert(has_index(merged, g));
        lemma_position(merged, g);
        assert(same_indices(merged, cleaned));
        lemma_same_indices_has(merged, cleaned, g);
        let q = position(cleaned, g)->0;
        assert(targets(r[k].ending)[t] == BlockIndex(q as u32));
        assert(r[q].index == BlockIndex(q as u32));
    }
    assert forall|k: int, j: int| 0 <= k < r.len() && 0 <= j < r[k].instructions.len()
        implies !self_move(#[trigger] r[k].instructions[j]) by {
        lemma_no_self_moves(fold_copies(merged[k].instructions));
    }
}

/// The blocks the search keeps have distinct numbers and every target
/// among them names one of them.
proof fn lemma_live_targets(bs: Seq<BlockShape>, entry: BlockIndex)
    requires
        targets_exist(bs),
        has_index(bs, entry),
    ensures
        live_blocks(bs, seq![entry], seq![]) matches Some(live) && targets_exist(live) && unique_indices(live),
{
    assert(!has_index(Seq::<BlockShape>::empty(), entry));
    lemma_search_invariant(bs, seq![entry], seq![]);
}

/// The search finds blocks for every target, keeps distinct numbers, and
/// leaves every target of a kept block naming a kept block, as long as
/// what is on the stack and what the blocks name can be found.
proof fn lemma_search_invariant(rest: Seq<BlockShape>, stack: Seq<BlockIndex>, out: Seq<BlockShape>)
    requires
        forall|t: int| 0 <= t < stack.len() ==> has_index(out, #[trigger] stack[t]) || has_index(rest, stack[t]),
        forall|k: int, t: int| 0 <= k < rest.len() && 0 <= t < targets(rest[k].ending).len()
            ==> has_index(out, #[trigger] targets(rest[k].ending)[t]) || has_index(rest, targets(rest[k].ending)[t]),
        forall|k: int, t: int| 0 <= k < out.len() && 0 <= t < targets(out[k].ending).len()
            ==> has_index(out, #[trigger] targets(out[k].ending)[t]) || stack.contains(targets(out[k].ending)[t]),
        unique_indices(out),
    ensures
        live_blocks(rest, stack, out) matches Some(r) && targets_exist(r) && unique_indices(r),
    decreases rest.len(), stack.len(),
{
    if stack.len() == 0 {
        assert forall|k: int, t: int| 0 <= k < out.len() && 0 <= t < targets(out[k].ending).len()
            implies has_index(out, #[trigger] targets(out[k].ending)[t]) by {
            assert(!stack.contains(targets(out[k].ending)[t]));
        }
    } else {
        let id = stack.last();
        let st = stack.drop_last();
        if has_index(out, id) {
            assert forall|k: int, t: int| 0 <= k < out.len() && 0 <= t < targets(out[k].ending).len()
                implies has_index(out, #[trigger] targets(out[k].ending)[t]) || st.contains(targets(out[k].ending)[t]) by {
                let g = targets(out[k].ending)[t];
                if !has_index(out, g) {
                    let i = choose|i: int| 0 <= i < stack.len() && stack[i] == g;
                    if i < stack.len() - 1 {
                        assert(st[i] == g);
                    }
                }
            }
            assert forall|t: int| 0 <= t < st.len() implies has_index(out, #[trigger] st[t]) || has_index(rest, st[t]) by {
                assert(st[t] == stack[t]);
            }
            lemma_search_invariant(rest, st, out);
        } else {
            lemma_position(rest, id);
            assert(has_index(rest, id)) by {
                assert(stack[stack.len() - 1] == id);
            }
            let p = position(rest, id)->0;
            lemma_moved_block(rest, out, stack, p, id, rest.remove(p), out.push(rest[p]), st + targets(rest[p].ending));
            lemma_search_invariant(rest.remove(p), st + targets(rest[p].ending), out.push(rest[p]));
        }
    }
}

} // verus!
