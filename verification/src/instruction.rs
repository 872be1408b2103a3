//! The layout of one instruction in a bytecode stream: an opcode byte
//! followed by its operands. Registers, counts and constant indices take
//! one byte, function indices and jump targets four little-endian bytes,
//! and names are byte strings closed by a zero byte.
//!
//! `op_bytes` writes an instruction out, `decode_at` reads one back, and
//! `decode` is the executable reader that the disassembler uses.
use vstd::prelude::*;
use vstd::bytes::{spec_u32_to_le_bytes, spec_u32_from_le_bytes, u32_from_le_bytes, lemma_auto_spec_u32_to_from_le_bytes};
use vstd::utf8::{valid_utf8, decode_utf8};
use crate::bytecode::{Bytecode, opcode, opcode_of, is_binary, is_unary};
use crate::text::string_from_utf8;

verus! {

/// The mathematical value of a decoded instruction.
pub enum Op {
    Return,
    Copy { dst: u8, src: u8 },
    Swap { v1: u8, v2: u8 },
    Call { function: u32, dst: u8, args: Seq<u8> },
    ExtCall { index: u32, dst: u8, args: Seq<u8> },
    Push { amount: u8 },
    Pop { amount: u8 },
    ExternFile { file: Seq<u8>, functions: Seq<(u32, Seq<u8>)> },
    Struct { dst: u8, fields: Seq<u8> },
    AccStruct { dst: u8, val: u8, index: u8 },
    SetField { dst: u8, data: u8, index: u8 },
    Binary { op: Bytecode, dst: u8, left: u8, right: u8 },
    LoadConst { dst: u8, index: u8 },
    Unit { dst: u8 },
    Jump { to: u32 },
    JumpCond { cond: u8, if_true: u32, if_false: u32 },
    Unary { op: Bytecode, dst: u8, val: u8 },
}

/// One decoded instruction.
#[derive(Debug, Clone, PartialEq, Eq)]
pub enum Instruction {
    Return,
    Copy { dst: u8, src: u8 },
    Swap { v1: u8, v2: u8 },
    Call { function: u32, dst: u8, args: Vec<u8> },
    ExtCall { index: u32, dst: u8, args: Vec<u8> },
    Push { amount: u8 },
    Pop { amount: u8 },
    ExternFile { file: Vec<u8>, functions: Vec<(u32, Vec<u8>)> },
    Struct { dst: u8, fields: Vec<u8> },
    AccStruct { dst: u8, val: u8, index: u8 },
    SetField { dst: u8, data: u8, index: u8 },
    Binary { op: Bytecode, dst: u8, left: u8, right: u8 },
    LoadConst { dst: u8, index: u8 },
    Unit { dst: u8 },
    Jump { to: u32 },
    JumpCond { cond: u8, if_true: u32, if_false: u32 },
    Unary { op: Bytecode, dst: u8, val: u8 },
}

pub open spec fn functions_view(fs: Seq<(u32, Vec<u8>)>) -> Seq<(u32, Seq<u8>)> {
    fs.map_values(|f: (u32, Vec<u8>)| (f.0, f.1@))
}

impl View for Instruction {
    type V = Op;

    open spec fn view(&self) -> Op {
        match self {
            Instruction::Return => Op::Return,
            Instruction::Copy { dst, src } => Op::Copy { dst: *dst, src: *src },
            Instruction::Swap { v1, v2 } => Op::Swap { v1: *v1, v2: *v2 },
            Instruction::Call { function, dst, args } => Op::Call { function: *function, dst: *dst, args: args@ },
            Instruction::ExtCall { index, dst, args } => Op::ExtCall { index: *index, dst: *dst, args: args@ },
            Instruction::Push { amount } => Op::Push { amount: *amount },
            Instruction::Pop { amount } => Op::Pop { amount: *amount },
            Instruction::ExternFile { file, functions } => Op::ExternFile { file: file@, functions: functions_view(functions@) },
            Instruction::Struct { dst, fields } => Op::Struct { dst: *dst, fields: fields@ },
            Instruction::AccStruct { dst, val, index } => Op::AccStruct { dst: *dst, val: *val, index: *index },
            Instruction::SetField { dst, data, index } => Op::SetField { dst: *dst, data: *data, index: *index },
            Instruction::Binary { op, dst, left, right } => Op::Binary { op: *op, dst: *dst, left: *left, right: *right },
            Instruction::LoadConst { dst, index } => Op::LoadConst { dst: *dst, index: *index },
            Instruction::Unit { dst } => Op::Unit { dst: *dst },
            Instruction::Jump { to } => Op::Jump { to: *to },
            Instruction::JumpCond { cond, if_true, if_false } => Op::JumpCond { cond: *cond, if_true: *if_true, if_false: *if_false },
            Instruction::Unary { op, dst, val } => Op::Unary { op: *op, dst: *dst, val: *val },
        }
    }
}

/// The bytes of a zero-terminated name.
pub open spec fn zstr_bytes(s: Seq<u8>) -> Seq<u8> {
    s.push(0u8)
}

/// The bytes of the function list of an extern file entry.
pub open spec fn functions_bytes(fs: Seq<(u32, Seq<u8>)>) -> Seq<u8>
    decreases fs.len(),
{
    if fs.len() == 0 {
        Seq::empty()
    } else {
        spec_u32_to_le_bytes(fs[0].0) + zstr_bytes(fs[0].1) + functions_bytes(fs.drop_first())
    }
}

/// How an instruction is laid out in a bytecode stream.
pub open spec fn op_bytes(op: Op) -> Seq<u8> {
    match op {
        Op::Return => seq![opcode(Bytecode::Return)],
        Op::Copy { dst, src } => seq![opcode(Bytecode::Copy), dst, src],
        Op::Swap { v1, v2 } => seq![opcode(Bytecode::Swap), v1, v2],
        Op::Call { function, dst, args } =>
            seq![opcode(Bytecode::Call)] + spec_u32_to_le_bytes(function) + seq![dst, args.len() as u8] + args,
        Op::ExtCall { index, dst, args } =>
            seq![opcode(Bytecode::ExtCall)] + spec_u32_to_le_bytes(index) + seq![dst, args.len() as u8] + args,
        Op::Push { amount } => seq![opcode(Bytecode::Push), amount],
        Op::Pop { amount } => seq![opcode(Bytecode::Pop), amount],
        Op::ExternFile { file, functions } =>
            seq![opcode(Bytecode::ExternFile)] + zstr_bytes(file) + seq![functions.len() as u8] + functions_bytes(functions),
        Op::Struct { dst, fields } => seq![opcode(Bytecode::Struct), dst, fields.len() as u8] + fields,
        Op::AccStruct { dst, val, index } => seq![opcode(Bytecode::AccStruct), dst, val, index],
        Op::SetField { dst, data, index } => seq![opcode(Bytecode::SetField), dst, data, index],
        Op::Binary { op, dst, left, right } => seq![opcode(op), dst, left, right],
        Op::LoadConst { dst, index } => seq![opcode(Bytecode::LoadConst), dst, index],
        Op::Unit { dst } => seq![opcode(Bytecode::Unit), dst],
        Op::Jump { to } => seq![opcode(Bytecode::Jump)] + spec_u32_to_le_bytes(to),
        Op::JumpCond { cond, if_true, if_false } =>
            seq![opcode(Bytecode::JumpCond), cond] + spec_u32_to_le_bytes(if_true) + spec_u32_to_le_bytes(if_false),
        Op::Unary { op, dst, val } => seq![opcode(op), dst, val],
    }
}

/// A name that a zero byte can close: it holds no zero itself.
pub open spec fn zero_free(s: Seq<u8>) -> bool {
    forall|i: int| 0 <= i < s.len() ==> s[i] != 0
}

/// An instruction that can be written out and read back: every count fits
/// in its byte, names hold no zero byte, and the grouped variants carry an
/// opcode of their group.
pub open spec fn op_wf(op: Op) -> bool {
    match op {
        Op::Call { args, .. } => args.len() < 256,
        Op::ExtCall { args, .. } => args.len() < 256,
        Op::ExternFile { file, functions } =>
            zero_free(file) && functions.len() < 256
            && forall|i: int| 0 <= i < functions.len() ==> zero_free(#[trigger] functions[i].1),
        Op::Struct { fields, .. } => fields.len() < 256,
        Op::Binary { op, .. } => is_binary(op),
        Op::Unary { op, .. } => is_unary(op),
        _ => true,
    }
}

/// `n` bytes are available from `p` on.
pub open spec fn fits(code: Seq<u8>, p: int, n: int) -> bool {
    0 <= p && 0 <= n && p + n <= code.len()
}

/// The four little-endian bytes at `p`.
pub open spec fn u32_at(code: Seq<u8>, p: int) -> u32 {
    spec_u32_from_le_bytes(code.subrange(p, p + 4))
}

/// The index of the first zero byte at or after `p`.
pub open spec fn zero_at_or_after(code: Seq<u8>, p: int) -> Option<int>
    decreases code.len() - p,
{
    if p < 0 || p >= code.len() {
        None
    } else if code[p] == 0 {
        Some(p)
    } else {
        zero_at_or_after(code, p + 1)
    }
}

/// Reads `n` entries of an extern file's function list from `p`.
pub open spec fn decode_functions(code: Seq<u8>, p: int, n: nat) -> Option<(Seq<(u32, Seq<u8>)>, int)>
    decreases n,
{
    if n == 0 {
        Some((Seq::empty(), p))
    } else if !fits(code, p, 4) {
        None
    } else {
        match zero_at_or_after(code, p + 4) {
            None => None,
            Some(e) => match decode_functions(code, e + 1, (n - 1) as nat) {
                None => None,
                Some((rest, q)) => Some((seq![(u32_at(code, p), code.subrange(p + 4, e))] + rest, q)),
            },
        }
    }
}

/// An opcode followed by a one-byte count and that many one-byte operands,
/// the count standing `skip` bytes after `p`.
pub open spec fn counted_end(code: Seq<u8>, p: int, skip: int) -> Option<int> {
    if fits(code, p, skip + 1) && fits(code, p, skip + 1 + code[p + skip]) {
        Some(p + skip + 1 + code[p + skip])
    } else {
        None
    }
}

/// The instruction that starts at `pos`, with the position just after it;
/// `None` where the byte at `pos` names no opcode or the operands run past
/// the end.
pub open spec fn decode_at(code: Seq<u8>, pos: int) -> Option<(Op, int)> {
    if !(0 <= pos < code.len()) {
        None
    } else {
        let p = pos + 1;
        match opcode_of(code[pos]) {
            None => None,
            Some(b) => {
                if b == Bytecode::Return {
                    Some((Op::Return, p))
                } else if b == Bytecode::Copy {
                    if fits(code, p, 2) { Some((Op::Copy { dst: code[p], src: code[p + 1] }, p + 2)) } else { None }
                } else if b == Bytecode::Swap {
                    if fits(code, p, 2) { Some((Op::Swap { v1: code[p], v2: code[p + 1] }, p + 2)) } else { None }
                } else if b == Bytecode::Call {
                    match counted_end(code, p, 5) {
                        Some(e) => Some((Op::Call { function: u32_at(code, p), dst: code[p + 4], args: code.subrange(p + 6, e) }, e)),
                        None => None,
                    }
                } else if b == Bytecode::ExtCall {
                    match counted_end(code, p, 5) {
                        Some(e) => Some((Op::ExtCall { index: u32_at(code, p), dst: code[p + 4], args: code.subrange(p + 6, e) }, e)),
                        None => None,
                    }
                } else if b == Bytecode::Push {
                    if fits(code, p, 1) { Some((Op::Push { amount: code[p] }, p + 1)) } else { None }
                } else if b == Bytecode::Pop {
                    if fits(code, p, 1) { Some((Op::Pop { amount: code[p] }, p + 1)) } else { None }
                } else if b == Bytecode::ExternFile {
                    match zero_at_or_after(code, p) {
                        None => None,
                        Some(e) => if fits(code, e + 1, 1) {
                            match decode_functions(code, e + 2, code[e + 1] as nat) {
                                None => None,
                                Some((fs, q)) => Some((Op::ExternFile { file: code.subrange(p, e), functions: fs }, q)),
                            }
                        } else {
                            None
                        },
                    }
                } else if b == Bytecode::Struct {
                    match counted_end(code, p, 1) {
                        Some(e) => Some((Op::Struct { dst: code[p], fields: code.subrange(p + 2, e) }, e)),
                        None => None,
                    }
                } else if b == Bytecode::AccStruct {
                    if fits(code, p, 3) { Some((Op::AccStruct { dst: code[p], val: code[p + 1], index: code[p + 2] }, p + 3)) } else { None }
                } else if b == Bytecode::SetField {
                    if fits(code, p, 3) { Some((Op::SetField { dst: code[p], data: code[p + 1], index: code[p + 2] }, p + 3)) } else { None }
                } else if is_binary(b) {
                    if fits(code, p, 3) { Some((Op::Binary { op: b, dst: code[p], left: code[p + 1], right: code[p + 2] }, p + 3)) } else { None }
                } else if b == Bytecode::LoadConst {
                    if fits(code, p, 2) { Some((Op::LoadConst { dst: code[p], index: code[p + 1] }, p + 2)) } else { None }
                } else if b == Bytecode::Unit {
                    if fits(code, p, 1) { Some((Op::Unit { dst: code[p] }, p + 1)) } else { None }
                } else if b == Bytecode::Jump {
                    if fits(code, p, 4) { Some((Op::Jump { to: u32_at(code, p) }, p + 4)) } else { None }
                } else if b == Bytecode::JumpCond {
                    if fits(code, p, 9) {
                        Some((Op::JumpCond { cond: code[p], if_true: u32_at(code, p + 1), if_false: u32_at(code, p + 5) }, p + 9))
                    } else {
                        None
                    }
                } else {
                    if fits(code, p, 2) { Some((Op::Unary { op: b, dst: code[p], val: code[p + 1] }, p + 2)) } else { None }
                }
            },
        }
    }
}

/// A window of `code` that equals `b` contains every window of `b`.
pub proof fn lemma_window(code: Seq<u8>, pos: int, b: Seq<u8>, off: int, len: int)
    requires
        0 <= pos,
        pos + b.len() <= code.len(),
        code.subrange(pos, pos + b.len()) == b,
        0 <= off,
        0 <= len,
        off + len <= b.len(),
    ensures
        code.subrange(pos + off, pos + off + len) == b.subrange(off, off + len),
        forall|i: int| 0 <= i < b.len() ==> code[pos + i] == #[trigger] b[i],
{
    assert forall|i: int| 0 <= i < b.len() implies code[pos + i] == #[trigger] b[i] by {
        assert(code.subrange(pos, pos + b.len())[i] == code[pos + i]);
    }
    assert(code.subrange(pos + off, pos + off + len) =~= b.subrange(off, off + len));
}

/// The zero byte found at or after `p` lies in `code`, at or after `p`,
/// and every byte before it from `p` on is nonzero.
pub proof fn lemma_zero_bounds(code: Seq<u8>, p: int)
    ensures
        zero_at_or_after(code, p) matches Some(e) ==> p <= e < code.len() && code[e] == 0,
    decreases code.len() - p,
{
    if 0 <= p < code.len() && code[p] != 0 {
        lemma_zero_bounds(code, p + 1);
    }
}

proof fn lemma_zero_at(code: Seq<u8>, p: int, e: int)
    requires
        0 <= p <= e < code.len(),
        code[e] == 0,
        forall|i: int| p <= i < e ==> code[i] != 0,
    ensures
        zero_at_or_after(code, p) == Some(e),
    decreases e - p,
{
    if p < e {
        lemma_zero_at(code, p + 1, e);
    }
}

proof fn lemma_zstr(code: Seq<u8>, p: int, s: Seq<u8>)
    requires
        0 <= p,
        p + s.len() + 1 <= code.len(),
        code.subrange(p, p + s.len() + 1) == zstr_bytes(s),
        zero_free(s),
    ensures
        zero_at_or_after(code, p) == Some(p + s.len()),
        code.subrange(p, p + s.len()) == s,
{
    let z = zstr_bytes(s);
    lemma_window(code, p, z, 0, s.len() as int);
    assert(z.subrange(0, s.len() as int) =~= s);
    assert forall|i: int| p <= i < p + s.len() implies code[i] != 0 by {
        assert(code[p + (i - p)] == z[i - p]);
    }
    assert(code[p + s.len()] == z[s.len() as int]);
    lemma_zero_at(code, p, p + s.len());
}

proof fn lemma_decode_functions(code: Seq<u8>, p: int, fs: Seq<(u32, Seq<u8>)>)
    requires
        0 <= p,
        p + functions_bytes(fs).len() <= code.len(),
        code.subrange(p, p + functions_bytes(fs).len()) == functions_bytes(fs),
        forall|i: int| 0 <= i < fs.len() ==> zero_free(#[trigger] fs[i].1),
    ensures
        decode_functions(code, p, fs.len()) == Some((fs, p + functions_bytes(fs).len())),
    decreases fs.len(),
{
    lemma_auto_spec_u32_to_from_le_bytes();
    if fs.len() > 0 {
        let all = functions_bytes(fs);
        let n = spec_u32_to_le_bytes(fs[0].0);
        let z = zstr_bytes(fs[0].1);
        let tail = functions_bytes(fs.drop_first());
        assert(all == n + z + tail);
        let e = p + 4 + fs[0].1.len();
        lemma_window(code, p, all, 0, 4);
        assert(all.subrange(0, 4) =~= n);
        let zl = z.len() as int;
        let tl = tail.len() as int;
        lemma_window(code, p, all, 4, zl);
        assert(all.subrange(4, 4 + zl) =~= z);
        assert(zero_free(fs[0].1));
        lemma_zstr(code, p + 4, fs[0].1);
        lemma_window(code, p, all, 4 + zl, tl);
        assert(all.subrange(4 + zl, 4 + zl + tl) =~= tail);
        assert forall|i: int| 0 <= i < fs.drop_first().len() implies zero_free(#[trigger] fs.drop_first()[i].1) by {
            assert(fs.drop_first()[i] == fs[i + 1]);
        }
        lemma_decode_functions(code, e + 1, fs.drop_first());
        assert(seq![(u32_at(code, p), code.subrange(p + 4, e))] + fs.drop_first() =~= fs);
    }
}

/// Reading an instruction where its bytes stand gives back that
/// instruction, and the reader stops just after its last byte.
pub proof fn law_decode_op_bytes(code: Seq<u8>, pos: int, op: Op)
    requires
        op_wf(op),
        0 <= pos,
        pos + op_bytes(op).len() <= code.len(),
        code.subrange(pos, pos + op_bytes(op).len()) == op_bytes(op),
    ensures
        decode_at(code, pos) == Some((op, pos + op_bytes(op).len())),
{
    lemma_auto_spec_u32_to_from_le_bytes();
    let b = op_bytes(op);
    let p = pos + 1;
    lemma_window(code, pos, b, 0, 0);
    assert(code[pos] == b[0]);
    match op {
        Op::Call { function, dst, args } => {
            lemma_window(code, pos, b, 1, 4);
            assert(b.subrange(1, 5) =~= spec_u32_to_le_bytes(function));
            assert(code[p + 4] == b[5]);
            assert(code[p + 5] == b[6]);
            let al = args.len() as int;
            lemma_window(code, pos, b, 7, al);
            assert(b.subrange(7, 7 + al) =~= args);
        },
        Op::ExtCall { index, dst, args } => {
            lemma_window(code, pos, b, 1, 4);
            assert(b.subrange(1, 5) =~= spec_u32_to_le_bytes(index));
            assert(code[p + 4] == b[5]);
            assert(code[p + 5] == b[6]);
            let al = args.len() as int;
            lemma_window(code, pos, b, 7, al);
            assert(b.subrange(7, 7 + al) =~= args);
        },
        Op::ExternFile { file, functions } => {
            let z = zstr_bytes(file);
            let fb = functions_bytes(functions);
            let zl = z.len() as int;
            let fl = fb.len() as int;
            lemma_window(code, pos, b, 1, zl);
            assert(b.subrange(1, 1 + zl) =~= z);
            lemma_zstr(code, p, file);
            let e = p + file.len();
            assert(code[e + 1] == b[1 + zl]);
            lemma_window(code, pos, b, 2 + zl, fl);
            assert(b.subrange(2 + zl, 2 + zl + fl) =~= fb);
            lemma_decode_functions(code, e + 2, functions);
        },
        Op::Struct { dst, fields } => {
            assert(code[p] == b[1]);
            assert(code[p + 1] == b[2]);
            let fl = fields.len() as int;
            lemma_window(code, pos, b, 3, fl);
            assert(b.subrange(3, 3 + fl) =~= fields);
        },
        Op::Jump { to } => {
            lemma_window(code, pos, b, 1, 4);
            assert(b.subrange(1, 5) =~= spec_u32_to_le_bytes(to));
        },
        Op::JumpCond { cond, if_true, if_false } => {
            assert(code[p] == b[1]);
            lemma_window(code, pos, b, 2, 4);
            assert(b.subrange(2, 6) =~= spec_u32_to_le_bytes(if_true));
            lemma_window(code, pos, b, 6, 4);
            assert(b.subrange(6, 10) =~= spec_u32_to_le_bytes(if_false));
        },
        _ => {},
    }
}

/// A copy of `code[start..end]`.
fn copy_range(code: &[u8], start: usize, end: usize) -> (r: Vec<u8>)
    requires
        start <= end <= code@.len(),
    ensures
        r@ == code@.subrange(start as int, end as int),
{
    let mut r: Vec<u8> = Vec::new();
    let mut i: usize = start;
    while i < end
        invariant
            start <= i <= end <= code@.len(),
            r@ == code@.subrange(start as int, i as int),
        decreases end - i,
    {
        r.push(code[i]);
        i = i + 1;
        assert(r@ =~= code@.subrange(start as int, i as int));
    }
    r
}

/// A copy of `code[start..end]`, for the readers of other formats.
pub(crate) fn copy_range_pub(code: &[u8], start: usize, end: usize) -> (r: Vec<u8>)
    requires
        start <= end <= code@.len(),
    ensures
        r@ == code@.subrange(start as int, end as int),
{
    copy_range(code, start, end)
}

/// The index of the first zero byte at or after `p`.
fn find_zero(code: &[u8], p: usize) -> (r: Option<usize>)
    ensures
        match r {
            Some(e) => zero_at_or_after(code@, p as int) == Some(e as int) && p <= e < code@.len(),
            None => zero_at_or_after(code@, p as int) is None,
        },
{
    let mut i: usize = p;
    while i < code.len()
        invariant
            p <= i,
            zero_at_or_after(code@, p as int) == zero_at_or_after(code@, i as int),
        decreases code@.len() - i,
    {
        if code[i] == 0 {
            return Some(i);
        }
        i = i + 1;
    }
    None
}

/// The four little-endian bytes at `p` as a number.
fn read_u32(code: &[u8], p: usize) -> (r: u32)
    requires
        fits(code@, p as int, 4),
    ensures
        r == u32_at(code@, p as int),
{
    let len = code.len();
    assert(p + 4 <= len);
    let end = p + 4;
    u32_from_le_bytes(&code[p..end])
}

proof fn lemma_functions_view_push(acc: Seq<(u32, Vec<u8>)>, x: (u32, Vec<u8>))
    ensures
        functions_view(acc.push(x)) == functions_view(acc).push((x.0, x.1@)),
{
    assert(functions_view(acc.push(x)) =~= functions_view(acc).push((x.0, x.1@)));
}

/// Reads the `n` entries of an extern file's function list from `p`.
fn read_functions(code: &[u8], p: usize, n: u8) -> (r: Option<(Vec<(u32, Vec<u8>)>, usize)>)
    ensures
        match r {
            Some((fs, e)) => decode_functions(code@, p as int, n as nat) == Some((functions_view(fs@), e as int)),
            None => decode_functions(code@, p as int, n as nat) is None,
        },
{
    let mut acc: Vec<(u32, Vec<u8>)> = Vec::new();
    let mut q: usize = p;
    let mut k: u8 = 0;
    while k < n
        invariant
            k <= n,
            decode_functions(code@, p as int, n as nat) == match decode_functions(code@, q as int, (n - k) as nat) {
                Some((fs, e)) => Some((functions_view(acc@) + fs, e)),
                None => None,
            },
        decreases n - k,
    {
        if q >= code.len() || code.len() - q < 4 {
            return None;
        }
        let index = read_u32(code, q);
        let e = match find_zero(code, q + 4) {
            Some(e) => e,
            None => return None,
        };
        let name = copy_range(code, q + 4, e);
        proof {
            lemma_functions_view_push(acc@, (index, name));
            let rest = decode_functions(code@, e + 1, (n - k - 1) as nat);
            if let Some((fs, f)) = rest {
                assert(functions_view(acc@) + (seq![(index, name@)] + fs) =~= functions_view(acc@).push((index, name@)) + fs);
            }
        }
        acc.push((index, name));
        q = e + 1;
        k = k + 1;
    }
    assert(functions_view(acc@) + Seq::<(u32, Seq<u8>)>::empty() =~= functions_view(acc@));
    Some((acc, q))
}

/// Reads the instruction that starts at `pos`, with the position just after
/// it; `None` where the byte at `pos` names no opcode or the operands run
/// past the end of `code`.
pub fn decode(code: &[u8], pos: usize) -> (r: Option<(Instruction, usize)>)
    ensures
        match r {
            Some((i, n)) => decode_at(code@, pos as int) == Some((i@, n as int)),
            None => decode_at(code@, pos as int) is None,
        },
{
    let len = code.len();
    if pos >= len {
        return None;
    }
    let p = pos + 1;
    let b = match Bytecode::from_u8(code[pos]) {
        Some(b) => b,
        None => return None,
    };
    let room = len - p;
    match b {
        Bytecode::Return => Some((Instruction::Return, p)),
        Bytecode::Copy => if room >= 2 { Some((Instruction::Copy { dst: code[p], src: code[p + 1] }, p + 2)) } else { None },
        Bytecode::Swap => if room >= 2 { Some((Instruction::Swap { v1: code[p], v2: code[p + 1] }, p + 2)) } else { None },
        Bytecode::Call | Bytecode::ExtCall => {
            if room < 6 {
                return None;
            }
            let count = code[p + 5] as usize;
            if room - 6 < count {
                return None;
            }
            let number = read_u32(code, p);
            let args = copy_range(code, p + 6, p + 6 + count);
            let dst = code[p + 4];
            if b == Bytecode::Call {
                Some((Instruction::Call { function: number, dst, args }, p + 6 + count))
            } else {
                Some((Instruction::ExtCall { index: number, dst, args }, p + 6 + count))
            }
        },
        Bytecode::Push => if room >= 1 { Some((Instruction::Push { amount: code[p] }, p + 1)) } else { None },
        Bytecode::Pop => if room >= 1 { Some((Instruction::Pop { amount: code[p] }, p + 1)) } else { None },
        Bytecode::ExternFile => {
            let e = match find_zero(code, p) {
                Some(e) => e,
                None => return None,
            };
            if e + 1 >= len {
                return None;
            }
            let count = code[e + 1];
            let file = copy_range(code, p, e);
            match read_functions(code, e + 2, count) {
                Some((functions, q)) => Some((Instruction::ExternFile { file, functions }, q)),
                None => None,
            }
        },
        Bytecode::Struct => {
            if room < 2 {
                return None;
            }
            let count = code[p + 1] as usize;
            if room - 2 < count {
                return None;
            }
            let fields = copy_range(code, p + 2, p + 2 + count);
            Some((Instruction::Struct { dst: code[p], fields }, p + 2 + count))
        },
        Bytecode::AccStruct => if room >= 3 {
            Some((Instruction::AccStruct { dst: code[p], val: code[p + 1], index: code[p + 2] }, p + 3))
        } else {
            None
        },
        Bytecode::SetField => if room >= 3 {
            Some((Instruction::SetField { dst: code[p], data: code[p + 1], index: code[p + 2] }, p + 3))
        } else {
            None
        },
        Bytecode::Add | Bytecode::Subtract | Bytecode::Multiply | Bytecode::Divide | Bytecode::Modulo
        | Bytecode::Equals | Bytecode::NotEquals | Bytecode::GreaterThan | Bytecode::LesserThan
        | Bytecode::GreaterEquals | Bytecode::LesserEquals => if room >= 3 {
            Some((Instruction::Binary { op: b, dst: code[p], left: code[p + 1], right: code[p + 2] }, p + 3))
        } else {
            None
        },
        Bytecode::LoadConst => if room >= 2 { Some((Instruction::LoadConst { dst: code[p], index: code[p + 1] }, p + 2)) } else { None },
        Bytecode::Unit => if room >= 1 { Some((Instruction::Unit { dst: code[p] }, p + 1)) } else { None },
        Bytecode::Jump => if room >= 4 { Some((Instruction::Jump { to: read_u32(code, p) }, p + 4)) } else { None },
        Bytecode::JumpCond => if room >= 9 {
            let if_true = read_u32(code, p + 1);
            let if_false = read_u32(code, p + 5);
            Some((Instruction::JumpCond { cond: code[p], if_true, if_false }, p + 9))
        } else {
            None
        },
        _ => if room >= 2 { Some((Instruction::Unary { op: b, dst: code[p], val: code[p + 1] }, p + 2)) } else { None },
    }
}

/// Walks a bytecode stream one field at a time; `top` is the position of
/// the next byte to read.
pub struct Disassembler {
    pub code: Vec<u8>,
    pub top: usize,
}

impl Disassembler {
    /// Reads one byte.
    pub fn next(&mut self) -> (r: u8)
        requires
            old(self).top < old(self).code@.len(),
        ensures
            r == old(self).code@[old(self).top as int],
            final(self).top == old(self).top + 1,
            final(self).code == old(self).code,
    {
        let byte = self.code[self.top];
        assert(self.top < self.code.len());
        self.top = self.top + 1;
        byte
    }

    /// Reads one byte as an opcode.
    pub fn bytecode(&mut self) -> (r: Bytecode)
        requires
            old(self).top < old(self).code@.len(),
            opcode_of(old(self).code@[old(self).top as int]) is Some,
        ensures
            opcode_of(old(self).code@[old(self).top as int]) == Some(r),
            final(self).top == old(self).top + 1,
            final(self).code == old(self).code,
    {
        let v = self.next();
        match Bytecode::from_u8(v) {
            Some(b) => b,
            None => {
                assert(false);
                Bytecode::Return
            },
        }
    }

    /// Reads four little-endian bytes as a number.
    pub fn u32(&mut self) -> (r: u32)
        requires
            fits(old(self).code@, old(self).top as int, 4),
        ensures
            r == u32_at(old(self).code@, old(self).top as int),
            final(self).top == old(self).top + 4,
            final(self).code == old(self).code,
    {
        let r = read_u32(self.code.as_slice(), self.top);
        assert(self.top + 4 <= self.code.len());
        self.top = self.top + 4;
        r
    }

    /// Reads a zero-terminated UTF-8 name and steps past its zero byte.
    pub fn string(&mut self) -> (r: String)
        requires
            zero_at_or_after(old(self).code@, old(self).top as int) matches Some(e)
                && valid_utf8(old(self).code@.subrange(old(self).top as int, e)),
        ensures
            zero_at_or_after(old(self).code@, old(self).top as int) matches Some(e)
                && r@ == decode_utf8(old(self).code@.subrange(old(self).top as int, e))
                && final(self).top == e + 1,
            final(self).code == old(self).code,
    {
        let e = match find_zero(self.code.as_slice(), self.top) {
            Some(e) => e,
            None => {
                assert(false);
                self.top
            },
        };
        let bytes = copy_range(self.code.as_slice(), self.top, e);
        assert(e < self.code.len());
        self.top = e + 1;
        match string_from_utf8(bytes) {
            Some(s) => s,
            None => {
                assert(false);
                String::new()
            },
        }
    }

    /// Reads one whole instruction; at the end of the stream, on a byte
    /// that names no opcode or on operands that run past the end it
    /// returns `None` and stays where it is.
    pub fn instruction(&mut self) -> (r: Option<Instruction>)
        ensures
            final(self).code == old(self).code,
            match r {
                Some(i) => decode_at(old(self).code@, old(self).top as int) == Some((i@, final(self).top as int)),
                None => decode_at(old(self).code@, old(self).top as int) is None && final(self).top == old(self).top,
            },
    {
        match decode(self.code.as_slice(), self.top) {
            Some((i, n)) => {
                self.top = n;
                Some(i)
            },
            None => None,
        }
    }
}

} // verus!
