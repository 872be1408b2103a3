//! The constant table a compiled program carries. Each constant is written
//! as a type byte and a little-endian payload: 0 a float (its eight IEEE
//! bytes), 1 a bool (one byte, 0 or 1), 2 a string (its length in eight
//! bytes, then its UTF-8 bytes), 3 to 6 the signed and 7 to 10 the
//! unsigned integers of one, two, four and eight bytes. It is the format
//! the virtual machine reads (`vm::parse_constants`).
use vstd::prelude::*;
use vstd::utf8::encode_utf8;
use crate::ast::Data;
use crate::runtime::{VMData, TAG_FLOAT, TAG_I8, TAG_I16, TAG_I32, TAG_I64, TAG_U8, TAG_U16, TAG_U32, TAG_U64, TAG_UNIT};
use crate::symbol_table::{SymbolTable, SymbolValue, spec_text};
use crate::values::{canon, bool_value};
use crate::vm::{Constant, parse_constants, texts_valid, le_at, pow256};

verus! {

broadcast use vstd::utf8::group_utf8_lib;

/// The low `len` bytes of `x`, least significant first.
pub open spec fn le_bytes(x: nat, len: nat) -> Seq<u8>
    decreases len,
{
    if len == 0 {
        Seq::empty()
    } else {
        seq![(x % 256) as u8] + le_bytes(x / 256, (len - 1) as nat)
    }
}

/// The UTF-8 bytes of the text of symbol `i`.
pub open spec fn symbol_bytes(table: Seq<SymbolValue>, i: nat) -> Seq<u8> {
    encode_utf8(spec_text(table, i))
}

/// The entry of the constant table that holds `d`.
pub open spec fn constant_bytes(d: Data, table: Seq<SymbolValue>) -> Seq<u8> {
    match d {
        Data::Float(v) => seq![0u8] + le_bytes(v as nat, 8),
        Data::Bool(b) => seq![1u8, if b { 1u8 } else { 0u8 }],
        Data::String(i) => seq![2u8] + le_bytes(symbol_bytes(table, i.0 as nat).len(), 8) + symbol_bytes(
            table,
            i.0 as nat,
        ),
        Data::I8(v) => seq![3u8] + le_bytes((v as u8) as nat, 1),
        Data::I16(v) => seq![4u8] + le_bytes((v as u16) as nat, 2),
        Data::I32(v) => seq![5u8] + le_bytes((v as u32) as nat, 4),
        Data::I64(v) => seq![6u8] + le_bytes((v as u64) as nat, 8),
        Data::U8(v) => seq![7u8] + le_bytes(v as nat, 1),
        Data::U16(v) => seq![8u8] + le_bytes(v as nat, 2),
        Data::U32(v) => seq![9u8] + le_bytes(v as nat, 4),
        Data::U64(v) => seq![10u8] + le_bytes(v as nat, 8),
        Data::Empty => Seq::empty(),
    }
}

/// The constant table of `ds`: their entries one after the other.
pub open spec fn constants_bytes(ds: Seq<Data>, table: Seq<SymbolValue>) -> Seq<u8>
    decreases ds.len(),
{
    if ds.len() == 0 {
        Seq::empty()
    } else {
        constant_bytes(ds[0], table) + constants_bytes(ds.drop_first(), table)
    }
}

/// A constant the table can hold: not the unit value, and a string only as
/// a symbol of the table, of `n` entries.
pub open spec fn writable(d: Data, n: nat) -> bool {
    match d {
        Data::Empty => false,
        Data::String(i) => i.0 < n,
        _ => true,
    }
}

/// What the machine holds for constant `d` once it has read the table.
pub open spec fn as_constant(d: Data, table: Seq<SymbolValue>) -> Constant {
    match d {
        Data::Float(v) => Constant::Value(VMData { tag: TAG_FLOAT, data: v }),
        Data::Bool(b) => Constant::Value(bool_value(b)),
        Data::String(i) => Constant::Text(symbol_bytes(table, i.0 as nat)),
        Data::I8(v) => Constant::Value(VMData { tag: TAG_I8, data: canon(TAG_I8, v as int) }),
        Data::I16(v) => Constant::Value(VMData { tag: TAG_I16, data: canon(TAG_I16, v as int) }),
        Data::I32(v) => Constant::Value(VMData { tag: TAG_I32, data: canon(TAG_I32, v as int) }),
        Data::I64(v) => Constant::Value(VMData { tag: TAG_I64, data: canon(TAG_I64, v as int) }),
        Data::U8(v) => Constant::Value(VMData { tag: TAG_U8, data: canon(TAG_U8, v as int) }),
        Data::U16(v) => Constant::Value(VMData { tag: TAG_U16, data: canon(TAG_U16, v as int) }),
        Data::U32(v) => Constant::Value(VMData { tag: TAG_U32, data: canon(TAG_U32, v as int) }),
        Data::U64(v) => Constant::Value(VMData { tag: TAG_U64, data: canon(TAG_U64, v as int) }),
        Data::Empty => Constant::Value(VMData { tag: TAG_UNIT, data: 0 }),
    }
}

/// Appending one constant's entry extends the table by that entry.
pub proof fn lemma_constants_push(ds: Seq<Data>, d: Data, table: Seq<SymbolValue>)
    ensures
        constants_bytes(ds.push(d), table) == constants_bytes(ds, table) + constant_bytes(d, table),
    decreases ds.len(),
{
    if ds.len() == 0 {
        assert(ds.push(d).drop_first() =~= Seq::<Data>::empty());
        assert(ds.push(d)[0] == d);
        assert(constants_bytes(Seq::<Data>::empty(), table) =~= Seq::<u8>::empty());
        assert(constants_bytes(ds, table) =~= Seq::<u8>::empty());
        assert(constants_bytes(ds.push(d), table) =~= constant_bytes(d, table));
    } else {
        lemma_constants_push(ds.drop_first(), d, table);
        assert(ds.push(d).drop_first() =~= ds.drop_first().push(d));
        assert(ds.push(d)[0] == ds[0]);
        assert(constants_bytes(ds.push(d), table) =~= constants_bytes(ds, table) + constant_bytes(d, table));
    }
}

/// Appends the low `len` bytes of `x`, least significant first.
fn push_le(out: &mut Vec<u8>, x: u64, len: usize)
    requires
        len <= 8,
    ensures
        final(out)@ == old(out)@ + le_bytes(x as nat, len as nat),
{
    let mut i: usize = 0;
    let mut rest: u64 = x;
    while i < len
        invariant
            i <= len,
            out@ + le_bytes(rest as nat, (len - i) as nat) == old(out)@ + le_bytes(x as nat, len as nat),
        decreases len - i,
    {
        let ghost before = out@;
        let ghost n: nat = (len - i - 1) as nat;
        assert(le_bytes(rest as nat, (len - i) as nat) == seq![(rest % 256) as u8] + le_bytes(
            (rest / 256) as nat,
            n,
        ));
        out.push((rest % 256) as u8);
        assert(out@ + le_bytes((rest / 256) as nat, n) =~= before + (seq![(rest % 256) as u8] + le_bytes(
            (rest / 256) as nat,
            n,
        )));
        rest = rest / 256;
        i = i + 1;
    }
    assert(le_bytes(rest as nat, 0) =~= Seq::<u8>::empty());
    assert(out@ + Seq::<u8>::empty() =~= out@);
}

/// Appends `bytes`.
fn push_all(out: &mut Vec<u8>, bytes: &[u8])
    ensures
        final(out)@ == old(out)@ + bytes@,
{
    let mut i: usize = 0;
    while i < bytes.len()
        invariant
            i <= bytes@.len(),
            out@ == old(out)@ + bytes@.take(i as int),
        decreases bytes@.len() - i,
    {
        out.push(bytes[i]);
        assert(bytes@.take(i as int + 1) =~= bytes@.take(i as int).push(bytes@[i as int]));
        i = i + 1;
    }
    assert(bytes@.take(bytes@.len() as int) =~= bytes@);
}

/// Writes the constant table of `constants`, strings taken from the
/// symbol table.
pub fn convert_constants_to_bytes(constants: Vec<Data>, symbol_table: &SymbolTable) -> (r: Vec<u8>)
    requires
        symbol_table.wf(),
        forall|k: int| 0 <= k < constants@.len() ==> writable(#[trigger] constants@[k], symbol_table@.len()),
    ensures
        r@ == constants_bytes(constants@, symbol_table@),
{
    let mut out: Vec<u8> = Vec::new();
    let mut k: usize = 0;
    assert(constants@.take(0) =~= Seq::<Data>::empty());
    while k < constants.len()
        invariant
            k <= constants@.len(),
            symbol_table.wf(),
            forall|j: int| 0 <= j < constants@.len() ==> writable(#[trigger] constants@[j], symbol_table@.len()),
            out@ == constants_bytes(constants@.take(k as int), symbol_table@),
        decreases constants@.len() - k,
    {
        let ghost before = out@;
        let c = constants[k];
        assert(writable(constants@[k as int], symbol_table@.len()));
        match c {
            Data::Float(v) => {
                out.push(0u8);
                push_le(&mut out, v, 8);
            },
            Data::Bool(v) => {
                out.push(1u8);
                out.push(if v { 1u8 } else { 0u8 });
            },
            Data::String(i) => {
                let s = symbol_table.get(&i);
                let bytes = s.as_str().as_bytes();
                out.push(2u8);
                push_le(&mut out, bytes.len() as u64, 8);
                push_all(&mut out, bytes);
            },
            Data::I8(v) => {
                out.push(3u8);
                push_le(&mut out, (v as u8) as u64, 1);
            },
            Data::I16(v) => {
                out.push(4u8);
                push_le(&mut out, (v as u16) as u64, 2);
            },
            Data::I32(v) => {
                out.push(5u8);
                push_le(&mut out, (v as u32) as u64, 4);
            },
            Data::I64(v) => {
                out.push(6u8);
                push_le(&mut out, v as u64, 8);
            },
            Data::U8(v) => {
                out.push(7u8);
                push_le(&mut out, v as u64, 1);
            },
            Data::U16(v) => {
                out.push(8u8);
                push_le(&mut out, v as u64, 2);
            },
            Data::U32(v) => {
                out.push(9u8);
                push_le(&mut out, v as u64, 4);
            },
            Data::U64(v) => {
                out.push(10u8);
                push_le(&mut out, v, 8);
            },
            Data::Empty => {
                assert(false);
            },
        }
        proof {
            lemma_constants_push(constants@.take(k as int), c, symbol_table@);
            assert(constants@.take(k as int + 1) =~= constants@.take(k as int).push(c));
            assert(out@ =~= before + constant_bytes(c, symbol_table@));
        }
        k = k + 1;
    }
    assert(constants@.take(constants@.len() as int) =~= constants@);
    out
}

/// A constant whose entry the machine reads back: one the table can hold,
/// and a string whose length in bytes a `u64` can count.
pub open spec fn readable(d: Data, table: Seq<SymbolValue>) -> bool {
    &&& writable(d, table.len())
    &&& d matches Data::String(i) ==> symbol_bytes(table, i.0 as nat).len() <= u64::MAX
}

proof fn lemma_entry_payload(b: Seq<u8>, p: int, e: Seq<u8>, tb: u8, lb: Seq<u8>)
    requires
        0 <= p,
        p + e.len() <= b.len(),
        b.subrange(p, p + e.len()) == e,
        e == seq![tb] + lb,
    ensures
        b.subrange(p + 1, p + e.len()) == lb,
{
    assert forall|k: int| 0 <= k < lb.len() implies #[trigger] b.subrange(p + 1, p + e.len())[k] == lb[k] by {
        assert(b.subrange(p, p + e.len())[k + 1] == b[p + 1 + k]);
        assert(e[k + 1] == lb[k]);
    }
    assert(b.subrange(p + 1, p + e.len()) =~= lb);
}

proof fn lemma_le_len(x: nat, len: nat)
    ensures
        le_bytes(x, len).len() == len,
    decreases len,
{
    if len > 0 {
        lemma_le_len(x / 256, (len - 1) as nat);
    }
}

proof fn lemma_le_read(b: Seq<u8>, p: int, x: nat, len: nat)
    requires
        0 <= p,
        p + len <= b.len(),
        b.subrange(p, p + len) == le_bytes(x, len),
        x < pow256(len),
    ensures
        le_at(b, p, len) == x,
    decreases len,
{
    if len > 0 {
        let l1 = (len - 1) as nat;
        assert(b.subrange(p + 1, p + len) =~= b.subrange(p, p + len).drop_first());
        assert(le_bytes(x, len).drop_first() =~= le_bytes(x / 256, l1));
        assert(b[p] == b.subrange(p, p + len)[0]);
        assert(pow256(len) == 256 * pow256(l1));
        assert(x / 256 < pow256(l1)) by (nonlinear_arith)
            requires
                x < 256 * pow256(l1),
        ;
        lemma_le_read(b, p + 1, x / 256, l1);
        assert(x == (x % 256) + 256 * (x / 256)) by (nonlinear_arith);
    }
}

proof fn lemma_small_widths(v8: i8, v16: i16, v32: i32, v64: i64)
    ensures
        ((v8 as u8) as i8) == v8,
        ((v16 as u16) as i16) == v16,
        ((v32 as u32) as i32) == v32,
        ((v64 as u64) as i64) == v64,
{
    assert(((v8 as u8) as i8) == v8) by (bit_vector);
    assert(((v16 as u16) as i16) == v16) by (bit_vector);
    assert(((v32 as u32) as i32) == v32) by (bit_vector);
    assert(((v64 as u64) as i64) == v64) by (bit_vector);
}

/// The table of `ds` read from offset `p` of `b`, where it sits.
proof fn lemma_read_from(b: Seq<u8>, p: int, ds: Seq<Data>, table: Seq<SymbolValue>)
    requires
        0 <= p <= b.len(),
        b.subrange(p, b.len() as int) == constants_bytes(ds, table),
        forall|k: int| 0 <= k < ds.len() ==> readable(#[trigger] ds[k], table),
    ensures
        parse_constants(b, p) == Some(ds.map_values(|d: Data| as_constant(d, table))),
    decreases ds.len(),
{
    reveal_with_fuel(pow256, 9);
    if ds.len() == 0 {
        assert(ds.map_values(|d: Data| as_constant(d, table)) =~= Seq::<Constant>::empty());
    } else {
        let d = ds[0];
        let e = constant_bytes(d, table);
        let rest = ds.drop_first();
        let q = p + e.len();
        assert(readable(ds[0], table));
        let whole = b.subrange(p, b.len() as int);
        let tail = constants_bytes(rest, table);
        assert(whole == e + tail);
        assert(q <= b.len());
        assert forall|k: int| 0 <= k < e.len() implies #[trigger] b.subrange(p, q)[k] == e[k] by {
            assert(b.subrange(p, q)[k] == b[p + k]);
            assert(whole[k] == b[p + k]);
            assert((e + tail)[k] == e[k]);
        }
        assert(b.subrange(p, q) =~= e);
        assert forall|k: int| 0 <= k < tail.len() implies #[trigger] b.subrange(q, b.len() as int)[k] == tail[k] by {
            assert(whole[e.len() + k] == b[q + k]);
            assert((e + tail)[e.len() + k] == tail[k]);
        }
        assert(b.subrange(q, b.len() as int) =~= tail);
        assert forall|k: int| 0 <= k < rest.len() implies readable(#[trigger] rest[k], table) by {
            assert(rest[k] == ds[k + 1]);
        }
        lemma_read_from(b, q, rest, table);
        assert(ds.map_values(|d: Data| as_constant(d, table)) =~= seq![as_constant(d, table)] + rest.map_values(
            |d: Data| as_constant(d, table),
        ));
        assert(b[p] == e[0]);
        match d {
            Data::String(i) => {
                let t = symbol_bytes(table, i.0 as nat);
                let lb = le_bytes(t.len(), 8);
                lemma_le_len(t.len(), 8);
                assert(e == seq![2u8] + lb + t);
                assert(e.subrange(1, 9) =~= lb);
                assert(e.subrange(9, 9 + t.len() as int) =~= t);
                assert(b.subrange(p + 1, p + 9) =~= b.subrange(p, q).subrange(1, 9));
                assert(b.subrange(p + 9, p + 9 + t.len()) =~= b.subrange(p, q).subrange(9, 9 + t.len() as int));
                assert(b.subrange(p + 1, p + 9) =~= le_bytes(t.len(), 8));
                lemma_le_read(b, p + 1, t.len(), 8);
                assert(b.subrange(p + 9, p + 9 + t.len()) =~= t);
            },
            Data::Bool(v) => {
                let x: nat = if v { 1 } else { 0 };
                assert(le_bytes(x / 256, 0) =~= Seq::<u8>::empty());
                assert(le_bytes(x, 1) =~= seq![(x % 256) as u8]);
                assert(((x % 256) as u8) == (if v { 1u8 } else { 0u8 }));
                assert(e =~= seq![1u8] + le_bytes(x, 1));
                lemma_le_len(x, 1);
                lemma_entry_payload(b, p, e, e[0], le_bytes(x, 1));
                assert(b.subrange(p + 1, p + 2) =~= le_bytes(x, 1));
                lemma_le_read(b, p + 1, x, 1);
            },
            Data::Float(v) => {
                lemma_le_len(v as nat, 8);
                lemma_entry_payload(b, p, e, e[0], le_bytes(v as nat, 8));
                assert(b.subrange(p + 1, p + 9) =~= le_bytes(v as nat, 8));
                lemma_le_read(b, p + 1, v as nat, 8);
            },
            Data::I8(v) => {
                lemma_le_len((v as u8) as nat, 1);
                lemma_entry_payload(b, p, e, e[0], le_bytes((v as u8) as nat, 1));
                assert(b.subrange(p + 1, p + 2) =~= le_bytes((v as u8) as nat, 1));
                lemma_le_read(b, p + 1, (v as u8) as nat, 1);
                lemma_small_widths(v, 0, 0, 0);
            },
            Data::I16(v) => {
                lemma_le_len((v as u16) as nat, 2);
                lemma_entry_payload(b, p, e, e[0], le_bytes((v as u16) as nat, 2));
                assert(b.subrange(p + 1, p + 3) =~= le_bytes((v as u16) as nat, 2));
                lemma_le_read(b, p + 1, (v as u16) as nat, 2);
                lemma_small_widths(0, v, 0, 0);
            },
            Data::I32(v) => {
                lemma_le_len((v as u32) as nat, 4);
                lemma_entry_payload(b, p, e, e[0], le_bytes((v as u32) as nat, 4));
                assert(b.subrange(p + 1, p + 5) =~= le_bytes((v as u32) as nat, 4));
                lemma_le_read(b, p + 1, (v as u32) as nat, 4);
                lemma_small_widths(0, 0, v, 0);
            },
            Data::I64(v) => {
                lemma_le_len((v as u64) as nat, 8);
                lemma_entry_payload(b, p, e, e[0], le_bytes((v as u64) as nat, 8));
                assert(b.subrange(p + 1, p + 9) =~= le_bytes((v as u64) as nat, 8));
                lemma_le_read(b, p + 1, (v as u64) as nat, 8);
                lemma_small_widths(0, 0, 0, v);
            },
            Data::U8(v) => {
                lemma_le_len(v as nat, 1);
                lemma_entry_payload(b, p, e, e[0], le_bytes(v as nat, 1));
                assert(b.subrange(p + 1, p + 2) =~= le_bytes(v as nat, 1));
                lemma_le_read(b, p + 1, v as nat, 1);
            },
            Data::U16(v) => {
                lemma_le_len(v as nat, 2);
                lemma_entry_payload(b, p, e, e[0], le_bytes(v as nat, 2));
                assert(b.subrange(p + 1, p + 3) =~= le_bytes(v as nat, 2));
                lemma_le_read(b, p + 1, v as nat, 2);
            },
            Data::U32(v) => {
                lemma_le_len(v as nat, 4);
                lemma_entry_payload(b, p, e, e[0], le_bytes(v as nat, 4));
                assert(b.subrange(p + 1, p + 5) =~= le_bytes(v as nat, 4));
                lemma_le_read(b, p + 1, v as nat, 4);
            },
            Data::U64(v) => {
                lemma_le_len(v as nat, 8);
                lemma_entry_payload(b, p, e, e[0], le_bytes(v as nat, 8));
                assert(b.subrange(p + 1, p + 9) =~= le_bytes(v as nat, 8));
                lemma_le_read(b, p + 1, v as nat, 8);
            },
            Data::Empty => {},
        }
    }
}

/// What the compiler writes, the machine reads back: the constant table
/// of `ds` parses to the constants of `ds`, in order, each as the machine
/// holds it, and every string in it is valid UTF-8.
pub proof fn law_constants_read_back(ds: Seq<Data>, table: Seq<SymbolValue>)
    requires
        forall|k: int| 0 <= k < ds.len() ==> readable(#[trigger] ds[k], table),
    ensures
        parse_constants(constants_bytes(ds, table), 0) == Some(ds.map_values(|d: Data| as_constant(d, table))),
        texts_valid(ds.map_values(|d: Data| as_constant(d, table))),
{
    let b = constants_bytes(ds, table);
    assert(b.subrange(0, b.len() as int) =~= b);
    lemma_read_from(b, 0, ds, table);
    let cs = ds.map_values(|d: Data| as_constant(d, table));
    assert forall|k: int| 0 <= k < cs.len() implies (#[trigger] cs[k] matches Constant::Text(t) ==> vstd::utf8::valid_utf8(t)) by {
        assert(cs[k] == as_constant(ds[k], table));
    }
}

} // verus!
