//! The pieces of the virtual machine that run a program: its values, its
//! register stack, the reader of the bytecode being run, the outcome of a
//! run, and the tables that map bytecode positions back to source lines
//! and function names when an error is reported.
use vstd::prelude::*;
use vstd::bytes::{spec_u32_from_le_bytes, spec_u64_from_le_bytes, u32_from_le_bytes, u64_from_le_bytes};
use vstd::utf8::{valid_utf8, decode_utf8};
use crate::instruction::{zero_at_or_after, u32_at, lemma_zero_bounds};
use crate::text::string_from_utf8;

verus! {

/// A handle to an object in the heap.
#[derive(Debug, Clone, Copy, PartialEq, Eq, Structural)]
pub struct ObjectIndex {
    pub index: u64,
}

impl ObjectIndex {
    pub fn new(index: u64) -> (r: ObjectIndex)
        ensures
            r.index == index,
    {
        ObjectIndex { index }
    }
}

/// A value in a register: a type tag and 64 bits of payload. Integers
/// are stored sign- or zero-extended, a float as its IEEE bits, a bool as
/// 0 or 1, an object as its heap index.
#[derive(Clone, Copy, Debug, PartialEq, Eq, Structural)]
pub struct VMData {
    pub tag: u64,
    pub data: u64,
}

pub const TAG_UNIT: u64 = 0;
pub const TAG_I8: u64 = 1;
pub const TAG_I16: u64 = 2;
pub const TAG_I32: u64 = 3;
pub const TAG_I64: u64 = 4;
pub const TAG_U8: u64 = 5;
pub const TAG_U16: u64 = 6;
pub const TAG_U32: u64 = 7;
pub const TAG_U64: u64 = 8;
pub const TAG_FLOAT: u64 = 9;
pub const TAG_BOOL: u64 = 10;
pub const TAG_STR: u64 = 11;

/// Tags above this one are structure types.
pub const TAG_RESERVED_END: u64 = 256;

impl VMData {
    pub open spec fn spec_is_object(self) -> bool {
        self.tag > TAG_RESERVED_END || self.tag == TAG_STR
    }

    pub fn new(tag: u64, data: u64) -> (r: VMData)
        ensures
            r.tag == tag,
            r.data == data,
    {
        VMData { tag, data }
    }

    pub fn tag(self) -> (r: u64)
        ensures
            r == self.tag,
    {
        self.tag
    }

    pub fn new_unit() -> (r: VMData)
        ensures
            r.tag == TAG_UNIT,
            r.data == 0,
    {
        VMData::new(TAG_UNIT, 0)
    }

    /// A structure value; the tag names its type and must lie above the
    /// reserved tags.
    pub fn new_object(tag: u64, val: ObjectIndex) -> (r: VMData)
        requires
            tag > TAG_RESERVED_END,
        ensures
            r.tag == tag,
            r.data == val.index,
            r.spec_is_object(),
    {
        VMData::new(tag, val.index)
    }

    pub fn new_string(val: ObjectIndex) -> (r: VMData)
        ensures
            r.tag == TAG_STR,
            r.data == val.index,
            r.spec_is_object(),
    {
        VMData::new(TAG_STR, val.index)
    }

    pub fn new_i8(val: i8) -> (r: VMData)
        ensures
            r.tag == TAG_I8,
            r.data as i8 == val,
    {
        proof {
            assert((val as u64) as i8 == val) by (bit_vector);
        }
        VMData::new(TAG_I8, val as u64)
    }

    pub fn new_i16(val: i16) -> (r: VMData)
        ensures
            r.tag == TAG_I16,
            r.data as i16 == val,
    {
        proof {
            assert((val as u64) as i16 == val) by (bit_vector);
        }
        VMData::new(TAG_I16, val as u64)
    }

    pub fn new_i32(val: i32) -> (r: VMData)
        ensures
            r.tag == TAG_I32,
            r.data as i32 == val,
    {
        proof {
            assert((val as u64) as i32 == val) by (bit_vector);
        }
        VMData::new(TAG_I32, val as u64)
    }

    pub fn new_i64(val: i64) -> (r: VMData)
        ensures
            r.tag == TAG_I64,
            r.data as i64 == val,
    {
        proof {
            assert((val as u64) as i64 == val) by (bit_vector);
        }
        VMData::new(TAG_I64, val as u64)
    }

    pub fn new_u8(val: u8) -> (r: VMData)
        ensures
            r.tag == TAG_U8,
            r.data == val,
    {
        VMData::new(TAG_U8, val as u64)
    }

    pub fn new_u16(val: u16) -> (r: VMData)
        ensures
            r.tag == TAG_U16,
            r.data == val,
    {
        VMData::new(TAG_U16, val as u64)
    }

    pub fn new_u32(val: u32) -> (r: VMData)
        ensures
            r.tag == TAG_U32,
            r.data == val,
    {
        VMData::new(TAG_U32, val as u64)
    }

    pub fn new_u64(val: u64) -> (r: VMData)
        ensures
            r.tag == TAG_U64,
            r.data == val,
    {
        VMData::new(TAG_U64, val)
    }

    pub fn new_bool(val: bool) -> (r: VMData)
        ensures
            r.tag == TAG_BOOL,
            r.data == if val { 1u64 } else { 0u64 },
    {
        VMData::new(TAG_BOOL, if val { 1 } else { 0 })
    }

    pub fn as_i8(self) -> (r: i8)
        ensures
            r == self.data as i8,
    {
        self.data as i8
    }

    pub fn as_i16(self) -> (r: i16)
        ensures
            r == self.data as i16,
    {
        self.data as i16
    }

    pub fn as_i32(self) -> (r: i32)
        ensures
            r == self.data as i32,
    {
        self.data as i32
    }

    pub fn as_i64(self) -> (r: i64)
        ensures
            r == self.data as i64,
    {
        self.data as i64
    }

    pub fn as_u8(self) -> (r: u8)
        ensures
            r == self.data as u8,
    {
        self.data as u8
    }

    pub fn as_u16(self) -> (r: u16)
        ensures
            r == self.data as u16,
    {
        self.data as u16
    }

    pub fn as_u32(self) -> (r: u32)
        ensures
            r == self.data as u32,
    {
        self.data as u32
    }

    pub fn as_u64(self) -> (r: u64)
        ensures
            r == self.data,
    {
        self.data
    }

    pub fn as_bool(self) -> (r: bool)
        ensures
            r == (self.data != 0),
    {
        self.data != 0
    }

    pub fn is_i8(self) -> (r: bool)
        ensures
            r == (self.tag == TAG_I8),
    {
        self.tag == TAG_I8
    }

    pub fn is_i16(self) -> (r: bool)
        ensures
            r == (self.tag == TAG_I16),
    {
        self.tag == TAG_I16
    }

    pub fn is_i32(self) -> (r: bool)
        ensures
            r == (self.tag == TAG_I32),
    {
        self.tag == TAG_I32
    }

    pub fn is_i64(self) -> (r: bool)
        ensures
            r == (self.tag == TAG_I64),
    {
        self.tag == TAG_I64
    }

    pub fn is_u8(self) -> (r: bool)
        ensures
            r == (self.tag == TAG_U8),
    {
        self.tag == TAG_U8
    }

    pub fn is_u16(self) -> (r: bool)
        ensures
            r == (self.tag == TAG_U16),
    {
        self.tag == TAG_U16
    }

    pub fn is_u32(self) -> (r: bool)
        ensures
            r == (self.tag == TAG_U32),
    {
        self.tag == TAG_U32
    }

    pub fn is_u64(self) -> (r: bool)
        ensures
            r == (self.tag == TAG_U64),
    {
        self.tag == TAG_U64
    }

    pub fn is_float(self) -> (r: bool)
        ensures
            r == (self.tag == TAG_FLOAT),
    {
        self.tag == TAG_FLOAT
    }

    pub fn is_bool(self) -> (r: bool)
        ensures
            r == (self.tag == TAG_BOOL),
    {
        self.tag == TAG_BOOL
    }

    /// Strings and structures live in the heap.
    pub fn is_object(self) -> (r: bool)
        ensures
            r == self.spec_is_object(),
    {
        self.tag > TAG_RESERVED_END || self.tag == TAG_STR
    }

    /// The heap index of a string or structure value.
    pub fn as_object(self) -> (r: ObjectIndex)
        requires
            self.spec_is_object(),
        ensures
            r.index == self.data,
    {
        ObjectIndex::new(self.data)
    }
}

/// An error that ends a run.
#[derive(Debug, Clone, PartialEq, Eq)]
pub struct FatalError {
    pub index: usize,
    pub message: String,
}

impl FatalError {
    /// An error with the given message, not yet tied to a bytecode
    /// position.
    pub fn new(message: String) -> (r: FatalError)
        ensures
            r.index == usize::MAX,
            r.message@ == message@,
    {
        FatalError { index: usize::MAX, message }
    }

    /// The error's message.
    pub fn read_message(&self) -> (r: String)
        ensures
            r@ == self.message@,
    {
        self.message.clone()
    }
}

/// How a step of the machine, or a whole run, ended.
#[derive(Debug, Clone, PartialEq, Eq)]
pub enum Status {
    Success,
    Failure(FatalError),
    Exit(i32),
}

impl Status {
    pub fn ok() -> (r: Status)
        ensures
            r == Status::Success,
    {
        Status::Success
    }

    /// A failure with the given message.
    pub fn err(message: String) -> (r: Status)
        ensures
            r matches Status::Failure(e) && e.message@ == message@ && e.index == usize::MAX,
    {
        Status::Failure(FatalError::new(message))
    }

    pub fn is_exit(&self) -> (r: bool)
        ensures
            r == (*self is Exit),
    {
        match self {
            Status::Exit(_) => true,
            _ => false,
        }
    }

    pub fn is_err(&self) -> (r: bool)
        ensures
            r == (*self is Failure),
    {
        match self {
            Status::Failure(_) => true,
            _ => false,
        }
    }

    pub fn is_ok(&self) -> (r: bool)
        ensures
            r == (*self is Success),
    {
        match self {
            Status::Success => true,
            _ => false,
        }
    }
}

/// The number of registers the stack holds: the 65536 values the main
/// thread's stack must be able to hold.
pub const STACK_SIZE: usize = 65536;

/// The register stack: the registers of the current call frame start at
/// `stack_offset`; `top` is one past the last register in use.
pub struct Stack {
    values: Vec<VMData>,
    stack_offset: usize,
    top: usize,
}

impl Stack {
    pub closed spec fn values(&self) -> Seq<VMData> {
        self.values@
    }

    pub closed spec fn offset(&self) -> nat {
        self.stack_offset as nat
    }

    pub closed spec fn top(&self) -> nat {
        self.top as nat
    }

    /// Where the current frame starts.
    pub fn get_offset(&self) -> (r: usize)
        ensures
            r == self.offset(),
    {
        self.stack_offset
    }

    /// One past the last register in use.
    pub fn get_top(&self) -> (r: usize)
        ensures
            r == self.top(),
    {
        self.top
    }

    /// The number of slots.
    pub fn size(&self) -> (r: usize)
        ensures
            r == self.values().len(),
    {
        self.values.len()
    }

    /// A stack of `STACK_SIZE` unit values with one register in use.
    pub fn new() -> (r: Stack)
        ensures
            r.values().len() == STACK_SIZE,
            forall|i: int| 0 <= i < STACK_SIZE ==> r.values()[i] == VMData::new_unit_spec(),
            r.offset() == 0,
            r.top() == 1,
    {
        let mut values: Vec<VMData> = Vec::new();
        let mut i: usize = 0;
        while i < STACK_SIZE
            invariant
                i <= STACK_SIZE,
                values@.len() == i,
                forall|j: int| 0 <= j < i ==> values@[j] == VMData::new_unit_spec(),
            decreases STACK_SIZE - i,
        {
            values.push(VMData::new_unit());
            i = i + 1;
        }
        Stack { values, stack_offset: 0, top: 1 }
    }

    /// The register `reg` of the current frame.
    pub fn reg(&self, reg: u8) -> (r: VMData)
        requires
            self.offset() + reg < self.top(),
            self.offset() + reg < self.values().len(),
        ensures
            r == self.values()[self.offset() + reg],
    {
        self.values[reg as usize + self.stack_offset]
    }

    /// Writes the register `reg` of the current frame.
    pub fn set_reg(&mut self, reg: u8, data: VMData)
        requires
            old(self).offset() + reg < old(self).top(),
            old(self).offset() + reg < old(self).values().len(),
        ensures
            final(self).values() == old(self).values().update(old(self).offset() + reg, data),
            final(self).offset() == old(self).offset(),
            final(self).top() == old(self).top(),
    {
        let at = reg as usize + self.stack_offset;
        self.values.set(at, data);
    }

    /// Starts the current frame at `amount`.
    pub fn set_stack_offset(&mut self, amount: usize)
        requires
            amount < old(self).top(),
        ensures
            final(self).values() == old(self).values(),
            final(self).offset() == amount,
            final(self).top() == old(self).top(),
    {
        self.stack_offset = amount;
    }

    /// Takes `amount` more registers into use; fails when that reaches the
    /// end of the stack (the registers stay taken).
    pub fn push(&mut self, amount: usize) -> (r: Status)
        requires
            old(self).top() + amount <= usize::MAX,
        ensures
            final(self).values() == old(self).values(),
            final(self).offset() == old(self).offset(),
            final(self).top() == old(self).top() + amount,
            r is Success <==> final(self).top() < final(self).values().len(),
            r matches Status::Failure(e) ==> e.message@ == "stack overflow"@,
            r is Success || r is Failure,
    {
        self.top = self.top + amount;
        if self.top >= self.values.len() {
            return Status::Failure(FatalError::new(String::from_str("stack overflow")));
        }
        Status::Success
    }

    /// The registers in use, from the bottom of the stack to `top`.
    pub fn in_use(&self) -> (r: &[VMData])
        requires
            self.top() <= self.values().len(),
        ensures
            r@ == self.values().take(self.top() as int),
    {
        let s = self.values.as_slice();
        let r = &s[0..self.top];
        assert(r@ =~= self.values@.take(self.top as int));
        r
    }

    /// Exchanges two slots of the stack, counted from its bottom.
    pub fn swap(&mut self, a: usize, b: usize)
        requires
            a < old(self).values().len(),
            b < old(self).values().len(),
        ensures
            final(self).values() == old(self).values().update(a as int, old(self).values()[b as int]).update(
                b as int,
                old(self).values()[a as int],
            ),
            final(self).offset() == old(self).offset(),
            final(self).top() == old(self).top(),
    {
        let x = self.values[a];
        let y = self.values[b];
        self.values.set(a, y);
        self.values.set(b, x);
    }

    /// Gives `amount` registers back.
    pub fn pop(&mut self, amount: usize)
        requires
            amount <= old(self).top(),
        ensures
            final(self).values() == old(self).values(),
            final(self).offset() == old(self).offset(),
            final(self).top() == old(self).top() - amount,
    {
        self.top = self.top - amount;
    }
}

impl VMData {
    pub open spec fn new_unit_spec() -> VMData {
        VMData { tag: TAG_UNIT, data: 0 }
    }
}

/// The bytecode being run and the position of the next byte to read.
pub struct Code<'a> {
    pub pointer: usize,
    pub code: &'a [u8],
    pub offset: usize,
    pub return_to: u8,
}

impl<'a> Code<'a> {
    pub fn new(code: &'a [u8], offset: usize, return_to: u8) -> (r: Code<'a>)
        ensures
            r.pointer == 0,
            r.code@ == code@,
            r.offset == offset,
            r.return_to == return_to,
    {
        Code { pointer: 0, code, offset, return_to }
    }

    /// Reads one byte.
    pub fn next(&mut self) -> (r: u8)
        requires
            old(self).pointer < old(self).code@.len(),
        ensures
            r == old(self).code@[old(self).pointer as int],
            final(self).pointer == old(self).pointer + 1,
            final(self).code == old(self).code,
            final(self).offset == old(self).offset,
            final(self).return_to == old(self).return_to,
    {
        let result = self.code[self.pointer];
        self.pointer = self.pointer + 1;
        result
    }

    /// Reads four little-endian bytes as a number.
    pub fn u32(&mut self) -> (r: u32)
        requires
            old(self).pointer + 4 <= old(self).code@.len(),
        ensures
            r == u32_at(old(self).code@, old(self).pointer as int),
            final(self).pointer == old(self).pointer + 4,
            final(self).code == old(self).code,
            final(self).offset == old(self).offset,
            final(self).return_to == old(self).return_to,
    {
        let p = self.pointer;
        let len = self.code.len();
        assert(p + 4 <= len);
        let r = u32_from_le_bytes(&self.code[p..p + 4]);
        self.pointer = p + 4;
        r
    }

    /// Reads eight little-endian bytes as a number.
    pub fn u64(&mut self) -> (r: u64)
        requires
            old(self).pointer + 8 <= old(self).code@.len(),
        ensures
            r == spec_u64_from_le_bytes(old(self).code@.subrange(old(self).pointer as int, old(self).pointer + 8)),
            final(self).pointer == old(self).pointer + 8,
            final(self).code == old(self).code,
            final(self).offset == old(self).offset,
            final(self).return_to == old(self).return_to,
    {
        let p = self.pointer;
        let len = self.code.len();
        assert(p + 8 <= len);
        let r = u64_from_le_bytes(&self.code[p..p + 8]);
        self.pointer = p + 8;
        r
    }

    /// Reads a zero-terminated UTF-8 string and steps past its zero byte.
    pub fn string(&mut self) -> (r: String)
        requires
            zero_at_or_after(old(self).code@, old(self).pointer as int) matches Some(e)
                && valid_utf8(old(self).code@.subrange(old(self).pointer as int, e)),
        ensures
            zero_at_or_after(old(self).code@, old(self).pointer as int) matches Some(e)
                && r@ == decode_utf8(old(self).code@.subrange(old(self).pointer as int, e))
                && final(self).pointer == e + 1,
            final(self).code == old(self).code,
            final(self).offset == old(self).offset,
            final(self).return_to == old(self).return_to,
    {
        let ghost start = self.pointer as int;
        let mut bytes: Vec<u8> = Vec::new();
        loop
            invariant_except_break
                zero_at_or_after(self.code@, start) == zero_at_or_after(self.code@, self.pointer as int),
                bytes@ == self.code@.subrange(start, self.pointer as int),
            invariant
                start <= self.pointer,
                self.code == old(self).code,
                self.offset == old(self).offset,
                self.return_to == old(self).return_to,
                start == old(self).pointer,
                zero_at_or_after(self.code@, start) is Some,
            ensures
                zero_at_or_after(self.code@, start) == Some(self.pointer - 1),
                bytes@ == self.code@.subrange(start, self.pointer - 1),
            decreases self.code@.len() - self.pointer,
        {
            proof {
                lemma_zero_bounds(self.code@, self.pointer as int);
            }
            let val = self.next();
            if val == 0 {
                break;
            }
            bytes.push(val);
            assert(bytes@ =~= self.code@.subrange(start, self.pointer as int));
        }
        match string_from_utf8(bytes) {
            Some(s) => s,
            None => {
                assert(false);
                String::new()
            },
        }
    }

    /// Continues at `at`.
    pub fn goto(&mut self, at: usize)
        ensures
            final(self).pointer == at,
            final(self).code == old(self).code,
            final(self).offset == old(self).offset,
            final(self).return_to == old(self).return_to,
    {
        self.pointer = at;
    }

    /// Steps over `amount` bytes.
    pub fn skip(&mut self, amount: usize)
        requires
            old(self).pointer + amount <= usize::MAX,
        ensures
            final(self).pointer == old(self).pointer + amount,
            final(self).code == old(self).code,
            final(self).offset == old(self).offset,
            final(self).return_to == old(self).return_to,
    {
        self.pointer = self.pointer + amount;
    }

    /// Steps back over `amount` bytes.
    pub fn back_skip(&mut self, amount: usize)
        requires
            amount <= old(self).pointer,
        ensures
            final(self).pointer == old(self).pointer - amount,
            final(self).code == old(self).code,
            final(self).offset == old(self).offset,
            final(self).return_to == old(self).return_to,
    {
        self.pointer = self.pointer - amount;
    }
}

/// A register number held in a `usize`.
pub fn convert_usize_to_u8(v: usize) -> (r: u8)
    requires
        v < 256,
    ensures
        r == v,
{
    v as u8
}

/// An error raised by the running program, with the bytecode position it
/// was raised at.
#[derive(Debug, Clone, PartialEq, Eq)]
pub struct RuntimeError {
    pub bytecode_index: u64,
    pub message: String,
}

impl RuntimeError {
    pub fn new(index: u64, message: &str) -> (r: RuntimeError)
        ensures
            r.bytecode_index == index,
            r.message@ == message@,
    {
        RuntimeError::new_string(index, message.to_owned())
    }

    pub fn new_string(index: u64, message: String) -> (r: RuntimeError)
        ensures
            r.bytecode_index == index,
            r.message@ == message@,
    {
        RuntimeError { bytecode_index: index, message }
    }
}

/// The source line of each bytecode position: four little-endian bytes
/// per position.
pub open spec fn line_numbers(bytes: Seq<u8>) -> Seq<u32> {
    Seq::new(bytes.len() / 4, |i: int| spec_u32_from_le_bytes(bytes.subrange(4 * i, 4 * i + 4)))
}

/// Reads the line table; its length must be a multiple of four.
pub fn load_linetable(linetable_bytes: Vec<u8>) -> (r: Vec<u32>)
    requires
        linetable_bytes@.len() % 4 == 0,
    ensures
        r@ == line_numbers(linetable_bytes@),
{
    let mut linetable: Vec<u32> = Vec::new();
    let len = linetable_bytes.len();
    let mut i: usize = 0;
    while i < len
        invariant
            len == linetable_bytes@.len(),
            len % 4 == 0,
            i % 4 == 0,
            i <= len,
            linetable@.len() == i / 4,
            forall|k: int| 0 <= k < i / 4 ==> linetable@[k]
                == spec_u32_from_le_bytes(linetable_bytes@.subrange(4 * k, 4 * k + 4)),
        decreases len - i,
    {
        let line = u32_from_le_bytes(&linetable_bytes.as_slice()[i..i + 4]);
        linetable.push(line);
        i = i + 4;
    }
    assert(linetable@ =~= line_numbers(linetable_bytes@));
    linetable
}

/// The names of a function table: each a length byte and that many bytes;
/// `None` where a name runs past the end.
pub open spec fn function_names(bytes: Seq<u8>) -> Option<Seq<Seq<u8>>>
    decreases bytes.len(),
{
    if bytes.len() == 0 {
        Some(Seq::empty())
    } else {
        let n = bytes[0] as int;
        if 1 + n > bytes.len() {
            None
        } else {
            match function_names(bytes.skip(1 + n)) {
                Some(rest) => Some(seq![bytes.subrange(1, 1 + n)] + rest),
                None => None,
            }
        }
    }
}

/// Reads the function table: the root function first, then every name in
/// the table. The table must be well formed and every name valid UTF-8.
pub fn load_function_table(bytes: Vec<u8>) -> (r: Vec<String>)
    requires
        function_names(bytes@) is Some,
        forall|i: int| 0 <= i < function_names(bytes@)->0.len()
            ==> valid_utf8(#[trigger] function_names(bytes@)->0[i]),
    ensures
        r@.len() == 1 + function_names(bytes@)->0.len(),
        r@[0]@ == "root"@,
        forall|i: int| 0 <= i < function_names(bytes@)->0.len()
            ==> #[trigger] r@[i + 1]@ == decode_utf8(function_names(bytes@)->0[i]),
{
    let mut function_table: Vec<String> = Vec::new();
    function_table.push(String::from_str("root"));
    let ghost names = function_names(bytes@)->0;
    let len = bytes.len();
    let mut p: usize = 0;
    assert(bytes@.skip(0) =~= bytes@);
    assert(names.skip(0) =~= names);
    while p < len
        invariant
            len == bytes@.len(),
            p <= len,
            function_names(bytes@) == Some(names),
            forall|i: int| 0 <= i < names.len() ==> valid_utf8(#[trigger] names[i]),
            function_names(bytes@.skip(p as int)) is Some,
            function_table@.len() >= 1,
            function_table@[0]@ == "root"@,
            names.len() == function_table@.len() - 1 + function_names(bytes@.skip(p as int))->0.len(),
            forall|i: int| 0 <= i < function_table@.len() - 1
                ==> #[trigger] function_table@[i + 1]@ == decode_utf8(names[i]),
            names.skip(function_table@.len() - 1) == function_names(bytes@.skip(p as int))->0,
        decreases len - p,
    {
        let count = bytes[p] as usize;
        proof {
            assert(bytes@.skip(p as int)[0] == count);
            assert(1 + count <= len - p);
        }
        let start = p + 1;
        let end = start + count;
        let mut string_bytes: Vec<u8> = Vec::new();
        let mut k: usize = start;
        while k < end
            invariant
                start <= k <= end <= len,
                len == bytes@.len(),
                string_bytes@ == bytes@.subrange(start as int, k as int),
            decreases end - k,
        {
            string_bytes.push(bytes[k]);
            k = k + 1;
            assert(string_bytes@ =~= bytes@.subrange(start as int, k as int));
        }
        let ghost done = function_table@.len() - 1;
        proof {
            let tail = bytes@.skip(p as int);
            assert(tail.subrange(1, 1 + count as int) =~= bytes@.subrange(start as int, end as int));
            assert(tail.skip(1 + count as int) =~= bytes@.skip(end as int));
            assert(function_names(tail) == Some(seq![tail.subrange(1, 1 + count as int)] + function_names(tail.skip(1 + count as int))->0));
            assert(names.skip(done)[0] == names[done]);
            assert(names[done] == string_bytes@);
            assert(names.skip(done + 1) =~= names.skip(done).drop_first());
        }
        match string_from_utf8(string_bytes) {
            Some(s) => function_table.push(s),
            None => {
                assert(false);
            },
        }
        p = end;
    }
    proof {
        assert(bytes@.skip(p as int).len() == 0);
    }
    function_table
}

} // verus!
