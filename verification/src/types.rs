//! The compiler's view of types and source positions: source ranges,
//! the types of the language (structures named by the symbol table and
//! carrying their generic arguments), the table of generic argument lists,
//! and the stack of variables in scope.
use vstd::prelude::*;
use crate::symbol_table::{SymbolIndex, SymbolTable, SymbolValue, spec_text, spec_find_root, spec_strip_generics, spec_intern};

verus! {

/// A span of source text, from byte `start` to byte `end`.
#[derive(Debug, PartialEq, Eq, Clone, Copy, Structural)]
pub struct SourceRange {
    pub start: usize,
    pub end: usize,
}

impl SourceRange {
    pub fn new(start: usize, end: usize) -> (r: SourceRange)
        ensures
            r == (SourceRange { start, end }),
    {
        SourceRange { start, end }
    }

    /// The span from the start of `start` to the end of `end`.
    pub fn combine(start: SourceRange, end: SourceRange) -> (r: SourceRange)
        ensures
            r == (SourceRange { start: start.start, end: end.end }),
    {
        SourceRange { start: start.start, end: end.end }
    }
}

/// A type of the language.
#[derive(Debug, PartialEq)]
pub enum DataType {
    I8,
    I16,
    I32,
    I64,
    U8,
    U16,
    U32,
    U64,
    Float,
    String,
    Bool,
    Empty,
    Any,
    /// A structure: its name and its generic arguments.
    Struct(SymbolIndex, Vec<SourcedDataType>),
}

/// A type together with where it was written.
#[derive(Debug, PartialEq)]
pub struct SourcedDataType {
    pub source_range: SourceRange,
    pub data_type: DataType,
}

impl SourcedDataType {
    pub fn new(source_range: SourceRange, data_type: DataType) -> (r: SourcedDataType)
        ensures
            r.source_range == source_range,
            r.data_type == data_type,
    {
        SourcedDataType { source_range, data_type }
    }
}

/// The name of a built-in type.
pub open spec fn builtin_name(t: DataType) -> Seq<char> {
    match t {
        DataType::I8 => seq!['i', '8'],
        DataType::I16 => seq!['i', '1', '6'],
        DataType::I32 => seq!['i', '3', '2'],
        DataType::I64 => seq!['i', '6', '4'],
        DataType::U8 => seq!['u', '8'],
        DataType::U16 => seq!['u', '1', '6'],
        DataType::U32 => seq!['u', '3', '2'],
        DataType::U64 => seq!['u', '6', '4'],
        DataType::Float => seq!['f', 'l', 'o', 'a', 't'],
        DataType::String => seq!['s', 't', 'r'],
        DataType::Bool => seq!['b', 'o', 'o', 'l'],
        DataType::Empty => seq!['(', ')'],
        DataType::Any => seq!['a', 'n', 'y'],
        DataType::Struct(..) => Seq::empty(),
    }
}

/// The name of a type: a built-in's name, or a structure's symbol text.
pub open spec fn type_identifier(t: DataType, e: Seq<SymbolValue>) -> Seq<char> {
    match t {
        DataType::Struct(v, _) => spec_text(e, v.0 as nat),
        _ => builtin_name(t),
    }
}

/// The generic markers can be stripped from the name of every structure
/// in `t`, at any depth.
pub open spec fn type_names_ok(t: DataType, e: Seq<SymbolValue>) -> bool
    decreases t,
{
    match t {
        DataType::Struct(v, gs) => {
            &&& v.0 < e.len()
            &&& spec_strip_generics(e, spec_find_root(e, v.0 as nat).0, spec_find_root(e, v.0 as nat).1) is Some
            &&& forall|i: int| 0 <= i < gs@.len() ==> type_names_ok(#[trigger] gs@[i].data_type, e)
        },
        _ => true,
    }
}

/// How a type is shown to the user: a structure by its name without
/// generic markers, followed by its generic arguments in brackets.
pub open spec fn type_text(t: DataType, e: Seq<SymbolValue>) -> Seq<char>
    decreases t,
{
    match t {
        DataType::Struct(v, gs) => {
            let name = spec_text(e, spec_strip_generics(e, spec_find_root(e, v.0 as nat).0, spec_find_root(e, v.0 as nat).1)->0);
            if gs@.len() == 0 {
                name
            } else {
                name + seq!['['] + generics_text(gs@, e) + seq![']']
            }
        },
        _ => builtin_name(t),
    }
}

/// The texts of a list of types joined by `, `.
pub open spec fn generics_text(gs: Seq<SourcedDataType>, e: Seq<SymbolValue>) -> Seq<char>
    decreases gs,
{
    if gs.len() == 0 {
        Seq::empty()
    } else if gs.len() == 1 {
        type_text(gs[0].data_type, e)
    } else {
        generics_text(gs.drop_last(), e) + seq![',', ' '] + type_text(gs.last().data_type, e)
    }
}

impl DataType {
    pub fn is_signed_integer(&self) -> (r: bool)
        ensures
            r == (*self is I8 || *self is I16 || *self is I32 || *self is I64),
    {
        match self {
            DataType::I8 | DataType::I16 | DataType::I32 | DataType::I64 => true,
            _ => false,
        }
    }

    /// Values of this type live in the heap.
    pub fn is_obj(&self) -> (r: bool)
        ensures
            r == (*self is String || *self is Struct),
    {
        match self {
            DataType::String | DataType::Struct(..) => true,
            _ => false,
        }
    }

    fn builtin(&self) -> (r: String)
        requires
            !(*self is Struct),
        ensures
            r@ == builtin_name(*self),
    {
        let s = match self {
            DataType::I8 => "i8",
            DataType::I16 => "i16",
            DataType::I32 => "i32",
            DataType::I64 => "i64",
            DataType::U8 => "u8",
            DataType::U16 => "u16",
            DataType::U32 => "u32",
            DataType::U64 => "u64",
            DataType::Float => "float",
            DataType::String => "str",
            DataType::Bool => "bool",
            DataType::Empty => "()",
            DataType::Any => "any",
            DataType::Struct(..) => "",
        };
        proof {
            reveal_strlit("i8");
            reveal_strlit("i16");
            reveal_strlit("i32");
            reveal_strlit("i64");
            reveal_strlit("u8");
            reveal_strlit("u16");
            reveal_strlit("u32");
            reveal_strlit("u64");
            reveal_strlit("float");
            reveal_strlit("str");
            reveal_strlit("bool");
            reveal_strlit("()");
            reveal_strlit("any");
        }
        let r = String::from_str(s);
        assert(r@ =~= builtin_name(*self));
        r
    }

    /// The type's name: a structure's full symbol text, generic markers
    /// included.
    pub fn identifier(&self, symbol_table: &SymbolTable) -> (r: String)
        requires
            symbol_table.wf(),
            self matches DataType::Struct(v, _) ==> v.0 < symbol_table@.len(),
        ensures
            r@ == type_identifier(*self, symbol_table@),
    {
        match self {
            DataType::Struct(v, _) => symbol_table.get(v),
            _ => self.builtin(),
        }
    }

    /// How the type is shown in messages: a structure without its generic
    /// markers, then its generic arguments as `[a, b]`.
    pub fn to_string(&self, symbol_table: &SymbolTable) -> (r: String)
        requires
            symbol_table.wf(),
            type_names_ok(*self, symbol_table@),
        ensures
            r@ == type_text(*self, symbol_table@),
        decreases self,
    {
        match self {
            DataType::Struct(v, generics) => {
                let base = symbol_table.get_name_without_generics(*v);
                let mut string = symbol_table.get(&base);
                if generics.len() > 0 {
                    let ghost name = string@;
                    proof {
                        reveal_strlit("[");
                        assert(generics@.take(0) =~= Seq::<SourcedDataType>::empty());
                    }
                    string.append("[");
                    let mut i: usize = 0;
                    while i < generics.len()
                        invariant
                            symbol_table.wf(),
                            *self == DataType::Struct(*v, *generics),
                            i <= generics@.len(),
                            forall|j: int| 0 <= j < generics@.len() ==> type_names_ok(#[trigger] generics@[j].data_type, symbol_table@),
                            string@ == name + seq!['['] + generics_text(generics@.take(i as int), symbol_table@),
                        decreases generics@.len() - i,
                    {
                        if i != 0 {
                            string.append(", ");
                        }
                        proof {
                            assert(decreases_to!(*self => (*self)->1));
                            assert(decreases_to!(generics => generics@));
                            assert(decreases_to!(generics@ => generics@[i as int]));
                            assert(decreases_to!(generics@[i as int] => generics@[i as int].data_type));
                            assert(decreases_to!(*self => generics@[i as int].data_type));
                        }
                        let g = generics[i].data_type.to_string(symbol_table);
                        string.append(g.as_str());
                        proof {
                            reveal_strlit(", ");
                            let t = generics@.take(i + 1);
                            assert(t.drop_last() =~= generics@.take(i as int));
                            assert(t.last() == generics@[i as int]);
                        }
                        i = i + 1;
                    }
                    string.append("]");
                    proof {
                        reveal_strlit("[");
                        reveal_strlit("]");
                        assert(generics@.take(generics@.len() as int) =~= generics@);
                    }
                }
                proof {
                    reveal_strlit("[");
                    reveal_strlit("]");
                }
                string
            },
            _ => self.builtin(),
        }
    }

    /// The symbol that names the type: a structure's own, otherwise the
    /// interned name of the built-in type.
    pub fn symbol_index(&self, symbol_table: &mut SymbolTable) -> (r: SymbolIndex)
        requires
            old(symbol_table).wf(),
            self matches DataType::Struct(v, _) ==> v.0 < old(symbol_table)@.len(),
        ensures
            final(symbol_table).wf(),
            match *self {
                DataType::Struct(v, _) => r == v && final(symbol_table)@ == old(symbol_table)@,
                _ => (final(symbol_table)@, r.0 as nat) == spec_intern(old(symbol_table)@, SymbolValue::Text(builtin_name(*self))),
            },
    {
        match self {
            DataType::Struct(v, _) => *v,
            _ => {
                let name = self.identifier(symbol_table);
                symbol_table.add(name)
            },
        }
    }
}

/// The number a generic argument list is stored under.
#[derive(PartialEq, Eq, PartialOrd, Ord, Clone, Copy, Default, Debug, Hash)]
pub struct GenericIndex(pub usize);

/// The generic argument lists met while compiling.
#[derive(Debug, PartialEq)]
pub struct GenericMap {
    map: Vec<Vec<SourcedDataType>>,
}

impl GenericMap {
    pub closed spec fn view(&self) -> Seq<Vec<SourcedDataType>> {
        self.map@
    }

    pub fn new() -> (r: GenericMap)
        ensures
            r.view() == Seq::<Vec<SourcedDataType>>::empty(),
    {
        GenericMap { map: Vec::new() }
    }

    /// Stores a list and returns the number of lists now stored (one past
    /// the index the list was stored at).
    pub fn push(&mut self, generic: Vec<SourcedDataType>) -> (r: GenericIndex)
        ensures
            final(self).view() == old(self).view().push(generic),
            r.0 == final(self).view().len(),
    {
        self.map.push(generic);
        GenericIndex(self.map.len())
    }

    /// The list stored at `index`.
    pub fn get(&self, index: &GenericIndex) -> (r: &Vec<SourcedDataType>)
        requires
            index.0 < self.view().len(),
        ensures
            *r == self.view()[index.0 as int],
    {
        &self.map[index.0]
    }
}

/// The variables in scope, innermost last.
#[derive(Debug, PartialEq)]
pub struct VariableStack {
    values: Vec<(SymbolIndex, SourcedDataType)>,
}

/// The innermost binding of `name` among `vs`.
pub open spec fn innermost(vs: Seq<(SymbolIndex, SourcedDataType)>, name: SymbolIndex) -> Option<SourcedDataType>
    decreases vs.len(),
{
    if vs.len() == 0 {
        None
    } else if vs.last().0 == name {
        Some(vs.last().1)
    } else {
        innermost(vs.drop_last(), name)
    }
}

impl VariableStack {
    pub closed spec fn view(&self) -> Seq<(SymbolIndex, SourcedDataType)> {
        self.values@
    }

    pub fn new() -> (r: VariableStack)
        ensures
            r.view() == Seq::<(SymbolIndex, SourcedDataType)>::empty(),
    {
        VariableStack { values: Vec::new() }
    }

    /// The type of the innermost variable called `name`.
    pub fn find(&self, name: SymbolIndex) -> (r: Option<&SourcedDataType>)
        ensures
            match r {
                Some(t) => innermost(self.view(), name) == Some(*t),
                None => innermost(self.view(), name) is None,
            },
    {
        let mut i = self.values.len();
        assert(self.values@.take(i as int) =~= self.values@);
        while i > 0
            invariant
                i <= self.values@.len(),
                innermost(self.values@, name) == innermost(self.values@.take(i as int), name),
            decreases i,
        {
            if self.values[i - 1].0 == name {
                proof {
                    assert(self.values@.take(i as int).last() == self.values@[i - 1]);
                }
                return Some(&self.values[i - 1].1);
            }
            proof {
                assert(self.values@.take(i as int).drop_last() =~= self.values@.take(i - 1));
            }
            i = i - 1;
        }
        None
    }

    /// Leaves the innermost `amount` variables' scope (all of them if there
    /// are fewer).
    pub fn pop(&mut self, amount: usize)
        ensures
            final(self).view() == old(self).view().take(
                if amount <= old(self).view().len() { old(self).view().len() - amount } else { 0 }),
    {
        let mut k: usize = 0;
        while k < amount
            invariant
                k <= amount,
                self.values@ == old(self).values@.take(
                    if k <= old(self).values@.len() { old(self).values@.len() - k } else { 0 }),
            decreases amount - k,
        {
            let _ = self.values.pop();
            k = k + 1;
        }
    }

    /// Brings a variable into scope.
    pub fn push(&mut self, identifier: SymbolIndex, value: SourcedDataType)
        ensures
            final(self).view() == old(self).view().push((identifier, value)),
    {
        self.values.push((identifier, value));
    }

    /// The number of variables in scope.
    pub fn len(&self) -> (r: usize)
        ensures
            r == self.view().len(),
    {
        self.values.len()
    }
}

impl Default for VariableStack {
    fn default() -> (r: VariableStack)
        ensures
            r.view() == Seq::<(SymbolIndex, SourcedDataType)>::empty(),
    {
        VariableStack::new()
    }
}

/// A numbered compiler error and its text.
pub struct CompilerError<'a>(pub usize, pub &'a str);

impl<'a> CompilerError<'a> {
    pub fn new(id: usize, text: &'a str) -> (r: CompilerError<'a>)
        ensures
            r.0 == id,
            r.1@ == text@,
    {
        CompilerError(id, text)
    }
}

} // verus!
