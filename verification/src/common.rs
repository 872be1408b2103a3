//! What the toolchain's programs share: reading the command line, source
//! files as the compiler sees them, and the value types of the language.
use vstd::prelude::*;
use vstd::std_specs::iter::IteratorSpec;
use vstd::string::StrSliceExecFns;
use std::vec::IntoIter;
use colored::{ColoredString, Colorize};
use crate::text::{next_item, push_char, str_equal};

verus! {

/// Names of the environment settings the compiler reads.
pub const RELEASE_MODE: &'static str = "AZURITE_COMPILER_RELEASE_MODE";
pub const DUMP_IR: &'static str = "AZURITE_COMPILER_DUMP_IR";
pub const DUMP_IR_FILE: &'static str = "AZURITE_COMPILER_DUMP_IR_FILE";

#[verifier::external_type_specification]
#[verifier::external_body]
pub struct ExColoredString(ColoredString);

/// The text a `ColoredString` holds: its public `input` field, which
/// `colored` fills with the text it is given and which colouring and
/// styling leave as they are.
pub uninterp spec fn painted_input(c: ColoredString) -> Seq<char>;

/// A style prefix as `colored` writes one: an escape, `[`, the codes, `m`.
pub open spec fn style_prefix(p: Seq<char>) -> bool {
    p.len() >= 3 && p[0] == '\x1B' && p[1] == '[' && p.last() == 'm'
}

/// The sequence `colored` ends painted text with.
pub open spec fn reset_sequence() -> Seq<char> {
    seq!['\x1B', '[', '0', 'm']
}

/// `shown` is `text` as `colored` prints it: bare where colouring is off,
/// else between a style prefix and the reset sequence.
pub open spec fn painting_of(text: Seq<char>, shown: Seq<char>) -> bool {
    shown == text || exists|p: Seq<char>| style_prefix(p) && shown == p + text + reset_sequence()
}

/// Calls `Colorize::red` on a string slice: the text, marked red.
#[verifier::external_body]
fn red(s: &str) -> (r: ColoredString)
    ensures
        painted_input(r) == s@,
{
    s.red()
}

/// Calls `ColoredString::bold`: the same text, marked bold as well.
#[verifier::external_body]
fn bold(s: ColoredString) -> (r: ColoredString)
    ensures
        painted_input(r) == painted_input(s),
{
    s.bold()
}

/// Formats a `ColoredString` through its `Display`. Where the text holds
/// no escape character, that gives the text itself when colouring is off
/// (which the terminal and the environment decide) and otherwise the text
/// between the style prefix `colored` computes and the reset sequence;
/// which codes the prefix holds is left unsaid.
#[verifier::external_body]
pub(crate) fn colored_text(s: ColoredString) -> (r: String)
    ensures
        !painted_input(s).contains('\x1B') ==> painting_of(painted_input(s), r@),
{
    s.to_string()
}

/// A `--name=value` setting given on the command line.
#[derive(PartialEq, Eq, Debug, Clone)]
pub struct EnvironmentParameter {
    pub identifier: String,
    pub value: String,
}

/// `s` ends with `t`.
pub open spec fn ends_with(s: Seq<char>, t: Seq<char>) -> bool {
    t.len() <= s.len() && s.subrange(s.len() - t.len(), s.len() as int) == t
}

/// The index of the first `=` in `s`.
pub open spec fn first_equals(s: Seq<char>) -> Option<int>
    decreases s.len(),
{
    if s.len() == 0 {
        None
    } else if s[0] == '=' {
        Some(0)
    } else {
        match first_equals(s.drop_first()) {
            Some(i) => Some(i + 1),
            None => None,
        }
    }
}

/// An argument that starts with two dashes names a setting.
pub open spec fn is_setting(arg: Seq<char>) -> bool {
    arg.len() >= 2 && arg[0] == '-' && arg[1] == '-'
}

/// The name and value of a setting: what follows the dashes, split at the
/// first `=`; a setting without `=` has the value `1`.
pub open spec fn setting(arg: Seq<char>) -> (Seq<char>, Seq<char>) {
    let rest = arg.skip(2);
    match first_equals(rest) {
        Some(i) => (rest.take(i), rest.skip(i + 1)),
        None => (rest, seq!['1']),
    }
}

/// The settings among `args`, in order; other arguments are ignored.
pub open spec fn settings(args: Seq<Seq<char>>) -> Seq<(Seq<char>, Seq<char>)>
    decreases args.len(),
{
    if args.len() == 0 {
        Seq::empty()
    } else {
        let rest = settings(args.drop_last());
        if is_setting(args.last()) {
            rest.push(setting(args.last()))
        } else {
            rest
        }
    }
}

pub open spec fn parameters_view(ps: Seq<EnvironmentParameter>) -> Seq<(Seq<char>, Seq<char>)> {
    ps.map_values(|p: EnvironmentParameter| (p.identifier@, p.value@))
}

pub open spec fn strings_view(ss: Seq<String>) -> Seq<Seq<char>> {
    ss.map_values(|s: String| s@)
}

/// Reads the name and value of a setting.
fn parse_setting(arg: &str) -> (r: EnvironmentParameter)
    requires
        is_setting(arg@),
    ensures
        (r.identifier@, r.value@) == setting(arg@),
{
    let n = arg.unicode_len();
    let mut i: usize = 2;
    while i < n
        invariant
            2 <= i <= n,
            n == arg@.len(),
            first_equals(arg@.skip(2)) == match first_equals(arg@.skip(i as int)) {
                Some(k) => Some(k + (i - 2)),
                None => None,
            },
        decreases n - i,
    {
        if arg.get_char(i) == '=' {
            proof {
                assert(arg@.skip(i as int)[0] == '=');
            }
            let identifier = arg.substring_char(2, i).to_owned();
            let value = arg.substring_char(i + 1, n).to_owned();
            proof {
                assert(arg@.skip(2).take(i - 2) =~= arg@.subrange(2, i as int));
                assert(arg@.skip(2).skip(i - 2 + 1) =~= arg@.subrange(i + 1, n as int));
            }
            return EnvironmentParameter { identifier, value };
        }
        proof {
            assert(arg@.skip(i as int).drop_first() =~= arg@.skip(i + 1));
        }
        i = i + 1;
    }
    proof {
        assert(arg@.skip(i as int).len() == 0);
        assert(arg@.skip(2) =~= arg@.subrange(2, n as int));
    }
    let identifier = arg.substring_char(2, n).to_owned();
    let value = String::from_str("1");
    proof {
        reveal_strlit("1");
    }
    EnvironmentParameter { identifier, value }
}

/// Reads the command line: the program's path, then the file to work on,
/// then any number of arguments, of which those that start with `--` are
/// settings. Fails when no file is given.
pub fn parse_args(arguments: IntoIter<String>) -> (r: Result<(String, Vec<EnvironmentParameter>), String>)
    requires
        arguments.decrease() is Some,
    ensures
        arguments.remaining().len() < 2 <==> r is Err,
        r matches Err(e) ==> ends_with(e@, " azurite %file name%"@),
        r matches Ok((file, ps)) ==> {
            &&& file@ == arguments.remaining()[1]@
            &&& parameters_view(ps@) == settings(strings_view(arguments.remaining().skip(2)))
        },
{
    let mut arguments = arguments;
    let ghost all = arguments.remaining();
    next_item(&mut arguments);
    let provided_file_name = match next_item(&mut arguments) {
        Some(v) => v,
        None => {
            let message = colored_text(bold(red("invalid usage:")));
            let e = message.concat(" azurite %file name%");
            proof {
                let s = " azurite %file name%"@;
                assert(e@.subrange(e@.len() - s.len(), e@.len() as int) =~= s);
            }
            return Err(e);
        },
    };
    let mut environment_parameters: Vec<EnvironmentParameter> = Vec::new();
    let ghost rest = arguments.remaining();
    assert(rest == all.skip(2));
    loop
        invariant
            arguments.obeys_prophetic_iter_laws(),
            arguments.decrease() is Some,
            all.len() >= 2,
            rest == all.skip(2),
            provided_file_name@ == all[1]@,
            rest.len() >= arguments.remaining().len(),
            arguments.remaining() == rest.skip(rest.len() - arguments.remaining().len()),
            parameters_view(environment_parameters@)
                == settings(strings_view(rest.take(rest.len() - arguments.remaining().len()))),
        ensures
            parameters_view(environment_parameters@) == settings(strings_view(rest)),
        decreases arguments.decrease()->0,
    {
        let ghost before = arguments.remaining();
        let ghost done = rest.len() - before.len();
        match next_item(&mut arguments) {
            Some(arg) => {
                proof {
                    assert(rest.take(done + 1) =~= rest.take(done).push(arg));
                    assert(strings_view(rest.take(done + 1)) =~= strings_view(rest.take(done)).push(arg@));
                    assert(strings_view(rest.take(done + 1)).drop_last() =~= strings_view(rest.take(done)));
                    assert(strings_view(rest.take(done + 1)).last() == arg@);
                    assert(arguments.remaining() =~= rest.skip(rest.len() - arguments.remaining().len()));
                }
                let s = arg.as_str();
                if s.unicode_len() >= 2 && s.get_char(0) == '-' && s.get_char(1) == '-' {
                    let p = parse_setting(s);
                    proof {
                        assert(parameters_view(environment_parameters@.push(p))
                            =~= parameters_view(environment_parameters@).push((p.identifier@, p.value@)));
                    }
                    environment_parameters.push(p);
                }
            },
            None => {
                proof {
                    assert(rest.take(rest.len() as int) =~= rest);
                }
                break;
            },
        }
    }
    Ok((provided_file_name, environment_parameters))
}

/// `s` without its carriage returns.
pub open spec fn without_cr(s: Seq<char>) -> Seq<char>
    decreases s.len(),
{
    if s.len() == 0 {
        Seq::empty()
    } else if s.last() == '\r' {
        without_cr(s.drop_last())
    } else {
        without_cr(s.drop_last()).push(s.last())
    }
}

/// A source file: where it came from and its text.
#[derive(Debug, Default)]
pub struct FileData {
    pub path: String,
    pub data: String,
}

impl FileData {
    /// A source file whose text has its carriage returns removed.
    pub fn new(path: String, data: &str) -> (r: FileData)
        ensures
            r.path@ == path@,
            r.data@ == without_cr(data@),
    {
        let mut text = String::new();
        let mut chars = data.chars();
        let ghost all = chars.remaining();
        proof {
            broadcast use vstd::string::axiom_spec_iter;
        }
        loop
            invariant
                chars.obeys_prophetic_iter_laws(),
                chars.decrease() is Some,
                all == data@,
                all.len() >= chars.remaining().len(),
                chars.remaining() == all.skip(all.len() - chars.remaining().len()),
                text@ == without_cr(all.take(all.len() - chars.remaining().len())),
            ensures
                text@ == without_cr(data@),
            decreases chars.decrease()->0,
        {
            let ghost done = all.len() - chars.remaining().len();
            match next_item(&mut chars) {
                Some(c) => {
                    proof {
                        assert(all.take(done + 1).drop_last() =~= all.take(done));
                        assert(all.take(done + 1).last() == c);
                        assert(chars.remaining() =~= all.skip(all.len() - chars.remaining().len()));
                    }
                    if c != '\r' {
                        push_char(&mut text, c);
                    }
                },
                None => {
                    proof {
                        assert(all.take(all.len() as int) =~= all);
                    }
                    break;
                },
            }
        }
        FileData { path, data: text }
    }
}

/// The types of the language's values as the runtime knows them.
#[derive(Clone, PartialEq, Eq, Debug)]
pub enum DataType {
    Integer,
    Float,
    String,
    Bool,
    Struct(String),
    Empty,
}

impl DataType {
    /// The byte that stands for the type in compiled code; the unit type
    /// has none.
    pub fn into_byte_representation(&self) -> (r: u8)
        requires
            !(*self is Empty),
        ensures
            r == match *self {
                DataType::Integer => 0u8,
                DataType::Float => 1,
                DataType::String => 2,
                DataType::Bool => 3,
                _ => 4,
            },
    {
        match self {
            DataType::Integer => 0,
            DataType::Float => 1,
            DataType::String => 2,
            DataType::Bool => 3,
            DataType::Struct(_) => 4,
            DataType::Empty => 4,
        }
    }

    /// The type a byte stands for; only the four primitive types are
    /// read back.
    pub fn from_byte_representation(v: u8) -> (r: Option<DataType>)
        ensures
            r == if v == 0 {
                Some(DataType::Integer)
            } else if v == 1 {
                Some(DataType::Float)
            } else if v == 2 {
                Some(DataType::String)
            } else if v == 3 {
                Some(DataType::Bool)
            } else {
                None
            },
    {
        match v {
            0 => Some(DataType::Integer),
            1 => Some(DataType::Float),
            2 => Some(DataType::String),
            3 => Some(DataType::Bool),
            _ => None,
        }
    }

    /// The type a name in source code stands for; any name that is not a
    /// built-in type names a structure.
    pub fn from_string(v: &str) -> (r: DataType)
        ensures
            v@ == "()"@ ==> r == DataType::Empty,
            v@ == "int"@ ==> r == DataType::Integer,
            v@ == "bool"@ ==> r == DataType::Bool,
            v@ == "float"@ ==> r == DataType::Float,
            v@ == "str"@ ==> r == DataType::String,
            v@ != "()"@ && v@ != "int"@ && v@ != "bool"@ && v@ != "float"@ && v@ != "str"@
                ==> (r matches DataType::Struct(s) && s@ == v@),
    {
        proof {
            reveal_strlit("()");
            reveal_strlit("int");
            reveal_strlit("bool");
            reveal_strlit("float");
            reveal_strlit("str");
            assert("()"@ =~= seq!['(', ')']);
            assert("int"@ =~= seq!['i', 'n', 't']);
            assert("bool"@ =~= seq!['b', 'o', 'o', 'l']);
            assert("float"@ =~= seq!['f', 'l', 'o', 'a', 't']);
            assert("str"@ =~= seq!['s', 't', 'r']);
        }
        if str_equal(v, "()") {
            DataType::Empty
        } else if str_equal(v, "int") {
            DataType::Integer
        } else if str_equal(v, "bool") {
            DataType::Bool
        } else if str_equal(v, "float") {
            DataType::Float
        } else if str_equal(v, "str") {
            DataType::String
        } else {
            DataType::Struct(v.to_owned())
        }
    }

    /// The type's name as source code writes it: a structure by its name.
    pub fn to_string(&self) -> (r: String)
        ensures
            r@ == type_text(*self),
    {
        proof {
            reveal_strlit("()");
            reveal_strlit("int");
            reveal_strlit("bool");
            reveal_strlit("float");
            reveal_strlit("str");
        }
        match self {
            DataType::Integer => "int".to_owned(),
            DataType::Float => "float".to_owned(),
            DataType::String => "str".to_owned(),
            DataType::Bool => "bool".to_owned(),
            DataType::Struct(name) => name.clone(),
            DataType::Empty => "()".to_owned(),
        }
    }

    /// How many bytes a value of the type takes; strings have no fixed
    /// size (`usize::MAX`), structures are references (0 here).
    pub fn size(&self) -> (r: usize)
        requires
            !(*self is Empty),
        ensures
            r == match *self {
                DataType::Integer => 8usize,
                DataType::Float => 8,
                DataType::String => usize::MAX,
                DataType::Bool => 1,
                _ => 0,
            },
    {
        match self {
            DataType::Integer | DataType::Float => 8,
            DataType::String => usize::MAX,
            DataType::Bool => 1,
            DataType::Struct(_) => 0,
            DataType::Empty => 0,
        }
    }
}

/// The names of the built-in types.
pub open spec fn builtin_name(n: Seq<char>) -> bool {
    n == seq!['(', ')'] || n == seq!['i', 'n', 't'] || n == seq!['b', 'o', 'o', 'l']
        || n == seq!['f', 'l', 'o', 'a', 't'] || n == seq!['s', 't', 'r']
}

/// A type's name as source code writes it.
pub open spec fn type_text(d: DataType) -> Seq<char> {
    match d {
        DataType::Integer => seq!['i', 'n', 't'],
        DataType::Float => seq!['f', 'l', 'o', 'a', 't'],
        DataType::String => seq!['s', 't', 'r'],
        DataType::Bool => seq!['b', 'o', 'o', 'l'],
        DataType::Struct(n) => n@,
        DataType::Empty => seq!['(', ')'],
    }
}

/// Reading a type's name back gives the type: the name of a built-in type
/// is that type's, and any other name is the structure of that name, so
/// `from_string` undoes `to_string` for every type but a structure named
/// like a built-in type.
pub proof fn law_type_name_read_back(d: DataType)
    requires
        !(d matches DataType::Struct(n) && builtin_name(n@)),
    ensures
        (type_text(d) == seq!['(', ')']) == (d is Empty),
        (type_text(d) == seq!['i', 'n', 't']) == (d is Integer),
        (type_text(d) == seq!['b', 'o', 'o', 'l']) == (d is Bool),
        (type_text(d) == seq!['f', 'l', 'o', 'a', 't']) == (d is Float),
        (type_text(d) == seq!['s', 't', 'r']) == (d is String),
        !builtin_name(type_text(d)) ==> (d matches DataType::Struct(n) && n@ == type_text(d)),
{
    assert(seq!['(', ')'] != seq!['i', 'n', 't']);
    assert(seq!['b', 'o', 'o', 'l'] != seq!['s', 't', 'r']);
    assert(seq!['b', 'o', 'o', 'l'] != seq!['f', 'l', 'o', 'a', 't']);
    assert(seq!['i', 'n', 't'] != seq!['s', 't', 'r']);
    assert(seq!['i', 'n', 't'][0] != seq!['s', 't', 'r'][0]);
}

/// The default value of `T`, whatever `T`'s `Default` gives; for the
/// integer types and `bool`, vstd fixes it as 0 and `false`.
pub fn default<T: Default>() -> (r: T) {
    T::default()
}

} // verus!
