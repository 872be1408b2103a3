use azurite::ast::Data;
use azurite::ast_to_ir::ExternFunction;
use azurite::bytecode::Bytecode;
use azurite::codegen::{codegen, BytecodeModule};
use azurite::ir::{Block, BlockIndex, BlockTerminator, Function, FunctionIndex, Variable, IR};
use azurite::common::DataType;
use azurite::constants::convert_constants_to_bytes;
use azurite::similarity::damerau_levenshtein;
use azurite::source::{line_at_index, start_of_line};
use azurite::symbol_table::{SymbolIndex, SymbolTable};
use azurite::vm::constant_table_valid;

#[test]
fn a_default_table_is_a_new_table() {
    let mut a = SymbolTable::default();
    let mut b = SymbolTable::new();
    assert_eq!(a.find("@<"), Some(SymbolIndex(0)));
    assert_eq!(a.find(">@"), Some(SymbolIndex(1)));
    assert_eq!(a.add(String::from("x")), SymbolIndex(2));
    assert_eq!(b.add(String::from("x")), SymbolIndex(2));
}

#[test]
fn combos_show_both_halves_and_are_interned_once() {
    let mut table = SymbolTable::new();
    let a = table.add(String::from("std"));
    let b = table.add(String::from("print"));
    let c = table.add_combo(a, b);
    assert_eq!(table.get(&c), "std::print");
    assert_eq!(table.add_combo(a, b), c);
}

#[test]
fn stripping_generics_gives_the_name_back() {
    let mut table = SymbolTable::new();
    let name = table.add(String::from("List"));
    let arg = table.add(String::from("int"));
    let generic = table.add_generics(name, &[arg]);
    assert_ne!(generic, name);
    assert_eq!(table.get_name_without_generics(generic), name);
}

#[test]
fn type_names_read_back() {
    for d in [DataType::Integer, DataType::Float, DataType::String, DataType::Bool, DataType::Empty,
        DataType::Struct(String::from("Point"))] {
        assert_eq!(DataType::from_string(&d.to_string()), d);
    }
    assert_eq!(DataType::Integer.to_string(), "int");
}

#[test]
fn edit_distance_is_symmetric_and_zero_on_equal_texts() {
    assert_eq!(damerau_levenshtein("kitten", "sitting"), damerau_levenshtein("sitting", "kitten"));
    assert_eq!(damerau_levenshtein("ab", "ba"), 1);
    assert_eq!(damerau_levenshtein("same", "same"), 0);
    assert_eq!(damerau_levenshtein("", "héllo"), 5);
    assert_eq!(damerau_levenshtein("héllo", ""), 5);
}

#[test]
fn the_line_holding_an_index_starts_at_or_before_it() {
    let text = "ab\ncd\nef";
    for index in 0..text.len() {
        let (line, i) = line_at_index(text, index).unwrap();
        let start = start_of_line(text, i);
        assert!(start <= index && index <= start + line.len());
    }
    assert_eq!(start_of_line("ab\ncd", 1), 3);
    assert_eq!(start_of_line("ab\ncd", 0), 0);
}

#[test]
fn constants_are_written_as_the_machine_reads_them() {
    let mut table = SymbolTable::new();
    let hi = table.add(String::from("hi"));
    let constants = vec![Data::I8(-2), Data::U16(513), Data::Bool(true), Data::String(hi), Data::Float(1.5f64.to_bits())];
    let bytes = convert_constants_to_bytes(constants, &table);
    let mut expected = vec![3u8, 0xfe, 8, 1, 2, 1, 1, 2];
    expected.extend_from_slice(&2u64.to_le_bytes());
    expected.extend_from_slice(b"hi");
    expected.push(0);
    expected.extend_from_slice(&1.5f64.to_le_bytes());
    assert_eq!(bytes, expected);
    assert!(constant_table_valid(&bytes));
}

#[test]
fn calls_are_linked_to_the_start_of_their_function() {
    let mut module = BytecodeModule::new();
    module.ir(IR::Unit { dst: Variable(0) });
    module.ir(IR::Call { dst: Variable(1), id: FunctionIndex(3), args: vec![Variable(2)] });
    assert_eq!(module.function_calls, vec![(FunctionIndex(3), 2)]);
    assert_eq!(&module.bytecode[3..7], &[255, 255, 255, 255]);
    module.link_calls(&vec![(FunctionIndex(1), 7), (FunctionIndex(3), 0x0102_0304)]);
    assert_eq!(&module.bytecode[3..7], &[4, 3, 2, 1]);
    assert_eq!(&module.bytecode[0..2], &[module.bytecode[0], 0]);
}

fn one_block(index: u32, instructions: Vec<IR>, ending: BlockTerminator) -> Block {
    Block { block_index: BlockIndex(index), instructions, ending }
}

#[test]
fn a_program_is_written_function_by_function_with_calls_linked() {
    let mut table = SymbolTable::new();
    let lib = table.add(String::from("m"));
    let name = table.add(String::from("f"));
    let main = Function {
        identifier: SymbolIndex(0),
        function_index: FunctionIndex(0),
        argument_count: 0,
        variable_counter: 2,
        stack_size: 2,
        blocks: vec![
            one_block(0, vec![IR::Call { dst: Variable(1), id: FunctionIndex(1), args: vec![] }], BlockTerminator::Goto(BlockIndex(1))),
            one_block(1, vec![], BlockTerminator::Return),
        ],
        entry: BlockIndex(0),
    };
    let callee = Function {
        identifier: SymbolIndex(0),
        function_index: FunctionIndex(1),
        argument_count: 0,
        variable_counter: 1,
        stack_size: 1,
        blocks: vec![one_block(0, vec![IR::Unit { dst: Variable(0) }], BlockTerminator::Return)],
        entry: BlockIndex(0),
    };
    let externs = vec![(lib, vec![ExternFunction { identifier: name, function_index: FunctionIndex(0), file: lib, path: name }])];
    let code = codegen(&table, &externs, &vec![main, callee]);
    let op = |b: Bytecode| b.as_u8();
    let mut expected = vec![op(Bytecode::ExternFile), b'm', 0, 1, 0, 0, 0, 0, b'f', 0];
    let base = expected.len() as u32;
    let callee_start = base + 2 + 7 + 5 + 3;
    expected.extend_from_slice(&[op(Bytecode::Push), 2, op(Bytecode::Call)]);
    expected.extend_from_slice(&callee_start.to_le_bytes());
    expected.extend_from_slice(&[1, 0, op(Bytecode::Jump)]);
    expected.extend_from_slice(&(base + 2 + 7 + 5).to_le_bytes());
    expected.extend_from_slice(&[op(Bytecode::Pop), 1, op(Bytecode::Return)]);
    expected.extend_from_slice(&[op(Bytecode::Push), 1, op(Bytecode::Unit), 0, op(Bytecode::Pop), 0, op(Bytecode::Return)]);
    assert_eq!(code, expected);
}
