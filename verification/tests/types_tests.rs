use azurite::ir::{instruction_used_registers, Variable, IR};
use azurite::similarity::{damerau_levenshtein, find_similar_string, min4};
use azurite::symbol_table::SymbolTable;
use azurite::types::{CompilerError, DataType, GenericIndex, GenericMap, SourceRange, SourcedDataType, VariableStack};

#[test]
fn source_ranges() {
    let a = SourceRange::new(3, 5);
    let b = SourceRange::new(10, 12);
    assert_eq!(SourceRange::combine(a, b), SourceRange { start: 3, end: 12 });
}

#[test]
fn type_predicates() {
    assert!(DataType::I32.is_signed_integer());
    assert!(!DataType::U32.is_signed_integer());
    assert!(DataType::String.is_obj());
    assert!(!DataType::Bool.is_obj());
}

#[test]
fn type_names() {
    let mut table = SymbolTable::new();
    assert_eq!(DataType::Float.identifier(&table), "float");
    assert_eq!(DataType::Empty.to_string(&table), "()");
    let point = table.add("Point".to_string());
    let t = DataType::Struct(point, vec![]);
    assert_eq!(t.identifier(&table), "Point");
    assert_eq!(t.to_string(&table), "Point");
    let list = table.add("List".to_string());
    let nested = DataType::Struct(
        list,
        vec![
            SourcedDataType::new(SourceRange::new(0, 1), DataType::I64),
            SourcedDataType::new(SourceRange::new(0, 1), DataType::Struct(point, vec![])),
        ],
    );
    assert_eq!(nested.to_string(&table), "List[i64, Point]");
    assert_eq!(t.symbol_index(&mut table), point);
    let i = DataType::U8.symbol_index(&mut table);
    assert_eq!(table.get(&i), "u8");
    assert_eq!(DataType::U8.symbol_index(&mut table), i);
}

#[test]
fn generic_map_push_returns_count() {
    let mut map = GenericMap::new();
    let first = map.push(vec![]);
    assert_eq!(first, GenericIndex(1));
    let second = map.push(vec![SourcedDataType::new(SourceRange::new(1, 2), DataType::Bool)]);
    assert_eq!(second, GenericIndex(2));
    assert_eq!(map.get(&GenericIndex(1)).len(), 1);
}

#[test]
fn variable_stack_scoping() {
    let mut table = SymbolTable::new();
    let x = table.add("x".to_string());
    let y = table.add("y".to_string());
    let mut stack = VariableStack::new();
    stack.push(x, SourcedDataType::new(SourceRange::new(0, 1), DataType::I8));
    stack.push(y, SourcedDataType::new(SourceRange::new(2, 3), DataType::Bool));
    stack.push(x, SourcedDataType::new(SourceRange::new(4, 5), DataType::Float));
    assert_eq!(stack.len(), 3);
    assert_eq!(stack.find(x).unwrap().data_type, DataType::Float);
    stack.pop(1);
    assert_eq!(stack.find(x).unwrap().data_type, DataType::I8);
    stack.pop(10);
    assert_eq!(stack.len(), 0);
    assert!(stack.find(y).is_none());
}

#[test]
fn compiler_error_fields() {
    let e = CompilerError::new(12, "oops");
    assert_eq!((e.0, e.1), (12, "oops"));
}

#[test]
fn minimum_of_four() {
    assert_eq!(min4(4, 2, 9, 3), 2);
    assert_eq!(min4(1, 1, 1, 0), 0);
}

#[test]
fn distances() {
    assert_eq!(damerau_levenshtein("", ""), 0);
    assert_eq!(damerau_levenshtein("abc", ""), 3);
    assert_eq!(damerau_levenshtein("kitten", "sitting"), 3);
    assert_eq!(damerau_levenshtein("ab", "ba"), 1);
    assert_eq!(damerau_levenshtein("ca", "abc"), 2);
    assert_eq!(damerau_levenshtein("héllo", "hello"), 1);
}

#[test]
fn similar_names() {
    let names = ["print", "println", "format"];
    assert_eq!(find_similar_string("prnt", &names, 3), Some("print"));
    assert_eq!(find_similar_string("xyzxyz", &names, 3), None);
    assert_eq!(find_similar_string("a", &["", "b"], 5), None);
}

#[test]
fn used_registers() {
    let mut storage = vec![Variable(9)];
    instruction_used_registers(&IR::SetField { dst: Variable(1), data: Variable(2), index: 0 }, &mut storage);
    instruction_used_registers(&IR::Call { dst: Variable(0), id: azurite::ir::FunctionIndex(0), args: vec![Variable(4), Variable(5)] }, &mut storage);
    instruction_used_registers(&IR::Unit { dst: Variable(3) }, &mut storage);
    assert_eq!(storage, vec![Variable(9), Variable(2), Variable(1), Variable(4), Variable(5)]);
}
