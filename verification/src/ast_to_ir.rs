//! Lowering of the syntax tree into register form: each function of the
//! program becomes a set of blocks of register instructions, and every
//! constant written in the source joins one table of constants.
//!
//! The lowering assumes a tree that semantic analysis accepted: every name
//! it reads is in scope, every function it calls is declared, every cast
//! is to a number type, and every operand is an expression. Under those
//! conditions it is proved not to fail, to append to the table of
//! constants exactly the constants of the tree in the order they are met,
//! and to emit only instructions whose registers lie inside the frame the
//! function reserves and whose constants lie inside the table.
use vstd::prelude::*;
use std::collections::{BTreeMap, BTreeSet};
use vstd::std_specs::iter::IteratorSpec;
use vstd::std_specs::btree::increasing_seq;
use crate::ast::{
    Data, Declaration, Expression, ExternFunctionAST, Instruction, InstructionKind, Statement,
    BinaryOperator, UnaryOperator, size, sizes, field_sizes,
};
use crate::ir::{Block, BlockIndex, BlockTerminator, Function, FunctionIndex, IR, Variable, used_registers};
use crate::optimize::written;
use crate::symbol_table::{SymbolIndex, SymbolTable, SymbolValue, spec_intern};
use crate::types::{DataType, SourceRange};
use crate::bytecode::Bytecode;
use crate::codegen::{lowered_opcode, lowered_binary, lowered_unary, lowered_cast, law_lowered_operation_meaning};
use crate::values::{arith, order, is_arith, is_order, tdiv, trem};
use crate::runtime::{TAG_I8, TAG_I16, TAG_I32, TAG_I64, TAG_U8, TAG_U16, TAG_U32, TAG_U64, TAG_FLOAT};

verus! {

broadcast use vstd::std_specs::btree::group_btree_axioms, vstd::laws_cmp::group_laws_cmp;

/// The types a value can be cast to.
pub open spec fn castable(t: DataType) -> bool {
    ||| t is I8
    ||| t is I16
    ||| t is I32
    ||| t is I64
    ||| t is U8
    ||| t is U16
    ||| t is U32
    ||| t is U64
    ||| t is Float
}

/// The names of the extern functions of one extern block.
pub open spec fn extern_names(fs: Seq<ExternFunctionAST>) -> Set<usize> {
    Set::new(|k: usize| exists|i: int| 0 <= i < fs.len() && fs[i].identifier.0 == k)
}

/// The functions that registering a block's declarations makes known:
/// the functions without generics declared in it, also inside impl blocks.
pub open spec fn declared_functions(items: Seq<Instruction>) -> Set<usize>
    decreases items,
{
    if items.len() == 0 {
        Set::empty()
    } else {
        let rest = declared_functions(items.subrange(1, items.len() as int));
        match items[0].instruction_kind {
            InstructionKind::Declaration(Declaration::FunctionDeclaration { name, generics, .. }) =>
                if generics.len() == 0 { rest.insert(name.0) } else { rest },
            InstructionKind::Declaration(Declaration::ImplBlock { body, .. }) =>
                declared_functions(body@).union(rest),
            _ => rest,
        }
    }
}

/// The extern functions that registering a block's declarations makes known.
pub open spec fn declared_externs(items: Seq<Instruction>) -> Set<usize>
    decreases items,
{
    if items.len() == 0 {
        Set::empty()
    } else {
        let rest = declared_externs(items.subrange(1, items.len() as int));
        match items[0].instruction_kind {
            InstructionKind::Declaration(Declaration::Extern { functions, .. }) =>
                extern_names(functions@).union(rest),
            InstructionKind::Declaration(Declaration::ImplBlock { body, .. }) =>
                declared_externs(body@).union(rest),
            _ => rest,
        }
    }
}

/// The names a function's arguments bring into scope.
pub open spec fn argument_names(arguments: Seq<(SymbolIndex, crate::types::SourcedDataType)>) -> Set<SymbolIndex> {
    Set::new(|s: SymbolIndex| exists|i: int| 0 <= i < arguments.len() && arguments[i].0 == s)
}

/// The variable an instruction of a block brings into scope, if any.
pub open spec fn declared_variable(i: Instruction) -> Option<SymbolIndex> {
    match i.instruction_kind {
        InstructionKind::Statement(Statement::DeclareVar { identifier, .. }) => Some(identifier),
        _ => None,
    }
}

pub open spec fn with_variable(scope: Set<SymbolIndex>, i: Instruction) -> Set<SymbolIndex> {
    match declared_variable(i) {
        Some(v) => scope.insert(v),
        None => scope,
    }
}

/// An operand can be lowered: it is an expression that can be lowered.
/// `scope` holds the variables in scope, `fns` and `exts` the functions and
/// extern functions already known.
pub open spec fn operand_ok(i: Instruction, scope: Set<SymbolIndex>, fns: Set<usize>, exts: Set<usize>) -> bool
    decreases i, 0nat,
{
    match i.instruction_kind {
        InstructionKind::Expression(e) => expression_ok(e, scope, fns, exts),
        _ => false,
    }
}

pub open spec fn operands_ok(args: Seq<Instruction>, scope: Set<SymbolIndex>, fns: Set<usize>, exts: Set<usize>) -> bool
    decreases args, 0nat,
{
    args.len() == 0 || (operand_ok(args[0], scope, fns, exts) && operands_ok(
        args.subrange(1, args.len() as int),
        scope,
        fns,
        exts,
    ))
}

pub open spec fn fields_ok(fields: Seq<(SymbolIndex, Instruction)>, scope: Set<SymbolIndex>, fns: Set<usize>, exts: Set<usize>) -> bool
    decreases fields, 0nat,
{
    fields.len() == 0 || (operand_ok(fields[0].1, scope, fns, exts) && fields_ok(
        fields.subrange(1, fields.len() as int),
        scope,
        fns,
        exts,
    ))
}

pub open spec fn expression_ok(e: Expression, scope: Set<SymbolIndex>, fns: Set<usize>, exts: Set<usize>) -> bool
    decreases e, 0nat,
{
    match e {
        Expression::AsCast { value, cast_type } => castable(cast_type.data_type) && operand_ok(*value, scope, fns, exts),
        Expression::Data(_) => true,
        Expression::BinaryOp { left, right, .. } => operand_ok(*left, scope, fns, exts) && operand_ok(*right, scope, fns, exts),
        Expression::UnaryOp { value, .. } => operand_ok(*value, scope, fns, exts),
        Expression::Block { body } => block_ok(body@, scope, fns, exts),
        Expression::IfExpression { body, condition, else_part } => {
            &&& operand_ok(*condition, scope, fns, exts)
            &&& block_ok(body@, scope, fns, exts)
            &&& match else_part {
                Some(x) => single_ok(*x, scope, fns, exts),
                None => true,
            }
        },
        Expression::Identifier(v) => scope.contains(v),
        Expression::FunctionCall { identifier, arguments, .. } =>
            (fns.contains(identifier.0) || exts.contains(identifier.0)) && operands_ok(arguments@, scope, fns, exts),
        Expression::StructureCreation { fields, .. } => fields_ok(fields@, scope, fns, exts),
        Expression::AccessStructureData { structure, .. } => operand_ok(*structure, scope, fns, exts),
        Expression::WithinNamespace { do_within, .. } => operand_ok(*do_within, scope, fns, exts),
    }
}

/// An instruction of a block, other than a return, can be lowered.
pub open spec fn item_ok(i: Instruction, scope: Set<SymbolIndex>, fns: Set<usize>, exts: Set<usize>) -> bool
    decreases i, 0nat,
{
    match i.instruction_kind {
        InstructionKind::Statement(s) => match s {
            Statement::DeclareVar { data, .. } => single_ok(*data, scope, fns, exts),
            Statement::VariableUpdate { left, right } => operand_ok(*left, scope, fns, exts) && operand_ok(*right, scope, fns, exts),
            Statement::FieldUpdate { structure, right, .. } =>
                operand_ok(*structure, scope, fns, exts) && operand_ok(*right, scope, fns, exts),
            Statement::Loop { body } => block_ok(body@, scope, fns, exts),
            Statement::Break => true,
            Statement::Continue => true,
            Statement::Return(_) => false,
        },
        InstructionKind::Expression(e) => expression_ok(e, scope, fns, exts),
        InstructionKind::Declaration(d) => match d {
            Declaration::FunctionDeclaration { name, arguments, body, generics, .. } =>
                generics.len() != 0 || (fns.contains(name.0) && block_ok(body@, argument_names(arguments@), fns, exts)),
            Declaration::Namespace { body, .. } => block_ok(body@, scope, fns, exts),
            Declaration::ImplBlock { body, .. } => block_ok(body@, scope, fns, exts),
            Declaration::UseFile { file_name } => fns.contains(file_name.0),
            Declaration::StructDeclaration { .. } => true,
            Declaration::Extern { .. } => true,
        },
    }
}

/// The instructions of a block can be lowered in turn, each with the
/// variables the ones before it declared; those after a return are never
/// reached.
pub open spec fn items_ok(items: Seq<Instruction>, scope: Set<SymbolIndex>, fns: Set<usize>, exts: Set<usize>) -> bool
    decreases items, 0nat,
{
    if items.len() == 0 {
        true
    } else {
        match items[0].instruction_kind {
            InstructionKind::Statement(Statement::Return(e)) => operand_ok(*e, scope, fns, exts),
            _ => item_ok(items[0], scope, fns, exts) && items_ok(
                items.subrange(1, items.len() as int),
                with_variable(scope, items[0]),
                fns,
                exts,
            ),
        }
    }
}

/// A block can be lowered, with the functions it declares known.
pub open spec fn block_ok(items: Seq<Instruction>, scope: Set<SymbolIndex>, fns: Set<usize>, exts: Set<usize>) -> bool
    decreases items, 1nat,
{
    items_ok(items, scope, fns.union(declared_functions(items)), exts.union(declared_externs(items)))
}

/// A block of the single instruction `i` can be lowered.
pub open spec fn single_ok(i: Instruction, scope: Set<SymbolIndex>, fns: Set<usize>, exts: Set<usize>) -> bool
    decreases i, 1nat,
{
    let fns2 = fns.union(declared_functions(seq![i]));
    let exts2 = exts.union(declared_externs(seq![i]));
    match i.instruction_kind {
        InstructionKind::Statement(Statement::Return(e)) => operand_ok(*e, scope, fns2, exts2),
        _ => item_ok(i, scope, fns2, exts2),
    }
}

/// The constants lowering an instruction adds to the table, in order.
pub open spec fn literals(i: Instruction) -> Seq<Data>
    decreases i, 0nat,
{
    match i.instruction_kind {
        InstructionKind::Statement(s) => statement_literals(s),
        InstructionKind::Expression(e) => expression_literals(e),
        InstructionKind::Declaration(d) => declaration_literals(d),
    }
}

pub open spec fn operand_list_literals(args: Seq<Instruction>) -> Seq<Data>
    decreases args, 0nat,
{
    if args.len() == 0 {
        Seq::empty()
    } else {
        literals(args[0]) + operand_list_literals(args.subrange(1, args.len() as int))
    }
}

pub open spec fn field_literals(fields: Seq<(SymbolIndex, Instruction)>) -> Seq<Data>
    decreases fields, 0nat,
{
    if fields.len() == 0 {
        Seq::empty()
    } else {
        literals(fields[0].1) + field_literals(fields.subrange(1, fields.len() as int))
    }
}

pub open spec fn statement_literals(s: Statement) -> Seq<Data>
    decreases s, 0nat,
{
    match s {
        Statement::DeclareVar { data, .. } => single_literals(*data),
        Statement::VariableUpdate { left, right } => literals(*left) + literals(*right),
        Statement::FieldUpdate { structure, right, .. } => literals(*structure) + literals(*right),
        Statement::Loop { body } => block_literals(body@),
        Statement::Break => Seq::empty(),
        Statement::Continue => Seq::empty(),
        Statement::Return(_) => Seq::empty(),
    }
}

pub open spec fn expression_literals(e: Expression) -> Seq<Data>
    decreases e, 0nat,
{
    match e {
        Expression::AsCast { value, .. } => literals(*value),
        Expression::Data(d) => if d.data is Empty { Seq::empty() } else { seq![d.data] },
        Expression::BinaryOp { left, right, .. } => literals(*left) + literals(*right),
        Expression::UnaryOp { value, .. } => literals(*value),
        Expression::Block { body } => block_literals(body@),
        Expression::IfExpression { body, condition, else_part } =>
            literals(*condition) + block_literals(body@) + match else_part {
                Some(x) => single_literals(*x),
                None => Seq::empty(),
            },
        Expression::Identifier(_) => Seq::empty(),
        Expression::FunctionCall { arguments, .. } => operand_list_literals(arguments@),
        Expression::StructureCreation { fields, .. } => field_literals(fields@),
        Expression::AccessStructureData { structure, .. } => literals(*structure),
        Expression::WithinNamespace { do_within, .. } => literals(*do_within),
    }
}

pub open spec fn declaration_literals(d: Declaration) -> Seq<Data>
    decreases d, 0nat,
{
    match d {
        Declaration::FunctionDeclaration { body, generics, .. } =>
            if generics.len() == 0 { block_literals(body@) } else { Seq::empty() },
        Declaration::Namespace { body, .. } => block_literals(body@),
        Declaration::ImplBlock { body, .. } => block_literals(body@),
        _ => Seq::empty(),
    }
}

/// The constants lowering a block adds: those of its instructions up to
/// and including the first return.
pub open spec fn block_literals(items: Seq<Instruction>) -> Seq<Data>
    decreases items, 0nat,
{
    if items.len() == 0 {
        Seq::empty()
    } else {
        match items[0].instruction_kind {
            InstructionKind::Statement(Statement::Return(e)) => literals(*e),
            _ => literals(items[0]) + block_literals(items.subrange(1, items.len() as int)),
        }
    }
}

pub open spec fn single_literals(i: Instruction) -> Seq<Data>
    decreases i, 1nat,
{
    match i.instruction_kind {
        InstructionKind::Statement(Statement::Return(e)) => literals(*e),
        _ => literals(i),
    }
}

/// How many functions and extern functions registering a block's
/// declarations can add, counting those inside impl blocks.
pub open spec fn declaration_count(items: Seq<Instruction>) -> nat
    decreases items,
{
    if items.len() == 0 {
        0
    } else {
        let rest = declaration_count(items.subrange(1, items.len() as int));
        match items[0].instruction_kind {
            InstructionKind::Declaration(Declaration::FunctionDeclaration { generics, .. }) =>
                if generics.len() == 0 { rest + 1 } else { rest },
            InstructionKind::Declaration(Declaration::Extern { functions, .. }) => (rest + functions.len()) as nat,
            InstructionKind::Declaration(Declaration::ImplBlock { body, .. }) => declaration_count(body@) + rest,
            _ => rest,
        }
    }
}

/// How many registrations lowering an instruction can make: a bound on
/// how far the counters of functions and extern functions move.
pub open spec fn steps(i: Instruction) -> nat
    decreases i, 0nat,
{
    match i.instruction_kind {
        InstructionKind::Statement(s) => statement_steps(s),
        InstructionKind::Expression(e) => expression_steps(e),
        InstructionKind::Declaration(d) => declaration_steps(d),
    }
}

pub open spec fn operand_list_steps(args: Seq<Instruction>) -> nat
    decreases args, 0nat,
{
    if args.len() == 0 {
        0
    } else {
        steps(args[0]) + operand_list_steps(args.subrange(1, args.len() as int))
    }
}

pub open spec fn field_steps(fields: Seq<(SymbolIndex, Instruction)>) -> nat
    decreases fields, 0nat,
{
    if fields.len() == 0 {
        0
    } else {
        steps(fields[0].1) + field_steps(fields.subrange(1, fields.len() as int))
    }
}

pub open spec fn statement_steps(s: Statement) -> nat
    decreases s, 0nat,
{
    match s {
        Statement::DeclareVar { data, .. } => single_steps(*data),
        Statement::VariableUpdate { left, right } => steps(*left) + steps(*right),
        Statement::FieldUpdate { structure, right, .. } => steps(*structure) + steps(*right),
        Statement::Loop { body } => block_steps(body@),
        _ => 0,
    }
}

pub open spec fn expression_steps(e: Expression) -> nat
    decreases e, 0nat,
{
    match e {
        Expression::AsCast { value, .. } => steps(*value),
        Expression::BinaryOp { left, right, .. } => steps(*left) + steps(*right),
        Expression::UnaryOp { value, .. } => steps(*value),
        Expression::Block { body } => block_steps(body@),
        Expression::IfExpression { body, condition, else_part } =>
            steps(*condition) + block_steps(body@) + match else_part {
                Some(x) => single_steps(*x),
                None => 0,
            },
        Expression::FunctionCall { arguments, .. } => operand_list_steps(arguments@),
        Expression::StructureCreation { fields, .. } => field_steps(fields@),
        Expression::AccessStructureData { structure, .. } => steps(*structure),
        Expression::WithinNamespace { do_within, .. } => steps(*do_within),
        _ => 0,
    }
}

pub open spec fn declaration_steps(d: Declaration) -> nat
    decreases d, 0nat,
{
    match d {
        Declaration::FunctionDeclaration { body, generics, .. } =>
            if generics.len() == 0 { block_steps(body@) } else { 0 },
        Declaration::Namespace { body, .. } => block_steps(body@),
        Declaration::ImplBlock { body, .. } => block_steps(body@),
        _ => 0,
    }
}

pub open spec fn walk_steps(items: Seq<Instruction>) -> nat
    decreases items, 0nat,
{
    if items.len() == 0 {
        0
    } else {
        match items[0].instruction_kind {
            InstructionKind::Statement(Statement::Return(e)) => steps(*e),
            _ => steps(items[0]) + walk_steps(items.subrange(1, items.len() as int)),
        }
    }
}

pub open spec fn block_steps(items: Seq<Instruction>) -> nat
    decreases items, 1nat,
{
    declaration_count(items) + walk_steps(items)
}

pub open spec fn single_steps(i: Instruction) -> nat
    decreases i, 1nat,
{
    declaration_count(seq![i]) + match i.instruction_kind {
        InstructionKind::Statement(Statement::Return(e)) => steps(*e),
        _ => steps(i),
    }
}

/// The functions (with `ext`, the extern functions) lowering an instruction
/// registers: those declared by every block it lowers.
pub open spec fn registered(i: Instruction, ext: bool) -> Set<usize>
    decreases i, 0nat,
{
    match i.instruction_kind {
        InstructionKind::Statement(s) => statement_registered(s, ext),
        InstructionKind::Expression(e) => expression_registered(e, ext),
        InstructionKind::Declaration(d) => declaration_registered(d, ext),
    }
}

pub open spec fn operand_list_registered(args: Seq<Instruction>, ext: bool) -> Set<usize>
    decreases args, 0nat,
{
    if args.len() == 0 {
        Set::empty()
    } else {
        registered(args[0], ext).union(operand_list_registered(args.subrange(1, args.len() as int), ext))
    }
}

pub open spec fn field_registered(fields: Seq<(SymbolIndex, Instruction)>, ext: bool) -> Set<usize>
    decreases fields, 0nat,
{
    if fields.len() == 0 {
        Set::empty()
    } else {
        registered(fields[0].1, ext).union(field_registered(fields.subrange(1, fields.len() as int), ext))
    }
}

pub open spec fn statement_registered(s: Statement, ext: bool) -> Set<usize>
    decreases s, 0nat,
{
    match s {
        Statement::DeclareVar { data, .. } => single_registered(*data, ext),
        Statement::VariableUpdate { left, right } => registered(*left, ext).union(registered(*right, ext)),
        Statement::FieldUpdate { structure, right, .. } => registered(*structure, ext).union(registered(*right, ext)),
        Statement::Loop { body } => block_registered(body@, ext),
        _ => Set::empty(),
    }
}

pub open spec fn expression_registered(e: Expression, ext: bool) -> Set<usize>
    decreases e, 0nat,
{
    match e {
        Expression::AsCast { value, .. } => registered(*value, ext),
        Expression::BinaryOp { left, right, .. } => registered(*left, ext).union(registered(*right, ext)),
        Expression::UnaryOp { value, .. } => registered(*value, ext),
        Expression::Block { body } => block_registered(body@, ext),
        Expression::IfExpression { body, condition, else_part } =>
            registered(*condition, ext).union(block_registered(body@, ext)).union(match else_part {
                Some(x) => single_registered(*x, ext),
                None => Set::empty(),
            }),
        Expression::FunctionCall { arguments, .. } => operand_list_registered(arguments@, ext),
        Expression::StructureCreation { fields, .. } => field_registered(fields@, ext),
        Expression::AccessStructureData { structure, .. } => registered(*structure, ext),
        Expression::WithinNamespace { do_within, .. } => registered(*do_within, ext),
        _ => Set::empty(),
    }
}

pub open spec fn declaration_registered(d: Declaration, ext: bool) -> Set<usize>
    decreases d, 0nat,
{
    match d {
        Declaration::FunctionDeclaration { body, generics, .. } =>
            if generics.len() == 0 { block_registered(body@, ext) } else { Set::empty() },
        Declaration::Namespace { body, .. } => block_registered(body@, ext),
        Declaration::ImplBlock { body, .. } => block_registered(body@, ext),
        _ => Set::empty(),
    }
}

pub open spec fn walk_registered(items: Seq<Instruction>, ext: bool) -> Set<usize>
    decreases items, 0nat,
{
    if items.len() == 0 {
        Set::empty()
    } else {
        match items[0].instruction_kind {
            InstructionKind::Statement(Statement::Return(e)) => registered(*e, ext),
            _ => registered(items[0], ext).union(walk_registered(items.subrange(1, items.len() as int), ext)),
        }
    }
}

pub open spec fn block_registered(items: Seq<Instruction>, ext: bool) -> Set<usize>
    decreases items, 1nat,
{
    (if ext { declared_externs(items) } else { declared_functions(items) }).union(walk_registered(items, ext))
}

pub open spec fn single_registered(i: Instruction, ext: bool) -> Set<usize>
    decreases i, 1nat,
{
    (if ext { declared_externs(seq![i]) } else { declared_functions(seq![i]) }).union(match i.instruction_kind {
        InstructionKind::Statement(Statement::Return(e)) => registered(*e, ext),
        _ => registered(i, ext),
    })
}

pub open spec fn else_registered(e: Option<Box<Instruction>>, ext: bool) -> Set<usize> {
    match e {
        Some(x) => single_registered(*x, ext),
        None => Set::empty(),
    }
}

/// Every `break` and `continue` that lowering an instruction reaches lies
/// inside a loop; a function declared inside keeps its own.
pub open spec fn jumps_closed(i: Instruction) -> bool
    decreases i, 0nat,
{
    match i.instruction_kind {
        InstructionKind::Statement(s) => match s {
            Statement::DeclareVar { data, .. } => single_closed(*data),
            Statement::VariableUpdate { left, right } => jumps_closed(*left) && jumps_closed(*right),
            Statement::FieldUpdate { structure, right, .. } => jumps_closed(*structure) && jumps_closed(*right),
            Statement::Loop { .. } => true,
            Statement::Break => false,
            Statement::Continue => false,
            Statement::Return(e) => jumps_closed(*e),
        },
        InstructionKind::Expression(e) => match e {
            Expression::AsCast { value, .. } => jumps_closed(*value),
            Expression::BinaryOp { left, right, .. } => jumps_closed(*left) && jumps_closed(*right),
            Expression::UnaryOp { value, .. } => jumps_closed(*value),
            Expression::Block { body } => walk_closed(body@),
            Expression::IfExpression { body, condition, else_part } => jumps_closed(*condition) && walk_closed(body@) && match else_part {
                Some(x) => single_closed(*x),
                None => true,
            },
            Expression::FunctionCall { arguments, .. } => operands_closed(arguments@),
            Expression::StructureCreation { fields, .. } => fields_closed(fields@),
            Expression::AccessStructureData { structure, .. } => jumps_closed(*structure),
            Expression::WithinNamespace { do_within, .. } => jumps_closed(*do_within),
            _ => true,
        },
        InstructionKind::Declaration(d) => match d {
            Declaration::Namespace { body, .. } => walk_closed(body@),
            Declaration::ImplBlock { body, .. } => walk_closed(body@),
            _ => true,
        },
    }
}

pub open spec fn operands_closed(args: Seq<Instruction>) -> bool
    decreases args, 0nat,
{
    args.len() == 0 || (jumps_closed(args[0]) && operands_closed(args.subrange(1, args.len() as int)))
}

pub open spec fn fields_closed(fields: Seq<(SymbolIndex, Instruction)>) -> bool
    decreases fields, 0nat,
{
    fields.len() == 0 || (jumps_closed(fields[0].1) && fields_closed(fields.subrange(1, fields.len() as int)))
}

pub open spec fn walk_closed(items: Seq<Instruction>) -> bool
    decreases items, 0nat,
{
    if items.len() == 0 {
        true
    } else {
        match items[0].instruction_kind {
            InstructionKind::Statement(Statement::Return(e)) => jumps_closed(*e),
            _ => jumps_closed(items[0]) && walk_closed(items.subrange(1, items.len() as int)),
        }
    }
}

pub open spec fn single_closed(i: Instruction) -> bool
    decreases i, 1nat,
{
    match i.instruction_kind {
        InstructionKind::Statement(Statement::Return(e)) => jumps_closed(*e),
        _ => jumps_closed(i),
    }
}

pub open spec fn else_closed(e: Option<Box<Instruction>>) -> bool {
    match e {
        Some(x) => single_closed(*x),
        None => true,
    }
}

/// Every register an instruction names lies below `n`, and a load reads a
/// constant below `c`.
pub open spec fn ir_within(i: IR, n: u32, c: nat) -> bool {
    &&& forall|k: int| 0 <= k < used_registers(i).len() ==> (#[trigger] used_registers(i)[k]).0 < n
    &&& match written(i) {
        Some(d) => d.0 < n,
        None => true,
    }
    &&& match i {
        IR::Load { data, .. } => data < c,
        _ => true,
    }
}

/// Every instruction of a block, and the register its terminator tests,
/// lie within `n` registers and `c` constants.
pub open spec fn block_within(b: Block, n: u32, c: nat) -> bool {
    &&& forall|k: int| 0 <= k < b.instructions@.len() ==> ir_within(#[trigger] b.instructions@[k], n, c)
    &&& match b.ending {
        BlockTerminator::SwitchBool { cond, .. } => cond.0 < n,
        _ => true,
    }
}

/// Some block of `blocks` has the index `id`.
pub open spec fn has_block(blocks: Seq<Block>, id: BlockIndex) -> bool {
    exists|k: int| 0 <= k < blocks.len() && (#[trigger] blocks[k]).block_index == id
}

/// Block `k` is the first of `blocks` numbered `id`.
pub open spec fn first_with_index(blocks: Seq<Block>, id: BlockIndex, k: int) -> bool {
    &&& 0 <= k < blocks.len()
    &&& blocks[k].block_index == id
    &&& forall|j: int| 0 <= j < k ==> (#[trigger] blocks[j]).block_index != id
}

/// The names a lookup table holds.
pub open spec fn names(lookup: Seq<(SymbolIndex, Variable)>) -> Set<SymbolIndex> {
    Set::new(|s: SymbolIndex| exists|k: int| 0 <= k < lookup.len() && (#[trigger] lookup[k]).0 == s)
}

pub proof fn lemma_ir_within_grows(i: IR, n: u32, c: nat, n2: u32, c2: nat)
    requires
        ir_within(i, n, c),
        n <= n2,
        c <= c2,
    ensures
        ir_within(i, n2, c2),
{
    assert forall|k: int| 0 <= k < used_registers(i).len() implies (#[trigger] used_registers(i)[k]).0 < n2 by {}
}

pub proof fn lemma_block_within_grows(b: Block, n: u32, c: nat, n2: u32, c2: nat)
    requires
        block_within(b, n, c),
        n <= n2,
        c <= c2,
    ensures
        block_within(b, n2, c2),
{
    assert forall|k: int| 0 <= k < b.instructions@.len() implies ir_within(#[trigger] b.instructions@[k], n2, c2) by {
        lemma_ir_within_grows(b.instructions@[k], n, c, n2, c2);
    }
}

/// An extern function the program declares: its name in the program, its
/// number, the library file it lives in and its name there.
pub struct ExternFunction {
    pub identifier: SymbolIndex,
    pub function_index: FunctionIndex,
    pub file: SymbolIndex,
    pub path: SymbolIndex,
}

/// What lowering a program builds: the table of constants, the functions
/// and extern functions by the symbol of their name, and the symbol table.
pub struct ConversionState {
    pub constants: Vec<Data>,
    pub extern_functions: BTreeMap<usize, ExternFunction>,
    pub functions: BTreeMap<usize, Function>,
    pub function_counter: u32,
    pub extern_counter: u32,
    pub symbol_table: SymbolTable,
}

impl ConversionState {
    /// An empty state around a symbol table.
    pub fn new(symbol_table: SymbolTable) -> (r: ConversionState)
        ensures
            r.constants@.len() == 0,
            r.functions@ == Map::<usize, Function>::empty(),
            r.extern_functions@ == Map::<usize, ExternFunction>::empty(),
            r.function_counter == 0,
            r.extern_counter == 0,
            r.symbol_table == symbol_table,
    {
        ConversionState {
            constants: Vec::new(),
            symbol_table,
            function_counter: 0,
            functions: BTreeMap::new(),
            extern_counter: 0,
            extern_functions: BTreeMap::new(),
        }
    }

    fn function(&mut self) -> (r: FunctionIndex)
        requires
            old(self).function_counter < u32::MAX,
        ensures
            r.0 == old(self).function_counter,
            final(self).function_counter == old(self).function_counter + 1,
            final(self).extern_counter == old(self).extern_counter,
            final(self).constants == old(self).constants,
            final(self).functions == old(self).functions,
            final(self).extern_functions == old(self).extern_functions,
            final(self).symbol_table == old(self).symbol_table,
    {
        self.function_counter = self.function_counter + 1;
        FunctionIndex(self.function_counter - 1)
    }

    fn extern_function(&mut self) -> (r: FunctionIndex)
        requires
            old(self).extern_counter < u32::MAX,
        ensures
            r.0 == old(self).extern_counter,
            final(self).extern_counter == old(self).extern_counter + 1,
            final(self).function_counter == old(self).function_counter,
            final(self).constants == old(self).constants,
            final(self).functions == old(self).functions,
            final(self).extern_functions == old(self).extern_functions,
            final(self).symbol_table == old(self).symbol_table,
    {
        self.extern_counter = self.extern_counter + 1;
        FunctionIndex(self.extern_counter - 1)
    }
}

impl Function {
    /// A function with no blocks yet whose frame starts with its arguments.
    pub fn new(identifier: SymbolIndex, index: FunctionIndex, argument_count: usize) -> (r: Function)
        ensures
            r.identifier == identifier,
            r.function_index == index,
            r.argument_count == argument_count,
            r.variable_counter == 0,
            r.stack_size == argument_count as u32,
            r.blocks@.len() == 0,
            r.entry == BlockIndex(0),
    {
        Function {
            identifier,
            function_index: index,
            variable_counter: 0,
            stack_size: argument_count as u32,
            blocks: Vec::new(),
            entry: BlockIndex(0),
            argument_count,
        }
    }
}

proof fn lemma_size_in_sizes(items: Seq<Instruction>, k: int)
    requires
        0 <= k < items.len(),
    ensures
        size(items[k]) <= sizes(items),
    decreases k,
{
    if k > 0 {
        let rest = items.subrange(1, items.len() as int);
        assert(rest[k - 1] == items[k]);
        lemma_size_in_sizes(rest, k - 1);
    }
}

proof fn lemma_extern_names_step(fs: Seq<ExternFunctionAST>, j: int)
    requires
        0 <= j < fs.len(),
    ensures
        extern_names(fs.subrange(j, fs.len() as int)) == extern_names(fs.subrange(j + 1, fs.len() as int)).insert(
            fs[j].identifier.0,
        ),
{
    let a = fs.subrange(j, fs.len() as int);
    let b = fs.subrange(j + 1, fs.len() as int);
    assert forall|x: usize| extern_names(a).contains(x) <==> extern_names(b).insert(fs[j].identifier.0).contains(x) by {
        if extern_names(a).contains(x) {
            let i = choose|i: int| 0 <= i < a.len() && a[i].identifier.0 == x;
            if i > 0 {
                assert(b[i - 1] == a[i]);
            }
        }
        if extern_names(b).contains(x) {
            let i = choose|i: int| 0 <= i < b.len() && b[i].identifier.0 == x;
            assert(a[i + 1] == b[i]);
        }
        if x == fs[j].identifier.0 {
            assert(a[0] == fs[j]);
        }
    }
    assert(extern_names(a) =~= extern_names(b).insert(fs[j].identifier.0));
}

impl ConversionState {
    /// Registers the functions and extern functions a block declares that
    /// are not known yet, numbering them in order; functions with generics
    /// are left out, and impl blocks are looked into.
    fn declaration_process(&mut self, instructions: &[Instruction])
        requires
            old(self).function_counter + declaration_count(instructions@) <= u32::MAX,
            old(self).extern_counter + declaration_count(instructions@) <= u32::MAX,
        ensures
            final(self).functions@.dom() == old(self).functions@.dom().union(declared_functions(instructions@)),
            final(self).extern_functions@.dom() == old(self).extern_functions@.dom().union(
                declared_externs(instructions@),
            ),
            old(self).function_counter <= final(self).function_counter <= old(self).function_counter
                + declaration_count(instructions@),
            old(self).extern_counter <= final(self).extern_counter <= old(self).extern_counter
                + declaration_count(instructions@),
            final(self).constants == old(self).constants,
            final(self).symbol_table == old(self).symbol_table,
            counted(*old(self), *final(self)),
        decreases sizes(instructions@),
    {
        let ghost items = instructions@;
        let len = instructions.len();
        let mut k: usize = 0;
        assert(items.subrange(0, len as int) =~= items);
        while k < len
            invariant
                len == items.len(),
                items == instructions@,
                0 <= k <= len,
                self.functions@.dom().union(declared_functions(items.subrange(k as int, len as int)))
                    == old(self).functions@.dom().union(declared_functions(items)),
                self.extern_functions@.dom().union(declared_externs(items.subrange(k as int, len as int)))
                    == old(self).extern_functions@.dom().union(declared_externs(items)),
                old(self).function_counter <= self.function_counter,
                self.function_counter + declaration_count(items.subrange(k as int, len as int))
                    <= old(self).function_counter + declaration_count(items),
                old(self).extern_counter <= self.extern_counter,
                self.extern_counter + declaration_count(items.subrange(k as int, len as int))
                    <= old(self).extern_counter + declaration_count(items),
                old(self).function_counter + declaration_count(items) <= u32::MAX,
                old(self).extern_counter + declaration_count(items) <= u32::MAX,
                self.constants == old(self).constants,
                self.symbol_table == old(self).symbol_table,
                counted(*old(self), *self),
            decreases len - k,
        {
            let ghost sub = items.subrange(k as int, len as int);
            let ghost next = items.subrange(k as int + 1, len as int);
            proof {
                assert(sub.subrange(1, sub.len() as int) =~= next);
                assert(sub[0] == items[k as int]);
            }
            let instruction = &instructions[k];
            match &instruction.instruction_kind {
                InstructionKind::Declaration(Declaration::FunctionDeclaration { name, arguments, generics, .. }) => {
                    if !self.functions.contains_key(&name.0) && generics.len() == 0 {
                        let index = self.function();
                        let function = Function::new(*name, index, arguments.len());
                        proof {
                            assert(self.functions@.dom().finite());
                        }
                        self.functions.insert(name.0, function);
                        proof {
                            assert(self.functions@.dom().len() == old(self).functions@.dom().len() + (self.function_counter - old(self).function_counter));
                        }
                    }
                    proof {
                        assert(self.functions@.dom().union(declared_functions(next)) =~= old(self).functions@.dom().union(
                            declared_functions(items),
                        ));
                        assert(self.extern_functions@.dom().union(declared_externs(next)) =~= old(self).extern_functions@.dom().union(
                            declared_externs(items),
                        ));
                    }
                },
                InstructionKind::Declaration(Declaration::Extern { functions, file }) => {
                    let ghost fs = functions@;
                    let flen = functions.len();
                    let mut j: usize = 0;
                    let ghost dom0 = self.extern_functions@.dom();
                    let ghost counter0 = self.extern_counter;
                    assert(fs.subrange(0, flen as int) =~= fs);
                    assert(declared_externs(sub) =~= extern_names(fs).union(declared_externs(next)));
                    while j < flen
                        invariant
                            flen == fs.len(),
                            fs == functions@,
                            0 <= j <= flen,
                            self.extern_functions@.dom().union(extern_names(fs.subrange(j as int, flen as int)))
                                == dom0.union(extern_names(fs)),
                            counter0 <= self.extern_counter <= counter0 + j,
                            counter0 + declaration_count(sub) <= old(self).extern_counter + declaration_count(items),
                            old(self).extern_counter <= counter0,
                            declaration_count(sub) == flen + declaration_count(next),
                            declared_externs(sub) == extern_names(fs).union(declared_externs(next)),
                            declared_functions(sub) == declared_functions(next),
                            dom0.union(declared_externs(sub)) == old(self).extern_functions@.dom().union(
                                declared_externs(items),
                            ),
                            self.functions@.dom().union(declared_functions(sub)) == old(self).functions@.dom().union(
                                declared_functions(items),
                            ),
                            old(self).function_counter <= self.function_counter,
                            self.function_counter + declaration_count(sub) <= old(self).function_counter
                                + declaration_count(items),
                            old(self).extern_counter + declaration_count(items) <= u32::MAX,
                            self.constants == old(self).constants,
                            self.symbol_table == old(self).symbol_table,
                            counted(*old(self), *self),
                        decreases flen - j,
                    {
                        proof {
                            lemma_extern_names_step(fs, j as int);
                        }
                        let f = &functions[j];
                        if !self.extern_functions.contains_key(&f.identifier.0) {
                            let t = self.extern_function();
                            self.extern_functions.insert(
                                f.identifier.0,
                                ExternFunction { identifier: f.identifier, function_index: t, file: *file, path: f.raw_name },
                            );
                        }
                        j = j + 1;
                        proof {
                            assert(self.extern_functions@.dom().union(extern_names(fs.subrange(j as int, flen as int))) =~= dom0.union(
                                extern_names(fs),
                            ));
                        }
                    }
                    proof {
                        assert(fs.subrange(flen as int, flen as int) =~= Seq::<ExternFunctionAST>::empty());
                        assert(extern_names(Seq::<ExternFunctionAST>::empty()) =~= Set::<usize>::empty());
                        assert(extern_names(fs.subrange(j as int, flen as int)) =~= Set::<usize>::empty());
                        assert(self.extern_functions@.dom() =~= dom0.union(extern_names(fs)));
                        assert(self.functions@.dom().union(declared_functions(next)) =~= old(self).functions@.dom().union(
                            declared_functions(items),
                        ));
                        assert(self.extern_functions@.dom().union(declared_externs(next)) =~= old(self).extern_functions@.dom().union(
                            declared_externs(items),
                        ));
                    }
                },
                InstructionKind::Declaration(Declaration::ImplBlock { body, .. }) => {
                    proof {
                        lemma_size_in_sizes(items, k as int);
                    }
                    self.declaration_process(body.as_slice());
                    proof {
                        assert(self.functions@.dom().union(declared_functions(next)) =~= old(self).functions@.dom().union(
                            declared_functions(items),
                        ));
                        assert(self.extern_functions@.dom().union(declared_externs(next)) =~= old(self).extern_functions@.dom().union(
                            declared_externs(items),
                        ));
                    }
                },
                _ => {
                    proof {
                        assert(self.functions@.dom().union(declared_functions(next)) =~= old(self).functions@.dom().union(
                            declared_functions(items),
                        ));
                        assert(self.extern_functions@.dom().union(declared_externs(next)) =~= old(self).extern_functions@.dom().union(
                            declared_externs(items),
                        ));
                    }
                },
            }
            k = k + 1;
        }
        proof {
            assert(items.subrange(len as int, len as int) =~= Seq::<Instruction>::empty());
        }
    }
}

/// The terminator of a block names blocks already numbered, or waits for
/// a loop to give it a target.
pub open spec fn targets_ok(b: Block, counter: u32) -> bool {
    match b.ending {
        BlockTerminator::Goto(t) => t.0 < counter || t.0 == u32::MAX,
        BlockTerminator::SwitchBool { op1, op2, .. } => op1.0 < counter && op2.0 < counter,
        BlockTerminator::Return => true,
    }
}

/// A block left by a `break` or `continue` whose loop has not been seen
/// yet is listed as waiting.
pub open spec fn waiting(b: Block, lists: Seq<BlockIndex>) -> bool {
    b.ending == BlockTerminator::Goto(BlockIndex(u32::MAX)) ==> lists.contains(b.block_index)
}

/// A block's terminator once the waiting jumps are patched: a `continue`
/// goes to `continue_to`, else a `break` to `break_to`, else it stays.
pub open spec fn patched_ending(b: Block, breaks: Seq<BlockIndex>, continues: Seq<BlockIndex>, break_to: BlockIndex,
    continue_to: BlockIndex) -> BlockTerminator {
    if continues.contains(b.block_index) {
        BlockTerminator::Goto(continue_to)
    } else if breaks.contains(b.block_index) {
        BlockTerminator::Goto(break_to)
    } else {
        b.ending
    }
}

/// No two blocks share an index.
pub open spec fn unique_blocks(bs: Seq<Block>) -> bool {
    forall|j: int, k: int| 0 <= j < bs.len() && 0 <= k < bs.len() && j != k ==> (#[trigger] bs[j]).block_index != (#[trigger] bs[k]).block_index
}

/// Every listed block is below the counter and present.
pub open spec fn pending_in(list: Seq<BlockIndex>, blocks: Seq<Block>, counter: u32) -> bool {
    forall|k: int| 0 <= k < list.len() ==> (#[trigger] list[k]).0 < counter && has_block(blocks, list[k])
}

/// Two lists of blocks with the same indices in the same places.
pub open spec fn same_indices(a: Seq<Block>, b: Seq<Block>) -> bool {
    &&& a.len() == b.len()
    &&& forall|k: int| 0 <= k < a.len() ==> (#[trigger] b[k]).block_index == a[k].block_index
}

/// The lookup table after lowering an instruction that declares `d`.
pub open spec fn lookup_step(o: Seq<(SymbolIndex, Variable)>, n: Seq<(SymbolIndex, Variable)>, d: Option<SymbolIndex>) -> bool {
    match d {
        None => n == o,
        Some(v) => n.len() == o.len() + 1 && n.subrange(0, o.len() as int) == o && n[o.len() as int].0 == v,
    }
}

/// `o` is a prefix of `n`.
pub open spec fn prefix_of(o: Seq<(SymbolIndex, Variable)>, n: Seq<(SymbolIndex, Variable)>) -> bool {
    o.len() <= n.len() && n.subrange(0, o.len() as int) == o
}

pub proof fn lemma_same_indices(a: Seq<Block>, b: Seq<Block>)
    requires
        same_indices(a, b),
    ensures
        forall|id: BlockIndex| has_block(a, id) ==> has_block(b, id),
        forall|id: BlockIndex| has_block(b, id) ==> has_block(a, id),
        unique_blocks(a) ==> unique_blocks(b),
{
    assert forall|id: BlockIndex| has_block(a, id) implies has_block(b, id) by {
        let k = choose|k: int| 0 <= k < a.len() && (#[trigger] a[k]).block_index == id;
        assert(b[k].block_index == id);
    }
    assert forall|id: BlockIndex| has_block(b, id) implies has_block(a, id) by {
        let k = choose|k: int| 0 <= k < b.len() && (#[trigger] b[k]).block_index == id;
        assert(a[k].block_index == id);
    }
    if unique_blocks(a) {
        assert forall|j: int, k: int| 0 <= j < b.len() && 0 <= k < b.len() && j != k implies (#[trigger] b[j]).block_index
            != (#[trigger] b[k]).block_index by {
            assert(a[j].block_index != a[k].block_index);
        }
    }
}

pub proof fn lemma_push_keeps(a: Seq<Block>, x: Block)
    ensures
        forall|id: BlockIndex| has_block(a, id) ==> has_block(a.push(x), id),
        has_block(a.push(x), x.block_index),
{
    assert forall|id: BlockIndex| has_block(a, id) implies has_block(a.push(x), id) by {
        let k = choose|k: int| 0 <= k < a.len() && (#[trigger] a[k]).block_index == id;
        assert(a.push(x)[k] == a[k]);
    }
    assert(a.push(x)[a.len() as int] == x);
}

pub proof fn lemma_names_step(o: Seq<(SymbolIndex, Variable)>, n: Seq<(SymbolIndex, Variable)>, d: Option<SymbolIndex>)
    requires
        lookup_step(o, n, d),
    ensures
        prefix_of(o, n),
        match d {
            Some(v) => names(n) == names(o).insert(v),
            None => names(n) == names(o),
        },
{
    match d {
        None => {
            assert(n.subrange(0, o.len() as int) =~= o);
        },
        Some(v) => {
            assert forall|s: SymbolIndex| names(n).contains(s) <==> names(o).insert(v).contains(s) by {
                if names(o).contains(s) {
                    let k = choose|k: int| 0 <= k < o.len() && (#[trigger] o[k]).0 == s;
                    assert(n.subrange(0, o.len() as int)[k] == n[k]);
                }
                if names(n).contains(s) {
                    let k = choose|k: int| 0 <= k < n.len() && (#[trigger] n[k]).0 == s;
                    if k < o.len() {
                        assert(n.subrange(0, o.len() as int)[k] == n[k]);
                    }
                }
            }
            assert(names(n) =~= names(o).insert(v));
        },
    }
}

pub proof fn lemma_prefix_trans(a: Seq<(SymbolIndex, Variable)>, b: Seq<(SymbolIndex, Variable)>, c: Seq<(SymbolIndex, Variable)>)
    requires
        prefix_of(a, b),
        prefix_of(b, c),
    ensures
        prefix_of(a, c),
{
    assert(c.subrange(0, a.len() as int) =~= b.subrange(0, a.len() as int));
}

/// The function being lowered, with what lowering keeps beside it: the
/// variables in scope, the block counter, and the blocks that end in a
/// `break`, a `continue` or a `return` and wait for their target.
struct Lowering {
    function: Function,
    variable_lookup: Vec<(SymbolIndex, Variable)>,
    block_counter: u32,
    breaks: Vec<BlockIndex>,
    continues: Vec<BlockIndex>,
    explicit_ret: Vec<BlockIndex>,
}

impl Lowering {
    /// Registers below the frame size, blocks below the block counter and
    /// within the frame and the table of `c` constants, and waiting
    /// blocks already emitted.
    spec fn inv(self, c: nat) -> bool {
        &&& self.inv_base(c)
        &&& pending_in(self.explicit_ret@, self.function.blocks@, self.block_counter)
    }

    spec fn inv_base(self, c: nat) -> bool {
        &&& self.sound(c)
        &&& forall|k: int| 0 <= k < self.function.blocks@.len() ==> waiting(#[trigger] self.function.blocks@[k], self.breaks@ + self.continues@)
    }

    /// Everything of the invariant but the waiting blocks.
    spec fn sound(self, c: nat) -> bool {
        &&& self.function.variable_counter <= self.function.stack_size
        &&& forall|k: int| 0 <= k < self.variable_lookup@.len() ==> (#[trigger] self.variable_lookup@[k]).1.0 < self.function.stack_size
        &&& forall|k: int| 0 <= k < self.function.blocks@.len() ==> (#[trigger] self.function.blocks@[k]).block_index.0 < self.block_counter
        &&& forall|k: int| 0 <= k < self.function.blocks@.len() ==> block_within(#[trigger] self.function.blocks@[k], self.function.stack_size, c)
        &&& forall|k: int| 0 <= k < self.function.blocks@.len() ==> targets_ok(#[trigger] self.function.blocks@[k], self.block_counter)
        &&& unique_blocks(self.function.blocks@)
        &&& pending_in(self.breaks@, self.function.blocks@, self.block_counter)
        &&& pending_in(self.continues@, self.function.blocks@, self.block_counter)
    }

    /// The invariant right after a `return`: the block that returned may
    /// still be the one being filled.
    spec fn inv_returning(self, cur: Block, c: nat) -> bool {
        &&& self.inv_base(c)
        &&& forall|k: int| 0 <= k < self.explicit_ret@.len() ==> (#[trigger] self.explicit_ret@[k]).0 < self.block_counter && (
            has_block(self.function.blocks@, self.explicit_ret@[k]) || self.explicit_ret@[k] == cur.block_index)
    }

    /// The block being filled is numbered and within the frame.
    spec fn cur_ok(self, cur: Block, c: nat) -> bool {
        &&& cur.block_index.0 < self.block_counter
        &&& block_within(cur, self.function.stack_size, c)
        &&& targets_ok(cur, self.block_counter)
        &&& cur.ending != BlockTerminator::Goto(BlockIndex(u32::MAX))
        &&& !has_block(self.function.blocks@, cur.block_index)
    }

    fn variable(&mut self) -> (v: Variable)
        requires
            old(self).function.variable_counter < u32::MAX,
        ensures
            v.0 == old(self).function.variable_counter,
            final(self).function.variable_counter == old(self).function.variable_counter + 1,
            final(self).function.stack_size == if old(self).function.stack_size < old(self).function.variable_counter + 1 {
                (old(self).function.variable_counter + 1) as u32
            } else {
                old(self).function.stack_size
            },
            final(self).function.blocks == old(self).function.blocks,
            final(self).function.entry == old(self).function.entry,
            final(self).function.identifier == old(self).function.identifier,
            final(self).function.function_index == old(self).function.function_index,
            final(self).function.argument_count == old(self).function.argument_count,
            final(self).variable_lookup == old(self).variable_lookup,
            final(self).block_counter == old(self).block_counter,
            final(self).breaks == old(self).breaks,
            final(self).continues == old(self).continues,
            final(self).explicit_ret == old(self).explicit_ret,
    {
        self.function.variable_counter = self.function.variable_counter + 1;
        if self.function.stack_size < self.function.variable_counter {
            self.function.stack_size = self.function.variable_counter;
        }
        Variable(self.function.variable_counter - 1)
    }

    fn block(&mut self) -> (b: BlockIndex)
        requires
            old(self).block_counter < u32::MAX,
        ensures
            b.0 == old(self).block_counter,
            final(self).block_counter == old(self).block_counter + 1,
            final(self).function == old(self).function,
            final(self).variable_lookup == old(self).variable_lookup,
            final(self).breaks == old(self).breaks,
            final(self).continues == old(self).continues,
            final(self).explicit_ret == old(self).explicit_ret,
    {
        self.block_counter = self.block_counter + 1;
        BlockIndex(self.block_counter - 1)
    }

    /// The position of the first block numbered `index`.
    fn find_block(&self, index: BlockIndex) -> (k: usize)
        requires
            has_block(self.function.blocks@, index),
        ensures
            k < self.function.blocks@.len(),
            self.function.blocks@[k as int].block_index == index,
            forall|j: int| 0 <= j < k ==> (#[trigger] self.function.blocks@[j]).block_index != index,
    {
        let len = self.function.blocks.len();
        let mut k: usize = 0;
        while k < len
            invariant
                len == self.function.blocks@.len(),
                k <= len,
                forall|j: int| 0 <= j < k ==> (#[trigger] self.function.blocks@[j]).block_index != index,
                has_block(self.function.blocks@, index),
            decreases len - k,
        {
            if self.function.blocks[k].block_index == index {
                return k;
            }
            k = k + 1;
        }
        proof {
            let j = choose|j: int| 0 <= j < self.function.blocks@.len() && (#[trigger] self.function.blocks@[j]).block_index == index;
            assert(self.function.blocks@[j].block_index != index);
        }
        0
    }

    /// Gives the first block numbered `index` the terminator `ending`.
    fn set_ending(&mut self, index: BlockIndex, ending: BlockTerminator)
        requires
            has_block(old(self).function.blocks@, index),
            !(ending is SwitchBool),
        ensures
            same_indices(old(self).function.blocks@, final(self).function.blocks@),
            forall|k: int| 0 <= k < old(self).function.blocks@.len() ==> (#[trigger] final(self).function.blocks@[k]).instructions
                == old(self).function.blocks@[k].instructions,
            forall|k: int| 0 <= k < old(self).function.blocks@.len() ==> (#[trigger] final(self).function.blocks@[k]).ending
                == old(self).function.blocks@[k].ending || final(self).function.blocks@[k].ending == ending,
            unique_blocks(old(self).function.blocks@) ==> forall|k: int| 0 <= k < old(self).function.blocks@.len() ==> (
            #[trigger] final(self).function.blocks@[k]).ending == if old(self).function.blocks@[k].block_index == index {
                ending
            } else {
                old(self).function.blocks@[k].ending
            },
            final(self).function.variable_counter == old(self).function.variable_counter,
            final(self).function.stack_size == old(self).function.stack_size,
            final(self).function.entry == old(self).function.entry,
            final(self).function.identifier == old(self).function.identifier,
            final(self).function.function_index == old(self).function.function_index,
            final(self).function.argument_count == old(self).function.argument_count,
            final(self).variable_lookup == old(self).variable_lookup,
            final(self).block_counter == old(self).block_counter,
            final(self).breaks == old(self).breaks,
            final(self).continues == old(self).continues,
            final(self).explicit_ret == old(self).explicit_ret,
    {
        let k = self.find_block(index);
        let mut b = Block { block_index: BlockIndex(0), instructions: Vec::new(), ending: BlockTerminator::Return };
        std::mem::swap(&mut b, &mut self.function.blocks[k]);
        b.ending = ending;
        self.function.blocks.set(k, b);
        proof {
            if unique_blocks(old(self).function.blocks@) {
                assert forall|j: int| 0 <= j < old(self).function.blocks@.len() implies (
                #[trigger] self.function.blocks@[j]).ending == if old(self).function.blocks@[j].block_index == index {
                    ending
                } else {
                    old(self).function.blocks@[j].ending
                } by {
                    if j != k {
                        assert(old(self).function.blocks@[j].block_index != old(self).function.blocks@[k as int].block_index);
                    }
                }
            }
        }
    }

    /// Appends `ir` to the first block numbered `index`.
    fn push_ir_to(&mut self, index: BlockIndex, ir: IR)
        requires
            has_block(old(self).function.blocks@, index),
        ensures
            same_indices(old(self).function.blocks@, final(self).function.blocks@),
            forall|k: int| 0 <= k < old(self).function.blocks@.len() ==> (#[trigger] final(self).function.blocks@[k]).ending
                == old(self).function.blocks@[k].ending,
            forall|k: int| 0 <= k < old(self).function.blocks@.len() ==> (#[trigger] final(self).function.blocks@[k]).instructions@
                == old(self).function.blocks@[k].instructions@ || final(self).function.blocks@[k].instructions@
                == old(self).function.blocks@[k].instructions@.push(ir),
            forall|k: int| 0 <= k < old(self).function.blocks@.len() ==> (#[trigger] final(self).function.blocks@[k]).instructions@
                == if first_with_index(old(self).function.blocks@, index, k) {
                    old(self).function.blocks@[k].instructions@.push(ir)
                } else {
                    old(self).function.blocks@[k].instructions@
                },
            final(self).function.variable_counter == old(self).function.variable_counter,
            final(self).function.stack_size == old(self).function.stack_size,
            final(self).function.entry == old(self).function.entry,
            final(self).function.identifier == old(self).function.identifier,
            final(self).function.function_index == old(self).function.function_index,
            final(self).function.argument_count == old(self).function.argument_count,
            final(self).variable_lookup == old(self).variable_lookup,
            final(self).block_counter == old(self).block_counter,
            final(self).breaks == old(self).breaks,
            final(self).continues == old(self).continues,
            final(self).explicit_ret == old(self).explicit_ret,
    {
        let k = self.find_block(index);
        let mut b = Block { block_index: BlockIndex(0), instructions: Vec::new(), ending: BlockTerminator::Return };
        std::mem::swap(&mut b, &mut self.function.blocks[k]);
        b.ir(ir);
        self.function.blocks.set(k, b);
    }

    /// The innermost variable named `v`.
    fn lookup(&self, v: SymbolIndex) -> (r: Variable)
        requires
            names(self.variable_lookup@).contains(v),
        ensures
            exists|k: int| 0 <= k < self.variable_lookup@.len() && (#[trigger] self.variable_lookup@[k]).1 == r,
            r == innermost(self.variable_lookup@, v),
    {
        let mut k = self.variable_lookup.len();
        proof {
            assert(self.variable_lookup@.take(k as int) =~= self.variable_lookup@);
        }
        while k > 0
            invariant
                k <= self.variable_lookup@.len(),
                innermost(self.variable_lookup@, v) == innermost(self.variable_lookup@.take(k as int), v),
                forall|j: int| k <= j < self.variable_lookup@.len() ==> (#[trigger] self.variable_lookup@[j]).0 != v,
                names(self.variable_lookup@).contains(v),
            decreases k,
        {
            proof {
                let t = self.variable_lookup@.take(k as int);
                assert(t.last() == self.variable_lookup@[k - 1]);
                assert(t.drop_last() =~= self.variable_lookup@.take(k - 1));
            }
            if self.variable_lookup[k - 1].0 == v {
                return self.variable_lookup[k - 1].1;
            }
            k = k - 1;
        }
        proof {
            let j = choose|j: int| 0 <= j < self.variable_lookup@.len() && (#[trigger] self.variable_lookup@[j]).0 == v;
            assert(self.variable_lookup@[j].0 != v);
        }
        self.variable_lookup[0].1
    }
}

/// What lowering may change, it only grows.
spec fn grown(o: Lowering, n: Lowering, os: ConversionState, ns: ConversionState) -> bool {
    &&& os.functions@.dom().subset_of(ns.functions@.dom())
    &&& os.extern_functions@.dom().subset_of(ns.extern_functions@.dom())
    &&& os.function_counter <= ns.function_counter
    &&& os.extern_counter <= ns.extern_counter
    &&& o.function.stack_size <= n.function.stack_size
    &&& o.function.variable_counter <= n.function.variable_counter
    &&& o.block_counter <= n.block_counter
    &&& forall|id: BlockIndex| has_block(o.function.blocks@, id) ==> has_block(n.function.blocks@, id)
    &&& ns.symbol_table == os.symbol_table
    &&& n.function.entry == o.function.entry
    &&& n.function.identifier == o.function.identifier
    &&& n.function.function_index == o.function.function_index
    &&& n.function.argument_count == o.function.argument_count
    &&& counted(os, ns)
}

/// Every function numbered since `os` was registered under a new name.
pub open spec fn counted(os: ConversionState, ns: ConversionState) -> bool {
    ns.function_counter + os.functions@.dom().len() == os.function_counter + ns.functions@.dom().len()
}

/// The counters moved by at most `b` registers and blocks and `st`
/// registrations.
spec fn budget_ok(o: Lowering, n: Lowering, os: ConversionState, ns: ConversionState, b: nat, st: nat) -> bool {
    &&& n.function.variable_counter <= o.function.variable_counter + b
    &&& n.block_counter <= o.block_counter + b
    &&& ns.function_counter <= os.function_counter + st
    &&& ns.extern_counter <= os.extern_counter + st
}

/// The counters have room for `b` registers and blocks, `st`
/// registrations and `lits` constants.
spec fn room(l: Lowering, s: ConversionState, b: nat, st: nat, lits: nat) -> bool {
    &&& l.function.variable_counter + b <= u32::MAX
    &&& l.block_counter + b <= u32::MAX
    &&& s.function_counter + st <= u32::MAX
    &&& s.extern_counter + st <= u32::MAX
    &&& s.constants@.len() + lits <= u32::MAX
}

/// What the conditions of lowering call known is known.
spec fn known(scope: Set<SymbolIndex>, fns: Set<usize>, exts: Set<usize>, l: Lowering, s: ConversionState) -> bool {
    &&& scope.subset_of(names(l.variable_lookup@))
    &&& fns.subset_of(s.functions@.dom())
    &&& exts.subset_of(s.extern_functions@.dom())
}

/// The block that was being filled has been emitted, or is still being filled.
spec fn covers(ob: Block, blocks: Seq<Block>, nb: Block) -> bool {
    has_block(blocks, ob.block_index) || nb.block_index == ob.block_index
}

proof fn lemma_cur_grows(o: Lowering, n: Lowering, cur: Block, c: nat, c2: nat)
    requires
        o.cur_ok(cur, c),
        o.block_counter <= n.block_counter,
        o.function.stack_size <= n.function.stack_size,
        c <= c2,
        forall|id: BlockIndex| has_block(n.function.blocks@, id) ==> has_block(o.function.blocks@, id) || id.0 >= o.block_counter,
    ensures
        n.cur_ok(cur, c2),
{
    lemma_block_within_grows(cur, o.function.stack_size, c, n.function.stack_size, c2);
}

proof fn lemma_inv_consts(l: Lowering, c: nat, c2: nat)
    requires
        l.inv(c),
        c <= c2,
    ensures
        l.inv(c2),
{
    assert forall|k: int| 0 <= k < l.function.blocks@.len() implies block_within(
        #[trigger] l.function.blocks@[k],
        l.function.stack_size,
        c2,
    ) by {
        lemma_block_within_grows(l.function.blocks@[k], l.function.stack_size, c, l.function.stack_size, c2);
    }
}

proof fn lemma_single(x: Instruction, scope: Set<SymbolIndex>, fns: Set<usize>, exts: Set<usize>)
    ensures
        sizes(seq![x]) == size(x),
        single_ok(x, scope, fns, exts) ==> block_ok(seq![x], scope, fns, exts),
        block_literals(seq![x]) == single_literals(x),
        block_steps(seq![x]) == single_steps(x),
        block_registered(seq![x], false) == single_registered(x, false),
        block_registered(seq![x], true) == single_registered(x, true),
        walk_closed(seq![x]) == single_closed(x),
{
    let s = seq![x];
    assert(s[0] == x);
    assert(s.subrange(1, 1) =~= Seq::<Instruction>::empty());
    assert(sizes(s.subrange(1, 1)) == 0);
    assert(block_literals(s.subrange(1, 1)) =~= Seq::<Data>::empty());
    assert(literals(x) + Seq::<Data>::empty() =~= literals(x));
    assert(walk_steps(s.subrange(1, 1)) == 0);
    assert(walk_registered(s.subrange(1, 1), false) =~= Set::<usize>::empty());
    assert(registered(x, false).union(Set::<usize>::empty()) =~= registered(x, false));
    assert(block_registered(seq![x], false) =~= single_registered(x, false));
    assert(walk_registered(s.subrange(1, 1), true) =~= Set::<usize>::empty());
    assert(registered(x, true).union(Set::<usize>::empty()) =~= registered(x, true));
    assert(block_registered(seq![x], true) =~= single_registered(x, true));
    assert(walk_closed(s.subrange(1, 1)));
}

proof fn lemma_operand_item(i: Instruction, scope: Set<SymbolIndex>, fns: Set<usize>, exts: Set<usize>)
    requires
        operand_ok(i, scope, fns, exts),
    ensures
        item_ok(i, scope, fns, exts),
        i.instruction_kind is Expression,
        declared_variable(i) is None,
{
}

proof fn lemma_arg_size(args: Seq<Instruction>, k: int)
    requires
        0 <= k < args.len(),
    ensures
        size(args[k]) <= sizes(args),
{
    lemma_size_in_sizes(args, k);
}

proof fn lemma_field_size(fields: Seq<(SymbolIndex, Instruction)>, k: int)
    requires
        0 <= k < fields.len(),
    ensures
        size(fields[k].1) <= field_sizes(fields),
    decreases k,
{
    if k > 0 {
        let rest = fields.subrange(1, fields.len() as int);
        assert(rest[k - 1] == fields[k]);
        lemma_field_size(rest, k - 1);
    }
}

/// `std::slice::from_ref`: the slice of length one that holds `x`, as its
/// documentation describes it.
#[verifier::external_body]
fn one_item(x: &Instruction) -> (r: &[Instruction])
    ensures
        r@ == seq![*x],
{
    std::slice::from_ref(x)
}

proof fn lemma_ir_pushed(o: Block, n: Block, ir: IR, sz: u32, c: nat)
    requires
        block_within(o, sz, c),
        ir_within(ir, sz, c),
        n.instructions@ == o.instructions@.push(ir),
        n.ending == o.ending,
    ensures
        block_within(n, sz, c),
{
    assert forall|k: int| 0 <= k < n.instructions@.len() implies ir_within(#[trigger] n.instructions@[k], sz, c) by {
        if k < o.instructions@.len() {
            assert(n.instructions@[k] == o.instructions@[k]);
        }
    }
}

/// Only the register counter and the frame size moved, upwards.
proof fn lemma_variable_inv(o: Lowering, n: Lowering, c: nat)
    requires
        o.inv(c),
        n.function.variable_counter <= n.function.stack_size,
        o.function.stack_size <= n.function.stack_size,
        n.function.blocks == o.function.blocks,
        n.variable_lookup == o.variable_lookup,
        n.block_counter == o.block_counter,
        n.breaks == o.breaks,
        n.continues == o.continues,
        n.explicit_ret == o.explicit_ret,
    ensures
        n.inv(c),
{
    assert forall|k: int| 0 <= k < n.function.blocks@.len() implies block_within(
        #[trigger] n.function.blocks@[k],
        n.function.stack_size,
        c,
    ) by {
        lemma_block_within_grows(o.function.blocks@[k], o.function.stack_size, c, n.function.stack_size, c);
    }
}

/// Only the block counter moved, upwards.
proof fn lemma_block_inv(o: Lowering, n: Lowering, c: nat)
    requires
        o.inv(c),
        o.block_counter <= n.block_counter,
        n.function == o.function,
        n.variable_lookup == o.variable_lookup,
        n.breaks == o.breaks,
        n.continues == o.continues,
        n.explicit_ret == o.explicit_ret,
    ensures
        n.inv(c),
{
}

/// A terminator other than a switch was set on one block.
proof fn lemma_set_ending_inv(o: Lowering, n: Lowering, c: nat, e: BlockTerminator)
    requires
        o.inv(c),
        match e {
            BlockTerminator::Goto(t) => t.0 < o.block_counter,
            BlockTerminator::SwitchBool { .. } => false,
            BlockTerminator::Return => true,
        },
        same_indices(o.function.blocks@, n.function.blocks@),
        forall|k: int| 0 <= k < o.function.blocks@.len() ==> (#[trigger] n.function.blocks@[k]).instructions == o.function.blocks@[k].instructions,
        forall|k: int| 0 <= k < o.function.blocks@.len() ==> (#[trigger] n.function.blocks@[k]).ending == o.function.blocks@[k].ending
            || n.function.blocks@[k].ending == e,
        n.function.variable_counter == o.function.variable_counter,
        n.function.stack_size == o.function.stack_size,
        n.variable_lookup == o.variable_lookup,
        n.block_counter == o.block_counter,
        n.breaks == o.breaks,
        n.continues == o.continues,
        n.explicit_ret == o.explicit_ret,
    ensures
        n.inv(c),
        forall|id: BlockIndex| has_block(o.function.blocks@, id) ==> has_block(n.function.blocks@, id),
        forall|id: BlockIndex| has_block(n.function.blocks@, id) ==> has_block(o.function.blocks@, id),
{
    lemma_same_indices(o.function.blocks@, n.function.blocks@);
    assert forall|k: int| 0 <= k < n.function.blocks@.len() implies block_within(
        #[trigger] n.function.blocks@[k],
        n.function.stack_size,
        c,
    ) by {
        assert(block_within(o.function.blocks@[k], o.function.stack_size, c));
        assert(n.function.blocks@[k].instructions@ == o.function.blocks@[k].instructions@);
    }
    assert forall|k: int| 0 <= k < n.function.blocks@.len() implies (#[trigger] n.function.blocks@[k]).block_index.0 < n.block_counter
        && targets_ok(n.function.blocks@[k], n.block_counter) && waiting(n.function.blocks@[k], n.breaks@ + n.continues@) by {
        assert(o.function.blocks@[k].block_index.0 < o.block_counter);
        assert(targets_ok(o.function.blocks@[k], o.block_counter));
        assert(waiting(o.function.blocks@[k], o.breaks@ + o.continues@));
    }
}

/// An instruction within the frame was appended to one block.
proof fn lemma_push_ir_inv(o: Lowering, n: Lowering, ir: IR, c: nat)
    requires
        o.inv(c),
        ir_within(ir, o.function.stack_size, c),
        same_indices(o.function.blocks@, n.function.blocks@),
        forall|k: int| 0 <= k < o.function.blocks@.len() ==> (#[trigger] n.function.blocks@[k]).ending == o.function.blocks@[k].ending,
        forall|k: int| 0 <= k < o.function.blocks@.len() ==> (#[trigger] n.function.blocks@[k]).instructions@
            == o.function.blocks@[k].instructions@ || n.function.blocks@[k].instructions@ == o.function.blocks@[k].instructions@.push(ir),
        n.function.variable_counter == o.function.variable_counter,
        n.function.stack_size == o.function.stack_size,
        n.variable_lookup == o.variable_lookup,
        n.block_counter == o.block_counter,
        n.breaks == o.breaks,
        n.continues == o.continues,
        n.explicit_ret == o.explicit_ret,
    ensures
        n.inv(c),
        forall|id: BlockIndex| has_block(o.function.blocks@, id) ==> has_block(n.function.blocks@, id),
        forall|id: BlockIndex| has_block(n.function.blocks@, id) ==> has_block(o.function.blocks@, id),
{
    lemma_same_indices(o.function.blocks@, n.function.blocks@);
    assert forall|k: int| 0 <= k < n.function.blocks@.len() implies block_within(
        #[trigger] n.function.blocks@[k],
        n.function.stack_size,
        c,
    ) by {
        assert(block_within(o.function.blocks@[k], o.function.stack_size, c));
        if n.function.blocks@[k].instructions@ != o.function.blocks@[k].instructions@ {
            lemma_ir_pushed(o.function.blocks@[k], n.function.blocks@[k], ir, n.function.stack_size, c);
        }
    }
    assert forall|k: int| 0 <= k < n.function.blocks@.len() implies (#[trigger] n.function.blocks@[k]).block_index.0 < n.block_counter by {
        assert(o.function.blocks@[k].block_index.0 < o.block_counter);
    }
}

/// The block being filled was emitted.
proof fn lemma_emit_inv(o: Lowering, n: Lowering, cur: Block, c: nat)
    requires
        o.inv_returning(cur, c),
        o.cur_ok(cur, c),
        n.function.blocks@ == o.function.blocks@.push(cur),
        n.function.variable_counter <= n.function.stack_size,
        n.function.stack_size == o.function.stack_size,
        n.variable_lookup == o.variable_lookup,
        n.block_counter == o.block_counter,
        n.breaks == o.breaks,
        n.continues == o.continues,
        n.explicit_ret == o.explicit_ret,
    ensures
        n.inv(c),
        forall|id: BlockIndex| has_block(o.function.blocks@, id) ==> has_block(n.function.blocks@, id),
        has_block(n.function.blocks@, cur.block_index),
{
    lemma_push_keeps(o.function.blocks@, cur);
    assert forall|k: int| 0 <= k < n.function.blocks@.len() implies block_within(
        #[trigger] n.function.blocks@[k],
        n.function.stack_size,
        c,
    ) && n.function.blocks@[k].block_index.0 < n.block_counter by {
        if k < o.function.blocks@.len() {
            assert(n.function.blocks@[k] == o.function.blocks@[k]);
        } else {
            assert(n.function.blocks@[k] == cur);
        }
    }
}

/// Ready to lower into `b`: the invariants hold and what the conditions
/// call known is known.
spec fn ready(l: Lowering, b: Block, s: ConversionState, scope: Set<SymbolIndex>, fns: Set<usize>, exts: Set<usize>) -> bool {
    &&& l.inv(s.constants@.len())
    &&& l.cur_ok(b, s.constants@.len())
    &&& known(scope, fns, exts, l, s)
}

/// What lowering promises of the state it leaves: the invariants, the
/// constants `lits` appended, growth within the budget, and the block that
/// was being filled either emitted or still being filled.
/// An expression that lowers to straight-line code in the current block:
/// constants, names, casts, unary and binary operations, field reads.
pub open spec fn straight(i: Instruction) -> bool
    decreases i,
{
    match i.instruction_kind {
        InstructionKind::Expression(e) => match e {
            Expression::Data(_) => true,
            Expression::Identifier(_) => true,
            Expression::AsCast { value, .. } => straight(*value),
            Expression::BinaryOp { left, right, .. } => straight(*left) && straight(*right),
            Expression::UnaryOp { value, .. } => straight(*value),
            Expression::WithinNamespace { do_within, .. } => straight(*do_within),
            Expression::AccessStructureData { structure, .. } => straight(*structure),
            _ => false,
        },
        _ => false,
    }
}

/// The register that the innermost variable named `v` lives in.
pub open spec fn innermost(lookup: Seq<(SymbolIndex, Variable)>, v: SymbolIndex) -> Variable
    decreases lookup.len(),
{
    if lookup.len() == 0 {
        Variable(0)
    } else if lookup.last().0 == v {
        lookup.last().1
    } else {
        innermost(lookup.drop_last(), v)
    }
}

/// The cast instruction to type `t`.
pub open spec fn cast_ir(t: DataType, dst: Variable, val: Variable) -> IR {
    match t {
        DataType::I8 => IR::CastToI8 { dst, val },
        DataType::I16 => IR::CastToI16 { dst, val },
        DataType::I32 => IR::CastToI32 { dst, val },
        DataType::I64 => IR::CastToI64 { dst, val },
        DataType::U8 => IR::CastToU8 { dst, val },
        DataType::U16 => IR::CastToU16 { dst, val },
        DataType::U32 => IR::CastToU32 { dst, val },
        DataType::U64 => IR::CastToU64 { dst, val },
        DataType::Float => IR::CastToFloat { dst, val },
        _ => IR::Noop,
    }
}

/// The instruction of binary operator `op`.
pub open spec fn binary_ir(op: BinaryOperator, dst: Variable, left: Variable, right: Variable) -> IR {
    match op {
        BinaryOperator::Add => IR::Add { dst, left, right },
        BinaryOperator::Subtract => IR::Subtract { dst, left, right },
        BinaryOperator::Multiply => IR::Multiply { dst, left, right },
        BinaryOperator::Divide => IR::Divide { dst, left, right },
        BinaryOperator::Modulo => IR::Modulo { dst, left, right },
        BinaryOperator::Equals => IR::Equals { dst, left, right },
        BinaryOperator::NotEquals => IR::NotEquals { dst, left, right },
        BinaryOperator::GreaterThan => IR::GreaterThan { dst, left, right },
        BinaryOperator::LesserThan => IR::LesserThan { dst, left, right },
        BinaryOperator::GreaterEquals => IR::GreaterEquals { dst, left, right },
        BinaryOperator::LesserEquals => IR::LesserEquals { dst, left, right },
    }
}

/// What source operator `op` computes on operands `x` and `y`, as the
/// machine's opcode `code` computes it: the four arithmetic operations, the
/// remainder with the sign of `x`, the two equality tests, and the four
/// comparisons the same way round.
pub open spec fn computes(op: BinaryOperator, code: Bytecode, x: int, y: int) -> bool {
    match op {
        BinaryOperator::Add => is_arith(code) && arith(code, x, y) == x + y,
        BinaryOperator::Subtract => is_arith(code) && arith(code, x, y) == x - y,
        BinaryOperator::Multiply => is_arith(code) && arith(code, x, y) == x * y,
        BinaryOperator::Divide => is_arith(code) && arith(code, x, y) == tdiv(x, y),
        BinaryOperator::Modulo => is_arith(code) && arith(code, x, y) == trem(x, y),
        BinaryOperator::Equals => code == Bytecode::Equals,
        BinaryOperator::NotEquals => code == Bytecode::NotEquals,
        BinaryOperator::GreaterThan => is_order(code) && order(code, x, y) == (x > y),
        BinaryOperator::LesserThan => is_order(code) && order(code, x, y) == (x < y),
        BinaryOperator::GreaterEquals => is_order(code) && order(code, x, y) == (x >= y),
        BinaryOperator::LesserEquals => is_order(code) && order(code, x, y) == (x <= y),
    }
}

/// A binary operator is lowered to the instruction of the same operation:
/// for any operands, the code generator writes it as the machine operation
/// that computes the operator, with the result register first and the left
/// operand before the right one.
pub proof fn law_binary_lowering(op: BinaryOperator, dst: Variable, left: Variable, right: Variable, x: int, y: int)
    ensures
        lowered_binary(binary_ir(op, dst, left, right), dst, left, right),
        computes(op, lowered_opcode(binary_ir(op, dst, left, right)), x, y),
{
    law_lowered_operation_meaning(binary_ir(op, dst, left, right), x, y);
}

/// A unary operator is lowered to the instruction of the same operation:
/// `!` to the machine's not and `-` to its negation, on the same registers.
pub proof fn law_unary_lowering(op: UnaryOperator, dst: Variable, val: Variable)
    ensures
        lowered_unary(unary_ir(op, dst, val), dst, val),
        op is Not ==> lowered_opcode(unary_ir(op, dst, val)) == Bytecode::UnaryNot,
        op is Negate ==> lowered_opcode(unary_ir(op, dst, val)) == Bytecode::UnaryNeg,
{
    law_lowered_operation_meaning(unary_ir(op, dst, val), 0, 0);
}

/// A cast to a number type is lowered to the machine's cast whose result
/// has that type; a cast to any other type writes nothing.
pub proof fn law_cast_lowering(t: DataType, dst: Variable, val: Variable)
    ensures
        t is I8 ==> lowered_cast(cast_ir(t, dst, val), dst, val, TAG_I8),
        t is I16 ==> lowered_cast(cast_ir(t, dst, val), dst, val, TAG_I16),
        t is I32 ==> lowered_cast(cast_ir(t, dst, val), dst, val, TAG_I32),
        t is I64 ==> lowered_cast(cast_ir(t, dst, val), dst, val, TAG_I64),
        t is U8 ==> lowered_cast(cast_ir(t, dst, val), dst, val, TAG_U8),
        t is U16 ==> lowered_cast(cast_ir(t, dst, val), dst, val, TAG_U16),
        t is U32 ==> lowered_cast(cast_ir(t, dst, val), dst, val, TAG_U32),
        t is U64 ==> lowered_cast(cast_ir(t, dst, val), dst, val, TAG_U64),
        t is Float ==> lowered_cast(cast_ir(t, dst, val), dst, val, TAG_FLOAT),
        !castable(t) ==> cast_ir(t, dst, val) is Noop,
{
    law_lowered_operation_meaning(cast_ir(t, dst, val), 0, 0);
}

/// The instruction of unary operator `op`.
pub open spec fn unary_ir(op: UnaryOperator, dst: Variable, val: Variable) -> IR {
    match op {
        UnaryOperator::Not => IR::UnaryNot { dst, val },
        UnaryOperator::Negate => IR::UnaryNeg { dst, val },
    }
}

/// What a straight-line expression lowers to, with `next` the first free
/// register and `consts` the number of constants so far: the instructions
/// appended to the block, the register that holds the value, and the first
/// register left free. A constant is loaded into a new register from its
/// new slot in the table (the unit value is made in place); a name is read
/// from its register and emits nothing; a cast takes its register before
/// its operand is lowered; a unary or binary operation takes its register
/// after its operands, the left one first; so does a read of a field.
pub open spec fn emitted(i: Instruction, lookup: Seq<(SymbolIndex, Variable)>, next: nat, consts: nat) -> (Seq<IR>, nat, nat)
    decreases i,
{
    match i.instruction_kind {
        InstructionKind::Expression(e) => match e {
            Expression::Data(d) => if d.data is Empty {
                (seq![IR::Unit { dst: Variable(next as u32) }], next, next + 1)
            } else {
                (seq![IR::Load { dst: Variable(next as u32), data: consts as u32 }], next, next + 1)
            },
            Expression::Identifier(v) => (Seq::empty(), innermost(lookup, v).0 as nat, next),
            Expression::AsCast { value, cast_type } => {
                let (irs, val, n1) = emitted(*value, lookup, next + 1, consts);
                (irs.push(cast_ir(cast_type.data_type, Variable(next as u32), Variable(val as u32))), next, n1)
            },
            Expression::BinaryOp { operator, left, right } => {
                let (il, l, n1) = emitted(*left, lookup, next, consts);
                let (ir, r, n2) = emitted(*right, lookup, n1, consts + literals(*left).len());
                ((il + ir).push(binary_ir(operator, Variable(n2 as u32), Variable(l as u32), Variable(r as u32))), n2, n2 + 1)
            },
            Expression::UnaryOp { operator, value } => {
                let (iv, v, n1) = emitted(*value, lookup, next, consts);
                (iv.push(unary_ir(operator, Variable(n1 as u32), Variable(v as u32))), n1, n1 + 1)
            },
            Expression::WithinNamespace { do_within, .. } => emitted(*do_within, lookup, next, consts),
            Expression::AccessStructureData { structure, index_to, .. } => {
                let (is, v, n1) = emitted(*structure, lookup, next, consts);
                (is.push(IR::AccStruct { dst: Variable(n1 as u32), val: Variable(v as u32), index: index_to as u8 }), n1, n1 + 1)
            },
            _ => (Seq::empty(), 0, next),
        },
        _ => (Seq::empty(), 0, next),
    }
}

/// The expression that reads the name `v`.
pub open spec fn name_expression(v: SymbolIndex, range: SourceRange) -> Instruction {
    Instruction { instruction_kind: InstructionKind::Expression(Expression::Identifier(v)), source_range: range }
}

/// A binary operation on two names emits one instruction and nothing else:
/// the operation, into the first free register, with the register of the
/// left name as its left operand and that of the right name as its right
/// one, whatever the operator.
pub proof fn law_binary_on_names(op: BinaryOperator, a: SymbolIndex, b: SymbolIndex, ra: SourceRange, rb: SourceRange,
    range: SourceRange, lookup: Seq<(SymbolIndex, Variable)>, next: nat, consts: nat)
    requires
        next <= u32::MAX,
    ensures
        emitted(Instruction {
            instruction_kind: InstructionKind::Expression(Expression::BinaryOp {
                operator: op,
                left: Box::new(name_expression(a, ra)),
                right: Box::new(name_expression(b, rb)),
            }),
            source_range: range,
        }, lookup, next, consts)
            == (seq![binary_ir(op, Variable(next as u32), innermost(lookup, a), innermost(lookup, b))], next, next + 1),
{
    assert(literals(name_expression(a, ra)).len() == 0);
    assert(emitted(name_expression(a, ra), lookup, next, consts) == (Seq::<IR>::empty(), innermost(lookup, a).0 as nat, next));
    assert(emitted(name_expression(b, rb), lookup, next, consts) == (Seq::<IR>::empty(), innermost(lookup, b).0 as nat, next));
    assert(seq![binary_ir(op, Variable(next as u32), innermost(lookup, a), innermost(lookup, b))]
        =~= (Seq::<IR>::empty() + Seq::<IR>::empty()).push(binary_ir(op, Variable(next as u32), innermost(lookup, a), innermost(lookup, b))));
}

/// A unary operation on a name emits one instruction and nothing else: the
/// operation, into the first free register, on the register of the name.
pub proof fn law_unary_on_name(op: UnaryOperator, v: SymbolIndex, rv: SourceRange, range: SourceRange,
    lookup: Seq<(SymbolIndex, Variable)>, next: nat, consts: nat)
    requires
        next <= u32::MAX,
    ensures
        emitted(Instruction {
            instruction_kind: InstructionKind::Expression(Expression::UnaryOp { operator: op, value: Box::new(name_expression(v, rv)) }),
            source_range: range,
        }, lookup, next, consts)
            == (seq![unary_ir(op, Variable(next as u32), innermost(lookup, v))], next, next + 1),
{
    assert(emitted(name_expression(v, rv), lookup, next, consts) == (Seq::<IR>::empty(), innermost(lookup, v).0 as nat, next));
    assert(seq![unary_ir(op, Variable(next as u32), innermost(lookup, v))]
        =~= Seq::<IR>::empty().push(unary_ir(op, Variable(next as u32), innermost(lookup, v))));
}

/// A variable or field update whose operands are straight-line code
/// appends, in the same block, their instructions, left operand first, then
/// the copy into the variable or the store into the field, then a no-op.
spec fn update_lowered(i: Instruction, o: Lowering, n: Lowering, ob: Block, nb: Block, os: ConversionState) -> bool {
    match i.instruction_kind {
        InstructionKind::Statement(Statement::VariableUpdate { left, right }) => straight(*left) && straight(*right) ==> {
            let (il, l, n1) = emitted(*left, o.variable_lookup@, o.function.variable_counter as nat, os.constants@.len());
            let (ir, r, n2) = emitted(*right, o.variable_lookup@, n1, os.constants@.len() + literals(*left).len());
            &&& nb.instructions@ == ob.instructions@ + il + ir + seq![IR::Copy { src: Variable(r as u32), dst: Variable(l as u32) }, IR::Noop]
            &&& n.function.variable_counter == n2
            &&& n.block_counter == o.block_counter
            &&& n.function.blocks == o.function.blocks
            &&& nb.block_index == ob.block_index
            &&& nb.ending == ob.ending
        },
        InstructionKind::Statement(Statement::FieldUpdate { structure, right, index_to, .. }) => straight(*structure) && straight(*right) ==> {
            let (is, d, n1) = emitted(*structure, o.variable_lookup@, o.function.variable_counter as nat, os.constants@.len());
            let (ir, r, n2) = emitted(*right, o.variable_lookup@, n1, os.constants@.len() + literals(*structure).len());
            &&& nb.instructions@ == ob.instructions@ + is + ir + seq![IR::SetField { dst: Variable(d as u32), data: Variable(r as u32), index: index_to as u8 }]
            &&& n.function.variable_counter == n2
            &&& n.block_counter == o.block_counter
            &&& n.function.blocks == o.function.blocks
            &&& nb.block_index == ob.block_index
            &&& nb.ending == ob.ending
        },
        _ => true,
    }
}

/// A straight-line expression appended exactly what `emitted` gives.
spec fn emitted_as(i: Instruction, o: Lowering, n: Lowering, ob: Block, nb: Block, os: ConversionState, r: Variable) -> bool {
    straight(i) ==> {
        let (irs, v, next) = emitted(i, o.variable_lookup@, o.function.variable_counter as nat, os.constants@.len());
        &&& nb.instructions@ == ob.instructions@ + irs
        &&& r.0 == v
        &&& n.function.variable_counter == next
        &&& n.block_counter == o.block_counter
        &&& n.function.blocks == o.function.blocks
        &&& nb.block_index == ob.block_index
        &&& nb.ending == ob.ending
    }
}

/// What a list of straight-line operands lowers to, one after the other:
/// their instructions, the registers holding their values, and the first
/// register left free.
pub open spec fn emitted_list(args: Seq<Instruction>, lookup: Seq<(SymbolIndex, Variable)>, next: nat, consts: nat) -> (Seq<IR>, Seq<nat>, nat)
    decreases args.len(),
{
    if args.len() == 0 {
        (Seq::empty(), Seq::empty(), next)
    } else {
        let (i0, v0, n0) = emitted(args[0], lookup, next, consts);
        let (is, vs, n1) = emitted_list(args.subrange(1, args.len() as int), lookup, n0, consts + literals(args[0]).len());
        (i0 + is, seq![v0] + vs, n1)
    }
}

/// What a block of straight-line expressions lowers to when its value goes
/// to register `c`: each expression's code in turn, the registers from
/// `c + 1` on, then a copy of the last value (of `c` itself when the block
/// is empty) into `c`.
pub open spec fn block_code(items: Seq<Instruction>, lookup: Seq<(SymbolIndex, Variable)>, c: nat, consts: nat) -> Seq<IR> {
    let (irs, regs, next) = emitted_list(items, lookup, c + 1, consts);
    irs.push(IR::Copy { src: if items.len() == 0 { Variable(c as u32) } else { Variable(regs.last() as u32) }, dst: Variable(c as u32) })
}

/// Every operand is straight-line code.
pub open spec fn all_straight(args: Seq<Instruction>) -> bool {
    forall|k: int| 0 <= k < args.len() ==> straight(#[trigger] args[k])
}

/// How a call with straight-line arguments is lowered: its register is
/// taken first, then the arguments are lowered in order, then the call to
/// the function the name was registered as (or, failing that, the extern
/// function) is appended with the arguments' registers.
spec fn call_lowered(identifier: SymbolIndex, args: Seq<Instruction>, o: Lowering, ob: Block, nb: Block, os: ConversionState,
    ns: ConversionState, r: Variable) -> bool {
    all_straight(args) ==> {
        let (irs, vs, next) = emitted_list(args, o.variable_lookup@, o.function.variable_counter as nat + 1, os.constants@.len());
        &&& r.0 == o.function.variable_counter
        &&& nb.instructions@.len() == ob.instructions@.len() + irs.len() + 1
        &&& nb.instructions@.subrange(0, (ob.instructions@.len() + irs.len()) as int) == ob.instructions@ + irs
        &&& match nb.instructions@.last() {
            IR::Call { dst, id, args: regs } => dst == r && regs@.map_values(|v: Variable| v.0 as nat) == vs
                && ns.functions@.dom().contains(identifier.0) && id == ns.functions@[identifier.0].function_index,
            IR::ExtCall { dst, id, args: regs } => dst == r && regs@.map_values(|v: Variable| v.0 as nat) == vs
                && !ns.functions@.dom().contains(identifier.0) && ns.extern_functions@.dom().contains(identifier.0)
                && id == ns.extern_functions@[identifier.0].function_index,
            _ => false,
        }
    }
}

/// The values of a structure's fields, in the order written.
pub open spec fn field_values(fields: Seq<(SymbolIndex, Instruction)>) -> Seq<Instruction> {
    fields.map_values(|f: (SymbolIndex, Instruction)| f.1)
}

/// How a structure with straight-line field values is made: its register
/// is taken first; with no fields it is the unit value, else the values
/// are lowered in order and the structure is built from their registers.
spec fn struct_lowered(fields: Seq<(SymbolIndex, Instruction)>, o: Lowering, ob: Block, nb: Block, os: ConversionState,
    r: Variable) -> bool {
    all_straight(field_values(fields)) ==> {
        let (irs, vs, next) = emitted_list(field_values(fields), o.variable_lookup@, o.function.variable_counter as nat + 1,
            os.constants@.len());
        &&& r.0 == o.function.variable_counter
        &&& fields.len() == 0 ==> nb.instructions@ == ob.instructions@.push(IR::Unit { dst: r })
        &&& fields.len() > 0 ==> {
            &&& nb.instructions@.len() == ob.instructions@.len() + irs.len() + 1
            &&& nb.instructions@.subrange(0, (ob.instructions@.len() + irs.len()) as int) == ob.instructions@ + irs
            &&& nb.instructions@.last() matches IR::Struct { dst, fields: regs } && dst == r
                && regs@.map_values(|v: Variable| v.0 as nat) == vs
        }
    }
}

/// How a `loop` is lowered: the current block is emitted with its
/// instructions, jumping to the body's first block (the next block
/// number); lowering goes on in a fresh block after the loop, to which the
/// body's `break`s lead, and no jump is left waiting.
spec fn loop_lowered(o: Lowering, n: Lowering, ob: Block, nb: Block) -> bool {
    let last = n.function.blocks@.last();
    &&& n.function.blocks@.len() > 0
    &&& last.block_index == ob.block_index
    &&& last.instructions@ == ob.instructions@
    &&& last.ending == BlockTerminator::Goto(BlockIndex(o.block_counter))
    &&& nb.block_index.0 > o.block_counter
    &&& nb.instructions@.len() == 0
    &&& nb.ending == ob.ending
    &&& n.breaks@.len() == 0
    &&& n.continues@.len() == 0
}

/// How an `if` whose condition is straight-line code is lowered: the
/// current block gets the condition's code and ends by switching on its
/// register, to the body's first block (the next block number) when it
/// holds and otherwise to the else part's first block (the number after
/// the join block) or, without an else part, to the join block; lowering
/// goes on in the join block, and the value is in the register taken
/// right after the condition's.
spec fn if_lowered(condition: Instruction, body: Seq<Instruction>, has_else: bool, o: Lowering, n: Lowering, ob: Block, nb: Block,
    os: ConversionState, r: Variable) -> bool {
    straight(condition) ==> {
        let (irs, v, next) = emitted(condition, o.variable_lookup@, o.function.variable_counter as nat, os.constants@.len());
        let last = n.function.blocks@.last();
        &&& n.function.blocks@.len() > 0
        &&& last.block_index == ob.block_index
        &&& last.instructions@ == ob.instructions@ + irs
        &&& last.ending == BlockTerminator::SwitchBool {
            cond: Variable(v as u32),
            op1: BlockIndex(o.block_counter),
            op2: if has_else { BlockIndex((nb.block_index.0 + 1) as u32) } else { nb.block_index },
        }
        &&& nb.block_index.0 > o.block_counter
        &&& nb.instructions@.len() == 0
        &&& nb.ending == ob.ending
        &&& r.0 == next
        &&& exists|k: int| #![trigger n.function.blocks@[k]] 0 <= k < n.function.blocks@.len()
            && o.block_counter <= n.function.blocks@[k].block_index.0 < nb.block_index.0
            && n.function.blocks@[k].ending == BlockTerminator::Goto(nb.block_index)
        &&& !has_else && all_straight(body) ==> exists|k: int| #![trigger n.function.blocks@[k]] 0 <= k < n.function.blocks@.len()
            && n.function.blocks@[k].block_index == BlockIndex(o.block_counter)
            && n.function.blocks@[k].instructions@ == block_code(body, o.variable_lookup@, next, os.constants@.len() + literals(condition).len())
            && n.function.blocks@[k].ending == BlockTerminator::Goto(nb.block_index)
        &&& has_else ==> exists|k: int| #![trigger n.function.blocks@[k]] 0 <= k < n.function.blocks@.len()
            && n.function.blocks@[k].block_index.0 > nb.block_index.0
            && n.function.blocks@[k].ending == BlockTerminator::Goto(nb.block_index)
            && n.function.blocks@[k].instructions@.len() > 0
            && n.function.blocks@[k].instructions@.last() == (IR::Copy { src: Variable((next + 1) as u32), dst: Variable(next as u32) })
    }
}

spec fn lowered(
    o: Lowering,
    n: Lowering,
    ob: Block,
    nb: Block,
    os: ConversionState,
    ns: ConversionState,
    lits: Seq<Data>,
    b: nat,
    st: nat,
) -> bool {
    &&& n.inv(ns.constants@.len())
    &&& n.cur_ok(nb, ns.constants@.len())
    &&& ns.constants@ == os.constants@ + lits
    &&& grown(o, n, os, ns)
    &&& budget_ok(o, n, os, ns, b, st)
    &&& covers(ob, n.function.blocks@, nb)
    &&& forall|id: BlockIndex| has_block(n.function.blocks@, id) ==> has_block(o.function.blocks@, id) || id == ob.block_index
        || id.0 >= o.block_counter
    &&& nb.block_index == ob.block_index || nb.block_index.0 >= o.block_counter
    &&& accounted(o.block_counter, n.block_counter, n.function.blocks@, nb)
}

/// No `break` or `continue` was added to the waiting ones; a loop may have
/// taken them all.
spec fn jumps_kept(o: Lowering, n: Lowering) -> bool {
    &&& (n.breaks@ == o.breaks@ || n.breaks@.len() == 0)
    &&& (n.continues@ == o.continues@ || n.continues@.len() == 0)
}

/// Every block numbered from `lo` on, below `hi`, has been emitted or is
/// being filled.
pub open spec fn accounted(lo: u32, hi: u32, blocks: Seq<Block>, cur: Block) -> bool {
    forall|t: u32| lo <= t < hi ==> has_block(blocks, BlockIndex(t)) || cur.block_index == BlockIndex(t)
}

impl ConversionState {
    /// The function registered under `symbol`.
    pub fn find_function(&self, symbol: SymbolIndex) -> (r: &Function)
        requires
            self.functions@.contains_key(symbol.0),
        ensures
            *r == self.functions@[symbol.0],
    {
        self.functions.get(&symbol.0).unwrap()
    }
}

impl Lowering {
    /// Lowers one instruction into `block`; an expression gives the
    /// register that holds its value.
    fn convert(
        &mut self,
        state: &mut ConversionState,
        block: &mut Block,
        instruction: &Instruction,
        Ghost(scope): Ghost<Set<SymbolIndex>>,
        Ghost(fns): Ghost<Set<usize>>,
        Ghost(exts): Ghost<Set<usize>>,
    ) -> (r: Variable)
        requires
            ready(*old(self), *old(block), *old(state), scope, fns, exts),
            item_ok(*instruction, scope, fns, exts),
            room(*old(self), *old(state), 8 * size(*instruction), steps(*instruction), literals(*instruction).len()),
        ensures
            jumps_closed(*instruction) ==> jumps_kept(*old(self), *final(self)),
            final(state).functions@.dom() == old(state).functions@.dom().union(registered(*instruction, false)),
            final(state).extern_functions@.dom() == old(state).extern_functions@.dom().union(registered(*instruction, true)),
            lowered(*old(self), *final(self), *old(block), *final(block), *old(state), *final(state), literals(*instruction), 8 * size(*instruction), steps(*instruction)),
            lookup_step(old(self).variable_lookup@, final(self).variable_lookup@, declared_variable(*instruction)),
            instruction.instruction_kind is Expression ==> r.0 < final(self).function.stack_size,
            emitted_as(*instruction, *old(self), *final(self), *old(block), *final(block), *old(state), r),
            instruction.instruction_kind matches InstructionKind::Statement(Statement::Loop { .. })
                ==> loop_lowered(*old(self), *final(self), *old(block), *final(block)),
            update_lowered(*instruction, *old(self), *final(self), *old(block), *final(block), *old(state)),
        decreases size(*instruction), 1nat,
    {
        match &instruction.instruction_kind {
            InstructionKind::Statement(_) => {
                self.statement(state, block, instruction, Ghost(scope), Ghost(fns), Ghost(exts));
                Variable(u32::MAX)
            },
            InstructionKind::Expression(_) => self.expression(state, block, instruction, Ghost(scope), Ghost(fns), Ghost(exts)),
            InstructionKind::Declaration(_) => {
                self.declaration(state, block, instruction, Ghost(scope), Ghost(fns), Ghost(exts));
                Variable(u32::MAX)
            },
        }
    }

    fn statement(
        &mut self,
        state: &mut ConversionState,
        block: &mut Block,
        instruction: &Instruction,
        Ghost(scope): Ghost<Set<SymbolIndex>>,
        Ghost(fns): Ghost<Set<usize>>,
        Ghost(exts): Ghost<Set<usize>>,
    )
        requires
            instruction.instruction_kind is Statement,
            ready(*old(self), *old(block), *old(state), scope, fns, exts),
            item_ok(*instruction, scope, fns, exts),
            room(*old(self), *old(state), 8 * size(*instruction), steps(*instruction), literals(*instruction).len()),
        ensures
            jumps_closed(*instruction) ==> jumps_kept(*old(self), *final(self)),
            final(state).functions@.dom() == old(state).functions@.dom().union(registered(*instruction, false)),
            final(state).extern_functions@.dom() == old(state).extern_functions@.dom().union(registered(*instruction, true)),
            lowered(*old(self), *final(self), *old(block), *final(block), *old(state), *final(state), literals(*instruction), 8 * size(*instruction), steps(*instruction)),
            lookup_step(old(self).variable_lookup@, final(self).variable_lookup@, declared_variable(*instruction)),
            instruction.instruction_kind matches InstructionKind::Statement(Statement::Loop { .. })
                ==> loop_lowered(*old(self), *final(self), *old(block), *final(block)),
            update_lowered(*instruction, *old(self), *final(self), *old(block), *final(block), *old(state)),
        decreases size(*instruction), 0nat,
    {
        let ghost c0 = state.constants@.len();
        match &instruction.instruction_kind {
            InstructionKind::Statement(st) => match st {
                Statement::DeclareVar { identifier, data, .. } => {
                    proof {
                        lemma_single(**data, scope, fns, exts);
                    }
                    let variable = self.block_expression(state, block, one_item(data), Ghost(scope), Ghost(fns), Ghost(exts));
                    let ghost mid = *self;
                    let ghost bmid = *block;
                    self.variable_lookup.push((*identifier, variable));
                    block.ir(IR::Noop);
                    proof {
                        lemma_ir_pushed(bmid, *block, IR::Noop, self.function.stack_size, state.constants@.len());
                        assert(self.variable_lookup@.subrange(0, old(self).variable_lookup@.len() as int) =~= old(self).variable_lookup@);
                        assert forall|k: int| 0 <= k < self.variable_lookup@.len() implies (#[trigger] self.variable_lookup@[k]).1.0
                            < self.function.stack_size by {
                            if k < mid.variable_lookup@.len() {
                                assert(self.variable_lookup@[k] == mid.variable_lookup@[k]);
                            }
                        }
                    }
                },
                Statement::VariableUpdate { left, right } => {
                    proof {
                        lemma_operand_item(**left, scope, fns, exts);
                        lemma_operand_item(**right, scope, fns, exts);
                    }
                    let ghost u0 = *self;
                    let ghost v0 = *block;
                    let ghost w0 = *state;
                    let l = self.convert(state, block, left, Ghost(scope), Ghost(fns), Ghost(exts));
                    let ghost u1 = *self;
                    let ghost v1 = *block;
                    let ghost w1 = *state;
                    let r = self.convert(state, block, right, Ghost(scope), Ghost(fns), Ghost(exts));
                    let ghost b1 = *block;
                    block.ir(IR::Copy { src: r, dst: l });
                    let ghost b2 = *block;
                    block.ir(IR::Noop);
                    proof {
                        if straight(**left) && straight(**right) {
                            assert(u1.variable_lookup@ == u0.variable_lookup@);
                            assert(w1.constants@.len() == w0.constants@.len() + literals(**left).len());
                            assert(block.instructions@ =~= v0.instructions@ + emitted(**left, u0.variable_lookup@, u0.function.variable_counter as nat, w0.constants@.len()).0
                                + emitted(**right, u1.variable_lookup@, u1.function.variable_counter as nat, w1.constants@.len()).0
                                + seq![IR::Copy { src: r, dst: l }, IR::Noop]);
                        }
                        lemma_ir_pushed(b1, b2, IR::Copy { src: r, dst: l }, self.function.stack_size, state.constants@.len());
                        lemma_ir_pushed(b2, *block, IR::Noop, self.function.stack_size, state.constants@.len());
                        assert(state.constants@ =~= old(state).constants@ + literals(*instruction));
                        assert(state.functions@.dom() =~= old(state).functions@.dom().union(registered(*instruction, false)));
                        assert(state.extern_functions@.dom() =~= old(state).extern_functions@.dom().union(registered(*instruction, true)));
                    }
                },
                Statement::FieldUpdate { structure, right, index_to, .. } => {
                    proof {
                        lemma_operand_item(**structure, scope, fns, exts);
                        lemma_operand_item(**right, scope, fns, exts);
                    }
                    let ghost u0 = *self;
                    let ghost v0 = *block;
                    let ghost w0 = *state;
                    let dst = self.convert(state, block, structure, Ghost(scope), Ghost(fns), Ghost(exts));
                    let ghost u1 = *self;
                    let ghost v1 = *block;
                    let ghost w1 = *state;
                    let data = self.convert(state, block, right, Ghost(scope), Ghost(fns), Ghost(exts));
                    let ghost b1 = *block;
                    block.ir(IR::SetField { dst, data, index: *index_to as u8 });
                    proof {
                        if straight(**structure) && straight(**right) {
                            assert(u1.variable_lookup@ == u0.variable_lookup@);
                            assert(w1.constants@.len() == w0.constants@.len() + literals(**structure).len());
                            assert(block.instructions@ =~= v0.instructions@ + emitted(**structure, u0.variable_lookup@, u0.function.variable_counter as nat, w0.constants@.len()).0
                                + emitted(**right, u1.variable_lookup@, u1.function.variable_counter as nat, w1.constants@.len()).0
                                + seq![IR::SetField { dst, data, index: *index_to as u8 }]);
                        }
                        lemma_ir_pushed(b1, *block, IR::SetField { dst, data, index: *index_to as u8 }, self.function.stack_size, state.constants@.len());
                        assert(state.constants@ =~= old(state).constants@ + literals(*instruction));
                        assert(state.functions@.dom() =~= old(state).functions@.dom().union(registered(*instruction, false)));
                        assert(state.extern_functions@.dom() =~= old(state).extern_functions@.dom().union(registered(*instruction, true)));
                    }
                },
                Statement::Loop { body } => {
                    let body_block = self.convert_block(state, body.as_slice(), Ghost(scope), Ghost(fns), Ghost(exts));
                    let ghost c1 = state.constants@.len();
                    proof {
                        lemma_cur_grows(*old(self), *self, *old(block), c0, c1);
                    }
                    let ghost s1 = *self;
                    self.set_ending(body_block.1, BlockTerminator::Goto(body_block.0));
                    proof {
                        lemma_set_ending_inv(s1, *self, c1, BlockTerminator::Goto(body_block.0));
                    }
                    let ghost s2 = *self;
                    let next = self.block();
                    proof {
                        lemma_block_inv(s2, *self, c1);
                    }
                    let ghost s_pre = *self;
                    proof {
                        assert(!s_pre.breaks@.contains(old(block).block_index)) by {
                            if s_pre.breaks@.contains(old(block).block_index) {
                                let w = choose|w: int| 0 <= w < s_pre.breaks@.len() && s_pre.breaks@[w] == old(block).block_index;
                                assert(has_block(s_pre.function.blocks@, s_pre.breaks@[w]));
                            }
                        }
                        assert(!s_pre.continues@.contains(old(block).block_index)) by {
                            if s_pre.continues@.contains(old(block).block_index) {
                                let w = choose|w: int| 0 <= w < s_pre.continues@.len() && s_pre.continues@[w] == old(block).block_index;
                                assert(has_block(s_pre.function.blocks@, s_pre.continues@[w]));
                            }
                        }
                    }
                    self.split(block, BlockTerminator::Goto(body_block.0), next, Ghost(c1));
                    let target = block.block_index;
                    let ghost s3 = *self;
                    self.patch_jumps(target, body_block.0, Ghost(c1));
                    proof {
                        lemma_same_indices(s3.function.blocks@, self.function.blocks@);
                        let q = s3.function.blocks@.len() - 1;
                        assert(s3.function.blocks@[q] == s3.function.blocks@.last());
                        assert(self.function.blocks@[q] == self.function.blocks@.last());
                        assert(s3.breaks@ == s_pre.breaks@);
                        assert(s3.continues@ == s_pre.continues@);
                    }
                },
                Statement::Break => {
                    let index = block.block_index;
                    let ghost s0 = *self;
                    let next = self.block();
                    proof {
                        lemma_block_inv(s0, *self, c0);
                    }
                    self.split_waiting(block, next, true, Ghost(c0));
                },
                Statement::Continue => {
                    let index = block.block_index;
                    let ghost s0 = *self;
                    let next = self.block();
                    proof {
                        lemma_block_inv(s0, *self, c0);
                    }
                    self.split_waiting(block, next, false, Ghost(c0));
                },
                Statement::Return(_) => {
                    proof {
                        assert(false);
                    }
                },
            },
            _ => {},
        }
        proof {
            assert(state.functions@.dom() =~= old(state).functions@.dom().union(registered(*instruction, false)));
            assert(state.extern_functions@.dom() =~= old(state).extern_functions@.dom().union(registered(*instruction, true)));
        }
    }
}

impl Lowering {
    /// Emits the block being filled, ended by `ending`, and starts filling
    /// the block numbered `next`, which takes over the old terminator.
    fn split(&mut self, block: &mut Block, ending: BlockTerminator, next: BlockIndex, Ghost(c): Ghost<nat>)
        requires
            old(self).inv(c),
            old(self).cur_ok(*old(block), c),
            next.0 < old(self).block_counter,
            !has_block(old(self).function.blocks@, next),
            next != old(block).block_index,
            match ending {
                BlockTerminator::SwitchBool { cond, op1, op2 } => cond.0 < old(self).function.stack_size && op1.0 < old(self).block_counter
                    && op2.0 < old(self).block_counter,
                BlockTerminator::Goto(t) => t.0 < old(self).block_counter,
                BlockTerminator::Return => true,
            },
        ensures
            final(self).inv(c),
            final(self).cur_ok(*final(block), c),
            final(self).function.blocks@ == old(self).function.blocks@.push(
                Block { block_index: old(block).block_index, instructions: old(block).instructions, ending },
            ),
            final(block).block_index == next,
            final(block).ending == old(block).ending,
            final(block).instructions@.len() == 0,
            final(self).block_counter == old(self).block_counter,
            final(self).function.variable_counter == old(self).function.variable_counter,
            final(self).function.stack_size == old(self).function.stack_size,
            final(self).function.entry == old(self).function.entry,
            final(self).function.identifier == old(self).function.identifier,
            final(self).function.function_index == old(self).function.function_index,
            final(self).function.argument_count == old(self).function.argument_count,
            final(self).variable_lookup == old(self).variable_lookup,
            final(self).breaks == old(self).breaks,
            final(self).continues == old(self).continues,
            final(self).explicit_ret == old(self).explicit_ret,
            forall|id: BlockIndex| has_block(old(self).function.blocks@, id) ==> has_block(final(self).function.blocks@, id),
            has_block(final(self).function.blocks@, old(block).block_index),
            forall|id: BlockIndex| has_block(final(self).function.blocks@, id) ==> has_block(old(self).function.blocks@, id)
                || id == old(block).block_index,
    {
        let mut continue_block = Block { block_index: next, instructions: Vec::new(), ending: block.ending };
        block.ending = ending;
        std::mem::swap(block, &mut continue_block);
        let ghost s1 = *self;
        let ghost emitted = continue_block;
        self.function.blocks.push(continue_block);
        proof {
            assert(emitted.instructions@ == old(block).instructions@);
            assert(s1.cur_ok(emitted, c));
            lemma_emit_inv(s1, *self, emitted, c);
            lemma_push_back(s1.function.blocks@, emitted);
            assert(!has_block(self.function.blocks@, next));
        }
    }

    /// Emits the block being filled, ended by a jump that waits for its
    /// loop, lists it as a `break` (or a `continue`), and starts filling the
    /// block numbered `next`.
    fn split_waiting(&mut self, block: &mut Block, next: BlockIndex, is_break: bool, Ghost(c): Ghost<nat>)
        requires
            old(self).inv(c),
            old(self).cur_ok(*old(block), c),
            next.0 < old(self).block_counter,
            !has_block(old(self).function.blocks@, next),
            next != old(block).block_index,
        ensures
            final(self).inv(c),
            final(self).cur_ok(*final(block), c),
            final(block).block_index == next,
            final(self).block_counter == old(self).block_counter,
            final(self).function.variable_counter == old(self).function.variable_counter,
            final(self).function.stack_size == old(self).function.stack_size,
            final(self).function.entry == old(self).function.entry,
            final(self).function.identifier == old(self).function.identifier,
            final(self).function.function_index == old(self).function.function_index,
            final(self).function.argument_count == old(self).function.argument_count,
            final(self).variable_lookup == old(self).variable_lookup,
            final(self).explicit_ret == old(self).explicit_ret,
            is_break ==> final(self).breaks@ == old(self).breaks@.push(old(block).block_index),
            is_break ==> final(self).continues == old(self).continues,
            !is_break ==> final(self).continues@ == old(self).continues@.push(old(block).block_index),
            !is_break ==> final(self).breaks == old(self).breaks,
            forall|id: BlockIndex| has_block(old(self).function.blocks@, id) ==> has_block(final(self).function.blocks@, id),
            has_block(final(self).function.blocks@, old(block).block_index),
            forall|id: BlockIndex| has_block(final(self).function.blocks@, id) ==> has_block(old(self).function.blocks@, id)
                || id == old(block).block_index,
    {
        let index = block.block_index;
        let mut continue_block = Block { block_index: next, instructions: Vec::new(), ending: block.ending };
        block.ending = BlockTerminator::Goto(BlockIndex(u32::MAX));
        std::mem::swap(block, &mut continue_block);
        let ghost s1 = *self;
        let ghost emitted = continue_block;
        self.function.blocks.push(continue_block);
        if is_break {
            self.breaks.push(index);
        } else {
            self.continues.push(index);
        }
        proof {
            lemma_push_keeps(s1.function.blocks@, emitted);
            lemma_push_back(s1.function.blocks@, emitted);
            let bs = self.function.blocks@;
            let lists = self.breaks@ + self.continues@;
            assert(lists.contains(index)) by {
                if is_break {
                    assert(lists[self.breaks@.len() - 1] == index);
                } else {
                    assert(lists[self.breaks@.len() + self.continues@.len() - 1] == index);
                }
            }
            assert forall|k: int| 0 <= k < bs.len() implies waiting(#[trigger] bs[k], lists) && targets_ok(bs[k], self.block_counter)
                && block_within(bs[k], self.function.stack_size, c) && bs[k].block_index.0 < self.block_counter by {
                if k < s1.function.blocks@.len() {
                    assert(bs[k] == s1.function.blocks@[k]);
                    assert(waiting(bs[k], s1.breaks@ + s1.continues@));
                    if bs[k].ending == BlockTerminator::Goto(BlockIndex(u32::MAX)) {
                        let w = choose|w: int| 0 <= w < (s1.breaks@ + s1.continues@).len() && (s1.breaks@ + s1.continues@)[w] == bs[k].block_index;
                        if is_break {
                            if w < s1.breaks@.len() {
                                assert(lists[w] == bs[k].block_index);
                            } else {
                                assert(lists[w + 1] == bs[k].block_index);
                            }
                        } else {
                            assert(lists[w] == bs[k].block_index);
                        }
                    }
                } else {
                    assert(bs[k] == emitted);
                    assert(block_within(*old(block), s1.function.stack_size, c));
                }
            }
            assert(unique_blocks(bs)) by {
                assert forall|j: int, k: int| 0 <= j < bs.len() && 0 <= k < bs.len() && j != k implies (#[trigger] bs[j]).block_index
                    != (#[trigger] bs[k]).block_index by {
                    if j < s1.function.blocks@.len() && k < s1.function.blocks@.len() {
                    } else if j < s1.function.blocks@.len() {
                        assert(bs[k] == emitted);
                        assert(has_block(s1.function.blocks@, bs[j].block_index));
                    } else {
                        assert(bs[j] == emitted);
                        assert(has_block(s1.function.blocks@, bs[k].block_index));
                    }
                }
            }
            assert(pending_in(self.breaks@, bs, self.block_counter));
            assert(pending_in(self.continues@, bs, self.block_counter));
            assert(!has_block(bs, next));
        }
    }

    /// Sends every waiting `break` to `break_to` and every waiting
    /// `continue` to `continue_to`.
    fn patch_jumps(&mut self, break_to: BlockIndex, continue_to: BlockIndex, Ghost(c): Ghost<nat>)
        requires
            old(self).inv(c),
            break_to.0 < old(self).block_counter,
            continue_to.0 < old(self).block_counter,
        ensures
            final(self).inv(c),
            final(self).breaks@.len() == 0,
            final(self).continues@.len() == 0,
            final(self).block_counter == old(self).block_counter,
            final(self).function.variable_counter == old(self).function.variable_counter,
            final(self).function.stack_size == old(self).function.stack_size,
            final(self).function.entry == old(self).function.entry,
            final(self).function.identifier == old(self).function.identifier,
            final(self).function.function_index == old(self).function.function_index,
            final(self).function.argument_count == old(self).function.argument_count,
            final(self).variable_lookup == old(self).variable_lookup,
            final(self).explicit_ret == old(self).explicit_ret,
            same_indices(old(self).function.blocks@, final(self).function.blocks@),
            forall|k: int| 0 <= k < old(self).function.blocks@.len() ==> (#[trigger] final(self).function.blocks@[k]).instructions
                == old(self).function.blocks@[k].instructions,
            forall|k: int| 0 <= k < old(self).function.blocks@.len() ==> (#[trigger] final(self).function.blocks@[k]).ending
                == patched_ending(old(self).function.blocks@[k], old(self).breaks@, old(self).continues@, break_to, continue_to),
    {
        let ghost b0 = self.function.blocks@;
        let nb = self.breaks.len();
        let nc = self.continues.len();
        let mut k: usize = 0;
        proof {
            assert(self.breaks@.subrange(0, nb as int) =~= self.breaks@);
        }
        while k < nb
            invariant
                nb == self.breaks@.len(),
                nc == self.continues@.len(),
                k <= nb,
                self.sound(c),
                forall|j: int| 0 <= j < self.function.blocks@.len() ==> waiting(
                    #[trigger] self.function.blocks@[j],
                    self.breaks@.subrange(k as int, nb as int) + self.continues@,
                ),
                self.breaks == old(self).breaks,
                self.continues == old(self).continues,
                pending_in(self.explicit_ret@, self.function.blocks@, self.block_counter),
                self.block_counter == old(self).block_counter,
                break_to.0 < self.block_counter,
                continue_to.0 < self.block_counter,
                self.function.variable_counter == old(self).function.variable_counter,
                self.function.stack_size == old(self).function.stack_size,
                self.function.entry == old(self).function.entry,
                self.function.identifier == old(self).function.identifier,
                self.function.function_index == old(self).function.function_index,
                self.function.argument_count == old(self).function.argument_count,
                self.variable_lookup == old(self).variable_lookup,
                self.explicit_ret == old(self).explicit_ret,
                same_indices(old(self).function.blocks@, self.function.blocks@),
                b0 == old(self).function.blocks@,
                forall|i: int| 0 <= i < b0.len() ==> (#[trigger] self.function.blocks@[i]).instructions == b0[i].instructions,
                forall|i: int| 0 <= i < b0.len() ==> (#[trigger] self.function.blocks@[i]).ending == if self.breaks@.take(k as int).contains(
                    b0[i].block_index,
                ) {
                    BlockTerminator::Goto(break_to)
                } else {
                    b0[i].ending
                },
            decreases nb - k,
        {
            let ghost s1 = *self;
            let target = self.breaks[k];
            self.set_ending(target, BlockTerminator::Goto(break_to));
            proof {
                assert(self.breaks@.take(k as int + 1) =~= self.breaks@.take(k as int).push(target));
                assert forall|i: int| 0 <= i < b0.len() implies (#[trigger] self.function.blocks@[i]).ending == if self.breaks@.take(k as int + 1).contains(
                    b0[i].block_index,
                ) {
                    BlockTerminator::Goto(break_to)
                } else {
                    b0[i].ending
                } by {
                    assert(s1.function.blocks@[i].block_index == b0[i].block_index);
                    if b0[i].block_index == target {
                        assert(self.breaks@.take(k as int + 1)[k as int] == target);
                        assert(self.breaks@.take(k as int + 1).contains(target));
                    }
                }
                assert forall|i: int| 0 <= i < b0.len() implies (#[trigger] self.function.blocks@[i]).instructions == b0[i].instructions by {
                    assert(s1.function.blocks@[i].instructions == b0[i].instructions);
                }
                let before = s1.breaks@.subrange(k as int, nb as int) + s1.continues@;
                assert(before[0] == target);
                assert(before.subrange(1, before.len() as int) =~= s1.breaks@.subrange(k as int + 1, nb as int) + s1.continues@);
                lemma_patched(s1, *self, c, target, BlockTerminator::Goto(break_to), s1.breaks@.subrange(k as int, nb as int) + s1.continues@, s1.breaks@.subrange(k as int + 1, nb as int) + s1.continues@);
            }
            k = k + 1;
        }
        let mut j: usize = 0;
        let ghost b1 = self.function.blocks@;
        proof {
            assert(self.breaks@.subrange(nb as int, nb as int) + self.continues@ =~= self.continues@.subrange(0, nc as int));
            assert(self.breaks@.take(nb as int) =~= self.breaks@);
        }
        while j < nc
            invariant
                nb == self.breaks@.len(),
                nc == self.continues@.len(),
                j <= nc,
                self.sound(c),
                forall|i: int| 0 <= i < self.function.blocks@.len() ==> waiting(
                    #[trigger] self.function.blocks@[i],
                    self.continues@.subrange(j as int, nc as int),
                ),
                self.breaks == old(self).breaks,
                self.continues == old(self).continues,
                pending_in(self.explicit_ret@, self.function.blocks@, self.block_counter),
                self.block_counter == old(self).block_counter,
                continue_to.0 < self.block_counter,
                self.function.variable_counter == old(self).function.variable_counter,
                self.function.stack_size == old(self).function.stack_size,
                self.function.entry == old(self).function.entry,
                self.function.identifier == old(self).function.identifier,
                self.function.function_index == old(self).function.function_index,
                self.function.argument_count == old(self).function.argument_count,
                self.variable_lookup == old(self).variable_lookup,
                self.explicit_ret == old(self).explicit_ret,
                same_indices(old(self).function.blocks@, self.function.blocks@),
                b0 == old(self).function.blocks@,
                b1.len() == b0.len(),
                forall|i: int| 0 <= i < b0.len() ==> (#[trigger] b1[i]).instructions == b0[i].instructions,
                forall|i: int| 0 <= i < b0.len() ==> (#[trigger] b1[i]).ending == if self.breaks@.contains(b0[i].block_index) {
                    BlockTerminator::Goto(break_to)
                } else {
                    b0[i].ending
                },
                forall|i: int| 0 <= i < b0.len() ==> (#[trigger] self.function.blocks@[i]).instructions == b0[i].instructions,
                forall|i: int| 0 <= i < b0.len() ==> (#[trigger] self.function.blocks@[i]).ending == if self.continues@.take(j as int).contains(
                    b0[i].block_index,
                ) {
                    BlockTerminator::Goto(continue_to)
                } else {
                    b1[i].ending
                },
            decreases nc - j,
        {
            let ghost s1 = *self;
            let target = self.continues[j];
            self.set_ending(target, BlockTerminator::Goto(continue_to));
            proof {
                assert(self.continues@.take(j as int + 1) =~= self.continues@.take(j as int).push(target));
                assert forall|i: int| 0 <= i < b0.len() implies (#[trigger] self.function.blocks@[i]).ending == if self.continues@.take(j as int + 1).contains(
                    b0[i].block_index,
                ) {
                    BlockTerminator::Goto(continue_to)
                } else {
                    b1[i].ending
                } by {
                    assert(s1.function.blocks@[i].block_index == b0[i].block_index);
                    if b0[i].block_index == target {
                        assert(self.continues@.take(j as int + 1)[j as int] == target);
                        assert(self.continues@.take(j as int + 1).contains(target));
                    }
                }
                assert forall|i: int| 0 <= i < b0.len() implies (#[trigger] self.function.blocks@[i]).instructions == b0[i].instructions by {
                    assert(s1.function.blocks@[i].instructions == b0[i].instructions);
                }
                let before = s1.continues@.subrange(j as int, nc as int);
                assert(before[0] == target);
                assert(before.subrange(1, before.len() as int) =~= s1.continues@.subrange(j as int + 1, nc as int));
                lemma_patched(s1, *self, c, target, BlockTerminator::Goto(continue_to), s1.continues@.subrange(j as int, nc as int), s1.continues@.subrange(j as int + 1, nc as int));
            }
            j = j + 1;
        }
        let ghost old_breaks = self.breaks@;
        let ghost old_continues = self.continues@;
        self.breaks.clear();
        self.continues.clear();
        proof {
            assert(old_continues.take(nc as int) =~= old_continues);
            assert forall|i: int| 0 <= i < b0.len() implies (#[trigger] self.function.blocks@[i]).ending
                == patched_ending(b0[i], old_breaks, old_continues, break_to, continue_to) by {
            }
            assert forall|i: int| 0 <= i < self.function.blocks@.len() implies waiting(#[trigger] self.function.blocks@[i], self.breaks@ + self.continues@) by {
                assert(waiting(self.function.blocks@[i], self.continues@.subrange(nc as int, nc as int)));
            }
        }
    }
}

impl Lowering {
    fn expression(
        &mut self,
        state: &mut ConversionState,
        block: &mut Block,
        instruction: &Instruction,
        Ghost(scope): Ghost<Set<SymbolIndex>>,
        Ghost(fns): Ghost<Set<usize>>,
        Ghost(exts): Ghost<Set<usize>>,
    ) -> (r: Variable)
        requires
            instruction.instruction_kind is Expression,
            ready(*old(self), *old(block), *old(state), scope, fns, exts),
            item_ok(*instruction, scope, fns, exts),
            room(*old(self), *old(state), 8 * size(*instruction), steps(*instruction), literals(*instruction).len()),
        ensures
            jumps_closed(*instruction) ==> jumps_kept(*old(self), *final(self)),
            final(state).functions@.dom() == old(state).functions@.dom().union(registered(*instruction, false)),
            final(state).extern_functions@.dom() == old(state).extern_functions@.dom().union(registered(*instruction, true)),
            lowered(*old(self), *final(self), *old(block), *final(block), *old(state), *final(state), literals(*instruction), 8 * size(*instruction), steps(*instruction)),
            final(self).variable_lookup@ == old(self).variable_lookup@,
            r.0 < final(self).function.stack_size,
            emitted_as(*instruction, *old(self), *final(self), *old(block), *final(block), *old(state), r),
            instruction.instruction_kind matches InstructionKind::Expression(Expression::IfExpression { condition, body, else_part })
                ==> if_lowered(*condition, body@, else_part is Some, *old(self), *final(self), *old(block), *final(block), *old(state), r),
            instruction.instruction_kind matches InstructionKind::Expression(Expression::FunctionCall { identifier, arguments, .. })
                ==> call_lowered(identifier, arguments@, *old(self), *old(block), *final(block), *old(state), *final(state), r),
            instruction.instruction_kind matches InstructionKind::Expression(Expression::StructureCreation { fields, .. })
                ==> struct_lowered(fields@, *old(self), *old(block), *final(block), *old(state), r),
        decreases size(*instruction), 0nat,
    {
        let ghost c0 = state.constants@.len();
        match &instruction.instruction_kind {
            InstructionKind::Expression(e) => match e {
                Expression::Data(data) => {
                    let ghost s0 = *self;
                    let variable = self.variable();
                    proof {
                        lemma_variable_inv(s0, *self, c0);
                        lemma_cur_grows(s0, *self, *old(block), c0, c0);
                    }
                    let ghost b0 = *block;
                    match data.data {
                        Data::Empty => {
                            block.ir(IR::Unit { dst: variable });
                            proof {
                                lemma_ir_pushed(b0, *block, IR::Unit { dst: variable }, self.function.stack_size, c0);
                                assert(state.constants@ =~= old(state).constants@ + literals(*instruction));
                                assert(block.instructions@ =~= old(block).instructions@ + emitted(*instruction, old(self).variable_lookup@,
                                    old(self).function.variable_counter as nat, old(state).constants@.len()).0);
                            }
                        },
                        _ => {
                            let at = state.constants.len() as u32;
                            block.ir(IR::Load { dst: variable, data: at });
                            state.constants.push(data.data);
                            proof {
                                lemma_ir_pushed(b0, *block, IR::Load { dst: variable, data: at }, self.function.stack_size, c0 + 1);
                                lemma_inv_consts(*self, c0, c0 + 1);
                                assert(state.constants@ =~= old(state).constants@ + literals(*instruction));
                                assert(block.instructions@ =~= old(block).instructions@ + emitted(*instruction, old(self).variable_lookup@,
                                    old(self).function.variable_counter as nat, old(state).constants@.len()).0);
                            }
                        },
                    }
                    variable
                },
                Expression::AsCast { value, cast_type } => {
                    let ghost s0 = *self;
                    let dst = self.variable();
                    proof {
                        lemma_variable_inv(s0, *self, c0);
                        lemma_cur_grows(s0, *self, *old(block), c0, c0);
                        lemma_operand_item(**value, scope, fns, exts);
                    }
                    let val = self.convert(state, block, value, Ghost(scope), Ghost(fns), Ghost(exts));
                    let ghost b1 = *block;
                    let ghost c1 = state.constants@.len();
                    let ir = match cast_type.data_type {
                        DataType::I8 => IR::CastToI8 { dst, val },
                        DataType::I16 => IR::CastToI16 { dst, val },
                        DataType::I32 => IR::CastToI32 { dst, val },
                        DataType::I64 => IR::CastToI64 { dst, val },
                        DataType::U8 => IR::CastToU8 { dst, val },
                        DataType::U16 => IR::CastToU16 { dst, val },
                        DataType::U32 => IR::CastToU32 { dst, val },
                        DataType::U64 => IR::CastToU64 { dst, val },
                        DataType::Float => IR::CastToFloat { dst, val },
                        _ => {
                            proof {
                                assert(false);
                            }
                            IR::Noop
                        },
                    };
                    block.ir(ir);
                    proof {
                        lemma_ir_pushed(b1, *block, ir, self.function.stack_size, c1);
                        if straight(*instruction) {
                            let (irs, v, n1) = emitted(**value, old(self).variable_lookup@, old(self).function.variable_counter as nat + 1,
                                old(state).constants@.len());
                            assert(ir == cast_ir(cast_type.data_type, dst, val));
                            assert(block.instructions@ =~= old(block).instructions@ + irs.push(ir));
                        }
                    }
                    dst
                },
                Expression::BinaryOp { operator, left, right } => {
                    proof {
                        lemma_operand_item(**left, scope, fns, exts);
                        lemma_operand_item(**right, scope, fns, exts);
                    }
                    let left_var = self.convert(state, block, left, Ghost(scope), Ghost(fns), Ghost(exts));
                    let ghost bl = *block;
                    let ghost sl = *self;
                    let ghost cl = state.constants@.len();
                    let right_var = self.convert(state, block, right, Ghost(scope), Ghost(fns), Ghost(exts));
                    let ghost c1 = state.constants@.len();
                    let ghost s1 = *self;
                    let ghost b1 = *block;
                    let dst = self.variable();
                    proof {
                        lemma_variable_inv(s1, *self, c1);
                        lemma_cur_grows(s1, *self, b1, c1, c1);
                    }
                    let ir = match operator {
                        BinaryOperator::Add => IR::Add { dst, left: left_var, right: right_var },
                        BinaryOperator::Subtract => IR::Subtract { dst, left: left_var, right: right_var },
                        BinaryOperator::Multiply => IR::Multiply { dst, left: left_var, right: right_var },
                        BinaryOperator::Divide => IR::Divide { dst, left: left_var, right: right_var },
                        BinaryOperator::Modulo => IR::Modulo { dst, left: left_var, right: right_var },
                        BinaryOperator::Equals => IR::Equals { dst, left: left_var, right: right_var },
                        BinaryOperator::NotEquals => IR::NotEquals { dst, left: left_var, right: right_var },
                        BinaryOperator::GreaterThan => IR::GreaterThan { dst, left: left_var, right: right_var },
                        BinaryOperator::LesserThan => IR::LesserThan { dst, left: left_var, right: right_var },
                        BinaryOperator::GreaterEquals => IR::GreaterEquals { dst, left: left_var, right: right_var },
                        BinaryOperator::LesserEquals => IR::LesserEquals { dst, left: left_var, right: right_var },
                    };
                    block.ir(ir);
                    proof {
                        lemma_ir_pushed(b1, *block, ir, self.function.stack_size, c1);
                        assert(state.constants@ =~= old(state).constants@ + literals(*instruction));
                        if straight(*instruction) {
                            let (il, l, n1) = emitted(**left, old(self).variable_lookup@, old(self).function.variable_counter as nat,
                                old(state).constants@.len());
                            assert(cl == old(state).constants@.len() + literals(**left).len());
                            assert(sl.variable_lookup@ == old(self).variable_lookup@);
                            let (ir_r, r, n2) = emitted(**right, sl.variable_lookup@, sl.function.variable_counter as nat, cl);
                            assert(ir == binary_ir(*operator, dst, left_var, right_var));
                            assert(block.instructions@ =~= old(block).instructions@ + (il + ir_r).push(ir));
                        }
                    }
                    dst
                },
                Expression::UnaryOp { operator, value } => {
                    proof {
                        lemma_operand_item(**value, scope, fns, exts);
                    }
                    let val = self.convert(state, block, value, Ghost(scope), Ghost(fns), Ghost(exts));
                    let ghost c1 = state.constants@.len();
                    let ghost s1 = *self;
                    let ghost b1 = *block;
                    let dst = self.variable();
                    proof {
                        lemma_variable_inv(s1, *self, c1);
                        lemma_cur_grows(s1, *self, b1, c1, c1);
                    }
                    let ir = match operator {
                        UnaryOperator::Not => IR::UnaryNot { dst, val },
                        UnaryOperator::Negate => IR::UnaryNeg { dst, val },
                    };
                    block.ir(ir);
                    proof {
                        lemma_ir_pushed(b1, *block, ir, self.function.stack_size, c1);
                        if straight(*instruction) {
                            let (iv, v, n1) = emitted(**value, old(self).variable_lookup@, old(self).function.variable_counter as nat,
                                old(state).constants@.len());
                            assert(ir == unary_ir(*operator, dst, val));
                            assert(block.instructions@ =~= old(block).instructions@ + iv.push(ir));
                        }
                    }
                    dst
                },
                Expression::Block { body } => {
                    self.block_expression(state, block, body.as_slice(), Ghost(scope), Ghost(fns), Ghost(exts))
                },
                Expression::IfExpression { body, condition, else_part } => {
                    self.if_expression(state, block, condition, body, else_part, Ghost(scope), Ghost(fns), Ghost(exts))
                },
                Expression::Identifier(v) => {
                    let r = self.lookup(*v);
                    proof {
                        assert(state.constants@ =~= old(state).constants@ + literals(*instruction));
                        assert(block.instructions@ =~= old(block).instructions@ + Seq::<IR>::empty());
                    }
                    r
                },
                Expression::FunctionCall { identifier, arguments, .. } => {
                    self.function_call(state, block, *identifier, arguments, Ghost(scope), Ghost(fns), Ghost(exts))
                },
                Expression::StructureCreation { fields, .. } => {
                    self.structure_creation(state, block, fields, Ghost(scope), Ghost(fns), Ghost(exts))
                },
                Expression::AccessStructureData { structure, index_to, .. } => {
                    proof {
                        lemma_operand_item(**structure, scope, fns, exts);
                    }
                    let struct_at = self.convert(state, block, structure, Ghost(scope), Ghost(fns), Ghost(exts));
                    let ghost c1 = state.constants@.len();
                    let ghost s1 = *self;
                    let ghost b1 = *block;
                    let dst = self.variable();
                    proof {
                        lemma_variable_inv(s1, *self, c1);
                        lemma_cur_grows(s1, *self, b1, c1, c1);
                    }
                    block.ir(IR::AccStruct { dst, val: struct_at, index: *index_to as u8 });
                    proof {
                        lemma_ir_pushed(b1, *block, IR::AccStruct { dst, val: struct_at, index: *index_to as u8 }, self.function.stack_size, c1);
                        if straight(*instruction) {
                            let (is, v, n1) = emitted(**structure, old(self).variable_lookup@, old(self).function.variable_counter as nat,
                                old(state).constants@.len());
                            assert(block.instructions@ =~= old(block).instructions@ + is.push(
                                IR::AccStruct { dst, val: struct_at, index: *index_to as u8 }));
                        }
                    }
                    dst
                },
                Expression::WithinNamespace { do_within, .. } => {
                    proof {
                        lemma_operand_item(**do_within, scope, fns, exts);
                    }
                    self.convert(state, block, do_within, Ghost(scope), Ghost(fns), Ghost(exts))
                },
            },
            _ => {
                proof {
                    assert(false);
                }
                Variable(0)
            },
        }
    }
}

pub open spec fn else_size(e: Option<Box<Instruction>>) -> nat {
    match e {
        Some(x) => size(*x),
        None => 0,
    }
}

pub open spec fn else_literals(e: Option<Box<Instruction>>) -> Seq<Data> {
    match e {
        Some(x) => single_literals(*x),
        None => Seq::empty(),
    }
}

pub open spec fn else_steps(e: Option<Box<Instruction>>) -> nat {
    match e {
        Some(x) => single_steps(*x),
        None => 0,
    }
}

pub open spec fn else_ok(e: Option<Box<Instruction>>, scope: Set<SymbolIndex>, fns: Set<usize>, exts: Set<usize>) -> bool {
    match e {
        Some(x) => single_ok(*x, scope, fns, exts),
        None => true,
    }
}

impl Lowering {
    fn if_expression(
        &mut self,
        state: &mut ConversionState,
        block: &mut Block,
        condition: &Box<Instruction>,
        body: &Vec<Instruction>,
        else_part: &Option<Box<Instruction>>,
        Ghost(scope): Ghost<Set<SymbolIndex>>,
        Ghost(fns): Ghost<Set<usize>>,
        Ghost(exts): Ghost<Set<usize>>,
    ) -> (r: Variable)
        requires
            ready(*old(self), *old(block), *old(state), scope, fns, exts),
            operand_ok(**condition, scope, fns, exts),
            block_ok(body@, scope, fns, exts),
            else_ok(*else_part, scope, fns, exts),
            room(
                *old(self),
                *old(state),
                8 * (size(**condition) + sizes(body@) + else_size(*else_part)) + 5,
                steps(**condition) + block_steps(body@) + else_steps(*else_part),
                (literals(**condition) + block_literals(body@) + else_literals(*else_part)).len(),
            ),
        ensures
            jumps_closed(**condition) && walk_closed(body@) && else_closed(*else_part) ==> jumps_kept(*old(self), *final(self)),
            final(state).functions@.dom() == old(state).functions@.dom().union(registered(**condition, false).union(block_registered(body@, false)).union(else_registered(*else_part, false))),
            final(state).extern_functions@.dom() == old(state).extern_functions@.dom().union(registered(**condition, true).union(block_registered(body@, true)).union(else_registered(*else_part, true))),
            lowered(
                *old(self),
                *final(self),
                *old(block),
                *final(block),
                *old(state),
                *final(state),
                literals(**condition) + block_literals(body@) + else_literals(*else_part),
                8 * (size(**condition) + sizes(body@) + else_size(*else_part)) + 5,
                steps(**condition) + block_steps(body@) + else_steps(*else_part),
            ),
            final(self).variable_lookup@ == old(self).variable_lookup@,
            r.0 < final(self).function.stack_size,
            if_lowered(**condition, body@, else_part is Some, *old(self), *final(self), *old(block), *final(block), *old(state), r),
        decreases size(**condition) + sizes(body@) + else_size(*else_part), 5nat,
    {
        proof {
            lemma_operand_item(**condition, scope, fns, exts);
        }
        let cond = self.convert(state, block, condition, Ghost(scope), Ghost(fns), Ghost(exts));
        let ghost s1 = *self;
        let ghost c1 = state.constants@.len();
        let body_block = self.convert_block(state, body.as_slice(), Ghost(scope), Ghost(fns), Ghost(exts));
        let ghost c2 = state.constants@.len();
        proof {
            lemma_cur_grows(s1, *self, *block, c1, c2);
        }
        let ghost s2 = *self;
        let ghost mut body_at: int = 0;
        let ghost mut else_at: int = 0;
        let cidx = self.block();
        proof {
            lemma_block_inv(s2, *self, c2);
            lemma_cur_grows(s2, *self, *block, c2, c2);
        }
        let op2 = match else_part {
            Some(x) => {
                proof {
                    lemma_single(**x, scope, fns, exts);
                }
                let ghost s3 = *self;
                let eb = self.convert_block(state, one_item(x), Ghost(scope), Ghost(fns), Ghost(exts));
                let ghost c3 = state.constants@.len();
                proof {
                    lemma_cur_grows(s3, *self, *block, c2, c3);
                }
                let ghost s4 = *self;
                self.set_ending(eb.1, BlockTerminator::Goto(cidx));
                proof {
                    lemma_set_ending_inv(s4, *self, c3, BlockTerminator::Goto(cidx));
                }
                let ghost s5 = *self;
                self.push_ir_to(eb.1, IR::Copy { src: eb.2, dst: body_block.2 });
                proof {
                    lemma_push_ir_inv(s5, *self, IR::Copy { src: eb.2, dst: body_block.2 }, c3);
                    let ke = choose|k: int| 0 <= k < s4.function.blocks@.len() && #[trigger] s4.function.blocks@[k].block_index == eb.1;
                    assert(s5.function.blocks@[ke].block_index == eb.1);
                    assert(s5.function.blocks@[ke].ending == BlockTerminator::Goto(cidx));
                    assert(first_with_index(s5.function.blocks@, eb.1, ke)) by {
                        assert(unique_blocks(s5.function.blocks@));
                    }
                    assert(self.function.blocks@[ke].instructions@ == s5.function.blocks@[ke].instructions@.push(IR::Copy { src: eb.2, dst: body_block.2 }));
                    assert(self.function.blocks@[ke].block_index == eb.1);
                    assert(self.function.blocks@[ke].ending == BlockTerminator::Goto(cidx));
                    else_at = ke;
                }
                eb.0
            },
            None => cidx,
        };
        let ghost c4 = state.constants@.len();
        let ghost s6 = *self;
        self.set_ending(body_block.1, BlockTerminator::Goto(cidx));
        proof {
            lemma_set_ending_inv(s6, *self, c4, BlockTerminator::Goto(cidx));
        }
        let ghost s7 = *self;
        proof {
            let kb = choose|k: int| 0 <= k < s6.function.blocks@.len() && #[trigger] s6.function.blocks@[k].block_index == body_block.1;
            assert(s7.function.blocks@[kb].ending == BlockTerminator::Goto(cidx));
            body_at = kb;
            if else_part is None && all_straight(body@) {
                let kl = s2.function.blocks@.len() - 1;
                assert(s6.function.blocks@ == s2.function.blocks@);
                assert(s6.function.blocks@[kl].block_index == body_block.1);
                assert(kb == kl) by {
                    assert(unique_blocks(s6.function.blocks@));
                }
            }
            if else_part is Some {
                assert(s6.function.blocks@[else_at].block_index != body_block.1);
                assert(s7.function.blocks@[else_at] == s6.function.blocks@[else_at]) by {
                    assert(s7.function.blocks@[else_at].instructions == s6.function.blocks@[else_at].instructions);
                    assert(s7.function.blocks@[else_at].ending == s6.function.blocks@[else_at].ending);
                }
            }
        }
        self.split(block, BlockTerminator::SwitchBool { cond, op1: body_block.0, op2 }, cidx, Ghost(c4));
        proof {
            assert(self.function.blocks@[body_at] == s7.function.blocks@[body_at]);
            if else_part is Some {
                assert(self.function.blocks@[else_at] == s7.function.blocks@[else_at]);
            }
            assert(state.constants@ =~= old(state).constants@ + (literals(**condition) + block_literals(body@) + else_literals(*else_part)));
        }
        body_block.2
    }

    fn function_call(
        &mut self,
        state: &mut ConversionState,
        block: &mut Block,
        identifier: SymbolIndex,
        arguments: &Vec<Instruction>,
        Ghost(scope): Ghost<Set<SymbolIndex>>,
        Ghost(fns): Ghost<Set<usize>>,
        Ghost(exts): Ghost<Set<usize>>,
    ) -> (r: Variable)
        requires
            ready(*old(self), *old(block), *old(state), scope, fns, exts),
            fns.contains(identifier.0) || exts.contains(identifier.0),
            operands_ok(arguments@, scope, fns, exts),
            room(*old(self), *old(state), 8 * sizes(arguments@) + 1, operand_list_steps(arguments@), operand_list_literals(arguments@).len()),
        ensures
            operands_closed(arguments@) ==> jumps_kept(*old(self), *final(self)),
            final(state).functions@.dom() == old(state).functions@.dom().union(operand_list_registered(arguments@, false)),
            final(state).extern_functions@.dom() == old(state).extern_functions@.dom().union(operand_list_registered(arguments@, true)),
            lowered(*old(self), *final(self), *old(block), *final(block), *old(state), *final(state), operand_list_literals(arguments@), 8 * sizes(arguments@) + 1, operand_list_steps(arguments@)),
            final(self).variable_lookup@ == old(self).variable_lookup@,
            r.0 < final(self).function.stack_size,
            call_lowered(identifier, arguments@, *old(self), *old(block), *final(block), *old(state), *final(state), r),
        decreases sizes(arguments@), 5nat,
    {
        let ghost c0 = state.constants@.len();
        let ghost s0 = *self;
        let dst = self.variable();
        proof {
            lemma_variable_inv(s0, *self, c0);
            lemma_cur_grows(s0, *self, *block, c0, c0);
        }
        let ghost s1 = *self;
        let ghost b1 = *block;
        let ghost st1 = *state;
        let ghost args = arguments@;
        let n = arguments.len();
        let mut variables: Vec<Variable> = Vec::new();
        let mut k: usize = 0;
        proof {
            assert(args.subrange(0, n as int) =~= args);
        }
        while k < n
            invariant
                n == args.len(),
                args == arguments@,
                k <= n,
                ready(*self, *block, *state, scope, fns, exts),
                operands_ok(args.subrange(k as int, n as int), scope, fns, exts),
                state.constants@ + operand_list_literals(args.subrange(k as int, n as int)) == st1.constants@
                    + operand_list_literals(args),
                state.functions@.dom().union(operand_list_registered(args.subrange(k as int, n as int), false)) == st1.functions@.dom().union(
                    operand_list_registered(args, false),
                ),
                state.extern_functions@.dom().union(operand_list_registered(args.subrange(k as int, n as int), true)) == st1.extern_functions@.dom().union(
                    operand_list_registered(args, true),
                ),
                grown(s1, *self, st1, *state),
                covers(b1, self.function.blocks@, *block),
                forall|id: BlockIndex| has_block(self.function.blocks@, id) ==> has_block(s1.function.blocks@, id) || id == b1.block_index
                    || id.0 >= s1.block_counter,
                block.block_index == b1.block_index || block.block_index.0 >= s1.block_counter,
                accounted(s1.block_counter, self.block_counter, self.function.blocks@, *block),
                operands_closed(args) ==> operands_closed(args.subrange(k as int, n as int)) && jumps_kept(s1, *self),
                self.function.variable_counter + 8 * sizes(args.subrange(k as int, n as int)) <= s1.function.variable_counter + 8 * sizes(args),
                self.block_counter + 8 * sizes(args.subrange(k as int, n as int)) <= s1.block_counter + 8 * sizes(args),
                state.function_counter + operand_list_steps(args.subrange(k as int, n as int)) <= st1.function_counter
                    + operand_list_steps(args),
                state.extern_counter + operand_list_steps(args.subrange(k as int, n as int)) <= st1.extern_counter
                    + operand_list_steps(args),
                room(s1, st1, 8 * sizes(args), operand_list_steps(args), operand_list_literals(args).len()),
                self.variable_lookup@ == s1.variable_lookup@,
                variables@.len() == k,
                forall|j: int| 0 <= j < k ==> (#[trigger] variables@[j]).0 < self.function.stack_size,
                dst.0 < self.function.stack_size,
                dst.0 == s0.function.variable_counter,
                s1.function.variable_counter == s0.function.variable_counter + 1,
                s1.variable_lookup@ == s0.variable_lookup@,
                all_straight(args) ==> ({
                    let (ia, va, na) = emitted_list(args, s0.variable_lookup@, s1.function.variable_counter as nat, st1.constants@.len());
                    let (ir, vr, nr) = emitted_list(args.subrange(k as int, n as int), s0.variable_lookup@,
                        self.function.variable_counter as nat, state.constants@.len());
                    &&& block.instructions@ + ir == b1.instructions@ + ia
                    &&& variables@.map_values(|v: Variable| v.0 as nat) + vr == va
                    &&& block.block_index == b1.block_index
                }),
            decreases n - k,
        {
            let ghost sub = args.subrange(k as int, n as int);
            let ghost next = args.subrange(k as int + 1, n as int);
            proof {
                assert(sub[0] == args[k as int]);
                assert(sub.subrange(1, sub.len() as int) =~= next);
                lemma_arg_size(args, k as int);
                lemma_operand_item(args[k as int], scope, fns, exts);
                assert(sizes(sub) == size(args[k as int]) + sizes(next));
                assert(operand_list_literals(sub) == literals(args[k as int]) + operand_list_literals(next));
                assert(operand_list_steps(sub) == steps(args[k as int]) + operand_list_steps(next));
                assert((state.constants@ + operand_list_literals(sub)).len() == state.constants@.len() + operand_list_literals(sub).len());
                assert((st1.constants@ + operand_list_literals(args)).len() == st1.constants@.len() + operand_list_literals(args).len());
            }
            let ghost sk = *self;
            let ghost bk = *block;
            let ghost stk = *state;
            let ghost vbefore = variables@;
            let argument_reg = self.convert(state, block, &arguments[k], Ghost(scope), Ghost(fns), Ghost(exts));
            variables.push(argument_reg);
            k = k + 1;
            proof {
                if all_straight(args) {
                    assert(straight(args[k - 1]));
                    assert(sub[0] == args[k - 1]);
                    let (ir, vr, nr) = emitted_list(sub, s0.variable_lookup@, sk.function.variable_counter as nat, stk.constants@.len());
                    let (i0, v0, n0) = emitted(args[k - 1], sk.variable_lookup@, sk.function.variable_counter as nat, stk.constants@.len());
                    assert(stk.constants@.len() + literals(args[k - 1]).len() == state.constants@.len());
                    assert(variables@.map_values(|v: Variable| v.0 as nat) =~= vbefore.map_values(|v: Variable| v.0 as nat).push(v0));
                    assert(block.instructions@ == bk.instructions@ + i0);
                }
            }
            proof {
                assert(state.constants@ + operand_list_literals(next) =~= st1.constants@ + operand_list_literals(args));
                assert(state.functions@.dom().union(operand_list_registered(next, false)) =~= st1.functions@.dom().union(operand_list_registered(args, false)));
                assert(state.extern_functions@.dom().union(operand_list_registered(next, true)) =~= st1.extern_functions@.dom().union(operand_list_registered(args, true)));
                assert forall|j: int| 0 <= j < k implies (#[trigger] variables@[j]).0 < self.function.stack_size by {
                    if j < k - 1 {
                        assert(variables@[j].0 < sk.function.stack_size);
                    }
                }
            }
        }
        proof {
            assert(args.subrange(n as int, n as int) =~= Seq::<Instruction>::empty());
            assert(state.constants@ =~= st1.constants@ + operand_list_literals(args));
            assert(state.functions@.dom() =~= st1.functions@.dom().union(operand_list_registered(args, false)));
            assert(state.extern_functions@.dom() =~= st1.extern_functions@.dom().union(operand_list_registered(args, true)));
        }
        let ghost b2 = *block;
        let ghost c2 = state.constants@.len();
        let ghost b2_counter = self.function.variable_counter;
        let ir = match state.functions.get(&identifier.0) {
            Some(v) => IR::Call { dst, id: v.function_index, args: variables },
            None => match state.extern_functions.get(&identifier.0) {
                Some(v) => IR::ExtCall { dst, id: v.function_index, args: variables },
                None => {
                    proof {
                        assert(false);
                    }
                    IR::Noop
                },
            },
        };
        block.ir(ir);
        proof {
            lemma_ir_pushed(b2, *block, ir, self.function.stack_size, c2);
            if all_straight(args) {
                let (ia, va, na) = emitted_list(args, s0.variable_lookup@, s1.function.variable_counter as nat, st1.constants@.len());
                let (ir0, vr0, nr0) = emitted_list(args.subrange(n as int, n as int), s0.variable_lookup@,
                    b2_counter as nat, c2);
                assert(b2.instructions@ =~= b1.instructions@ + ia);
                assert(variables@.map_values(|v: Variable| v.0 as nat) =~= va);
                assert(block.instructions@.subrange(0, (b1.instructions@.len() + ia.len()) as int) =~= b2.instructions@);
            }
        }
        dst
    }

    fn structure_creation(
        &mut self,
        state: &mut ConversionState,
        block: &mut Block,
        fields: &Vec<(SymbolIndex, Instruction)>,
        Ghost(scope): Ghost<Set<SymbolIndex>>,
        Ghost(fns): Ghost<Set<usize>>,
        Ghost(exts): Ghost<Set<usize>>,
    ) -> (r: Variable)
        requires
            ready(*old(self), *old(block), *old(state), scope, fns, exts),
            fields_ok(fields@, scope, fns, exts),
            room(*old(self), *old(state), 8 * field_sizes(fields@) + 1, field_steps(fields@), field_literals(fields@).len()),
        ensures
            fields_closed(fields@) ==> jumps_kept(*old(self), *final(self)),
            final(state).functions@.dom() == old(state).functions@.dom().union(field_registered(fields@, false)),
            final(state).extern_functions@.dom() == old(state).extern_functions@.dom().union(field_registered(fields@, true)),
            lowered(*old(self), *final(self), *old(block), *final(block), *old(state), *final(state), field_literals(fields@), 8 * field_sizes(fields@) + 1, field_steps(fields@)),
            final(self).variable_lookup@ == old(self).variable_lookup@,
            r.0 < final(self).function.stack_size,
            struct_lowered(fields@, *old(self), *old(block), *final(block), *old(state), r),
        decreases field_sizes(fields@), 5nat,
    {
        let ghost c0 = state.constants@.len();
        let ghost s0 = *self;
        let dst = self.variable();
        proof {
            lemma_variable_inv(s0, *self, c0);
            lemma_cur_grows(s0, *self, *block, c0, c0);
        }
        let ghost b0 = *block;
        if fields.len() == 0 {
            block.ir(IR::Unit { dst });
            proof {
                lemma_ir_pushed(b0, *block, IR::Unit { dst }, self.function.stack_size, c0);
                assert(state.constants@ =~= old(state).constants@ + field_literals(fields@));
                assert(state.functions@.dom() =~= old(state).functions@.dom().union(field_registered(fields@, false)));
                assert(state.extern_functions@.dom() =~= old(state).extern_functions@.dom().union(field_registered(fields@, true)));
            }
            return dst;
        }
        let ghost s1 = *self;
        let ghost b1 = *block;
        let ghost st1 = *state;
        let ghost fs = fields@;
        let n = fields.len();
        let mut variables: Vec<Variable> = Vec::new();
        let mut k: usize = 0;
        proof {
            assert(fs.subrange(0, n as int) =~= fs);
        }
        while k < n
            invariant
                n == fs.len(),
                fs == fields@,
                k <= n,
                ready(*self, *block, *state, scope, fns, exts),
                fields_ok(fs.subrange(k as int, n as int), scope, fns, exts),
                state.constants@ + field_literals(fs.subrange(k as int, n as int)) == st1.constants@ + field_literals(fs),
                state.functions@.dom().union(field_registered(fs.subrange(k as int, n as int), false)) == st1.functions@.dom().union(
                    field_registered(fs, false),
                ),
                state.extern_functions@.dom().union(field_registered(fs.subrange(k as int, n as int), true)) == st1.extern_functions@.dom().union(
                    field_registered(fs, true),
                ),
                grown(s1, *self, st1, *state),
                covers(b1, self.function.blocks@, *block),
                forall|id: BlockIndex| has_block(self.function.blocks@, id) ==> has_block(s1.function.blocks@, id) || id == b1.block_index
                    || id.0 >= s1.block_counter,
                block.block_index == b1.block_index || block.block_index.0 >= s1.block_counter,
                accounted(s1.block_counter, self.block_counter, self.function.blocks@, *block),
                fields_closed(fs) ==> fields_closed(fs.subrange(k as int, n as int)) && jumps_kept(s1, *self),
                self.function.variable_counter + 8 * field_sizes(fs.subrange(k as int, n as int)) <= s1.function.variable_counter + 8 * field_sizes(fs),
                self.block_counter + 8 * field_sizes(fs.subrange(k as int, n as int)) <= s1.block_counter + 8 * field_sizes(fs),
                state.function_counter + field_steps(fs.subrange(k as int, n as int)) <= st1.function_counter + field_steps(fs),
                state.extern_counter + field_steps(fs.subrange(k as int, n as int)) <= st1.extern_counter + field_steps(fs),
                room(s1, st1, 8 * field_sizes(fs), field_steps(fs), field_literals(fs).len()),
                self.variable_lookup@ == s1.variable_lookup@,
                variables@.len() == k,
                forall|j: int| 0 <= j < k ==> (#[trigger] variables@[j]).0 < self.function.stack_size,
                dst.0 < self.function.stack_size,
                dst.0 == s0.function.variable_counter,
                s1.function.variable_counter == s0.function.variable_counter + 1,
                s1.variable_lookup@ == s0.variable_lookup@,
                st1.constants@ == old(state).constants@,
                b1 == *old(block),
                all_straight(field_values(fs)) ==> ({
                    let (ia, va, na) = emitted_list(field_values(fs), s0.variable_lookup@, s1.function.variable_counter as nat,
                        st1.constants@.len());
                    let (ir, vr, nr) = emitted_list(field_values(fs.subrange(k as int, n as int)), s0.variable_lookup@,
                        self.function.variable_counter as nat, state.constants@.len());
                    &&& block.instructions@ + ir == b1.instructions@ + ia
                    &&& variables@.map_values(|v: Variable| v.0 as nat) + vr == va
                }),
            decreases n - k,
        {
            let ghost sub = fs.subrange(k as int, n as int);
            let ghost next = fs.subrange(k as int + 1, n as int);
            proof {
                assert(sub[0] == fs[k as int]);
                assert(sub.subrange(1, sub.len() as int) =~= next);
                lemma_field_size(fs, k as int);
                lemma_operand_item(fs[k as int].1, scope, fns, exts);
                assert(field_sizes(sub) == size(fs[k as int].1) + field_sizes(next));
                assert(field_literals(sub) == literals(fs[k as int].1) + field_literals(next));
                assert(field_steps(sub) == steps(fs[k as int].1) + field_steps(next));
                assert((state.constants@ + field_literals(sub)).len() == state.constants@.len() + field_literals(sub).len());
                assert((st1.constants@ + field_literals(fs)).len() == st1.constants@.len() + field_literals(fs).len());
            }
            let ghost sk = *self;
            let ghost bk = *block;
            let ghost stk = *state;
            let ghost vbefore = variables@;
            let argument_reg = self.convert(state, block, &fields[k].1, Ghost(scope), Ghost(fns), Ghost(exts));
            variables.push(argument_reg);
            k = k + 1;
            proof {
                if all_straight(field_values(fs)) {
                    let vs_sub = field_values(sub);
                    assert(vs_sub[0] == fs[k - 1].1);
                    assert(field_values(fs)[k - 1] == fs[k - 1].1);
                    assert(straight(fs[k - 1].1));
                    assert(vs_sub.subrange(1, vs_sub.len() as int) =~= field_values(next));
                    let (i0, v0, n0) = emitted(fs[k - 1].1, sk.variable_lookup@, sk.function.variable_counter as nat, stk.constants@.len());
                    assert(stk.constants@.len() + literals(fs[k - 1].1).len() == state.constants@.len());
                    assert(variables@.map_values(|v: Variable| v.0 as nat) =~= vbefore.map_values(|v: Variable| v.0 as nat).push(v0));
                    assert(block.instructions@ == bk.instructions@ + i0);
                }
            }
            proof {
                assert(state.constants@ + field_literals(next) =~= st1.constants@ + field_literals(fs));
                assert(state.functions@.dom().union(field_registered(next, false)) =~= st1.functions@.dom().union(field_registered(fs, false)));
                assert(state.extern_functions@.dom().union(field_registered(next, true)) =~= st1.extern_functions@.dom().union(field_registered(fs, true)));
                assert forall|j: int| 0 <= j < k implies (#[trigger] variables@[j]).0 < self.function.stack_size by {
                    if j < k - 1 {
                        assert(variables@[j].0 < sk.function.stack_size);
                    }
                }
            }
        }
        proof {
            assert(fs.subrange(n as int, n as int) =~= Seq::<(SymbolIndex, Instruction)>::empty());
            assert(state.constants@ =~= st1.constants@ + field_literals(fs));
            assert(state.functions@.dom() =~= st1.functions@.dom().union(field_registered(fs, false)));
            assert(state.extern_functions@.dom() =~= st1.extern_functions@.dom().union(field_registered(fs, true)));
            assert(old(state).functions@.dom() =~= st1.functions@.dom());
            assert(old(state).constants@ =~= st1.constants@);
        }
        let ghost b2 = *block;
        let ghost c2 = state.constants@.len();
        let ghost vfinal = variables@;
        let ir = IR::Struct { dst, fields: variables };
        block.ir(ir);
        proof {
            lemma_ir_pushed(b2, *block, ir, self.function.stack_size, c2);
            if all_straight(field_values(fs)) {
                let (ia, va, na) = emitted_list(field_values(fs), s0.variable_lookup@, s1.function.variable_counter as nat, st1.constants@.len());
                assert(field_values(fs.subrange(n as int, n as int)) =~= Seq::<Instruction>::empty());
                assert(b2.instructions@ =~= b1.instructions@ + ia);
                assert(vfinal.map_values(|v: Variable| v.0 as nat) =~= va);
                assert(block.instructions@.subrange(0, (b1.instructions@.len() + ia.len()) as int) =~= b2.instructions@);
            }
        }
        dst
    }

    /// A block as an expression: lowered on its own, entered from the block
    /// being filled, and left for a fresh block that continues.
    fn block_expression(
        &mut self,
        state: &mut ConversionState,
        block: &mut Block,
        items: &[Instruction],
        Ghost(scope): Ghost<Set<SymbolIndex>>,
        Ghost(fns): Ghost<Set<usize>>,
        Ghost(exts): Ghost<Set<usize>>,
    ) -> (r: Variable)
        requires
            ready(*old(self), *old(block), *old(state), scope, fns, exts),
            block_ok(items@, scope, fns, exts),
            room(*old(self), *old(state), 8 * sizes(items@) + 4, block_steps(items@), block_literals(items@).len()),
        ensures
            walk_closed(items@) ==> jumps_kept(*old(self), *final(self)),
            final(state).functions@.dom() == old(state).functions@.dom().union(block_registered(items@, false)),
            final(state).extern_functions@.dom() == old(state).extern_functions@.dom().union(block_registered(items@, true)),
            lowered(*old(self), *final(self), *old(block), *final(block), *old(state), *final(state), block_literals(items@), 8 * sizes(items@) + 4, block_steps(items@)),
            final(self).variable_lookup@ == old(self).variable_lookup@,
            r.0 < final(self).function.stack_size,
        decreases sizes(items@), 4nat,
    {
        let ghost c0 = state.constants@.len();
        let body = self.convert_block(state, items, Ghost(scope), Ghost(fns), Ghost(exts));
        let ghost c1 = state.constants@.len();
        proof {
            lemma_cur_grows(*old(self), *self, *block, c0, c1);
        }
        let ghost s1 = *self;
        let cidx = self.block();
        proof {
            lemma_block_inv(s1, *self, c1);
            lemma_cur_grows(s1, *self, *block, c1, c1);
        }
        let ghost s2 = *self;
        self.set_ending(body.1, BlockTerminator::Goto(cidx));
        proof {
            lemma_set_ending_inv(s2, *self, c1, BlockTerminator::Goto(cidx));
        }
        self.split(block, BlockTerminator::Goto(body.0), cidx, Ghost(c1));
        body.2
    }

    /// Lowers a block into fresh blocks of its own: gives where it starts,
    /// the block it ends in, and the register that holds its value. The
    /// variables it declares go out of scope at its end.
    fn convert_block(
        &mut self,
        state: &mut ConversionState,
        items: &[Instruction],
        Ghost(scope): Ghost<Set<SymbolIndex>>,
        Ghost(fns): Ghost<Set<usize>>,
        Ghost(exts): Ghost<Set<usize>>,
    ) -> (r: (BlockIndex, BlockIndex, Variable))
        requires
            old(self).inv(old(state).constants@.len()),
            known(scope, fns, exts, *old(self), *old(state)),
            block_ok(items@, scope, fns, exts),
            room(*old(self), *old(state), 8 * sizes(items@) + 2, block_steps(items@), block_literals(items@).len()),
        ensures
            walk_closed(items@) ==> jumps_kept(*old(self), *final(self)),
            final(state).functions@.dom() == old(state).functions@.dom().union(block_registered(items@, false)),
            final(state).extern_functions@.dom() == old(state).extern_functions@.dom().union(block_registered(items@, true)),
            final(self).inv(final(state).constants@.len()),
            final(state).constants@ == old(state).constants@ + block_literals(items@),
            grown(*old(self), *final(self), *old(state), *final(state)),
            budget_ok(*old(self), *final(self), *old(state), *final(state), 8 * sizes(items@) + 2, block_steps(items@)),
            final(self).variable_lookup@ == old(self).variable_lookup@,
            has_block(final(self).function.blocks@, r.0),
            has_block(final(self).function.blocks@, r.1),
            r.2.0 < final(self).function.stack_size,
            final(self).function.variable_counter == old(self).function.variable_counter + 1,
            forall|id: BlockIndex| has_block(final(self).function.blocks@, id) ==> has_block(old(self).function.blocks@, id) || id.0
                >= old(self).block_counter,
            old(self).block_counter <= r.0.0 < final(self).block_counter,
            old(self).block_counter <= r.1.0,
            r.0 == BlockIndex(old(self).block_counter),
            r.2 == Variable(old(self).function.variable_counter),
            r.1.0 < final(self).block_counter,
            forall|t: u32| old(self).block_counter <= t < final(self).block_counter ==> has_block(final(self).function.blocks@, BlockIndex(t)),
            all_straight(items@) ==> ({
                let bs = final(self).function.blocks@;
                &&& r.1 == r.0
                &&& bs.len() == old(self).function.blocks@.len() + 1
                &&& bs.take(old(self).function.blocks@.len() as int) == old(self).function.blocks@
                &&& bs.last().block_index == r.0
                &&& bs.last().instructions@ == block_code(items@, old(self).variable_lookup@, old(self).function.variable_counter as nat,
                    old(state).constants@.len())
                &&& bs.last().ending == BlockTerminator::Return
            }),
        decreases sizes(items@), 3nat,
    {
        let ghost c0 = state.constants@.len();
        let ghost s0 = *self;
        let start_index = self.block();
        proof {
            lemma_block_inv(s0, *self, c0);
        }
        let mut block = Block { block_index: start_index, instructions: Vec::new(), ending: BlockTerminator::Return };
        let ghost s1 = *self;
        let return_val = self.variable();
        proof {
            lemma_variable_inv(s1, *self, c0);
        }
        let lookup_len = self.variable_lookup.len();
        let var_count = self.function.variable_counter;
        let mut final_value = return_val;
        let ghost s2 = *self;
        let ghost b2 = block;
        let returned = self.evaluate(state, &mut block, items, &mut final_value, Ghost(scope), Ghost(fns), Ghost(exts));
        let ghost c3 = state.constants@.len();
        let ghost b3 = block;
        let copy = if returned {
            IR::Copy { src: final_value, dst: Variable(0) }
        } else {
            IR::Copy { src: final_value, dst: return_val }
        };
        block.ir(copy);
        proof {
            lemma_ir_pushed(b3, block, copy, self.function.stack_size, c3);
        }
        let index = block.block_index;
        let ghost s3 = *self;
        let ghost emitted = block;
        self.function.blocks.push(block);
        proof {
            lemma_emit_inv(s3, *self, emitted, c3);
            if all_straight(items@) {
                assert(self.function.blocks@ =~= s0.function.blocks@.push(emitted));
                assert(self.function.blocks@.take(s0.function.blocks@.len() as int) =~= s0.function.blocks@);
                assert(emitted.instructions@ =~= block_code(items@, old(self).variable_lookup@, old(self).function.variable_counter as nat,
                    old(state).constants@.len()));
            }
        }
        let ghost s4 = *self;
        self.function.variable_counter = var_count;
        self.variable_lookup.truncate(lookup_len);
        proof {
            assert(self.variable_lookup@ =~= old(self).variable_lookup@);
            assert(self.inv(c3)) by {
                assert forall|k: int| 0 <= k < self.variable_lookup@.len() implies (#[trigger] self.variable_lookup@[k]).1.0
                    < self.function.stack_size by {
                    assert(self.variable_lookup@[k] == s4.variable_lookup@[k]);
                }
            }
        }
        (start_index, index, return_val)
    }

    /// Lowers the instructions of a block in turn into `block`, after
    /// registering what they declare; stops at the first `return`, and then
    /// says so.
    fn evaluate(
        &mut self,
        state: &mut ConversionState,
        block: &mut Block,
        items: &[Instruction],
        final_value: &mut Variable,
        Ghost(scope): Ghost<Set<SymbolIndex>>,
        Ghost(fns): Ghost<Set<usize>>,
        Ghost(exts): Ghost<Set<usize>>,
    ) -> (r: bool)
        requires
            ready(*old(self), *old(block), *old(state), scope, fns, exts),
            block_ok(items@, scope, fns, exts),
            room(*old(self), *old(state), 8 * sizes(items@), block_steps(items@), block_literals(items@).len()),
            old(final_value).0 < old(self).function.stack_size,
        ensures
            walk_closed(items@) ==> jumps_kept(*old(self), *final(self)),
            final(state).functions@.dom() == old(state).functions@.dom().union(block_registered(items@, false)),
            final(state).extern_functions@.dom() == old(state).extern_functions@.dom().union(block_registered(items@, true)),
            final(self).inv_returning(*final(block), final(state).constants@.len()),
            final(self).cur_ok(*final(block), final(state).constants@.len()),
            final(state).constants@ == old(state).constants@ + block_literals(items@),
            grown(*old(self), *final(self), *old(state), *final(state)),
            budget_ok(*old(self), *final(self), *old(state), *final(state), 8 * sizes(items@), block_steps(items@)),
            covers(*old(block), final(self).function.blocks@, *final(block)),
            forall|id: BlockIndex| has_block(final(self).function.blocks@, id) ==> has_block(old(self).function.blocks@, id) || id
                == old(block).block_index || id.0 >= old(self).block_counter,
            final(block).block_index == old(block).block_index || final(block).block_index.0 >= old(self).block_counter,
            accounted(old(self).block_counter, final(self).block_counter, final(self).function.blocks@, *final(block)),
            prefix_of(old(self).variable_lookup@, final(self).variable_lookup@),
            final(final_value).0 < final(self).function.stack_size,
            all_straight(items@) ==> ({
                let (ia, va, na) = emitted_list(items@, old(self).variable_lookup@, old(self).function.variable_counter as nat,
                    old(state).constants@.len());
                &&& final(block).instructions@ == old(block).instructions@ + ia
                &&& final(self).function.blocks == old(self).function.blocks
                &&& final(self).block_counter == old(self).block_counter
                &&& final(block).block_index == old(block).block_index
                &&& final(block).ending == old(block).ending
                &&& final(self).variable_lookup@ == old(self).variable_lookup@
                &&& !r
                &&& *final(final_value) == if items@.len() == 0 { *old(final_value) } else { Variable(va.last() as u32) }
            }),
        decreases sizes(items@), 2nat,
    {
        let ghost st0 = *state;
        state.declaration_process(items);
        let ghost fns2 = fns.union(declared_functions(items@));
        let ghost exts2 = exts.union(declared_externs(items@));
        let ghost mut sc = scope;
        let ghost all = items@;
        let n = items.len();
        let mut k: usize = 0;
        let ghost mut regs: Seq<nat> = Seq::empty();
        proof {
            assert(all.subrange(0, n as int) =~= all);
            assert(regs + emitted_list(all, old(self).variable_lookup@, old(self).function.variable_counter as nat, old(state).constants@.len()).1
                =~= emitted_list(all, old(self).variable_lookup@, old(self).function.variable_counter as nat, old(state).constants@.len()).1);
            assert(block.instructions@ + emitted_list(all, old(self).variable_lookup@, old(self).function.variable_counter as nat, old(state).constants@.len()).0
                == old(block).instructions@ + emitted_list(all, old(self).variable_lookup@, old(self).function.variable_counter as nat, old(state).constants@.len()).0);
            assert(state.functions@.dom().union(walk_registered(all, false)) =~= old(state).functions@.dom().union(block_registered(all, false)));
            assert(state.extern_functions@.dom().union(walk_registered(all, true)) =~= old(state).extern_functions@.dom().union(block_registered(all, true)));
            lemma_inv_consts(*old(self), old(state).constants@.len(), state.constants@.len());
            assert(old(self).variable_lookup@.subrange(0, old(self).variable_lookup@.len() as int) =~= old(self).variable_lookup@);
        }
        while k < n
            invariant
                n == all.len(),
                all == items@,
                k <= n,
                ready(*self, *block, *state, sc, fns2, exts2),
                items_ok(all.subrange(k as int, n as int), sc, fns2, exts2),
                state.constants@ + block_literals(all.subrange(k as int, n as int)) == old(state).constants@ + block_literals(all),
                state.functions@.dom().union(walk_registered(all.subrange(k as int, n as int), false)) == old(state).functions@.dom().union(
                    block_registered(all, false),
                ),
                state.extern_functions@.dom().union(walk_registered(all.subrange(k as int, n as int), true)) == old(state).extern_functions@.dom().union(
                    block_registered(all, true),
                ),
                grown(*old(self), *self, *old(state), *state),
                covers(*old(block), self.function.blocks@, *block),
                forall|id: BlockIndex| has_block(self.function.blocks@, id) ==> has_block(old(self).function.blocks@, id) || id
                    == old(block).block_index || id.0 >= old(self).block_counter,
                block.block_index == old(block).block_index || block.block_index.0 >= old(self).block_counter,
                accounted(old(self).block_counter, self.block_counter, self.function.blocks@, *block),
                walk_closed(all) ==> walk_closed(all.subrange(k as int, n as int)) && jumps_kept(*old(self), *self),
                self.function.variable_counter + 8 * sizes(all.subrange(k as int, n as int)) <= old(self).function.variable_counter
                    + 8 * sizes(all),
                self.block_counter + 8 * sizes(all.subrange(k as int, n as int)) <= old(self).block_counter + 8 * sizes(all),
                state.function_counter + walk_steps(all.subrange(k as int, n as int)) <= old(state).function_counter
                    + block_steps(all),
                state.extern_counter + walk_steps(all.subrange(k as int, n as int)) <= old(state).extern_counter
                    + block_steps(all),
                room(*old(self), *old(state), 8 * sizes(all), block_steps(all), block_literals(all).len()),
                prefix_of(old(self).variable_lookup@, self.variable_lookup@),
                final_value.0 < self.function.stack_size,
                st0 == *old(state),
                all_straight(all) ==> ({
                    let (ia, va, na) = emitted_list(all, old(self).variable_lookup@, old(self).function.variable_counter as nat,
                        old(state).constants@.len());
                    let (ir, vr, nr) = emitted_list(all.subrange(k as int, n as int), old(self).variable_lookup@,
                        self.function.variable_counter as nat, state.constants@.len());
                    &&& block.instructions@ + ir == old(block).instructions@ + ia
                    &&& nr == na
                    &&& regs + vr == va
                    &&& regs.len() == k
                    &&& self.function.blocks == old(self).function.blocks
                    &&& self.block_counter == old(self).block_counter
                    &&& block.block_index == old(block).block_index
                    &&& block.ending == old(block).ending
                    &&& self.variable_lookup@ == old(self).variable_lookup@
                    &&& *final_value == if k == 0 { *old(final_value) } else { Variable(regs.last() as u32) }
                }),
            decreases n - k,
        {
            let ghost sub = all.subrange(k as int, n as int);
            let ghost next = all.subrange(k as int + 1, n as int);
            proof {
                assert(sub[0] == all[k as int]);
                assert(sub.subrange(1, sub.len() as int) =~= next);
                lemma_size_in_sizes(all, k as int);
                assert(sizes(sub) == size(all[k as int]) + sizes(next));
                assert((state.constants@ + block_literals(sub)).len() == state.constants@.len() + block_literals(sub).len());
                assert((old(state).constants@ + block_literals(all)).len() == old(state).constants@.len() + block_literals(all).len());
            }
            let instruction = &items[k];
            match &instruction.instruction_kind {
                InstructionKind::Statement(Statement::Return(e)) => {
                    proof {
                        lemma_operand_item(**e, sc, fns2, exts2);
                    }
                    let val = self.convert(state, block, e, Ghost(sc), Ghost(fns2), Ghost(exts2));
                    proof {
                        assert(state.functions@.dom() =~= old(state).functions@.dom().union(block_registered(all, false)));
                        assert(state.extern_functions@.dom() =~= old(state).extern_functions@.dom().union(block_registered(all, true)));
                    }
                    *final_value = val;
                    self.explicit_ret.push(block.block_index);
                    return true;
                },
                _ => {},
            }
            let statement = match &instruction.instruction_kind {
                InstructionKind::Expression(_) => false,
                _ => true,
            };
            let ghost sk = *self;
            let ghost bk = *block;
            let ghost stk = *state;
            let variable = self.convert(state, block, instruction, Ghost(sc), Ghost(fns2), Ghost(exts2));
            if !statement {
                *final_value = variable;
            }
            proof {
                if all_straight(all) {
                    assert(straight(all[k as int]));
                    let (i0, v0, n0) = emitted(all[k as int], sk.variable_lookup@, sk.function.variable_counter as nat, stk.constants@.len());
                    let (is, vs, n1) = emitted_list(next, old(self).variable_lookup@, n0, stk.constants@.len() + literals(all[k as int]).len());
                    assert(emitted_list(sub, old(self).variable_lookup@, sk.function.variable_counter as nat, stk.constants@.len())
                        == (i0 + is, seq![v0] + vs, n1));
                    assert(state.constants@.len() == stk.constants@.len() + literals(all[k as int]).len());
                    assert(block.instructions@ == bk.instructions@ + i0);
                    assert(block.instructions@ + is =~= bk.instructions@ + (i0 + is));
                    assert(regs.push(v0) + vs =~= regs + (seq![v0] + vs));
                    assert(variable == Variable(v0 as u32));
                    regs = regs.push(v0);
                }
                lemma_names_step(sk.variable_lookup@, self.variable_lookup@, declared_variable(all[k as int]));
                lemma_prefix_trans(old(self).variable_lookup@, sk.variable_lookup@, self.variable_lookup@);
                sc = with_variable(sc, all[k as int]);
                assert(state.constants@ + block_literals(next) =~= old(state).constants@ + block_literals(all));
                assert(state.functions@.dom().union(walk_registered(next, false)) =~= old(state).functions@.dom().union(block_registered(all, false)));
                assert(state.extern_functions@.dom().union(walk_registered(next, true)) =~= old(state).extern_functions@.dom().union(block_registered(all, true)));
            }
            k = k + 1;
        }
        proof {
            assert(all.subrange(n as int, n as int) =~= Seq::<Instruction>::empty());
            if all_straight(all) {
                let (ia, va, na) = emitted_list(all, old(self).variable_lookup@, old(self).function.variable_counter as nat,
                    old(state).constants@.len());
                assert(block.instructions@ =~= old(block).instructions@ + ia);
                assert(regs =~= va);
            }
            assert(state.constants@ =~= old(state).constants@ + block_literals(all));
            assert(state.functions@.dom() =~= old(state).functions@.dom().union(block_registered(all, false)));
            assert(state.extern_functions@.dom() =~= old(state).extern_functions@.dom().union(block_registered(all, true)));
        }
        false
    }

    /// Lowers the body of a function into its blocks, the first of them its
    /// entry, and leaves its value in `return_val`.
    fn generate_and_write_to(
        &mut self,
        state: &mut ConversionState,
        items: &[Instruction],
        return_val: Variable,
        Ghost(scope): Ghost<Set<SymbolIndex>>,
        Ghost(fns): Ghost<Set<usize>>,
        Ghost(exts): Ghost<Set<usize>>,
    )
        requires
            old(self).inv(old(state).constants@.len()),
            old(self).function.blocks@.len() == 0,
            old(self).breaks@.len() == 0,
            old(self).continues@.len() == 0,
            old(self).explicit_ret@.len() == 0,
            known(scope, fns, exts, *old(self), *old(state)),
            block_ok(items@, scope, fns, exts),
            room(*old(self), *old(state), 8 * sizes(items@) + 1, block_steps(items@), block_literals(items@).len()),
            return_val.0 < old(self).function.stack_size,
        ensures
            final(state).functions@.dom() == old(state).functions@.dom().union(block_registered(items@, false)),
            final(state).extern_functions@.dom() == old(state).extern_functions@.dom().union(block_registered(items@, true)),
            final(self).inv(final(state).constants@.len()),
            final(state).constants@ == old(state).constants@ + block_literals(items@),
            old(state).functions@.dom().subset_of(final(state).functions@.dom()),
            old(state).extern_functions@.dom().subset_of(final(state).extern_functions@.dom()),
            old(state).function_counter <= final(state).function_counter,
            old(state).extern_counter <= final(state).extern_counter,
            final(state).symbol_table == old(state).symbol_table,
            counted(*old(state), *final(state)),
            budget_ok(*old(self), *final(self), *old(state), *final(state), 8 * sizes(items@) + 1, block_steps(items@)),
            has_block(final(self).function.blocks@, final(self).function.entry),
        decreases sizes(items@), 3nat,
    {
        let ghost c0 = state.constants@.len();
        self.function.blocks.clear();
        let ghost s0 = *self;
        let start_index = self.block();
        proof {
            lemma_block_inv(s0, *self, c0);
        }
        self.function.entry = start_index;
        let mut block = Block { block_index: start_index, instructions: Vec::new(), ending: BlockTerminator::Return };
        let mut final_value = return_val;
        let returned = self.evaluate(state, &mut block, items, &mut final_value, Ghost(scope), Ghost(fns), Ghost(exts));
        let ghost c1 = state.constants@.len();
        let ghost b1 = block;
        let copy = if returned {
            IR::Copy { src: final_value, dst: Variable(0) }
        } else {
            IR::Copy { src: final_value, dst: return_val }
        };
        block.ir(copy);
        proof {
            lemma_ir_pushed(b1, block, copy, self.function.stack_size, c1);
        }
        let ghost s1 = *self;
        let ghost emitted = block;
        self.function.blocks.push(block);
        proof {
            lemma_emit_inv(s1, *self, emitted, c1);
        }
    }

    fn declaration(
        &mut self,
        state: &mut ConversionState,
        block: &mut Block,
        instruction: &Instruction,
        Ghost(scope): Ghost<Set<SymbolIndex>>,
        Ghost(fns): Ghost<Set<usize>>,
        Ghost(exts): Ghost<Set<usize>>,
    )
        requires
            instruction.instruction_kind is Declaration,
            ready(*old(self), *old(block), *old(state), scope, fns, exts),
            item_ok(*instruction, scope, fns, exts),
            room(*old(self), *old(state), 8 * size(*instruction), steps(*instruction), literals(*instruction).len()),
        ensures
            jumps_closed(*instruction) ==> jumps_kept(*old(self), *final(self)),
            final(state).functions@.dom() == old(state).functions@.dom().union(registered(*instruction, false)),
            final(state).extern_functions@.dom() == old(state).extern_functions@.dom().union(registered(*instruction, true)),
            lowered(*old(self), *final(self), *old(block), *final(block), *old(state), *final(state), literals(*instruction), 8 * size(*instruction), steps(*instruction)),
            final(self).variable_lookup@ == old(self).variable_lookup@,
        decreases size(*instruction), 0nat,
    {
        let ghost c0 = state.constants@.len();
        match &instruction.instruction_kind {
            InstructionKind::Declaration(d) => match d {
                Declaration::FunctionDeclaration { arguments, body, name, generics, .. } => {
                    if generics.len() != 0 {
                        proof {
                            assert(state.constants@ =~= old(state).constants@ + literals(*instruction));
                        }
                        return;
                    }
                    let function_index = state.find_function(*name).function_index;
                    let n = arguments.len();
                    let mut function = Lowering {
                        function: Function::new(*name, function_index, n),
                        variable_lookup: Vec::new(),
                        block_counter: 0,
                        breaks: Vec::new(),
                        continues: Vec::new(),
                        explicit_ret: Vec::new(),
                    };
                    let return_addrs = function.variable();
                    let ghost args = arguments@;
                    let mut k: usize = 0;
                    while k < n
                        invariant
                            n == args.len(),
                            args == arguments@,
                            k <= n,
                            function.inv(c0),
                            function.function.variable_counter == k + 1,
                            function.function.blocks@.len() == 0,
                            function.breaks@.len() == 0,
                            function.continues@.len() == 0,
                            function.explicit_ret@.len() == 0,
                            function.block_counter == 0,
                            function.variable_lookup@.len() == k,
                            forall|j: int| 0 <= j < k ==> (#[trigger] function.variable_lookup@[j]).0 == args[j].0,
                            return_addrs.0 < function.function.stack_size,
                            8 * size(*instruction) <= u32::MAX,
                            size(*instruction) >= n + 2,
                        decreases n - k,
                    {
                        let ghost f0 = function;
                        let var = function.variable();
                        proof {
                            lemma_variable_inv(f0, function, c0);
                        }
                        let ghost f1 = function;
                        function.variable_lookup.push((arguments[k].0, var));
                        k = k + 1;
                        proof {
                            assert forall|j: int| 0 <= j < k implies (#[trigger] function.variable_lookup@[j]).0 == args[j].0 by {
                                if j < k - 1 {
                                    assert(function.variable_lookup@[j] == f1.variable_lookup@[j]);
                                }
                            }
                            assert forall|j: int| 0 <= j < function.variable_lookup@.len() implies (
                            #[trigger] function.variable_lookup@[j]).1.0 < function.function.stack_size by {
                                if j < k - 1 {
                                    assert(function.variable_lookup@[j] == f1.variable_lookup@[j]);
                                }
                            }
                        }
                    }
                    proof {
                        assert forall|s: SymbolIndex| argument_names(args).contains(s) implies names(function.variable_lookup@).contains(s) by {
                            let i = choose|i: int| 0 <= i < args.len() && args[i].0 == s;
                            assert(function.variable_lookup@[i].0 == s);
                        }
                    }
                    function.generate_and_write_to(state, body.as_slice(), return_addrs, Ghost(argument_names(args)), Ghost(fns), Ghost(exts));
                    let ghost c1 = state.constants@.len();
                    let m = function.explicit_ret.len();
                    let mut j: usize = 0;
                    while j < m
                        invariant
                            m == function.explicit_ret@.len(),
                            j <= m,
                            function.inv(c1),
                        decreases m - j,
                    {
                        let target = function.explicit_ret[j];
                        let ghost f0 = function;
                        function.set_ending(target, BlockTerminator::Return);
                        proof {
                            lemma_set_ending_inv(f0, function, c1, BlockTerminator::Return);
                        }
                        j = j + 1;
                    }
                    let ghost mid = *state;
                    state.functions.insert(name.0, function.function);
                    proof {
                        assert(state.functions@.dom() =~= mid.functions@.dom());
                        lemma_inv_consts(*self, c0, c1);
                        lemma_cur_grows(*old(self), *self, *block, c0, c1);
                    }
                },
                Declaration::Namespace { body, .. } => {
                    self.convert_block(state, body.as_slice(), Ghost(scope), Ghost(fns), Ghost(exts));
                    proof {
                        lemma_cur_grows(*old(self), *self, *block, c0, state.constants@.len());
                    }
                },
                Declaration::ImplBlock { body, .. } => {
                    self.convert_block(state, body.as_slice(), Ghost(scope), Ghost(fns), Ghost(exts));
                    proof {
                        lemma_cur_grows(*old(self), *self, *block, c0, state.constants@.len());
                    }
                },
                Declaration::UseFile { file_name } => {
                    let ghost s0 = *self;
                    let dst = self.variable();
                    proof {
                        lemma_variable_inv(s0, *self, c0);
                        lemma_cur_grows(s0, *self, *block, c0, c0);
                    }
                    let id = state.find_function(*file_name).function_index;
                    let ghost b0 = *block;
                    let ir = IR::Call { dst, id, args: Vec::new() };
                    block.ir(ir);
                    proof {
                        lemma_ir_pushed(b0, *block, ir, self.function.stack_size, c0);
                        assert(state.constants@ =~= old(state).constants@ + literals(*instruction));
                    }
                },
                _ => {
                    proof {
                        assert(state.constants@ =~= old(state).constants@ + literals(*instruction));
                    }
                },
            },
            _ => {
                proof {
                    assert(false);
                }
            },
        }
    }
}

/// Lowers `items` as the body of `function`, which has no blocks yet,
/// with `fns` and `exts` among the known functions.
fn generate_with(
    function: &mut Function,
    state: &mut ConversionState,
    items: &[Instruction],
    Ghost(fns): Ghost<Set<usize>>,
    Ghost(exts): Ghost<Set<usize>>,
) -> (r: Variable)
    requires
        old(function).blocks@.len() == 0,
        old(function).variable_counter <= old(function).stack_size,
        fns.subset_of(old(state).functions@.dom()),
        exts.subset_of(old(state).extern_functions@.dom()),
        block_ok(items@, Set::empty(), fns, exts),
        old(function).variable_counter + 8 * sizes(items@) + 2 <= u32::MAX,
        8 * sizes(items@) + 2 <= u32::MAX,
        old(state).function_counter + block_steps(items@) <= u32::MAX,
        old(state).extern_counter + block_steps(items@) <= u32::MAX,
        old(state).constants@.len() + block_literals(items@).len() <= u32::MAX,
    ensures
        generated(*old(function), *final(function), *old(state), *final(state), items@),
        r.0 < final(function).stack_size,
        walk_closed(items@) && old(function).entry.0 == 0 ==> final(function).wf(),
        all_straight(items@) ==> straight_function(*old(function), *final(function), *old(state), items@, r),
{
    let mut taken = Function::new(SymbolIndex(0), FunctionIndex(0), 0);
    std::mem::swap(&mut taken, function);
    let mut lowering = Lowering {
        function: taken,
        variable_lookup: Vec::new(),
        block_counter: 0,
        breaks: Vec::new(),
        continues: Vec::new(),
        explicit_ret: Vec::new(),
    };
    proof {
        assert(names(lowering.variable_lookup@) =~= Set::<SymbolIndex>::empty());
    }
    let r = lowering.convert_block(state, items, Ghost(Set::empty()), Ghost(fns), Ghost(exts));
    proof {
        if walk_closed(items@) && old(function).entry.0 == 0 {
            let bs = lowering.function.blocks@;
            assert(lowering.breaks@.len() == 0);
            assert(lowering.continues@.len() == 0);
            assert forall|k: int| 0 <= k < bs.len() implies (#[trigger] bs[k]).ending != BlockTerminator::Goto(BlockIndex(u32::MAX)) by {
                assert(waiting(bs[k], lowering.breaks@ + lowering.continues@));
                assert((lowering.breaks@ + lowering.continues@).len() == 0);
            }
            lemma_wf(bs, lowering.block_counter, old(function).entry);
        }
    }
    proof {
        if all_straight(items@) {
            assert(lowering.function.blocks@ =~= lowering.function.blocks@.take(0).push(lowering.function.blocks@.last()));
        }
    }
    std::mem::swap(&mut lowering.function, function);
    r.2
}

/// A body of straight-line expressions lowers into one block, numbered 0,
/// that holds its code and returns, with its value in the register that
/// comes back.
pub open spec fn straight_function(of: Function, nf: Function, os: ConversionState, items: Seq<Instruction>, r: Variable) -> bool {
    &&& nf.blocks@.len() == 1
    &&& nf.blocks@[0].block_index == BlockIndex(0)
    &&& nf.blocks@[0].instructions@ == block_code(items, Seq::empty(), of.variable_counter as nat, os.constants@.len())
    &&& nf.blocks@[0].ending == BlockTerminator::Return
    &&& r == Variable(of.variable_counter)
}

/// What lowering a body into a function promises: the constants of the
/// body appended to the table, only functions added, every instruction of
/// every block within the function's frame and the table, and the
/// function's identity kept.
pub open spec fn generated(
    of: Function,
    nf: Function,
    os: ConversionState,
    ns: ConversionState,
    items: Seq<Instruction>,
) -> bool {
    &&& ns.constants@ == os.constants@ + block_literals(items)
    &&& ns.functions@.dom() == os.functions@.dom().union(block_registered(items, false))
    &&& ns.extern_functions@.dom() == os.extern_functions@.dom().union(block_registered(items, true))
    &&& counted(os, ns)
    &&& ns.function_counter <= os.function_counter + block_steps(items)
    &&& ns.extern_counter <= os.extern_counter + block_steps(items)
    &&& ns.symbol_table == os.symbol_table
    &&& forall|k: int| 0 <= k < nf.blocks@.len() ==> block_within(#[trigger] nf.blocks@[k], nf.stack_size, ns.constants@.len())
    &&& nf.variable_counter == of.variable_counter + 1
    &&& nf.variable_counter <= nf.stack_size
    &&& nf.identifier == of.identifier
    &&& nf.function_index == of.function_index
    &&& nf.argument_count == of.argument_count
    &&& nf.entry == of.entry
}

impl Function {
    /// Lowers the instructions of a block, with no variable in scope, into
    /// fresh blocks of this function, which has none yet; gives the register
    /// that holds the block's value. The conditions are those under which
    /// lowering cannot fail (see the module's documentation), with the
    /// functions registered so far known, and room in the counters.
    pub fn generate(&mut self, state: &mut ConversionState, instructions: Vec<Instruction>) -> (r: Variable)
        requires
            old(self).blocks@.len() == 0,
            old(self).variable_counter <= old(self).stack_size,
            block_ok(instructions@, Set::empty(), old(state).functions@.dom(), old(state).extern_functions@.dom()),
            old(self).variable_counter + 8 * sizes(instructions@) + 2 <= u32::MAX,
            old(state).function_counter + block_steps(instructions@) <= u32::MAX,
            old(state).extern_counter + block_steps(instructions@) <= u32::MAX,
            old(state).constants@.len() + block_literals(instructions@).len() <= u32::MAX,
        ensures
            generated(*old(self), *final(self), *old(state), *final(state), instructions@),
            r.0 < final(self).stack_size,
            walk_closed(instructions@) && old(self).entry.0 == 0 ==> final(self).wf(),
            all_straight(instructions@) ==> straight_function(*old(self), *final(self), *old(state), instructions@, r),
    {
        generate_with(
            self,
            state,
            instructions.as_slice(),
            Ghost(state.functions@.dom()),
            Ghost(state.extern_functions@.dom()),
        )
    }
}

/// The blocks in order of their index.
pub open spec fn sorted_by_index(bs: Seq<Block>) -> bool {
    forall|a: int, b: int| 0 <= a < b < bs.len() ==> (#[trigger] bs[a]).block_index.0 <= (#[trigger] bs[b]).block_index.0
}

/// Sorts blocks by their index, keeping the blocks themselves.
fn sort_blocks(blocks: &mut Vec<Block>)
    ensures
        final(blocks)@.to_multiset() == old(blocks)@.to_multiset(),
        sorted_by_index(final(blocks)@),
        final(blocks)@.len() == old(blocks)@.len(),
{
    broadcast use vstd::seq_lib::group_to_multiset_ensures, vstd::multiset::group_multiset_axioms;

    let mut rest: Vec<Block> = Vec::new();
    std::mem::swap(&mut rest, blocks);
    while rest.len() > 0
        invariant
            blocks@.to_multiset().add(rest@.to_multiset()) == old(blocks)@.to_multiset(),
            blocks@.len() + rest@.len() == old(blocks)@.len(),
            sorted_by_index(blocks@),
            forall|a: int, b: int| 0 <= a < blocks@.len() && 0 <= b < rest@.len() ==> (#[trigger] blocks@[a]).block_index.0
                <= (#[trigger] rest@[b]).block_index.0,
        decreases rest@.len(),
    {
        let n = rest.len();
        let mut m: usize = 0;
        let mut k: usize = 1;
        while k < n
            invariant
                n == rest@.len(),
                m < k <= n,
                forall|j: int| 0 <= j < k ==> rest@[m as int].block_index.0 <= (#[trigger] rest@[j]).block_index.0,
            decreases n - k,
        {
            if rest[k].block_index.0 < rest[m].block_index.0 {
                m = k;
            }
            k = k + 1;
        }
        let ghost r0 = rest@;
        let ghost b0 = blocks@;
        let x = rest.remove(m);
        blocks.push(x);
        proof {
            vstd::seq_lib::to_multiset_remove(r0, m as int);
            vstd::seq_lib::to_multiset_build(b0, x);
            assert(r0.remove(m as int).to_multiset() == r0.to_multiset().remove(r0[m as int]));
            assert(b0.push(x).to_multiset() == b0.to_multiset().insert(x));
            vstd::seq_lib::to_multiset_contains(r0, x);
            assert(r0.contains(x)) by {
                assert(r0[m as int] == x);
            }
            assert(r0.to_multiset().contains(x));
            assert(blocks@.to_multiset().add(rest@.to_multiset()) =~= old(blocks)@.to_multiset());
            assert forall|a: int, b: int| 0 <= a < b < blocks@.len() implies (#[trigger] blocks@[a]).block_index.0
                <= (#[trigger] blocks@[b]).block_index.0 by {
                if b == blocks@.len() - 1 {
                    assert(b0[a].block_index.0 <= r0[m as int].block_index.0);
                } else {
                    assert(blocks@[a] == b0[a]);
                    assert(blocks@[b] == b0[b]);
                }
            }
            assert forall|a: int, b: int| 0 <= a < blocks@.len() && 0 <= b < rest@.len() implies (#[trigger] blocks@[a]).block_index.0
                <= (#[trigger] rest@[b]).block_index.0 by {
                let j = if b < m { b } else { b + 1 };
                assert(rest@[b] == r0[j]);
                if a == blocks@.len() - 1 {
                    assert(blocks@[a] == x);
                } else {
                    assert(blocks@[a] == b0[a]);
                }
            }
        }
    }
}

/// `f` is `g` with its blocks reordered.
pub open spec fn reordered(g: Function, f: Function) -> bool {
    &&& f.blocks@.to_multiset() == g.blocks@.to_multiset()
    &&& sorted_by_index(f.blocks@)
    &&& f.identifier == g.identifier
    &&& f.function_index == g.function_index
    &&& f.argument_count == g.argument_count
    &&& f.variable_counter == g.variable_counter
    &&& f.stack_size == g.stack_size
    &&& f.entry == g.entry
}

impl ConversionState {
    /// Sorts the blocks of every function by their index.
    pub fn sort(&mut self)
        ensures
            final(self).functions@.dom() == old(self).functions@.dom(),
            forall|k: usize| #[trigger] old(self).functions@.contains_key(k) ==> reordered(old(self).functions@[k], final(self).functions@[k]),
            final(self).constants == old(self).constants,
            final(self).extern_functions == old(self).extern_functions,
            final(self).function_counter == old(self).function_counter,
            final(self).extern_counter == old(self).extern_counter,
            final(self).symbol_table == old(self).symbol_table,
    {
        let mut keys: Vec<usize> = Vec::new();
        for k in it: self.functions.keys()
            invariant
                keys@ == it.seq().take(it.index() as int).map_values(|x: &usize| *x),
                it.seq() == vstd::std_specs::btree::spec_keys_iter(&self.functions).remaining(),
            ensures
                keys@ == vstd::std_specs::btree::spec_keys_iter(&self.functions).remaining().map_values(|x: &usize| *x),
        {
            keys.push(*k);
        }
        proof {
            let rem = vstd::std_specs::btree::spec_keys_iter(&self.functions).remaining();
            assert(rem.unref().to_set() == self.functions@.dom());
            assert(keys@ =~= rem.unref());
            assert(keys@.to_set() =~= self.functions@.dom());
        }
        let n = keys.len();
        let mut i: usize = 0;
        while i < n
            invariant
                n == keys@.len(),
                i <= n,
                keys@.to_set() == old(self).functions@.dom(),
                self.functions@.dom() == old(self).functions@.dom(),
                forall|k: usize| #[trigger] self.functions@.contains_key(k) ==> (reordered(old(self).functions@[k], self.functions@[k])
                    || self.functions@[k] == old(self).functions@[k]),
                forall|j: int| 0 <= j < i ==> reordered(old(self).functions@[keys@[j]], #[trigger] self.functions@[keys@[j]]),
                self.constants == old(self).constants,
                self.extern_functions == old(self).extern_functions,
                self.function_counter == old(self).function_counter,
                self.extern_counter == old(self).extern_counter,
                self.symbol_table == old(self).symbol_table,
            decreases n - i,
        {
            let key = keys[i];
            proof {
                assert(keys@.to_set().contains(key));
            }
            let ghost before = self.functions@;
            let mut f = self.functions.remove(&key).unwrap();
            sort_blocks(&mut f.blocks);
            self.functions.insert(key, f);
            i = i + 1;
            proof {
                assert(self.functions@.dom() =~= old(self).functions@.dom());
                assert forall|j: int| 0 <= j < i implies reordered(old(self).functions@[keys@[j]], #[trigger] self.functions@[keys@[j]]) by {
                    if keys@[j] != key {
                        assert(self.functions@[keys@[j]] == before[keys@[j]]);
                    }
                }
                assert forall|k: usize| #[trigger] self.functions@.contains_key(k) implies (reordered(old(self).functions@[k], self.functions@[k])
                    || self.functions@[k] == old(self).functions@[k]) by {
                    if k != key {
                        assert(self.functions@[k] == before[k]);
                    }
                }
            }
        }
        proof {
            assert forall|k: usize| #[trigger] old(self).functions@.contains_key(k) implies reordered(old(self).functions@[k], self.functions@[k]) by {
                assert(keys@.to_set().contains(k));
                let j = choose|j: int| 0 <= j < keys@.len() && keys@[j] == k;
                assert(reordered(old(self).functions@[keys@[j]], self.functions@[keys@[j]]));
            }
        }
    }
}

/// A file of the program: its symbol and its top-level instructions.
pub type File = (SymbolIndex, Vec<Instruction>);

/// Where a file with symbol `k` goes among files already in order: after
/// every leading file whose symbol is not greater.
pub open spec fn insertion_point(s: Seq<File>, k: usize) -> nat
    decreases s.len(),
{
    if s.len() == 0 {
        0
    } else if s[0].0.0 <= k {
        1 + insertion_point(s.subrange(1, s.len() as int), k)
    } else {
        0
    }
}

/// The files in the order lowering takes them: by symbol, files with the
/// same symbol in their order in the list.
pub open spec fn file_order(files: Seq<File>) -> Seq<File>
    decreases files.len(),
{
    if files.len() == 0 {
        Seq::empty()
    } else {
        let s = file_order(files.drop_last());
        s.insert(insertion_point(s, files.last().0.0) as int, files.last())
    }
}

proof fn lemma_file_order_len(files: Seq<File>)
    ensures
        file_order(files).len() == files.len(),
    decreases files.len(),
{
    if files.len() > 0 {
        lemma_file_order_len(files.drop_last());
        lemma_insertion_point_bound(file_order(files.drop_last()), files.last().0.0);
    }
}

proof fn lemma_insertion_point_bound(s: Seq<File>, k: usize)
    ensures
        insertion_point(s, k) <= s.len(),
    decreases s.len(),
{
    if s.len() > 0 {
        lemma_insertion_point_bound(s.subrange(1, s.len() as int), k);
    }
}

/// Puts the files in the order lowering takes them.
fn sort_files(files: Vec<File>) -> (r: Vec<File>)
    ensures
        r@ == file_order(files@),
{
    let ghost all = files@;
    let mut input = files;
    let mut out: Vec<File> = Vec::new();
    let n = input.len();
    let mut t: usize = 0;
    proof {
        assert(all.subrange(0, 0) =~= Seq::<File>::empty());
        assert(all.subrange(0, n as int) =~= all);
    }
    while t < n
        invariant
            n == all.len(),
            t <= n,
            input@ == all.subrange(t as int, n as int),
            out@ == file_order(all.subrange(0, t as int)),
        decreases n - t,
    {
        let x = input.remove(0);
        let k = x.0.0;
        let len = out.len();
        let mut p: usize = 0;
        proof {
            assert(out@.subrange(0, len as int) =~= out@);
        }
        while p < len && out[p].0.0 <= k
            invariant
                len == out@.len(),
                p <= len,
                insertion_point(out@, k) == p + insertion_point(out@.subrange(p as int, len as int), k),
            decreases len - p,
        {
            proof {
                let sub = out@.subrange(p as int, len as int);
                assert(sub.subrange(1, sub.len() as int) =~= out@.subrange(p as int + 1, len as int));
            }
            p = p + 1;
        }
        proof {
            let sub = out@.subrange(p as int, len as int);
            if p < len {
                assert(sub[0] == out@[p as int]);
            }
            let pre = all.subrange(0, t as int + 1);
            assert(pre.drop_last() =~= all.subrange(0, t as int));
            assert(pre.last() == all[t as int]);
            assert(x == all[t as int]);
        }
        out.insert(p, x);
        t = t + 1;
        proof {
            assert(input@ =~= all.subrange(t as int, n as int));
        }
    }
    proof {
        assert(all.subrange(0, n as int) =~= all);
    }
    out
}

/// The symbols of the first `k` files.
pub open spec fn file_keys(s: Seq<File>, k: nat) -> Set<usize>
    decreases k,
{
    if k == 0 {
        Set::empty()
    } else {
        file_keys(s, (k - 1) as nat).insert(s[k - 1].0.0)
    }
}

/// What the top-level blocks of the first `k` files declare.
pub open spec fn declared_in_files(s: Seq<File>, k: nat, ext: bool) -> Set<usize>
    decreases k,
{
    if k == 0 {
        Set::empty()
    } else {
        declared_in_files(s, (k - 1) as nat, ext).union(
            if ext { declared_externs(s[k - 1].1@) } else { declared_functions(s[k - 1].1@) },
        )
    }
}

/// What lowering the first `k` files registers.
pub open spec fn registered_in_files(s: Seq<File>, k: nat, ext: bool) -> Set<usize>
    decreases k,
{
    if k == 0 {
        Set::empty()
    } else {
        registered_in_files(s, (k - 1) as nat, ext).union(block_registered(s[k - 1].1@, ext))
    }
}

/// The constants of the first `k` files, in order.
pub open spec fn files_literals(s: Seq<File>, k: nat) -> Seq<Data>
    decreases k,
{
    if k == 0 {
        Seq::empty()
    } else {
        files_literals(s, (k - 1) as nat) + block_literals(s[k - 1].1@)
    }
}

pub open spec fn files_declarations(s: Seq<File>, k: nat) -> nat
    decreases k,
{
    if k == 0 {
        0
    } else {
        files_declarations(s, (k - 1) as nat) + declaration_count(s[k - 1].1@)
    }
}

pub open spec fn files_steps(s: Seq<File>, k: nat) -> nat
    decreases k,
{
    if k == 0 {
        0
    } else {
        files_steps(s, (k - 1) as nat) + block_steps(s[k - 1].1@)
    }
}

/// The functions known once every file has its function and the
/// declarations of the files' top-level blocks are registered.
pub open spec fn prepared_functions(st: ConversionState, s: Seq<File>) -> Set<usize> {
    st.functions@.dom().union(file_keys(s, s.len())).union(declared_in_files(s, s.len(), false))
}

pub open spec fn prepared_externs(st: ConversionState, s: Seq<File>) -> Set<usize> {
    st.extern_functions@.dom().union(declared_in_files(s, s.len(), true))
}

/// The functions known when lowering reaches the `i`-th file.
pub open spec fn functions_before(st: ConversionState, s: Seq<File>, templates: Seq<Instruction>, i: nat) -> Set<usize> {
    prepared_functions(st, s).union(block_registered(templates, false)).union(registered_in_files(s, i, false))
}

pub open spec fn externs_before(st: ConversionState, s: Seq<File>, templates: Seq<Instruction>, i: nat) -> Set<usize> {
    prepared_externs(st, s).union(block_registered(templates, true)).union(registered_in_files(s, i, true))
}

/// The symbol of the function that starts the program.
pub open spec fn init_symbol(st: ConversionState) -> usize {
    spec_intern(st.symbol_table@, SymbolValue::Text("::init"@)).1 as usize
}

/// Lowering a whole program cannot fail: every file brings a new name,
/// every block can be lowered with what is known when it is reached, the
/// root function is known, the start function's name is new, and the
/// counters have room.
pub open spec fn generate_ready(st: ConversionState, root: SymbolIndex, s: Seq<File>, templates: Seq<Instruction>) -> bool {
    &&& forall|i: int| 0 <= i < s.len() ==> {
        &&& !st.functions@.dom().contains(#[trigger] s[i].0.0)
        &&& !file_keys(s, i as nat).contains(s[i].0.0)
        &&& !declared_in_files(s, i as nat, false).contains(s[i].0.0)
    }
    &&& block_ok(templates, Set::empty(), prepared_functions(st, s), prepared_externs(st, s))
    &&& forall|i: int| 0 <= i < s.len() ==> block_ok(
        (#[trigger] s[i]).1@,
        Set::empty(),
        functions_before(st, s, templates, i as nat),
        externs_before(st, s, templates, i as nat),
    )
    &&& functions_before(st, s, templates, s.len()).contains(root.0)
    &&& !functions_before(st, s, templates, s.len()).contains(init_symbol(st))
    &&& st.function_counter + 1 + s.len() + files_declarations(s, s.len()) + block_steps(templates) + files_steps(s, s.len()) <= u32::MAX
    &&& st.extern_counter + files_declarations(s, s.len()) + block_steps(templates) + files_steps(s, s.len()) <= u32::MAX
    &&& st.constants@.len() + block_literals(templates).len() + files_literals(s, s.len()).len() <= u32::MAX
    &&& 8 * sizes(templates) + 2 <= u32::MAX
    &&& forall|i: int| 0 <= i < s.len() ==> 8 * sizes((#[trigger] s[i]).1@) + 2 <= u32::MAX
}

impl ConversionState {
    /// Lowers a whole program: gives each file, in symbol order, a function
    /// of its own, registers what the files declare, lowers the templates
    /// into a start function and then each file into its function, and ends
    /// the start function with a call of the root function. Afterwards every
    /// numbered function is registered under its own name.
    #[verifier::rlimit(40)]
    pub fn generate(&mut self, root_index: SymbolIndex, files: Vec<File>, templates: Vec<Instruction>)
        requires
            old(self).symbol_table.wf(),
            old(self).functions@.len() == old(self).function_counter,
            forall|t: int| 0 <= t < templates@.len() ==> (#[trigger] templates@[t]).instruction_kind is Declaration
                && templates@[t].instruction_kind->Declaration_0 is FunctionDeclaration,
            generate_ready(*old(self), root_index, file_order(files@), templates@),
        ensures
            final(self).constants@ == old(self).constants@ + block_literals(templates@) + files_literals(
                file_order(files@),
                files@.len(),
            ),
            final(self).functions@.dom() == functions_before(*old(self), file_order(files@), templates@, files@.len()).insert(
                init_symbol(*old(self)),
            ),
            final(self).extern_functions@.dom() == externs_before(*old(self), file_order(files@), templates@, files@.len()),
            final(self).functions@.len() == final(self).function_counter,
            final(self).symbol_table@ == spec_intern(old(self).symbol_table@, SymbolValue::Text("::init"@)).0,
            final(self).functions@[init_symbol(*old(self))].function_index == FunctionIndex(old(self).function_counter),
            final(self).functions@[init_symbol(*old(self))].identifier == SymbolIndex(init_symbol(*old(self))),
            final(self).functions@[init_symbol(*old(self))].blocks@.len() == 1,
            final(self).functions@[init_symbol(*old(self))].blocks@[0].block_index == BlockIndex(0),
            final(self).functions@[init_symbol(*old(self))].blocks@[0].ending == BlockTerminator::Return,
            final(self).functions@[init_symbol(*old(self))].blocks@[0].instructions@.len() == 1,
            match final(self).functions@[init_symbol(*old(self))].blocks@[0].instructions@[0] {
                IR::Call { dst, id, args } => dst == Variable(0) && id == final(self).functions@[root_index.0].function_index
                    && args@.len() == 0,
                _ => false,
            },
    {
        let ghost st0 = *self;
        let ghost s = file_order(files@);
        let ghost tp = templates@;
        proof {
            lemma_file_order_len(files@);
        }
        let files = sort_files(files);
        let n = files.len();
        let init_function = self.symbol_table.add(String::from_str("::init"));
        let index = self.function();
        let mut function = Function::new(init_function, index, 0);
        let mut i: usize = 0;
        proof {
            assert(self.functions@.dom() =~= st0.functions@.dom().union(file_keys(s, 0)).union(declared_in_files(s, 0, false)));
            assert(self.extern_functions@.dom() =~= st0.extern_functions@.dom().union(declared_in_files(s, 0, true)));
        }
        while i < n
            invariant
                n == s.len(),
                files@ == s,
                i <= n,
                generate_ready(st0, root_index, s, tp),
                self.functions@.dom() == st0.functions@.dom().union(file_keys(s, i as nat)).union(declared_in_files(s, i as nat, false)),
                self.extern_functions@.dom() == st0.extern_functions@.dom().union(declared_in_files(s, i as nat, true)),
                self.function_counter == self.functions@.len() + 1,
                self.function_counter <= st0.function_counter + 1 + i + files_declarations(s, i as nat),
                self.extern_counter <= st0.extern_counter + files_declarations(s, i as nat),
                st0.functions@.len() == st0.function_counter,
                self.constants == st0.constants,
                self.symbol_table@ == spec_intern(st0.symbol_table@, SymbolValue::Text("::init"@)).0,
                init_function.0 == init_symbol(st0),
                index == FunctionIndex(st0.function_counter),
                function.identifier == init_function,
                function.function_index == index,
                function.blocks@.len() == 0,
                function.variable_counter == 0,
                function.stack_size == 0,
            decreases n - i,
        {
            let key = files[i].0;
            proof {
                lemma_files_declarations_grow(s, i as nat + 1, n as nat);
                assert(files_declarations(s, i as nat + 1) == files_declarations(s, i as nat) + declaration_count(s[i as int].1@));
            }
            let index = self.function();
            let f = Function::new(key, index, 0);
            proof {
                assert(!self.functions@.dom().contains(key.0));
                assert(self.functions@.dom().finite());
            }
            self.functions.insert(key.0, f);
            self.declaration_process(files[i].1.as_slice());
            i = i + 1;
            proof {
                assert(self.functions@.dom() =~= st0.functions@.dom().union(file_keys(s, i as nat)).union(declared_in_files(s, i as nat, false)));
                assert(self.extern_functions@.dom() =~= st0.extern_functions@.dom().union(declared_in_files(s, i as nat, true)));
            }
        }
        proof {
            lemma_files_declarations_grow(s, n as nat, n as nat);
        }
        let ghost before_templates = *self;
        generate_with(&mut function, self, templates.as_slice(), Ghost(prepared_functions(st0, s)), Ghost(prepared_externs(st0, s)));
        function.blocks.clear();
        proof {
            assert(self.function_counter <= before_templates.function_counter + block_steps(tp));
            assert(files_steps(s, 0) == 0);
        }
        let mut j: usize = 0;
        proof {
            assert(self.functions@.dom() =~= functions_before(st0, s, tp, 0));
            assert(self.extern_functions@.dom() =~= externs_before(st0, s, tp, 0));
            assert(self.constants@ =~= st0.constants@ + block_literals(tp) + files_literals(s, 0));
        }
        while j < n
            invariant
                n == s.len(),
                files@ == s,
                j <= n,
                generate_ready(st0, root_index, s, tp),
                self.functions@.dom() == functions_before(st0, s, tp, j as nat),
                self.extern_functions@.dom() == externs_before(st0, s, tp, j as nat),
                self.function_counter == self.functions@.len() + 1,
                self.function_counter <= st0.function_counter + 1 + n + files_declarations(s, n as nat) + block_steps(tp)
                    + files_steps(s, j as nat),
                self.extern_counter <= st0.extern_counter + files_declarations(s, n as nat) + block_steps(tp) + files_steps(s, j as nat),
                self.constants@ == st0.constants@ + block_literals(tp) + files_literals(s, j as nat),
                self.symbol_table@ == spec_intern(st0.symbol_table@, SymbolValue::Text("::init"@)).0,
                init_function.0 == init_symbol(st0),
                function.identifier == init_function,
                function.function_index == FunctionIndex(st0.function_counter),
                function.blocks@.len() == 0,
            decreases n - j,
        {
            proof {
                lemma_files_steps_grow(s, j as nat + 1, n as nat);
                lemma_files_literals_grow(s, j as nat + 1, n as nat);
                assert(files_steps(s, j as nat + 1) == files_steps(s, j as nat) + block_steps(s[j as int].1@));
                assert(files_literals(s, j as nat + 1) == files_literals(s, j as nat) + block_literals(s[j as int].1@));
                assert(block_ok(s[j as int].1@, Set::empty(), functions_before(st0, s, tp, j as nat), externs_before(st0, s, tp, j as nat)));
                assert(file_keys(s, n as nat).contains(s[j as int].0.0)) by {
                    lemma_file_keys_contain(s, j as int, n as nat);
                }
            }
            let key = files[j].0;
            let ghost mid = *self;
            self.lower_file(key, files[j].1.as_slice(), Ghost(functions_before(st0, s, tp, j as nat)), Ghost(externs_before(st0, s, tp, j as nat)));
            j = j + 1;
            proof {
                assert(self.functions@.dom() =~= functions_before(st0, s, tp, j as nat));
                assert(self.extern_functions@.dom() =~= externs_before(st0, s, tp, j as nat));
                assert(self.constants@ =~= st0.constants@ + block_literals(tp) + files_literals(s, j as nat));
            }
        }
        let id = self.find_function(root_index).function_index;
        let block = Block {
            block_index: BlockIndex(0),
            instructions: vec![IR::Call { dst: Variable(0), id, args: Vec::new() }],
            ending: BlockTerminator::Return,
        };
        function.blocks.push(block);
        let ghost before_init = *self;
        proof {
            assert(self.functions@.dom().finite());
        }
        self.functions.insert(init_function.0, function);
        proof {
            assert(self.functions@.dom() =~= before_init.functions@.dom().insert(init_symbol(st0)));
            assert(self.functions@[root_index.0] == before_init.functions@[root_index.0]);
        }
    }
}

proof fn lemma_files_declarations_grow(s: Seq<File>, i: nat, n: nat)
    requires
        i <= n,
    ensures
        files_declarations(s, i) <= files_declarations(s, n),
    decreases n - i,
{
    if i < n {
        lemma_files_declarations_grow(s, i, (n - 1) as nat);
    }
}

proof fn lemma_files_steps_grow(s: Seq<File>, i: nat, n: nat)
    requires
        i <= n,
    ensures
        files_steps(s, i) <= files_steps(s, n),
    decreases n - i,
{
    if i < n {
        lemma_files_steps_grow(s, i, (n - 1) as nat);
    }
}

proof fn lemma_files_literals_grow(s: Seq<File>, i: nat, n: nat)
    requires
        i <= n,
    ensures
        files_literals(s, i).len() <= files_literals(s, n).len(),
    decreases n - i,
{
    if i < n {
        lemma_files_literals_grow(s, i, (n - 1) as nat);
    }
}

proof fn lemma_file_keys_contain(s: Seq<File>, j: int, n: nat)
    requires
        0 <= j < n,
    ensures
        file_keys(s, n).contains(s[j].0.0),
    decreases n,
{
    if j < n - 1 {
        lemma_file_keys_contain(s, j, (n - 1) as nat);
    }
}

impl ConversionState {
    /// Lowers one file into the function registered under its symbol.
    fn lower_file(&mut self, key: SymbolIndex, items: &[Instruction], Ghost(fns): Ghost<Set<usize>>, Ghost(exts): Ghost<Set<usize>>)
        requires
            old(self).functions@.contains_key(key.0),
            fns.subset_of(old(self).functions@.dom()),
            exts.subset_of(old(self).extern_functions@.dom()),
            block_ok(items@, Set::empty(), fns, exts),
            8 * sizes(items@) + 2 <= u32::MAX,
            old(self).function_counter + block_steps(items@) <= u32::MAX,
            old(self).extern_counter + block_steps(items@) <= u32::MAX,
            old(self).constants@.len() + block_literals(items@).len() <= u32::MAX,
        ensures
            final(self).constants@ == old(self).constants@ + block_literals(items@),
            final(self).functions@.dom() == old(self).functions@.dom().union(block_registered(items@, false)),
            final(self).extern_functions@.dom() == old(self).extern_functions@.dom().union(block_registered(items@, true)),
            counted(*old(self), *final(self)),
            final(self).function_counter <= old(self).function_counter + block_steps(items@),
            final(self).extern_counter <= old(self).extern_counter + block_steps(items@),
            final(self).symbol_table == old(self).symbol_table,
    {
        let index = self.find_function(key).function_index;
        let mut f = Function::new(key, index, 0);
        generate_with(&mut f, self, items, Ghost(fns), Ghost(exts));
        let ghost mid = *self;
        proof {
            assert(self.functions@.dom().finite());
        }
        self.functions.insert(key.0, f);
        proof {
            assert(self.functions@.dom() =~= mid.functions@.dom());
        }
    }
}

proof fn lemma_push_back(a: Seq<Block>, x: Block)
    ensures
        forall|id: BlockIndex| has_block(a.push(x), id) ==> has_block(a, id) || id == x.block_index,
{
    assert forall|id: BlockIndex| has_block(a.push(x), id) implies has_block(a, id) || id == x.block_index by {
        let k = choose|k: int| 0 <= k < a.push(x).len() && (#[trigger] a.push(x)[k]).block_index == id;
        if k < a.len() {
            assert(a.push(x)[k] == a[k]);
        }
    }
}

/// One waiting block, the first of `before`, was given the target `e`.
proof fn lemma_patched(o: Lowering, n: Lowering, c: nat, target: BlockIndex, e: BlockTerminator, before: Seq<BlockIndex>, after: Seq<BlockIndex>)
    requires
        o.sound(c),
        before.len() > 0,
        before[0] == target,
        after == before.subrange(1, before.len() as int),
        forall|j: int| 0 <= j < o.function.blocks@.len() ==> waiting(#[trigger] o.function.blocks@[j], before),
        match e {
            BlockTerminator::Goto(t) => t.0 < o.block_counter,
            _ => false,
        },
        same_indices(o.function.blocks@, n.function.blocks@),
        forall|k: int| 0 <= k < o.function.blocks@.len() ==> (#[trigger] n.function.blocks@[k]).instructions == o.function.blocks@[k].instructions,
        forall|k: int| 0 <= k < o.function.blocks@.len() ==> (#[trigger] n.function.blocks@[k]).ending == if o.function.blocks@[k].block_index == target {
            e
        } else {
            o.function.blocks@[k].ending
        },
        n.function.variable_counter == o.function.variable_counter,
        n.function.stack_size == o.function.stack_size,
        n.variable_lookup == o.variable_lookup,
        n.block_counter == o.block_counter,
        n.breaks == o.breaks,
        n.continues == o.continues,
        n.explicit_ret == o.explicit_ret,
        pending_in(o.explicit_ret@, o.function.blocks@, o.block_counter),
    ensures
        n.sound(c),
        forall|j: int| 0 <= j < n.function.blocks@.len() ==> waiting(#[trigger] n.function.blocks@[j], after),
        pending_in(n.explicit_ret@, n.function.blocks@, n.block_counter),
{
    lemma_same_indices(o.function.blocks@, n.function.blocks@);
    assert forall|k: int| 0 <= k < n.function.blocks@.len() implies block_within(#[trigger] n.function.blocks@[k], n.function.stack_size, c)
        && n.function.blocks@[k].block_index.0 < n.block_counter && targets_ok(n.function.blocks@[k], n.block_counter) && waiting(
        n.function.blocks@[k],
        after,
    ) by {
        assert(block_within(o.function.blocks@[k], o.function.stack_size, c));
        assert(n.function.blocks@[k].instructions@ == o.function.blocks@[k].instructions@);
        assert(o.function.blocks@[k].block_index.0 < o.block_counter);
        assert(targets_ok(o.function.blocks@[k], o.block_counter));
        assert(waiting(o.function.blocks@[k], before));
        if n.function.blocks@[k].ending == BlockTerminator::Goto(BlockIndex(u32::MAX)) {
            assert(o.function.blocks@[k].block_index != target);
            let w = choose|w: int| 0 <= w < before.len() && before[w] == o.function.blocks@[k].block_index;
            assert(w != 0);
            assert(after[w - 1] == before[w]);
        }
    }
}

/// Blocks whose terminators name only numbered blocks, all of which are
/// present, make a function the optimizer accepts.
proof fn lemma_wf(bs: Seq<Block>, counter: u32, entry: BlockIndex)
    requires
        forall|k: int| 0 <= k < bs.len() ==> targets_ok(#[trigger] bs[k], counter),
        forall|k: int| 0 <= k < bs.len() ==> (#[trigger] bs[k]).ending != BlockTerminator::Goto(BlockIndex(u32::MAX)),
        forall|t: u32| t < counter ==> has_block(bs, BlockIndex(t)),
        entry.0 < counter,
    ensures
        crate::optimize::targets_exist(crate::optimize::shapes(bs)),
        crate::optimize::has_index(crate::optimize::shapes(bs), entry),
{
    let sh = crate::optimize::shapes(bs);
    assert forall|id: BlockIndex| has_block(bs, id) implies crate::optimize::has_index(sh, id) by {
        let k = choose|k: int| 0 <= k < bs.len() && (#[trigger] bs[k]).block_index == id;
        assert(sh[k].index == id);
    }
    assert(has_block(bs, BlockIndex(entry.0)));
    assert forall|k: int, t: int| 0 <= k < sh.len() && 0 <= t < crate::optimize::targets(sh[k].ending).len() implies crate::optimize::has_index(
        sh,
        #[trigger] crate::optimize::targets(sh[k].ending)[t],
    ) by {
        assert(sh[k].ending == bs[k].ending);
        assert(targets_ok(bs[k], counter));
        let x = crate::optimize::targets(sh[k].ending)[t];
        assert(x.0 < counter);
        assert(has_block(bs, BlockIndex(x.0)));
    }
}

/// The extern functions called by a run of instructions, in order, with
/// repeats.
pub open spec fn ir_ext_ids(s: Seq<IR>) -> Seq<u32>
    decreases s.len(),
{
    if s.len() == 0 {
        Seq::empty()
    } else {
        ir_ext_ids(s.drop_last()) + match s.last() {
            IR::ExtCall { id, .. } => seq![id.0],
            _ => Seq::empty(),
        }
    }
}

pub open spec fn blocks_ext_ids(bs: Seq<Block>) -> Seq<u32>
    decreases bs.len(),
{
    if bs.len() == 0 {
        Seq::empty()
    } else {
        blocks_ext_ids(bs.drop_last()) + ir_ext_ids(bs.last().instructions@)
    }
}

/// The extern functions called by the functions `ks` of `m`, in order.
pub open spec fn functions_ext_ids(m: Map<usize, Function>, ks: Seq<usize>) -> Seq<u32>
    decreases ks.len(),
{
    if ks.len() == 0 {
        Seq::empty()
    } else {
        functions_ext_ids(m, ks.drop_last()) + blocks_ext_ids(m[ks.last()].blocks@)
    }
}

/// The values of `s` without repeats, each where it first appears.
pub open spec fn first_seen(s: Seq<u32>) -> Seq<u32>
    decreases s.len(),
{
    if s.len() == 0 {
        Seq::empty()
    } else {
        let f = first_seen(s.drop_last());
        if f.contains(s.last()) {
            f
        } else {
            f.push(s.last())
        }
    }
}

/// The keys in increasing order.
pub open spec fn ascending(ks: Seq<usize>) -> bool {
    forall|i: int, j: int| 0 <= i < j < ks.len() ==> ks[i] < ks[j]
}

/// An instruction with its extern call numbered by the position of its
/// target in `order`.
pub open spec fn renumber_ir(i: IR, order: Seq<u32>) -> IR {
    match i {
        IR::ExtCall { dst, id, args } => IR::ExtCall { dst, id: FunctionIndex(order.index_of(id.0) as u32), args },
        _ => i,
    }
}

/// `n` is `o` with every extern call renumbered by `order`.
pub open spec fn renumbered_function(o: Function, n: Function, order: Seq<u32>) -> bool {
    &&& n.identifier == o.identifier
    &&& n.function_index == o.function_index
    &&& n.argument_count == o.argument_count
    &&& n.variable_counter == o.variable_counter
    &&& n.stack_size == o.stack_size
    &&& n.entry == o.entry
    &&& n.blocks@.len() == o.blocks@.len()
    &&& forall|b: int| 0 <= b < o.blocks@.len() ==> {
        &&& (#[trigger] n.blocks@[b]).block_index == o.blocks@[b].block_index
        &&& n.blocks@[b].ending == o.blocks@[b].ending
        &&& n.blocks@[b].instructions@.len() == o.blocks@[b].instructions@.len()
        &&& forall|k: int| 0 <= k < o.blocks@[b].instructions@.len() ==> (#[trigger] n.blocks@[b].instructions@[k]) == renumber_ir(
            o.blocks@[b].instructions@[k],
            order,
        )
    }
}

/// An extern function as renumbered by `order`, if it is called.
pub open spec fn renumbered_extern(e: ExternFunction, order: Seq<u32>) -> ExternFunction {
    if order.contains(e.function_index.0) {
        ExternFunction { function_index: FunctionIndex(order.index_of(e.function_index.0) as u32), ..e }
    } else {
        e
    }
}

/// What taking out the externs promises, for the extern calls met in the
/// order `order`: calls and extern functions renumbered, the table of the
/// files and functions called, and the highest number.
pub open spec fn externs_taken_out(
    o: ConversionState,
    n: ConversionState,
    table: Map<usize, Set<(usize, u32)>>,
    max: u32,
    order: Seq<u32>,
) -> bool {
    &&& n.functions@.dom() == o.functions@.dom()
    &&& forall|k: usize| #[trigger] o.functions@.contains_key(k) ==> renumbered_function(o.functions@[k], n.functions@[k], order)
    &&& n.extern_functions@.dom() == o.extern_functions@.dom()
    &&& forall|k: usize| #[trigger] o.extern_functions@.contains_key(k) ==> n.extern_functions@[k] == renumbered_extern(
        o.extern_functions@[k],
        order,
    )
    &&& table.dom() == Set::new(|f: usize| exists|k: usize| #[trigger] o.extern_functions@.contains_key(k)
        && order.contains(o.extern_functions@[k].function_index.0) && o.extern_functions@[k].file.0 == f)
    &&& forall|f: usize| #[trigger] table.contains_key(f) ==> table[f] == Set::new(|e: (usize, u32)| exists|k: usize| #[trigger] o.extern_functions@.contains_key(k)
        && order.contains(o.extern_functions@[k].function_index.0) && o.extern_functions@[k].file.0 == f
        && o.extern_functions@[k].path.0 == e.0 && e.1 == order.index_of(o.extern_functions@[k].function_index.0))
    &&& (forall|k: usize| #[trigger] o.extern_functions@.contains_key(k) && order.contains(o.extern_functions@[k].function_index.0)
        ==> order.index_of(o.extern_functions@[k].function_index.0) <= max)
    &&& (max == 0 || exists|k: usize| #[trigger] o.extern_functions@.contains_key(k) && order.contains(o.extern_functions@[k].function_index.0)
        && order.index_of(o.extern_functions@[k].function_index.0) == max)
    &&& n.constants == o.constants
    &&& n.function_counter == o.function_counter
    &&& n.extern_counter == o.extern_counter
    &&& n.symbol_table == o.symbol_table
}

pub(crate) proof fn lemma_first_seen(s: Seq<u32>)
    ensures
        first_seen(s).no_duplicates(),
        forall|x: u32| first_seen(s).contains(x) <==> s.contains(x),
    decreases s.len(),
{
    if s.len() > 0 {
        let p = s.drop_last();
        let f = first_seen(p);
        let y = s.last();
        lemma_first_seen(p);
        assert forall|x: u32| p.contains(x) implies s.contains(x) by {
            let i = choose|i: int| 0 <= i < p.len() && p[i] == x;
            assert(s[i] == x);
        }
        assert forall|x: u32| s.contains(x) implies p.contains(x) || x == y by {
            let i = choose|i: int| 0 <= i < s.len() && s[i] == x;
            if i < s.len() - 1 {
                assert(p[i] == x);
            }
        }
        assert(s.contains(y)) by {
            assert(s[s.len() - 1] == y);
        }
        if f.contains(y) {
            assert(first_seen(s) == f);
        } else {
            assert(first_seen(s) == f.push(y));
            assert forall|x: u32| f.push(y).contains(x) <==> s.contains(x) by {
                if f.push(y).contains(x) {
                    let i = choose|i: int| 0 <= i < f.push(y).len() && f.push(y)[i] == x;
                    if i < f.len() {
                        assert(f[i] == x);
                    }
                }
                if s.contains(x) {
                    if x == y {
                        assert(f.push(y)[f.len() as int] == y);
                    } else {
                        assert(f.contains(x));
                        let i = choose|i: int| 0 <= i < f.len() && f[i] == x;
                        assert(f.push(y)[i] == x);
                    }
                }
            }
            assert(f.push(y).no_duplicates()) by {
                assert forall|i: int, j: int| 0 <= i < f.push(y).len() && 0 <= j < f.push(y).len() && i != j implies f.push(y)[i]
                    != f.push(y)[j] by {
                    if i < f.len() && j < f.len() {
                    } else if i < f.len() {
                        assert(f.contains(f[i]));
                    } else {
                        assert(f.contains(f[j]));
                    }
                }
            }
        }
    }
}

pub(crate) proof fn lemma_ascending_unique(a: Seq<usize>, b: Seq<usize>)
    requires
        ascending(a),
        ascending(b),
        a.to_set() == b.to_set(),
    ensures
        a == b,
    decreases a.len() + b.len(),
{
    if a.len() == 0 {
        if b.len() > 0 {
            assert(b.to_set().contains(b[0]));
        }
        assert(a =~= b);
    } else if b.len() == 0 {
        assert(a.to_set().contains(a[0]));
    } else {
        assert(a.to_set().contains(a[0]));
        assert(b.to_set().contains(b[0]));
        assert(b.contains(a[0]));
        assert(a.contains(b[0]));
        let i = choose|i: int| 0 <= i < b.len() && b[i] == a[0];
        let j = choose|j: int| 0 <= j < a.len() && a[j] == b[0];
        assert(a[0] == b[0]) by {
            if i > 0 {
                assert(b[0] < b[i]);
                if j > 0 {
                    assert(a[0] < a[j]);
                }
            }
        }
        let a1 = a.drop_first();
        let b1 = b.drop_first();
        assert(a1.to_set() =~= b1.to_set()) by {
            assert forall|x: usize| a1.to_set().contains(x) <==> b1.to_set().contains(x) by {
                if a1.to_set().contains(x) {
                    let k = choose|k: int| 0 <= k < a1.len() && a1[k] == x;
                    assert(a[k + 1] == x);
                    assert(a[0] < x);
                    assert(a.contains(x));
                    assert(a.to_set().contains(x));
                    assert(b.contains(x));
                    let m = choose|m: int| 0 <= m < b.len() && b[m] == x;
                    assert(m != 0);
                    assert(b1[m - 1] == x);
                }
                if b1.to_set().contains(x) {
                    let k = choose|k: int| 0 <= k < b1.len() && b1[k] == x;
                    assert(b[k + 1] == x);
                    assert(b[0] < x);
                    assert(b.contains(x));
                    assert(b.to_set().contains(x));
                    assert(a.contains(x));
                    let m = choose|m: int| 0 <= m < a.len() && a[m] == x;
                    assert(m != 0);
                    assert(a1[m - 1] == x);
                }
            }
        }
        lemma_ascending_unique(a1, b1);
        assert(a =~= b) by {
            assert forall|k: int| 0 <= k < a.len() implies a[k] == b[k] by {
                if k > 0 {
                    assert(a1[k - 1] == b1[k - 1]);
                }
            }
        }
    }
}

/// The keys of a map of functions, in increasing order.
pub(crate) fn function_keys(m: &BTreeMap<usize, Function>) -> (keys: Vec<usize>)
    ensures
        ascending(keys@),
        keys@.to_set() == m@.dom(),
{
    let mut keys: Vec<usize> = Vec::new();
    for k in it: m.keys()
        invariant
            keys@ == it.seq().take(it.index() as int).map_values(|x: &usize| *x),
            it.seq() == vstd::std_specs::btree::spec_keys_iter(m).remaining(),
        ensures
            keys@ == vstd::std_specs::btree::spec_keys_iter(m).remaining().map_values(|x: &usize| *x),
    {
        keys.push(*k);
    }
    proof {
        let rem = vstd::std_specs::btree::spec_keys_iter(m).remaining();
        assert(rem.unref().to_set() == m@.dom());
        assert(keys@ =~= rem.unref());
        lemma_keys_ascending(rem, keys@);
    }
    keys
}

/// The keys of a map of extern functions, in increasing order.
fn extern_keys(m: &BTreeMap<usize, ExternFunction>) -> (keys: Vec<usize>)
    ensures
        ascending(keys@),
        keys@.to_set() == m@.dom(),
{
    let mut keys: Vec<usize> = Vec::new();
    for k in it: m.keys()
        invariant
            keys@ == it.seq().take(it.index() as int).map_values(|x: &usize| *x),
            it.seq() == vstd::std_specs::btree::spec_keys_iter(m).remaining(),
        ensures
            keys@ == vstd::std_specs::btree::spec_keys_iter(m).remaining().map_values(|x: &usize| *x),
    {
        keys.push(*k);
    }
    proof {
        let rem = vstd::std_specs::btree::spec_keys_iter(m).remaining();
        assert(rem.unref().to_set() == m@.dom());
        assert(keys@ =~= rem.unref());
        lemma_keys_ascending(rem, keys@);
    }
    keys
}

proof fn lemma_keys_ascending(rem: Seq<&usize>, keys: Seq<usize>)
    requires
        increasing_seq(rem),
        keys == rem.unref(),
    ensures
        ascending(keys),
{
    broadcast use vstd::laws_cmp::lemma_ref_obeys_cmp_spec;

    assert(vstd::laws_cmp::obeys_cmp::<&usize>());
    vstd::std_specs::btree::axiom_increasing_seq_meaning(rem);
    assert forall|i: int, j: int| 0 <= i < j < keys.len() implies keys[i] < keys[j] by {
        assert(vstd::std_specs::cmp::OrdSpec::cmp_spec(&rem[i], &rem[j]) is Less);
        assert(keys[i] == *rem[i]);
        assert(keys[j] == *rem[j]);
    }
}

/// Where `x` first stands in `s`, if anywhere.
pub(crate) fn position(s: &Vec<u32>, x: u32) -> (r: Option<usize>)
    ensures
        match r {
            Some(j) => j < s@.len() && s@[j as int] == x && forall|i: int| 0 <= i < j ==> s@[i] != x,
            None => !s@.contains(x),
        },
{
    let n = s.len();
    let mut j: usize = 0;
    while j < n
        invariant
            n == s@.len(),
            j <= n,
            forall|i: int| 0 <= i < j ==> s@[i] != x,
        decreases n - j,
    {
        if s[j] == x {
            return Some(j);
        }
        j = j + 1;
    }
    None
}

pub(crate) proof fn lemma_index_of_unique(s: Seq<u32>, j: int, x: u32)
    requires
        s.no_duplicates(),
        0 <= j < s.len(),
        s[j] == x,
    ensures
        s.index_of(x) == j,
        s.contains(x),
{
    assert(s.contains(x));
    let i = s.index_of(x);
    assert(s[i] == x);
}

/// Adds the extern call of `i`, if it is one, to the values seen first.
fn note_ext(used: &mut Vec<u32>, i: &IR, Ghost(seen): Ghost<Seq<u32>>)
    requires
        old(used)@ == first_seen(seen),
    ensures
        final(used)@ == first_seen(seen + ir_ext_ids(seq![*i])),
{
    let ghost t = seq![*i];
    proof {
        assert(t.drop_last() =~= Seq::<IR>::empty());
        assert(t.last() == *i);
        assert(ir_ext_ids(t.drop_last()) =~= Seq::<u32>::empty());
    }
    match i {
        IR::ExtCall { id, .. } => {
            proof {
                assert(ir_ext_ids(t) =~= seq![id.0]);
                assert((seen + seq![id.0]).drop_last() =~= seen);
                assert((seen + seq![id.0]).last() == id.0);
            }
            match position(used, id.0) {
                Some(_) => {},
                None => {
                    used.push(id.0);
                },
            }
        },
        _ => {
            proof {
                assert(ir_ext_ids(t) =~= Seq::<u32>::empty());
                assert(seen + ir_ext_ids(t) =~= seen);
            }
        },
    }
}

proof fn lemma_ir_ext_step(s: Seq<IR>, k: int)
    requires
        0 <= k < s.len(),
    ensures
        ir_ext_ids(s.subrange(0, k + 1)) == ir_ext_ids(s.subrange(0, k)) + ir_ext_ids(seq![s[k]]),
{
    let t = seq![s[k]];
    assert(t.drop_last() =~= Seq::<IR>::empty());
    assert(s.subrange(0, k + 1).drop_last() =~= s.subrange(0, k));
    assert(ir_ext_ids(Seq::<IR>::empty()) =~= Seq::<u32>::empty());
    assert(ir_ext_ids(t) =~= Seq::<u32>::empty() + match s[k] {
        IR::ExtCall { id, .. } => seq![id.0],
        _ => Seq::empty(),
    });
}

/// The extern functions the functions `keys` call, each once, in the order
/// their first calls are met.
fn ext_order(functions: &BTreeMap<usize, Function>, keys: &Vec<usize>) -> (used: Vec<u32>)
    requires
        forall|i: int| 0 <= i < keys@.len() ==> functions@.contains_key(#[trigger] keys@[i]),
    ensures
        used@ == first_seen(functions_ext_ids(functions@, keys@)),
{
    let mut used: Vec<u32> = Vec::new();
    let n = keys.len();
    let mut i: usize = 0;
    proof {
        assert(keys@.subrange(0, 0) =~= Seq::<usize>::empty());
    }
    while i < n
        invariant
            n == keys@.len(),
            i <= n,
            forall|j: int| 0 <= j < keys@.len() ==> functions@.contains_key(#[trigger] keys@[j]),
            used@ == first_seen(functions_ext_ids(functions@, keys@.subrange(0, i as int))),
        decreases n - i,
    {
        let f = functions.get(&keys[i]).unwrap();
        let ghost a = functions_ext_ids(functions@, keys@.subrange(0, i as int));
        let nb = f.blocks.len();
        let mut b: usize = 0;
        proof {
            assert(f.blocks@.subrange(0, 0) =~= Seq::<Block>::empty());
            assert(a + blocks_ext_ids(Seq::<Block>::empty()) =~= a);
        }
        while b < nb
            invariant
                nb == f.blocks@.len(),
                b <= nb,
                used@ == first_seen(a + blocks_ext_ids(f.blocks@.subrange(0, b as int))),
            decreases nb - b,
        {
            let instrs = &f.blocks[b].instructions;
            let ghost pre = a + blocks_ext_ids(f.blocks@.subrange(0, b as int));
            let m = instrs.len();
            let mut k: usize = 0;
            proof {
                assert(instrs@.subrange(0, 0) =~= Seq::<IR>::empty());
                assert(pre + ir_ext_ids(Seq::<IR>::empty()) =~= pre);
            }
            while k < m
                invariant
                    m == instrs@.len(),
                    k <= m,
                    used@ == first_seen(pre + ir_ext_ids(instrs@.subrange(0, k as int))),
                decreases m - k,
            {
                note_ext(&mut used, &instrs[k], Ghost(pre + ir_ext_ids(instrs@.subrange(0, k as int))));
                proof {
                    lemma_ir_ext_step(instrs@, k as int);
                    assert(pre + ir_ext_ids(instrs@.subrange(0, k as int)) + ir_ext_ids(seq![instrs@[k as int]]) =~= pre + ir_ext_ids(
                        instrs@.subrange(0, k as int + 1),
                    ));
                }
                k = k + 1;
            }
            proof {
                assert(instrs@.subrange(0, m as int) =~= instrs@);
                let bs = f.blocks@.subrange(0, b as int + 1);
                assert(bs.drop_last() =~= f.blocks@.subrange(0, b as int));
                assert(bs.last() == f.blocks@[b as int]);
                assert(pre + ir_ext_ids(instrs@) =~= a + blocks_ext_ids(bs));
            }
            b = b + 1;
        }
        proof {
            assert(f.blocks@.subrange(0, nb as int) =~= f.blocks@);
            let ks = keys@.subrange(0, i as int + 1);
            assert(ks.drop_last() =~= keys@.subrange(0, i as int));
            assert(ks.last() == keys@[i as int]);
        }
        i = i + 1;
    }
    proof {
        assert(keys@.subrange(0, n as int) =~= keys@);
    }
    used
}

proof fn lemma_ir_ext_contains(s: Seq<IR>, k: int)
    requires
        0 <= k < s.len(),
    ensures
        match s[k] {
            IR::ExtCall { id, .. } => ir_ext_ids(s).contains(id.0),
            _ => true,
        },
    decreases s.len(),
{
    let p = s.drop_last();
    let tail = match s.last() {
        IR::ExtCall { id, .. } => seq![id.0],
        _ => Seq::<u32>::empty(),
    };
    assert(ir_ext_ids(s) == ir_ext_ids(p) + tail);
    if k < s.len() - 1 {
        lemma_ir_ext_contains(p, k);
        assert(p[k] == s[k]);
        match s[k] {
            IR::ExtCall { id, .. } => {
                let w = choose|w: int| 0 <= w < ir_ext_ids(p).len() && ir_ext_ids(p)[w] == id.0;
                assert(ir_ext_ids(s)[w] == id.0);
            },
            _ => {},
        }
    } else {
        match s[k] {
            IR::ExtCall { id, .. } => {
                assert(ir_ext_ids(s)[ir_ext_ids(p).len() as int] == id.0);
            },
            _ => {},
        }
    }
}

proof fn lemma_blocks_ext_contains(bs: Seq<Block>, b: int, x: u32)
    requires
        0 <= b < bs.len(),
        ir_ext_ids(bs[b].instructions@).contains(x),
    ensures
        blocks_ext_ids(bs).contains(x),
    decreases bs.len(),
{
    let p = bs.drop_last();
    assert(blocks_ext_ids(bs) == blocks_ext_ids(p) + ir_ext_ids(bs.last().instructions@));
    if b < bs.len() - 1 {
        assert(p[b] == bs[b]);
        lemma_blocks_ext_contains(p, b, x);
        let w = choose|w: int| 0 <= w < blocks_ext_ids(p).len() && blocks_ext_ids(p)[w] == x;
        assert(blocks_ext_ids(bs)[w] == x);
    } else {
        let w = choose|w: int| 0 <= w < ir_ext_ids(bs[b].instructions@).len() && ir_ext_ids(bs[b].instructions@)[w] == x;
        assert(blocks_ext_ids(bs)[blocks_ext_ids(p).len() + w] == x);
    }
}

proof fn lemma_functions_ext_contains(m: Map<usize, Function>, ks: Seq<usize>, i: int, x: u32)
    requires
        0 <= i < ks.len(),
        blocks_ext_ids(m[ks[i]].blocks@).contains(x),
    ensures
        functions_ext_ids(m, ks).contains(x),
    decreases ks.len(),
{
    let p = ks.drop_last();
    assert(functions_ext_ids(m, ks) == functions_ext_ids(m, p) + blocks_ext_ids(m[ks.last()].blocks@));
    if i < ks.len() - 1 {
        assert(p[i] == ks[i]);
        lemma_functions_ext_contains(m, p, i, x);
        let w = choose|w: int| 0 <= w < functions_ext_ids(m, p).len() && functions_ext_ids(m, p)[w] == x;
        assert(functions_ext_ids(m, ks)[w] == x);
    } else {
        let w = choose|w: int| 0 <= w < blocks_ext_ids(m[ks[i]].blocks@).len() && blocks_ext_ids(m[ks[i]].blocks@)[w] == x;
        assert(functions_ext_ids(m, ks)[functions_ext_ids(m, p).len() + w] == x);
    }
}

/// Every extern call of `f` targets a value of `order`.
pub open spec fn calls_listed(f: Function, order: Seq<u32>) -> bool {
    forall|b: int, k: int| 0 <= b < f.blocks@.len() && 0 <= k < f.blocks@[b].instructions@.len() ==> match #[trigger] f.blocks@[b].instructions@[k] {
        IR::ExtCall { id, .. } => order.contains(id.0),
        _ => true,
    }
}

fn renumber_one(i: IR, order: &Vec<u32>) -> (r: IR)
    requires
        order@.no_duplicates(),
        order@.len() < u32::MAX,
        match i {
            IR::ExtCall { id, .. } => order@.contains(id.0),
            _ => true,
        },
    ensures
        r == renumber_ir(i, order@),
{
    match i {
        IR::ExtCall { dst, id, args } => {
            let j = position(order, id.0).unwrap();
            proof {
                lemma_index_of_unique(order@, j as int, id.0);
            }
            IR::ExtCall { dst, id: FunctionIndex(j as u32), args }
        },
        other => other,
    }
}

fn renumber_block(block: &mut Block, order: &Vec<u32>)
    requires
        order@.no_duplicates(),
        order@.len() < u32::MAX,
        forall|k: int| 0 <= k < old(block).instructions@.len() ==> match #[trigger] old(block).instructions@[k] {
            IR::ExtCall { id, .. } => order@.contains(id.0),
            _ => true,
        },
    ensures
        final(block).block_index == old(block).block_index,
        final(block).ending == old(block).ending,
        final(block).instructions@.len() == old(block).instructions@.len(),
        forall|k: int| 0 <= k < old(block).instructions@.len() ==> (#[trigger] final(block).instructions@[k]) == renumber_ir(
            old(block).instructions@[k],
            order@,
        ),
{
    let n = block.instructions.len();
    let mut k: usize = 0;
    while k < n
        invariant
            n == block.instructions@.len(),
            n == old(block).instructions@.len(),
            k <= n,
            order@.no_duplicates(),
            order@.len() < u32::MAX,
            block.block_index == old(block).block_index,
            block.ending == old(block).ending,
            forall|j: int| 0 <= j < k ==> (#[trigger] block.instructions@[j]) == renumber_ir(old(block).instructions@[j], order@),
            forall|j: int| k <= j < n ==> (#[trigger] block.instructions@[j]) == old(block).instructions@[j],
            forall|j: int| 0 <= j < n ==> match #[trigger] old(block).instructions@[j] {
                IR::ExtCall { id, .. } => order@.contains(id.0),
                _ => true,
            },
        decreases n - k,
    {
        let mut cur = IR::Noop;
        std::mem::swap(&mut cur, &mut block.instructions[k]);
        let next = renumber_one(cur, order);
        block.instructions.set(k, next);
        k = k + 1;
    }
}

fn renumber_function(f: &mut Function, order: &Vec<u32>)
    requires
        order@.no_duplicates(),
        order@.len() < u32::MAX,
        calls_listed(*old(f), order@),
    ensures
        renumbered_function(*old(f), *final(f), order@),
{
    let n = f.blocks.len();
    let mut b: usize = 0;
    while b < n
        invariant
            n == f.blocks@.len(),
            n == old(f).blocks@.len(),
            b <= n,
            order@.no_duplicates(),
            order@.len() < u32::MAX,
            calls_listed(*old(f), order@),
            f.identifier == old(f).identifier,
            f.function_index == old(f).function_index,
            f.argument_count == old(f).argument_count,
            f.variable_counter == old(f).variable_counter,
            f.stack_size == old(f).stack_size,
            f.entry == old(f).entry,
            forall|j: int| 0 <= j < b ==> {
                &&& (#[trigger] f.blocks@[j]).block_index == old(f).blocks@[j].block_index
                &&& f.blocks@[j].ending == old(f).blocks@[j].ending
                &&& f.blocks@[j].instructions@.len() == old(f).blocks@[j].instructions@.len()
                &&& forall|k: int| 0 <= k < old(f).blocks@[j].instructions@.len() ==> (#[trigger] f.blocks@[j].instructions@[k])
                    == renumber_ir(old(f).blocks@[j].instructions@[k], order@)
            },
            forall|j: int| b <= j < n ==> (#[trigger] f.blocks@[j]) == old(f).blocks@[j],
        decreases n - b,
    {
        let mut blk = Block { block_index: BlockIndex(0), instructions: Vec::new(), ending: BlockTerminator::Return };
        std::mem::swap(&mut blk, &mut f.blocks[b]);
        proof {
            assert(blk == old(f).blocks@[b as int]);
            assert forall|k: int| 0 <= k < blk.instructions@.len() implies match #[trigger] blk.instructions@[k] {
                IR::ExtCall { id, .. } => order@.contains(id.0),
                _ => true,
            } by {
                assert(blk.instructions@[k] == old(f).blocks@[b as int].instructions@[k]);
            }
        }
        renumber_block(&mut blk, order);
        f.blocks.set(b, blk);
        b = b + 1;
    }
}

/// The extern functions among `done` that are called (their number is in
/// `order`), with the given file.
pub open spec fn called_in_file(exts: Map<usize, ExternFunction>, done: Set<usize>, order: Seq<u32>, f: usize) -> bool {
    exists|k: usize| #[trigger] done.contains(k) && exts.contains_key(k) && order.contains(exts[k].function_index.0) && exts[k].file.0 == f
}

/// The functions called from file `f`, among `done`: their path and new number.
pub open spec fn file_entries(exts: Map<usize, ExternFunction>, done: Set<usize>, order: Seq<u32>, f: usize) -> Set<(usize, u32)> {
    Set::new(
        |e: (usize, u32)|
            exists|k: usize| #[trigger] done.contains(k) && exts.contains_key(k) && order.contains(exts[k].function_index.0) && exts[k].file.0 == f
                && exts[k].path.0 == e.0 && e.1 == order.index_of(exts[k].function_index.0),
    )
}

impl ConversionState {
    /// Numbers the extern functions the program calls densely, in the order
    /// their first calls are met (functions by symbol, their blocks and
    /// instructions in order); renumbers the calls and those extern
    /// functions accordingly; and gives, for each file, the functions called
    /// from it with their path and new number, and the highest new number
    /// (0 when none is called).
    pub fn take_out_externs(&mut self) -> (r: (BTreeMap<usize, BTreeSet<(usize, u32)>>, u32))
        requires
            forall|ks: Seq<usize>| ascending(ks) && ks.to_set() == old(self).functions@.dom() ==> first_seen(
                functions_ext_ids(old(self).functions@, ks),
            ).len() < u32::MAX,
        ensures
            forall|ks: Seq<usize>| ascending(ks) && ks.to_set() == old(self).functions@.dom() ==> externs_taken_out(
                *old(self),
                *final(self),
                r.0@.map_values(|v: BTreeSet<(usize, u32)>| v@),
                r.1,
                first_seen(functions_ext_ids(old(self).functions@, ks)),
            ),
    {
        let ghost s0 = *self;
        let keys = function_keys(&self.functions);
        proof {
            assert forall|i: int| 0 <= i < keys@.len() implies self.functions@.contains_key(#[trigger] keys@[i]) by {
                assert(keys@.to_set().contains(keys@[i]));
            }
        }
        let order = ext_order(&self.functions, &keys);
        let ghost fo = order@;
        let ghost all = functions_ext_ids(s0.functions@, keys@);
        proof {
            lemma_first_seen(all);
        }
        let n = keys.len();
        let mut i: usize = 0;
        while i < n
            invariant
                n == keys@.len(),
                i <= n,
                ascending(keys@),
                keys@.to_set() == s0.functions@.dom(),
                fo == first_seen(all),
                all == functions_ext_ids(s0.functions@, keys@),
                order@ == fo,
                fo.no_duplicates(),
                fo.len() < u32::MAX,
                forall|x: u32| fo.contains(x) <==> all.contains(x),
                self.functions@.dom() == s0.functions@.dom(),
                forall|j: int| 0 <= j < i ==> renumbered_function(s0.functions@[keys@[j]], #[trigger] self.functions@[keys@[j]], fo),
                forall|j: int| i <= j < n ==> #[trigger] self.functions@[keys@[j]] == s0.functions@[keys@[j]],
                self.extern_functions == s0.extern_functions,
                self.constants == s0.constants,
                self.function_counter == s0.function_counter,
                self.extern_counter == s0.extern_counter,
                self.symbol_table == s0.symbol_table,
            decreases n - i,
        {
            let key = keys[i];
            proof {
                assert(keys@.to_set().contains(key));
            }
            let ghost before = self.functions@;
            let mut f = self.functions.remove(&key).unwrap();
            proof {
                assert(f == s0.functions@[keys@[i as int]]);
                assert forall|b: int, k: int| 0 <= b < f.blocks@.len() && 0 <= k < f.blocks@[b].instructions@.len() implies match #[trigger] f.blocks@[b].instructions@[k] {
                    IR::ExtCall { id, .. } => fo.contains(id.0),
                    _ => true,
                } by {
                    lemma_ir_ext_contains(f.blocks@[b].instructions@, k);
                    match f.blocks@[b].instructions@[k] {
                        IR::ExtCall { id, .. } => {
                            lemma_blocks_ext_contains(f.blocks@, b, id.0);
                            lemma_functions_ext_contains(s0.functions@, keys@, i as int, id.0);
                        },
                        _ => {},
                    }
                }
            }
            renumber_function(&mut f, &order);
            self.functions.insert(key, f);
            proof {
                assert(self.functions@.dom() =~= s0.functions@.dom());
                assert forall|j: int| 0 <= j < i + 1 implies renumbered_function(s0.functions@[keys@[j]], #[trigger] self.functions@[keys@[j]], fo) by {
                    if j < i {
                        assert(keys@[j] < keys@[i as int]);
                        assert(self.functions@[keys@[j]] == before[keys@[j]]);
                    }
                }
                assert forall|j: int| i + 1 <= j < n implies #[trigger] self.functions@[keys@[j]] == s0.functions@[keys@[j]] by {
                    assert(keys@[i as int] < keys@[j]);
                    assert(self.functions@[keys@[j]] == before[keys@[j]]);
                }
            }
            i = i + 1;
        }
        let ghost e0 = self.extern_functions@;
        let ekeys = extern_keys(&self.extern_functions);
        let mut table: BTreeMap<usize, BTreeSet<(usize, u32)>> = BTreeMap::new();
        let mut max: u32 = 0;
        let m = ekeys.len();
        let mut j: usize = 0;
        let ghost mut done: Set<usize> = Set::empty();
        proof {
            assert forall|f: usize| !called_in_file(e0, done, fo, f) by {}
        }
        while j < m
            invariant
                m == ekeys@.len(),
                j <= m,
                ascending(ekeys@),
                ekeys@.to_set() == e0.dom(),
                e0 == s0.extern_functions@,
                order@ == fo,
                fo.no_duplicates(),
                fo.len() < u32::MAX,
                done == ekeys@.subrange(0, j as int).to_set(),
                self.extern_functions@.dom() == e0.dom(),
                forall|k: usize| #[trigger] e0.contains_key(k) ==> self.extern_functions@[k] == if done.contains(k) {
                    renumbered_extern(e0[k], fo)
                } else {
                    e0[k]
                },
                forall|f: usize| #[trigger] table@.contains_key(f) <==> called_in_file(e0, done, fo, f),
                forall|f: usize| #[trigger] table@.contains_key(f) ==> table@[f]@ == file_entries(e0, done, fo, f),
                forall|k: usize| #[trigger] done.contains(k) && e0.contains_key(k) && fo.contains(e0[k].function_index.0) ==> fo.index_of(
                    e0[k].function_index.0,
                ) <= max,
                max == 0 || exists|k: usize| #[trigger] done.contains(k) && e0.contains_key(k) && fo.contains(e0[k].function_index.0)
                    && fo.index_of(e0[k].function_index.0) == max,
                self.functions@.dom() == s0.functions@.dom(),
                forall|q: int| 0 <= q < n ==> renumbered_function(s0.functions@[keys@[q]], #[trigger] self.functions@[keys@[q]], fo),
                keys@.to_set() == s0.functions@.dom(),
                self.constants == s0.constants,
                self.function_counter == s0.function_counter,
                self.extern_counter == s0.extern_counter,
                self.symbol_table == s0.symbol_table,
            decreases m - j,
        {
            let key = ekeys[j];
            proof {
                assert(ekeys@.to_set().contains(key));
                assert(!done.contains(key)) by {
                    if done.contains(key) {
                        let w = choose|w: int| 0 <= w < j && #[trigger] ekeys@.subrange(0, j as int)[w] == key;
                        assert(ekeys@[w] < ekeys@[j as int]);
                    }
                }
            }
            let ghost before = self.extern_functions@;
            let ghost tbefore = table@;
            let mut e = self.extern_functions.remove(&key).unwrap();
            proof {
                assert(e == e0[key]);
            }
            match position(&order, e.function_index.0) {
                Some(p) => {
                    proof {
                        lemma_index_of_unique(fo, p as int, e.function_index.0);
                    }
                    let number = p as u32;
                    e.function_index = FunctionIndex(number);
                    if number > max {
                        max = number;
                    }
                    let file = e.file.0;
                    if table.contains_key(&file) {
                        let mut set = table.remove(&file).unwrap();
                        set.insert((e.path.0, number));
                        table.insert(file, set);
                    } else {
                        let mut set: BTreeSet<(usize, u32)> = BTreeSet::new();
                        set.insert((e.path.0, number));
                        table.insert(file, set);
                    }
                },
                None => {},
            }
            self.extern_functions.insert(key, e);
            let ghost done2 = done.insert(key);
            proof {
                assert(ekeys@.subrange(0, j as int + 1).to_set() =~= done2) by {
                    assert forall|x: usize| ekeys@.subrange(0, j as int + 1).to_set().contains(x) <==> done2.contains(x) by {
                        if ekeys@.subrange(0, j as int + 1).to_set().contains(x) {
                            let w = choose|w: int| 0 <= w < j + 1 && #[trigger] ekeys@.subrange(0, j as int + 1)[w] == x;
                            if w < j {
                                assert(ekeys@.subrange(0, j as int)[w] == x);
                            }
                        }
                        if done.contains(x) {
                            let w = choose|w: int| 0 <= w < j && #[trigger] ekeys@.subrange(0, j as int)[w] == x;
                            assert(ekeys@.subrange(0, j as int + 1)[w] == x);
                        }
                        if x == key {
                            assert(ekeys@.subrange(0, j as int + 1)[j as int] == x);
                        }
                    }
                }
                assert(self.extern_functions@.dom() =~= e0.dom());
                assert forall|k: usize| #[trigger] e0.contains_key(k) implies self.extern_functions@[k] == if done2.contains(k) {
                    renumbered_extern(e0[k], fo)
                } else {
                    e0[k]
                } by {
                    if k != key {
                        assert(self.extern_functions@[k] == before[k]);
                    }
                }
                let used = fo.contains(e0[key].function_index.0);
                assert forall|f: usize| #[trigger] table@.contains_key(f) <==> called_in_file(e0, done2, fo, f) by {
                    if called_in_file(e0, done2, fo, f) {
                        let k = choose|k: usize| #[trigger] done2.contains(k) && e0.contains_key(k) && fo.contains(e0[k].function_index.0) && e0[k].file.0 == f;
                        if k != key {
                            assert(called_in_file(e0, done, fo, f));
                        }
                    }
                    if called_in_file(e0, done, fo, f) {
                        let k = choose|k: usize| #[trigger] done.contains(k) && e0.contains_key(k) && fo.contains(e0[k].function_index.0) && e0[k].file.0 == f;
                        assert(done2.contains(k));
                    }
                    if used && f == e0[key].file.0 {
                        assert(done2.contains(key));
                    }
                }
                assert forall|f: usize| #[trigger] table@.contains_key(f) implies table@[f]@ == file_entries(e0, done2, fo, f) by {
                    let old_entries = file_entries(e0, done, fo, f);
                    let new_entries = file_entries(e0, done2, fo, f);
                    if used && f == e0[key].file.0 {
                        let item = (e0[key].path.0, fo.index_of(e0[key].function_index.0) as u32);
                        assert forall|x: (usize, u32)| new_entries.contains(x) <==> (if tbefore.contains_key(f) { old_entries } else { Set::empty() }).insert(item).contains(x) by {
                            if new_entries.contains(x) {
                                let k = choose|k: usize| #[trigger] done2.contains(k) && e0.contains_key(k) && fo.contains(e0[k].function_index.0)
                                    && e0[k].file.0 == f && e0[k].path.0 == x.0 && x.1 == fo.index_of(e0[k].function_index.0);
                                if k != key {
                                    assert(old_entries.contains(x));
                                    assert(called_in_file(e0, done, fo, f));
                                }
                            }
                            if old_entries.contains(x) && tbefore.contains_key(f) {
                                let k = choose|k: usize| #[trigger] done.contains(k) && e0.contains_key(k) && fo.contains(e0[k].function_index.0)
                                    && e0[k].file.0 == f && e0[k].path.0 == x.0 && x.1 == fo.index_of(e0[k].function_index.0);
                                assert(done2.contains(k));
                            }
                            if x == item {
                                assert(done2.contains(key));
                            }
                        }
                        assert(new_entries =~= (if tbefore.contains_key(f) { old_entries } else { Set::empty() }).insert(item));
                    } else {
                        assert(table@[f] == tbefore[f]);
                        assert forall|x: (usize, u32)| new_entries.contains(x) <==> old_entries.contains(x) by {
                            if new_entries.contains(x) {
                                let k = choose|k: usize| #[trigger] done2.contains(k) && e0.contains_key(k) && fo.contains(e0[k].function_index.0)
                                    && e0[k].file.0 == f && e0[k].path.0 == x.0 && x.1 == fo.index_of(e0[k].function_index.0);
                                assert(k != key);
                            }
                            if old_entries.contains(x) {
                                let k = choose|k: usize| #[trigger] done.contains(k) && e0.contains_key(k) && fo.contains(e0[k].function_index.0)
                                    && e0[k].file.0 == f && e0[k].path.0 == x.0 && x.1 == fo.index_of(e0[k].function_index.0);
                                assert(done2.contains(k));
                            }
                        }
                        assert(new_entries =~= old_entries);
                    }
                }
                assert forall|k: usize| #[trigger] done2.contains(k) && e0.contains_key(k) && fo.contains(e0[k].function_index.0) implies fo.index_of(
                    e0[k].function_index.0,
                ) <= max by {
                    if k != key {
                        assert(done.contains(k));
                    }
                }
                if max != 0 {
                    if used && max == fo.index_of(e0[key].function_index.0) {
                        assert(done2.contains(key));
                    } else {
                        let k = choose|k: usize| #[trigger] done.contains(k) && e0.contains_key(k) && fo.contains(e0[k].function_index.0)
                            && fo.index_of(e0[k].function_index.0) == max;
                        assert(done2.contains(k));
                    }
                }
                done = done2;
            }
            j = j + 1;
        }
        proof {
            assert(ekeys@.subrange(0, m as int) =~= ekeys@);
            assert forall|ks: Seq<usize>| ascending(ks) && ks.to_set() == s0.functions@.dom() implies externs_taken_out(
                s0,
                *self,
                table@.map_values(|v: BTreeSet<(usize, u32)>| v@),
                max,
                first_seen(functions_ext_ids(s0.functions@, ks)),
            ) by {
                lemma_ascending_unique(ks, keys@);
                assert forall|k: usize| #[trigger] s0.functions@.contains_key(k) implies renumbered_function(s0.functions@[k], self.functions@[k], fo) by {
                    assert(keys@.to_set().contains(k));
                    let q = choose|q: int| 0 <= q < keys@.len() && keys@[q] == k;
                    assert(renumbered_function(s0.functions@[keys@[q]], self.functions@[keys@[q]], fo));
                }
                assert forall|k: usize| #[trigger] s0.extern_functions@.contains_key(k) implies self.extern_functions@[k] == renumbered_extern(
                    s0.extern_functions@[k],
                    fo,
                ) by {
                    assert(ekeys@.to_set().contains(k));
                }
                let tv = table@.map_values(|v: BTreeSet<(usize, u32)>| v@);
                assert(tv.dom() =~= Set::new(|f: usize| exists|k: usize| #[trigger] s0.extern_functions@.contains_key(k)
                    && fo.contains(s0.extern_functions@[k].function_index.0) && s0.extern_functions@[k].file.0 == f)) by {
                    assert forall|f: usize| tv.dom().contains(f) <==> (exists|k: usize| #[trigger] s0.extern_functions@.contains_key(k)
                        && fo.contains(s0.extern_functions@[k].function_index.0) && s0.extern_functions@[k].file.0 == f) by {
                        if exists|k: usize| #[trigger] s0.extern_functions@.contains_key(k) && fo.contains(s0.extern_functions@[k].function_index.0)
                            && s0.extern_functions@[k].file.0 == f {
                            let k = choose|k: usize| #[trigger] s0.extern_functions@.contains_key(k) && fo.contains(s0.extern_functions@[k].function_index.0)
                                && s0.extern_functions@[k].file.0 == f;
                            assert(ekeys@.to_set().contains(k));
                            assert(called_in_file(e0, done, fo, f));
                        }
                    }
                }
                assert forall|f: usize| #[trigger] tv.contains_key(f) implies tv[f] == Set::new(|e: (usize, u32)| exists|k: usize| #[trigger] s0.extern_functions@.contains_key(k)
                    && fo.contains(s0.extern_functions@[k].function_index.0) && s0.extern_functions@[k].file.0 == f
                    && s0.extern_functions@[k].path.0 == e.0 && e.1 == fo.index_of(s0.extern_functions@[k].function_index.0)) by {
                    assert(table@.contains_key(f));
                    assert(tv[f] == table@[f]@);
                    assert forall|x: (usize, u32)| file_entries(e0, done, fo, f).contains(x) <==> (exists|k: usize| #[trigger] s0.extern_functions@.contains_key(k)
                        && fo.contains(s0.extern_functions@[k].function_index.0) && s0.extern_functions@[k].file.0 == f
                        && s0.extern_functions@[k].path.0 == x.0 && x.1 == fo.index_of(s0.extern_functions@[k].function_index.0)) by {
                        if exists|k: usize| #[trigger] s0.extern_functions@.contains_key(k) && fo.contains(s0.extern_functions@[k].function_index.0)
                            && s0.extern_functions@[k].file.0 == f && s0.extern_functions@[k].path.0 == x.0 && x.1 == fo.index_of(
                            s0.extern_functions@[k].function_index.0,
                        ) {
                            let k = choose|k: usize| #[trigger] s0.extern_functions@.contains_key(k) && fo.contains(s0.extern_functions@[k].function_index.0)
                                && s0.extern_functions@[k].file.0 == f && s0.extern_functions@[k].path.0 == x.0 && x.1 == fo.index_of(
                                s0.extern_functions@[k].function_index.0,
                            );
                            assert(ekeys@.to_set().contains(k));
                        }
                    }
                    assert(file_entries(e0, done, fo, f) =~= Set::new(|e: (usize, u32)| exists|k: usize| #[trigger] s0.extern_functions@.contains_key(k)
                        && fo.contains(s0.extern_functions@[k].function_index.0) && s0.extern_functions@[k].file.0 == f
                        && s0.extern_functions@[k].path.0 == e.0 && e.1 == fo.index_of(s0.extern_functions@[k].function_index.0)));
                }
                assert forall|k: usize| #[trigger] s0.extern_functions@.contains_key(k) && fo.contains(s0.extern_functions@[k].function_index.0) implies fo.index_of(
                    s0.extern_functions@[k].function_index.0,
                ) <= max by {
                    assert(ekeys@.to_set().contains(k));
                }
            }
        }
        (table, max)
    }
}

} // verus!
