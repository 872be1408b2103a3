use azurite::ast::{Data, Declaration, Expression, Instruction, InstructionKind, SourcedData, Statement, BinaryOperator};
use azurite::ast_to_ir::{ConversionState, ExternFunction};
use azurite::ir::{Block, BlockIndex, BlockTerminator, Function, FunctionIndex, IR, Variable};
use azurite::symbol_table::{SymbolIndex, SymbolTable};
use azurite::types::{DataType, SourceRange, SourcedDataType};

fn at() -> SourceRange {
    SourceRange::new(0, 0)
}

fn expr(e: Expression) -> Instruction {
    Instruction { instruction_kind: InstructionKind::Expression(e), source_range: at() }
}

fn stmt(s: Statement) -> Instruction {
    Instruction { instruction_kind: InstructionKind::Statement(s), source_range: at() }
}

fn data(d: Data) -> Instruction {
    expr(Expression::Data(SourcedData { source_range: at(), data: d }))
}

fn v(n: u32) -> Variable {
    Variable(n)
}

fn lower(body: Vec<Instruction>) -> (Function, ConversionState, Variable) {
    let mut state = ConversionState::new(SymbolTable::new());
    let mut f = Function::new(SymbolIndex(0), FunctionIndex(0), 0);
    let r = f.generate(&mut state, body);
    (f, state, r)
}

#[test]
fn constants_are_loaded_in_order() {
    let body = vec![expr(Expression::BinaryOp {
        operator: BinaryOperator::Add,
        left: Box::new(data(Data::I64(2))),
        right: Box::new(data(Data::I64(40))),
    })];
    let (f, state, r) = lower(body);
    assert_eq!(r, v(0));
    assert_eq!(state.constants, vec![Data::I64(2), Data::I64(40)]);
    assert_eq!(
        f.blocks,
        vec![Block {
            block_index: BlockIndex(0),
            instructions: vec![
                IR::Load { dst: v(1), data: 0 },
                IR::Load { dst: v(2), data: 1 },
                IR::Add { dst: v(3), left: v(1), right: v(2) },
                IR::Copy { dst: v(0), src: v(3) },
            ],
            ending: BlockTerminator::Return,
        }]
    );
    assert_eq!(f.stack_size, 4);
    assert_eq!(f.variable_counter, 1);
}

#[test]
fn the_unit_value_is_no_constant() {
    let (f, state, _) = lower(vec![data(Data::Empty)]);
    assert!(state.constants.is_empty());
    assert_eq!(f.blocks[0].instructions, vec![IR::Unit { dst: v(1) }, IR::Copy { dst: v(0), src: v(1) }]);
}

#[test]
fn a_declared_variable_is_read_back() {
    let x = SymbolIndex(3);
    let body = vec![
        stmt(Statement::DeclareVar { identifier: x, type_hint: None, data: Box::new(data(Data::I64(5))) }),
        expr(Expression::Identifier(x)),
    ];
    let (f, state, _) = lower(body);
    assert_eq!(state.constants, vec![Data::I64(5)]);
    assert_eq!(
        f.blocks,
        vec![
            Block {
                block_index: BlockIndex(1),
                instructions: vec![IR::Load { dst: v(2), data: 0 }, IR::Copy { dst: v(1), src: v(2) }],
                ending: BlockTerminator::Goto(BlockIndex(2)),
            },
            Block { block_index: BlockIndex(0), instructions: vec![], ending: BlockTerminator::Goto(BlockIndex(1)) },
            Block {
                block_index: BlockIndex(2),
                instructions: vec![IR::Noop, IR::Copy { dst: v(0), src: v(1) }],
                ending: BlockTerminator::Return,
            },
        ]
    );
    assert_eq!(f.stack_size, 3);
}

#[test]
fn an_if_with_an_else_switches_and_joins() {
    let body = vec![expr(Expression::IfExpression {
        body: vec![data(Data::I64(1))],
        condition: Box::new(data(Data::Bool(true))),
        else_part: Some(Box::new(data(Data::I64(2)))),
    })];
    let (f, state, _) = lower(body);
    assert_eq!(state.constants, vec![Data::Bool(true), Data::I64(1), Data::I64(2)]);
    assert_eq!(
        f.blocks,
        vec![
            Block {
                block_index: BlockIndex(1),
                instructions: vec![IR::Load { dst: v(3), data: 1 }, IR::Copy { dst: v(2), src: v(3) }],
                ending: BlockTerminator::Goto(BlockIndex(2)),
            },
            Block {
                block_index: BlockIndex(3),
                instructions: vec![
                    IR::Load { dst: v(4), data: 2 },
                    IR::Copy { dst: v(3), src: v(4) },
                    IR::Copy { dst: v(2), src: v(3) },
                ],
                ending: BlockTerminator::Goto(BlockIndex(2)),
            },
            Block {
                block_index: BlockIndex(0),
                instructions: vec![IR::Load { dst: v(1), data: 0 }],
                ending: BlockTerminator::SwitchBool { cond: v(1), op1: BlockIndex(1), op2: BlockIndex(3) },
            },
            Block {
                block_index: BlockIndex(2),
                instructions: vec![IR::Copy { dst: v(0), src: v(2) }],
                ending: BlockTerminator::Return,
            },
        ]
    );
    assert_eq!(f.stack_size, 5);
}

#[test]
fn a_break_leaves_the_loop() {
    let body = vec![stmt(Statement::Loop { body: vec![stmt(Statement::Break)] })];
    let (f, state, _) = lower(body);
    assert!(state.constants.is_empty());
    assert_eq!(
        f.blocks,
        vec![
            Block { block_index: BlockIndex(1), instructions: vec![], ending: BlockTerminator::Goto(BlockIndex(3)) },
            Block {
                block_index: BlockIndex(2),
                instructions: vec![IR::Copy { dst: v(1), src: v(1) }],
                ending: BlockTerminator::Goto(BlockIndex(1)),
            },
            Block { block_index: BlockIndex(0), instructions: vec![], ending: BlockTerminator::Goto(BlockIndex(1)) },
            Block {
                block_index: BlockIndex(3),
                instructions: vec![IR::Copy { dst: v(0), src: v(0) }],
                ending: BlockTerminator::Return,
            },
        ]
    );
}

#[test]
fn a_break_outside_a_loop_waits() {
    let (f, _, _) = lower(vec![stmt(Statement::Break)]);
    assert_eq!(f.blocks[0].ending, BlockTerminator::Goto(BlockIndex(u32::MAX)));
    assert_eq!(f.blocks[0].block_index, BlockIndex(0));
}

#[test]
fn lowering_stops_at_a_return() {
    let body = vec![stmt(Statement::Return(Box::new(data(Data::I64(3))))), data(Data::I64(4))];
    let (f, state, _) = lower(body);
    assert_eq!(state.constants, vec![Data::I64(3)]);
    assert_eq!(f.blocks[0].instructions, vec![IR::Load { dst: v(1), data: 0 }, IR::Copy { dst: v(0), src: v(1) }]);
}

#[test]
fn a_declared_function_is_lowered_and_called() {
    let name = SymbolIndex(5);
    let argument = SymbolIndex(6);
    let int = SourcedDataType::new(at(), DataType::I64);
    let declaration = Instruction {
        instruction_kind: InstructionKind::Declaration(Declaration::FunctionDeclaration {
            name,
            arguments: vec![(argument, SourcedDataType::new(at(), DataType::I64))],
            return_type: int,
            body: vec![expr(Expression::Identifier(argument))],
            generics: vec![],
            source_range_declaration: at(),
        }),
        source_range: at(),
    };
    let call = expr(Expression::FunctionCall {
        identifier: name,
        arguments: vec![data(Data::I64(7))],
        generics: vec![],
        created_by_accessing: false,
    });
    let (f, state, _) = lower(vec![declaration, call]);
    assert_eq!(state.function_counter, 1);
    let g = state.find_function(name);
    assert_eq!(g.function_index, FunctionIndex(0));
    assert_eq!(g.argument_count, 1);
    assert_eq!(g.entry, BlockIndex(0));
    assert_eq!(
        g.blocks,
        vec![Block {
            block_index: BlockIndex(0),
            instructions: vec![IR::Copy { dst: v(0), src: v(1) }],
            ending: BlockTerminator::Return,
        }]
    );
    assert_eq!(g.stack_size, 2);
    assert_eq!(
        f.blocks[0].instructions,
        vec![
            IR::Load { dst: v(2), data: 0 },
            IR::Call { dst: v(1), id: FunctionIndex(0), args: vec![v(2)] },
            IR::Copy { dst: v(0), src: v(1) },
        ]
    );
}

#[test]
fn a_program_is_lowered_file_by_file_in_symbol_order() {
    let mut state = ConversionState::new(SymbolTable::new());
    let files = vec![(SymbolIndex(5), vec![data(Data::I64(1))]), (SymbolIndex(3), vec![data(Data::I64(2))])];
    state.generate(SymbolIndex(3), files, vec![]);
    assert_eq!(state.constants, vec![Data::I64(2), Data::I64(1)]);
    assert_eq!(state.function_counter, 3);
    assert_eq!(state.functions.len(), 3);
    assert_eq!(state.find_function(SymbolIndex(3)).function_index, FunctionIndex(1));
    assert_eq!(state.find_function(SymbolIndex(5)).function_index, FunctionIndex(2));
    // A fresh symbol table holds two entries, so the start function's name is the third.
    let init = state.find_function(SymbolIndex(2));
    assert_eq!(init.function_index, FunctionIndex(0));
    assert_eq!(
        init.blocks,
        vec![Block {
            block_index: BlockIndex(0),
            instructions: vec![IR::Call { dst: v(0), id: FunctionIndex(1), args: vec![] }],
            ending: BlockTerminator::Return,
        }]
    );
    assert_eq!(
        state.find_function(SymbolIndex(5)).blocks[0].instructions,
        vec![IR::Load { dst: v(1), data: 1 }, IR::Copy { dst: v(0), src: v(1) }]
    );
}

#[test]
fn sorting_puts_blocks_in_index_order() {
    let body = vec![expr(Expression::IfExpression {
        body: vec![data(Data::I64(1))],
        condition: Box::new(data(Data::Bool(true))),
        else_part: Some(Box::new(data(Data::I64(2)))),
    })];
    let (f, _, _) = lower(body);
    let mut state = ConversionState::new(SymbolTable::new());
    state.functions.insert(9, f);
    state.sort();
    let indices: Vec<u32> = state.functions[&9].blocks.iter().map(|b| b.block_index.0).collect();
    assert_eq!(indices, vec![0, 1, 2, 3]);
    assert_eq!(state.functions[&9].blocks[0].ending, BlockTerminator::SwitchBool { cond: v(1), op1: BlockIndex(1), op2: BlockIndex(3) });
}

#[test]
fn lowered_loops_go_through_the_optimizer() {
    let body = vec![stmt(Statement::Loop { body: vec![stmt(Statement::Break)] }), data(Data::I64(3))];
    let (mut f, state, _) = lower(body);
    assert_eq!(state.constants, vec![Data::I64(3)]);
    f.optimize(false);
    // Every terminator still names a block of the function.
    for b in &f.blocks {
        match b.ending {
            BlockTerminator::Goto(t) => assert!(f.blocks.iter().any(|x| x.block_index == t)),
            BlockTerminator::SwitchBool { op1, op2, .. } => {
                assert!(f.blocks.iter().any(|x| x.block_index == op1));
                assert!(f.blocks.iter().any(|x| x.block_index == op2));
            }
            BlockTerminator::Return => {}
        }
    }
}

fn ecall(dst: u32, id: u32) -> IR {
    IR::ExtCall { dst: v(dst), id: FunctionIndex(id), args: vec![] }
}

fn with_calls(calls: Vec<IR>) -> Function {
    let mut f = Function::new(SymbolIndex(0), FunctionIndex(0), 0);
    f.blocks.push(Block { block_index: BlockIndex(0), instructions: calls, ending: BlockTerminator::Return });
    f
}

#[test]
fn externs_are_numbered_by_first_call() {
    let mut state = ConversionState::new(SymbolTable::new());
    state.functions.insert(1, with_calls(vec![ecall(0, 7), ecall(1, 4), ecall(2, 7)]));
    state.functions.insert(2, with_calls(vec![ecall(0, 9)]));
    let e = |id: usize, fi: u32, file: usize, path: usize| ExternFunction {
        identifier: SymbolIndex(id),
        function_index: FunctionIndex(fi),
        file: SymbolIndex(file),
        path: SymbolIndex(path),
    };
    state.extern_functions.insert(10, e(10, 7, 50, 60));
    state.extern_functions.insert(11, e(11, 4, 50, 61));
    state.extern_functions.insert(12, e(12, 9, 51, 62));
    state.extern_functions.insert(13, e(13, 5, 52, 63));
    let (table, max) = state.take_out_externs();
    assert_eq!(max, 2);
    assert_eq!(state.functions[&1].blocks[0].instructions, vec![ecall(0, 0), ecall(1, 1), ecall(2, 0)]);
    assert_eq!(state.functions[&2].blocks[0].instructions, vec![ecall(0, 2)]);
    assert_eq!(state.extern_functions[&10].function_index, FunctionIndex(0));
    assert_eq!(state.extern_functions[&11].function_index, FunctionIndex(1));
    assert_eq!(state.extern_functions[&12].function_index, FunctionIndex(2));
    assert_eq!(state.extern_functions[&13].function_index, FunctionIndex(5));
    assert_eq!(table.len(), 2);
    assert_eq!(table[&50].iter().copied().collect::<Vec<_>>(), vec![(60, 0), (61, 1)]);
    assert_eq!(table[&51].iter().copied().collect::<Vec<_>>(), vec![(62, 2)]);
}

#[test]
fn no_extern_call_gives_an_empty_table() {
    let mut state = ConversionState::new(SymbolTable::new());
    state.functions.insert(1, with_calls(vec![IR::Noop]));
    let (table, max) = state.take_out_externs();
    assert!(table.is_empty());
    assert_eq!(max, 0);
}
