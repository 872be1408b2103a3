use azurite::ast::Data;
use azurite::ast_to_ir::ConversionState;
use azurite::ir::{Block, BlockIndex, BlockTerminator, Function, FunctionIndex, Variable, IR};
use azurite::symbol_table::{SymbolIndex, SymbolTable};

fn block(index: u32, instructions: Vec<IR>, ending: BlockTerminator) -> Block {
    Block { block_index: BlockIndex(index), instructions, ending }
}

fn function(name: usize, index: u32, blocks: Vec<Block>) -> Function {
    Function {
        identifier: SymbolIndex(name),
        function_index: FunctionIndex(index),
        argument_count: 0,
        variable_counter: 4,
        stack_size: 4,
        blocks,
        entry: BlockIndex(0),
    }
}

fn call(dst: u32, id: u32) -> IR {
    IR::Call { dst: Variable(dst), id: FunctionIndex(id), args: vec![] }
}

fn program(functions: Vec<(usize, Function)>) -> ConversionState {
    let mut state = ConversionState::new(SymbolTable::new());
    for (k, f) in functions {
        state.functions.insert(k, f);
    }
    state
}

#[test]
fn uncalled_functions_are_dropped_and_the_rest_renumbered() {
    let mut state = program(vec![
        (1, function(1, 0, vec![block(0, vec![call(0, 5)], BlockTerminator::Return)])),
        (2, function(2, 5, vec![block(0, vec![call(1, 5)], BlockTerminator::Return)])),
        (3, function(3, 7, vec![block(0, vec![], BlockTerminator::Return)])),
    ]);
    let removed = state.prune_functions();
    assert!(removed);
    assert_eq!(state.functions.keys().copied().collect::<Vec<_>>(), vec![1, 2]);
    assert_eq!(state.functions[&1].function_index, FunctionIndex(0));
    assert_eq!(state.functions[&2].function_index, FunctionIndex(1));
    assert_eq!(state.functions[&1].blocks[0].instructions, vec![call(0, 1)]);
    assert_eq!(state.functions[&2].blocks[0].instructions, vec![call(1, 1)]);
}

#[test]
fn numbers_follow_the_first_calls() {
    let mut state = program(vec![
        (1, function(1, 0, vec![block(0, vec![call(0, 9), call(1, 4), call(2, 9)], BlockTerminator::Return)])),
        (2, function(2, 4, vec![block(0, vec![], BlockTerminator::Return)])),
        (3, function(3, 9, vec![block(0, vec![], BlockTerminator::Return)])),
    ]);
    let removed = state.prune_functions();
    assert!(!removed);
    assert_eq!(state.functions[&3].function_index, FunctionIndex(1));
    assert_eq!(state.functions[&2].function_index, FunctionIndex(2));
    assert_eq!(state.functions[&1].blocks[0].instructions, vec![call(0, 1), call(1, 2), call(2, 1)]);
}

#[test]
fn program_optimization_runs_until_nothing_changes() {
    let mut state = program(vec![
        (
            1,
            function(1, 0, vec![
                block(0, vec![call(0, 3)], BlockTerminator::Goto(BlockIndex(1))),
                block(1, vec![IR::Copy { dst: Variable(2), src: Variable(1) }], BlockTerminator::Return),
            ]),
        ),
        (2, function(2, 3, vec![block(0, vec![], BlockTerminator::Return)])),
        (3, function(3, 8, vec![block(0, vec![], BlockTerminator::Return)])),
    ]);
    state.optimize();
    assert_eq!(state.functions.keys().copied().collect::<Vec<_>>(), vec![1, 2]);
    assert_eq!(state.functions[&2].function_index, FunctionIndex(1));
    // The two blocks are merged, the emptied one dropped, and the store to
    // a register nobody reads removed.
    assert_eq!(state.functions[&1].blocks, vec![block(0, vec![call(0, 1)], BlockTerminator::Return)]);
}

#[test]
fn a_function_called_only_from_a_dropped_block_stays() {
    let mut state = program(vec![
        (
            1,
            function(1, 0, vec![
                block(0, vec![], BlockTerminator::Return),
                block(1, vec![call(0, 3)], BlockTerminator::Return),
            ]),
        ),
        (2, function(2, 3, vec![block(0, vec![], BlockTerminator::Return)])),
    ]);
    state.optimize();
    // Dropping an unreachable block is no change that asks for another
    // round, so the function only that block called stays.
    assert_eq!(state.functions.keys().copied().collect::<Vec<_>>(), vec![1, 2]);
    assert_eq!(state.functions[&1].blocks, vec![block(0, vec![], BlockTerminator::Return)]);
    assert_eq!(state.functions[&2].function_index, FunctionIndex(1));
}

fn load(dst: u32, data: u32) -> IR {
    IR::Load { dst: Variable(dst), data }
}

#[test]
fn constants_are_renumbered_in_the_order_they_are_loaded() {

    let mut state = program(vec![(1, function(1, 0, vec![block(0, vec![load(0, 2), load(0, 0)], BlockTerminator::Return)]))]);
    state.constants = vec![Data::I64(10), Data::I64(11), Data::I64(12)];
    state.optimize();
    assert_eq!(state.functions[&1].blocks[0].instructions, vec![load(0, 0), load(0, 1)]);
    assert_eq!(state.constants, vec![Data::I64(12), Data::I64(10)]);
}

#[test]
fn a_constant_loaded_twice_is_filed_under_its_first_new_number() {

    let mut state = program(vec![(1, function(1, 0, vec![block(0, vec![load(0, 1), load(0, 1)], BlockTerminator::Return)]))]);
    state.constants = vec![Data::I64(10), Data::I64(11)];
    state.optimize();
    // The second load finds constant 1 filed under 0 and files the
    // constant numbered 0 under 1.
    assert_eq!(state.functions[&1].blocks[0].instructions, vec![load(0, 0), load(0, 1)]);
    assert_eq!(state.constants, vec![Data::I64(11), Data::I64(10)]);
}

#[test]
fn a_value_copied_to_the_return_register_is_loaded_there() {
    let mut f = function(1, 0, vec![block(
        0,
        vec![load(7, 0), IR::Copy { dst: Variable(0), src: Variable(7) }],
        BlockTerminator::Return,
    )]);
    f.argument_count = 1;
    let mut state = program(vec![(1, f)]);
    state.constants = vec![Data::I64(5)];
    state.optimize();
    // The copy is folded into the load, so no other register is left.
    assert_eq!(state.functions[&1].blocks[0].instructions, vec![load(0, 0)]);
    assert_eq!(state.constants, vec![Data::I64(5)]);
}

#[test]
fn renaming_keeps_the_argument_registers() {
    let mut f = function(1, 0, vec![block(
        0,
        vec![IR::Add { dst: Variable(9), left: Variable(2), right: Variable(1) }, IR::Copy { dst: Variable(0), src: Variable(9) }],
        BlockTerminator::Return,
    )]);
    f.argument_count = 2;
    f.remove_unused_registers();
    assert_eq!(
        f.blocks[0].instructions,
        vec![IR::Add { dst: Variable(3), left: Variable(2), right: Variable(1) }, IR::Copy { dst: Variable(0), src: Variable(3) }]
    );
}
