use azurite::ir::{Block, BlockIndex, BlockTerminator, Function, FunctionIndex, Variable, IR};
use azurite::register_alloc::is_register_used_later;
use azurite::symbol_table::SymbolIndex;

fn block(index: u32, instructions: Vec<IR>, ending: BlockTerminator) -> Block {
    Block { block_index: BlockIndex(index), instructions, ending }
}

fn function(blocks: Vec<Block>) -> Function {
    Function {
        identifier: SymbolIndex(0),
        function_index: FunctionIndex(1),
        argument_count: 0,
        variable_counter: 4,
        stack_size: 4,
        blocks,
        entry: BlockIndex(0),
    }
}

fn v(n: u32) -> Variable {
    Variable(n)
}

#[test]
fn unreachable_blocks_are_dropped() {
    let mut f = function(vec![
        block(0, vec![IR::Unit { dst: v(1) }], BlockTerminator::Goto(BlockIndex(2))),
        block(1, vec![IR::Unit { dst: v(2) }], BlockTerminator::Return),
        block(2, vec![IR::Unit { dst: v(3) }], BlockTerminator::Return),
    ]);
    let changed = f.optimize(false);
    assert!(!changed);
    assert_eq!(
        f.blocks,
        vec![
            block(0, vec![IR::Unit { dst: v(1) }], BlockTerminator::Goto(BlockIndex(1))),
            block(1, vec![IR::Unit { dst: v(3) }], BlockTerminator::Return),
        ]
    );
    assert_eq!(f.entry, BlockIndex(0));
}

#[test]
fn a_block_jumped_to_once_is_merged() {
    let mut f = function(vec![
        block(0, vec![IR::Unit { dst: v(1) }], BlockTerminator::Goto(BlockIndex(2))),
        block(2, vec![IR::Unit { dst: v(3) }], BlockTerminator::Return),
    ]);
    let changed = f.optimize(true);
    assert!(changed);
    assert_eq!(
        f.blocks,
        vec![
            block(0, vec![IR::Unit { dst: v(1) }, IR::Unit { dst: v(3) }], BlockTerminator::Return),
            block(1, vec![], BlockTerminator::Return),
        ]
    );
    // The emptied block is unreachable now and goes on the next run.
    let changed = f.optimize(true);
    assert!(!changed);
    assert_eq!(f.blocks, vec![block(0, vec![IR::Unit { dst: v(1) }, IR::Unit { dst: v(3) }], BlockTerminator::Return)]);
}

#[test]
fn a_block_jumped_to_twice_stays() {
    let blocks = vec![
        block(0, vec![], BlockTerminator::SwitchBool { cond: v(1), op1: BlockIndex(1), op2: BlockIndex(2) }),
        block(1, vec![], BlockTerminator::Goto(BlockIndex(3))),
        block(2, vec![], BlockTerminator::Goto(BlockIndex(3))),
        block(3, vec![IR::Unit { dst: v(0) }], BlockTerminator::Return),
    ];
    let mut f = function(blocks);
    let changed = f.optimize(true);
    assert!(!changed);
    // The search looks at the second branch first.
    assert_eq!(
        f.blocks,
        vec![
            block(0, vec![], BlockTerminator::SwitchBool { cond: v(1), op1: BlockIndex(3), op2: BlockIndex(1) }),
            block(1, vec![], BlockTerminator::Goto(BlockIndex(2))),
            block(2, vec![IR::Unit { dst: v(0) }], BlockTerminator::Return),
            block(3, vec![], BlockTerminator::Goto(BlockIndex(2))),
        ]
    );
}

#[test]
fn copies_fold_into_the_instruction_before() {
    let mut f = function(vec![block(
        0,
        vec![
            IR::Add { dst: v(5), left: v(1), right: v(2) },
            IR::Copy { dst: v(0), src: v(5) },
            IR::Load { dst: v(6), data: 3 },
            IR::Copy { dst: v(7), src: v(6) },
            IR::Copy { dst: v(8), src: v(7) },
        ],
        BlockTerminator::Return,
    )]);
    f.optimize(false);
    assert_eq!(
        f.blocks[0].instructions,
        vec![IR::Add { dst: v(0), left: v(1), right: v(2) }, IR::Load { dst: v(8), data: 3 }]
    );
}

#[test]
fn a_copy_after_a_swap_stays() {
    let instructions = vec![IR::Swap { v1: v(1), v2: v(2) }, IR::Copy { dst: v(3), src: v(1) }];
    let mut f = function(vec![block(0, instructions.clone(), BlockTerminator::Return)]);
    f.optimize(false);
    assert_eq!(f.blocks[0].instructions, instructions);
}

#[test]
fn moves_to_the_same_register_are_dropped() {
    let mut f = function(vec![block(
        0,
        vec![
            IR::Copy { dst: v(3), src: v(3) },
            IR::Swap { v1: v(1), v2: v(1) },
            IR::Unit { dst: v(2) },
            IR::Swap { v1: v(1), v2: v(2) },
        ],
        BlockTerminator::Return,
    )]);
    f.optimize(false);
    assert_eq!(f.blocks[0].instructions, vec![IR::Unit { dst: v(2) }, IR::Swap { v1: v(1), v2: v(2) }]);
}

#[test]
fn loops_survive_optimization() {
    let mut f = function(vec![
        block(0, vec![], BlockTerminator::Goto(BlockIndex(7))),
        block(7, vec![IR::Unit { dst: v(1) }], BlockTerminator::SwitchBool { cond: v(1), op1: BlockIndex(7), op2: BlockIndex(9) }),
        block(9, vec![], BlockTerminator::Return),
    ]);
    // The loop's head jumps to itself, so the entry's jump to it is not the only one.
    assert!(!f.optimize(true));
    assert_eq!(
        f.blocks,
        vec![
            block(0, vec![], BlockTerminator::Goto(BlockIndex(1))),
            block(1, vec![IR::Unit { dst: v(1) }], BlockTerminator::SwitchBool { cond: v(1), op1: BlockIndex(1), op2: BlockIndex(2) }),
            block(2, vec![], BlockTerminator::Return),
        ]
    );
}

#[test]
fn dead_stores_are_removed() {
    let mut f = function(vec![block(
        0,
        vec![
            IR::Load { dst: v(1), data: 0 },
            IR::Load { dst: v(2), data: 1 },
            IR::Add { dst: v(0), left: v(1), right: v(2) },
            IR::Load { dst: v(3), data: 2 },
            IR::Unit { dst: v(5) },
            IR::Swap { v1: v(6), v2: v(7) },
        ],
        BlockTerminator::Return,
    )]);
    f.register_alloc();
    // A swap reads both its registers, so the block reads them and it stays.
    assert_eq!(
        f.blocks[0].instructions,
        vec![
            IR::Load { dst: v(1), data: 0 },
            IR::Load { dst: v(2), data: 1 },
            IR::Add { dst: v(0), left: v(1), right: v(2) },
            IR::Unit { dst: v(5) },
            IR::Swap { v1: v(6), v2: v(7) },
        ]
    );
}

#[test]
fn a_store_read_in_a_later_block_stays() {
    let blocks = vec![
        block(0, vec![IR::Load { dst: v(4), data: 0 }, IR::Load { dst: v(6), data: 1 }], BlockTerminator::Goto(BlockIndex(1))),
        block(1, vec![IR::Copy { dst: v(0), src: v(4) }], BlockTerminator::Return),
    ];
    let mut f = function(blocks);
    let table = f.generate_block_map();
    assert_eq!(table.len(), 2);
    assert_eq!(table[&0], (vec![], BlockTerminator::Goto(BlockIndex(1))));
    assert_eq!(table[&1], (vec![v(4)], BlockTerminator::Return));
    f.register_alloc();
    assert_eq!(
        f.blocks,
        vec![
            block(0, vec![IR::Load { dst: v(4), data: 0 }], BlockTerminator::Goto(BlockIndex(1))),
            block(1, vec![IR::Copy { dst: v(0), src: v(4) }], BlockTerminator::Return),
        ]
    );
}

#[test]
fn register_use_queries() {
    let mut table = std::collections::HashMap::new();
    table.insert(0u32, (vec![v(2)], BlockTerminator::Return));
    table.insert(1u32, (vec![v(2), v(3)], BlockTerminator::Goto(BlockIndex(0))));
    let instructions = [IR::Copy { dst: v(1), src: v(7) }];
    assert!(is_register_used_later(v(0), &BlockTerminator::Return, &instructions, &table));
    assert!(is_register_used_later(v(7), &BlockTerminator::Return, &instructions, &table));
    assert!(!is_register_used_later(v(3), &BlockTerminator::Return, &instructions, &table));
    assert!(is_register_used_later(v(3), &BlockTerminator::Goto(BlockIndex(1)), &instructions, &table));
    let switch = BlockTerminator::SwitchBool { cond: v(9), op1: BlockIndex(0), op2: BlockIndex(1) };
    assert!(is_register_used_later(v(9), &switch, &instructions, &table));
    assert!(is_register_used_later(v(3), &switch, &instructions, &table));
    assert!(!is_register_used_later(v(8), &switch, &instructions, &table));
}

#[test]
fn block_ir_appends() {
    let mut b = block(3, vec![IR::Noop], BlockTerminator::Return);
    b.ir(IR::Unit { dst: v(1) });
    assert_eq!(b, block(3, vec![IR::Noop, IR::Unit { dst: v(1) }], BlockTerminator::Return));
}

#[test]
fn a_later_block_with_the_same_number_replaces_the_earlier_row() {
    let blocks = vec![
        block(0, vec![IR::Copy { dst: v(1), src: v(2) }], BlockTerminator::Return),
        block(0, vec![IR::Copy { dst: v(3), src: v(5) }], BlockTerminator::Goto(BlockIndex(0))),
    ];
    let f = function(blocks);
    let table = f.generate_block_map();
    assert_eq!(table.len(), 1);
    assert_eq!(table[&0], (vec![v(2), v(5)], BlockTerminator::Goto(BlockIndex(0))));
}
