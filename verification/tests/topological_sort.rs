use ante_mir::mir::definition::{Block, Definition};
use ante_mir::mir::instruction::TerminatorInstruction;
use ante_mir::mir::types::Type;
use ante_mir::mir::values::{BlockId, DefinitionId, Value};
use std::sync::Arc;

/// Create an empty function for testing
fn make_function() -> Definition {
    Definition::new(Arc::new(String::new()), DefinitionId(0), 0, Type::error())
}

fn push_block(function: &mut Definition) -> BlockId {
    function.blocks.push(Block::new(Vec::new()));
    BlockId((function.blocks.len() - 1) as u32)
}

fn set_terminator(function: &mut Definition, block: BlockId, terminator: TerminatorInstruction) {
    function.blocks[block.0 as usize].terminator = Some(terminator);
}

#[test]
fn topological_sort_if_else() {
    // b0(v0):
    //   if false then b1 else b2 end b3
    // b1():
    //   jmp b3
    // b2():
    //   jmp b3()
    // b3():
    //   return
    let mut function = make_function();

    let b0 = BlockId::entry_block();
    let b1 = push_block(&mut function);
    let b2 = push_block(&mut function);
    let b3 = push_block(&mut function);

    set_terminator(
        &mut function,
        b0,
        TerminatorInstruction::If { condition: Value::Bool(false), then: (b1, None), else_: (b2, None), end: b3 },
    );
    set_terminator(&mut function, b1, TerminatorInstruction::jmp_no_args(b3));
    set_terminator(&mut function, b2, TerminatorInstruction::jmp_no_args(b3));
    set_terminator(&mut function, b3, TerminatorInstruction::Return(Value::Unit));

    let order = function.topological_sort();
    assert_eq!(order, vec![b0, b1, b2, b3]);
}

#[test]
fn topological_sort_if() {
    // b0(v0):
    //   if false then b1 else b2 end b2
    // b1():
    //   jmp b2
    // b2():
    //   return
    let mut function = make_function();

    let b0 = BlockId::entry_block();
    let b1 = push_block(&mut function);
    let b2 = push_block(&mut function);

    set_terminator(
        &mut function,
        b0,
        TerminatorInstruction::If { condition: Value::Bool(false), then: (b1, None), else_: (b2, None), end: b2 },
    );
    set_terminator(&mut function, b1, TerminatorInstruction::jmp_no_args(b2));
    set_terminator(&mut function, b2, TerminatorInstruction::Return(Value::Unit));

    let order = function.topological_sort();
    assert_eq!(order, vec![b0, b1, b2]);
}

#[test]
fn topological_sort_nested_if_else() {
    // b0(v0):
    //   if false then b1 else b2 end b3
    // b1():
    //   if false then b4 else b5 end b6
    // b2():
    //   if false then b7 else b8 end b9
    // b3():
    //   return
    // b4():
    //   jmp b6()
    // b5():
    //   jmp b6()
    // b6():
    //   jmp b3()
    // b7():
    //   jmp b9()
    // b8():
    //   jmp b9()
    // b9():
    //   jmp b3()
    let mut function = make_function();

    let b0 = BlockId::entry_block();
    let b1 = push_block(&mut function);
    let b2 = push_block(&mut function);
    let b3 = push_block(&mut function);
    let b4 = push_block(&mut function);
    let b5 = push_block(&mut function);
    let b6 = push_block(&mut function);
    let b7 = push_block(&mut function);
    let b8 = push_block(&mut function);
    let b9 = push_block(&mut function);

    set_terminator(
        &mut function,
        b0,
        TerminatorInstruction::If { condition: Value::Bool(false), then: (b1, None), else_: (b2, None), end: b3 },
    );
    set_terminator(
        &mut function,
        b1,
        TerminatorInstruction::If { condition: Value::Bool(false), then: (b4, None), else_: (b5, None), end: b6 },
    );
    set_terminator(
        &mut function,
        b2,
        TerminatorInstruction::If { condition: Value::Bool(false), then: (b7, None), else_: (b8, None), end: b9 },
    );
    set_terminator(&mut function, b3, TerminatorInstruction::Return(Value::Unit));
    set_terminator(&mut function, b4, TerminatorInstruction::jmp_no_args(b6));
    set_terminator(&mut function, b5, TerminatorInstruction::jmp_no_args(b6));
    set_terminator(&mut function, b6, TerminatorInstruction::jmp_no_args(b3));
    set_terminator(&mut function, b7, TerminatorInstruction::jmp_no_args(b9));
    set_terminator(&mut function, b8, TerminatorInstruction::jmp_no_args(b9));
    set_terminator(&mut function, b9, TerminatorInstruction::jmp_no_args(b3));

    let order = function.topological_sort();
    assert_eq!(order, vec![b0, b1, b4, b5, b6, b2, b7, b8, b9, b3]);
}

#[test]
fn topological_sort_switch() {
    // b0(v0):
    //   switch ()
    //   | 0 -> b1
    //   | 1 -> b2
    //   | 2 -> b3
    //   | _ -> b4
    //   end b5
    // b1():
    //   jmp b5
    // b2():
    //   jmp b5
    // b3():
    //   jmp b6   // b3 has an extra block
    // b4():
    //   jmp b5
    // b5():
    //   return
    // b6():
    //   jmp b5
    let mut function = make_function();

    let b0 = BlockId::entry_block();
    let b1 = push_block(&mut function);
    let b2 = push_block(&mut function);
    let b3 = push_block(&mut function);
    let b4 = push_block(&mut function);
    let b5 = push_block(&mut function);
    let b6 = push_block(&mut function);

    set_terminator(
        &mut function,
        b0,
        TerminatorInstruction::Switch {
            int_value: Value::Unit,
            cases: vec![(0, (b1, None)), (1, (b2, None)), (2, (b3, None))],
            else_: (b4, None),
            end: b5,
        },
    );
    set_terminator(&mut function, b1, TerminatorInstruction::jmp_no_args(b5));
    set_terminator(&mut function, b2, TerminatorInstruction::jmp_no_args(b5));
    set_terminator(&mut function, b3, TerminatorInstruction::jmp_no_args(b6));
    set_terminator(&mut function, b4, TerminatorInstruction::jmp_no_args(b5));
    set_terminator(&mut function, b5, TerminatorInstruction::Return(Value::Unit));
    set_terminator(&mut function, b6, TerminatorInstruction::jmp_no_args(b5));

    let order = function.topological_sort();
    assert_eq!(order, vec![b0, b1, b2, b3, b6, b4, b5]);
}

#[test]
fn merge_block_that_is_also_a_branch_is_held_back_for_good() {
    // b0: switch | 0 -> b1 | 1 -> b0 | _ -> b1, end b1
    // b1: jmp b0
    // Every block is reachable and has a terminator, yet b1 is always the merge block at the
    // top whose branches (b1 itself among them) are not all placed, so it is never placed.
    let mut function = make_function();
    let b0 = BlockId::entry_block();
    let b1 = push_block(&mut function);
    set_terminator(
        &mut function,
        b0,
        TerminatorInstruction::Switch {
            int_value: Value::Unit,
            cases: vec![(0, (b1, None)), (1, (b0, None))],
            else_: (b1, None),
            end: b1,
        },
    );
    set_terminator(&mut function, b1, TerminatorInstruction::jmp_no_args(b0));
    let order = function.topological_sort();
    assert_eq!(order, vec![b0]);
}
