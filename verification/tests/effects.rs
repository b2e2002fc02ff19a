use ante_mir::mir::definition::{Block, Definition};
use ante_mir::mir::effects::abort::{
    case_is_abort_only, clone_handler_for_wrapper, create_branch_blocks, emit_setjmp_test, emit_wrapper_prologue,
    fill_then_block, finalize_merge_block, preserve_op_indices, rewrite_returns_as_longjmp, split_block_at_handle,
};
use ante_mir::mir::effects::lowering::{
    aminicoro_fns, case_shape_from_handler_type, collect_handle_sites, collect_perform_sites, resolve_body_function,
    CaseShape, EmitTarget, Emitter,
};
use ante_mir::mir::effects::tail_resume::{case_is_tail_resumptive, resolve_handler, substitute_value};
use ante_mir::mir::instruction::{HandlerCase, Instruction, TerminatorInstruction};
use ante_mir::mir::types::{types_equal, FunctionType, IntegerKind, Type};
use ante_mir::mir::values::{BlockId, DefinitionId, InstructionId, IntConstant, Value};
use rustc_hash::FxHashMap;
use std::sync::Arc;

fn function(parameters: Vec<Type>, environment: Type, return_type: Type) -> Type {
    Type::Function(Arc::new(FunctionType { parameters, environment, return_type }))
}

fn new_definition(name: &str, id: u32, typ: Type) -> Definition {
    Definition::new(Arc::new(name.to_string()), DefinitionId(id), 0, typ)
}

fn push(definition: &mut Definition, block: usize, instruction: Instruction, typ: Type) -> InstructionId {
    let id = InstructionId(definition.instructions.len() as u32);
    definition.instructions.push(instruction);
    definition.instruction_result_types.push(typ);
    definition.blocks[block].instructions.push(id);
    id
}

fn result(id: InstructionId) -> Value {
    Value::InstructionResult(id)
}

/// A handler `fn (x: I32) (resume: fn I32 -> Unit) -> Unit` whose only return is `resume x`, or
/// `resume x` followed by returning unit where `tail_resume` is false.
fn handler(tail_resume: bool) -> (Definition, CaseShape) {
    let i32_t = Type::integer(IntegerKind::I32);
    let resume_type = function(vec![i32_t.clone()], Type::no_closure_env(), Type::unit());
    let handler_type = function(vec![i32_t.clone(), resume_type.clone()], Type::no_closure_env(), Type::unit());
    let mut definition = new_definition("handler", 10, handler_type.clone());
    definition.blocks[0].parameter_types = vec![i32_t.clone(), resume_type];
    let resume = Value::Parameter(BlockId(0), 1);
    let call = push(
        &mut definition,
        0,
        Instruction::CallClosure { closure: resume, arguments: vec![Value::Parameter(BlockId(0), 0)] },
        Type::unit(),
    );
    definition.blocks[0].terminator =
        Some(TerminatorInstruction::Return(if tail_resume { result(call) } else { Value::Unit }));
    let shape = case_shape_from_handler_type(&handler_type).unwrap();
    (definition, shape)
}

#[test]
fn case_shape_of_handler_type() {
    let (_, shape) = handler(true);
    assert_eq!(shape.op_arg_types.len(), 1);
    assert!(types_equal(&shape.op_arg_types[0], &Type::integer(IntegerKind::I32)));
    assert!(types_equal(&shape.op_return_type, &Type::integer(IntegerKind::I32)));
    assert!(!shape.handler_is_closure);
    assert!(case_shape_from_handler_type(&Type::unit()).is_none());
    assert!(case_shape_from_handler_type(&function(vec![], Type::no_closure_env(), Type::unit())).is_none());
}

#[test]
fn tail_resumptive_handler_is_recognized() {
    let (definition, shape) = handler(true);
    assert!(case_is_tail_resumptive(&definition, &shape));
    let (definition, shape) = handler(false);
    assert!(!case_is_tail_resumptive(&definition, &shape));
}

#[test]
fn resume_escaping_disqualifies_tail_resumption() {
    let (mut definition, shape) = handler(true);
    // Also pass resume to something else, in a block of its own: it escapes.
    definition.blocks.push(Block::new(Vec::new()));
    push(&mut definition, 1, Instruction::Id(Value::Parameter(BlockId(0), 1)), Type::unit());
    definition.blocks[1].terminator = Some(TerminatorInstruction::Unreachable);
    assert!(!case_is_tail_resumptive(&definition, &shape));
}

#[test]
fn abort_only_handler_never_uses_resume() {
    let (definition, shape) = handler(true);
    assert!(!case_is_abort_only(&definition, &shape));
    let i32_t = Type::integer(IntegerKind::I32);
    let resume_type = function(vec![i32_t.clone()], Type::no_closure_env(), Type::unit());
    let mut aborting = new_definition("abort", 11, function(vec![i32_t.clone(), resume_type.clone()], Type::no_closure_env(), Type::unit()));
    aborting.blocks[0].parameter_types = vec![i32_t, resume_type];
    aborting.blocks[0].terminator = Some(TerminatorInstruction::Return(Value::Unit));
    assert!(case_is_abort_only(&aborting, &shape));
}

#[test]
fn substitute_value_replaces_every_use() {
    let mut definition = new_definition("f", 1, Type::unit());
    let a = Value::Parameter(BlockId(0), 0);
    let b = Value::Parameter(BlockId(0), 1);
    let add = push(&mut definition, 0, Instruction::AddInt(a, a), Type::integer(IntegerKind::I32));
    push(&mut definition, 0, Instruction::MakeTuple(vec![a, result(add), a]), Type::unit());
    definition.blocks[0].terminator = Some(TerminatorInstruction::Return(a));
    substitute_value(&mut definition, a, b);
    match &definition.instructions[0] {
        Instruction::AddInt(x, y) => assert!(*x == b && *y == b),
        _ => panic!("instruction kind changed"),
    }
    match &definition.instructions[1] {
        Instruction::MakeTuple(values) => assert_eq!(values, &vec![b, result(add), b]),
        _ => panic!("instruction kind changed"),
    }
    match &definition.blocks[0].terminator {
        Some(TerminatorInstruction::Return(v)) => assert_eq!(*v, b),
        _ => panic!("terminator changed"),
    }
    // Nothing uses `a` any more.
    for instruction in &definition.instructions {
        assert!(!instruction.for_each_value().contains(&a));
    }
}

#[test]
fn handler_and_body_resolution_follow_ids() {
    let mut definition = new_definition("outer", 1, Type::unit());
    let id1 = push(&mut definition, 0, Instruction::Id(Value::Definition(DefinitionId(7))), Type::unit());
    let id2 = push(&mut definition, 0, Instruction::Id(result(id1)), Type::unit());
    let pack = push(
        &mut definition,
        0,
        Instruction::PackClosure { function: result(id2), environment: Value::Unit },
        Type::unit(),
    );
    let (id, env, bindings) = resolve_body_function(result(pack), &definition);
    assert_eq!(id, DefinitionId(7));
    assert_eq!(env, Some(Value::Unit));
    assert!(bindings.is_none());
    let (id, env, _) = resolve_handler(result(id2), &definition).unwrap();
    assert_eq!(id, DefinitionId(7));
    assert_eq!(env, None);
    let not_a_definition = push(&mut definition, 0, Instruction::MakeTuple(vec![]), Type::unit());
    assert!(resolve_handler(result(not_a_definition), &definition).is_none());
}

#[test]
fn sites_are_listed_last_first_within_each_block() {
    let mut definition = new_definition("f", 1, Type::unit());
    definition.blocks.push(Block::new(Vec::new()));
    let case = HandlerCase { effect_op: DefinitionId(3), handler: Value::Definition(DefinitionId(4)) };
    let h0 = push(&mut definition, 0, Instruction::Handle { body: Value::Unit, cases: vec![case] }, Type::unit());
    push(&mut definition, 0, Instruction::MakeTuple(vec![]), Type::unit());
    let h1 = push(&mut definition, 0, Instruction::Handle { body: Value::Unit, cases: vec![] }, Type::bool_type());
    let h2 = push(&mut definition, 1, Instruction::Handle { body: Value::Unit, cases: vec![] }, Type::unit());
    let p = push(&mut definition, 1, Instruction::Perform { effect_op: DefinitionId(3), arguments: vec![Value::Unit] }, Type::unit());
    let sites = collect_handle_sites(&definition);
    let places: Vec<(BlockId, usize, InstructionId)> = sites.iter().map(|s| (s.block, s.index, s.id)).collect();
    assert_eq!(places, vec![(BlockId(0), 2, h1), (BlockId(0), 0, h0), (BlockId(1), 0, h2)]);
    assert_eq!(sites[1].cases, vec![case]);
    assert!(types_equal(&sites[0].result_type, &Type::bool_type()));
    let performs = collect_perform_sites(&definition);
    assert_eq!(performs.len(), 1);
    assert_eq!((performs[0].block, performs[0].index, performs[0].id, performs[0].op), (BlockId(1), 1, p, DefinitionId(3)));
    assert_eq!(performs[0].arguments, vec![Value::Unit]);
}

#[test]
fn pushing_a_tuple_pushes_each_field() {
    let fns = aminicoro_fns();
    assert_eq!(fns.push.name, "mco_coro_push");
    let mut definition = new_definition("f", 1, Type::unit());
    let mut e = Emitter::in_block(BlockId(0));
    let coro = Value::Parameter(BlockId(0), 0);
    let value = Value::Parameter(BlockId(0), 1);
    let t = Type::tuple(vec![Type::integer(IntegerKind::U8), Type::unit(), Type::bool_type()]);
    e.push_bytes(&mut definition, &fns, coro, value, &t);
    // Field 0: IndexTuple, StackAlloc, SizeOf, Extern, Call; field 1 (unit): IndexTuple only;
    // field 2: IndexTuple, StackAlloc, SizeOf, Extern, Call.
    assert_eq!(definition.instructions.len(), 11);
    assert!(matches!(definition.instructions[0], Instruction::IndexTuple { index: 0, .. }));
    assert!(matches!(definition.instructions[1], Instruction::StackAlloc(v) if v == result(InstructionId(0))));
    assert!(matches!(&definition.instructions[3], Instruction::Extern(name) if name == "mco_coro_push"));
    match &definition.instructions[4] {
        Instruction::Call { function, arguments } => {
            assert_eq!(*function, result(InstructionId(3)));
            assert_eq!(arguments, &vec![coro, result(InstructionId(1)), result(InstructionId(2))]);
        },
        _ => panic!("expected the push call"),
    }
    assert!(matches!(definition.instructions[5], Instruction::IndexTuple { index: 1, .. }));
    assert!(matches!(definition.instructions[6], Instruction::IndexTuple { index: 2, .. }));
    assert_eq!(definition.blocks[0].instructions.len(), 11);
}

#[test]
fn popping_a_tuple_pops_fields_last_first() {
    let fns = aminicoro_fns();
    let mut definition = new_definition("f", 1, Type::unit());
    let mut e = Emitter::pending();
    let coro = Value::Parameter(BlockId(0), 0);
    let t = Type::tuple(vec![Type::integer(IntegerKind::U8), Type::bool_type()]);
    let r = e.pop_bytes(&mut definition, &fns, coro, &t);
    // Each field: StackAllocUninit, SizeOf, Extern, Call, Deref; then the MakeTuple.
    assert_eq!(definition.instructions.len(), 11);
    assert_eq!(r, result(InstructionId(10)));
    // The Bool (field 1) is popped first.
    match &definition.instructions[0] {
        Instruction::StackAllocUninit(popped) => assert!(types_equal(popped, &Type::bool_type())),
        _ => panic!("expected a stack slot"),
    }
    match &definition.instructions[10] {
        Instruction::MakeTuple(fields) => assert_eq!(fields, &vec![result(InstructionId(9)), result(InstructionId(4))]),
        _ => panic!("expected the tuple"),
    }
    assert_eq!(e.pending.len(), 11);
    assert!(definition.blocks[0].instructions.is_empty());
    assert!(matches!(e.target, EmitTarget::Pending));
}

#[test]
fn popping_nothing_gives_unit() {
    let fns = aminicoro_fns();
    let mut definition = new_definition("f", 1, Type::unit());
    let mut e = Emitter::pending();
    let r = e.pop_bytes(&mut definition, &fns, Value::Unit, &Type::tuple(vec![Type::unit()]));
    assert_eq!(r, Value::Unit);
    assert!(definition.instructions.is_empty());
}

#[test]
fn returns_become_longjmps() {
    let mut definition = new_definition("h", 1, function(vec![], Type::no_closure_env(), Type::unit()));
    definition.blocks.push(Block::new(Vec::new()));
    definition.blocks[0].terminator = Some(TerminatorInstruction::jmp_no_args(BlockId(1)));
    definition.blocks[1].terminator = Some(TerminatorInstruction::Return(Value::Bool(true)));
    let buf = Value::Parameter(BlockId(0), 0);
    let slot = Value::Parameter(BlockId(0), 1);
    rewrite_returns_as_longjmp(&mut definition, buf, slot);
    assert_eq!(definition.instructions.len(), 3);
    assert!(matches!(&definition.instructions[0], Instruction::Extern(name) if name == "mco_abort_longjmp"));
    assert!(matches!(definition.instructions[1], Instruction::Store { pointer, value } if pointer == slot && value == Value::Bool(true)));
    match &definition.instructions[2] {
        Instruction::Call { function, arguments } => {
            assert_eq!(*function, result(InstructionId(0)));
            assert_eq!(arguments, &vec![buf, Value::Integer(IntConstant::I32(1))]);
        },
        _ => panic!("expected the longjmp call"),
    }
    assert_eq!(definition.blocks[0].instructions, vec![InstructionId(0)]);
    assert_eq!(definition.blocks[1].instructions, vec![InstructionId(1), InstructionId(2)]);
    assert!(matches!(definition.blocks[1].terminator, Some(TerminatorInstruction::Unreachable)));
    assert!(matches!(definition.blocks[0].terminator, Some(TerminatorInstruction::Jmp((BlockId(1), None)))));
}

#[test]
fn no_returns_leaves_the_definition_alone() {
    let mut definition = new_definition("h", 1, Type::unit());
    definition.blocks[0].terminator = Some(TerminatorInstruction::Unreachable);
    rewrite_returns_as_longjmp(&mut definition, Value::Unit, Value::Unit);
    assert!(definition.instructions.is_empty());
    assert!(definition.blocks[0].instructions.is_empty());
}

#[test]
fn splitting_a_block_around_a_handle() {
    let mut definition = new_definition("f", 1, Type::unit());
    let a = push(&mut definition, 0, Instruction::MakeTuple(vec![]), Type::unit());
    let handle = push(&mut definition, 0, Instruction::Handle { body: Value::Unit, cases: vec![] }, Type::bool_type());
    let c = push(&mut definition, 0, Instruction::MakeTuple(vec![]), Type::unit());
    definition.blocks[0].terminator = Some(TerminatorInstruction::Return(Value::Unit));
    let sites = collect_handle_sites(&definition);
    let split = split_block_at_handle(&mut definition, &sites[0], vec![InstructionId(9)]);
    assert_eq!(split.original_block, BlockId(0));
    assert_eq!(split.after_handle, vec![c]);
    assert!(matches!(split.original_terminator, Some(TerminatorInstruction::Return(Value::Unit))));
    assert_eq!(definition.blocks[0].instructions, vec![a, InstructionId(9)]);
    assert!(definition.blocks[0].terminator.is_none());

    let (then_block, else_block, merge_block) = create_branch_blocks(&mut definition);
    assert_eq!((then_block, else_block, merge_block), (BlockId(1), BlockId(2), BlockId(3)));
    assert_eq!(definition.blocks.len(), 4);

    let slot = Value::Parameter(BlockId(0), 0);
    fill_then_block(&mut definition, then_block, Value::Definition(DefinitionId(5)), slot, &Type::bool_type(), merge_block);
    assert_eq!(definition.blocks[1].instructions, vec![InstructionId(3), InstructionId(4)]);
    assert!(matches!(definition.instructions[3], Instruction::CallClosure { closure: Value::Definition(DefinitionId(5)), .. }));
    assert!(matches!(definition.instructions[4], Instruction::Store { pointer, value } if pointer == slot && value == result(InstructionId(3))));
    assert!(matches!(definition.blocks[1].terminator, Some(TerminatorInstruction::Jmp((BlockId(3), None)))));

    finalize_merge_block(&mut definition, merge_block, handle, slot, Type::bool_type(), split);
    assert!(matches!(definition.instructions[handle.0 as usize], Instruction::Deref(v) if v == slot));
    assert_eq!(definition.blocks[3].instructions, vec![handle, c]);
    assert!(matches!(definition.blocks[3].terminator, Some(TerminatorInstruction::Return(Value::Unit))));
}

#[test]
fn setjmp_test_compares_with_zero() {
    let mut definition = new_definition("f", 1, Type::unit());
    let mut e = Emitter::in_block(BlockId(0));
    let buf = Value::Parameter(BlockId(0), 0);
    let is_zero = emit_setjmp_test(&mut e, &mut definition, buf);
    assert_eq!(is_zero, result(InstructionId(2)));
    assert!(matches!(&definition.instructions[0], Instruction::Extern(name) if name == "_setjmp"));
    assert!(matches!(definition.instructions[2], Instruction::EqInt(a, Value::Integer(IntConstant::I32(0))) if a == result(InstructionId(1))));
    assert!(types_equal(&definition.instruction_result_types[2], &Type::bool_type()));
}

#[test]
fn wrapper_prologue_is_put_first() {
    let mut definition = new_definition("w", 1, Type::unit());
    let existing = push(&mut definition, 0, Instruction::MakeTuple(vec![]), Type::unit());
    let env_pointer = Value::Parameter(BlockId(0), 1);
    let (buf, slot, env) = emit_wrapper_prologue(&mut definition, env_pointer, &Type::bool_type(), true);
    assert_eq!(buf, result(InstructionId(2)));
    assert_eq!(slot, result(InstructionId(3)));
    assert_eq!(env, Some(result(InstructionId(4))));
    assert_eq!(
        definition.blocks[0].instructions,
        vec![InstructionId(1), InstructionId(2), InstructionId(3), InstructionId(4), existing]
    );
    let (_, _, no_env) = emit_wrapper_prologue(&mut definition, env_pointer, &Type::unit(), false);
    assert_eq!(no_env, None);
}

#[test]
fn handler_clone_is_named_after_its_case() {
    let (definition, shape) = handler(false);
    let wrapper = clone_handler_for_wrapper(&definition, DefinitionId(42), &shape, 12);
    assert_eq!(wrapper.name.as_str(), "handler_abort_wrapper_12");
    assert_eq!(wrapper.id, DefinitionId(42));
    assert_eq!(wrapper.blocks[0].parameter_types.len(), 2);
    assert!(types_equal(&wrapper.blocks[0].parameter_types[1], &Type::pointer()));
    assert!(types_equal(
        &wrapper.typ,
        &function(vec![Type::integer(IntegerKind::I32)], Type::pointer(), Type::integer(IntegerKind::I32))
    ));
    assert_eq!(wrapper.instructions.len(), definition.instructions.len());
}

#[test]
fn op_indices_are_preserved() {
    let mut map: FxHashMap<DefinitionId, u32> = FxHashMap::default();
    map.insert(DefinitionId(9), 7);
    let cases = vec![
        HandlerCase { effect_op: DefinitionId(1), handler: Value::Unit },
        HandlerCase { effect_op: DefinitionId(2), handler: Value::Unit },
    ];
    preserve_op_indices(&mut map, &cases);
    assert_eq!(map.get(&DefinitionId(1)), Some(&0));
    assert_eq!(map.get(&DefinitionId(2)), Some(&1));
    assert_eq!(map.get(&DefinitionId(9)), Some(&7));
    assert_eq!(map.len(), 3);
}

#[test]
fn emitter_in_a_block_appends_there() {
    let mut definition = new_definition("f", 1, Type::unit());
    let mut e = Emitter::in_block(BlockId(0));
    let v = e.push_instruction(&mut definition, Instruction::Id(Value::Unit), Type::unit());
    assert_eq!(v, result(InstructionId(0)));
    assert_eq!(definition.blocks[0].instructions, vec![InstructionId(0)]);
    let w = e.emit_definition_value(&mut definition, DefinitionId(3), Type::unit(), None);
    assert_eq!(w, Value::Definition(DefinitionId(3)));
    assert_eq!(definition.instructions.len(), 1);
    let x = e.emit_definition_value(&mut definition, DefinitionId(3), Type::unit(), Some(Arc::new(vec![Type::unit()])));
    assert_eq!(x, result(InstructionId(1)));
    assert!(matches!(definition.instructions[1], Instruction::Instantiate(DefinitionId(3), _)));
}
