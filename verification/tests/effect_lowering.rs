use ante_mir::fx::DefinitionMap;
use ante_mir::mir::closure_calls::lower_closure_instructions;
use ante_mir::mir::definition::Definition;
use ante_mir::mir::effects::coroutine_wrappers::{generate_body_wrapper, generate_capability_wrapper};
use ante_mir::mir::effects::drive::generate_drive_function;
use ante_mir::mir::effects::effect_pass::{build_op_index, contains_effects};
use ante_mir::mir::effects::lowering::{aminicoro_fns, case_shape_from_handler_type, collect_perform_sites};
use ante_mir::mir::effects::site_rewrite::rewrite_single_perform;
use ante_mir::mir::instruction::{HandlerCase, Instruction, TerminatorInstruction};
use ante_mir::mir::program::Mir;
use ante_mir::mir::types::{types_equal, FunctionType, IntegerKind, Type};
use ante_mir::mir::values::{BlockId, DefinitionId, InstructionId, IntConstant, Value};
use std::sync::Arc;

fn function(parameters: Vec<Type>, environment: Type, return_type: Type) -> Type {
    Type::Function(Arc::new(FunctionType { parameters, environment, return_type }))
}

fn push(def: &mut Definition, instruction: Instruction, typ: Type) -> InstructionId {
    let id = InstructionId(def.instructions.len() as u32);
    def.instructions.push(instruction);
    def.instruction_result_types.push(typ);
    def.blocks[0].instructions.push(id);
    id
}

fn u32_type() -> Type {
    Type::integer(IntegerKind::U32)
}

/// `fn U32 [Pointer] -> U32`
fn resume_type() -> Type {
    function(vec![u32_type()], Type::pointer(), u32_type())
}

/// `fn (U32, resume) -> U32`
fn handler_type() -> Type {
    function(vec![u32_type(), resume_type()], Type::no_closure_env(), u32_type())
}

/// The closure type of the capability slot of an operation `U32 -> U32`.
fn slot_type() -> Type {
    function(vec![u32_type()], Type::pointer(), u32_type())
}

/// A handler `fn (x, resume) -> U32 { resume(x) + 1 }`.
fn make_handler(id: DefinitionId) -> Definition {
    let mut def = Definition::new(Arc::new("handler".to_string()), id, 0, handler_type());
    def.blocks[0].parameter_types = vec![u32_type(), resume_type()];
    let call = push(
        &mut def,
        Instruction::CallClosure { closure: Value::Parameter(BlockId(0), 1), arguments: vec![Value::Parameter(BlockId(0), 0)] },
        u32_type(),
    );
    let one = push(&mut def, Instruction::Id(Value::Integer(IntConstant::U32(1))), u32_type());
    let sum = push(&mut def, Instruction::AddInt(Value::InstructionResult(call), Value::InstructionResult(one)), u32_type());
    def.blocks[0].terminator = Some(TerminatorInstruction::Return(Value::InstructionResult(sum)));
    def
}

/// A body `fn () -> U32 { perform op(5) }`, whose capability comes from a `Capability`.
fn make_body(id: DefinitionId, op: DefinitionId) -> Definition {
    let body_type = function(vec![], Type::no_closure_env(), u32_type());
    let mut def = Definition::new(Arc::new("body".to_string()), id, 0, body_type);
    let cap_type = Type::tuple(vec![slot_type()]);
    let cap = push(&mut def, Instruction::Capability, cap_type);
    let performed = push(
        &mut def,
        Instruction::Perform {
            effect_op: op,
            arguments: vec![Value::Integer(IntConstant::U32(5)), Value::InstructionResult(cap)],
        },
        u32_type(),
    );
    def.blocks[0].terminator = Some(TerminatorInstruction::Return(Value::InstructionResult(performed)));
    def
}

/// An outer definition `fn () -> U32 { handle body() | op x resume -> handler }`.
fn make_outer(id: DefinitionId, body: DefinitionId, handler: DefinitionId, op: DefinitionId) -> (Definition, InstructionId) {
    let outer_type = function(vec![], Type::no_closure_env(), u32_type());
    let mut def = Definition::new(Arc::new("outer".to_string()), id, 0, outer_type);
    let cases = vec![HandlerCase { effect_op: op, handler: Value::Definition(handler) }];
    let handle = push(&mut def, Instruction::Handle { body: Value::Definition(body), cases }, u32_type());
    def.blocks[0].terminator = Some(TerminatorInstruction::Return(Value::InstructionResult(handle)));
    (def, handle)
}

fn count_named(mir: &Mir, name: &str) -> usize {
    mir.definitions.values().filter(|d| d.name.as_str() == name).count()
}

fn find_named<'a>(mir: &'a Mir, name: &str) -> &'a Definition {
    mir.definitions.values().find(|d| d.name.as_str() == name).unwrap()
}

fn sample_program() -> (Mir, DefinitionId, DefinitionId, InstructionId) {
    let handler_id = DefinitionId(1);
    let op_id = DefinitionId(2);
    let body_id = DefinitionId(3);
    let outer_id = DefinitionId(4);
    let (outer, handle) = make_outer(outer_id, body_id, handler_id, op_id);
    let mut mir = Mir::new();
    mir.definitions.insert(handler_id, make_handler(handler_id));
    mir.definitions.insert(body_id, make_body(body_id, op_id));
    mir.definitions.insert(outer_id, outer);
    (mir, outer_id, body_id, handle)
}

#[test]
fn lower_effects_replaces_handle_with_drive_call() {
    let (mir, outer_id, body_id, handle) = sample_program();
    let mir = mir.lower_effects();

    // The ids after the largest one in use, 4, are taken in order: the capability wrapper, the
    // body wrapper, the drive, then the resume function.
    assert_eq!(mir.definitions.len(), 7);
    assert_eq!(count_named(&mir, "handle_cap_wrap_0"), 1);
    assert_eq!(count_named(&mir, "handle_body_wrapper"), 1);
    assert_eq!(count_named(&mir, "handle_drive"), 1);
    assert_eq!(count_named(&mir, "handle_resume"), 1);
    assert_eq!(mir.definitions[&DefinitionId(5)].name.as_str(), "handle_cap_wrap_0");
    assert_eq!(mir.definitions[&DefinitionId(6)].name.as_str(), "handle_body_wrapper");
    assert_eq!(mir.definitions[&DefinitionId(7)].name.as_str(), "handle_drive");
    assert_eq!(mir.definitions[&DefinitionId(8)].name.as_str(), "handle_resume");

    // The handle became a call of the drive with the coroutine and the handler.
    let outer = &mir.definitions[&outer_id];
    assert!(!outer.instructions.iter().any(|i| matches!(i, Instruction::Handle { .. })));
    match &outer.instructions[handle.0 as usize] {
        Instruction::Call { function, arguments } => {
            assert_eq!(*function, Value::Definition(DefinitionId(7)));
            assert_eq!(arguments.len(), 2);
            assert_eq!(arguments[1], Value::Definition(DefinitionId(1)));
        },
        _ => panic!("expected a call of the drive"),
    }
    // The coroutine is created before the call and freed after it.
    let ids = &outer.blocks[0].instructions;
    let position = ids.iter().position(|i| *i == handle).unwrap();
    assert_eq!(ids.len(), position + 3);
    assert!(matches!(&outer.instructions[ids[position + 1].0 as usize], Instruction::Extern(name) if name == "mco_coro_free"));

    // The body reads its capability from the coroutine and calls the slot's closure.
    let body = &mir.definitions[&body_id];
    assert!(!body.instructions.iter().any(|i| matches!(i, Instruction::Capability | Instruction::Perform { .. })));
    assert!(matches!(&body.instructions[0], Instruction::IndexTuple { index: 0, .. }));
    assert!(matches!(&body.instructions[1], Instruction::CallClosure { .. }));

    // The drive has its seven fixed blocks, one per case, and the unreachable one.
    assert_eq!(find_named(&mir, "handle_drive").blocks.len(), 9);
}

#[test]
fn lower_effects_leaves_effect_free_programs_alone() {
    let mut mir = Mir::new();
    let id = DefinitionId(3);
    let mut def = Definition::new(Arc::new("plain".to_string()), id, 0, function(vec![], Type::no_closure_env(), Type::unit()));
    def.blocks[0].terminator = Some(TerminatorInstruction::Return(Value::Unit));
    mir.definitions.insert(id, def);
    assert!(!contains_effects(&mir));
    let mir = mir.lower_effects();
    assert_eq!(mir.definitions.len(), 1);
    assert_eq!(mir.definitions[&id].instructions.len(), 0);
}

#[test]
fn contains_effects_sees_performs_and_handles() {
    let (mir, _, _, _) = sample_program();
    assert!(contains_effects(&mir));
}

#[test]
fn op_index_takes_case_positions_and_preserved_entries() {
    let op_a = DefinitionId(10);
    let op_b = DefinitionId(11);
    let op_c = DefinitionId(12);
    let outer_type = function(vec![], Type::no_closure_env(), Type::unit());
    let mut def = Definition::new(Arc::new("outer".to_string()), DefinitionId(1), 0, outer_type);
    let cases = vec![
        HandlerCase { effect_op: op_a, handler: Value::Definition(DefinitionId(2)) },
        HandlerCase { effect_op: op_b, handler: Value::Definition(DefinitionId(3)) },
    ];
    push(&mut def, Instruction::Handle { body: Value::Definition(DefinitionId(4)), cases }, Type::unit());
    let mut mir = Mir::new();
    mir.definitions.insert(DefinitionId(1), def);
    mir.preserved_op_indices.insert(op_c, 7);
    let index: DefinitionMap<u32> = build_op_index(&mir);
    assert_eq!(index.len(), 3);
    assert_eq!(index[&op_a], 0);
    assert_eq!(index[&op_b], 1);
    assert_eq!(index[&op_c], 7);
}

#[test]
fn perform_becomes_call_of_capability_slot() {
    let op = DefinitionId(20);
    let id = DefinitionId(1);
    let cap_type = Type::tuple(vec![slot_type(), function(vec![], Type::pointer(), Type::unit())]);
    let mut def = Definition::new(Arc::new("user".to_string()), id, 0, function(vec![cap_type.clone()], Type::no_closure_env(), Type::unit()));
    def.blocks[0].parameter_types = vec![cap_type];
    let cap = Value::Parameter(BlockId(0), 0);
    let performed =
        push(&mut def, Instruction::Perform { effect_op: op, arguments: vec![Value::Integer(IntConstant::U32(3)), cap] }, Type::unit());
    def.blocks[0].terminator = Some(TerminatorInstruction::Return(Value::Unit));
    let mut mir = Mir::new();
    mir.definitions.insert(id, def);
    let mut index: DefinitionMap<u32> = DefinitionMap::default();
    index.insert(op, 1);

    let sites = collect_perform_sites(&mir.definitions[&id]);
    assert_eq!(sites.len(), 1);
    rewrite_single_perform(&mut mir, id, &sites[0], &index);

    let def = &mir.definitions[&id];
    assert_eq!(def.blocks[0].instructions, vec![InstructionId(1), performed]);
    match &def.instructions[1] {
        Instruction::IndexTuple { tuple, index } => {
            assert_eq!(*tuple, cap);
            assert_eq!(*index, 1);
        },
        _ => panic!("expected the slot to be taken out"),
    }
    assert!(types_equal(&def.instruction_result_types[1], &function(vec![], Type::pointer(), Type::unit())));
    match &def.instructions[performed.0 as usize] {
        Instruction::CallClosure { closure, arguments } => {
            assert_eq!(*closure, Value::InstructionResult(InstructionId(1)));
            assert_eq!(*arguments, vec![Value::Integer(IntConstant::U32(3))]);
        },
        _ => panic!("expected a closure call"),
    }
}

#[test]
fn drive_has_a_block_per_case_and_switches_on_the_case_index() {
    let mco = aminicoro_fns();
    let handler_types = vec![handler_type(), handler_type()];
    let shapes = vec![
        case_shape_from_handler_type(&handler_types[0]).unwrap(),
        case_shape_from_handler_type(&handler_types[1]).unwrap(),
    ];
    let resume_ids = vec![DefinitionId(31), DefinitionId(32)];
    let (drive, resumes) = generate_drive_function(&handler_types, &shapes, &u32_type(), &mco, 0, DefinitionId(30), &resume_ids);
    assert_eq!(drive.name.as_str(), "handle_drive");
    assert_eq!(drive.blocks.len(), 10);
    assert_eq!(drive.blocks[0].parameter_types.len(), 3);
    assert!(matches!(drive.blocks[0].terminator, Some(TerminatorInstruction::Jmp((BlockId(1), None)))));
    match &drive.blocks[4].terminator {
        Some(TerminatorInstruction::Switch { cases, else_, end, .. }) => {
            assert_eq!(cases.len(), 2);
            assert_eq!(cases[1].0, 1);
            assert_eq!(cases[1].1 .0, BlockId(8));
            assert_eq!(else_.0, BlockId(9));
            assert_eq!(*end, BlockId(6));
        },
        _ => panic!("expected the switch on the case index"),
    }
    assert!(matches!(drive.blocks[9].terminator, Some(TerminatorInstruction::Unreachable)));
    assert!(matches!(drive.blocks[6].terminator, Some(TerminatorInstruction::Return(Value::Parameter(BlockId(6), 0)))));
    // The loop header resumes the coroutine and asks whether it suspended.
    assert_eq!(drive.blocks[1].instructions.len(), 4);
    assert!(matches!(&drive.instructions[0], Instruction::Extern(name) if name == "mco_coro_resume"));
    assert!(matches!(&drive.instructions[2], Instruction::Extern(name) if name == "mco_coro_is_suspended"));

    assert_eq!(resumes.len(), 2);
    assert_eq!(resumes[1].id, DefinitionId(32));
    assert_eq!(resumes[1].name.as_str(), "handle_resume");
    assert_eq!(resumes[1].blocks[0].parameter_types.len(), 2);
    // The resume function calls the drive again with the coroutine and both handlers.
    let last = *resumes[1].blocks[0].instructions.last().unwrap();
    match &resumes[1].instructions[last.0 as usize] {
        Instruction::Call { function, arguments } => {
            assert_eq!(*function, Value::Definition(DefinitionId(30)));
            assert_eq!(arguments.len(), 3);
        },
        _ => panic!("expected the drive's call"),
    }
}

#[test]
fn capability_wrapper_pushes_arguments_then_suspends() {
    let mco = aminicoro_fns();
    let shape = case_shape_from_handler_type(&handler_type()).unwrap();
    let wrapper = generate_capability_wrapper(3, &shape, &mco, 0, DefinitionId(40));
    assert_eq!(wrapper.name.as_str(), "handle_cap_wrap_3");
    assert_eq!(wrapper.blocks.len(), 1);
    assert_eq!(wrapper.blocks[0].parameter_types.len(), 2);
    // target, running, the argument, the case index, the target, suspend, the answer
    assert_eq!(wrapper.instructions.len(), 2 + 2 + 4 + 4 + 4 + 2 + 5);
    assert!(matches!(&wrapper.instructions[2], Instruction::Extern(name) if name == "mco_coro_running"));
    assert!(matches!(wrapper.instructions[8], Instruction::StackAlloc(Value::Integer(IntConstant::U32(3)))));
    assert!(matches!(wrapper.instructions[12], Instruction::StackAlloc(Value::InstructionResult(InstructionId(1)))));
    assert!(matches!(&wrapper.instructions[16], Instruction::Extern(name) if name == "mco_coro_suspend"));
    let answer = InstructionId(wrapper.instructions.len() as u32 - 1);
    assert!(matches!(wrapper.blocks[0].terminator, Some(TerminatorInstruction::Return(Value::InstructionResult(id))) if id == answer));
}

#[test]
fn body_wrapper_calls_plain_body_with_unit() {
    let mco = aminicoro_fns();
    let body_type = function(vec![], Type::no_closure_env(), u32_type());
    let wrapper = generate_body_wrapper(
        DefinitionId(3),
        &body_type,
        None,
        &Type::unit(),
        &Type::tuple(vec![slot_type()]),
        &u32_type(),
        &mco,
        0,
        DefinitionId(41),
    );
    assert_eq!(wrapper.name.as_str(), "handle_body_wrapper");
    match &wrapper.instructions[0] {
        Instruction::Call { function, arguments } => {
            assert_eq!(*function, Value::Definition(DefinitionId(3)));
            assert_eq!(*arguments, vec![Value::Unit]);
        },
        _ => panic!("expected the body's call"),
    }
    // The result is pushed for the drive: slot, size, push.
    assert_eq!(wrapper.instructions.len(), 1 + 4);
    assert!(matches!(wrapper.blocks[0].terminator, Some(TerminatorInstruction::Return(Value::Unit))));
}

#[test]
fn closures_become_tuples_and_their_calls_plain_calls() {
    let fn_ptr = function(vec![u32_type(), u32_type()], Type::no_closure_env(), u32_type());
    let closure_tuple = Type::tuple(vec![fn_ptr.clone(), u32_type()]);
    let callee = DefinitionId(1);
    let caller = DefinitionId(2);
    let mut f = Definition::new(Arc::new("f".to_string()), callee, 0, fn_ptr);
    f.blocks[0].terminator = Some(TerminatorInstruction::Return(Value::Integer(IntConstant::U32(0))));
    let mut g = Definition::new(Arc::new("g".to_string()), caller, 0, function(vec![], Type::no_closure_env(), u32_type()));
    let pack = push(
        &mut g,
        Instruction::PackClosure { function: Value::Definition(callee), environment: Value::Integer(IntConstant::U32(7)) },
        closure_tuple,
    );
    let call = push(
        &mut g,
        Instruction::CallClosure { closure: Value::InstructionResult(pack), arguments: vec![Value::Integer(IntConstant::U32(1))] },
        u32_type(),
    );
    g.blocks[0].terminator = Some(TerminatorInstruction::Return(Value::InstructionResult(call)));
    let mut mir = Mir::new();
    mir.definitions.insert(callee, f);
    mir.definitions.insert(caller, g);

    lower_closure_instructions(&mut mir);

    let g = &mir.definitions[&caller];
    assert_eq!(g.blocks[0].instructions, vec![pack, InstructionId(2), InstructionId(3), call]);
    match &g.instructions[pack.0 as usize] {
        Instruction::MakeTuple(values) => {
            assert_eq!(*values, vec![Value::Definition(callee), Value::Integer(IntConstant::U32(7))])
        },
        _ => panic!("expected the closure as a tuple"),
    }
    assert!(matches!(g.instructions[2], Instruction::IndexTuple { tuple: Value::InstructionResult(InstructionId(0)), index: 0 }));
    assert!(matches!(g.instructions[3], Instruction::IndexTuple { tuple: Value::InstructionResult(InstructionId(0)), index: 1 }));
    match &g.instructions[call.0 as usize] {
        Instruction::Call { function, arguments } => {
            assert_eq!(*function, Value::InstructionResult(InstructionId(2)));
            assert_eq!(*arguments, vec![Value::Integer(IntConstant::U32(1)), Value::InstructionResult(InstructionId(3))]);
        },
        _ => panic!("expected a plain call"),
    }
    assert!(types_equal(&g.instruction_result_types[3], &u32_type()));
    // The callee has no closures and stays as it was.
    assert_eq!(mir.definitions[&callee].instructions.len(), 0);
}
