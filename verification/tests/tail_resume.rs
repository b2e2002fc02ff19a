use ante_mir::fx::DefinitionMap;
use ante_mir::mir::definition::Definition;
use ante_mir::mir::effects::body_clone::{deep_clone_body_subtree, owned_subtree, remap_definition_ids};
use ante_mir::mir::effects::tail_resume_pass::direct_wrapper;
use ante_mir::mir::effects::lowering::case_shape_from_handler_type;
use ante_mir::mir::instruction::{HandlerCase, Instruction, TerminatorInstruction};
use ante_mir::mir::program::Mir;
use ante_mir::mir::types::{types_equal, FunctionType, IntegerKind, Type};
use ante_mir::mir::values::{BlockId, DefinitionId, InstructionId, IntConstant, Value};
use std::sync::Arc;

/// Hands out fresh definition ids.
struct Ids {
    next: u32,
}

impl Ids {
    fn new() -> Ids {
        Ids { next: 0 }
    }

    fn next(&mut self) -> DefinitionId {
        self.next += 1;
        DefinitionId(self.next)
    }
}

fn function(parameters: Vec<Type>, environment: Type, return_type: Type) -> Type {
    Type::Function(Arc::new(FunctionType { parameters, environment, return_type }))
}

fn push(def: &mut Definition, instruction: Instruction, typ: Type) -> InstructionId {
    let id = InstructionId(def.instructions.len() as u32);
    def.instructions.push(instruction);
    def.instruction_result_types.push(typ);
    def.blocks[0].instructions.push(id);
    id
}

/// Build a handler function `fn(x: U32, resume: fn U32 [Pointer] -> U32) -> U32`. If
/// `tail_resume` is true, the body is `Return(CallClosure(resume, [x]))` (tail-resumptive);
/// otherwise the body is `let r = resume(x); return r + 1`.
fn make_simple_handler(ids: &mut Ids, tail_resume: bool) -> (Definition, Type) {
    let u32_t = Type::integer(IntegerKind::U32);
    let resume_type = function(vec![u32_t.clone()], Type::pointer(), u32_t.clone());
    let handler_type = function(vec![u32_t.clone(), resume_type.clone()], Type::no_closure_env(), u32_t.clone());

    let id = ids.next();
    let mut def = Definition::new(Arc::new("handler".to_string()), id, 0, handler_type.clone());
    def.blocks[0].parameter_types = vec![u32_t.clone(), resume_type];
    let x = Value::Parameter(BlockId(0), 0);
    let resume = Value::Parameter(BlockId(0), 1);

    let call_id = push(&mut def, Instruction::CallClosure { closure: resume, arguments: vec![x] }, u32_t.clone());

    if tail_resume {
        def.blocks[0].terminator = Some(TerminatorInstruction::Return(Value::InstructionResult(call_id)));
    } else {
        let one_id = push(&mut def, Instruction::Id(Value::Integer(IntConstant::U32(1))), u32_t.clone());
        let add_id = push(
            &mut def,
            Instruction::AddInt(Value::InstructionResult(call_id), Value::InstructionResult(one_id)),
            u32_t.clone(),
        );
        def.blocks[0].terminator = Some(TerminatorInstruction::Return(Value::InstructionResult(add_id)));
    }
    (def, handler_type)
}

/// Build a body lambda with no captures: `fn () -> Unit { () }`.
fn make_body_with_perform(ids: &mut Ids) -> Definition {
    let body_type = function(vec![], Type::no_closure_env(), Type::unit());
    let id = ids.next();
    let mut def = Definition::new(Arc::new("body".to_string()), id, 0, body_type);
    def.blocks[0].terminator = Some(TerminatorInstruction::Return(Value::Unit));
    def
}

/// Wrap a Handle around `body` with a single case using `handler_def`. Returns the outer
/// definition (containing the Handle) and the Handle's instruction id.
fn make_outer_with_handle(
    ids: &mut Ids, body_def_id: DefinitionId, handler_def_id: DefinitionId, op_id: DefinitionId, result_type: Type,
) -> (Definition, InstructionId) {
    let outer_type = function(vec![], Type::no_closure_env(), result_type.clone());
    let id = ids.next();
    let mut def = Definition::new(Arc::new("outer".to_string()), id, 0, outer_type);
    let cases = vec![HandlerCase { effect_op: op_id, handler: Value::Definition(handler_def_id) }];
    let handle_id = push(&mut def, Instruction::Handle { body: Value::Definition(body_def_id), cases }, result_type);
    def.blocks[0].terminator = Some(TerminatorInstruction::Return(Value::Unit));
    (def, handle_id)
}

fn count_handles(mir: &Mir, def_id: DefinitionId) -> usize {
    mir.definitions[&def_id].instructions.iter().filter(|i| matches!(i, Instruction::Handle { .. })).count()
}

fn count_named(mir: &Mir, part: &str) -> usize {
    mir.definitions.values().filter(|d| d.name.contains(part)).count()
}

#[test]
fn tail_resume_eliminates_simple_handle() {
    let mut ids = Ids::new();
    let (handler_def, _) = make_simple_handler(&mut ids, true);
    let handler_id = handler_def.id;
    let op_id = ids.next();
    let body_def = make_body_with_perform(&mut ids);
    let body_id = body_def.id;
    let (outer_def, _handle_id) = make_outer_with_handle(&mut ids, body_id, handler_id, op_id, Type::unit());
    let outer_id = outer_def.id;

    let mut mir = Mir::new();
    mir.definitions.insert(handler_id, handler_def);
    mir.definitions.insert(body_id, body_def);
    mir.definitions.insert(outer_id, outer_def);

    let mir = mir.optimize_tail_resume();
    assert_eq!(count_handles(&mir, outer_id), 0, "Handle should be eliminated");
    assert_eq!(count_named(&mir, "tail_resume_wrapper"), 1, "expected one materialized wrapper");
}

#[test]
fn tail_resume_skips_non_tail() {
    let mut ids = Ids::new();
    let (handler_def, _) = make_simple_handler(&mut ids, false);
    let handler_id = handler_def.id;
    let op_id = ids.next();
    let body_def = make_body_with_perform(&mut ids);
    let body_id = body_def.id;
    let (outer_def, _) = make_outer_with_handle(&mut ids, body_id, handler_id, op_id, Type::unit());
    let outer_id = outer_def.id;

    let mut mir = Mir::new();
    mir.definitions.insert(handler_id, handler_def);
    mir.definitions.insert(body_id, body_def);
    mir.definitions.insert(outer_id, outer_def);

    let mir = mir.optimize_tail_resume();
    assert_eq!(count_handles(&mir, outer_id), 1, "non-tail Handle should be left alone");
    assert_eq!(count_named(&mir, "tail_resume_wrapper"), 0, "expected no wrappers materialized");
}

#[test]
fn tail_resume_skips_resume_escape() {
    // A handler whose body returns resume itself, packed in a tuple: resume appears in
    // MakeTuple's arguments, which is a non-CallClosure use.
    let mut ids = Ids::new();
    let u32_t = Type::integer(IntegerKind::U32);
    let resume_type = function(vec![u32_t.clone()], Type::pointer(), u32_t.clone());
    let result_type = Type::tuple(vec![resume_type.clone()]);
    let handler_type =
        function(vec![u32_t.clone(), resume_type.clone()], Type::no_closure_env(), result_type.clone());

    let handler_id = ids.next();
    let mut handler_def = Definition::new(Arc::new("handler".to_string()), handler_id, 0, handler_type);
    handler_def.blocks[0].parameter_types = vec![u32_t.clone(), resume_type.clone()];
    let resume = Value::Parameter(BlockId(0), 1);
    let mk_id = push(&mut handler_def, Instruction::MakeTuple(vec![resume]), result_type.clone());
    handler_def.blocks[0].terminator = Some(TerminatorInstruction::Return(Value::InstructionResult(mk_id)));

    let op_id = ids.next();
    let body_def = make_body_with_perform(&mut ids);
    let body_id = body_def.id;
    let (outer_def, _) = make_outer_with_handle(&mut ids, body_id, handler_id, op_id, result_type);
    let outer_id = outer_def.id;

    let mut mir = Mir::new();
    mir.definitions.insert(handler_id, handler_def);
    mir.definitions.insert(body_id, body_def);
    mir.definitions.insert(outer_id, outer_def);

    let mir = mir.optimize_tail_resume();
    assert_eq!(count_handles(&mir, outer_id), 1, "escaping resume should disqualify the Handle");
}

#[test]
fn tail_resume_all_or_nothing() {
    // Two cases: one tail-resumptive, one not. The whole Handle must be left alone.
    let mut ids = Ids::new();
    let (tr_handler, _) = make_simple_handler(&mut ids, true);
    let tr_id = tr_handler.id;
    let (non_tr_handler, _) = make_simple_handler(&mut ids, false);
    let non_tr_id = non_tr_handler.id;

    let op1 = ids.next();
    let op2 = ids.next();
    let body_def = make_body_with_perform(&mut ids);
    let body_id = body_def.id;

    let outer_type = function(vec![], Type::no_closure_env(), Type::unit());
    let outer_id = ids.next();
    let mut outer_def = Definition::new(Arc::new("outer".to_string()), outer_id, 0, outer_type);
    let cases = vec![
        HandlerCase { effect_op: op1, handler: Value::Definition(tr_id) },
        HandlerCase { effect_op: op2, handler: Value::Definition(non_tr_id) },
    ];
    push(&mut outer_def, Instruction::Handle { body: Value::Definition(body_id), cases }, Type::unit());
    outer_def.blocks[0].terminator = Some(TerminatorInstruction::Return(Value::Unit));

    let mut mir = Mir::new();
    mir.definitions.insert(tr_id, tr_handler);
    mir.definitions.insert(non_tr_id, non_tr_handler);
    mir.definitions.insert(body_id, body_def);
    mir.definitions.insert(outer_id, outer_def);

    let mir = mir.optimize_tail_resume();
    assert_eq!(count_handles(&mir, outer_id), 1, "mixed Handle should be left alone");
    assert_eq!(count_named(&mir, "tail_resume_wrapper"), 0);
}

/// Nested tail-resumptive handlers: optimizing the outer Handle clones its body (which itself
/// contains the inner Handle). The worklist must re-process that clone so the inner Handle is
/// also eliminated.
#[test]
fn tail_resume_eliminates_nested_handle_in_clone() {
    let mut ids = Ids::new();
    let (inner_handler, _) = make_simple_handler(&mut ids, true);
    let inner_handler_id = inner_handler.id;
    let inner_op = ids.next();
    let inner_body = make_body_with_perform(&mut ids);
    let inner_body_id = inner_body.id;

    // The outer Handle's body is itself a definition containing the inner Handle.
    let (outer_body, _) = make_outer_with_handle(&mut ids, inner_body_id, inner_handler_id, inner_op, Type::unit());
    let outer_body_id = outer_body.id;

    let (outer_handler, _) = make_simple_handler(&mut ids, true);
    let outer_handler_id = outer_handler.id;
    let outer_op = ids.next();
    let (outermost, _) = make_outer_with_handle(&mut ids, outer_body_id, outer_handler_id, outer_op, Type::unit());
    let outermost_id = outermost.id;

    let mut mir = Mir::new();
    for def in [inner_handler, inner_body, outer_body, outer_handler, outermost] {
        mir.definitions.insert(def.id, def);
    }

    let mir = mir.optimize_tail_resume();

    assert_eq!(count_handles(&mir, outermost_id), 0, "outer Handle should be eliminated");
    let clone_handles: usize = mir
        .definitions
        .values()
        .filter(|d| d.name.contains("tail_resume_body"))
        .map(|d| d.instructions.iter().filter(|i| matches!(i, Instruction::Handle { .. })).count())
        .sum();
    assert_eq!(clone_handles, 0, "nested Handle in the body clone should be eliminated");
}

/// The simple case, looked at closely: the handle becomes a call of the body clone packed with
/// the capability, the wrapper forwards resume's argument, and the op keeps its position.
#[test]
fn tail_resume_rewrite_in_detail() {
    let mut ids = Ids::new();
    let (handler_def, _) = make_simple_handler(&mut ids, true);
    let handler_id = handler_def.id;
    let op_id = ids.next();
    let body_def = make_body_with_perform(&mut ids);
    let body_id = body_def.id;
    let (outer_def, handle_id) = make_outer_with_handle(&mut ids, body_id, handler_id, op_id, Type::unit());
    let outer_id = outer_def.id;

    let mut mir = Mir::new();
    mir.definitions.insert(handler_id, handler_def);
    mir.definitions.insert(body_id, body_def);
    mir.definitions.insert(outer_id, outer_def);
    assert_eq!(mir.next_free_id(), Some(DefinitionId(5)));

    let mir = mir.optimize_tail_resume();
    // The wrapper takes the first fresh id, the body clone the next one.
    let wrapper = &mir.definitions[&DefinitionId(5)];
    assert_eq!(wrapper.name.as_str(), "handler_tail_resume_wrapper");
    let u32_t = Type::integer(IntegerKind::U32);
    assert!(types_equal(&wrapper.typ, &function(vec![u32_t.clone()], Type::pointer(), u32_t.clone())));
    assert!(matches!(wrapper.instructions[0], Instruction::Id(Value::Parameter(BlockId(0), 0))));
    let clone = &mir.definitions[&DefinitionId(6)];
    assert_eq!(clone.name.as_str(), "body_tail_resume_body");
    assert_eq!(clone.blocks[0].parameter_types.len(), 1);
    assert_eq!(mir.preserved_op_indices.get(&op_id), Some(&0));

    // In the outer definition: the wrapper's null env pointer, its closure, the cap tuple, the
    // body's env, the body closure, then the reused handle id.
    let outer = &mir.definitions[&outer_id];
    let block = &outer.blocks[0].instructions;
    assert_eq!(block.len(), 6);
    assert_eq!(block[5], handle_id);
    assert!(matches!(outer.instructions[1], Instruction::Transmute(Value::Integer(IntConstant::Usz(0)))));
    assert!(matches!(
        outer.instructions[2],
        Instruction::PackClosure { function: Value::Definition(DefinitionId(5)), environment: Value::InstructionResult(InstructionId(1)) }
    ));
    match &outer.instructions[handle_id.0 as usize] {
        Instruction::CallClosure { closure, arguments } => {
            assert_eq!(*closure, Value::InstructionResult(InstructionId(5)));
            assert_eq!(arguments, &vec![Value::Unit]);
        },
        _ => panic!("the handle should have become a call"),
    }
}

#[test]
fn direct_wrapper_loads_closure_environment() {
    let u32_t = Type::integer(IntegerKind::U32);
    let env_type = Type::tuple(vec![u32_t.clone()]);
    let resume_type = function(vec![u32_t.clone()], Type::pointer(), u32_t.clone());
    let handler_type = function(vec![u32_t.clone(), resume_type.clone()], env_type.clone(), u32_t.clone());
    let mut handler = Definition::new(Arc::new("h".to_string()), DefinitionId(1), 0, handler_type.clone());
    handler.blocks[0].parameter_types = vec![u32_t.clone(), resume_type, env_type.clone()];
    let field = push(&mut handler, Instruction::IndexTuple { tuple: Value::Parameter(BlockId(0), 2), index: 0 }, u32_t.clone());
    let call = push(
        &mut handler,
        Instruction::CallClosure { closure: Value::Parameter(BlockId(0), 1), arguments: vec![Value::InstructionResult(field)] },
        u32_t.clone(),
    );
    handler.blocks[0].terminator = Some(TerminatorInstruction::Return(Value::InstructionResult(call)));
    let shape = case_shape_from_handler_type(&handler_type).unwrap();

    let wrapper = direct_wrapper(&handler, &shape, DefinitionId(9));
    assert_eq!(wrapper.id, DefinitionId(9));
    // The environment is loaded through the pointer first and replaces the env parameter.
    assert_eq!(wrapper.blocks[0].instructions, vec![InstructionId(2), field, call]);
    assert!(matches!(wrapper.instructions[2], Instruction::Deref(Value::Parameter(BlockId(0), 1))));
    assert!(types_equal(&wrapper.instruction_result_types[2], &env_type));
    assert!(matches!(
        wrapper.instructions[0],
        Instruction::IndexTuple { tuple: Value::InstructionResult(InstructionId(2)), index: 0 }
    ));
    assert!(matches!(wrapper.instructions[1], Instruction::Id(Value::InstructionResult(InstructionId(0)))));
    assert_eq!(wrapper.blocks[0].parameter_types.len(), 2);
}

fn calls(ids: &[u32]) -> Definition {
    let t = function(vec![], Type::no_closure_env(), Type::unit());
    let mut def = Definition::new(Arc::new("d".to_string()), DefinitionId(0), 0, t.clone());
    for id in ids {
        push(&mut def, Instruction::Call { function: Value::Definition(DefinitionId(*id)), arguments: vec![] }, Type::unit());
    }
    def.blocks[0].terminator = Some(TerminatorInstruction::Return(Value::Unit));
    def
}

fn program(defs: Vec<(u32, Definition)>) -> Mir {
    let mut mir = Mir::new();
    let mut map: DefinitionMap<Definition> = DefinitionMap::default();
    for (id, mut def) in defs {
        def.id = DefinitionId(id);
        map.insert(DefinitionId(id), def);
    }
    mir.definitions = map;
    mir
}

#[test]
fn owned_subtree_stops_at_shared_definitions() {
    // 1 -> 2 -> 3, and 4 -> 3 as well: 3 is shared, 2 is owned by 1.
    let mir = program(vec![(1, calls(&[2])), (2, calls(&[3])), (3, calls(&[])), (4, calls(&[3]))]);
    let mut owned = owned_subtree(&mir, DefinitionId(1));
    assert_eq!(owned[0], DefinitionId(1));
    owned.sort_by_key(|d| d.0);
    assert_eq!(owned, vec![DefinitionId(1), DefinitionId(2)]);
}

#[test]
fn remap_retargets_definitions() {
    let mut def = calls(&[2, 3]);
    remap_definition_ids(&mut def, &vec![(DefinitionId(2), DefinitionId(20))]);
    assert!(matches!(def.instructions[0], Instruction::Call { function: Value::Definition(DefinitionId(20)), .. }));
    assert!(matches!(def.instructions[1], Instruction::Call { function: Value::Definition(DefinitionId(3)), .. }));
}

#[test]
fn deep_clone_copies_owned_definitions() {
    let mut mir = program(vec![(1, calls(&[2])), (2, calls(&[])), (3, calls(&[1]))]);
    let base = mir.next_free_id().unwrap();
    assert_eq!(base, DefinitionId(4));
    let (root, pairs) = deep_clone_body_subtree(&mut mir, DefinitionId(1), base);
    assert_eq!(root, DefinitionId(4));
    assert_eq!(pairs.len(), 2);
    assert_eq!(mir.definitions.len(), 5);
    // The clone of 1 calls the clone of 2.
    let clone_of_two = pairs.iter().find(|p| p.0 == DefinitionId(2)).unwrap().1;
    assert!(matches!(
        mir.definitions[&DefinitionId(4)].instructions[0],
        Instruction::Call { function: Value::Definition(id), .. } if id == clone_of_two
    ));
    assert_eq!(mir.definitions[&DefinitionId(4)].id, DefinitionId(4));
}

#[test]
fn next_free_id_counts_every_mention() {
    let mir = program(vec![(1, calls(&[7]))]);
    assert_eq!(mir.next_free_id(), Some(DefinitionId(8)));
    assert_eq!(Mir::new().next_free_id(), Some(DefinitionId(0)));
    let full = program(vec![(1, calls(&[u32::MAX]))]);
    assert_eq!(full.next_free_id(), None);
}
