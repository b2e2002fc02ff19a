use ante_mir::mir::definition::Definition;
use ante_mir::mir::effects::abort::CaseDecision;
use ante_mir::mir::effects::abort_pass::abort_wrapper;
use ante_mir::mir::effects::lowering::case_shape_from_handler_type;
use ante_mir::mir::instruction::{HandlerCase, Instruction, TerminatorInstruction};
use ante_mir::mir::program::Mir;
use ante_mir::mir::types::{FunctionType, IntegerKind, Type};
use ante_mir::mir::values::{BlockId, DefinitionId, InstructionId, Value};
use std::sync::Arc;

fn function(parameters: Vec<Type>, environment: Type, return_type: Type) -> Type {
    Type::Function(Arc::new(FunctionType { parameters, environment, return_type }))
}

fn push(def: &mut Definition, instruction: Instruction, typ: Type) -> InstructionId {
    let id = InstructionId(def.instructions.len() as u32);
    def.instructions.push(instruction);
    def.instruction_result_types.push(typ);
    def.blocks[0].instructions.push(id);
    id
}

/// A handler `fn(x: U32, resume: fn U32 [Pointer] -> U32) -> U32` that returns `x` without
/// resuming, or that resumes with `x` where `resumes` is true.
fn handler(id: u32, resumes: bool) -> (Definition, Type) {
    let u32_t = Type::integer(IntegerKind::U32);
    let resume_type = function(vec![u32_t.clone()], Type::pointer(), u32_t.clone());
    let handler_type = function(vec![u32_t.clone(), resume_type.clone()], Type::no_closure_env(), u32_t.clone());
    let mut def = Definition::new(Arc::new("handler".to_string()), DefinitionId(id), 0, handler_type.clone());
    def.blocks[0].parameter_types = vec![u32_t.clone(), resume_type];
    let x = Value::Parameter(BlockId(0), 0);
    if resumes {
        let call = push(
            &mut def,
            Instruction::CallClosure { closure: Value::Parameter(BlockId(0), 1), arguments: vec![x] },
            u32_t.clone(),
        );
        def.blocks[0].terminator = Some(TerminatorInstruction::Return(Value::InstructionResult(call)));
    } else {
        def.blocks[0].terminator = Some(TerminatorInstruction::Return(x));
    }
    (def, handler_type)
}

fn body(id: u32) -> Definition {
    let body_type = function(vec![], Type::no_closure_env(), Type::integer(IntegerKind::U32));
    let mut def = Definition::new(Arc::new("body".to_string()), DefinitionId(id), 0, body_type);
    def.blocks[0].terminator = Some(TerminatorInstruction::Return(Value::Unit));
    def
}

fn outer(id: u32, body_id: u32, handler_id: u32, op: u32) -> (Definition, InstructionId) {
    let u32_t = Type::integer(IntegerKind::U32);
    let outer_type = function(vec![], Type::no_closure_env(), u32_t.clone());
    let mut def = Definition::new(Arc::new("outer".to_string()), DefinitionId(id), 0, outer_type);
    let cases = vec![HandlerCase { effect_op: DefinitionId(op), handler: Value::Definition(DefinitionId(handler_id)) }];
    let handle = push(&mut def, Instruction::Handle { body: Value::Definition(DefinitionId(body_id)), cases }, u32_t);
    def.blocks[0].terminator = Some(TerminatorInstruction::Return(Value::InstructionResult(handle)));
    (def, handle)
}

fn program(resumes: bool) -> (Mir, InstructionId) {
    let (h, _) = handler(1, resumes);
    let b = body(2);
    let (o, handle) = outer(3, 2, 1, 4);
    let mut mir = Mir::new();
    mir.definitions.insert(DefinitionId(1), h);
    mir.definitions.insert(DefinitionId(2), b);
    mir.definitions.insert(DefinitionId(3), o);
    (mir, handle)
}

fn count_handles(mir: &Mir, id: DefinitionId) -> usize {
    mir.definitions[&id].instructions.iter().filter(|i| matches!(i, Instruction::Handle { .. })).count()
}

#[test]
fn abort_only_handle_is_lowered_to_setjmp() {
    let (mir, handle) = program(false);
    let mir = mir.optimize_abort_handlers();
    assert_eq!(count_handles(&mir, DefinitionId(3)), 0);
    // The wrapper takes the first fresh id (5, past the effect op 4), the body clone the next.
    assert_eq!(mir.definitions[&DefinitionId(5)].name.as_str(), "handler_abort_wrapper_0");
    assert_eq!(mir.definitions[&DefinitionId(6)].name.as_str(), "body_tail_resume_body");
    assert_eq!(mir.preserved_op_indices.get(&DefinitionId(4)), Some(&0));

    let outer = &mir.definitions[&DefinitionId(3)];
    // The handle's block, then, else and merge blocks.
    assert_eq!(outer.blocks.len(), 4);
    assert!(matches!(
        outer.blocks[0].terminator,
        Some(TerminatorInstruction::If { then: (BlockId(1), None), else_: (BlockId(2), None), end: BlockId(3), .. })
    ));
    assert!(matches!(outer.blocks[1].terminator, Some(TerminatorInstruction::Jmp((BlockId(3), None)))));
    assert!(matches!(outer.blocks[2].terminator, Some(TerminatorInstruction::Jmp((BlockId(3), None)))));
    // The merge block loads the result slot under the handle's own id and returns it.
    assert_eq!(outer.blocks[3].instructions, vec![handle]);
    assert!(matches!(outer.instructions[handle.0 as usize], Instruction::Deref(_)));
    assert!(matches!(outer.blocks[3].terminator, Some(TerminatorInstruction::Return(Value::InstructionResult(h))) if h == handle));
    // The then block calls the body closure and stores its result.
    assert_eq!(outer.blocks[1].instructions.len(), 2);
    let call = outer.blocks[1].instructions[0];
    assert!(matches!(outer.instructions[call.0 as usize], Instruction::CallClosure { .. }));
}

#[test]
fn resuming_handle_is_left_alone() {
    let (mir, _) = program(true);
    let mir = mir.optimize_abort_handlers();
    assert_eq!(count_handles(&mir, DefinitionId(3)), 1);
    assert_eq!(mir.definitions.len(), 3);
}

#[test]
fn abort_wrapper_longjmps_instead_of_returning() {
    let (h, handler_type) = handler(1, false);
    let shape = case_shape_from_handler_type(&handler_type).unwrap();
    let decision = CaseDecision {
        handler_def_id: DefinitionId(1),
        handler_env: None,
        handler_bindings: None,
        handler_env_type: Type::unit(),
        handler_is_closure: false,
        shape,
    };
    let w = abort_wrapper(&h, &decision, 2, DefinitionId(9));
    assert_eq!(w.name.as_str(), "handler_abort_wrapper_2");
    assert_eq!(w.id, DefinitionId(9));
    // Prologue: load (buf, slot, env) and take buf and slot out; then the longjmp extern.
    assert!(matches!(w.instructions[0], Instruction::Deref(Value::Parameter(BlockId(0), 1))));
    assert!(matches!(w.instructions[3], Instruction::Extern(ref name) if name.as_str() == "mco_abort_longjmp"));
    assert!(matches!(
        w.instructions[4],
        Instruction::Store { pointer: Value::InstructionResult(InstructionId(2)), value: Value::Parameter(BlockId(0), 0) }
    ));
    assert!(matches!(w.instructions[5], Instruction::Call { function: Value::InstructionResult(InstructionId(3)), .. }));
    assert_eq!(w.blocks[0].instructions, vec![InstructionId(0), InstructionId(1), InstructionId(2), InstructionId(3), InstructionId(4), InstructionId(5)]);
    assert!(matches!(w.blocks[0].terminator, Some(TerminatorInstruction::Unreachable)));
}
