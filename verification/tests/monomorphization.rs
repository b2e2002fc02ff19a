use ante_mir::mir::closure_types::{rewrite_definition_signature, rewrite_types_in_definition, rewrite_value_type};
use ante_mir::mir::definition::Definition;
use ante_mir::mir::instruction::{Instruction, TerminatorInstruction};
use ante_mir::mir::monomorphization::{monomorphize, remap_definition_values_in_instruction};
use ante_mir::mir::program::Mir;
use ante_mir::mir::types::{types_equal, FunctionType, IntegerKind, Type};
use ante_mir::mir::values::{BlockId, DefinitionId, InstructionId, Value};
use ante_mir::name_resolution::namespace::{keep_unless_stripped, SourceFileId};
use std::sync::Arc;

fn function(parameters: Vec<Type>, environment: Type, return_type: Type) -> Type {
    Type::Function(Arc::new(FunctionType { parameters, environment, return_type }))
}

fn push(definition: &mut Definition, instruction: Instruction, typ: Type) -> InstructionId {
    let id = InstructionId(definition.instructions.len() as u32);
    definition.instructions.push(instruction);
    definition.instruction_result_types.push(typ);
    definition.blocks[0].instructions.push(id);
    id
}

/// `id: fn(T) -> T`, generic over one type, returning its parameter.
fn generic_identity(id: u32) -> Definition {
    let t = Type::generic(0);
    let mut d = Definition::new(Arc::new("id".to_string()), DefinitionId(id), 1, function(vec![t.clone()], Type::no_closure_env(), t.clone()));
    d.blocks[0].parameter_types = vec![t.clone()];
    let stack = push(&mut d, Instruction::StackAllocUninit(t.clone()), Type::pointer());
    let _ = stack;
    d.blocks[0].terminator = Some(TerminatorInstruction::Return(Value::Parameter(BlockId(0), 0)));
    d
}

/// `main` instantiating `id` at `U32` `count` times.
fn main_using(id: u32, generic: u32, count: usize) -> Definition {
    let u32_t = Type::integer(IntegerKind::U32);
    let mut d = Definition::new(Arc::new("main".to_string()), DefinitionId(id), 0, function(vec![], Type::no_closure_env(), Type::unit()));
    for _ in 0..count {
        push(
            &mut d,
            Instruction::Instantiate(DefinitionId(generic), Arc::new(vec![u32_t.clone()])),
            function(vec![u32_t.clone()], Type::no_closure_env(), u32_t.clone()),
        );
    }
    d.blocks[0].terminator = Some(TerminatorInstruction::Return(Value::Unit));
    d
}

fn program_of(definitions: Vec<Definition>) -> Mir {
    let mut mir = Mir::new();
    for definition in definitions {
        mir.definitions.insert(definition.id, definition);
    }
    mir
}

#[test]
fn instantiation_gets_a_specialized_copy() {
    let initial = program_of(vec![generic_identity(1), main_using(2, 1, 1)]);
    let m = monomorphize(&initial).expect("monomorphization succeeds");
    assert_eq!(m.definitions.len(), 2);
    let main = &m.definitions[&DefinitionId(2)];
    let new_id = match &main.instructions[0] {
        Instruction::Id(Value::Definition(new_id)) => *new_id,
        _ => panic!("the Instantiate should become the id of the copy"),
    };
    assert_eq!(new_id, DefinitionId(3));
    let copy = &m.definitions[&new_id];
    assert_eq!(copy.id, DefinitionId(3));
    assert_eq!(copy.generic_count, 0);
    let u32_t = Type::integer(IntegerKind::U32);
    assert!(types_equal(&copy.typ, &function(vec![u32_t.clone()], Type::no_closure_env(), u32_t.clone())));
    assert!(types_equal(&copy.blocks[0].parameter_types[0], &u32_t));
    match &copy.instructions[0] {
        Instruction::StackAllocUninit(t) => assert!(types_equal(t, &u32_t)),
        _ => panic!("instructions keep their kind"),
    }
}

#[test]
fn one_specialization_per_type_arguments() {
    let initial = program_of(vec![generic_identity(1), main_using(2, 1, 3)]);
    let m = monomorphize(&initial).expect("monomorphization succeeds");
    assert_eq!(m.definitions.len(), 2);
    let main = &m.definitions[&DefinitionId(2)];
    for instruction in main.instructions.iter() {
        match instruction {
            Instruction::Id(Value::Definition(id)) => assert_eq!(*id, DefinitionId(3)),
            _ => panic!("every Instantiate should name the one copy"),
        }
    }
}

#[test]
fn unused_generic_definitions_are_dropped() {
    let mut main = main_using(2, 1, 0);
    main.id = DefinitionId(2);
    let initial = program_of(vec![generic_identity(1), main]);
    let m = monomorphize(&initial).expect("monomorphization succeeds");
    assert_eq!(m.definitions.len(), 1);
    assert!(m.definitions.contains_key(&DefinitionId(2)));
}

#[test]
fn instantiate_without_type_arguments_is_refused() {
    let mut main = main_using(2, 1, 0);
    push(&mut main, Instruction::Instantiate(DefinitionId(1), Arc::new(vec![])), Type::unit());
    let initial = program_of(vec![generic_identity(1), main]);
    assert!(monomorphize(&initial).is_none());
}

#[test]
fn generic_left_in_an_entry_point_is_refused() {
    let mut main = main_using(2, 1, 0);
    push(&mut main, Instruction::SizeOf(Type::generic(0)), Type::integer(IntegerKind::U64));
    let initial = program_of(vec![main]);
    assert!(monomorphize(&initial).is_none());
}

#[test]
fn direct_reference_to_a_generic_definition_is_specialized() {
    let initial = program_of(vec![generic_identity(1)]);
    let u32_t = Type::integer(IntegerKind::U32);
    let bindings = vec![u32_t.clone()];
    let mut specialized = Vec::new();
    let mut queue = Vec::new();
    let mut next_id = DefinitionId(10);
    let mut instruction = Instruction::Call {
        function: Value::Definition(DefinitionId(1)),
        arguments: vec![Value::Definition(DefinitionId(1)), Value::Definition(DefinitionId(7))],
    };
    remap_definition_values_in_instruction(&mut instruction, &bindings, &initial, &mut specialized, &mut queue, &mut next_id);
    match &instruction {
        Instruction::Call { function, arguments } => {
            assert_eq!(*function, Value::Definition(DefinitionId(10)));
            assert_eq!(arguments[0], Value::Definition(DefinitionId(10)));
            assert_eq!(arguments[1], Value::Definition(DefinitionId(7)));
        },
        _ => panic!("the call stays a call"),
    }
    assert_eq!(next_id, DefinitionId(11));
    assert_eq!(specialized.len(), 1);
    assert_eq!(specialized[0].0, DefinitionId(1));
    assert_eq!(specialized[0].2, DefinitionId(10));
    assert_eq!(queue.len(), 1);
    assert_eq!((queue[0].0, queue[0].1), (DefinitionId(1), DefinitionId(10)));

    let mut size = Instruction::SizeOf(Type::generic(0));
    remap_definition_values_in_instruction(&mut size, &bindings, &initial, &mut specialized, &mut queue, &mut next_id);
    match &size {
        Instruction::SizeOf(t) => assert!(types_equal(t, &u32_t)),
        _ => panic!("SizeOf stays SizeOf"),
    }
    assert_eq!(next_id, DefinitionId(11));
}

#[test]
fn substitution_keeps_out_of_range_generics() {
    let t = Type::tuple(vec![Type::generic(0), Type::generic(5)]);
    let r = t.substitute(&vec![Type::bool_type()]);
    assert!(types_equal(&r, &Type::tuple(vec![Type::bool_type(), Type::generic(5)])));
    let identity: Vec<Type> = (0..6).map(Type::generic).collect();
    assert!(types_equal(&t.substitute(&identity), &t));
}

#[test]
fn normalized_paths_drop_the_root_and_src() {
    assert_eq!(SourceFileId::normalize_path("/proj", "/proj/src/main.an"), "main.an");
    assert_eq!(SourceFileId::normalize_path("/proj", "/proj/lib/a.an"), "lib/a.an");
    assert_eq!(SourceFileId::normalize_path("/proj", "other/x.an"), "other/x.an");
    assert_eq!(SourceFileId::normalize_path("/proj", "src/b.an"), "b.an");
    assert_eq!(SourceFileId::normalize_path("/proj", "/projects/src/c.an"), "/projects/src/c.an");
    assert_eq!(keep_unless_stripped("a/b", None), "a/b");
    assert_eq!(keep_unless_stripped("a/b", Some("b".to_string())), "b");
}

#[test]
fn closure_types_become_function_environment_tuples() {
    let env = Type::tuple(vec![Type::bool_type()]);
    let closure = function(vec![Type::char_type()], env.clone(), Type::unit());
    let rewritten = rewrite_value_type(&closure);
    let expected = Type::tuple(vec![
        function(vec![Type::char_type(), env.clone()], Type::no_closure_env(), Type::unit()),
        env.clone(),
    ]);
    assert!(types_equal(&rewritten, &expected));
    let plain = function(vec![Type::char_type()], Type::no_closure_env(), Type::unit());
    assert!(types_equal(&rewrite_value_type(&plain), &plain));
    let signature = rewrite_definition_signature(&closure);
    assert!(types_equal(&signature, &function(vec![Type::char_type(), env.clone()], Type::no_closure_env(), Type::unit())));
}

#[test]
fn no_closure_type_is_left_after_rewriting() {
    let env = Type::tuple(vec![Type::bool_type()]);
    let closure = function(vec![Type::char_type()], env.clone(), Type::unit());
    let mut d = Definition::new(Arc::new("f".to_string()), DefinitionId(1), 0, closure.clone());
    d.blocks[0].parameter_types = vec![Type::char_type(), closure.clone()];
    push(&mut d, Instruction::SizeOf(closure.clone()), Type::integer(IntegerKind::U64));
    push(&mut d, Instruction::Id(Value::Definition(DefinitionId(1))), closure.clone());
    d.blocks[0].terminator = Some(TerminatorInstruction::Return(Value::Unit));
    let before = program_of(vec![d]);
    assert!(!before.check_no_closure_types());
    let mut d = before.definitions[&DefinitionId(1)].clone_with_id(DefinitionId(1));
    rewrite_types_in_definition(&mut d);
    // The instruction passing a definition keeps a plain function type.
    assert!(types_equal(
        &d.instruction_result_types[1],
        &function(vec![Type::char_type(), env.clone()], Type::no_closure_env(), Type::unit())
    ));
    let after = program_of(vec![d]);
    assert!(after.check_no_closure_types());
}

#[test]
fn lowered_closures_leave_no_closure_behind() {
    let env = Type::tuple(vec![Type::bool_type()]);
    let closure = function(vec![], env.clone(), Type::unit());
    let mut g = Definition::new(Arc::new("g".to_string()), DefinitionId(1), 0, closure.clone());
    g.blocks[0].terminator = Some(TerminatorInstruction::Return(Value::Unit));
    let mut main = Definition::new(Arc::new("main".to_string()), DefinitionId(2), 0, function(vec![], Type::no_closure_env(), Type::unit()));
    let tuple = push(&mut main, Instruction::MakeTuple(vec![Value::Bool(true)]), env.clone());
    let pack = push(
        &mut main,
        Instruction::PackClosure { function: Value::Definition(DefinitionId(1)), environment: Value::InstructionResult(tuple) },
        closure.clone(),
    );
    push(&mut main, Instruction::CallClosure { closure: Value::InstructionResult(pack), arguments: vec![] }, Type::unit());
    main.blocks[0].terminator = Some(TerminatorInstruction::Return(Value::Unit));
    let mir = program_of(vec![g, main]);
    assert!(!mir.check_no_closure_types());
    let lowered = mir.lower_closures().expect("closures lower");
    assert!(lowered.check_no_closure_types());
    let g = &lowered.definitions[&DefinitionId(1)];
    assert!(types_equal(&g.typ, &function(vec![env.clone()], Type::no_closure_env(), Type::unit())));
}

#[test]
fn unresolvable_closure_call_is_refused() {
    let mut main = Definition::new(Arc::new("main".to_string()), DefinitionId(2), 0, function(vec![], Type::no_closure_env(), Type::unit()));
    push(&mut main, Instruction::CallClosure { closure: Value::InstructionResult(InstructionId(9)), arguments: vec![] }, Type::unit());
    main.blocks[0].terminator = Some(TerminatorInstruction::Return(Value::Unit));
    assert!(program_of(vec![main]).lower_closures().is_none());
}
