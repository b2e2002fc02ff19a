use ante_mir::mir::definition::{Block, Definition, Extern};
use ante_mir::mir::instruction::{Instruction, TerminatorInstruction};
use ante_mir::mir::lower_closures::{
    eliminate_redundant_closures, fix_fn_ptr_id_chains, is_no_closure_env, lower_one_call_closure,
    remove_no_closure_env_parameter_references,
};
use ante_mir::mir::program::Mir;
use ante_mir::mir::types::{types_equal, FunctionType, IntegerKind, Type};
use ante_mir::mir::validation::{check_types, find_union_or_generic, UnionOrGenericAt, ValidationError};
use ante_mir::mir::values::{BlockId, DefinitionId, InstructionId, IntConstant, Value};
use rustc_hash::FxHashMap;
use std::sync::Arc;

fn function(parameters: Vec<Type>, environment: Type, return_type: Type) -> Type {
    Type::Function(Arc::new(FunctionType { parameters, environment, return_type }))
}

fn new_definition(name: &str, id: u32, typ: Type) -> Definition {
    Definition::new(Arc::new(name.to_string()), DefinitionId(id), 0, typ)
}

fn push(definition: &mut Definition, block: usize, instruction: Instruction, typ: Type) -> InstructionId {
    let id = InstructionId(definition.instructions.len() as u32);
    definition.instructions.push(instruction);
    definition.instruction_result_types.push(typ);
    definition.blocks[block].instructions.push(id);
    id
}

/// `fn main: fn I32 -> I32` returning its parameter plus one.
fn increment() -> Definition {
    let i32_t = Type::integer(IntegerKind::I32);
    let mut definition = new_definition("main", 1, function(vec![i32_t.clone()], Type::no_closure_env(), i32_t.clone()));
    definition.blocks[0].parameter_types = vec![i32_t.clone()];
    let sum = push(
        &mut definition,
        0,
        Instruction::AddInt(Value::Parameter(BlockId(0), 0), Value::Integer(IntConstant::I32(1))),
        i32_t,
    );
    definition.blocks[0].terminator = Some(TerminatorInstruction::Return(Value::InstructionResult(sum)));
    definition
}

fn program_of(definitions: Vec<Definition>) -> Mir {
    let mut mir = Mir::new();
    for definition in definitions {
        mir.definitions.insert(definition.id, definition);
    }
    mir
}

#[test]
fn well_typed_definition_checks() {
    let definition = increment();
    let mir = program_of(vec![]);
    assert_eq!(check_types(&definition, &mir), Ok(()));
    let mir = program_of(vec![increment()]);
    assert_eq!(mir.type_check(), Ok(()));
}

#[test]
fn each_kind_of_type_error_is_found() {
    let mir = program_of(vec![]);
    // Adding booleans is not integer arithmetic.
    let mut bad_instruction = increment();
    bad_instruction.instructions[0] = Instruction::AddInt(Value::Bool(true), Value::Bool(false));
    assert_eq!(check_types(&bad_instruction, &mir), Err(ValidationError::Instruction(InstructionId(0))));
    // A block without a terminator.
    let mut no_terminator = increment();
    no_terminator.blocks[0].terminator = None;
    assert_eq!(check_types(&no_terminator, &mir), Err(ValidationError::Terminator(BlockId(0))));
    // An entry block whose parameters do not match the function type.
    let mut bad_parameters = increment();
    bad_parameters.blocks[0].parameter_types.push(Type::bool_type());
    assert_eq!(check_types(&bad_parameters, &mir), Err(ValidationError::Parameters));
    let mir = program_of(vec![bad_instruction]);
    assert_eq!(mir.type_check(), Err((DefinitionId(1), ValidationError::Instruction(InstructionId(0)))));
}

#[test]
fn unions_and_generics_are_found() {
    let definition = increment();
    assert_eq!(find_union_or_generic(&definition), None);
    let mut with_generic = increment();
    with_generic.instruction_result_types[0] = Type::generic(0);
    assert_eq!(find_union_or_generic(&with_generic), Some(UnionOrGenericAt::ResultType(InstructionId(0))));
    let mut with_union = increment();
    with_union.blocks[0].parameter_types[0] = Type::union(vec![Type::unit()]);
    assert_eq!(find_union_or_generic(&with_union), Some(UnionOrGenericAt::BlockParameter(BlockId(0))));
    let generic_fn = new_definition("g", 2, Type::generic(0));
    assert_eq!(find_union_or_generic(&generic_fn), Some(UnionOrGenericAt::DefinitionType));
    let mir = program_of(vec![generic_fn]);
    assert_eq!(mir.find_union_or_generic(), Some((DefinitionId(2), UnionOrGenericAt::DefinitionType)));
}

#[test]
fn unreachable_definitions_are_removed() {
    let mut main = increment();
    let call = push(
        &mut main,
        0,
        Instruction::Call { function: Value::Definition(DefinitionId(2)), arguments: vec![] },
        Type::unit(),
    );
    let _ = call;
    let helper = new_definition("helper", 2, Type::unit());
    let unused = new_definition("unused", 3, Type::unit());
    let mir = program_of(vec![main, helper, unused]).remove_unreachable_functions();
    assert!(mir.definitions.contains_key(&DefinitionId(1)));
    assert!(mir.definitions.contains_key(&DefinitionId(2)));
    assert!(!mir.definitions.contains_key(&DefinitionId(3)));
}

#[test]
fn without_main_nothing_is_removed() {
    let mir = program_of(vec![new_definition("a", 1, Type::unit()), new_definition("b", 2, Type::unit())]);
    let mir = mir.remove_unreachable_functions();
    assert_eq!(mir.definitions.len(), 2);
}

#[test]
fn extend_prefers_the_other_program() {
    let first = program_of(vec![new_definition("a", 1, Type::unit()), new_definition("b", 2, Type::unit())]);
    let second = program_of(vec![new_definition("c", 2, Type::unit())]);
    let both = first.extend(second);
    assert_eq!(both.definitions.len(), 2);
    assert_eq!(both.get_name(DefinitionId(2)).unwrap().as_str(), "c");
    assert!(both.get(DefinitionId(3)).is_none());
}

#[test]
fn internal_externs_are_dropped() {
    let mut mir = program_of(vec![new_definition("a", 1, Type::unit())]);
    mir.externals.insert(DefinitionId(1), Extern { name: Arc::new("a".to_string()), typ: Type::unit() });
    mir.externals.insert(DefinitionId(5), Extern { name: Arc::new("puts".to_string()), typ: Type::unit() });
    let mir = mir.remove_internal_externs();
    assert_eq!(mir.externals.len(), 1);
    assert!(mir.externals.contains_key(&DefinitionId(5)));
    assert_eq!(mir.get_name(DefinitionId(5)).unwrap().as_str(), "puts");
}

#[test]
fn type_of_values() {
    let definition = increment();
    let mir = program_of(vec![]);
    assert!(types_equal(&mir.type_of_value(&Value::InstructionResult(InstructionId(0)), &definition), &Type::integer(IntegerKind::I32)));
    assert!(types_equal(&mir.type_of_value(&Value::Parameter(BlockId(5), 0), &definition), &Type::error()));
    assert!(definition.try_type_of_value(&Value::Definition(DefinitionId(77)), &mir.externals, &mir.definitions).is_none());
    assert!(types_equal(&mir.type_of_value(&Value::Definition(DefinitionId(1)), &definition), &definition.typ));
}

#[test]
fn referenced_definitions_are_listed_in_order() {
    let mut definition = new_definition("f", 1, Type::unit());
    push(
        &mut definition,
        0,
        Instruction::Call { function: Value::Definition(DefinitionId(4)), arguments: vec![Value::Definition(DefinitionId(5))] },
        Type::unit(),
    );
    push(&mut definition, 0, Instruction::Instantiate(DefinitionId(6), Arc::new(vec![])), Type::unit());
    definition.blocks[0].terminator = Some(TerminatorInstruction::Return(Value::Definition(DefinitionId(7))));
    assert_eq!(
        definition.for_each_referenced_definition(),
        vec![DefinitionId(4), DefinitionId(5), DefinitionId(6), DefinitionId(7)]
    );
    assert!(!definition.is_global());
    assert!(definition.is_monomorphic());
}

#[test]
fn no_closure_env_arguments_are_dropped() {
    let mut definition = new_definition("f", 1, Type::unit());
    definition.blocks[0].parameter_types = vec![Type::no_closure_env(), Type::unit()];
    let env = Value::Parameter(BlockId(0), 0);
    let other = Value::Parameter(BlockId(0), 1);
    push(&mut definition, 0, Instruction::Call { function: Value::Unit, arguments: vec![env, other, env] }, Type::unit());
    push(&mut definition, 0, Instruction::MakeTuple(vec![env]), Type::unit());
    assert!(is_no_closure_env(&Type::no_closure_env()));
    remove_no_closure_env_parameter_references(&mut definition);
    match &definition.instructions[0] {
        Instruction::Call { arguments, .. } => assert_eq!(arguments, &vec![other]),
        _ => panic!("instruction kind changed"),
    }
    match &definition.instructions[1] {
        Instruction::MakeTuple(values) => assert_eq!(values, &vec![env]),
        _ => panic!("instruction kind changed"),
    }
}

#[test]
fn closures_without_environment_become_plain_calls() {
    let plain = function(vec![], Type::no_closure_env(), Type::unit());
    let closure = function(vec![], Type::pointer(), Type::unit());
    let mut definition = new_definition("f", 1, Type::unit());
    let pack = push(
        &mut definition,
        0,
        Instruction::PackClosure { function: Value::Definition(DefinitionId(2)), environment: Value::Unit },
        plain.clone(),
    );
    push(
        &mut definition,
        0,
        Instruction::CallClosure { closure: Value::InstructionResult(pack), arguments: vec![] },
        Type::unit(),
    );
    push(&mut definition, 0, Instruction::CallClosure { closure: Value::Definition(DefinitionId(3)), arguments: vec![] }, Type::unit());
    let mut types: FxHashMap<DefinitionId, Type> = FxHashMap::default();
    types.insert(DefinitionId(3), closure);
    eliminate_redundant_closures(&mut definition, &types);
    assert!(matches!(definition.instructions[0], Instruction::Id(Value::Definition(DefinitionId(2)))));
    assert!(matches!(definition.instructions[1], Instruction::Call { function, .. } if function == Value::InstructionResult(pack)));
    assert!(matches!(definition.instructions[2], Instruction::CallClosure { .. }));
}

#[test]
fn closure_call_is_expanded() {
    let mut definition = new_definition("f", 1, Type::unit());
    let before = push(&mut definition, 0, Instruction::MakeTuple(vec![]), Type::unit());
    let closure = Value::Parameter(BlockId(0), 0);
    let call = push(&mut definition, 0, Instruction::CallClosure { closure, arguments: vec![Value::Unit] }, Type::unit());
    let fn_type = function(vec![Type::unit(), Type::pointer()], Type::no_closure_env(), Type::unit());
    lower_one_call_closure(&mut definition, BlockId(0), call, fn_type, Type::pointer(), closure, vec![Value::Unit]);
    assert_eq!(definition.blocks[0].instructions, vec![before, InstructionId(2), InstructionId(3), call]);
    match &definition.instructions[call.0 as usize] {
        Instruction::Call { function, arguments } => {
            assert_eq!(*function, Value::InstructionResult(InstructionId(2)));
            assert_eq!(arguments, &vec![Value::Unit, Value::InstructionResult(InstructionId(3))]);
        },
        _ => panic!("expected a plain call"),
    }
    assert!(matches!(definition.instructions[2], Instruction::IndexTuple { index: 0, .. }));
    assert!(matches!(definition.instructions[3], Instruction::IndexTuple { index: 1, .. }));
}

#[test]
fn function_pointer_chains_keep_function_types() {
    let f = function(vec![], Type::no_closure_env(), Type::unit());
    let pair = Type::tuple(vec![f.clone(), Type::pointer()]);
    let mut definition = new_definition("f", 1, Type::unit());
    push(&mut definition, 0, Instruction::Id(Value::Definition(DefinitionId(2))), pair.clone());
    push(&mut definition, 0, Instruction::Id(Value::InstructionResult(InstructionId(0))), pair.clone());
    push(&mut definition, 0, Instruction::MakeTuple(vec![]), pair.clone());
    fix_fn_ptr_id_chains(&mut definition);
    assert!(types_equal(&definition.instruction_result_types[0], &f));
    assert!(types_equal(&definition.instruction_result_types[1], &f));
    assert!(types_equal(&definition.instruction_result_types[2], &pair));
}

#[test]
fn entry_block_and_parameters() {
    let definition = increment();
    assert_eq!(definition.entry_block().parameter_types.len(), 1);
    let parameters = definition.parameters();
    assert_eq!(parameters.len(), 1);
    assert_eq!(parameters[0].0, Value::Parameter(BlockId(0), 0));
    let mut global = new_definition("g", 3, Type::unit());
    global.blocks[0].terminator = Some(TerminatorInstruction::Result(Value::Unit));
    assert!(global.is_global());
    let clone = definition.clone_with_id(DefinitionId(8));
    assert_eq!(clone.id, DefinitionId(8));
    assert_eq!(clone.instructions.len(), definition.instructions.len());
    let _unused: Vec<Block> = Vec::new();
}
