//! The second step of closure lowering: closure types become `(function, environment)` tuples.
//!
//! A closure type `fn(params) [env] -> ret` becomes the tuple of a plain function that takes the
//! environment as its last parameter, `fn(params, env) -> ret`, and the environment. A function
//! type without an environment keeps its shape. After this step no closure type is left.
use crate::fx::{DefinitionMap, fx_map_get, fx_map_insert, fx_map_keys, fx_map_new};
use crate::mir::definition::Definition;
use crate::mir::program::Mir;
use crate::mir::instruction::{Instruction, InstructionView};
use crate::mir::lower_closures::{fix_fn_ptr_id_chains, is_no_closure_env};
use crate::mir::types::{FunctionType, FunctionTypeView, PrimitiveType, Type, TypeView, is_no_closure_env_view, lemma_types_view, types_view};
use crate::mir::values::{DefinitionId, Value};
use std::sync::Arc;
use vstd::prelude::*;

verus! {

broadcast use lemma_types_view;

pub open spec fn no_closure_env_view() -> TypeView {
    TypeView::Primitive(PrimitiveType::NoClosureEnv)
}

/// `t` with each closure type rewritten into a `(function, environment)` tuple.
pub open spec fn rewritten_type(t: TypeView) -> TypeView
    decreases t,
{
    match t {
        TypeView::Tuple(fields) => TypeView::Tuple(rewritten_types(fields)),
        TypeView::Union(fields) => TypeView::Union(rewritten_types(fields)),
        TypeView::Array(length, element) => TypeView::Array(
            Box::new(rewritten_type(*length)),
            Box::new(rewritten_type(*element)),
        ),
        TypeView::Function(f) => {
            let return_type = rewritten_type(f.return_type);
            let env = rewritten_type(f.environment);
            let parameters = rewritten_types(f.parameters);
            if is_no_closure_env_view(f.environment) {
                TypeView::Function(Box::new(FunctionTypeView { parameters, environment: env, return_type }))
            } else {
                TypeView::Tuple(
                    seq![
                        TypeView::Function(
                            Box::new(
                                FunctionTypeView {
                                    parameters: parameters.push(env),
                                    environment: no_closure_env_view(),
                                    return_type,
                                },
                            ),
                        ),
                        env,
                    ],
                )
            }
        },
        _ => t,
    }
}

/// [rewritten_type] of each type of `s`.
pub open spec fn rewritten_types(s: Seq<TypeView>) -> Seq<TypeView>
    decreases s,
{
    if s.len() == 0 {
        Seq::empty()
    } else {
        seq![rewritten_type(s[0])] + rewritten_types(s.subrange(1, s.len() as int))
    }
}

pub broadcast proof fn lemma_rewritten_types(s: Seq<TypeView>)
    ensures
        #[trigger] rewritten_types(s).len() == s.len(),
        forall|i: int| 0 <= i < s.len() ==> #[trigger] rewritten_types(s)[i] == rewritten_type(s[i]),
    decreases s.len(),
{
    if s.len() > 0 {
        lemma_rewritten_types(s.subrange(1, s.len() as int));
        assert forall|i: int| 0 <= i < s.len() implies #[trigger] rewritten_types(s)[i] == rewritten_type(s[i]) by {
            if i > 0 {
                assert(s.subrange(1, s.len() as int)[i - 1] == s[i]);
            }
        }
    }
}

/// The type of a definition with its closure types rewritten: a function type takes its
/// environment, if it has one, as its last parameter and has none left; any other type is
/// rewritten as a value type.
pub open spec fn rewritten_signature(t: TypeView) -> TypeView {
    match t {
        TypeView::Function(f) => {
            let parameters = rewritten_types(f.parameters);
            TypeView::Function(
                Box::new(
                    FunctionTypeView {
                        parameters: if is_no_closure_env_view(f.environment) {
                            parameters
                        } else {
                            parameters.push(rewritten_type(f.environment))
                        },
                        environment: no_closure_env_view(),
                        return_type: rewritten_type(f.return_type),
                    },
                ),
            )
        },
        _ => rewritten_type(t),
    }
}

/// No closure type is left in `t`: every function type in it has no environment.
pub open spec fn closure_free(t: TypeView) -> bool
    decreases t,
{
    match t {
        TypeView::Tuple(fields) => all_closure_free(fields),
        TypeView::Union(fields) => all_closure_free(fields),
        TypeView::Array(length, element) => closure_free(*length) && closure_free(*element),
        TypeView::Function(f) => is_no_closure_env_view(f.environment) && closure_free(f.return_type)
            && all_closure_free(f.parameters),
        _ => true,
    }
}

/// [closure_free] of each type of `s`.
pub open spec fn all_closure_free(s: Seq<TypeView>) -> bool
    decreases s,
{
    if s.len() == 0 {
        true
    } else {
        closure_free(s[0]) && all_closure_free(s.subrange(1, s.len() as int))
    }
}

proof fn lemma_all_closure_free_push(s: Seq<TypeView>, t: TypeView)
    requires
        all_closure_free(s),
        closure_free(t),
    ensures
        all_closure_free(s.push(t)),
    decreases s.len(),
{
    if s.len() > 0 {
        lemma_all_closure_free_push(s.subrange(1, s.len() as int), t);
        assert(s.push(t).subrange(1, s.push(t).len() as int) =~= s.subrange(1, s.len() as int).push(t));
        assert(s.push(t)[0] == s[0]);
    } else {
        assert(s.push(t).subrange(1, 1) =~= Seq::<TypeView>::empty());
        assert(s.push(t)[0] == t);
        assert(all_closure_free(Seq::<TypeView>::empty()));
    }
}

/// Rewriting a type leaves no closure type in it.
pub proof fn lemma_rewritten_closure_free(t: TypeView)
    ensures
        closure_free(rewritten_type(t)),
    decreases t,
{
    match t {
        TypeView::Tuple(fields) => lemma_rewritten_all_closure_free(fields),
        TypeView::Union(fields) => lemma_rewritten_all_closure_free(fields),
        TypeView::Array(length, element) => {
            lemma_rewritten_closure_free(*length);
            lemma_rewritten_closure_free(*element);
        },
        TypeView::Function(f) => {
            lemma_rewritten_closure_free(f.return_type);
            lemma_rewritten_closure_free(f.environment);
            lemma_rewritten_all_closure_free(f.parameters);
            let parameters = rewritten_types(f.parameters);
            let env = rewritten_type(f.environment);
            if !is_no_closure_env_view(f.environment) {
                lemma_all_closure_free_push(parameters, env);
                let fun = TypeView::Function(
                    Box::new(
                        FunctionTypeView {
                            parameters: parameters.push(env),
                            environment: no_closure_env_view(),
                            return_type: rewritten_type(f.return_type),
                        },
                    ),
                );
                assert(seq![fun, env].subrange(1, 2) =~= seq![env]);
                assert(seq![env].subrange(1, 1) =~= Seq::<TypeView>::empty());
                assert(seq![fun, env][0] == fun);
                assert(seq![env][0] == env);
                assert(all_closure_free(Seq::<TypeView>::empty()));
                assert(closure_free(fun));
                assert(all_closure_free(seq![env]));
                assert(all_closure_free(seq![fun, env]));
            }
        },
        _ => {},
    }
}

/// Rewriting each type of `s` leaves no closure type in them.
pub proof fn lemma_rewritten_all_closure_free(s: Seq<TypeView>)
    ensures
        all_closure_free(rewritten_types(s)),
    decreases s,
{
    if s.len() > 0 {
        lemma_rewritten_closure_free(s[0]);
        lemma_rewritten_all_closure_free(s.subrange(1, s.len() as int));
        assert(rewritten_types(s).subrange(1, rewritten_types(s).len() as int) =~= rewritten_types(
            s.subrange(1, s.len() as int),
        ));
    }
}

/// A definition's rewritten type leaves no closure type in it.
pub proof fn lemma_rewritten_signature_closure_free(t: TypeView)
    ensures
        closure_free(rewritten_signature(t)),
{
    match t {
        TypeView::Function(f) => {
            lemma_rewritten_closure_free(f.return_type);
            lemma_rewritten_closure_free(f.environment);
            lemma_rewritten_all_closure_free(f.parameters);
            if !is_no_closure_env_view(f.environment) {
                lemma_all_closure_free_push(rewritten_types(f.parameters), rewritten_type(f.environment));
            }
        },
        _ => lemma_rewritten_closure_free(t),
    }
}

fn rewrite_value_types(types: &Vec<Type>) -> (r: Vec<Type>)
    ensures
        types_view(r@) == rewritten_types(types_view(types@)),
    decreases types,
{
    let ghost s = types_view(types@);
    let mut r: Vec<Type> = Vec::new();
    let mut i: usize = 0;
    while i < types.len()
        invariant
            0 <= i <= types@.len(),
            s == types_view(types@),
            s.len() == types@.len(),
            r@.len() == i,
            forall|j: int| 0 <= j < i ==> #[trigger] r@[j]@ == rewritten_type(s[j]),
        decreases types@.len() - i,
    {
        let t = rewrite_value_type(&types[i]);
        r.push(t);
        proof {
            assert(s[i as int] == types@[i as int]@);
        }
        i = i + 1;
    }
    proof {
        lemma_rewritten_types(s);
        lemma_types_view(r@);
        assert forall|j: int| 0 <= j < r@.len() implies #[trigger] types_view(r@)[j] == rewritten_types(s)[j] by {
            assert(types_view(r@)[j] == r@[j]@);
        }
        assert(types_view(r@) =~= rewritten_types(s));
    }
    r
}

/// Whether `t` is the type of no environment.
fn has_no_env(t: &Type) -> (r: bool)
    ensures
        r == is_no_closure_env_view(t@),
{
    match t {
        Type::Primitive(PrimitiveType::NoClosureEnv) => true,
        _ => false,
    }
}

/// Rewrite closure types into: `Tuple(fn, env)`
pub fn rewrite_value_type(typ: &Type) -> (r: Type)
    ensures
        r@ == rewritten_type(typ@),
    decreases typ,
{
    match typ {
        Type::Tuple(fields) => Type::Tuple(Arc::new(rewrite_value_types(fields))),
        Type::Union(fields) => Type::Union(Arc::new(rewrite_value_types(fields))),
        Type::Array { length, element } => Type::Array {
            length: Arc::new(rewrite_value_type(length)),
            element: Arc::new(rewrite_value_type(element)),
        },
        Type::Function(f) => {
            let return_type = rewrite_value_type(&f.return_type);
            let env_type = rewrite_value_type(&f.environment);
            let mut parameters = rewrite_value_types(&f.parameters);
            if has_no_env(&f.environment) {
                let r = Type::Function(Arc::new(FunctionType { parameters, environment: env_type, return_type }));
                proof {
                    assert(r@->Function_0 == rewritten_type(typ@)->Function_0);
                }
                r
            } else {
                let env_copy = env_type.clone();
                let ghost before = parameters@;
                parameters.push(env_copy);
                proof {
                    crate::mir::types::lemma_types_view_push(before, env_copy);
                    assert(types_view(parameters@) == rewritten_types(types_view(f.parameters@)).push(env_type@));
                }
                let ghost params_view = types_view(parameters@);
                let no_env = Type::no_closure_env();
                assert(no_env@ == no_closure_env_view());
                let normalized_fn = Type::Function(
                    Arc::new(FunctionType { parameters, environment: no_env, return_type }),
                );
                let mut pair: Vec<Type> = Vec::new();
                pair.push(normalized_fn);
                pair.push(env_type);
                let r = Type::Tuple(Arc::new(pair));
                proof {
                    lemma_types_view(pair@);
                    assert(normalized_fn@->Function_0.parameters == params_view);
                    let want = rewritten_type(typ@)->Tuple_0[0];
                    assert(want is Function);
                    assert(normalized_fn@->Function_0.environment == want->Function_0.environment);
                    assert(normalized_fn@->Function_0.return_type == want->Function_0.return_type);
                    assert(normalized_fn@->Function_0.parameters == want->Function_0.parameters);
                    assert(normalized_fn@->Function_0 == want->Function_0);
                    assert(normalized_fn@ == want);
                    assert(env_type@ == rewritten_type(typ@)->Tuple_0[1]);
                    assert(pair@[0]@ == types_view(pair@)[0]);
                    assert(pair@[1]@ == types_view(pair@)[1]);
                    assert(types_view(pair@) =~= rewritten_type(typ@)->Tuple_0);
                }
                r
            }
        },
        Type::Primitive(p) => Type::Primitive(*p),
        Type::U32(n) => Type::U32(*n),
        Type::Generic(g) => Type::Generic(*g),
    }
}


/// The type of a definition with its closure types rewritten ([rewritten_signature]).
pub fn rewrite_definition_signature(typ: &Type) -> (r: Type)
    ensures
        r@ == rewritten_signature(typ@),
{
    match typ {
        Type::Function(f) => {
            let return_type = rewrite_value_type(&f.return_type);
            let env_type = rewrite_value_type(&f.environment);
            let mut parameters = rewrite_value_types(&f.parameters);
            let ghost before = parameters@;
            let closure = !has_no_env(&f.environment);
            if closure {
                parameters.push(env_type);
                proof {
                    crate::mir::types::lemma_types_view_push(before, env_type);
                }
            }
            let ghost params_view = types_view(parameters@);
            let no_env = Type::no_closure_env();
            assert(no_env@ == no_closure_env_view());
            let r = Type::Function(Arc::new(FunctionType { parameters, environment: no_env, return_type }));
            proof {
                let want = rewritten_signature(typ@);
                assert(r@->Function_0.parameters == params_view);
                assert(r@->Function_0.parameters == want->Function_0.parameters);
                assert(r@->Function_0.environment == want->Function_0.environment);
                assert(r@->Function_0 == want->Function_0);
            }
            r
        },
        _ => rewrite_value_type(typ),
    }
}

/// A closure tuple `(fn, env)` type becomes its function; any other type stays as it is.
pub open spec fn fn_ptr_view(t: TypeView) -> TypeView {
    match t {
        TypeView::Tuple(fields) => if fields.len() == 2 && fields[0] is Function && !(fields[1] is Function) {
            fields[0]
        } else {
            t
        },
        _ => t,
    }
}

proof fn lemma_fn_ptr_view(t: Type)
    ensures
        crate::mir::lower_closures::fn_ptr_type(t)@ == fn_ptr_view(t@),
{
    if let Type::Tuple(fields) = t {
        lemma_types_view(fields@);
        if fields@.len() == 2 {
            assert(types_view(fields@)[0] == fields@[0]@);
            assert(types_view(fields@)[1] == fields@[1]@);
        }
    }
}

proof fn lemma_fn_ptr_closure_free(t: TypeView)
    requires
        closure_free(t),
    ensures
        closure_free(fn_ptr_view(t)),
{
    if let TypeView::Tuple(fields) = t {
        if fields.len() == 2 {
            lemma_all_closure_free_index(fields, 0);
        }
    }
}

proof fn lemma_all_closure_free_index(s: Seq<TypeView>, i: int)
    requires
        all_closure_free(s),
        0 <= i < s.len(),
    ensures
        closure_free(s[i]),
    decreases i,
{
    if i > 0 {
        lemma_all_closure_free_index(s.subrange(1, s.len() as int), i - 1);
        assert(s.subrange(1, s.len() as int)[i - 1] == s[i]);
    }
}

/// The types an instruction holds with closure types rewritten: those of `SizeOf`,
/// `StackAllocUninit` and `GetFieldPtr`; any other instruction is left as it is.
pub open spec fn retyped_instruction(i: InstructionView) -> InstructionView {
    match i {
        InstructionView::SizeOf(t) => InstructionView::SizeOf(rewritten_type(t)),
        InstructionView::StackAllocUninit(t) => InstructionView::StackAllocUninit(rewritten_type(t)),
        InstructionView::GetFieldPtr { struct_ptr, struct_type, index } => InstructionView::GetFieldPtr {
            struct_ptr,
            struct_type: rewritten_type(struct_type),
            index,
        },
        _ => i,
    }
}

/// The result type of instruction `k` once closure types are rewritten: the rewritten type, or,
/// for an instruction that gives a plain function pointer, the function of the rewritten tuple.
pub open spec fn rewritten_result_type(instructions: Seq<Instruction>, k: int, t: TypeView) -> TypeView {
    if crate::mir::lower_closures::is_fn_ptr_result(instructions, k) {
        fn_ptr_view(rewritten_type(t))
    } else {
        rewritten_type(t)
    }
}

/// An instruction that instantiates a definition, or passes a definition on, gives a plain
/// function pointer: once closure types are rewritten its result type is a function type, never
/// a `(function, environment)` tuple, whatever closure type it was recorded with (one whose
/// environment is not itself a function).
pub proof fn lemma_definition_results_stay_functions(instructions: Seq<Instruction>, k: int, t: TypeView)
    requires
        0 <= k < instructions.len(),
        instructions[k] is Instantiate || instructions[k] matches Instruction::Id(Value::Definition(_)),
        t matches TypeView::Function(f) && !(f.environment is Function),
    ensures
        rewritten_result_type(instructions, k, t) is Function,
{
    let f = t->Function_0;
    lemma_env_not_function(f.environment);
    if !is_no_closure_env_view(f.environment) {
        let r = rewritten_type(t);
        assert(r->Tuple_0.len() == 2);
        assert(r->Tuple_0[0] is Function);
        assert(!(r->Tuple_0[1] is Function));
    }
}

/// Rewriting a type that is not a function type gives no function type.
proof fn lemma_env_not_function(t: TypeView)
    requires
        !(t is Function),
    ensures
        !(rewritten_type(t) is Function),
{
}

/// Rewrites every closure type in `definition` into a `(function, environment)` tuple: its own
/// type ([rewritten_signature]), its blocks' parameter types, its instructions' result types
/// (giving instructions that pass plain function pointers their function type back) and the types
/// that `SizeOf`, `StackAllocUninit` and `GetFieldPtr` hold.
pub fn rewrite_types_in_definition(definition: &mut Definition)
    requires
        old(definition).instructions@.len() <= old(definition).instruction_result_types@.len(),
        old(definition).instructions@.len() <= u32::MAX,
    ensures
        final(definition).typ@ == rewritten_signature(old(definition).typ@),
        final(definition).blocks@.len() == old(definition).blocks@.len(),
        forall|b: int|
            0 <= b < old(definition).blocks@.len() ==> {
                &&& (#[trigger] final(definition).blocks@[b]).instructions == old(definition).blocks@[b].instructions
                &&& final(definition).blocks@[b].terminator == old(definition).blocks@[b].terminator
                &&& types_view(final(definition).blocks@[b].parameter_types@) == rewritten_types(
                    types_view(old(definition).blocks@[b].parameter_types@),
                )
            },
        final(definition).instruction_result_types@.len() == old(definition).instruction_result_types@.len(),
        forall|k: int|
            0 <= k < old(definition).instruction_result_types@.len() ==> (#[trigger] final(definition).instruction_result_types@[k])@
                == rewritten_result_type(old(definition).instructions@, k, old(definition).instruction_result_types@[k]@),
        final(definition).instructions@.len() == old(definition).instructions@.len(),
        forall|k: int|
            0 <= k < old(definition).instructions@.len() ==> (#[trigger] final(definition).instructions@[k])@
                == retyped_instruction(old(definition).instructions@[k]@),
        final(definition).name == old(definition).name,
        final(definition).id == old(definition).id,
        final(definition).generic_count == old(definition).generic_count,
{
    let ghost d0 = *definition;
    let typ = rewrite_definition_signature(&definition.typ);
    definition.typ = typ;
    let mut b: usize = 0;
    while b < definition.blocks.len()
        invariant
            0 <= b <= definition.blocks@.len(),
            definition.blocks@.len() == d0.blocks@.len(),
            definition.instructions == d0.instructions,
            definition.instruction_result_types == d0.instruction_result_types,
            definition.typ@ == rewritten_signature(d0.typ@),
            definition.name == d0.name,
            definition.id == d0.id,
            definition.generic_count == d0.generic_count,
            forall|k: int|
                0 <= k < b ==> {
                    &&& (#[trigger] definition.blocks@[k]).instructions == d0.blocks@[k].instructions
                    &&& definition.blocks@[k].terminator == d0.blocks@[k].terminator
                    &&& types_view(definition.blocks@[k].parameter_types@) == rewritten_types(types_view(d0.blocks@[k].parameter_types@))
                },
            forall|k: int| b <= k < definition.blocks@.len() ==> #[trigger] definition.blocks@[k] == d0.blocks@[k],
        decreases definition.blocks@.len() - b,
    {
        let mut blk = crate::mir::definition::Block::new(Vec::new());
        std::mem::swap(&mut blk, &mut definition.blocks[b]);
        let params = rewrite_value_types(&blk.parameter_types);
        blk.parameter_types = params;
        std::mem::swap(&mut blk, &mut definition.blocks[b]);
        b = b + 1;
    }
    let mut k: usize = 0;
    while k < definition.instruction_result_types.len()
        invariant
            0 <= k <= definition.instruction_result_types@.len(),
            definition.instruction_result_types@.len() == d0.instruction_result_types@.len(),
            forall|j: int| 0 <= j < k ==> (#[trigger] definition.instruction_result_types@[j])@ == rewritten_type(d0.instruction_result_types@[j]@),
            forall|j: int| k <= j < definition.instruction_result_types@.len() ==> #[trigger] definition.instruction_result_types@[j] == d0.instruction_result_types@[j],
            definition.instructions == d0.instructions,
            definition.blocks@.len() == d0.blocks@.len(),
            forall|j: int|
                0 <= j < d0.blocks@.len() ==> {
                    &&& (#[trigger] definition.blocks@[j]).instructions == d0.blocks@[j].instructions
                    &&& definition.blocks@[j].terminator == d0.blocks@[j].terminator
                    &&& types_view(definition.blocks@[j].parameter_types@) == rewritten_types(types_view(d0.blocks@[j].parameter_types@))
                },
            definition.typ@ == rewritten_signature(d0.typ@),
            definition.name == d0.name,
            definition.id == d0.id,
            definition.generic_count == d0.generic_count,
        decreases definition.instruction_result_types@.len() - k,
    {
        let t = rewrite_value_type(&definition.instruction_result_types[k]);
        definition.instruction_result_types.set(k, t);
        k = k + 1;
    }
    let mut i: usize = 0;
    while i < definition.instructions.len()
        invariant
            0 <= i <= definition.instructions@.len(),
            definition.instructions@.len() == d0.instructions@.len(),
            forall|j: int| 0 <= j < i ==> (#[trigger] definition.instructions@[j])@ == retyped_instruction(d0.instructions@[j]@),
            forall|j: int| i <= j < definition.instructions@.len() ==> #[trigger] definition.instructions@[j] == d0.instructions@[j],
            definition.instruction_result_types@.len() == d0.instruction_result_types@.len(),
            forall|j: int| 0 <= j < d0.instruction_result_types@.len() ==> (#[trigger] definition.instruction_result_types@[j])@ == rewritten_type(d0.instruction_result_types@[j]@),
            definition.blocks@.len() == d0.blocks@.len(),
            forall|j: int|
                0 <= j < d0.blocks@.len() ==> {
                    &&& (#[trigger] definition.blocks@[j]).instructions == d0.blocks@[j].instructions
                    &&& definition.blocks@[j].terminator == d0.blocks@[j].terminator
                    &&& types_view(definition.blocks@[j].parameter_types@) == rewritten_types(types_view(d0.blocks@[j].parameter_types@))
                },
            definition.typ@ == rewritten_signature(d0.typ@),
            definition.name == d0.name,
            definition.id == d0.id,
            definition.generic_count == d0.generic_count,
        decreases definition.instructions@.len() - i,
    {
        let retyped = match &definition.instructions[i] {
            Instruction::SizeOf(t) => Some(Instruction::SizeOf(rewrite_value_type(t))),
            Instruction::StackAllocUninit(t) => Some(Instruction::StackAllocUninit(rewrite_value_type(t))),
            Instruction::GetFieldPtr { struct_ptr, struct_type, index } => Some(Instruction::GetFieldPtr {
                struct_ptr: *struct_ptr,
                struct_type: rewrite_value_type(struct_type),
                index: *index,
            }),
            _ => None,
        };
        if let Some(new_instruction) = retyped {
            definition.instructions.set(i, new_instruction);
        }
        i = i + 1;
    }
    let ghost d1 = *definition;
    fix_fn_ptr_id_chains(definition);
    proof {
        assert forall|j: int| 0 <= j < d0.instruction_result_types@.len() implies (#[trigger] definition.instruction_result_types@[j])@
            == rewritten_result_type(d0.instructions@, j, d0.instruction_result_types@[j]@) by {
            lemma_fn_ptr_view(d1.instruction_result_types@[j]);
            assert(crate::mir::lower_closures::is_fn_ptr_result(d1.instructions@, j) == crate::mir::lower_closures::is_fn_ptr_result(d0.instructions@, j)) by {
                lemma_fn_ptr_result_retyped(d0.instructions@, d1.instructions@, j);
            }
        }
    }
}

/// Whether instruction `k` passes a plain function pointer does not depend on the types the
/// instructions hold.
proof fn lemma_fn_ptr_result_retyped(a: Seq<Instruction>, b: Seq<Instruction>, k: int)
    requires
        a.len() == b.len(),
        forall|j: int| 0 <= j < a.len() ==> (#[trigger] b[j])@ == retyped_instruction(a[j]@),
    ensures
        crate::mir::lower_closures::is_fn_ptr_result(b, k) == crate::mir::lower_closures::is_fn_ptr_result(a, k),
    decreases k,
{
    if 0 <= k < a.len() {
        assert(b[k]@ == retyped_instruction(a[k]@));
        match a[k] {
            Instruction::Id(Value::InstructionResult(prev)) => {
                if prev.0 < k {
                    lemma_fn_ptr_result_retyped(a, b, prev.0 as int);
                }
            },
            _ => {},
        }
    }
}

/// After [rewrite_types_in_definition] no closure type is left in the definition's own type, its
/// blocks' parameter types, its instructions' result types or the types its instructions hold.
pub proof fn lemma_rewritten_definition_closure_free(d0: Definition, d: Definition)
    requires
        d.typ@ == rewritten_signature(d0.typ@),
        d.blocks@.len() == d0.blocks@.len(),
        forall|b: int|
            0 <= b < d0.blocks@.len() ==> types_view((#[trigger] d.blocks@[b]).parameter_types@) == rewritten_types(
                types_view(d0.blocks@[b].parameter_types@),
            ),
        d.instruction_result_types@.len() == d0.instruction_result_types@.len(),
        forall|k: int|
            0 <= k < d0.instruction_result_types@.len() ==> (#[trigger] d.instruction_result_types@[k])@ == rewritten_result_type(
                d0.instructions@,
                k,
                d0.instruction_result_types@[k]@,
            ),
        d.instructions@.len() == d0.instructions@.len(),
        forall|k: int| 0 <= k < d0.instructions@.len() ==> (#[trigger] d.instructions@[k])@ == retyped_instruction(d0.instructions@[k]@),
    ensures
        definition_closure_free(d),
{
    lemma_rewritten_signature_closure_free(d0.typ@);
    assert forall|b: int| 0 <= b < d.blocks@.len() implies all_closure_free(types_view(#[trigger] d.blocks@[b].parameter_types@)) by {
        lemma_rewritten_all_closure_free(types_view(d0.blocks@[b].parameter_types@));
    }
    assert forall|k: int| 0 <= k < d.instruction_result_types@.len() implies closure_free((#[trigger] d.instruction_result_types@[k])@) by {
        lemma_rewritten_closure_free(d0.instruction_result_types@[k]@);
        lemma_fn_ptr_closure_free(rewritten_type(d0.instruction_result_types@[k]@));
    }
    assert forall|k: int| 0 <= k < d.instructions@.len() implies instruction_types_closure_free((#[trigger] d.instructions@[k])@) by {
        match d0.instructions@[k]@ {
            InstructionView::SizeOf(t) => lemma_rewritten_closure_free(t),
            InstructionView::StackAllocUninit(t) => lemma_rewritten_closure_free(t),
            InstructionView::GetFieldPtr { struct_type, .. } => lemma_rewritten_closure_free(struct_type),
            _ => {},
        }
    }
}

/// The types `SizeOf`, `StackAllocUninit` and `GetFieldPtr` hold are free of closure types.
pub open spec fn instruction_types_closure_free(i: InstructionView) -> bool {
    match i {
        InstructionView::SizeOf(t) => closure_free(t),
        InstructionView::StackAllocUninit(t) => closure_free(t),
        InstructionView::GetFieldPtr { struct_type, .. } => closure_free(struct_type),
        _ => true,
    }
}

/// No closure type is left in `d`: in its type, its blocks' parameter types, its instructions'
/// result types or the types they hold.
pub open spec fn definition_closure_free(d: Definition) -> bool {
    &&& closure_free(d.typ@)
    &&& forall|b: int| 0 <= b < d.blocks@.len() ==> all_closure_free(types_view(#[trigger] d.blocks@[b].parameter_types@))
    &&& forall|k: int| 0 <= k < d.instruction_result_types@.len() ==> closure_free((#[trigger] d.instruction_result_types@[k])@)
    &&& forall|k: int| 0 <= k < d.instructions@.len() ==> instruction_types_closure_free((#[trigger] d.instructions@[k])@)
}


proof fn lemma_all_closure_free_iff(s: Seq<TypeView>)
    ensures
        all_closure_free(s) <==> forall|i: int| 0 <= i < s.len() ==> closure_free(#[trigger] s[i]),
    decreases s.len(),
{
    if s.len() > 0 {
        let rest = s.subrange(1, s.len() as int);
        lemma_all_closure_free_iff(rest);
        if forall|i: int| 0 <= i < s.len() ==> closure_free(#[trigger] s[i]) {
            assert forall|i: int| 0 <= i < rest.len() implies closure_free(#[trigger] rest[i]) by {
                assert(rest[i] == s[i + 1]);
            }
        }
        if all_closure_free(s) {
            assert forall|i: int| 0 <= i < s.len() implies closure_free(#[trigger] s[i]) by {
                if i > 0 {
                    assert(rest[i - 1] == s[i]);
                }
            }
        }
    }
}

/// Whether no closure type is left in `t` ([closure_free]).
fn check_closure_free(t: &Type) -> (r: bool)
    ensures
        r == closure_free(t@),
    decreases t,
{
    match t {
        Type::Tuple(fields) => check_all_closure_free(fields),
        Type::Union(fields) => check_all_closure_free(fields),
        Type::Array { length, element } => check_closure_free(length) && check_closure_free(element),
        Type::Function(f) => has_no_env(&f.environment) && check_closure_free(&f.return_type) && check_all_closure_free(
            &f.parameters,
        ),
        _ => true,
    }
}

fn check_all_closure_free(ts: &Vec<Type>) -> (r: bool)
    ensures
        r == all_closure_free(types_view(ts@)),
    decreases ts,
{
    proof {
        lemma_types_view(ts@);
        lemma_all_closure_free_iff(types_view(ts@));
    }
    let mut i: usize = 0;
    while i < ts.len()
        invariant
            0 <= i <= ts@.len(),
            types_view(ts@).len() == ts@.len(),
            forall|k: int| 0 <= k < ts@.len() ==> #[trigger] types_view(ts@)[k] == ts@[k]@,
            forall|k: int| 0 <= k < i ==> closure_free(#[trigger] types_view(ts@)[k]),
            all_closure_free(types_view(ts@)) <==> forall|k: int| 0 <= k < ts@.len() ==> closure_free(#[trigger] types_view(ts@)[k]),
        decreases ts@.len() - i,
    {
        if !check_closure_free(&ts[i]) {
            assert(!closure_free(types_view(ts@)[i as int]));
            return false;
        }
        i = i + 1;
    }
    true
}

/// No closure is left in `d`: no closure type ([definition_closure_free]) and no `PackClosure` or
/// `CallClosure`.
pub open spec fn definition_without_closures(d: Definition) -> bool {
    &&& definition_closure_free(d)
    &&& forall|k: int|
        0 <= k < d.instructions@.len() ==> !((#[trigger] d.instructions@[k]) is PackClosure) && !(d.instructions@[k] is CallClosure)
}

/// No closure is left in the program: in its definitions ([definition_without_closures]) or the
/// types of its externals.
pub open spec fn program_without_closures(m: Mir) -> bool {
    &&& forall|x: DefinitionId| #[trigger] m.definitions@.contains_key(x) ==> definition_without_closures(m.definitions@[x])
    &&& forall|x: DefinitionId| #[trigger] m.externals@.contains_key(x) ==> closure_free(m.externals@[x].typ@)
}

fn check_definition_without_closures(d: &Definition) -> (r: bool)
    ensures
        r == definition_without_closures(*d),
{
    if !check_closure_free(&d.typ) {
        return false;
    }
    let mut b: usize = 0;
    while b < d.blocks.len()
        invariant
            0 <= b <= d.blocks@.len(),
            forall|k: int| 0 <= k < b ==> all_closure_free(types_view(#[trigger] d.blocks@[k].parameter_types@)),
        decreases d.blocks@.len() - b,
    {
        if !check_all_closure_free(&d.blocks[b].parameter_types) {
            assert(!all_closure_free(types_view(d.blocks@[b as int].parameter_types@)));
            return false;
        }
        b = b + 1;
    }
    let mut k: usize = 0;
    while k < d.instruction_result_types.len()
        invariant
            0 <= k <= d.instruction_result_types@.len(),
            forall|j: int| 0 <= j < k ==> closure_free((#[trigger] d.instruction_result_types@[j])@),
        decreases d.instruction_result_types@.len() - k,
    {
        if !check_closure_free(&d.instruction_result_types[k]) {
            assert(!closure_free(d.instruction_result_types@[k as int]@));
            return false;
        }
        k = k + 1;
    }
    let mut i: usize = 0;
    while i < d.instructions.len()
        invariant
            0 <= i <= d.instructions@.len(),
            forall|j: int|
                0 <= j < i ==> instruction_types_closure_free((#[trigger] d.instructions@[j])@) && !(d.instructions@[j] is PackClosure)
                    && !(d.instructions@[j] is CallClosure),
        decreases d.instructions@.len() - i,
    {
        let ok = match &d.instructions[i] {
            Instruction::PackClosure { .. } => false,
            Instruction::CallClosure { .. } => false,
            Instruction::SizeOf(t) => check_closure_free(t),
            Instruction::StackAllocUninit(t) => check_closure_free(t),
            Instruction::GetFieldPtr { struct_type, .. } => check_closure_free(struct_type),
            _ => true,
        };
        if !ok {
            return false;
        }
        i = i + 1;
    }
    true
}

impl Mir {
    /// Whether no closure is left in the program ([program_without_closures]): no closure type
    /// in a definition or an external, and no `PackClosure` or `CallClosure` instruction.
    pub fn check_no_closure_types(&self) -> (r: bool)
        ensures
            r == program_without_closures(*self),
    {
        let keys = fx_map_keys(&self.definitions);
        let mut i: usize = 0;
        while i < keys.len()
            invariant
                0 <= i <= keys@.len(),
                keys@.to_set() == self.definitions@.dom(),
                forall|j: int| 0 <= j < i ==> definition_without_closures(self.definitions@[#[trigger] keys@[j]]),
            decreases keys@.len() - i,
        {
            let k = keys[i];
            proof {
                assert(keys@.to_set().contains(k));
            }
            let d = fx_map_get(&self.definitions, k).unwrap();
            if !check_definition_without_closures(d) {
                return false;
            }
            i = i + 1;
        }
        proof {
            assert forall|x: DefinitionId| #[trigger] self.definitions@.contains_key(x) implies definition_without_closures(
                self.definitions@[x],
            ) by {
                assert(keys@.to_set().contains(x));
                let j = choose|j: int| 0 <= j < keys@.len() && keys@[j] == x;
                assert(definition_without_closures(self.definitions@[keys@[j]]));
            }
        }
        let ext_keys = fx_map_keys(&self.externals);
        let mut e: usize = 0;
        while e < ext_keys.len()
            invariant
                0 <= e <= ext_keys@.len(),
                ext_keys@.to_set() == self.externals@.dom(),
                forall|j: int| 0 <= j < e ==> closure_free(self.externals@[#[trigger] ext_keys@[j]].typ@),
            decreases ext_keys@.len() - e,
        {
            let k = ext_keys[e];
            proof {
                assert(ext_keys@.to_set().contains(k));
            }
            let ext = fx_map_get(&self.externals, k).unwrap();
            if !check_closure_free(&ext.typ) {
                return false;
            }
            e = e + 1;
        }
        proof {
            assert forall|x: DefinitionId| #[trigger] self.externals@.contains_key(x) implies closure_free(self.externals@[x].typ@) by {
                assert(ext_keys@.to_set().contains(x));
                let j = choose|j: int| 0 <= j < ext_keys@.len() && ext_keys@[j] == x;
                assert(closure_free(self.externals@[ext_keys@[j]].typ@));
            }
        }
        true
    }
}


/// The type of each definition and external of `m` by id; a definition's where both have the id.
pub open spec fn definition_types_of(m: Mir) -> Map<DefinitionId, Type> {
    Map::new(
        |id: DefinitionId| m.externals@.contains_key(id) || m.definitions@.contains_key(id),
        |id: DefinitionId| if m.definitions@.contains_key(id) {
            m.definitions@[id].typ
        } else {
            m.externals@[id].typ
        },
    )
}

fn definition_types(m: &Mir) -> (r: DefinitionMap<Type>)
    ensures
        r@ == definition_types_of(*m),
{
    let mut r: DefinitionMap<Type> = fx_map_new();
    let ext_keys = fx_map_keys(&m.externals);
    let mut i: usize = 0;
    while i < ext_keys.len()
        invariant
            0 <= i <= ext_keys@.len(),
            ext_keys@.no_duplicates(),
            ext_keys@.to_set() == m.externals@.dom(),
            forall|id: DefinitionId| #[trigger] r@.contains_key(id) <==> exists|j: int| 0 <= j < i && ext_keys@[j] == id,
            forall|id: DefinitionId| #[trigger] r@.contains_key(id) ==> r@[id] == m.externals@[id].typ,
        decreases ext_keys@.len() - i,
    {
        let k = ext_keys[i];
        proof {
            assert(ext_keys@.to_set().contains(k));
        }
        let t = fx_map_get(&m.externals, k).unwrap().typ.clone();
        fx_map_insert(&mut r, k, t);
        proof {
            assert forall|id: DefinitionId| #[trigger] r@.contains_key(id) <==> exists|j: int| 0 <= j < i + 1 && ext_keys@[j] == id by {
                if id == k {
                    assert(ext_keys@[i as int] == id);
                }
            }
        }
        i = i + 1;
    }
    proof {
        assert forall|id: DefinitionId| #[trigger] r@.contains_key(id) <==> m.externals@.contains_key(id) by {
            if m.externals@.contains_key(id) {
                assert(ext_keys@.to_set().contains(id));
            }
            if r@.contains_key(id) {
                let j = choose|j: int| 0 <= j < i && ext_keys@[j] == id;
                assert(ext_keys@.to_set().contains(ext_keys@[j]));
            }
        }
    }
    let keys = fx_map_keys(&m.definitions);
    let mut i: usize = 0;
    while i < keys.len()
        invariant
            0 <= i <= keys@.len(),
            keys@.no_duplicates(),
            keys@.to_set() == m.definitions@.dom(),
            forall|id: DefinitionId|
                #[trigger] r@.contains_key(id) <==> (m.externals@.contains_key(id) || exists|j: int| 0 <= j < i && keys@[j] == id),
            forall|id: DefinitionId|
                #[trigger] r@.contains_key(id) ==> r@[id] == if exists|j: int| 0 <= j < i && keys@[j] == id {
                    m.definitions@[id].typ
                } else {
                    m.externals@[id].typ
                },
        decreases keys@.len() - i,
    {
        let k = keys[i];
        proof {
            assert(keys@.to_set().contains(k));
        }
        let t = fx_map_get(&m.definitions, k).unwrap().typ.clone();
        fx_map_insert(&mut r, k, t);
        proof {
            assert(keys@[i as int] == k);
            assert forall|id: DefinitionId| #[trigger] r@.contains_key(id) <==> (m.externals@.contains_key(id) || exists|j: int|
                0 <= j < i + 1 && keys@[j] == id) by {
                if id == k {
                    assert(keys@[i as int] == id);
                } else if exists|j: int| 0 <= j < i + 1 && keys@[j] == id {
                    let j = choose|j: int| 0 <= j < i + 1 && keys@[j] == id;
                    assert(j < i);
                }
            }
            assert forall|id: DefinitionId| #[trigger] r@.contains_key(id) implies r@[id] == if exists|j: int|
                0 <= j < i + 1 && keys@[j] == id {
                m.definitions@[id].typ
            } else {
                m.externals@[id].typ
            } by {
                if id != k {
                    if exists|j: int| 0 <= j < i + 1 && keys@[j] == id {
                        let j = choose|j: int| 0 <= j < i + 1 && keys@[j] == id;
                        assert(j < i);
                    }
                }
            }
        }
        i = i + 1;
    }
    proof {
        assert forall|id: DefinitionId| (exists|j: int| 0 <= j < i && keys@[j] == id) <==> m.definitions@.contains_key(id) by {
            if m.definitions@.contains_key(id) {
                assert(keys@.to_set().contains(id));
            }
            if exists|j: int| 0 <= j < i && keys@[j] == id {
                let j = choose|j: int| 0 <= j < i && keys@[j] == id;
                assert(keys@.to_set().contains(keys@[j]));
            }
        }
        assert(r@ =~= definition_types_of(*m));
    }
    r
}


/// `d1` is `d0` with its redundant closures eliminated ([eliminate_redundant_closures]).
pub open spec fn closures_eliminated(d0: Definition, types: Map<DefinitionId, Type>, d1: Definition) -> bool {
    &&& d1.instructions@.len() == d0.instructions@.len()
    &&& forall|k: int|
        0 <= k < d0.instructions@.len() ==> crate::mir::lower_closures::redundant_closure_eliminated(
            d0,
            types,
            d0.instructions@[k],
            d0.instruction_result_types@[k],
            #[trigger] d1.instructions@[k],
        )
    &&& d1.blocks == d0.blocks
    &&& d1.instruction_result_types == d0.instruction_result_types
    &&& d1.name == d0.name
    &&& d1.id == d0.id
    &&& d1.typ == d0.typ
    &&& d1.generic_count == d0.generic_count
}

/// `d2` is `d1` with its closure types rewritten ([rewrite_types_in_definition]).
pub open spec fn types_rewritten(d1: Definition, d2: Definition) -> bool {
    &&& d2.typ@ == rewritten_signature(d1.typ@)
    &&& d2.blocks@.len() == d1.blocks@.len()
    &&& forall|b: int|
        0 <= b < d1.blocks@.len() ==> {
            &&& (#[trigger] d2.blocks@[b]).instructions == d1.blocks@[b].instructions
            &&& d2.blocks@[b].terminator == d1.blocks@[b].terminator
            &&& types_view(d2.blocks@[b].parameter_types@) == rewritten_types(types_view(d1.blocks@[b].parameter_types@))
        }
    &&& d2.instruction_result_types@.len() == d1.instruction_result_types@.len()
    &&& forall|k: int|
        0 <= k < d1.instruction_result_types@.len() ==> (#[trigger] d2.instruction_result_types@[k])@ == rewritten_result_type(
            d1.instructions@,
            k,
            d1.instruction_result_types@[k]@,
        )
    &&& d2.instructions@.len() == d1.instructions@.len()
    &&& forall|k: int| 0 <= k < d1.instructions@.len() ==> (#[trigger] d2.instructions@[k])@ == retyped_instruction(d1.instructions@[k]@)
    &&& d2.name == d1.name
    &&& d2.id == d1.id
    &&& d2.generic_count == d1.generic_count
}

/// `d2` is `d0` after the first two steps of closure lowering: redundant closures eliminated
/// against the definition types `types`, then closure types rewritten.
pub open spec fn closures_prepared(d0: Definition, types: Map<DefinitionId, Type>, d2: Definition) -> bool {
    exists|d1: Definition| #[trigger] closures_eliminated(d0, types, d1) && types_rewritten(d1, d2)
}

/// `mid` is `before` after the first two steps of closure lowering, and `after` is `mid` with
/// its closures lowered to tuples ([closures_lowered_at]).
pub open spec fn closures_lowered_program(before: Mir, mid: Mir, after: Mir) -> bool {
    &&& closures_prepared_program(before, mid)
    &&& after.definitions@.dom() == mid.definitions@.dom()
    &&& forall|x: DefinitionId| #[trigger] mid.definitions@.contains_key(x) ==> crate::mir::closure_calls::closures_lowered_at(mid, after, x)
    &&& after.externals == mid.externals
    &&& after.preserved_op_indices == mid.preserved_op_indices
}

/// `mid` is `before` after the first two steps of closure lowering: each definition with its
/// redundant closures eliminated and its closure types rewritten, each external's type rewritten.
pub open spec fn closures_prepared_program(before: Mir, mid: Mir) -> bool {
    &&& mid.definitions@.dom() == before.definitions@.dom()
    &&& forall|x: DefinitionId|
        #[trigger] before.definitions@.contains_key(x) ==> closures_prepared(
            before.definitions@[x],
            definition_types_of(before),
            mid.definitions@[x],
        )
    &&& mid.externals@.dom() == before.externals@.dom()
    &&& forall|x: DefinitionId|
        #[trigger] before.externals@.contains_key(x) ==> mid.externals@[x].name == before.externals@[x].name
            && mid.externals@[x].typ@ == rewritten_signature(before.externals@[x].typ@)
    &&& mid.preserved_op_indices == before.preserved_op_indices
}

/// What the first two steps need of a definition: an entry block with at most `u32::MAX`
/// parameters, closures that resolve in `types`, and at most as many instructions as result
/// types, at most `u32::MAX` of them. Elsewhere the original panics.
pub open spec fn closure_input_ok(d: Definition, types: Map<DefinitionId, Type>) -> bool {
    &&& d.blocks@.len() > 0
    &&& d.blocks@[0].parameter_types@.len() <= u32::MAX
    &&& crate::mir::lower_closures::closures_resolvable(d, types)
    &&& d.instructions@.len() <= d.instruction_result_types@.len()
    &&& d.instructions@.len() <= u32::MAX
}

/// Every definition of `m` can go through the first two steps of closure lowering.
pub open spec fn closure_inputs_ok(m: Mir) -> bool {
    forall|x: DefinitionId| #[trigger] m.definitions@.contains_key(x) ==> closure_input_ok(m.definitions@[x], definition_types_of(m))
}

/// Every closure call of every definition of `mid` calls a pair and its instruction ids fit
/// ([crate::mir::closure_calls::closure_calls_lowerable]); elsewhere the original panics.
pub open spec fn all_calls_lowerable(mid: Mir) -> bool {
    forall|x: DefinitionId|
        #[trigger] mid.definitions@.contains_key(x) ==> crate::mir::closure_calls::closure_calls_lowerable(mid.definitions@[x], mid)
}

/// Closure lowering cannot go through `m`: a definition fails [closure_input_ok], or the first
/// two steps can make of `m` a program with a closure call that cannot be lowered.
pub open spec fn closure_lowering_refused(m: Mir) -> bool {
    ||| !closure_inputs_ok(m)
    ||| exists|mid: Mir| #[trigger] closures_prepared_program(m, mid) && !all_calls_lowerable(mid)
}

/// Whatever the first two steps make of `m`, its closure calls can then be lowered.
pub open spec fn calls_lowerable_after(m: Mir) -> bool {
    forall|mid: Mir| #[trigger] closures_prepared_program(m, mid) ==> all_calls_lowerable(mid)
}

/// `after` is `before` with its closures lowered, through some program between the steps
/// ([closures_lowered_program]).
pub open spec fn closures_lowered_from(before: Mir, after: Mir) -> bool {
    exists|mid: Mir| #[trigger] closures_lowered_program(before, mid, after)
}

impl Mir {
    /// Lowers closures to explicit tuple operations: closures left without an environment become
    /// plain calls and ids, closure types become `(function, environment)` tuples, and closure
    /// packs and calls become tuple operations. `None` where a definition has no entry block, a
    /// closure that does not resolve, fewer result types than instructions, or a closure call
    /// whose closure is not a pair, or where the instruction ids would run out.
    #[verifier::rlimit(60)]
    pub fn lower_closures(self) -> (r: Option<Self>)
        ensures
            r matches Some(m) ==> closures_lowered_from(self, m),
            r is Some ==> closure_inputs_ok(self),
            closure_inputs_ok(self) && calls_lowerable_after(self) ==> r is Some,
            r is None ==> closure_lowering_refused(self),
    {
        let ghost m0 = self;
        let mut mir = self;
        let types = definition_types(&mir);
        let keys = fx_map_keys(&mir.definitions);
        let mut i: usize = 0;
        while i < keys.len()
            invariant
                0 <= i <= keys@.len(),
                keys@.no_duplicates(),
                keys@.to_set() == m0.definitions@.dom(),
                types@ == definition_types_of(m0),
                m0 == self,
                mir.definitions@.dom() == m0.definitions@.dom(),
                mir.externals == m0.externals,
                mir.preserved_op_indices == m0.preserved_op_indices,
                forall|j: int| 0 <= j < i ==> closures_prepared(m0.definitions@[#[trigger] keys@[j]], types@, mir.definitions@[keys@[j]]),
                forall|j: int| 0 <= j < i ==> closure_input_ok(m0.definitions@[#[trigger] keys@[j]], types@),
                forall|j: int| i <= j < keys@.len() ==> #[trigger] mir.definitions@[keys@[j]] == m0.definitions@[keys@[j]],
            decreases keys@.len() - i,
        {
            let k = keys[i];
            proof {
                assert(keys@.to_set().contains(k));
            }
            let ghost before = mir.definitions@;
            proof {
                assert(mir.definitions@[keys@[i as int]] == m0.definitions@[keys@[i as int]]);
            }
            let mut d = crate::mir::effects::tail_resume_pass::take_definition(&mut mir, k);
            let ghost d0 = d;
            if d.blocks.len() == 0 || d.blocks[0].parameter_types.len() > 0xffff_ffffusize
                || !crate::mir::lower_closures::closures_resolvable_check(&d, &types) {
                proof {
                    assert(!closure_input_ok(m0.definitions@[k], definition_types_of(m0)));
                    assert(m0.definitions@.contains_key(k));
                    assert(!closure_inputs_ok(m0));
                    assert(closure_lowering_refused(m0));
                }
                return None;
            }
            crate::mir::lower_closures::eliminate_redundant_closures(&mut d, &types);
            let ghost d1 = d;
            if d.instructions.len() > d.instruction_result_types.len() || d.instructions.len() > 0xffff_ffffusize {
                proof {
                    assert(!closure_input_ok(m0.definitions@[k], definition_types_of(m0)));
                    assert(m0.definitions@.contains_key(k));
                    assert(!closure_inputs_ok(m0));
                    assert(closure_lowering_refused(m0));
                }
                return None;
            }
            proof {
                assert(closure_input_ok(d0, types@));
            }
            rewrite_types_in_definition(&mut d);
            proof {
                assert(closures_eliminated(d0, types@, d1));
                assert(types_rewritten(d1, d));
                assert(closures_prepared(d0, types@, d));
            }
            fx_map_insert(&mut mir.definitions, k, d);
            proof {
                assert(mir.definitions@ == before.insert(k, d));
                assert(mir.definitions@.dom() =~= m0.definitions@.dom());
                assert forall|j: int| 0 <= j < i + 1 implies closures_prepared(
                    m0.definitions@[#[trigger] keys@[j]],
                    types@,
                    mir.definitions@[keys@[j]],
                ) by {
                    if j < i {
                        assert(keys@[j] != k);
                    }
                }
                assert forall|j: int| i + 1 <= j < keys@.len() implies #[trigger] mir.definitions@[keys@[j]] == m0.definitions@[keys@[j]] by {
                    assert(keys@[j] != k);
                }
                assert forall|j: int| 0 <= j < i + 1 implies closure_input_ok(m0.definitions@[#[trigger] keys@[j]], types@) by {
                    if j == i {
                        assert(keys@[j] == k);
                    }
                }
            }
            i = i + 1;
        }
        let ghost defs_done = mir.definitions;
        let ext_keys = fx_map_keys(&mir.externals);
        let mut e: usize = 0;
        while e < ext_keys.len()
            invariant
                0 <= e <= ext_keys@.len(),
                mir.definitions == defs_done,
                keys@.to_set() == m0.definitions@.dom(),
                defs_done@.dom() == m0.definitions@.dom(),
                types@ == definition_types_of(m0),
                forall|j: int| 0 <= j < keys@.len() ==> closures_prepared(m0.definitions@[#[trigger] keys@[j]], types@, defs_done@[keys@[j]]),
                forall|j: int| 0 <= j < keys@.len() ==> closure_input_ok(m0.definitions@[#[trigger] keys@[j]], types@),
                ext_keys@.no_duplicates(),
                ext_keys@.to_set() == m0.externals@.dom(),
                mir.externals@.dom() == m0.externals@.dom(),
                mir.preserved_op_indices == m0.preserved_op_indices,
                forall|j: int|
                    0 <= j < e ==> mir.externals@[#[trigger] ext_keys@[j]].name == m0.externals@[ext_keys@[j]].name
                        && mir.externals@[ext_keys@[j]].typ@ == rewritten_signature(m0.externals@[ext_keys@[j]].typ@),
                forall|j: int| e <= j < ext_keys@.len() ==> #[trigger] mir.externals@[ext_keys@[j]] == m0.externals@[ext_keys@[j]],
            decreases ext_keys@.len() - e,
        {
            let k = ext_keys[e];
            proof {
                assert(ext_keys@.to_set().contains(k));
            }
            let ghost before = mir.externals@;
            let ext = crate::fx::fx_map_remove(&mut mir.externals, k).unwrap();
            let typ = rewrite_definition_signature(&ext.typ);
            fx_map_insert(&mut mir.externals, k, crate::mir::definition::Extern { name: ext.name, typ });
            proof {
                assert(mir.externals@.dom() =~= m0.externals@.dom());
                assert forall|j: int| 0 <= j < e + 1 implies mir.externals@[#[trigger] ext_keys@[j]].name == m0.externals@[ext_keys@[j]].name
                    && mir.externals@[ext_keys@[j]].typ@ == rewritten_signature(m0.externals@[ext_keys@[j]].typ@) by {
                    if j < e {
                        assert(ext_keys@[j] != k);
                    }
                }
                assert forall|j: int| e + 1 <= j < ext_keys@.len() implies #[trigger] mir.externals@[ext_keys@[j]] == m0.externals@[ext_keys@[j]] by {
                    assert(ext_keys@[j] != k);
                }
            }
            e = e + 1;
        }
        let ghost mid = mir;
        proof {
            assert forall|x: DefinitionId| #[trigger] m0.definitions@.contains_key(x) implies closures_prepared(
                m0.definitions@[x],
                definition_types_of(m0),
                mid.definitions@[x],
            ) by {
                assert(keys@.to_set().contains(x));
                let j = choose|j: int| 0 <= j < keys@.len() && keys@[j] == x;
                assert(closures_prepared(m0.definitions@[keys@[j]], types@, mir.definitions@[keys@[j]]));
            }
            assert forall|x: DefinitionId| #[trigger] m0.externals@.contains_key(x) implies mid.externals@[x].name == m0.externals@[x].name
                && mid.externals@[x].typ@ == rewritten_signature(m0.externals@[x].typ@) by {
                assert(ext_keys@.to_set().contains(x));
                let j = choose|j: int| 0 <= j < ext_keys@.len() && ext_keys@[j] == x;
                assert(mir.externals@[ext_keys@[j]].typ@ == rewritten_signature(m0.externals@[ext_keys@[j]].typ@));
            }
            assert(closures_prepared_program(m0, mid));
            assert forall|x: DefinitionId| #[trigger] m0.definitions@.contains_key(x) implies closure_input_ok(
                m0.definitions@[x],
                definition_types_of(m0),
            ) by {
                assert(keys@.to_set().contains(x));
                let j = choose|j: int| 0 <= j < keys@.len() && keys@[j] == x;
                assert(closure_input_ok(m0.definitions@[keys@[j]], types@));
            }
            assert(closure_inputs_ok(m0));
        }
        let mut c: usize = 0;
        while c < keys.len()
            invariant
                0 <= c <= keys@.len(),
                keys@.to_set() == mir.definitions@.dom(),
                mir == mid,
                m0 == self,
                closures_prepared_program(m0, mid),
                closure_inputs_ok(m0),
                forall|j: int| 0 <= j < c ==> crate::mir::closure_calls::closure_calls_lowerable(mir.definitions@[#[trigger] keys@[j]], mir),
            decreases keys@.len() - c,
        {
            let k = keys[c];
            proof {
                assert(keys@.to_set().contains(k));
            }
            let d = fx_map_get(&mir.definitions, k).unwrap();
            if !crate::mir::closure_calls::closure_calls_lowerable_check(d, &mir) {
                proof {
                    assert(mir.definitions@.contains_key(k));
                    assert(!all_calls_lowerable(mid));
                    assert(closures_prepared_program(m0, mid) && !all_calls_lowerable(mid));
                    assert(!calls_lowerable_after(m0));
                    assert(closure_lowering_refused(m0));
                }
                return None;
            }
            c = c + 1;
        }
        proof {
            assert forall|x: DefinitionId| #[trigger] mir.definitions@.contains_key(x) implies crate::mir::closure_calls::closure_calls_lowerable(
                mir.definitions@[x],
                mir,
            ) by {
                assert(keys@.to_set().contains(x));
                let j = choose|j: int| 0 <= j < keys@.len() && keys@[j] == x;
                assert(crate::mir::closure_calls::closure_calls_lowerable(mir.definitions@[keys@[j]], mir));
            }
        }
        crate::mir::closure_calls::lower_closure_instructions(&mut mir);
        proof {
            assert(closures_lowered_program(m0, mid, mir));
            assert(closures_lowered_from(m0, mir));
        }
        Some(mir)
    }
}

} // verus!
