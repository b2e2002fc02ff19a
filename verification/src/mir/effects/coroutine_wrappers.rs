//! The functions a lowered `handle` runs inside its coroutine: the capability wrappers that
//! stand for the handled operations, and the wrapper that runs the handled body and hands its
//! result back.
use crate::mir::definition::{Block, Definition};
use crate::mir::effects::abort::{set_terminator, wrapper_type_view};
use crate::mir::effects::channel::{pop_code, push_code, result};
use crate::mir::effects::drive::{block_room, coro_fns_typed, holds_code};
use crate::mir::effects::lowering::{
    AminicoroFns, CaseShape, Emitter, code_added, definition_value_code, emitted, extern_call_code, id_range,
    int_view, lemma_emitted_nothing, lemma_emitted_then, pointer_view, ptr_fn, room_for, spec_ptr_fn,
};
use crate::mir::instruction::{GenericBindings, Instruction, InstructionView, TerminatorInstruction};
use crate::mir::types::{
    FunctionType, IntegerKind, PrimitiveType, Type, TypeView, clone_types, lemma_types_view, spec_is_closure,
    types_view,
};
use crate::mir::values::{BlockId, DefinitionId, InstructionId, IntConstant, Value};
use crate::text::{decimal, push_decimal};
use std::sync::Arc;
use vstd::prelude::*;
use vstd::string::StringExecFns;

verus! {

broadcast use lemma_types_view;

/// The pushes of the first `k` parameters of the entry block, of the given types, onto the
/// channel of `coro`, when the definition has `n` instructions.
pub open spec fn push_args_code(mco: AminicoroFns, coro: Value, types: Seq<TypeView>, k: nat, n: nat) -> Seq<
    (InstructionView, TypeView),
>
    decreases k,
{
    if k == 0 || k > types.len() {
        seq![]
    } else {
        let before = push_args_code(mco, coro, types, (k - 1) as nat, n);
        before + push_code(
            mco.push.name@,
            mco.push.typ@,
            coro,
            Value::Parameter(BlockId(0), (k - 1) as u32),
            types[k - 1],
            n + before.len(),
        )
    }
}

/// The code of the capability wrapper of case `case_index`, and what it returns: the target
/// coroutine read through the environment, the running coroutine, the operation's arguments,
/// the case index and the target pushed onto it, a suspension, and the answer popped.
pub open spec fn cap_wrapper_code(mco: AminicoroFns, shape: CaseShape, case_index: u32) -> (Seq<
    (InstructionView, TypeView),
>, Value) {
    let args = types_view(shape.op_arg_types@);
    let na = args.len();
    let current = result(3);
    let c0 = seq![
        (InstructionView::Deref(Value::Parameter(BlockId(0), na as u32)), TypeView::Tuple(seq![pointer_view()])),
        (InstructionView::IndexTuple { tuple: result(0), index: 0 }, pointer_view()),
    ];
    let c1 = extern_call_code(mco.running.name@, mco.running.typ@, seq![], 2);
    let c2 = push_args_code(mco, current, args, na, 4);
    let n3 = 4 + c2.len();
    let c3 = push_code(
        mco.push.name@,
        mco.push.typ@,
        current,
        Value::Integer(IntConstant::U32(case_index)),
        int_view(IntegerKind::U32),
        n3,
    );
    let n4 = n3 + c3.len();
    let c4 = push_code(mco.push.name@, mco.push.typ@, current, result(1), pointer_view(), n4);
    let n5 = n4 + c4.len();
    let c5 = extern_call_code(mco.suspend.name@, mco.suspend.typ@, seq![current], n5);
    let (c6, answer) = pop_code(mco.pop.name@, mco.pop.typ@, current, shape.op_return_type@, n5 + 2);
    (c0 + c1 + c2 + c3 + c4 + c5 + c6, answer)
}

/// `d` is the capability wrapper `id` of case `case_index`: a closure of the operation's type
/// whose environment points at `(target_coro,)`, its one block taking the operation's
/// arguments and the environment and running [cap_wrapper_code].
pub open spec fn is_capability_wrapper(
    d: Definition,
    id: DefinitionId,
    mco: AminicoroFns,
    shape: CaseShape,
    case_index: u32,
    generic_count: u32,
) -> bool {
    let (code, answer) = cap_wrapper_code(mco, shape, case_index);
    &&& d.name@ == "handle_cap_wrap_"@ + decimal(case_index as nat)
    &&& d.id == id
    &&& d.generic_count == generic_count
    &&& d.typ@ == wrapper_type_view(shape)
    &&& d.blocks@.len() == 1
    &&& types_view(d.blocks@[0].parameter_types@) == types_view(shape.op_arg_types@).push(pointer_view())
    &&& d.blocks@[0].instructions@ == id_range(0, code.len())
    &&& d.blocks@[0].terminator == Some(TerminatorInstruction::Return(answer))
    &&& holds_code(d, code)
}

/// A fresh definition holds what was emitted into it.
proof fn lemma_fresh_holds(d0: Definition, d: Definition, code: Seq<(InstructionView, TypeView)>)
    requires
        d0.instructions@.len() == 0,
        d0.instruction_result_types@.len() == 0,
        code_added(d0, d, code),
    ensures
        holds_code(d, code),
{
    assert forall|k: int| 0 <= k < code.len() implies (#[trigger] d.instructions@[k])@ == code[k].0 by {
        assert(d.instructions@[0 + k]@ == code[k].0);
    }
    assert forall|k: int| 0 <= k < code.len() implies (#[trigger] d.instruction_result_types@[k])@ == code[k].1 by {
        assert(d.instruction_result_types@[0 + k]@ == code[k].1);
    }
}

/// Pushes the first `count` parameters of the entry block, of types `types`, onto `coro`.
fn push_arguments(e: &mut Emitter, definition: &mut Definition, mco: &AminicoroFns, coro: Value, types: &Vec<Type>)
    requires
        coro_fns_typed(*mco),
        types@.len() < u32::MAX,
        room_for(
            *old(e),
            *old(definition),
            push_args_code(*mco, coro, types_view(types@), types@.len(), old(definition).instructions@.len()).len(),
        ),
    ensures
        emitted(
            *old(e),
            *old(definition),
            *final(e),
            *final(definition),
            push_args_code(*mco, coro, types_view(types@), types@.len(), old(definition).instructions@.len()),
        ),
{
    let ghost e0 = *e;
    let ghost d0 = *definition;
    let ghost n = d0.instructions@.len();
    let ghost views = types_view(types@);
    let ghost total = push_args_code(*mco, coro, views, types@.len(), n);
    proof {
        lemma_emitted_nothing(e0, d0);
        lemma_push_args_prefix(*mco, coro, views, 0, types@.len(), n);
    }
    let mut i: usize = 0;
    while i < types.len()
        invariant
            0 <= i <= types@.len(),
            types@.len() < u32::MAX,
            coro_fns_typed(*mco),
            views == types_view(types@),
            total == push_args_code(*mco, coro, views, types@.len(), n),
            n + total.len() < u32::MAX,
            d0.instructions@.len() == n,
            room_for(e0, d0, total.len()),
            e.target == e0.target,
            push_args_code(*mco, coro, views, i as nat, n).len() <= total.len(),
            emitted(e0, d0, *e, *definition, push_args_code(*mco, coro, views, i as nat, n)),
        decreases types@.len() - i,
    {
        let ghost e1 = *e;
        let ghost d1 = *definition;
        let ghost before = push_args_code(*mco, coro, views, i as nat, n);
        proof {
            lemma_push_args_prefix(*mco, coro, views, (i + 1) as nat, types@.len(), n);
        }
        e.push_bytes(definition, mco, coro, Value::Parameter(BlockId(0), i as u32), &types[i]);
        proof {
            let step = push_code(
                mco.push.name@,
                mco.push.typ@,
                coro,
                Value::Parameter(BlockId(0), i as u32),
                views[i as int],
                n + before.len(),
            );
            lemma_emitted_then(e0, d0, e1, d1, *e, *definition, before, step);
        }
        i = i + 1;
    }
}

/// The pushes of the first `j` arguments are no longer than those of the first `k`.
proof fn lemma_push_args_prefix(mco: AminicoroFns, coro: Value, types: Seq<TypeView>, j: nat, k: nat, n: nat)
    requires
        j <= k <= types.len(),
    ensures
        push_args_code(mco, coro, types, j, n).len() <= push_args_code(mco, coro, types, k, n).len(),
    decreases k,
{
    if j < k {
        lemma_push_args_prefix(mco, coro, types, j, (k - 1) as nat, n);
    }
}

/// Generate `wrap_i op_args.. (env: Pointer) -> ret_i`. The closure env carries the target
/// coroutine. The wrapper pushes (op_args, case_index, target) onto whichever coroutine is
/// currently running and suspends that coroutine. Each intermediate drive then either
/// dispatches (if its own coroutine is the target) or forwards the message up until it reaches
/// the target's drive. After being resumed, the result has been pushed back onto the
/// originally running coroutine. Builds the wrapper `wrap_id` (see [is_capability_wrapper]).
pub fn generate_capability_wrapper(
    case_index: u32,
    shape: &CaseShape,
    mco: &AminicoroFns,
    generic_count: u32,
    wrap_id: DefinitionId,
) -> (r: Definition)
    requires
        coro_fns_typed(*mco),
        shape.op_arg_types@.len() < u32::MAX,
        cap_wrapper_code(*mco, *shape, case_index).0.len() < u32::MAX,
    ensures
        is_capability_wrapper(r, wrap_id, *mco, *shape, case_index, generic_count),
{
    let ghost code_all = cap_wrapper_code(*mco, *shape, case_index);
    let ghost args = types_view(shape.op_arg_types@);
    let ghost na = args.len();
    let mut parameters = clone_types(&shape.op_arg_types);
    parameters.push(Type::pointer());
    let environment = Type::pointer();
    assert(environment@ == pointer_view());
    let return_type = shape.op_return_type.clone();
    let f = FunctionType { parameters: clone_types(&shape.op_arg_types), environment, return_type };
    assert(f@ == crate::mir::types::FunctionTypeView {
        parameters: types_view(shape.op_arg_types@),
        environment: pointer_view(),
        return_type: shape.op_return_type@,
    });
    let wrap_type = Type::Function(Arc::new(f));
    assert(wrap_type@ == wrapper_type_view(*shape));
    let mut name = String::from_str("handle_cap_wrap_");
    push_decimal(&mut name, case_index as u64);
    proof {
        reveal_strlit("handle_cap_wrap_");
    }
    let mut definition = Definition::new(Arc::new(name), wrap_id, generic_count, wrap_type);
    proof {
        assert(types_view(parameters@) =~= args.push(pointer_view()));
    }
    definition.blocks.set(0, Block::new(parameters));
    let ghost d0 = definition;
    let entry = BlockId(0);
    let op_arg_count = shape.op_arg_types.len();
    let env_value = Value::Parameter(entry, op_arg_count as u32);
    let mut emitter = Emitter::in_block(entry);
    let ghost e0 = emitter;

    // env: &(target_coro,)
    let mut state_fields: Vec<Type> = Vec::new();
    state_fields.push(Type::pointer());
    proof {
        assert(types_view(state_fields@) =~= seq![pointer_view()]);
    }
    let state_type = Type::tuple(state_fields);
    let ghost c0 = seq![
        (InstructionView::Deref(Value::Parameter(BlockId(0), na as u32)), TypeView::Tuple(seq![pointer_view()])),
        (InstructionView::IndexTuple { tuple: result(0), index: 0 }, pointer_view()),
    ];
    let ghost c1 = extern_call_code(mco.running.name@, mco.running.typ@, seq![], 2);
    let ghost c2 = push_args_code(*mco, result(3), args, na, 4);
    let ghost n3 = 4 + c2.len();
    let ghost c3 = push_code(
        mco.push.name@,
        mco.push.typ@,
        result(3),
        Value::Integer(IntConstant::U32(case_index)),
        int_view(IntegerKind::U32),
        n3,
    );
    let ghost n4 = n3 + c3.len();
    let ghost c4 = push_code(mco.push.name@, mco.push.typ@, result(3), result(1), pointer_view(), n4);
    let ghost n5 = n4 + c4.len();
    let ghost c5 = extern_call_code(mco.suspend.name@, mco.suspend.typ@, seq![result(3)], n5);
    let ghost c6 = pop_code(mco.pop.name@, mco.pop.typ@, result(3), shape.op_return_type@, n5 + 2).0;
    assert(code_all.0 == c0 + c1 + c2 + c3 + c4 + c5 + c6);

    let state = emitter.push_instruction(&mut definition, Instruction::Deref(env_value), state_type);
    let ghost ea = emitter;
    let ghost da = definition;
    let target = emitter.push_instruction(&mut definition, Instruction::IndexTuple { tuple: state, index: 0 }, Type::pointer());
    let ghost eb = emitter;
    let ghost db = definition;
    let current = emitter.call_extern(&mut definition, &mco.running, Vec::new());
    let ghost ec = emitter;
    let ghost dc = definition;
    proof {
        assert(Seq::<Value>::empty() =~= seq![]);
    }
    push_arguments(&mut emitter, &mut definition, mco, current, &shape.op_arg_types);
    let ghost ed = emitter;
    let ghost dd = definition;
    emitter.push_bytes(
        &mut definition,
        mco,
        current,
        Value::Integer(IntConstant::U32(case_index)),
        &Type::integer(IntegerKind::U32),
    );
    let ghost ee = emitter;
    let ghost de = definition;
    emitter.push_bytes(&mut definition, mco, current, target, &Type::pointer());
    let ghost ef = emitter;
    let ghost df = definition;
    let args_suspend = vec![current];
    assert(args_suspend@ =~= seq![result(3)]);
    emitter.call_extern(&mut definition, &mco.suspend, args_suspend);
    let ghost eg = emitter;
    let ghost dg = definition;
    let answer = emitter.pop_bytes(&mut definition, mco, current, &shape.op_return_type);
    let ghost dh = definition;
    proof {
        let ca = seq![c0[0]];
        let cb = seq![c0[1]];
        lemma_emitted_then(e0, d0, ea, da, eb, db, ca, cb);
        assert(ca + cb =~= c0);
        lemma_emitted_then(e0, d0, eb, db, ec, dc, c0, c1);
        lemma_emitted_then(e0, d0, ec, dc, ed, dd, c0 + c1, c2);
        lemma_emitted_then(e0, d0, ed, dd, ee, de, c0 + c1 + c2, c3);
        lemma_emitted_then(e0, d0, ee, de, ef, df, c0 + c1 + c2 + c3, c4);
        lemma_emitted_then(e0, d0, ef, df, eg, dg, c0 + c1 + c2 + c3 + c4, c5);
        lemma_emitted_then(e0, d0, eg, dg, emitter, dh, c0 + c1 + c2 + c3 + c4 + c5, c6);
        lemma_fresh_holds(d0, dh, code_all.0);
        assert(dh.blocks@[0].instructions@ =~= id_range(0, code_all.0.len()));
    }
    set_terminator(&mut definition, entry, Some(TerminatorInstruction::Return(answer)));
    definition
}

/// A body of type `t` is a closure.
pub open spec fn body_is_closure(t: TypeView) -> bool {
    t is Function && spec_is_closure(*t->Function_0)
}

/// The call of the body in the body wrapper, and its result: for a closure, the environment
/// is read back from the coroutine's user data, `(cap, env)`, and the closure rebuilt and
/// called with unit; otherwise the body is called with unit.
pub open spec fn body_call_code(
    mco: AminicoroFns,
    body_id: DefinitionId,
    body_typ: TypeView,
    bindings: Option<Arc<GenericBindings>>,
    env_type: TypeView,
    cap_type: TypeView,
    result_type: TypeView,
) -> (Seq<(InstructionView, TypeView)>, Value) {
    let coro = Value::Parameter(BlockId(0), 0);
    if body_is_closure(body_typ) {
        let c1 = extern_call_code(mco.get_user_data.name@, mco.get_user_data.typ@, seq![coro], 0);
        let c2 = seq![
            (InstructionView::Deref(result(1)), TypeView::Tuple(seq![cap_type, env_type])),
            (InstructionView::IndexTuple { tuple: result(2), index: 1 }, env_type),
        ];
        let (c3, f) = definition_value_code(body_id, body_typ, bindings, 4);
        let n4 = 4 + c3.len();
        (
            c1 + c2 + c3 + seq![
                (InstructionView::PackClosure { function: f, environment: result(3) }, body_typ),
                (InstructionView::CallClosure { closure: result(n4), arguments: seq![Value::Unit] }, result_type),
            ],
            result(n4 + 1),
        )
    } else {
        let (c3, f) = definition_value_code(body_id, body_typ, bindings, 0);
        (c3 + seq![(InstructionView::Call { function: f, arguments: seq![Value::Unit] }, result_type)], result(c3.len()))
    }
}

/// The code of the body wrapper: the body's call (see [body_call_code]) and its result pushed
/// onto the coroutine for the drive to pop.
pub open spec fn body_wrapper_code(
    mco: AminicoroFns,
    body_id: DefinitionId,
    body_typ: TypeView,
    bindings: Option<Arc<GenericBindings>>,
    env_type: TypeView,
    cap_type: TypeView,
    result_type: TypeView,
) -> Seq<(InstructionView, TypeView)> {
    let (call, value) = body_call_code(mco, body_id, body_typ, bindings, env_type, cap_type, result_type);
    call + push_code(mco.push.name@, mco.push.typ@, Value::Parameter(BlockId(0), 0), value, result_type, call.len())
}

/// `d` is the body wrapper `id`: `fn (Pointer) -> Unit`, its one block taking the coroutine,
/// running [body_wrapper_code] and returning unit.
pub open spec fn is_body_wrapper(
    d: Definition,
    id: DefinitionId,
    mco: AminicoroFns,
    body_id: DefinitionId,
    body_typ: TypeView,
    bindings: Option<Arc<GenericBindings>>,
    env_type: TypeView,
    cap_type: TypeView,
    result_type: TypeView,
    generic_count: u32,
) -> bool {
    let code = body_wrapper_code(mco, body_id, body_typ, bindings, env_type, cap_type, result_type);
    &&& d.name@ == "handle_body_wrapper"@
    &&& d.id == id
    &&& d.generic_count == generic_count
    &&& d.typ@ == spec_ptr_fn(seq![pointer_view()], TypeView::Primitive(PrimitiveType::Unit))
    &&& d.blocks@.len() == 1
    &&& types_view(d.blocks@[0].parameter_types@) == seq![pointer_view()]
    &&& d.blocks@[0].instructions@ == id_range(0, code.len())
    &&& d.blocks@[0].terminator == Some(TerminatorInstruction::Return(Value::Unit))
    &&& holds_code(d, code)
}

/// Generates `fn (coro: Pointer) -> Unit`, which calls the body and pushes its result for the
/// drive to pop. Builds the body wrapper `wrapper_id` of the body `body_fn_id`, of type
/// `body_type`, instantiated at `body_bindings` (see [is_body_wrapper]).
pub fn generate_body_wrapper(
    body_fn_id: DefinitionId,
    body_type: &Type,
    body_bindings: Option<Arc<GenericBindings>>,
    env_type: &Type,
    cap_type: &Type,
    result_type: &Type,
    mco: &AminicoroFns,
    generic_count: u32,
    wrapper_id: DefinitionId,
) -> (r: Definition)
    requires
        coro_fns_typed(*mco),
        body_wrapper_code(*mco, body_fn_id, body_type@, body_bindings, env_type@, cap_type@, result_type@).len() < u32::MAX,
    ensures
        is_body_wrapper(
            r,
            wrapper_id,
            *mco,
            body_fn_id,
            body_type@,
            body_bindings,
            env_type@,
            cap_type@,
            result_type@,
            generic_count,
        ),
{
    let ghost code_all = body_wrapper_code(*mco, body_fn_id, body_type@, body_bindings, env_type@, cap_type@, result_type@);
    let ghost call = body_call_code(*mco, body_fn_id, body_type@, body_bindings, env_type@, cap_type@, result_type@);
    let mut parameters: Vec<Type> = Vec::new();
    parameters.push(Type::pointer());
    proof {
        assert(types_view(parameters@) =~= seq![pointer_view()]);
    }
    let wrapper_type = ptr_fn(parameters, Type::unit());
    let mut definition = Definition::new(
        Arc::new(String::from_str("handle_body_wrapper")),
        wrapper_id,
        generic_count,
        wrapper_type,
    );
    let mut entry_parameters: Vec<Type> = Vec::new();
    entry_parameters.push(Type::pointer());
    proof {
        assert(types_view(entry_parameters@) =~= seq![pointer_view()]);
    }
    definition.blocks.set(0, Block::new(entry_parameters));
    let ghost d0 = definition;
    let entry = BlockId(0);
    let coro = Value::Parameter(entry, 0);
    let mut emitter = Emitter::in_block(entry);
    let ghost e0 = emitter;

    let body_closure = body_type.is_closure();
    let result = if body_closure {
        // The body's prelude reads cap from user_data, only env needs reconstructing here.
        let args = vec![coro];
        assert(args@ =~= seq![coro]);
        let user_data = emitter.call_extern(&mut definition, &mco.get_user_data, args);
        let ghost e1 = emitter;
        let ghost d1 = definition;
        let mut pair: Vec<Type> = Vec::new();
        pair.push(cap_type.clone());
        pair.push(env_type.clone());
        proof {
            assert(types_view(pair@) =~= seq![cap_type@, env_type@]);
        }
        let cap_and_env = emitter.push_instruction(&mut definition, Instruction::Deref(user_data), Type::tuple(pair));
        let ghost e2 = emitter;
        let ghost d2 = definition;
        let env_value = emitter.push_instruction(
            &mut definition,
            Instruction::IndexTuple { tuple: cap_and_env, index: 1 },
            env_type.clone(),
        );
        let ghost e3 = emitter;
        let ghost d3 = definition;
        let ghost c3 = definition_value_code(body_fn_id, body_type@, body_bindings, 4).0;
        let body_fn_value = emitter.emit_definition_value(&mut definition, body_fn_id, body_type.clone(), body_bindings);
        let ghost e4 = emitter;
        let ghost d4 = definition;
        let closure = emitter.push_instruction(
            &mut definition,
            Instruction::PackClosure { function: body_fn_value, environment: env_value },
            body_type.clone(),
        );
        let ghost e5 = emitter;
        let ghost d5 = definition;
        let call_args = vec![Value::Unit];
        assert(call_args@ =~= seq![Value::Unit]);
        let r = emitter.push_instruction(
            &mut definition,
            Instruction::CallClosure { closure, arguments: call_args },
            result_type.clone(),
        );
        proof {
            let c1 = extern_call_code(mco.get_user_data.name@, mco.get_user_data.typ@, seq![coro], 0);
            let c2a = seq![(InstructionView::Deref(result(1)), TypeView::Tuple(seq![cap_type@, env_type@]))];
            let c2b = seq![(InstructionView::IndexTuple { tuple: result(2), index: 1 }, env_type@)];
            let c5 = seq![(InstructionView::PackClosure { function: body_fn_value, environment: result(3) }, body_type@)];
            let c6 = seq![(InstructionView::CallClosure { closure, arguments: seq![Value::Unit] }, result_type@)];
            lemma_emitted_then(e0, d0, e1, d1, e2, d2, c1, c2a);
            lemma_emitted_then(e0, d0, e2, d2, e3, d3, c1 + c2a, c2b);
            lemma_emitted_then(e0, d0, e3, d3, e4, d4, c1 + c2a + c2b, c3);
            lemma_emitted_then(e0, d0, e4, d4, e5, d5, c1 + c2a + c2b + c3, c5);
            lemma_emitted_then(e0, d0, e5, d5, emitter, definition, c1 + c2a + c2b + c3 + c5, c6);
            assert(c1 + c2a + c2b + c3 + c5 + c6 =~= call.0);
        }
        r
    } else {
        let ghost c3 = definition_value_code(body_fn_id, body_type@, body_bindings, 0).0;
        let body_fn_value = emitter.emit_definition_value(&mut definition, body_fn_id, body_type.clone(), body_bindings);
        let ghost e4 = emitter;
        let ghost d4 = definition;
        let call_args = vec![Value::Unit];
        assert(call_args@ =~= seq![Value::Unit]);
        let r = emitter.push_instruction(
            &mut definition,
            Instruction::Call { function: body_fn_value, arguments: call_args },
            result_type.clone(),
        );
        proof {
            let c6 = seq![(InstructionView::Call { function: body_fn_value, arguments: seq![Value::Unit] }, result_type@)];
            lemma_emitted_then(e0, d0, e4, d4, emitter, definition, c3, c6);
            assert(c3 + c6 =~= call.0);
        }
        r
    };
    let ghost e6 = emitter;
    let ghost d6 = definition;
    emitter.push_bytes(&mut definition, mco, coro, result, result_type);
    let ghost d7 = definition;
    proof {
        lemma_emitted_then(
            e0,
            d0,
            e6,
            d6,
            emitter,
            d7,
            call.0,
            push_code(mco.push.name@, mco.push.typ@, coro, call.1, result_type@, call.0.len()),
        );
        lemma_fresh_holds(d0, d7, code_all);
        assert(d7.blocks@[0].instructions@ =~= id_range(0, code_all.len()));
    }
    set_terminator(&mut definition, entry, Some(TerminatorInstruction::Return(Value::Unit)));
    definition
}

} // verus!
