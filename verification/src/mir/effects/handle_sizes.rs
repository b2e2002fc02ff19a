//! How many instructions each function generated for a lowered `handle` holds, computed
//! beforehand so that a `handle` is lowered only where its ids fit.
use crate::mir::effects::channel::{pop_code, pop_fields_code, push_code, result};
use crate::mir::effects::code_size::{
    add_capped, capped, lemma_pop_fields_len, lemma_pop_len, lemma_push_len, pop_fields_len, pop_fields_size, pop_len,
    pop_size, push_len, push_size, size_cap,
};
use crate::mir::effects::coroutine_wrappers::{
    body_call_code, body_is_closure, body_wrapper_code, cap_wrapper_code, push_args_code,
};
use crate::mir::effects::drive::{
    case_code, cases_code, cases_end, dispatch_code, drive_coro, drive_layout, forward_code, forward_value_code,
    handler_case_code, header_code, resume_code,
};
use crate::mir::effects::lowering::{AminicoroFns, CaseShape, definition_value_code, int_view, pointer_view};
use crate::mir::instruction::GenericBindings;
use crate::mir::types::{IntegerKind, PrimitiveType, Type, TypeView, lemma_types_view, types_view};
use crate::mir::values::{DefinitionId, Value};
use std::sync::Arc;
use vstd::prelude::*;

verus! {

broadcast use lemma_types_view;

/// How many instructions referring to a definition at a caller's generics takes.
pub open spec fn forward_len(generic_count: u32) -> nat {
    if generic_count == 0 {
        0
    } else {
        1
    }
}

/// How many instructions pushing the first `k` parameters, of the given types, takes.
pub open spec fn push_args_len(types: Seq<TypeView>, k: nat) -> nat
    decreases k,
{
    if k == 0 || k > types.len() {
        0
    } else {
        push_args_len(types, (k - 1) as nat) + push_len(types[k - 1])
    }
}

proof fn lemma_push_args_len(mco: AminicoroFns, coro: Value, types: Seq<TypeView>, k: nat, n: nat)
    ensures
        push_args_code(mco, coro, types, k, n).len() == push_args_len(types, k),
    decreases k,
{
    if k > 0 && k <= types.len() {
        lemma_push_args_len(mco, coro, types, (k - 1) as nat, n);
        let before = push_args_code(mco, coro, types, (k - 1) as nat, n);
        lemma_push_len(
            mco.push.name@,
            mco.push.typ@,
            coro,
            Value::Parameter(crate::mir::values::BlockId(0), (k - 1) as u32),
            types[k - 1],
            n + before.len(),
        );
    }
}

/// How many instructions the capability wrapper of a case with shape `shape` holds.
pub open spec fn cap_wrapper_len(shape: CaseShape) -> nat {
    let args = types_view(shape.op_arg_types@);
    14 + push_args_len(args, args.len()) + pop_len(shape.op_return_type@)
}

pub proof fn lemma_cap_wrapper_len(mco: AminicoroFns, shape: CaseShape, case_index: u32)
    ensures
        cap_wrapper_code(mco, shape, case_index).0.len() == cap_wrapper_len(shape),
{
    let args = types_view(shape.op_arg_types@);
    let na = args.len();
    lemma_push_args_len(mco, result(3), args, na, 4);
    let c2 = push_args_code(mco, result(3), args, na, 4);
    let n3 = 4 + c2.len();
    lemma_push_len(
        mco.push.name@,
        mco.push.typ@,
        result(3),
        Value::Integer(crate::mir::values::IntConstant::U32(case_index)),
        int_view(IntegerKind::U32),
        n3,
    );
    let c3 = push_code(
        mco.push.name@,
        mco.push.typ@,
        result(3),
        Value::Integer(crate::mir::values::IntConstant::U32(case_index)),
        int_view(IntegerKind::U32),
        n3,
    );
    lemma_push_len(mco.push.name@, mco.push.typ@, result(3), result(1), pointer_view(), n3 + c3.len());
    let c4 = push_code(mco.push.name@, mco.push.typ@, result(3), result(1), pointer_view(), n3 + c3.len());
    let n5 = n3 + c3.len() + c4.len();
    lemma_pop_len(mco.pop.name@, mco.pop.typ@, result(3), shape.op_return_type@, n5 + 2);
    assert(push_len(int_view(IntegerKind::U32)) == 4);
    assert(push_len(pointer_view()) == 4);
}

/// [push_args_len] of every parameter of the given types, capped.
fn push_args_size(types: &Vec<Type>) -> (r: u64)
    ensures
        r == capped(push_args_len(types_view(types@), types@.len())),
{
    let ghost views = types_view(types@);
    let mut acc: u64 = 0;
    let mut i: usize = 0;
    while i < types.len()
        invariant
            0 <= i <= types@.len(),
            views == types_view(types@),
            views.len() == types@.len(),
            acc == capped(push_args_len(views, i as nat)),
        decreases types@.len() - i,
    {
        assert(views[i as int] == types@[i as int]@);
        let one = push_size(&types[i]);
        acc = add_capped(acc, one);
        i = i + 1;
    }
    acc
}

/// [cap_wrapper_len], capped.
pub fn cap_wrapper_size(shape: &CaseShape) -> (r: u64)
    ensures
        r == capped(cap_wrapper_len(*shape)),
{
    let args = push_args_size(&shape.op_arg_types);
    let ret = pop_size(&shape.op_return_type);
    let with_args = add_capped(14, args);
    add_capped(with_args, ret)
}

/// How many instructions the body wrapper holds.
pub open spec fn body_wrapper_len(body_typ: TypeView, bindings: Option<Arc<GenericBindings>>, result_type: TypeView) -> nat {
    let value = if bindings is Some {
        1nat
    } else {
        0nat
    };
    if body_is_closure(body_typ) {
        6 + value + push_len(result_type)
    } else {
        value + 1 + push_len(result_type)
    }
}

pub proof fn lemma_body_wrapper_len(
    mco: AminicoroFns,
    body_id: DefinitionId,
    body_typ: TypeView,
    bindings: Option<Arc<GenericBindings>>,
    env_type: TypeView,
    cap_type: TypeView,
    result_type: TypeView,
)
    ensures
        body_wrapper_code(mco, body_id, body_typ, bindings, env_type, cap_type, result_type).len() == body_wrapper_len(
            body_typ,
            bindings,
            result_type,
        ),
{
    let (call, value) = body_call_code(mco, body_id, body_typ, bindings, env_type, cap_type, result_type);
    lemma_push_len(
        mco.push.name@,
        mco.push.typ@,
        Value::Parameter(crate::mir::values::BlockId(0), 0),
        value,
        result_type,
        call.len(),
    );
}

/// [body_wrapper_len], capped.
pub fn body_wrapper_size(body_typ: &Type, bindings: &Option<Arc<GenericBindings>>, result_type: &Type) -> (r: u64)
    ensures
        r == capped(body_wrapper_len(body_typ@, *bindings, result_type@)),
{
    let value: u64 = match bindings {
        Some(_) => 1,
        None => 0,
    };
    let push = push_size(result_type);
    if body_typ.is_closure() {
        add_capped(6 + value, push)
    } else {
        add_capped(value + 1, push)
    }
}

/// How many instructions a resume function holds.
pub open spec fn resume_len(op_return: TypeView, handler_count: nat, generic_count: u32) -> nat {
    3 + handler_count + push_len(op_return) + forward_len(generic_count)
}

pub proof fn lemma_resume_len(
    mco: AminicoroFns,
    op_return: TypeView,
    drive_id: DefinitionId,
    drive_typ: TypeView,
    handler_types: Seq<TypeView>,
    result_type: TypeView,
    generic_count: u32,
)
    ensures
        resume_code(mco, op_return, drive_id, drive_typ, handler_types, result_type, generic_count).0.len() == resume_len(
            op_return,
            handler_types.len(),
            generic_count,
        ),
{
    let nh = handler_types.len();
    lemma_push_len(
        mco.push.name@,
        mco.push.typ@,
        result(1),
        Value::Parameter(crate::mir::values::BlockId(0), 0),
        op_return,
        2 + nh,
    );
}

/// [resume_len], capped.
pub fn resume_size(op_return: &Type, handler_count: usize, generic_count: u32) -> (r: u64)
    ensures
        r == capped(resume_len(op_return@, handler_count as nat, generic_count)),
{
    let push = push_size(op_return);
    let forward: u64 = if generic_count == 0 {
        0
    } else {
        1
    };
    let count = if handler_count as u64 >= 0xffff_ffff {
        0xffff_ffff
    } else {
        handler_count as u64
    };
    let a = add_capped(3 + forward, count);
    add_capped(a, push)
}

/// How many instructions case `i` of a drive holds.
pub open spec fn case_len(shapes: Seq<CaseShape>, generic_count: u32, i: int) -> nat {
    let args = types_view(shapes[i].op_arg_types@);
    pop_fields_len(args, args.len() as int) + 4 + forward_len(generic_count)
}

/// How many instructions the first `k` cases of a drive hold.
pub open spec fn cases_len(shapes: Seq<CaseShape>, generic_count: u32, k: nat) -> nat
    decreases k,
{
    if k == 0 {
        0
    } else {
        cases_len(shapes, generic_count, (k - 1) as nat) + case_len(shapes, generic_count, k - 1)
    }
}

proof fn lemma_cases_len(
    mco: AminicoroFns,
    handler_types: Seq<TypeView>,
    shapes: Seq<CaseShape>,
    resume_ids: Seq<DefinitionId>,
    result_type: TypeView,
    generic_count: u32,
    k: nat,
    n: nat,
)
    ensures
        cases_end(mco, handler_types, shapes, resume_ids, result_type, generic_count, k, n) == n + cases_len(
            shapes,
            generic_count,
            k,
        ),
    decreases k,
{
    if k > 0 {
        lemma_cases_len(mco, handler_types, shapes, resume_ids, result_type, generic_count, (k - 1) as nat, n);
        let m = cases_end(mco, handler_types, shapes, resume_ids, result_type, generic_count, (k - 1) as nat, n);
        let i = k - 1;
        let args = types_view(shapes[i].op_arg_types@);
        lemma_pop_fields_len(mco.pop.name@, mco.pop.typ@, drive_coro(), args, args.len() as int, m);
    }
}

/// How many instructions a drive holds.
pub open spec fn drive_len(shapes: Seq<CaseShape>, result_type: TypeView, generic_count: u32) -> nat {
    37 + pop_len(result_type) + cases_len(shapes, generic_count, shapes.len())
}

pub proof fn lemma_drive_len(
    mco: AminicoroFns,
    handler_types: Seq<TypeView>,
    shapes: Seq<CaseShape>,
    resume_ids: Seq<DefinitionId>,
    result_type: TypeView,
    generic_count: u32,
)
    requires
        handler_types.len() == shapes.len(),
    ensures
        drive_layout(mco, handler_types, shapes, resume_ids, result_type, generic_count).0.len() == drive_len(
            shapes,
            result_type,
            generic_count,
        ),
{
    let nh = handler_types.len();
    let complete = pop_code(mco.pop.name@, mco.pop.typ@, drive_coro(), result_type, 4).0;
    lemma_pop_len(mco.pop.name@, mco.pop.typ@, drive_coro(), result_type, 4);
    let nd = 4 + complete.len();
    let (dispatch, target, case_idx, eq) = dispatch_code(mco, nd);
    lemma_pop_len(mco.pop.name@, mco.pop.typ@, drive_coro(), pointer_view(), nd);
    let c1 = pop_code(mco.pop.name@, mco.pop.typ@, drive_coro(), pointer_view(), nd).0;
    lemma_pop_len(mco.pop.name@, mco.pop.typ@, drive_coro(), int_view(IntegerKind::U32), nd + c1.len());
    assert(pop_len(pointer_view()) == 5);
    assert(pop_len(int_view(IntegerKind::U32)) == 5);
    let nc = nd + dispatch.len();
    crate::mir::effects::drive::lemma_cases_end(mco, handler_types, shapes, resume_ids, result_type, generic_count, nh, nh, nc);
    lemma_cases_len(mco, handler_types, shapes, resume_ids, result_type, generic_count, nh, nc);
    let nf = cases_end(mco, handler_types, shapes, resume_ids, result_type, generic_count, nh, nc);
    let parent = result(nf + 1);
    lemma_push_len(mco.push.name@, mco.push.typ@, parent, case_idx, int_view(IntegerKind::U32), nf + 6);
    let p1 = push_code(mco.push.name@, mco.push.typ@, parent, case_idx, int_view(IntegerKind::U32), nf + 6);
    lemma_push_len(mco.push.name@, mco.push.typ@, parent, target, pointer_view(), nf + 6 + p1.len());
    assert(push_len(pointer_view()) == 4);
    assert(push_len(int_view(IntegerKind::U32)) == 4);
}

/// [cases_len] of every case, capped.
fn cases_size(shapes: &Vec<CaseShape>, generic_count: u32) -> (r: u64)
    ensures
        r == capped(cases_len(shapes@, generic_count, shapes@.len())),
{
    let forward: u64 = if generic_count == 0 {
        0
    } else {
        1
    };
    let mut acc: u64 = 0;
    let mut i: usize = 0;
    while i < shapes.len()
        invariant
            0 <= i <= shapes@.len(),
            forward == forward_len(generic_count),
            acc == capped(cases_len(shapes@, generic_count, i as nat)),
        decreases shapes@.len() - i,
    {
        let args = &shapes[i].op_arg_types;
        assert(types_view(args@).len() == args@.len());
        let pops = pop_fields_size(args, args.len());
        let one = add_capped(pops, 4 + forward);
        acc = add_capped(acc, one);
        i = i + 1;
    }
    acc
}

/// [drive_len], capped.
pub fn drive_size(shapes: &Vec<CaseShape>, result_type: &Type, generic_count: u32) -> (r: u64)
    ensures
        r == capped(drive_len(shapes@, result_type@, generic_count)),
{
    let pop = pop_size(result_type);
    let cases = cases_size(shapes, generic_count);
    let a = add_capped(37, pop);
    add_capped(a, cases)
}

/// The argument types of the operation of a handler of type `t`.
pub open spec fn handler_args(t: TypeView) -> Seq<TypeView> {
    t->Function_0.parameters.drop_last()
}

/// What the operation of a handler of type `t` returns: what its resume takes, unit where it
/// takes nothing.
pub open spec fn handler_ret(t: TypeView) -> TypeView {
    let resume = *t->Function_0.parameters.last()->Function_0;
    if resume.parameters.len() > 0 {
        resume.parameters[0]
    } else {
        TypeView::Primitive(PrimitiveType::Unit)
    }
}

/// How many instructions the first `k` cases of a drive hold, for handlers of types `ht`.
pub open spec fn cases_len_v(ht: Seq<TypeView>, generic_count: u32, k: nat) -> nat
    decreases k,
{
    if k == 0 {
        0
    } else {
        let args = handler_args(ht[k - 1]);
        cases_len_v(ht, generic_count, (k - 1) as nat) + pop_fields_len(args, args.len() as int) + 4 + forward_len(
            generic_count,
        )
    }
}

/// How many instructions the drive of handlers of types `ht` holds.
pub open spec fn drive_len_v(ht: Seq<TypeView>, result_type: TypeView, generic_count: u32) -> nat {
    37 + pop_len(result_type) + cases_len_v(ht, generic_count, ht.len())
}

/// How many instructions the capability wrapper of a handler of type `t` holds.
pub open spec fn cap_wrapper_len_v(t: TypeView) -> nat {
    let args = handler_args(t);
    14 + push_args_len(args, args.len()) + pop_len(handler_ret(t))
}

/// The shapes of handlers of types `ht`, as far as the sizes go: the arguments and the result.
pub open spec fn shapes_match(ht: Seq<TypeView>, shapes: Seq<CaseShape>) -> bool {
    &&& shapes.len() == ht.len()
    &&& forall|k: int|
        0 <= k < ht.len() ==> types_view((#[trigger] shapes[k]).op_arg_types@) == handler_args(ht[k])
            && shapes[k].op_return_type@ == handler_ret(ht[k])
}

pub proof fn lemma_cases_len_v(ht: Seq<TypeView>, shapes: Seq<CaseShape>, generic_count: u32, k: nat)
    requires
        shapes_match(ht, shapes),
        k <= ht.len(),
    ensures
        cases_len(shapes, generic_count, k) == cases_len_v(ht, generic_count, k),
    decreases k,
{
    if k > 0 {
        lemma_cases_len_v(ht, shapes, generic_count, (k - 1) as nat);
        assert(types_view(shapes[k - 1].op_arg_types@) == handler_args(ht[k - 1]));
    }
}

pub proof fn lemma_drive_len_v(ht: Seq<TypeView>, shapes: Seq<CaseShape>, result_type: TypeView, generic_count: u32)
    requires
        shapes_match(ht, shapes),
    ensures
        drive_len(shapes, result_type, generic_count) == drive_len_v(ht, result_type, generic_count),
{
    lemma_cases_len_v(ht, shapes, generic_count, ht.len());
}

} // verus!
