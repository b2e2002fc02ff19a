//! The abort-handler optimization itself: a `Handle` whose handler cases never call `resume` is
//! lowered to `setjmp`/`longjmp`. Its handlers become wrappers that store their result into a
//! slot and `longjmp` back to the handle, which branches on `setjmp`'s result into either a call
//! of the body or straight to the merge block, where the slot is loaded.
use crate::mir::definition::{Block, Definition, same_block, same_terminator};
use crate::mir::effects::abort::{
    CaseDecision, PreparedBody, SetjmpPrologue, block_rewritten_upto, body_closure_code, build_setjmp_prologue, cap_closures_code,
    cap_tuple_code, clone_handler_for_wrapper, create_branch_blocks, emit_wrapper_prologue, env_fields_code, fill_then_block,
    finalize_merge_block, is_return_block, longjmp_call, longjmp_view, min3, result_of, returns_before,
    rewrite_returns_as_longjmp, set_terminator, setjmp_prologue_code, split_block_at_handle, wrapper_prologue_code,
    wrapper_type_view,
};
use crate::mir::effects::lowering::{CaseShape, HandleSite, definition_value_code, id_range};
use crate::mir::instruction::TerminatorInstruction;
use crate::mir::effects::tail_resume::{block_replaced, substitute_value};
use crate::mir::instruction::{Instruction, InstructionView, replace_in_instruction};
use crate::mir::types::{PrimitiveType, Type};
use crate::mir::values::{BlockId, DefinitionId, InstructionId, Value};
use crate::text::decimal;
use crate::fx::{fx_id_set_insert, fx_map_get, fx_map_insert, fx_map_keys};
use crate::mir::definition::{spec_type_of_value, value_in_bounds};
use crate::mir::effects::abort::{case_is_abort_only, preserve_op_indices, uses_value, with_op_indices};
use crate::mir::effects::body_clone::{
    block_copied, clone_body_with_extended_env, env_extended, neutralize_handler_caps_in_dead_body, rewrite_handler_caps_in_body,
    subtree_cloned,
};
use crate::mir::effects::lowering::{
    case_shape_from_handler_type, ids_resolve, is_handler_type, resolve_body_function, resolve_id, shape_of, spec_resolve_id,
    spec_unpack, unpack_in_bounds,
};
use crate::mir::effects::tail_resume::{OriginalEnvLayout, resolve_handler, resume_parameter};
use crate::mir::effects::tail_resume_pass::{
    body_checks, body_resolution, cap_tuple_view, caps_neutralized, caps_rewritten, env_field_count, fresh_base, handler_arity,
    ids_available, ids_resolve_check, is_handler_view, lemma_dom_growth, lemma_handler_type_view, nth_id, take_definition,
};
use crate::mir::instruction::{GenericBindings, HandlerCase};
use crate::mir::program::{Mir, mentions};
use crate::mir::types::{clone_types, lemma_types_view, spec_is_closure, types_view};
use rustc_hash::FxHashSet;
use std::sync::Arc;
use vstd::prelude::*;

verus! {

/// `w` is the copy of `handler` that [clone_handler_for_wrapper] makes for case `case_index`.
pub open spec fn cloned_for_wrapper(handler: Definition, new_id: DefinitionId, shape: CaseShape, case_index: u32, w: Definition) -> bool {
    &&& w.id == new_id
    &&& w.generic_count == handler.generic_count
    &&& w.name@ == handler.name@ + "_abort_wrapper_"@ + decimal(case_index as nat)
    &&& w.typ@ == wrapper_type_view(shape)
    &&& w.blocks@.len() == handler.blocks@.len()
    &&& w.blocks@[0].parameter_types@ == shape.op_arg_types@.push(Type::Primitive(PrimitiveType::Pointer))
    &&& w.blocks@[0].instructions@ == handler.blocks@[0].instructions@
    &&& match handler.blocks@[0].terminator {
        Some(t) => w.blocks@[0].terminator matches Some(u) && same_terminator(t, u),
        None => w.blocks@[0].terminator is None,
    }
    &&& forall|b: int| 0 < b < handler.blocks@.len() ==> same_block(handler.blocks@[b], #[trigger] w.blocks@[b])
    &&& w.instructions@.len() == handler.instructions@.len()
    &&& forall|i: int| 0 <= i < handler.instructions@.len() ==> (#[trigger] w.instructions@[i])@ == handler.instructions@[i]@
    &&& w.instruction_result_types@ == handler.instruction_result_types@
}

/// `after` is `before` with the instructions of `code` added and put in front of its entry
/// block.
pub open spec fn prologue_prepended(before: Definition, after: Definition, code: Seq<(InstructionView, crate::mir::types::TypeView)>) -> bool {
    let n = before.instructions@.len();
    &&& after.instructions@.len() == n + code.len()
    &&& after.instruction_result_types@.len() == n + code.len()
    &&& after.instructions@.subrange(0, n as int) == before.instructions@
    &&& after.instruction_result_types@.subrange(0, n as int) == before.instruction_result_types@
    &&& forall|k: int| 0 <= k < code.len() ==> (#[trigger] after.instructions@[n + k])@ == code[k].0
    &&& forall|k: int| 0 <= k < code.len() ==> (#[trigger] after.instruction_result_types@[n + k])@ == code[k].1
    &&& after.blocks@.len() == before.blocks@.len()
    &&& after.blocks@[0].instructions@ == id_range(n, code.len()) + before.blocks@[0].instructions@
    &&& after.blocks@[0].parameter_types == before.blocks@[0].parameter_types
    &&& after.blocks@[0].terminator == before.blocks@[0].terminator
    &&& forall|x: int| 0 < x < before.blocks@.len() ==> #[trigger] after.blocks@[x] == before.blocks@[x]
    &&& after.name == before.name
    &&& after.id == before.id
    &&& after.typ == before.typ
    &&& after.generic_count == before.generic_count
}

/// `after` is `before` with every use of `find` replaced by `replace` ([substitute_value]).
pub open spec fn value_substituted(before: Definition, after: Definition, find: Value, replace: Value) -> bool {
    &&& after.instructions@.len() == before.instructions@.len()
    &&& forall|i: int|
        0 <= i < before.instructions@.len() ==> #[trigger] after.instructions@[i]@ == replace_in_instruction(
            before.instructions@[i]@,
            find,
            replace,
        )
    &&& after.blocks@.len() == before.blocks@.len()
    &&& forall|b: int| 0 <= b < before.blocks@.len() ==> block_replaced(before.blocks@[b], #[trigger] after.blocks@[b], find, replace)
    &&& after.instruction_result_types == before.instruction_result_types
    &&& after.name == before.name
    &&& after.id == before.id
    &&& after.generic_count == before.generic_count
    &&& after.typ == before.typ
}

/// `after` is `before` with each `return v` turned into `Store(slot, v); longjmp(buf, 1);
/// unreachable` ([rewrite_returns_as_longjmp]).
pub open spec fn returns_rewritten(before: Definition, after: Definition, buf_ptr: Value, result_slot: Value) -> bool {
    let blocks = before.blocks@;
    let n = before.instructions@.len();
    let total = returns_before(blocks, blocks.len() as int);
    &&& total == 0 ==> after == before
    &&& total > 0 ==> {
        &&& after.instructions@.len() == n + 1 + 2 * total
        &&& after.instruction_result_types@.len() == n + 1 + 2 * total
        &&& after.instructions@.subrange(0, n as int) == before.instructions@
        &&& after.instruction_result_types@.subrange(0, n as int) == before.instruction_result_types@
        &&& after.instructions@[n as int]@ == InstructionView::Extern("mco_abort_longjmp"@)
        &&& after.instruction_result_types@[n as int]@ == longjmp_view()
        &&& after.blocks@.len() == blocks.len()
        &&& forall|b: int| 0 <= b < blocks.len() ==> block_rewritten_upto(blocks, b, n, total, #[trigger] after.blocks@[b])
        &&& forall|b: int| 0 <= b < blocks.len() && is_return_block(#[trigger] blocks[b]) ==> {
            let k = returns_before(blocks, b);
            &&& after.instructions@[(n + 1 + 2 * k) as int] == Instruction::Store {
                pointer: result_slot,
                value: blocks[b].terminator->0->Return_0,
            }
            &&& after.instructions@[(n + 2 + 2 * k) as int]@ == longjmp_call(n, buf_ptr)
            &&& after.instruction_result_types@[(n + 1 + 2 * k) as int] == Type::Primitive(PrimitiveType::Unit)
            &&& after.instruction_result_types@[(n + 2 + 2 * k) as int] == Type::Primitive(PrimitiveType::Unit)
        }
    }
    &&& after.name == before.name
    &&& after.id == before.id
    &&& after.typ == before.typ
    &&& after.generic_count == before.generic_count
}

/// The steps from the handler `handler` of case `case_index` to its abort wrapper `w`: the copy
/// `c` of the handler as a wrapper, `p` with the prologue that loads `(buf, slot, env)` through
/// the wrapper's pointer, `s` with the handler's environment parameter replaced by the loaded
/// one where the handler is a closure, and `w` with the returns turned into `longjmp`s.
pub open spec fn abort_wrapper_steps(
    handler: Definition,
    decision: CaseDecision,
    case_index: u32,
    new_id: DefinitionId,
    c: Definition,
    p: Definition,
    s: Definition,
    w: Definition,
) -> bool {
    let n = decision.shape.op_arg_types@.len();
    let m = c.instructions@.len();
    let env_pointer = Value::Parameter(BlockId(0), n as u32);
    &&& cloned_for_wrapper(handler, new_id, decision.shape, case_index, c)
    &&& prologue_prepended(c, p, wrapper_prologue_code(env_pointer, decision.handler_env_type@, decision.handler_is_closure, m))
    &&& if decision.handler_is_closure {
        value_substituted(
            p,
            s,
            Value::Parameter(BlockId(0), (n + 1) as u32),
            Value::InstructionResult(InstructionId((m + 3) as u32)),
        )
    } else {
        s == p
    }
    &&& returns_rewritten(
        s,
        w,
        Value::InstructionResult(InstructionId((m + 1) as u32)),
        Value::InstructionResult(InstructionId((m + 2) as u32)),
    )
}

/// `w` is the abort wrapper of case `case_index` ([abort_wrapper_steps]).
pub open spec fn is_abort_wrapper(handler: Definition, decision: CaseDecision, case_index: u32, new_id: DefinitionId, w: Definition) -> bool {
    exists|c: Definition, p: Definition, s: Definition| #[trigger] abort_wrapper_steps(handler, decision, case_index, new_id, c, p, s, w)
}

/// What [abort_wrapper] needs of a handler.
pub open spec fn abort_wrappable(handler: Definition, decision: CaseDecision) -> bool {
    &&& handler.blocks@.len() > 0
    &&& handler.instructions@.len() == handler.instruction_result_types@.len()
    &&& handler.instructions@.len() + 5 + 2 * handler.blocks@.len() < u32::MAX
    &&& decision.shape.op_arg_types@.len() + 1 < u32::MAX
}

/// The wrapper of case `case_index` under the id `new_id`: typed `fn op_args.. [Pointer] ->
/// op_return_type`, where the pointer points to a stack-allocated `(buf_ptr, result_slot_ptr,
/// handler_env)`, and each `return v` of the inlined handler body becomes `Store(slot, v);
/// longjmp(buf, 1); unreachable`.
pub fn abort_wrapper(handler: &Definition, decision: &CaseDecision, case_index: u32, new_id: DefinitionId) -> (w: Definition)
    requires
        abort_wrappable(*handler, *decision),
    ensures
        is_abort_wrapper(*handler, *decision, case_index, new_id, w),
{
    let mut def = clone_handler_for_wrapper(handler, new_id, &decision.shape, case_index);
    let ghost c = def;
    let n = decision.shape.op_arg_types.len();
    let env_pointer = Value::Parameter(BlockId(0), n as u32);
    let old_env_param = Value::Parameter(BlockId(0), (n + 1) as u32);
    let (buf_ptr, result_slot, handler_env) = emit_wrapper_prologue(
        &mut def,
        env_pointer,
        &decision.handler_env_type,
        decision.handler_is_closure,
    );
    let ghost p = def;
    if let Some(replacement) = handler_env {
        substitute_value(&mut def, old_env_param, replacement);
    }
    let ghost s = def;
    rewrite_returns_as_longjmp(&mut def, buf_ptr, result_slot);
    proof {
        assert(abort_wrapper_steps(*handler, *decision, case_index, new_id, c, p, s, def));
    }
    def
}

proof fn lemma_cap_closures_bound(
    decisions: Seq<CaseDecision>,
    wrapper_ids: Seq<DefinitionId>,
    wrapper_types: Seq<Type>,
    buf_ptr: Value,
    result_slot_ptr: Value,
    i: int,
    count: int,
    m: nat,
)
    requires
        0 <= i <= count,
    ensures
        cap_closures_code(decisions, wrapper_ids, wrapper_types, buf_ptr, result_slot_ptr, i, count, m).0.len() <= 4 * (count - i),
    decreases count - i,
{
    if i < count {
        let d = decisions[i];
        let (fc, f) = definition_value_code(wrapper_ids[i], wrapper_types[i]@, d.handler_bindings, m + 2);
        lemma_cap_closures_bound(decisions, wrapper_ids, wrapper_types, buf_ptr, result_slot_ptr, i + 1, count, m + 3 + fc.len());
    }
}

/// The code that sets up an abort-only handle is no longer than `4 * cases + fields + 9`
/// instructions, with `fields` the body's original environment fields.
proof fn lemma_setjmp_prologue_bound(
    result_type: crate::mir::types::TypeView,
    decisions: Seq<CaseDecision>,
    wrapper_ids: Seq<DefinitionId>,
    wrapper_types: Seq<Type>,
    body: PreparedBody,
    body_fn_type: crate::mir::types::TypeView,
    cap_tuple_type: crate::mir::types::TypeView,
    n: nat,
)
    ensures
        setjmp_prologue_code(result_type, decisions, wrapper_ids, wrapper_types, body, body_fn_type, cap_tuple_type, n).len()
            <= 4 * decisions.len() + body.layout.original_field_types@.len() + 9,
{
    let count = min3(decisions.len() as int, wrapper_ids.len() as int, wrapper_types.len() as int);
    lemma_cap_closures_bound(decisions, wrapper_ids, wrapper_types, result_of(n), result_of(n + 1), 0, count, n + 2);
}

/// `new_d` is `d` with the abort-only `Handle` at `site` lowered: the setjmp prologue `code`
/// (the `jmp_buf` and result slot, the wrapper closures and capability, the body closure, and the
/// setjmp test) ends the handle's block, which branches on `is_zero` to a new then block that
/// calls the body and stores its result in the slot, or a new else block; both jump to a new
/// merge block that loads the slot under the handle's own id and then runs what followed the
/// handle, ending as the handle's block ended.
pub open spec fn setjmp_replaced(
    d: Definition,
    new_d: Definition,
    site: HandleSite,
    code: Seq<(InstructionView, crate::mir::types::TypeView)>,
    result_slot_ptr: Value,
    body_closure: Value,
    is_zero: Value,
) -> bool {
    let n = d.instructions@.len() as int;
    let len = code.len() as int;
    let nb = d.blocks@.len() as int;
    let b = site.block.0 as int;
    let old_ids = d.blocks@[b].instructions@;
    let merge = BlockId((nb + 2) as u32);
    &&& new_d.instructions@.len() == n + len + 2
    &&& new_d.instruction_result_types@.len() == n + len + 2
    &&& forall|k: int| 0 <= k < n && k != site.id.0 ==> #[trigger] new_d.instructions@[k] == d.instructions@[k]
    &&& forall|k: int| 0 <= k < n && k != site.id.0 ==> #[trigger] new_d.instruction_result_types@[k] == d.instruction_result_types@[k]
    &&& new_d.instructions@[site.id.0 as int] == Instruction::Deref(result_slot_ptr)
    &&& new_d.instruction_result_types@[site.id.0 as int] == site.result_type
    &&& forall|k: int| 0 <= k < len ==> (#[trigger] new_d.instructions@[n + k])@ == code[k].0
    &&& forall|k: int| 0 <= k < len ==> (#[trigger] new_d.instruction_result_types@[n + k])@ == code[k].1
    &&& new_d.instructions@[n + len]@ == InstructionView::CallClosure { closure: body_closure, arguments: seq![Value::Unit] }
    &&& new_d.instruction_result_types@[n + len] == site.result_type
    &&& new_d.instructions@[n + len + 1] == Instruction::Store {
        pointer: result_slot_ptr,
        value: Value::InstructionResult(InstructionId((n + len) as u32)),
    }
    &&& new_d.instruction_result_types@[n + len + 1] == Type::Primitive(PrimitiveType::Unit)
    &&& new_d.blocks@.len() == nb + 3
    &&& new_d.blocks@[b].instructions@ == old_ids.subrange(0, site.index as int) + id_range(n as nat, len as nat)
    &&& new_d.blocks@[b].parameter_types == d.blocks@[b].parameter_types
    &&& new_d.blocks@[b].terminator == Some(
        TerminatorInstruction::If {
            condition: is_zero,
            then: (BlockId(nb as u32), None),
            else_: (BlockId((nb + 1) as u32), None),
            end: merge,
        },
    )
    &&& forall|x: int| 0 <= x < nb && x != b ==> #[trigger] new_d.blocks@[x] == d.blocks@[x]
    &&& new_d.blocks@[nb].parameter_types@.len() == 0
    &&& new_d.blocks@[nb].instructions@ == seq![InstructionId((n + len) as u32), InstructionId((n + len + 1) as u32)]
    &&& new_d.blocks@[nb].terminator == Some(TerminatorInstruction::Jmp((merge, None)))
    &&& new_d.blocks@[nb + 1].parameter_types@.len() == 0
    &&& new_d.blocks@[nb + 1].instructions@.len() == 0
    &&& new_d.blocks@[nb + 1].terminator == Some(TerminatorInstruction::Jmp((merge, None)))
    &&& new_d.blocks@[nb + 2].parameter_types@.len() == 0
    &&& new_d.blocks@[nb + 2].instructions@ == seq![site.id] + old_ids.subrange(site.index + 1, old_ids.len() as int)
    &&& new_d.blocks@[nb + 2].terminator == d.blocks@[b].terminator
    &&& new_d.name == d.name
    &&& new_d.id == d.id
    &&& new_d.typ == d.typ
    &&& new_d.generic_count == d.generic_count
}

/// Lower the abort-only `Handle` at `site` ([setjmp_replaced]).
#[verifier::rlimit(50)]
pub fn setjmp_replace_handle(
    definition: &mut Definition,
    site: &HandleSite,
    wrapper_ids: &Vec<DefinitionId>,
    wrapper_types: Vec<Type>,
    decisions: Vec<CaseDecision>,
    body: PreparedBody,
    body_fn_type: Type,
    cap_tuple_type: &Type,
)
    requires
        site.block.0 < old(definition).blocks@.len(),
        site.index < old(definition).blocks@[site.block.0 as int].instructions@.len(),
        site.id.0 < old(definition).instructions@.len(),
        old(definition).instructions@.len() == old(definition).instruction_result_types@.len(),
        old(definition).instructions@.len() + 4 * decisions@.len() + body.layout.original_field_types@.len() + 12 < u32::MAX,
        old(definition).blocks@.len() + 3 <= u32::MAX,
        body_fn_type is Function,
        body.layout.was_closure ==> body.env_value is Some,
    ensures
        ({
            let n = old(definition).instructions@.len();
            let code = setjmp_prologue_code(
                site.result_type@,
                decisions@,
                wrapper_ids@,
                wrapper_types@,
                body,
                body_fn_type@,
                cap_tuple_type@,
                n,
            );
            let cap = cap_tuple_code(decisions@, wrapper_ids@, wrapper_types@, result_of(n), result_of(n + 1), cap_tuple_type@, n + 2);
            let cap_value = result_of((n + 2 + cap.len() - 1) as nat);
            let closure = body_closure_code(body, body_fn_type@, cap_value, n + 2 + cap.len()).1;
            setjmp_replaced(
                *old(definition),
                *final(definition),
                *site,
                code,
                result_of(n + 1),
                closure,
                result_of((n + code.len() - 1) as nat),
            )
        }),
{
    let ghost d0 = *definition;
    let ghost n = definition.instructions@.len();
    let ghost nb = definition.blocks@.len();
    let ghost code = setjmp_prologue_code(
        site.result_type@,
        decisions@,
        wrapper_ids@,
        wrapper_types@,
        body,
        body_fn_type@,
        cap_tuple_type@,
        n,
    );
    proof {
        lemma_setjmp_prologue_bound(site.result_type@, decisions@, wrapper_ids@, wrapper_types@, body, body_fn_type@, cap_tuple_type@, n);
    }
    let mut prologue: Vec<InstructionId> = Vec::new();
    let SetjmpPrologue { result_slot_ptr, body_closure, is_zero } = build_setjmp_prologue(
        definition,
        &mut prologue,
        &site.result_type,
        decisions,
        wrapper_ids,
        wrapper_types,
        body,
        body_fn_type,
        cap_tuple_type,
    );
    let ghost d1 = *definition;
    proof {
        assert(prologue@ =~= id_range(n, code.len()));
    }
    let split = split_block_at_handle(definition, site, prologue);
    let ghost d2 = *definition;
    let (then_block, else_block, merge_block) = create_branch_blocks(definition);
    let ghost d3 = *definition;
    set_terminator(
        definition,
        split.original_block,
        Some(TerminatorInstruction::If { condition: is_zero, then: (then_block, None), else_: (else_block, None), end: merge_block }),
    );
    let ghost d4 = *definition;
    fill_then_block(definition, then_block, body_closure, result_slot_ptr, &site.result_type, merge_block);
    let ghost d5 = *definition;
    set_terminator(definition, else_block, Some(TerminatorInstruction::jmp_no_args(merge_block)));
    let ghost d6 = *definition;
    finalize_merge_block(definition, merge_block, site.id, result_slot_ptr, site.result_type.clone(), split);
    proof {
        let len = code.len();
        assert(d3.blocks@[site.block.0 as int] == d2.blocks@[site.block.0 as int]);
        assert forall|k: int| 0 <= k < n && k != site.id.0 implies #[trigger] definition.instructions@[k] == d0.instructions@[k] by {
            assert(d1.instructions@.subrange(0, n as int)[k] == d0.instructions@[k]);
            assert(d5.instructions@.subrange(0, (n + len) as int)[k] == d4.instructions@[k]);
        }
        assert forall|k: int| 0 <= k < n && k != site.id.0 implies #[trigger] definition.instruction_result_types@[k] == d0.instruction_result_types@[k] by {
            assert(d1.instruction_result_types@.subrange(0, n as int)[k] == d0.instruction_result_types@[k]);
        }
        assert forall|k: int| 0 <= k < len implies (#[trigger] definition.instructions@[n + k])@ == code[k].0 by {
            assert(d1.instructions@[n + k]@ == code[k].0);
            assert(d5.instructions@.subrange(0, (n + len) as int)[n + k] == d4.instructions@[n + k]);
        }
        assert forall|k: int| 0 <= k < len implies (#[trigger] definition.instruction_result_types@[n + k])@ == code[k].1 by {
            assert(d1.instruction_result_types@[n + k]@ == code[k].1);
        }
        assert forall|x: int| 0 <= x < nb && x != site.block.0 implies #[trigger] definition.blocks@[x] == d0.blocks@[x] by {
            assert(d3.blocks@.subrange(0, nb as int)[x] == d2.blocks@[x]);
        }
        assert(d5.instructions@[(n + len) as int]@ == InstructionView::CallClosure { closure: body_closure, arguments: seq![Value::Unit] }) by {
            assert(d5.instructions@[(n + len) as int + 0]@ == crate::mir::effects::abort::then_block_code(body_closure, result_slot_ptr, site.result_type@, (n + len) as nat)[0].0);
        }
        assert(d5.instructions@[(n + len) as int + 1]@ == crate::mir::effects::abort::then_block_code(body_closure, result_slot_ptr, site.result_type@, (n + len) as nat)[1].0);
        let b = site.block.0 as int;
        let old_ids = d0.blocks@[b].instructions@;
        assert(definition.instructions@.len() == n + len + 2);
        assert(definition.instruction_result_types@.len() == n + len + 2);
        assert(definition.instructions@[site.id.0 as int] == Instruction::Deref(result_slot_ptr));
        assert(definition.instruction_result_types@[site.id.0 as int] == site.result_type);
        assert(definition.instructions@[(n + len) as int]@ == InstructionView::CallClosure { closure: body_closure, arguments: seq![Value::Unit] });
        assert(definition.instruction_result_types@[(n + len) as int] == site.result_type);
        assert(definition.instructions@[(n + len + 1) as int] == Instruction::Store {
            pointer: result_slot_ptr,
            value: Value::InstructionResult(InstructionId((n + len) as u32)),
        });
        assert(definition.instruction_result_types@[(n + len + 1) as int] == Type::Primitive(PrimitiveType::Unit));
        assert(definition.blocks@.len() == nb + 3);
        assert(definition.blocks@[b].instructions@ == old_ids.subrange(0, site.index as int) + id_range(n, len));
        assert(definition.blocks@[b].parameter_types == d0.blocks@[b].parameter_types);
        assert(definition.blocks@[nb as int].instructions@ == seq![InstructionId((n + len) as u32), InstructionId((n + len + 1) as u32)]);
        assert(definition.blocks@[(nb + 2) as int].instructions@ == seq![site.id] + old_ids.subrange(site.index + 1, old_ids.len() as int));
        assert(definition.blocks@[(nb + 2) as int].terminator == d0.blocks@[b].terminator);
    }
}

/// The handler case `case` of a `Handle` in `d` can be lowered to `setjmp`/`longjmp`: its handler
/// has a handler's type and resolves to a function definition of the program that never uses
/// `resume` and that [abort_wrapper] can wrap, and the environment it was packed with, if any,
/// has a type.
pub open spec fn abort_case_ok(mir: Mir, d: Definition, case: HandlerCase) -> bool {
    let (function, env) = spec_unpack(case.handler, d.instructions@);
    &&& unpack_in_bounds(case.handler, d.instructions@)
    &&& value_in_bounds(d, case.handler)
    &&& spec_type_of_value(d, case.handler, mir.externals@, mir.definitions@) matches Some(t)
    &&& is_handler_view(t)
    &&& ids_resolve(function, d.instructions@)
    &&& spec_resolve_id(function, d.instructions@) matches Some((id, _))
    &&& mir.definitions@.contains_key(id)
    &&& mir.definitions@[id].typ is Function
    &&& mir.definitions@[id].blocks@.len() > 0
    &&& mir.definitions@[id].instructions@.len() == mir.definitions@[id].instruction_result_types@.len()
    &&& mir.definitions@[id].instructions@.len() + 5 + 2 * mir.definitions@[id].blocks@.len() < u32::MAX
    &&& handler_arity(t) + 1 < u32::MAX
    &&& !uses_value(mir.definitions@[id], resume_parameter(handler_arity(t)))
    &&& env matches Some(e) ==> value_in_bounds(d, e) && spec_type_of_value(d, e, mir.externals@, mir.definitions@) is Some
}

/// `dec` is what [analyze_handle] records of the abort-only case `case`: the definition its
/// handler resolves to with its environment and bindings, the shape of its type, and its
/// environment's type (unit where it has none).
pub open spec fn abort_case_decided(mir: Mir, d: Definition, case: HandlerCase, dec: CaseDecision) -> bool {
    let (function, env) = spec_unpack(case.handler, d.instructions@);
    let t = spec_type_of_value(d, case.handler, mir.externals@, mir.definitions@)->0;
    &&& abort_case_ok(mir, d, case)
    &&& spec_resolve_id(function, d.instructions@) == Some((dec.handler_def_id, dec.handler_bindings))
    &&& dec.handler_env == env
    &&& exists|ty: Type| ty@ == t && is_handler_type(ty) && #[trigger] shape_of(ty, dec.shape)
    &&& dec.handler_is_closure == env is Some
    &&& dec.handler_env_type@ == match env {
        Some(e) => spec_type_of_value(d, e, mir.externals@, mir.definitions@)->0,
        None => crate::mir::types::TypeView::Primitive(PrimitiveType::Unit),
    }
}

/// Decide whether the `Handle` at `site` of definition `definition_id` can be lowered: every
/// case must be [abort_case_ok]. Returns what is known of each case, or `None` to leave the
/// handle alone.
pub fn analyze_handle(mir: &Mir, definition_id: DefinitionId, site: &HandleSite) -> (r: Option<Vec<CaseDecision>>)
    ensures
        r is Some <==> mir.definitions@.contains_key(definition_id) && forall|k: int|
            0 <= k < site.cases@.len() ==> abort_case_ok(*mir, mir.definitions@[definition_id], #[trigger] site.cases@[k]),
        r matches Some(ds) ==> ds@.len() == site.cases@.len() && forall|k: int|
            0 <= k < ds@.len() ==> abort_case_decided(*mir, mir.definitions@[definition_id], site.cases@[k], #[trigger] ds@[k]),
{
    let definition = match fx_map_get(&mir.definitions, definition_id) {
        Some(d) => d,
        None => return None,
    };
    let ghost d = *definition;
    let mut decisions: Vec<CaseDecision> = Vec::new();
    let mut k: usize = 0;
    while k < site.cases.len()
        invariant
            0 <= k <= site.cases@.len(),
            mir.definitions@.contains_key(definition_id),
            d == mir.definitions@[definition_id],
            *definition == d,
            decisions@.len() == k,
            forall|j: int| 0 <= j < k ==> abort_case_ok(*mir, d, #[trigger] site.cases@[j]),
            forall|j: int| 0 <= j < k ==> abort_case_decided(*mir, d, site.cases@[j], #[trigger] decisions@[j]),
        decreases site.cases@.len() - k,
    {
        let case = site.cases[k];
        let handler = case.handler;
        let in_bounds = match handler {
            Value::InstructionResult(iid) => (iid.0 as usize) < definition.instructions.len() && (iid.0 as usize)
                < definition.instruction_result_types.len(),
            _ => true,
        };
        if !in_bounds {
            return None;
        }
        let handler_type = match definition.try_type_of_value(&handler, &mir.externals, &mir.definitions) {
            Some(t) => t,
            None => return None,
        };
        proof {
            lemma_handler_type_view(handler_type);
        }
        let shape = match case_shape_from_handler_type(&handler_type) {
            Some(shape) => shape,
            None => return None,
        };
        proof {
            assert(shape.op_arg_types@.len() == handler_arity(handler_type@));
        }
        let mut function = handler;
        if let Value::InstructionResult(instruction) = handler {
            if let Instruction::PackClosure { function: f, environment: _ } = &definition.instructions[instruction.0 as usize] {
                function = *f;
            }
        }
        if !ids_resolve_check(function, definition) {
            return None;
        }
        let (handler_def_id, handler_env, handler_bindings) = match resolve_handler(handler, definition) {
            Some(resolved) => resolved,
            None => return None,
        };
        let handler_def = match fx_map_get(&mir.definitions, handler_def_id) {
            Some(h) => h,
            None => return None,
        };
        if shape.op_arg_types.len() >= 0xffff_fffe {
            return None;
        }
        if !case_is_abort_only(handler_def, &shape) {
            return None;
        }
        let is_function = match &handler_def.typ {
            Type::Function(_) => true,
            _ => false,
        };
        if !is_function || handler_def.blocks.len() == 0 || handler_def.instructions.len() != handler_def.instruction_result_types.len()
            || handler_def.blocks.len() >= 0x8000_0000 || handler_def.instructions.len() >= 0xffff_ffff || (handler_def.instructions.len()
            as u64) + 5 + 2 * (handler_def.blocks.len() as u64) >= 0xffff_ffff {
            return None;
        }
        let handler_env_type = match handler_env {
            Some(env_value) => {
                let env_in_bounds = match env_value {
                    Value::InstructionResult(iid) => (iid.0 as usize) < definition.instruction_result_types.len(),
                    _ => true,
                };
                if !env_in_bounds {
                    return None;
                }
                match definition.try_type_of_value(&env_value, &mir.externals, &mir.definitions) {
                    Some(t) => t,
                    None => return None,
                }
            },
            None => Type::unit(),
        };
        let handler_is_closure = handler_env.is_some();
        proof {
            assert(shape.op_arg_types@.len() == handler_arity(handler_type@));
        }
        decisions.push(CaseDecision { handler_def_id, handler_env, handler_bindings, handler_env_type, handler_is_closure, shape });
        k = k + 1;
    }
    Some(decisions)
}

/// What an abort-only case tells of its handler: it is a definition of the program that
/// [abort_wrapper] can wrap with the case's decision.
proof fn lemma_abort_decided(mir: Mir, d: Definition, case: HandlerCase, dec: CaseDecision)
    requires
        abort_case_decided(mir, d, case, dec),
    ensures
        mir.definitions@.contains_key(dec.handler_def_id),
        abort_wrappable(mir.definitions@[dec.handler_def_id], dec),
{
    let t = spec_type_of_value(d, case.handler, mir.externals@, mir.definitions@)->0;
    let ty = choose|ty: Type| ty@ == t && is_handler_type(ty) && #[trigger] shape_of(ty, dec.shape);
    lemma_handler_type_view(ty);
}

/// `after` is `before` with the abort wrapper of each case `k` of `cases` added under the id
/// `base + k`, made from the case's handler in `before`.
pub open spec fn abort_wrappers_added(
    before: Map<DefinitionId, Definition>,
    after: Map<DefinitionId, Definition>,
    cases: Seq<CaseDecision>,
    base: DefinitionId,
) -> bool {
    &&& forall|k: int| 0 <= k < cases.len() ==> #[trigger] after.contains_key(nth_id(base, k))
    &&& forall|k: int|
        0 <= k < cases.len() ==> #[trigger] is_abort_wrapper(
            before[cases[k].handler_def_id],
            cases[k],
            k as u32,
            nth_id(base, k),
            after[nth_id(base, k)],
        )
    &&& forall|id: DefinitionId| #[trigger] before.contains_key(id) ==> after.contains_key(id) && after[id] == before[id]
    &&& forall|id: DefinitionId|
        #[trigger] after.contains_key(id) ==> before.contains_key(id) || (base.0 <= id.0 < base.0 + cases.len())
}

/// Adds the abort wrapper of each case under the ids `base`, `base + 1`, ..., and gives their
/// types.
fn insert_abort_wrappers(mir: &mut Mir, cases: &Vec<CaseDecision>, base: DefinitionId) -> (r: Vec<Type>)
    requires
        forall|k: int|
            0 <= k < cases@.len() ==> old(mir).definitions@.contains_key((#[trigger] cases@[k]).handler_def_id)
                && abort_wrappable(old(mir).definitions@[cases@[k].handler_def_id], cases@[k]),
        forall|id: DefinitionId| old(mir).definitions@.contains_key(id) ==> id.0 < base.0,
        base.0 + cases@.len() <= u32::MAX,
    ensures
        abort_wrappers_added(old(mir).definitions@, final(mir).definitions@, cases@, base),
        r@.len() == cases@.len(),
        forall|k: int| 0 <= k < cases@.len() ==> #[trigger] r@[k] == final(mir).definitions@[nth_id(base, k)].typ,
        final(mir).externals@ == old(mir).externals@,
        final(mir).preserved_op_indices@ == old(mir).preserved_op_indices@,
{
    let mut types: Vec<Type> = Vec::new();
    let mut k: usize = 0;
    while k < cases.len()
        invariant
            0 <= k <= cases@.len(),
            base.0 + cases@.len() <= u32::MAX,
            forall|j: int|
                0 <= j < cases@.len() ==> old(mir).definitions@.contains_key((#[trigger] cases@[j]).handler_def_id)
                    && abort_wrappable(old(mir).definitions@[cases@[j].handler_def_id], cases@[j]),
            forall|id: DefinitionId| old(mir).definitions@.contains_key(id) ==> id.0 < base.0,
            types@.len() == k,
            forall|j: int| 0 <= j < k ==> #[trigger] mir.definitions@.contains_key(nth_id(base, j)),
            forall|j: int|
                0 <= j < k ==> #[trigger] is_abort_wrapper(
                    old(mir).definitions@[cases@[j].handler_def_id],
                    cases@[j],
                    j as u32,
                    nth_id(base, j),
                    mir.definitions@[nth_id(base, j)],
                ),
            forall|j: int| 0 <= j < k ==> #[trigger] types@[j] == mir.definitions@[nth_id(base, j)].typ,
            forall|id: DefinitionId|
                #[trigger] old(mir).definitions@.contains_key(id) ==> mir.definitions@.contains_key(id) && mir.definitions@[id]
                    == old(mir).definitions@[id],
            forall|id: DefinitionId|
                #[trigger] mir.definitions@.contains_key(id) ==> old(mir).definitions@.contains_key(id) || (base.0 <= id.0 < base.0 + k),
            mir.externals@ == old(mir).externals@,
            mir.preserved_op_indices@ == old(mir).preserved_op_indices@,
        decreases cases@.len() - k,
    {
        let case = &cases[k];
        let new_id = DefinitionId(base.0 + k as u32);
        proof {
            assert(old(mir).definitions@.contains_key(cases@[k as int].handler_def_id));
        }
        let handler = fx_map_get(&mir.definitions, case.handler_def_id).unwrap();
        let wrapper = abort_wrapper(handler, case, k as u32, new_id);
        types.push(wrapper.typ.clone());
        let ghost before = mir.definitions@;
        fx_map_insert(&mut mir.definitions, new_id, wrapper);
        proof {
            assert(new_id == nth_id(base, k as int));
            assert forall|j: int| 0 <= j < k + 1 implies #[trigger] is_abort_wrapper(
                old(mir).definitions@[cases@[j].handler_def_id],
                cases@[j],
                j as u32,
                nth_id(base, j),
                mir.definitions@[nth_id(base, j)],
            ) by {
                if j < k {
                    assert(nth_id(base, j) != new_id);
                    assert(is_abort_wrapper(
                        old(mir).definitions@[cases@[j].handler_def_id],
                        cases@[j],
                        j as u32,
                        nth_id(base, j),
                        before[nth_id(base, j)],
                    ));
                } else {
                    assert(j == k);
                }
            }
            assert forall|j: int| 0 <= j < k implies #[trigger] types@[j] == mir.definitions@[nth_id(base, j)].typ by {
                assert(nth_id(base, j) != new_id);
            }
        }
        k = k + 1;
    }
    types
}

/// The abort-only handle site still stands where it was found in `d`, and `d` has room for the
/// code that replaces it, given a body of definition `b` and `m` cases.
pub open spec fn abort_site_fits(d: Definition, site: HandleSite, b: Definition, m: nat) -> bool {
    &&& site.block.0 < d.blocks@.len()
    &&& site.index < d.blocks@[site.block.0 as int].instructions@.len()
    &&& site.id.0 < d.instructions@.len()
    &&& d.instructions@.len() == d.instruction_result_types@.len()
    &&& d.instructions@.len() + 4 * m + env_field_count(b) + 12 < u32::MAX
    &&& d.blocks@.len() + 3 <= u32::MAX
    &&& m <= u32::MAX
}

/// The `Handle` at `site` of definition `definition_id` gets lowered: every case is abort-only
/// ([abort_case_ok]), its body resolves to a definition that passes [body_checks] and, where it
/// is a closure, is packed with an environment, the site [abort_site_fits], and the ids are
/// available.
pub open spec fn abort_rewrite_possible(mir: Mir, definition_id: DefinitionId, site: HandleSite) -> bool {
    let d = mir.definitions@[definition_id];
    &&& mir.definitions@.contains_key(definition_id)
    &&& forall|k: int| 0 <= k < site.cases@.len() ==> abort_case_ok(mir, d, #[trigger] site.cases@[k])
    &&& body_resolution(d, site.body) matches Some((body_id, env, _))
    &&& mir.definitions@.contains_key(body_id)
    &&& body_checks(mir.definitions@[body_id])
    &&& (spec_is_closure(mir.definitions@[body_id].typ->Function_0@) ==> env is Some)
    &&& abort_site_fits(d, site, mir.definitions@[body_id], site.cases@.len())
    &&& ids_available(mir, site.cases@.len())
}

/// What [plan_abort_rewrite] finds.
pub open spec fn abort_plan_facts(
    mir: Mir,
    definition_id: DefinitionId,
    site: HandleSite,
    cases: Seq<CaseDecision>,
    body_id: DefinitionId,
    body_env: Option<Value>,
    body_bindings: Option<Arc<GenericBindings>>,
    base: DefinitionId,
) -> bool {
    let d = mir.definitions@[definition_id];
    &&& abort_rewrite_possible(mir, definition_id, site)
    &&& cases.len() == site.cases@.len()
    &&& forall|k: int| 0 <= k < cases.len() ==> abort_case_decided(mir, d, site.cases@[k], #[trigger] cases[k])
    &&& body_resolution(d, site.body) == Some((body_id, body_env, body_bindings))
    &&& fresh_base(mir, base, cases.len())
}

/// Find out whether the `Handle` at `site` gets lowered ([abort_rewrite_possible]), and if so what
/// the rewrite needs ([abort_plan_facts]).
pub fn plan_abort_rewrite(mir: &Mir, definition_id: DefinitionId, site: &HandleSite) -> (r: Option<
    (Vec<CaseDecision>, DefinitionId, Option<Value>, Option<Arc<GenericBindings>>, DefinitionId),
>)
    ensures
        r is Some <==> abort_rewrite_possible(*mir, definition_id, *site),
        r matches Some(p) ==> abort_plan_facts(*mir, definition_id, *site, p.0@, p.1, p.2, p.3, p.4),
{
    let cases = match analyze_handle(mir, definition_id, site) {
        Some(cases) => cases,
        None => return None,
    };
    let definition = fx_map_get(&mir.definitions, definition_id).unwrap();
    let body_in_bounds = match site.body {
        Value::InstructionResult(iid) => (iid.0 as usize) < definition.instructions.len(),
        _ => true,
    };
    if !body_in_bounds {
        return None;
    }
    let mut function = site.body;
    if let Value::InstructionResult(instruction) = site.body {
        if let Instruction::PackClosure { function: f, environment: _ } = &definition.instructions[instruction.0 as usize] {
            function = *f;
        }
    }
    if !ids_resolve_check(function, definition) {
        return None;
    }
    if resolve_id(function, definition).is_none() {
        return None;
    }
    let (body_id, body_env, body_bindings) = resolve_body_function(site.body, definition);
    let body_def = match fx_map_get(&mir.definitions, body_id) {
        Some(b) => b,
        None => return None,
    };
    let field_count: usize = match &body_def.typ {
        Type::Function(ft) => match &ft.environment {
            Type::Tuple(fields) => fields.len(),
            _ => 0,
        },
        _ => return None,
    };
    let is_closure_body = match &body_def.typ {
        Type::Function(ft) => ft.is_closure(),
        _ => false,
    };
    let body_ok = body_def.blocks.len() > 0 && body_def.instructions.len() == body_def.instruction_result_types.len()
        && body_def.blocks[0].parameter_types.len() < 0xffff_ffff && field_count < 0xffff_ffff && (!is_closure_body
        || body_def.blocks[0].parameter_types.len() > 0) && (!is_closure_body || body_env.is_some());
    if !body_ok {
        return None;
    }
    let n = definition.instructions.len();
    let m = cases.len();
    let site_ok = (site.block.0 as usize) < definition.blocks.len() && site.index
        < definition.blocks[site.block.0 as usize].instructions.len() && (site.id.0 as usize) < n && n
        == definition.instruction_result_types.len();
    if !site_ok {
        return None;
    }
    if m > 0xffff_ffff || n >= 0xffff_ffff || definition.blocks.len() > 0xffff_fffc {
        return None;
    }
    if (n as u64) + 4 * (m as u64) + (field_count as u64) + 12 >= 0xffff_ffff {
        return None;
    }
    let keys = fx_map_keys(&mir.definitions);
    if keys.len() > 0xffff_ffff {
        proof {
            broadcast use vstd::seq_lib::seq_to_set_is_finite;
            keys@.unique_seq_to_set();
            assert forall|b: DefinitionId| !fresh_base(*mir, b, m as nat) by {}
        }
        return None;
    }
    proof {
        broadcast use vstd::seq_lib::seq_to_set_is_finite;
        keys@.unique_seq_to_set();
    }
    let base = match mir.next_free_id() {
        Some(base) => base,
        None => {
            proof {
                assert forall|b: DefinitionId| !fresh_base(*mir, b, m as nat) by {
                    if fresh_base(*mir, b, m as nat) {
                        assert(mentions(*mir, DefinitionId(u32::MAX)));
                    }
                }
            }
            return None;
        },
    };
    if (base.0 as u64) + 2 * (m as u64) + (keys.len() as u64) > 0xffff_ffff {
        proof {
            assert forall|b: DefinitionId| !fresh_base(*mir, b, m as nat) by {
                if fresh_base(*mir, b, m as nat) {
                    assert(b.0 == base.0) by {
                        if b.0 < base.0 {
                            assert(mentions(*mir, DefinitionId((base.0 - 1) as u32)));
                        } else if b.0 > base.0 {
                            assert(mentions(*mir, DefinitionId((b.0 - 1) as u32)));
                        }
                    }
                }
            }
        }
        return None;
    }
    proof {
        assert(fresh_base(*mir, base, m as nat));
    }
    Some((cases, body_id, body_env, body_bindings, base))
}

/// The steps of [abort_rewrite] with their intermediate states, as in the tail-resume rewrite:
/// `defs1` after the wrappers are added, `mid`, `pairs` and `extended` after the body is cloned
/// and its clone's environment extended (with `layout` the original environment's),
/// `neutralized` the original body and `rewritten` the clone afterwards, `wrapper_types` the
/// wrappers' types and `cap_tuple_type` the capability's.
pub open spec fn abort_rewrite_steps(
    old: Mir,
    new: Mir,
    definition_id: DefinitionId,
    site: HandleSite,
    cases: Seq<CaseDecision>,
    body_id: DefinitionId,
    body_env: Option<Value>,
    body_bindings: Option<Arc<GenericBindings>>,
    base: DefinitionId,
    created: Seq<DefinitionId>,
    defs1: Map<DefinitionId, Definition>,
    mid: Map<DefinitionId, Definition>,
    pairs: Seq<(DefinitionId, DefinitionId)>,
    extended: Definition,
    layout: OriginalEnvLayout,
    wrapper_types: Seq<Type>,
    cap_tuple_type: Type,
    neutralized: Definition,
    rewritten: Definition,
) -> bool {
    let m = cases.len();
    let clone_id = nth_id(base, m as int);
    let defs2 = mid.insert(clone_id, extended);
    let defs3 = defs2.insert(body_id, neutralized);
    let defs4 = defs3.insert(clone_id, rewritten);
    let wrapper_ids = Seq::new(m, |k: int| nth_id(base, k as int));
    let body = PreparedBody { fn_id: clone_id, env_value: body_env, bindings: body_bindings, layout };
    let d = defs4[definition_id];
    let n = d.instructions@.len();
    let code = setjmp_prologue_code(site.result_type@, cases, wrapper_ids, wrapper_types, body, rewritten.typ@, cap_tuple_type@, n);
    let cap = cap_tuple_code(cases, wrapper_ids, wrapper_types, result_of(n), result_of(n + 1), cap_tuple_type@, n + 2);
    let cap_value = result_of((n + 2 + cap.len() - 1) as nat);
    let closure = body_closure_code(body, rewritten.typ@, cap_value, n + 2 + cap.len()).1;
    &&& abort_wrappers_added(old.definitions@, defs1, cases, base)
    &&& wrapper_types.len() == m
    &&& forall|k: int| 0 <= k < m ==> #[trigger] wrapper_types[k] == defs1[wrapper_ids[k]].typ
    &&& cap_tuple_type@ == cap_tuple_view(wrapper_types)
    &&& subtree_cloned(defs1, mid, body_id, clone_id, pairs)
    &&& env_extended(mid[clone_id], extended, cap_tuple_type, layout)
    &&& created == pairs.map_values(|p: (DefinitionId, DefinitionId)| p.1)
    &&& caps_neutralized(defs2[body_id], neutralized)
    &&& caps_rewritten(defs3[clone_id], rewritten, layout, cap_tuple_type)
    &&& defs4.contains_key(definition_id)
    &&& setjmp_replaced(d, new.definitions@[definition_id], site, code, result_of(n + 1), closure, result_of((n + code.len() - 1) as nat))
    &&& new.definitions@ == defs4.insert(definition_id, new.definitions@[definition_id])
}

/// `new` is `old` after the abort-only `Handle` at `site` of definition `definition_id` is
/// lowered: each case's effect operation keeps its position for effect lowering; the abort
/// wrappers are added; the body is cloned with the definitions it owns and its clone's
/// environment extended by the capability tuple; the original body's capabilities are
/// neutralized; the clone's capabilities are read from its environment; and the handle is
/// replaced by the setjmp branch ([abort_rewrite_steps]).
pub open spec fn abort_rewrite(
    old: Mir,
    new: Mir,
    definition_id: DefinitionId,
    site: HandleSite,
    cases: Seq<CaseDecision>,
    body_id: DefinitionId,
    body_env: Option<Value>,
    body_bindings: Option<Arc<GenericBindings>>,
    base: DefinitionId,
    created: Seq<DefinitionId>,
) -> bool {
    &&& new.preserved_op_indices@ == with_op_indices(old.preserved_op_indices@, site.cases@)
    &&& new.externals@ == old.externals@
    &&& exists|
        defs1: Map<DefinitionId, Definition>,
        mid: Map<DefinitionId, Definition>,
        pairs: Seq<(DefinitionId, DefinitionId)>,
        extended: Definition,
        layout: OriginalEnvLayout,
        wrapper_types: Seq<Type>,
        cap_tuple_type: Type,
        neutralized: Definition,
        rewritten: Definition,
    |
        #[trigger] abort_rewrite_steps(
            old,
            new,
            definition_id,
            site,
            cases,
            body_id,
            body_env,
            body_bindings,
            base,
            created,
            defs1,
            mid,
            pairs,
            extended,
            layout,
            wrapper_types,
            cap_tuple_type,
            neutralized,
            rewritten,
        )
}

/// Carry out the rewrite that [plan_abort_rewrite] planned ([abort_rewrite]).
#[verifier::rlimit(100)]
fn apply_abort_rewrite(
    mir: &mut Mir,
    definition_id: DefinitionId,
    site: HandleSite,
    cases: Vec<CaseDecision>,
    body_id: DefinitionId,
    body_env: Option<Value>,
    body_bindings: Option<Arc<GenericBindings>>,
    base: DefinitionId,
    dead_bodies: &mut FxHashSet<DefinitionId>,
) -> (r: Vec<DefinitionId>)
    requires
        abort_plan_facts(*old(mir), definition_id, site, cases@, body_id, body_env, body_bindings, base),
    ensures
        r@.len() > 0,
        abort_rewrite(*old(mir), *final(mir), definition_id, site, cases@, body_id, body_env, body_bindings, base, r@),
        final(dead_bodies)@ == old(dead_bodies)@.insert(body_id),
{
    let ghost old_mir = *mir;
    let ghost d0 = old_mir.definitions@[definition_id];
    let m = cases.len();
    proof {
        assert forall|k: int| 0 <= k < cases@.len() implies old_mir.definitions@.contains_key((#[trigger] cases@[k]).handler_def_id)
            && abort_wrappable(old_mir.definitions@[cases@[k].handler_def_id], cases@[k]) by {
            lemma_abort_decided(old_mir, d0, site.cases@[k], cases@[k]);
        }
        assert forall|id: DefinitionId| old_mir.definitions@.contains_key(id) implies id.0 < base.0 by {
            assert(mentions(old_mir, id));
        }
    }
    preserve_op_indices(&mut mir.preserved_op_indices, &site.cases);
    let wrapper_types = insert_abort_wrappers(mir, &cases, base);
    let ghost defs1 = mir.definitions@;
    let clone_base = DefinitionId(base.0 + m as u32);
    proof {
        lemma_dom_growth(old_mir.definitions@, defs1, base, m as nat);
        assert forall|k: DefinitionId| defs1.contains_key(k) implies k.0 < clone_base.0 by {
            if old_mir.definitions@.contains_key(k) {
                assert(mentions(old_mir, k));
            }
        }
    }
    let cap_tuple_type = Type::tuple(clone_types(&wrapper_types));
    let (clone_id, layout, created) = clone_body_with_extended_env(mir, body_id, &cap_tuple_type, clone_base);
    let ghost defs2 = mir.definitions@;
    let ghost (mid, pairs) = choose|mid: Map<DefinitionId, Definition>, pairs: Seq<(DefinitionId, DefinitionId)>|
        {
            &&& subtree_cloned(defs1, mid, body_id, clone_base, pairs)
            &&& defs2 == mid.insert(clone_base, defs2[clone_base])
            &&& env_extended(mid[clone_base], defs2[clone_base], cap_tuple_type, layout)
            &&& created@ == pairs.map_values(|p: (DefinitionId, DefinitionId)| p.1)
        };
    let ghost extended = defs2[clone_base];
    let mut original = take_definition(mir, body_id);
    neutralize_handler_caps_in_dead_body(&mut original);
    let ghost neutralized = original;
    fx_map_insert(&mut mir.definitions, body_id, original);
    let ghost defs3 = mir.definitions@;
    assert(defs3 == defs2.insert(body_id, neutralized));
    let mut clone = take_definition(mir, clone_id);
    proof {
        assert(pairs[0].0 == body_id);
        assert(pairs[0].1 == clone_base);
        assert(block_copied(defs1[body_id].blocks@[0], mid[clone_base].blocks@[0], pairs));
    }
    rewrite_handler_caps_in_body(&mut clone, &layout, &cap_tuple_type);
    let ghost rewritten = clone;
    let body_fn_type = clone.typ.clone();
    fx_map_insert(&mut mir.definitions, clone_id, clone);
    let ghost defs4 = mir.definitions@;
    assert(defs4 == defs3.insert(clone_id, rewritten));
    fx_id_set_insert(dead_bodies, body_id);
    let mut outer = take_definition(mir, definition_id);
    let mut wrapper_ids: Vec<DefinitionId> = Vec::new();
    let mut k: usize = 0;
    while k < m
        invariant
            0 <= k <= m,
            m == cases@.len(),
            base.0 + m <= u32::MAX,
            wrapper_ids@ == Seq::new(k as nat, |j: int| nth_id(base, j)),
        decreases m - k,
    {
        wrapper_ids.push(DefinitionId(base.0 + k as u32));
        k = k + 1;
        proof {
            assert(wrapper_ids@ =~= Seq::new(k as nat, |j: int| nth_id(base, j)));
        }
    }
    let body = PreparedBody { fn_id: clone_id, env_value: body_env, bindings: body_bindings, layout };
    let ghost spec_body = body;
    let ghost spec_cases = cases@;
    let ghost spec_types = wrapper_types@;
    setjmp_replace_handle(&mut outer, &site, &wrapper_ids, wrapper_types, cases, body, body_fn_type, &cap_tuple_type);
    fx_map_insert(&mut mir.definitions, definition_id, outer);
    proof {
        assert(mir.definitions@ == defs4.insert(definition_id, mir.definitions@[definition_id]));
        assert(pairs.len() > 0);
        assert(clone_id == nth_id(base, m as int));
        assert(wrapper_ids@ == Seq::new(spec_cases.len(), |k: int| nth_id(base, k as int)));
        assert(body_fn_type@ == rewritten.typ@);
        assert(spec_body == PreparedBody { fn_id: nth_id(base, m as int), env_value: body_env, bindings: body_bindings, layout: spec_body.layout });
        assert(abort_rewrite_steps(
            old_mir,
            *mir,
            definition_id,
            site,
            spec_cases,
            body_id,
            body_env,
            body_bindings,
            base,
            created@,
            defs1,
            mid,
            pairs,
            extended,
            spec_body.layout,
            spec_types,
            cap_tuple_type,
            neutralized,
            rewritten,
        ));
    }
    created
}

/// One step of the abort optimization at the `Handle` at `site` of definition
/// `definition_id`: where [abort_rewrite_possible], the handle is lowered ([abort_rewrite]) with
/// what [abort_plan_facts] finds, the ids of the body clones are `created` and the original body
/// joins the dead bodies; otherwise nothing changes and nothing is created.
pub open spec fn abort_handle_step(
    before: Mir,
    after: Mir,
    definition_id: DefinitionId,
    site: HandleSite,
    created: Seq<DefinitionId>,
    dead_before: Set<DefinitionId>,
    dead_after: Set<DefinitionId>,
) -> bool {
    if abort_rewrite_possible(before, definition_id, site) {
        &&& created.len() > 0
        &&& exists|
            cases: Seq<CaseDecision>,
            body_id: DefinitionId,
            body_env: Option<Value>,
            body_bindings: Option<Arc<GenericBindings>>,
            base: DefinitionId,
        |
            {
                &&& #[trigger] abort_plan_facts(before, definition_id, site, cases, body_id, body_env, body_bindings, base)
                &&& abort_rewrite(before, after, definition_id, site, cases, body_id, body_env, body_bindings, base, created)
                &&& dead_after == dead_before.insert(body_id)
            }
    } else {
        &&& created.len() == 0
        &&& after == before
        &&& dead_after == dead_before
    }
}

/// Lower the abort-only `Handle` at `site` of definition `definition_id` where that is possible,
/// and return the ids of the body clones it creates so that their own handles are optimized
/// too; the original body is recorded in `dead_bodies` ([abort_handle_step]).
pub fn try_optimize_abort_handle(
    mir: &mut Mir,
    definition_id: DefinitionId,
    site: HandleSite,
    dead_bodies: &mut FxHashSet<DefinitionId>,
) -> (r: Vec<DefinitionId>)
    ensures
        abort_handle_step(*old(mir), *final(mir), definition_id, site, r@, old(dead_bodies)@, final(dead_bodies)@),
{
    let ghost old_mir = *mir;
    match plan_abort_rewrite(mir, definition_id, &site) {
        Some((cases, body_id, body_env, body_bindings, base)) => {
            let ghost spec_cases = cases@;
            let r = apply_abort_rewrite(mir, definition_id, site, cases, body_id, body_env, body_bindings, base, dead_bodies);
            proof {
                assert(abort_plan_facts(old_mir, definition_id, site, spec_cases, body_id, body_env, body_bindings, base));
            }
            r
        },
        None => Vec::new(),
    }
}

} // verus!
