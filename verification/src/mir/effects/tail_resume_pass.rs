//! The tail-resume optimization itself: a `Handle` whose handler cases all `resume` in tail
//! position is replaced by a call of a clone of its body, whose capability holds direct
//! wrappers of the handlers. A wrapper is the handler with each tail `resume v` turned into a
//! plain return of `v`, so performing an operation becomes an ordinary closure call.
use crate::fx::{fx_set_contains, fx_set_insert, fx_set_new};
use crate::mir::definition::{Block, Definition, same_block, same_body, same_terminator};
use crate::mir::effects::abort::{PreparedBody, body_closure_code, emit_body_closure, min3, prepend_to_block, result_of, wrapper_type_view};
use crate::mir::effects::lowering::{
    CaseShape, EmitTarget, Emitter, HandleSite, case_shape_from_handler_type, definition_value_code, emitted, follow_ids, id_range,
    ids_resolve, is_handler_type, lemma_emitted_nothing, lemma_emitted_then, pointer_view, room_for, shape_of, spec_resolve_id,
    spec_unpack, unpack_in_bounds,
};
use crate::mir::effects::tail_resume::{case_is_tail_resumptive, resolve_handler, spec_case_is_tail_resumptive};
use crate::mir::definition::{spec_type_of_value, value_in_bounds};
use crate::mir::program::Mir;
use crate::mir::instruction::HandlerCase;
use crate::mir::types::{FunctionTypeView, lemma_types_view, types_view};
use crate::fx::{fx_id_set_insert, fx_map_get, fx_map_insert, fx_map_keys, fx_map_remove};
use crate::mir::effects::abort::{preserve_op_indices, with_op_indices};
use crate::mir::effects::body_clone::{
    clone_body_with_extended_env, env_extended, env_extensible_body, is_capability_like, neutralize_handler_caps_in_dead_body,
    rewrite_handler_caps_in_body, subtree_cloned,
};
use crate::mir::effects::lowering::resolve_body_function;
use crate::mir::effects::tail_resume::OriginalEnvLayout;
use crate::mir::program::mentions;
use crate::mir::effects::tail_resume::{
    block_instructions_in_bounds, is_tail_call, is_tail_resume_block, resume_parameter, substitute_value, tail_call,
    tail_resume_call, terminator_replaced,
};
use crate::mir::instruction::{GenericBindings, Instruction, InstructionView, TerminatorInstruction, replace_in_instruction};
use crate::mir::types::{FunctionType, PrimitiveType, Type, TypeView, arc_clone, clone_types, spec_is_closure};
use crate::mir::values::{BlockId, DefinitionId, InstructionId, IntConstant, Value};
use rustc_hash::FxHashSet;
use std::sync::Arc;
use vstd::prelude::*;
use vstd::string::StringExecFns;

verus! {

/// The ids of the tail calls of `resume` in `handler`.
fn tail_call_ids(handler: &Definition, resume: Value) -> (r: FxHashSet<u32>)
    requires
        block_instructions_in_bounds(*handler),
    ensures
        forall|x: u32| #[trigger] r@.contains(x) <==> is_tail_call(*handler, x, resume),
{
    let mut ids = fx_set_new();
    let nb = handler.blocks.len();
    let mut b: usize = 0;
    while b < nb
        invariant
            0 <= b <= nb,
            nb == handler.blocks@.len(),
            block_instructions_in_bounds(*handler),
            forall|x: u32|
                #[trigger] ids@.contains(x) <==> exists|k: int|
                    0 <= k < b && #[trigger] is_tail_resume_block(*handler, k, resume) && tail_call(*handler, k).0 == x,
        decreases nb - b,
    {
        match tail_resume_call(handler, b, resume) {
            Some(call_id) => {
                fx_set_insert(&mut ids, call_id.0);
            },
            None => {},
        }
        b = b + 1;
    }
    ids
}

/// What instruction `i` of a tail-resumptive handler does in its direct wrapper: a tail call of
/// `resume` forwards its argument instead.
pub open spec fn forwarded(handler: Definition, i: int, resume: Value) -> InstructionView {
    if is_tail_call(handler, i as u32, resume) {
        InstructionView::Id(handler.instructions@[i]->CallClosure_arguments@[0])
    } else {
        handler.instructions@[i]@
    }
}

/// `i` with the handler's environment parameter replaced by `loaded` where the handler is a
/// closure.
pub open spec fn env_substituted(i: InstructionView, env_present: bool, old_env: Value, loaded: Value) -> InstructionView {
    if env_present {
        replace_in_instruction(i, old_env, loaded)
    } else {
        i
    }
}

/// `w` is the direct wrapper of the tail-resumptive case `handler` of shape `shape`, under the
/// id `new_id`: typed `fn op_args.. [Pointer] -> op_return_type`, with the pointer taking the
/// place of `resume` among the entry block's parameters; each tail call of `resume` forwards its
/// argument (and so has the operation's return type); and where the handler is a closure, its
/// environment is loaded through the pointer by a `Deref` put first in the entry block, and its
/// environment parameter is replaced by that load everywhere.
pub open spec fn is_direct_wrapper(handler: Definition, shape: CaseShape, new_id: DefinitionId, w: Definition) -> bool {
    let n = shape.op_arg_types@.len();
    let m = handler.instructions@.len();
    let resume = resume_parameter(n);
    let env_present = spec_is_closure(handler.typ->Function_0@);
    let old_env = Value::Parameter(BlockId(0), (n + 1) as u32);
    let loaded = Value::InstructionResult(InstructionId(m as u32));
    &&& w.id == new_id
    &&& w.name@ == handler.name@ + "_tail_resume_wrapper"@
    &&& w.generic_count == handler.generic_count
    &&& w.typ@ == wrapper_type_view(shape)
    &&& w.instructions@.len() == if env_present { m + 1 } else { m }
    &&& w.instruction_result_types@.len() == w.instructions@.len()
    &&& forall|i: int|
        0 <= i < m ==> #[trigger] w.instructions@[i]@ == env_substituted(forwarded(handler, i, resume), env_present, old_env, loaded)
    &&& forall|i: int|
        0 <= i < m ==> #[trigger] w.instruction_result_types@[i] == if is_tail_call(handler, i as u32, resume) {
            shape.op_return_type
        } else {
            handler.instruction_result_types@[i]
        }
    &&& env_present ==> w.instructions@[m as int]@ == InstructionView::Deref(Value::Parameter(BlockId(0), n as u32))
        && w.instruction_result_types@[m as int] == handler.typ->Function_0.environment
    &&& w.blocks@.len() == handler.blocks@.len()
    &&& w.blocks@[0].parameter_types@ == shape.op_arg_types@.push(Type::Primitive(PrimitiveType::Pointer))
    &&& w.blocks@[0].instructions@ == if env_present {
        seq![InstructionId(m as u32)] + handler.blocks@[0].instructions@
    } else {
        handler.blocks@[0].instructions@
    }
    &&& forall|b: int|
        0 < b < handler.blocks@.len() ==> (#[trigger] w.blocks@[b]).parameter_types@ == handler.blocks@[b].parameter_types@
            && w.blocks@[b].instructions@ == handler.blocks@[b].instructions@
    &&& forall|b: int|
        0 <= b < handler.blocks@.len() ==> match handler.blocks@[b].terminator {
            None => (#[trigger] w.blocks@[b]).terminator is None,
            Some(t) => w.blocks@[b].terminator matches Some(u) && if env_present {
                terminator_replaced(t, u, old_env, loaded)
            } else {
                same_terminator(t, u)
            },
        }
}

/// What [direct_wrapper] needs of a handler.
pub open spec fn wrappable_handler(handler: Definition, shape: CaseShape) -> bool {
    &&& handler.typ is Function
    &&& handler.blocks@.len() > 0
    &&& block_instructions_in_bounds(handler)
    &&& handler.instructions@.len() == handler.instruction_result_types@.len()
    &&& handler.instructions@.len() + 1 < u32::MAX
    &&& shape.op_arg_types@.len() + 1 < u32::MAX
}

proof fn lemma_replaced_same(t: TerminatorInstruction, t1: TerminatorInstruction, t2: TerminatorInstruction, find: Value, replace: Value)
    requires
        same_terminator(t, t1),
        terminator_replaced(t1, t2, find, replace),
    ensures
        terminator_replaced(t, t2, find, replace),
{
}

/// The direct wrapper of the tail-resumptive case `handler` of shape `shape`, under the id
/// `new_id` ([is_direct_wrapper]).
pub fn direct_wrapper(handler: &Definition, shape: &CaseShape, new_id: DefinitionId) -> (w: Definition)
    requires
        wrappable_handler(*handler, *shape),
    ensures
        is_direct_wrapper(*handler, *shape, new_id, w),
{
    let ghost h = *handler;
    let ft = match &handler.typ {
        Type::Function(ft) => arc_clone(ft),
        _ => {
            // unreachable: the handler is a function
            return handler.clone_with_id(new_id);
        },
    };
    let env_present = ft.is_closure();
    let handler_env_type = ft.environment.clone();
    let n = shape.op_arg_types.len();
    let m = handler.instructions.len();
    let resume = Value::Parameter(BlockId(0), n as u32);
    let env_pointer = Value::Parameter(BlockId(0), n as u32);
    let old_env_param = Value::Parameter(BlockId(0), (n + 1) as u32);
    let loaded = Value::InstructionResult(InstructionId(m as u32));
    let mut w = handler.clone_with_id(new_id);
    let ghost w0 = w;
    let environment = Type::pointer();
    assert(environment@ == crate::mir::effects::lowering::pointer_view());
    w.typ = Type::Function(
        Arc::new(FunctionType { parameters: clone_types(&shape.op_arg_types), environment, return_type: shape.op_return_type.clone() }),
    );
    let mut name = (*handler.name).clone();
    name.append("_tail_resume_wrapper");
    w.name = Arc::new(name);
    let mut entry_parameters = clone_types(&shape.op_arg_types);
    entry_parameters.push(Type::pointer());
    let mut entry = crate::mir::definition::Block::new(Vec::new());
    std::mem::swap(&mut entry, &mut w.blocks[0]);
    entry.parameter_types = entry_parameters;
    w.blocks.set(0, entry);
    proof {
        reveal_strlit("_tail_resume_wrapper");
        assert(w.typ@ == wrapper_type_view(*shape));
    }
    let ghost w1 = w;

    // Each tail call of resume forwards its argument instead.
    let tail_calls = tail_call_ids(handler, resume);
    let mut i: usize = 0;
    while i < m
        invariant
            0 <= i <= m,
            m == h.instructions@.len(),
            m + 1 < u32::MAX,
            *handler == h,
            resume == resume_parameter(shape.op_arg_types@.len()),
            forall|x: u32| #[trigger] tail_calls@.contains(x) <==> is_tail_call(h, x, resume),
            w.instructions@.len() == m,
            w.instruction_result_types@.len() == m,
            forall|k: int| 0 <= k < i ==> #[trigger] w.instructions@[k]@ == forwarded(h, k, resume),
            forall|k: int|
                0 <= k < i ==> #[trigger] w.instruction_result_types@[k] == if is_tail_call(h, k as u32, resume) {
                    shape.op_return_type
                } else {
                    h.instruction_result_types@[k]
                },
            forall|k: int| i <= k < m ==> #[trigger] w.instructions@[k]@ == h.instructions@[k]@,
            forall|k: int| i <= k < m ==> #[trigger] w.instruction_result_types@[k] == h.instruction_result_types@[k],
            w.blocks == w1.blocks,
            w.typ == w1.typ,
            w.name == w1.name,
            w.id == w1.id,
            w.generic_count == w1.generic_count,
            same_body(h, w0),
            w1.blocks@.len() == w0.blocks@.len(),
            w1.blocks@[0].instructions == w0.blocks@[0].instructions,
            w1.blocks@[0].terminator == w0.blocks@[0].terminator,
            w1.blocks@[0].parameter_types@ == shape.op_arg_types@.push(Type::Primitive(PrimitiveType::Pointer)),
            forall|b: int| 0 < b < w0.blocks@.len() ==> #[trigger] w1.blocks@[b] == w0.blocks@[b],
        decreases m - i,
    {
        if fx_set_contains(&tail_calls, i as u32) {
            proof {
                assert(is_tail_call(h, i as u32, resume));
                let b = choose|b: int| 0 <= b < h.blocks@.len() && #[trigger] is_tail_resume_block(h, b, resume) && tail_call(h, b).0 == i as u32;
                assert(tail_call(h, b).0 as int == i as int);
                assert(h.instructions@[i as int] matches Instruction::CallClosure { arguments, .. } && arguments@.len() == 1);
            }
            if let Instruction::CallClosure { closure: _, arguments } = &handler.instructions[i] {
                let argument = arguments[0];
                w.instructions.set(i, Instruction::Id(argument));
                w.instruction_result_types.set(i, shape.op_return_type.clone());
            }
        }
        i = i + 1;
    }
    if env_present {
        let ghost w2 = w;
        w.instructions.push(Instruction::Deref(env_pointer));
        w.instruction_result_types.push(handler_env_type);
        let mut ids: Vec<InstructionId> = Vec::new();
        ids.push(InstructionId(m as u32));
        prepend_to_block(&mut w, BlockId(0), &ids);
        let ghost w3 = w;
        substitute_value(&mut w, old_env_param, loaded);
        proof {
            assert(ids@ == seq![InstructionId(m as u32)]);
            assert forall|k: int| 0 <= k < m implies #[trigger] w.instructions@[k]@ == env_substituted(
                forwarded(h, k, resume),
                true,
                old_env_param,
                loaded,
            ) by {
                assert(w3.instructions@[k] == w2.instructions@[k]);
            }
            assert(w3.instructions@[m as int] == Instruction::Deref(env_pointer));
            assert forall|b: int| 0 <= b < h.blocks@.len() implies match h.blocks@[b].terminator {
                None => (#[trigger] w.blocks@[b]).terminator is None,
                Some(t) => w.blocks@[b].terminator matches Some(u) && terminator_replaced(t, u, old_env_param, loaded),
            } by {
                assert(same_block(h.blocks@[b], w0.blocks@[b]));
                if b == 0 {
                    assert(w3.blocks@[0].terminator == w1.blocks@[0].terminator);
                } else {
                    assert(w3.blocks@[b] == w1.blocks@[b]);
                }
                if let Some(t) = h.blocks@[b].terminator {
                    lemma_replaced_same(t, w3.blocks@[b].terminator->0, w.blocks@[b].terminator->0, old_env_param, loaded);
                }
            }
            assert forall|b: int| 0 < b < h.blocks@.len() implies (#[trigger] w.blocks@[b]).parameter_types@ == h.blocks@[b].parameter_types@
                && w.blocks@[b].instructions@ == h.blocks@[b].instructions@ by {
                assert(same_block(h.blocks@[b], w0.blocks@[b]));
                assert(w3.blocks@[b] == w1.blocks@[b]);
            }
        }
    } else {
        proof {
            assert forall|b: int| 0 <= b < h.blocks@.len() implies match h.blocks@[b].terminator {
                None => (#[trigger] w.blocks@[b]).terminator is None,
                Some(t) => w.blocks@[b].terminator matches Some(u) && same_terminator(t, u),
            } by {
                assert(same_block(h.blocks@[b], w0.blocks@[b]));
            }
            assert forall|b: int| 0 < b < h.blocks@.len() implies (#[trigger] w.blocks@[b]).parameter_types@ == h.blocks@[b].parameter_types@
                && w.blocks@[b].instructions@ == h.blocks@[b].instructions@ by {
                assert(same_block(h.blocks@[b], w0.blocks@[b]));
            }
            assert(same_block(h.blocks@[0], w0.blocks@[0]));
        }
    }
    w
}

/// Per-case data needed to materialize a direct wrapper and pack it at the handle site.
pub struct CaseDecision {
    pub handler_def_id: DefinitionId,
    pub handler_env: Option<Value>,
    /// Generic bindings from the original `Instantiate` of the case's handler.
    pub handler_bindings: Option<Arc<GenericBindings>>,
    pub shape: CaseShape,
}

/// The pointer a case's wrapper closure is packed with: its handler's environment on the stack,
/// or a null pointer where the handler has none.
pub open spec fn env_pointer_code(env: Option<Value>) -> (InstructionView, TypeView) {
    match env {
        Some(env) => (InstructionView::StackAlloc(env), pointer_view()),
        None => (InstructionView::Transmute(Value::Integer(IntConstant::Usz(0))), pointer_view()),
    }
}

/// The instructions that pack the wrappers of cases `i` up to `count` when the definition has
/// `m` instructions, and the closures: for each case the pointer to its handler's environment,
/// and its wrapper packed with it.
pub open spec fn direct_closures_code(
    cases: Seq<CaseDecision>,
    wrapper_ids: Seq<DefinitionId>,
    wrapper_types: Seq<Type>,
    i: int,
    count: int,
    m: nat,
) -> (Seq<(InstructionView, TypeView)>, Seq<Value>)
    decreases count - i,
{
    if 0 <= i < count {
        let c = cases[i];
        let (fc, f) = definition_value_code(wrapper_ids[i], wrapper_types[i]@, c.handler_bindings, m + 1);
        let here = seq![env_pointer_code(c.handler_env)] + fc + seq![
            (InstructionView::PackClosure { function: f, environment: result_of(m) }, wrapper_types[i]@),
        ];
        let (rest, closures) = direct_closures_code(cases, wrapper_ids, wrapper_types, i + 1, count, m + here.len());
        (here + rest, seq![result_of((m + here.len() - 1) as nat)] + closures)
    } else {
        (seq![], seq![])
    }
}

/// What [emit_direct_cap_tuple] emits when the definition has `n` instructions: the wrapper
/// closures, then the tuple of them.
pub open spec fn direct_cap_tuple_code(
    cases: Seq<CaseDecision>,
    wrapper_ids: Seq<DefinitionId>,
    wrapper_types: Seq<Type>,
    cap_tuple_type: TypeView,
    n: nat,
) -> Seq<(InstructionView, TypeView)> {
    let count = min3(cases.len() as int, wrapper_ids.len() as int, wrapper_types.len() as int);
    let (code, closures) = direct_closures_code(cases, wrapper_ids, wrapper_types, 0, count, n);
    code + seq![(InstructionView::MakeTuple(closures), cap_tuple_type)]
}

proof fn lemma_direct_closures_len(
    cases: Seq<CaseDecision>,
    wrapper_ids: Seq<DefinitionId>,
    wrapper_types: Seq<Type>,
    i: int,
    count: int,
    m: nat,
)
    requires
        0 <= i <= count,
    ensures
        2 * (count - i) <= direct_closures_code(cases, wrapper_ids, wrapper_types, i, count, m).0.len() <= 3 * (count - i),
        direct_closures_code(cases, wrapper_ids, wrapper_types, i, count, m).1.len() == count - i,
    decreases count - i,
{
    if i < count {
        let c = cases[i];
        let (fc, f) = definition_value_code(wrapper_ids[i], wrapper_types[i]@, c.handler_bindings, m + 1);
        lemma_direct_closures_len(cases, wrapper_ids, wrapper_types, i + 1, count, m + 2 + fc.len());
    }
}

/// Pack each case's wrapper with a pointer to its handler's environment (a null pointer where
/// it has none), and tuple the closures into the capability.
pub fn emit_direct_cap_tuple(
    e: &mut Emitter,
    definition: &mut Definition,
    cases: &Vec<CaseDecision>,
    wrapper_ids: &Vec<DefinitionId>,
    wrapper_closure_types: &Vec<Type>,
    cap_tuple_type: &Type,
) -> (r: Value)
    requires
        room_for(
            *old(e),
            *old(definition),
            direct_cap_tuple_code(cases@, wrapper_ids@, wrapper_closure_types@, cap_tuple_type@, old(definition).instructions@.len()).len(),
        ),
    ensures
        ({
            let code = direct_cap_tuple_code(cases@, wrapper_ids@, wrapper_closure_types@, cap_tuple_type@, old(definition).instructions@.len());
            &&& r == result_of((old(definition).instructions@.len() + code.len() - 1) as nat)
            &&& emitted(*old(e), *old(definition), *final(e), *final(definition), code)
        }),
{
    let ghost e0 = *e;
    let ghost d0 = *definition;
    let ghost n = definition.instructions@.len();
    let count = if cases.len() <= wrapper_ids.len() && cases.len() <= wrapper_closure_types.len() {
        cases.len()
    } else if wrapper_ids.len() <= wrapper_closure_types.len() {
        wrapper_ids.len()
    } else {
        wrapper_closure_types.len()
    };
    let ghost total = direct_closures_code(cases@, wrapper_ids@, wrapper_closure_types@, 0, count as int, n);
    proof {
        lemma_emitted_nothing(e0, d0);
        lemma_direct_closures_len(cases@, wrapper_ids@, wrapper_closure_types@, 0, count as int, n);
        assert(Seq::<(InstructionView, TypeView)>::empty() + total.0 =~= total.0);
        assert(Seq::<Value>::empty() + total.1 =~= total.1);
    }
    let mut closures: Vec<Value> = Vec::new();
    let ghost mut done: Seq<(InstructionView, TypeView)> = seq![];
    let mut i: usize = 0;
    while i < count
        invariant
            0 <= i <= count,
            count == min3(cases@.len() as int, wrapper_ids@.len() as int, wrapper_closure_types@.len() as int),
            total == direct_closures_code(cases@, wrapper_ids@, wrapper_closure_types@, 0, count as int, n),
            n == d0.instructions@.len(),
            emitted(e0, d0, *e, *definition, done),
            done + direct_closures_code(cases@, wrapper_ids@, wrapper_closure_types@, i as int, count as int, n + done.len()).0
                == total.0,
            closures@ + direct_closures_code(cases@, wrapper_ids@, wrapper_closure_types@, i as int, count as int, n + done.len()).1
                == total.1,
            room_for(e0, d0, total.0.len() + 1),
            e.target == e0.target,
        decreases count - i,
    {
        let ghost m = n + done.len();
        let ghost old_closures = closures@;
        let c = &cases[i];
        let ghost e1 = *e;
        let ghost d1 = *definition;
        proof {
            lemma_direct_closures_len(cases@, wrapper_ids@, wrapper_closure_types@, i as int, count as int, m);
        }
        let env_pointer = match c.handler_env {
            Some(env) => e.push_instruction(definition, Instruction::StackAlloc(env), Type::pointer()),
            None => e.push_instruction(definition, Instruction::Transmute(Value::Integer(IntConstant::Usz(0))), Type::pointer()),
        };
        let ghost e2 = *e;
        let ghost d2 = *definition;
        let bindings = match &c.handler_bindings {
            Some(b) => Some(arc_clone(b)),
            None => None,
        };
        let wrapper_value = e.emit_definition_value(definition, wrapper_ids[i], wrapper_closure_types[i].clone(), bindings);
        let ghost e3 = *e;
        let ghost d3 = *definition;
        let closure = e.push_instruction(
            definition,
            Instruction::PackClosure { function: wrapper_value, environment: env_pointer },
            wrapper_closure_types[i].clone(),
        );
        closures.push(closure);
        proof {
            let cc = cases@[i as int];
            let first = seq![env_pointer_code(cc.handler_env)];
            let (fc, f) = definition_value_code(wrapper_ids@[i as int], wrapper_closure_types@[i as int]@, cc.handler_bindings, m + 1);
            let pack = seq![(InstructionView::PackClosure { function: f, environment: result_of(m) }, wrapper_closure_types@[i as int]@)];
            lemma_emitted_then(e1, d1, e2, d2, e3, d3, first, fc);
            lemma_emitted_then(e1, d1, e3, d3, *e, *definition, first + fc, pack);
            lemma_emitted_then(e0, d0, e1, d1, *e, *definition, done, first + fc + pack);
            let here = first + fc + pack;
            assert(done + here + direct_closures_code(cases@, wrapper_ids@, wrapper_closure_types@, i + 1, count as int, m + here.len()).0
                =~= done + direct_closures_code(cases@, wrapper_ids@, wrapper_closure_types@, i as int, count as int, m).0);
            assert(closure == result_of((m + here.len() - 1) as nat));
            assert(closures@ + direct_closures_code(cases@, wrapper_ids@, wrapper_closure_types@, i + 1, count as int, m + here.len()).1
                =~= old_closures + direct_closures_code(cases@, wrapper_ids@, wrapper_closure_types@, i as int, count as int, m).1);
            done = done + here;
        }
        i = i + 1;
    }
    let ghost e5 = *e;
    let ghost d5 = *definition;
    let tuple = Instruction::MakeTuple(closures);
    let ghost tuple_view = tuple@;
    let r = e.push_instruction(definition, tuple, cap_tuple_type.clone());
    proof {
        assert(done =~= total.0);
        assert(closures@ =~= total.1);
        lemma_emitted_then(e0, d0, e5, d5, *e, *definition, done, seq![(tuple_view, cap_tuple_type@)]);
    }
    r
}

/// Replaces instruction `index` of block `block` by `ids`.
pub fn splice_block(definition: &mut Definition, block: BlockId, index: usize, ids: &Vec<InstructionId>)
    requires
        block.0 < old(definition).blocks@.len(),
        index < old(definition).blocks@[block.0 as int].instructions@.len(),
    ensures
        ({
            let old_ids = old(definition).blocks@[block.0 as int].instructions@;
            final(definition).blocks@[block.0 as int].instructions@ == old_ids.subrange(0, index as int) + ids@
                + old_ids.subrange(index + 1, old_ids.len() as int)
        }),
        final(definition).blocks@.len() == old(definition).blocks@.len(),
        final(definition).blocks@[block.0 as int].parameter_types == old(definition).blocks@[block.0 as int].parameter_types,
        final(definition).blocks@[block.0 as int].terminator == old(definition).blocks@[block.0 as int].terminator,
        forall|x: int| 0 <= x < old(definition).blocks@.len() && x != block.0 ==> #[trigger] final(definition).blocks@[x]
            == old(definition).blocks@[x],
        final(definition).instructions == old(definition).instructions,
        final(definition).instruction_result_types == old(definition).instruction_result_types,
        final(definition).name == old(definition).name,
        final(definition).id == old(definition).id,
        final(definition).typ == old(definition).typ,
        final(definition).generic_count == old(definition).generic_count,
{
    let mut b = Block::new(Vec::new());
    std::mem::swap(&mut b, &mut definition.blocks[block.0 as usize]);
    let ghost old_ids = b.instructions@;
    let mut joined: Vec<InstructionId> = Vec::new();
    let mut i: usize = 0;
    while i < index
        invariant
            0 <= i <= index,
            index < b.instructions@.len(),
            joined@ == b.instructions@.subrange(0, i as int),
        decreases index - i,
    {
        joined.push(b.instructions[i]);
        i = i + 1;
        proof {
            assert(joined@ =~= b.instructions@.subrange(0, i as int));
        }
    }
    let mut k: usize = 0;
    while k < ids.len()
        invariant
            0 <= k <= ids@.len(),
            index < b.instructions@.len(),
            joined@ == b.instructions@.subrange(0, index as int) + ids@.subrange(0, k as int),
        decreases ids@.len() - k,
    {
        joined.push(ids[k]);
        k = k + 1;
        proof {
            assert(joined@ =~= b.instructions@.subrange(0, index as int) + ids@.subrange(0, k as int));
        }
    }
    proof {
        assert(ids@.subrange(0, k as int) =~= ids@);
    }
    let len = b.instructions.len();
    assert(index < len);
    let mut j: usize = index + 1;
    while j < b.instructions.len()
        invariant
            index + 1 <= j <= b.instructions@.len(),
            joined@ == b.instructions@.subrange(0, index as int) + ids@ + b.instructions@.subrange(index + 1, j as int),
        decreases b.instructions@.len() - j,
    {
        joined.push(b.instructions[j]);
        j = j + 1;
        proof {
            assert(joined@ =~= b.instructions@.subrange(0, index as int) + ids@ + b.instructions@.subrange(index + 1, j as int));
        }
    }
    definition.blocks.set(block.0 as usize, Block { parameter_types: b.parameter_types, instructions: joined, terminator: b.terminator });
}

/// The code that replaces a tail-resumptive `Handle` when the definition has `n` instructions,
/// and the body closure it ends with: the wrapper closures and the capability tuple, then the
/// body's extended environment and the body packed with it.
pub open spec fn replacement_code(
    cases: Seq<CaseDecision>,
    wrapper_ids: Seq<DefinitionId>,
    wrapper_types: Seq<Type>,
    body: PreparedBody,
    body_fn_type: TypeView,
    cap_tuple_type: TypeView,
    n: nat,
) -> (Seq<(InstructionView, TypeView)>, Value) {
    let cap_code = direct_cap_tuple_code(cases, wrapper_ids, wrapper_types, cap_tuple_type, n);
    let cap_value = result_of((n + cap_code.len() - 1) as nat);
    let (body_code, closure) = body_closure_code(body, body_fn_type, cap_value, n + cap_code.len());
    (cap_code + body_code, closure)
}

/// `new_d` is `d` with the `Handle` at `site` replaced: the instructions of `code` are added,
/// the handle's own id becomes a call of `closure` with unit (of the handle's result type, so
/// what used its result keeps working), and in the handle's block the new instructions and then
/// that call take the handle's place.
pub open spec fn handle_replaced(d: Definition, new_d: Definition, site: HandleSite, code: Seq<(InstructionView, TypeView)>, closure: Value) -> bool {
    let n = d.instructions@.len();
    let id = site.id.0 as int;
    let old_ids = d.blocks@[site.block.0 as int].instructions@;
    &&& new_d.instructions@.len() == n + code.len()
    &&& new_d.instruction_result_types@.len() == n + code.len()
    &&& forall|k: int| 0 <= k < n && k != id ==> #[trigger] new_d.instructions@[k] == d.instructions@[k]
    &&& forall|k: int| 0 <= k < n && k != id ==> #[trigger] new_d.instruction_result_types@[k] == d.instruction_result_types@[k]
    &&& new_d.instructions@[id]@ == InstructionView::CallClosure { closure, arguments: seq![Value::Unit] }
    &&& new_d.instruction_result_types@[id] == site.result_type
    &&& forall|k: int| 0 <= k < code.len() ==> (#[trigger] new_d.instructions@[n + k])@ == code[k].0
    &&& forall|k: int| 0 <= k < code.len() ==> (#[trigger] new_d.instruction_result_types@[n + k])@ == code[k].1
    &&& new_d.blocks@.len() == d.blocks@.len()
    &&& new_d.blocks@[site.block.0 as int].instructions@ == old_ids.subrange(0, site.index as int) + id_range(n, code.len()).push(site.id)
        + old_ids.subrange(site.index + 1, old_ids.len() as int)
    &&& new_d.blocks@[site.block.0 as int].parameter_types == d.blocks@[site.block.0 as int].parameter_types
    &&& new_d.blocks@[site.block.0 as int].terminator == d.blocks@[site.block.0 as int].terminator
    &&& forall|x: int| 0 <= x < d.blocks@.len() && x != site.block.0 ==> #[trigger] new_d.blocks@[x] == d.blocks@[x]
    &&& new_d.name == d.name
    &&& new_d.id == d.id
    &&& new_d.typ == d.typ
    &&& new_d.generic_count == d.generic_count
}

/// Replace the `Handle` at `site`: pack each wrapper with a pointer to its handler's
/// environment, tuple them into the capability, extend the body's environment with it, pack the
/// body, and reuse the handle's id for the call of that body closure so that what used the
/// handle's result keeps working.
pub fn replace_handle(
    definition: &mut Definition,
    site: &HandleSite,
    wrapper_ids: &Vec<DefinitionId>,
    wrapper_types: &Vec<Type>,
    cases: &Vec<CaseDecision>,
    body: PreparedBody,
    body_fn_type: Type,
    cap_tuple_type: &Type,
)
    requires
        site.block.0 < old(definition).blocks@.len(),
        site.index < old(definition).blocks@[site.block.0 as int].instructions@.len(),
        site.id.0 < old(definition).instructions@.len(),
        old(definition).instructions@.len() == old(definition).instruction_result_types@.len(),
        old(definition).instructions@.len() + 3 * cases@.len() + body.layout.original_field_types@.len() + 4 < u32::MAX,
        body_fn_type is Function,
        body.layout.was_closure ==> body.env_value is Some,
    ensures
        ({
            let (code, closure) = replacement_code(
                cases@,
                wrapper_ids@,
                wrapper_types@,
                body,
                body_fn_type@,
                cap_tuple_type@,
                old(definition).instructions@.len(),
            );
            handle_replaced(*old(definition), *final(definition), *site, code, closure)
        }),
{
    let ghost d0 = *definition;
    let ghost n = definition.instructions@.len();
    let ghost spec_body = body;
    let mut e = Emitter::pending();
    let ghost e0 = e;
    let ghost cap_code = direct_cap_tuple_code(cases@, wrapper_ids@, wrapper_types@, cap_tuple_type@, n);
    proof {
        let count = min3(cases@.len() as int, wrapper_ids@.len() as int, wrapper_types@.len() as int);
        lemma_direct_closures_len(cases@, wrapper_ids@, wrapper_types@, 0, count, n);
    }
    let cap = emit_direct_cap_tuple(&mut e, definition, cases, wrapper_ids, wrapper_types, cap_tuple_type);
    let ghost e1 = e;
    let ghost d1 = *definition;
    let ghost body_code = body_closure_code(spec_body, body_fn_type@, cap, n + cap_code.len());
    proof {
        let fields = if spec_body.layout.was_closure {
            crate::mir::effects::abort::env_fields_code(spec_body.env_value->0, spec_body.layout.original_field_types@)
        } else {
            seq![]
        };
        assert(fields.len() <= spec_body.layout.original_field_types@.len());
    }
    let body_closure = emit_body_closure(&mut e, definition, body, body_fn_type, cap);
    let ghost e2 = e;
    let ghost d2 = *definition;
    proof {
        lemma_emitted_then(e0, d0, e1, d1, e2, d2, cap_code, body_code.0);
    }
    let mut arguments: Vec<Value> = Vec::new();
    arguments.push(Value::Unit);
    let call = Instruction::CallClosure { closure: body_closure, arguments };
    let ghost call_view = call@;
    e.reuse_instruction(definition, site.id, call, site.result_type.clone());
    let ghost d3 = *definition;
    splice_block(definition, site.block, site.index, &e.pending);
    proof {
        let code = cap_code + body_code.0;
        assert(call_view == InstructionView::CallClosure { closure: body_closure, arguments: seq![Value::Unit] });
        assert(e.pending@ == id_range(n, code.len()).push(site.id));
        assert forall|k: int| 0 <= k < code.len() implies (#[trigger] definition.instructions@[n + k])@ == code[k].0 by {
            assert(d2.instructions@[n + k]@ == code[k].0);
        }
        assert forall|k: int| 0 <= k < code.len() implies (#[trigger] definition.instruction_result_types@[n + k])@ == code[k].1 by {
            assert(d2.instruction_result_types@[n + k]@ == code[k].1);
        }
        assert forall|k: int| 0 <= k < n && k != site.id.0 implies #[trigger] definition.instructions@[k] == d0.instructions@[k] by {
            assert(d2.instructions@.subrange(0, n as int)[k] == d0.instructions@[k]);
        }
        assert forall|k: int| 0 <= k < n && k != site.id.0 implies #[trigger] definition.instruction_result_types@[k] == d0.instruction_result_types@[k] by {
            assert(d2.instruction_result_types@.subrange(0, n as int)[k] == d0.instruction_result_types@[k]);
        }
    }
}

/// Whether the chain of `Id`s from `value` ends within the definition ([ids_resolve]).
pub fn ids_resolve_check(value: Value, definition: &Definition) -> (r: bool)
    ensures
        r == ids_resolve(value, definition.instructions@),
{
    let n = definition.instructions.len();
    let mut v = value;
    let mut fuel: usize = n;
    loop
        invariant
            n == definition.instructions@.len(),
            fuel <= n,
            follow_ids(v, definition.instructions@, fuel as nat) == follow_ids(value, definition.instructions@, n as nat),
        decreases fuel,
    {
        match v {
            Value::InstructionResult(iid) => {
                if iid.0 as usize >= n {
                    return false;
                }
                match &definition.instructions[iid.0 as usize] {
                    Instruction::Id(inner) => {
                        if fuel == 0 {
                            return false;
                        }
                        v = *inner;
                        fuel = fuel - 1;
                    },
                    _ => {
                        return true;
                    },
                }
            },
            _ => {
                return true;
            },
        }
    }
}

/// Whether every instruction id that a block lists names an instruction of the definition.
pub fn block_instructions_in_bounds_check(d: &Definition) -> (r: bool)
    ensures
        r == block_instructions_in_bounds(*d),
{
    let mut b: usize = 0;
    while b < d.blocks.len()
        invariant
            0 <= b <= d.blocks@.len(),
            forall|x: int, k: int|
                0 <= x < b && 0 <= k < d.blocks@[x].instructions@.len() ==> (#[trigger] d.blocks@[x].instructions@[k]).0
                    < d.instructions@.len(),
        decreases d.blocks@.len() - b,
    {
        let block = &d.blocks[b];
        let mut k: usize = 0;
        while k < block.instructions.len()
            invariant
                0 <= k <= block.instructions@.len(),
                b < d.blocks@.len(),
                *block == d.blocks@[b as int],
                forall|x: int, j: int|
                    0 <= x < b && 0 <= j < d.blocks@[x].instructions@.len() ==> (#[trigger] d.blocks@[x].instructions@[j]).0
                        < d.instructions@.len(),
                forall|j: int| 0 <= j < k ==> (#[trigger] block.instructions@[j]).0 < d.instructions@.len(),
            decreases block.instructions@.len() - k,
        {
            if block.instructions[k].0 as usize >= d.instructions.len() {
                proof {
                    assert(d.blocks@[b as int].instructions@[k as int] == block.instructions@[k as int]);
                }
                return false;
            }
            k = k + 1;
        }
        proof {
            assert forall|x: int, j: int|
                0 <= x < b + 1 && 0 <= j < d.blocks@[x].instructions@.len() implies (#[trigger] d.blocks@[x].instructions@[j]).0
                    < d.instructions@.len() by {
                if x == b {
                    assert(d.blocks@[x].instructions@[j] == block.instructions@[j]);
                }
            }
        }
        b = b + 1;
    }
    true
}

/// A type of a handler: a function whose last parameter, `resume`, is a function.
pub open spec fn is_handler_view(t: TypeView) -> bool {
    &&& t is Function
    &&& t->Function_0.parameters.len() > 0
    &&& t->Function_0.parameters.last() is Function
}

/// How many arguments the operation of a handler of type `t` takes.
pub open spec fn handler_arity(t: TypeView) -> nat {
    (t->Function_0.parameters.len() - 1) as nat
}

/// What the rewrite needs of a handler definition beyond it being tail-resumptive: a function
/// with an entry block, whose blocks list only its own instructions, each with a result type,
/// and whose counts fit in a `u32`.
pub open spec fn handler_checks(h: Definition, arity: nat) -> bool {
    &&& h.typ is Function
    &&& h.blocks@.len() > 0
    &&& h.blocks@.len() <= u32::MAX
    &&& block_instructions_in_bounds(h)
    &&& h.instructions@.len() == h.instruction_result_types@.len()
    &&& h.instructions@.len() + 1 < u32::MAX
    &&& arity + 1 < u32::MAX
}

/// The handler case `case` of a `Handle` in `d` can be inlined: its handler has a handler's
/// type, resolves to a definition of the program (after any `PackClosure`, `Id`s and an
/// `Instantiate`), and that definition passes [handler_checks] and resumes only in tail
/// position.
pub open spec fn case_tail_resumptive(mir: Mir, d: Definition, case: HandlerCase) -> bool {
    let function = spec_unpack(case.handler, d.instructions@).0;
    &&& unpack_in_bounds(case.handler, d.instructions@)
    &&& value_in_bounds(d, case.handler)
    &&& spec_type_of_value(d, case.handler, mir.externals@, mir.definitions@) matches Some(t)
    &&& is_handler_view(t)
    &&& ids_resolve(function, d.instructions@)
    &&& spec_resolve_id(function, d.instructions@) matches Some((id, _))
    &&& mir.definitions@.contains_key(id)
    &&& handler_checks(mir.definitions@[id], handler_arity(t))
    &&& spec_case_is_tail_resumptive(mir.definitions@[id], resume_parameter(handler_arity(t)))
}

/// `dec` is what [analyze_handle] records of the tail-resumptive case `case`: the definition
/// its handler resolves to, with the environment and generic bindings it was packed and
/// instantiated with, and the shape of its type.
pub open spec fn case_decided(mir: Mir, d: Definition, case: HandlerCase, dec: CaseDecision) -> bool {
    let (function, env) = spec_unpack(case.handler, d.instructions@);
    let t = spec_type_of_value(d, case.handler, mir.externals@, mir.definitions@)->0;
    &&& case_tail_resumptive(mir, d, case)
    &&& spec_resolve_id(function, d.instructions@) == Some((dec.handler_def_id, dec.handler_bindings))
    &&& dec.handler_env == env
    &&& exists|ty: Type| ty@ == t && is_handler_type(ty) && #[trigger] shape_of(ty, dec.shape)
}

pub proof fn lemma_handler_type_view(ty: Type)
    ensures
        is_handler_type(ty) <==> is_handler_view(ty@),
        is_handler_type(ty) ==> handler_arity(ty@) == ty->Function_0.parameters@.len() - 1,
{
    broadcast use lemma_types_view;
    if ty is Function {
        let ps = ty->Function_0.parameters@;
        if ps.len() > 0 {
            assert(types_view(ps).last() == ps.last()@);
        }
    }
}

/// Decide whether the `Handle` at `site` of definition `definition_id` can be inlined: every
/// case must be [case_tail_resumptive]. Returns what is known of each case, or `None` to leave
/// the handle for effect lowering. A handle whose handlers cannot be followed to well-formed
/// definitions is left alone as well.
pub fn analyze_handle(mir: &Mir, definition_id: DefinitionId, site: &HandleSite) -> (r: Option<Vec<CaseDecision>>)
    ensures
        r is Some <==> mir.definitions@.contains_key(definition_id) && forall|k: int|
            0 <= k < site.cases@.len() ==> case_tail_resumptive(*mir, mir.definitions@[definition_id], #[trigger] site.cases@[k]),
        r matches Some(ds) ==> ds@.len() == site.cases@.len() && forall|k: int|
            0 <= k < ds@.len() ==> case_decided(*mir, mir.definitions@[definition_id], site.cases@[k], #[trigger] ds@[k]),
{
    let definition = match fx_map_get(&mir.definitions, definition_id) {
        Some(d) => d,
        None => return None,
    };
    let ghost d = *definition;
    let mut decisions: Vec<CaseDecision> = Vec::new();
    let mut k: usize = 0;
    while k < site.cases.len()
        invariant
            0 <= k <= site.cases@.len(),
            mir.definitions@.contains_key(definition_id),
            d == mir.definitions@[definition_id],
            *definition == d,
            decisions@.len() == k,
            forall|j: int| 0 <= j < k ==> case_tail_resumptive(*mir, d, #[trigger] site.cases@[j]),
            forall|j: int| 0 <= j < k ==> case_decided(*mir, d, site.cases@[j], #[trigger] decisions@[j]),
        decreases site.cases@.len() - k,
    {
        let case = site.cases[k];
        let handler = case.handler;
        let in_bounds = match handler {
            Value::InstructionResult(iid) => (iid.0 as usize) < definition.instructions.len() && (iid.0 as usize)
                < definition.instruction_result_types.len(),
            _ => true,
        };
        if !in_bounds {
            return None;
        }
        let handler_type = match definition.try_type_of_value(&handler, &mir.externals, &mir.definitions) {
            Some(t) => t,
            None => return None,
        };
        proof {
            lemma_handler_type_view(handler_type);
        }
        let shape = match case_shape_from_handler_type(&handler_type) {
            Some(shape) => shape,
            None => return None,
        };
        let mut function = handler;
        if let Value::InstructionResult(instruction) = handler {
            if let Instruction::PackClosure { function: f, environment: _ } = &definition.instructions[instruction.0 as usize] {
                function = *f;
            }
        }
        if !ids_resolve_check(function, definition) {
            return None;
        }
        let (handler_def_id, handler_env, handler_bindings) = match resolve_handler(handler, definition) {
            Some(resolved) => resolved,
            None => return None,
        };
        let handler_def = match fx_map_get(&mir.definitions, handler_def_id) {
            Some(h) => h,
            None => return None,
        };
        let checks = match &handler_def.typ {
            Type::Function(_) => true,
            _ => false,
        } && handler_def.blocks.len() > 0 && handler_def.blocks.len() <= 0xffff_ffff
            && block_instructions_in_bounds_check(handler_def)
            && handler_def.instructions.len() == handler_def.instruction_result_types.len()
            && handler_def.instructions.len() < 0xffff_fffe && shape.op_arg_types.len() < 0xffff_fffe;
        if !checks {
            return None;
        }
        if !case_is_tail_resumptive(handler_def, &shape) {
            return None;
        }
        proof {
            assert(shape.op_arg_types@.len() == handler_arity(handler_type@));
        }
        decisions.push(CaseDecision { handler_def_id, handler_env, handler_bindings, shape });
        k = k + 1;
    }
    Some(decisions)
}

/// `after` is `before` with its capabilities neutralized ([neutralize_handler_caps_in_dead_body]).
pub open spec fn caps_neutralized(before: Definition, after: Definition) -> bool {
    &&& after.instructions@.len() == before.instructions@.len()
    &&& forall|i: int|
        0 <= i < before.instructions@.len() ==> #[trigger] after.instructions@[i] == if before.instructions@[i] is Capability {
            Instruction::Transmute(Value::Unit)
        } else {
            before.instructions@[i]
        }
    &&& after.instruction_result_types == before.instruction_result_types
    &&& after.blocks == before.blocks
    &&& after.name == before.name
    &&& after.id == before.id
    &&& after.generic_count == before.generic_count
    &&& after.typ == before.typ
}

/// `after` is the body clone `before` with its capabilities taken from its environment
/// ([rewrite_handler_caps_in_body]).
pub open spec fn caps_rewritten(before: Definition, after: Definition, layout: OriginalEnvLayout, cap_tuple_type: Type) -> bool {
    let env = Value::Parameter(BlockId(0), (before.blocks@[0].parameter_types@.len() - 1) as u32);
    let cap_index = layout.original_field_types@.len() as u32;
    &&& after.instructions@.len() == before.instructions@.len()
    &&& after.instruction_result_types@.len() == before.instruction_result_types@.len()
    &&& forall|i: int|
        0 <= i < before.instructions@.len() ==> if is_capability_like(
            before.instructions@[i],
            before.instruction_result_types@[i],
            cap_tuple_type,
        ) {
            &&& #[trigger] after.instructions@[i] == Instruction::IndexTuple { tuple: env, index: cap_index }
            &&& after.instruction_result_types@[i] == cap_tuple_type
        } else {
            &&& after.instructions@[i] == before.instructions@[i]
            &&& after.instruction_result_types@[i] == before.instruction_result_types@[i]
        }
    &&& after.blocks == before.blocks
    &&& after.name == before.name
    &&& after.id == before.id
    &&& after.generic_count == before.generic_count
    &&& after.typ == before.typ
}

/// The `k`th id from `base` on.
pub open spec fn nth_id(base: DefinitionId, k: int) -> DefinitionId {
    DefinitionId((base.0 + k) as u32)
}

/// `after` is `before` with the direct wrapper of each case `k` of `cases` added under the id
/// `base + k`, made from the case's handler in `before`.
pub open spec fn wrappers_added(
    before: Map<DefinitionId, Definition>,
    after: Map<DefinitionId, Definition>,
    cases: Seq<CaseDecision>,
    base: DefinitionId,
) -> bool {
    &&& forall|k: int| 0 <= k < cases.len() ==> #[trigger] after.contains_key(nth_id(base, k))
    &&& forall|k: int|
        0 <= k < cases.len() ==> #[trigger] is_direct_wrapper(
            before[cases[k].handler_def_id],
            cases[k].shape,
            nth_id(base, k as int),
            after[nth_id(base, k as int)],
        )
    &&& forall|id: DefinitionId| #[trigger] before.contains_key(id) ==> after.contains_key(id) && after[id] == before[id]
    &&& forall|id: DefinitionId|
        #[trigger] after.contains_key(id) ==> before.contains_key(id) || (base.0 <= id.0 < base.0 + cases.len())
}

/// Adds the direct wrapper of each case under the ids `base`, `base + 1`, ..., and gives their
/// types.
fn insert_wrappers(mir: &mut Mir, cases: &Vec<CaseDecision>, base: DefinitionId) -> (r: Vec<Type>)
    requires
        forall|k: int|
            0 <= k < cases@.len() ==> old(mir).definitions@.contains_key((#[trigger] cases@[k]).handler_def_id)
                && wrappable_handler(old(mir).definitions@[cases@[k].handler_def_id], cases@[k].shape),
        forall|id: DefinitionId| old(mir).definitions@.contains_key(id) ==> id.0 < base.0,
        base.0 + cases@.len() <= u32::MAX,
    ensures
        wrappers_added(old(mir).definitions@, final(mir).definitions@, cases@, base),
        r@.len() == cases@.len(),
        forall|k: int| 0 <= k < cases@.len() ==> #[trigger] r@[k] == final(mir).definitions@[nth_id(base, k as int)].typ,
        final(mir).externals@ == old(mir).externals@,
        final(mir).preserved_op_indices@ == old(mir).preserved_op_indices@,
{
    let mut types: Vec<Type> = Vec::new();
    let mut k: usize = 0;
    while k < cases.len()
        invariant
            0 <= k <= cases@.len(),
            base.0 + cases@.len() <= u32::MAX,
            forall|j: int|
                0 <= j < cases@.len() ==> old(mir).definitions@.contains_key((#[trigger] cases@[j]).handler_def_id)
                    && wrappable_handler(old(mir).definitions@[cases@[j].handler_def_id], cases@[j].shape),
            forall|id: DefinitionId| old(mir).definitions@.contains_key(id) ==> id.0 < base.0,
            types@.len() == k,
            forall|j: int| 0 <= j < k ==> #[trigger] mir.definitions@.contains_key(nth_id(base, j)),
            forall|j: int|
                0 <= j < k ==> #[trigger] is_direct_wrapper(
                    old(mir).definitions@[cases@[j].handler_def_id],
                    cases@[j].shape,
                    nth_id(base, j),
                    mir.definitions@[nth_id(base, j)],
                ),
            forall|j: int| 0 <= j < k ==> #[trigger] types@[j] == mir.definitions@[nth_id(base, j)].typ,
            forall|id: DefinitionId|
                #[trigger] old(mir).definitions@.contains_key(id) ==> mir.definitions@.contains_key(id) && mir.definitions@[id]
                    == old(mir).definitions@[id],
            forall|id: DefinitionId|
                #[trigger] mir.definitions@.contains_key(id) ==> old(mir).definitions@.contains_key(id) || (base.0 <= id.0 < base.0 + k),
            mir.externals@ == old(mir).externals@,
            mir.preserved_op_indices@ == old(mir).preserved_op_indices@,
        decreases cases@.len() - k,
    {
        let case = &cases[k];
        let new_id = DefinitionId(base.0 + k as u32);
        proof {
            assert(old(mir).definitions@.contains_key(cases@[k as int].handler_def_id));
        }
        let handler = fx_map_get(&mir.definitions, case.handler_def_id).unwrap();
        let wrapper = direct_wrapper(handler, &case.shape, new_id);
        types.push(wrapper.typ.clone());
        let ghost before = mir.definitions@;
        fx_map_insert(&mut mir.definitions, new_id, wrapper);
        proof {
            assert forall|j: int| 0 <= j < k implies mir.definitions@.contains_key(nth_id(base, j))
                && #[trigger] is_direct_wrapper(
                old(mir).definitions@[cases@[j].handler_def_id],
                cases@[j].shape,
                nth_id(base, j),
                mir.definitions@[nth_id(base, j)],
            ) by {
                assert(nth_id(base, j) != new_id);
                assert(is_direct_wrapper(
                    old(mir).definitions@[cases@[j].handler_def_id],
                    cases@[j].shape,
                    nth_id(base, j),
                    before[nth_id(base, j)],
                ));
                assert(before.contains_key(nth_id(base, j)));
                assert(mir.definitions@[nth_id(base, j)] == before[nth_id(base, j)]);
            }
            assert(before[cases@[k as int].handler_def_id] == old(mir).definitions@[cases@[k as int].handler_def_id]);
            assert(new_id == nth_id(base, k as int));
            assert(is_direct_wrapper(
                old(mir).definitions@[cases@[k as int].handler_def_id],
                cases@[k as int].shape,
                nth_id(base, k as int),
                mir.definitions@[nth_id(base, k as int)],
            ));
            assert forall|j: int| 0 <= j < k + 1 implies mir.definitions@.contains_key(nth_id(base, j))
                && #[trigger] is_direct_wrapper(
                old(mir).definitions@[cases@[j].handler_def_id],
                cases@[j].shape,
                nth_id(base, j),
                mir.definitions@[nth_id(base, j)],
            ) by {
                if j < k {
                    assert(nth_id(base, j) != new_id);
                    assert(is_direct_wrapper(
                        old(mir).definitions@[cases@[j].handler_def_id],
                        cases@[j].shape,
                        nth_id(base, j),
                        before[nth_id(base, j)],
                    ));
                } else {
                    assert(j == k);
                }
            }
            assert forall|j: int| 0 <= j < k implies #[trigger] types@[j] == mir.definitions@[nth_id(base, j)].typ by {
                assert(nth_id(base, j) != new_id);
            }
        }
        k = k + 1;
    }
    types
}

/// What [try_optimize_handle] needs of the body a `Handle` runs: it resolves to a definition of
/// the program whose environment can be extended, whose instructions all have result types, and
/// which has an environment parameter where it is a closure.
pub open spec fn body_checks(b: Definition) -> bool {
    &&& env_extensible_body(b)
    &&& b.instructions@.len() == b.instruction_result_types@.len()
    &&& spec_is_closure(b.typ->Function_0@) ==> b.blocks@[0].parameter_types@.len() > 0
    &&& b.blocks@[0].parameter_types@.len() < u32::MAX
    &&& b.typ->Function_0.environment is Tuple ==> b.typ->Function_0.environment->Tuple_0@.len() < u32::MAX
}

/// The number of fields of a body's environment, where it is a tuple.
pub open spec fn env_field_count(b: Definition) -> nat {
    if b.typ->Function_0.environment is Tuple {
        b.typ->Function_0.environment->Tuple_0@.len()
    } else {
        0
    }
}

/// The type of the capability tuple: the wrappers' types.
pub open spec fn cap_tuple_view(wrapper_types: Seq<Type>) -> TypeView {
    TypeView::Tuple(types_view(wrapper_types))
}

/// The steps of [tail_resume_rewrite] with their intermediate states: `defs1` after the
/// wrappers are added, `mid`, `pairs` and `extended` after the body is cloned and its clone's
/// environment extended (with `layout` the original environment's), `neutralized` the original
/// body and `rewritten` the clone afterwards, `wrapper_types` the wrappers' types and
/// `cap_tuple_type` the capability's.
pub open spec fn rewrite_steps(
    old: Mir,
    new: Mir,
    definition_id: DefinitionId,
    site: HandleSite,
    cases: Seq<CaseDecision>,
    body_id: DefinitionId,
    body_env: Option<Value>,
    body_bindings: Option<Arc<GenericBindings>>,
    base: DefinitionId,
    created: Seq<DefinitionId>,
    defs1: Map<DefinitionId, Definition>,
    mid: Map<DefinitionId, Definition>,
    pairs: Seq<(DefinitionId, DefinitionId)>,
    extended: Definition,
    layout: OriginalEnvLayout,
    wrapper_types: Seq<Type>,
    cap_tuple_type: Type,
    neutralized: Definition,
    rewritten: Definition,
) -> bool {
    let m = cases.len();
    let clone_id = nth_id(base, m as int);
    let defs2 = mid.insert(clone_id, extended);
    let defs3 = defs2.insert(body_id, neutralized);
    let defs4 = defs3.insert(clone_id, rewritten);
    let wrapper_ids = Seq::new(m, |k: int| nth_id(base, k as int));
    let body = PreparedBody { fn_id: clone_id, env_value: body_env, bindings: body_bindings, layout };
    let (code, closure) = replacement_code(
        cases,
        wrapper_ids,
        wrapper_types,
        body,
        rewritten.typ@,
        cap_tuple_type@,
        defs4[definition_id].instructions@.len(),
    );
    &&& wrappers_added(old.definitions@, defs1, cases, base)
    &&& wrapper_types.len() == m
    &&& forall|k: int| 0 <= k < m ==> #[trigger] wrapper_types[k] == defs1[wrapper_ids[k]].typ
    &&& cap_tuple_type@ == cap_tuple_view(wrapper_types)
    &&& subtree_cloned(defs1, mid, body_id, clone_id, pairs)
    &&& env_extended(mid[clone_id], extended, cap_tuple_type, layout)
    &&& created == pairs.map_values(|p: (DefinitionId, DefinitionId)| p.1)
    &&& caps_neutralized(defs2[body_id], neutralized)
    &&& caps_rewritten(defs3[clone_id], rewritten, layout, cap_tuple_type)
    &&& defs4.contains_key(definition_id)
    &&& handle_replaced(defs4[definition_id], new.definitions@[definition_id], site, code, closure)
    &&& new.definitions@ == defs4.insert(definition_id, new.definitions@[definition_id])
}

/// `new` is `old` after the `Handle` at `site` of definition `definition_id` is inlined:
/// `cases` records the handler cases and `body_id`, `body_env` and `body_bindings` the body;
/// the wrappers get the ids from `base` on, the body's clones the ids after them, which
/// `created` lists. In order: each case's effect operation keeps its position for effect
/// lowering; the direct wrappers are added; the body is cloned with the definitions it owns and
/// its clone's environment extended by the capability tuple; the original body's capabilities
/// are neutralized; the clone's capabilities are read from its environment; and the handle is
/// replaced by a call of the clone packed with the extended environment ([rewrite_steps]).
pub open spec fn tail_resume_rewrite(
    old: Mir,
    new: Mir,
    definition_id: DefinitionId,
    site: HandleSite,
    cases: Seq<CaseDecision>,
    body_id: DefinitionId,
    body_env: Option<Value>,
    body_bindings: Option<Arc<GenericBindings>>,
    base: DefinitionId,
    created: Seq<DefinitionId>,
) -> bool {
    &&& new.preserved_op_indices@ == with_op_indices(old.preserved_op_indices@, site.cases@)
    &&& new.externals@ == old.externals@
    &&& exists|
        defs1: Map<DefinitionId, Definition>,
        mid: Map<DefinitionId, Definition>,
        pairs: Seq<(DefinitionId, DefinitionId)>,
        extended: Definition,
        layout: OriginalEnvLayout,
        wrapper_types: Seq<Type>,
        cap_tuple_type: Type,
        neutralized: Definition,
        rewritten: Definition,
    |
        #[trigger] rewrite_steps(
            old,
            new,
            definition_id,
            site,
            cases,
            body_id,
            body_env,
            body_bindings,
            base,
            created,
            defs1,
            mid,
            pairs,
            extended,
            layout,
            wrapper_types,
            cap_tuple_type,
            neutralized,
            rewritten,
        )
}

/// The definition, environment and generic bindings that a `Handle`'s body value resolves to,
/// where it resolves to a definition.
pub open spec fn body_resolution(d: Definition, body: Value) -> Option<(DefinitionId, Option<Value>, Option<Arc<GenericBindings>>)> {
    let (function, env) = spec_unpack(body, d.instructions@);
    if unpack_in_bounds(body, d.instructions@) && ids_resolve(function, d.instructions@) {
        match spec_resolve_id(function, d.instructions@) {
            Some((id, bindings)) => Some((id, env, bindings)),
            None => None,
        }
    } else {
        None
    }
}

/// The handle site still stands where it was found in `d`, and `d` has room for the code that
/// replaces it, given a body of definition `b` and `m` cases.
pub open spec fn site_fits(d: Definition, site: HandleSite, b: Definition, m: nat) -> bool {
    &&& site.block.0 < d.blocks@.len()
    &&& site.index < d.blocks@[site.block.0 as int].instructions@.len()
    &&& site.id.0 < d.instructions@.len()
    &&& d.instructions@.len() == d.instruction_result_types@.len()
    &&& d.instructions@.len() + 3 * m + env_field_count(b) + 4 < u32::MAX
    &&& m <= u32::MAX
}

/// `base` is the id [Mir::next_free_id] gives, and the `m` wrappers and the body's clones fit
/// below `u32::MAX` after it.
pub open spec fn fresh_base(mir: Mir, base: DefinitionId, m: nat) -> bool {
    &&& forall|x: DefinitionId| mentions(mir, x) ==> x.0 < base.0
    &&& base.0 == 0 || mentions(mir, DefinitionId((base.0 - 1) as u32))
    &&& base.0 + 2 * m + mir.definitions@.dom().len() <= u32::MAX
    &&& mir.definitions@.dom().finite()
}

/// The ids a rewrite needs are available: past the largest id the program mentions there is
/// room for the `m` wrappers and the body's clones.
pub open spec fn ids_available(mir: Mir, m: nat) -> bool {
    exists|base: DefinitionId| #[trigger] fresh_base(mir, base, m)
}

/// The `Handle` at `site` of definition `definition_id` gets inlined: every case is
/// tail-resumptive ([case_tail_resumptive]), its body resolves to a definition that passes
/// [body_checks] and, where that definition is a closure, is packed with an environment, the
/// site [site_fits], and the ids are available.
pub open spec fn rewrite_possible(mir: Mir, definition_id: DefinitionId, site: HandleSite) -> bool {
    let d = mir.definitions@[definition_id];
    &&& mir.definitions@.contains_key(definition_id)
    &&& forall|k: int| 0 <= k < site.cases@.len() ==> case_tail_resumptive(mir, d, #[trigger] site.cases@[k])
    &&& body_resolution(d, site.body) matches Some((body_id, env, _))
    &&& mir.definitions@.contains_key(body_id)
    &&& body_checks(mir.definitions@[body_id])
    &&& (spec_is_closure(mir.definitions@[body_id].typ->Function_0@) ==> env is Some)
    &&& site_fits(d, site, mir.definitions@[body_id], site.cases@.len())
    &&& ids_available(mir, site.cases@.len())
}

/// What [plan_rewrite] finds: the cases, the body's definition, environment and bindings, and
/// the first fresh id.
pub open spec fn plan_facts(
    mir: Mir,
    definition_id: DefinitionId,
    site: HandleSite,
    cases: Seq<CaseDecision>,
    body_id: DefinitionId,
    body_env: Option<Value>,
    body_bindings: Option<Arc<GenericBindings>>,
    base: DefinitionId,
) -> bool {
    let d = mir.definitions@[definition_id];
    &&& rewrite_possible(mir, definition_id, site)
    &&& cases.len() == site.cases@.len()
    &&& forall|k: int| 0 <= k < cases.len() ==> case_decided(mir, d, site.cases@[k], #[trigger] cases[k])
    &&& body_resolution(d, site.body) == Some((body_id, body_env, body_bindings))
    &&& fresh_base(mir, base, cases.len())
}

/// Find out whether the `Handle` at `site` gets inlined ([rewrite_possible]), and if so what the
/// rewrite needs ([plan_facts]).
pub fn plan_rewrite(mir: &Mir, definition_id: DefinitionId, site: &HandleSite) -> (r: Option<
    (Vec<CaseDecision>, DefinitionId, Option<Value>, Option<Arc<GenericBindings>>, DefinitionId),
>)
    ensures
        r is Some <==> rewrite_possible(*mir, definition_id, *site),
        r matches Some(p) ==> plan_facts(*mir, definition_id, *site, p.0@, p.1, p.2, p.3, p.4),
{
    let cases = match analyze_handle(mir, definition_id, site) {
        Some(cases) => cases,
        None => return None,
    };
    let definition = fx_map_get(&mir.definitions, definition_id).unwrap();
    let ghost d = *definition;
    let body_in_bounds = match site.body {
        Value::InstructionResult(iid) => (iid.0 as usize) < definition.instructions.len(),
        _ => true,
    };
    if !body_in_bounds {
        return None;
    }
    let mut function = site.body;
    if let Value::InstructionResult(instruction) = site.body {
        if let Instruction::PackClosure { function: f, environment: _ } = &definition.instructions[instruction.0 as usize] {
            function = *f;
        }
    }
    if !ids_resolve_check(function, definition) {
        return None;
    }
    if crate::mir::effects::lowering::resolve_id(function, definition).is_none() {
        return None;
    }
    let (body_id, body_env, body_bindings) = resolve_body_function(site.body, definition);
    let body_def = match fx_map_get(&mir.definitions, body_id) {
        Some(b) => b,
        None => return None,
    };
    let field_count: usize = match &body_def.typ {
        Type::Function(ft) => match &ft.environment {
            Type::Tuple(fields) => fields.len(),
            _ => 0,
        },
        _ => return None,
    };
    let is_closure_body = match &body_def.typ {
        Type::Function(ft) => ft.is_closure(),
        _ => false,
    };
    let body_ok = body_def.blocks.len() > 0 && body_def.instructions.len() == body_def.instruction_result_types.len()
        && body_def.blocks[0].parameter_types.len() < 0xffff_ffff && field_count < 0xffff_ffff && (!is_closure_body
        || body_def.blocks[0].parameter_types.len() > 0) && (!is_closure_body || body_env.is_some());
    if !body_ok {
        return None;
    }
    let n = definition.instructions.len();
    let m = cases.len();
    let site_ok = (site.block.0 as usize) < definition.blocks.len() && site.index
        < definition.blocks[site.block.0 as usize].instructions.len() && (site.id.0 as usize) < n && n
        == definition.instruction_result_types.len();
    if !site_ok {
        return None;
    }
    if m > 0xffff_ffff || n >= 0xffff_ffff {
        return None;
    }
    if (n as u64) + 3 * (m as u64) + (field_count as u64) + 4 >= 0xffff_ffff {
        return None;
    }
    let keys = fx_map_keys(&mir.definitions);
    if keys.len() > 0xffff_ffff {
        proof {
            broadcast use vstd::seq_lib::seq_to_set_is_finite;
            keys@.unique_seq_to_set();
            assert forall|b: DefinitionId| !fresh_base(*mir, b, m as nat) by {}
        }
        return None;
    }
    proof {
        broadcast use vstd::seq_lib::seq_to_set_is_finite;
        keys@.unique_seq_to_set();
    }
    let base = match mir.next_free_id() {
        Some(base) => base,
        None => {
            proof {
                assert forall|b: DefinitionId| !fresh_base(*mir, b, m as nat) by {
                    if fresh_base(*mir, b, m as nat) {
                        assert(mentions(*mir, DefinitionId(u32::MAX)));
                    }
                }
            }
            return None;
        },
    };
    if (base.0 as u64) + 2 * (m as u64) + (keys.len() as u64) > 0xffff_ffff {
        proof {
            assert forall|b: DefinitionId| !fresh_base(*mir, b, m as nat) by {
                if fresh_base(*mir, b, m as nat) {
                    assert(b.0 == base.0) by {
                        if b.0 < base.0 {
                            assert(mentions(*mir, DefinitionId((base.0 - 1) as u32)));
                        } else if b.0 > base.0 {
                            assert(mentions(*mir, DefinitionId((b.0 - 1) as u32)));
                        }
                    }
                }
            }
        }
        return None;
    }
    proof {
        assert(fresh_base(*mir, base, m as nat));
    }
    Some((cases, body_id, body_env, body_bindings, base))
}

/// Carry out the rewrite that [plan_rewrite] planned ([tail_resume_rewrite]).
#[verifier::rlimit(100)]
fn apply_rewrite(
    mir: &mut Mir,
    definition_id: DefinitionId,
    site: HandleSite,
    cases: Vec<CaseDecision>,
    body_id: DefinitionId,
    body_env: Option<Value>,
    body_bindings: Option<Arc<GenericBindings>>,
    base: DefinitionId,
    dead_bodies: &mut FxHashSet<DefinitionId>,
) -> (r: Vec<DefinitionId>)
    requires
        plan_facts(*old(mir), definition_id, site, cases@, body_id, body_env, body_bindings, base),
    ensures
        r@.len() > 0,
        tail_resume_rewrite(*old(mir), *final(mir), definition_id, site, cases@, body_id, body_env, body_bindings, base, r@),
        final(dead_bodies)@ == old(dead_bodies)@.insert(body_id),
{
    let ghost old_mir = *mir;
    let ghost d0 = old_mir.definitions@[definition_id];
    let ghost b0 = old_mir.definitions@[body_id];
    let m = cases.len();
    proof {
        assert forall|k: int| 0 <= k < cases@.len() implies old_mir.definitions@.contains_key((#[trigger] cases@[k]).handler_def_id)
            && wrappable_handler(old_mir.definitions@[cases@[k].handler_def_id], cases@[k].shape) by {
            lemma_decided_handler(old_mir, d0, site.cases@[k], cases@[k]);
        }
        assert forall|id: DefinitionId| old_mir.definitions@.contains_key(id) implies id.0 < base.0 by {
            assert(mentions(old_mir, id));
        }
    }

    // Each case's effect operation keeps its position for effect lowering.
    preserve_op_indices(&mut mir.preserved_op_indices, &site.cases);
    // A direct wrapper per case.
    let wrapper_types = insert_wrappers(mir, &cases, base);
    let ghost defs1 = mir.definitions@;
    let clone_base = DefinitionId(base.0 + m as u32);
    proof {
        lemma_dom_growth(old_mir.definitions@, defs1, base, m as nat);
        assert forall|k: DefinitionId| defs1.contains_key(k) implies k.0 < clone_base.0 by {
            if old_mir.definitions@.contains_key(k) {
                assert(mentions(old_mir, k));
            }
        }
    }
    let cap_tuple_type = Type::tuple(clone_types(&wrapper_types));
    // Clone the body with the definitions it owns, its clone's environment extended by the cap.
    let (clone_id, layout, created) = clone_body_with_extended_env(mir, body_id, &cap_tuple_type, clone_base);
    let ghost defs2 = mir.definitions@;
    let ghost (mid, pairs) = choose|mid: Map<DefinitionId, Definition>, pairs: Seq<(DefinitionId, DefinitionId)>|
        {
            &&& subtree_cloned(defs1, mid, body_id, clone_base, pairs)
            &&& defs2 == mid.insert(clone_base, defs2[clone_base])
            &&& env_extended(mid[clone_base], defs2[clone_base], cap_tuple_type, layout)
            &&& created@ == pairs.map_values(|p: (DefinitionId, DefinitionId)| p.1)
        };
    let ghost extended = defs2[clone_base];
    fx_id_set_insert(dead_bodies, body_id);
    // The original body is dead now; neutralize its capabilities.
    let mut original = take_definition(mir, body_id);
    neutralize_handler_caps_in_dead_body(&mut original);
    let ghost neutralized = original;
    fx_map_insert(&mut mir.definitions, body_id, original);
    let ghost defs3 = mir.definitions@;
    assert(defs3 == defs2.insert(body_id, neutralized));
    // The clone reads its capability from its environment.
    let mut clone = take_definition(mir, clone_id);
    proof {
        assert(pairs[0].0 == body_id);
        assert(pairs[0].1 == clone_base);
        assert(crate::mir::effects::body_clone::block_copied(defs1[body_id].blocks@[0], mid[clone_base].blocks@[0], pairs));
    }
    rewrite_handler_caps_in_body(&mut clone, &layout, &cap_tuple_type);
    let ghost rewritten = clone;
    let body_fn_type = clone.typ.clone();
    fx_map_insert(&mut mir.definitions, clone_id, clone);
    let ghost defs4 = mir.definitions@;
    assert(defs4 == defs3.insert(clone_id, rewritten));
    // Replace the handle by a call of the clone.
    let mut outer = take_definition(mir, definition_id);
    let mut wrapper_ids: Vec<DefinitionId> = Vec::new();
    let mut k: usize = 0;
    while k < m
        invariant
            0 <= k <= m,
            m == cases@.len(),
            base.0 + m <= u32::MAX,
            wrapper_ids@ == Seq::new(k as nat, |j: int| nth_id(base, j)),
        decreases m - k,
    {
        wrapper_ids.push(DefinitionId(base.0 + k as u32));
        k = k + 1;
        proof {
            assert(wrapper_ids@ =~= Seq::new(k as nat, |j: int| nth_id(base, j)));
        }
    }
    let body = PreparedBody { fn_id: clone_id, env_value: body_env, bindings: body_bindings, layout };
    let ghost spec_body = body;
    replace_handle(&mut outer, &site, &wrapper_ids, &wrapper_types, &cases, body, body_fn_type, &cap_tuple_type);
    fx_map_insert(&mut mir.definitions, definition_id, outer);
    proof {
        assert(mir.definitions@ == defs4.insert(definition_id, mir.definitions@[definition_id]));
        assert(pairs.len() > 0);
        assert(wrappers_added(old_mir.definitions@, defs1, cases@, base));
        assert(forall|k: int| 0 <= k < m ==> #[trigger] wrapper_types@[k] == defs1[Seq::new(m as nat, |j: int| nth_id(base, j))[k]].typ);
        assert(cap_tuple_type@ == cap_tuple_view(wrapper_types@));
        assert(subtree_cloned(defs1, mid, body_id, clone_base, pairs));
        assert(env_extended(mid[clone_base], extended, cap_tuple_type, spec_body.layout));
        assert(caps_neutralized(mid.insert(clone_base, extended)[body_id], neutralized));
        assert(caps_rewritten(mid.insert(clone_base, extended).insert(body_id, neutralized)[clone_base], rewritten, spec_body.layout, cap_tuple_type));
        assert(defs4.contains_key(definition_id));
        assert(clone_id == nth_id(base, m as int));
        assert(wrapper_ids@ == Seq::new(cases@.len(), |k: int| nth_id(base, k as int)));
        assert(body_fn_type@ == rewritten.typ@);
        assert(spec_body == PreparedBody { fn_id: nth_id(base, m as int), env_value: body_env, bindings: body_bindings, layout: spec_body.layout });
        assert(handle_replaced(
            defs4[definition_id],
            mir.definitions@[definition_id],
            site,
            replacement_code(
                cases@,
                Seq::new(cases@.len(), |k: int| nth_id(base, k as int)),
                wrapper_types@,
                PreparedBody { fn_id: nth_id(base, m as int), env_value: body_env, bindings: body_bindings, layout: spec_body.layout },
                rewritten.typ@,
                cap_tuple_type@,
                defs4[definition_id].instructions@.len(),
            ).0,
            replacement_code(
                cases@,
                Seq::new(cases@.len(), |k: int| nth_id(base, k as int)),
                wrapper_types@,
                PreparedBody { fn_id: nth_id(base, m as int), env_value: body_env, bindings: body_bindings, layout: spec_body.layout },
                rewritten.typ@,
                cap_tuple_type@,
                defs4[definition_id].instructions@.len(),
            ).1,
        ));
        assert(rewrite_steps(
            old_mir,
            *mir,
            definition_id,
            site,
            cases@,
            body_id,
            body_env,
            body_bindings,
            base,
            created@,
            defs1,
            mid,
            pairs,
            extended,
            spec_body.layout,
            wrapper_types@,
            cap_tuple_type,
            neutralized,
            rewritten,
        ));
    }
    created
}

/// One step of the optimization at the `Handle` at `site` of definition `definition_id`: where
/// [rewrite_possible], the handle is inlined ([tail_resume_rewrite]) with what [plan_facts]
/// finds, the ids of the body clones are `created` and the original body joins the dead
/// bodies; otherwise nothing changes and nothing is created.
pub open spec fn handle_step(
    before: Mir,
    after: Mir,
    definition_id: DefinitionId,
    site: HandleSite,
    created: Seq<DefinitionId>,
    dead_before: Set<DefinitionId>,
    dead_after: Set<DefinitionId>,
) -> bool {
    if rewrite_possible(before, definition_id, site) {
        &&& created.len() > 0
        &&& exists|
            cases: Seq<CaseDecision>,
            body_id: DefinitionId,
            body_env: Option<Value>,
            body_bindings: Option<Arc<GenericBindings>>,
            base: DefinitionId,
        |
            {
                &&& #[trigger] plan_facts(before, definition_id, site, cases, body_id, body_env, body_bindings, base)
                &&& tail_resume_rewrite(before, after, definition_id, site, cases, body_id, body_env, body_bindings, base, created)
                &&& dead_after == dead_before.insert(body_id)
            }
    } else {
        &&& created.len() == 0
        &&& after == before
        &&& dead_after == dead_before
    }
}

/// Inline the `Handle` at `site` of definition `definition_id` where that is possible, and
/// return the ids of the body clones it creates so that their own handles are optimized too;
/// the original body is recorded in `dead_bodies` ([handle_step]).
pub fn try_optimize_handle(
    mir: &mut Mir,
    definition_id: DefinitionId,
    site: HandleSite,
    dead_bodies: &mut FxHashSet<DefinitionId>,
) -> (r: Vec<DefinitionId>)
    ensures
        handle_step(*old(mir), *final(mir), definition_id, site, r@, old(dead_bodies)@, final(dead_bodies)@),
{
    let ghost old_mir = *mir;
    match plan_rewrite(mir, definition_id, &site) {
        Some((cases, body_id, body_env, body_bindings, base)) => {
            let ghost spec_cases = cases@;
            let r = apply_rewrite(mir, definition_id, site, cases, body_id, body_env, body_bindings, base, dead_bodies);
            proof {
                assert(plan_facts(old_mir, definition_id, site, spec_cases, body_id, body_env, body_bindings, base));
            }
            r
        },
        None => Vec::new(),
    }
}

/// A definition map that gains only ids in `base..base + m` grows by at most `m`.
pub proof fn lemma_dom_growth(before: Map<DefinitionId, Definition>, after: Map<DefinitionId, Definition>, base: DefinitionId, m: nat)
    requires
        before.dom().finite(),
        forall|id: DefinitionId| #[trigger] after.contains_key(id) ==> before.contains_key(id) || (base.0 <= id.0 < base.0 + m),
    ensures
        after.dom().finite(),
        after.dom().len() <= before.dom().len() + m,
{
    let fresh = Seq::new(m, |k: int| nth_id(base, k as int));
    assert forall|id: DefinitionId| after.dom().contains(id) implies before.dom().union(fresh.to_set()).contains(id) by {
        if !before.contains_key(id) {
            let k = id.0 - base.0;
            assert(fresh[k] == id);
            assert(fresh.contains(id));
        }
    }
    broadcast use vstd::seq_lib::seq_to_set_is_finite;
    fresh.lemma_cardinality_of_set();
    vstd::set_lib::lemma_len_union(before.dom(), fresh.to_set());
    vstd::set_lib::lemma_len_subset(after.dom(), before.dom().union(fresh.to_set()));
}

/// What a decided case tells of its handler: it is a definition of the program that
/// [direct_wrapper] can wrap with the case's shape.
proof fn lemma_decided_handler(mir: Mir, d: Definition, case: HandlerCase, dec: CaseDecision)
    requires
        case_decided(mir, d, case, dec),
    ensures
        mir.definitions@.contains_key(dec.handler_def_id),
        wrappable_handler(mir.definitions@[dec.handler_def_id], dec.shape),
        dec.shape.op_arg_types@.len() == handler_arity(spec_type_of_value(d, case.handler, mir.externals@, mir.definitions@)->0),
{
    let t = spec_type_of_value(d, case.handler, mir.externals@, mir.definitions@)->0;
    let ty = choose|ty: Type| ty@ == t && is_handler_type(ty) && #[trigger] shape_of(ty, dec.shape);
    lemma_handler_type_view(ty);
}

/// Takes the definition `id`, which must exist, out of the program.
pub fn take_definition(mir: &mut Mir, id: DefinitionId) -> (r: Definition)
    requires
        old(mir).definitions@.contains_key(id),
    ensures
        r == old(mir).definitions@[id],
        final(mir).definitions@ == old(mir).definitions@.remove(id),
        final(mir).externals == old(mir).externals,
        final(mir).preserved_op_indices == old(mir).preserved_op_indices,
{
    fx_map_remove(&mut mir.definitions, id).unwrap()
}
} // verus!
