//! Lowering a `handle` into coroutine primitives: the body runs in a coroutine created with
//! `mco_coro_init`, its capability is read back from the coroutine's user data, and a drive
//! function resumes it and dispatches each operation it performs to its handler.
use crate::fx::{DefinitionMap, fx_map_get, fx_map_insert};
use crate::mir::definition::{Definition, Extern, spec_type_of_value, value_in_bounds};
use crate::mir::effects::abort::wrapper_type_view;
use crate::mir::effects::coroutine_wrappers::{
    body_wrapper_code, cap_wrapper_code, generate_body_wrapper, generate_capability_wrapper, is_body_wrapper,
    is_capability_wrapper,
};
use crate::mir::effects::handle_sizes::{
    body_wrapper_len, cap_wrapper_len_v, drive_len_v, forward_len, handler_args, handler_ret, lemma_body_wrapper_len,
    lemma_cap_wrapper_len, lemma_drive_len, lemma_drive_len_v, lemma_resume_len, resume_len, shapes_match,
};
use crate::mir::effects::tail_resume_pass::{is_handler_view, lemma_handler_type_view, nth_id};
use crate::mir::effects::channel::result;
use crate::mir::effects::drive::{
    coro_fns_typed, drive_layout, drive_type, forward_value_code, generate_drive_function, is_drive_function,
    is_resume_function, resume_code, results_from,
};
use crate::mir::effects::lowering::{
    AminicoroFns, CaseShape, EmitTarget, Emitter, HandleSite, case_shape_from_handler_type, emitted, extern_call_code,
    ids_resolve, is_handle, is_handler_type, lemma_emitted_nothing, lemma_emitted_then, pointer_view, resolve_body_function,
    room_for, shape_of, sites_in_block, sites_in_blocks, sites_well_formed, spec_ptr_fn, spec_resolve_id, spec_unpack,
    unpack_in_bounds,
};
use crate::mir::effects::site_rewrite::{
    lemma_place_kept, lemma_site_replaced, lemma_sites_in_blocks, place_valid, site_replaced, splice_ordered,
    value_types, values_typed,
};
use crate::mir::effects::tail_resume_pass::{splice_block, take_definition};
use crate::mir::instruction::{GenericBindings, HandlerCase, Instruction, InstructionView};
use crate::mir::program::Mir;
use crate::mir::types::{PrimitiveType, Type, TypeView, lemma_types_view, spec_is_closure, types_view};
use crate::mir::values::{BlockId, DefinitionId, InstructionId, IntConstant, Value};
use std::sync::Arc;
use vstd::prelude::*;

verus! {

broadcast use lemma_types_view;

pub open spec fn is_capability(i: Instruction) -> bool {
    i is Capability
}

/// The places of the `Capability` instructions of `d`, in the order they are rewritten.
pub open spec fn capability_places(d: Definition) -> Seq<(BlockId, usize, InstructionId)> {
    sites_in_blocks(d, d.blocks@.len() as int, |i: Instruction| is_capability(i))
}

/// The places of every `Capability` of the definition (see [capability_places]).
pub fn collect_capability_places(definition: &Definition) -> (r: Vec<(BlockId, usize, InstructionId)>)
    requires
        sites_well_formed(*definition),
    ensures
        r@ == capability_places(*definition),
{
    let ghost is_site = |i: Instruction| is_capability(i);
    let ghost d = *definition;
    let mut places: Vec<(BlockId, usize, InstructionId)> = Vec::new();
    let mut b: usize = 0;
    while b < definition.blocks.len()
        invariant
            0 <= b <= d.blocks@.len(),
            *definition == d,
            sites_well_formed(d),
            is_site == (|i: Instruction| is_capability(i)),
            places@ == sites_in_blocks(d, b as int, is_site),
        decreases d.blocks@.len() - b,
    {
        let block = &definition.blocks[b];
        let ghost before = places@;
        let mut index: usize = block.instructions.len();
        while index > 0
            invariant
                0 <= index <= block.instructions@.len(),
                b < d.blocks@.len(),
                *block == d.blocks@[b as int],
                *definition == d,
                sites_well_formed(d),
                is_site == (|i: Instruction| is_capability(i)),
                before == sites_in_blocks(d, b as int, is_site),
                places@ == before + sites_in_block(d, b as int, index as int, block.instructions@.len() as int, is_site),
            decreases index,
        {
            index = index - 1;
            let id = block.instructions[index];
            assert(id.0 < d.instructions@.len());
            if let Instruction::Capability = &definition.instructions[id.0 as usize] {
                places.push((BlockId(b as u32), index, id));
            }
            proof {
                assert(places@ =~= before + sites_in_block(d, b as int, index as int, block.instructions@.len() as int, is_site));
            }
        }
        proof {
            assert(sites_in_blocks(d, b + 1, is_site) == sites_in_blocks(d, b as int, is_site) + sites_in_block(
                d,
                b as int,
                0,
                block.instructions@.len() as int,
                is_site,
            ));
        }
        b = b + 1;
    }
    places
}

/// What a `Capability` of type `cap_type` becomes when the definition has `n` instructions:
/// the running coroutine, its user data, the `(cap, env)` pair read through it, and, under the
/// capability's own id, the pair's first field.
pub open spec fn capability_replacement(mco: AminicoroFns, n: nat, cap_type: TypeView, env_type: TypeView) -> (Seq<
    (InstructionView, TypeView),
>, (InstructionView, TypeView)) {
    (
        extern_call_code(mco.running.name@, mco.running.typ@, seq![], n) + extern_call_code(
            mco.get_user_data.name@,
            mco.get_user_data.typ@,
            seq![result(n + 1)],
            n + 2,
        ) + seq![(InstructionView::Deref(result(n + 3)), TypeView::Tuple(seq![cap_type, env_type]))],
        (InstructionView::IndexTuple { tuple: result(n + 4), index: 0 }, cap_type),
    )
}

/// Step `k` of a trace: `ds[k + 1]` is `ds[k]` with the `Capability` at `places[k]` replaced.
pub open spec fn capability_step_at(
    ds: Seq<Definition>,
    places: Seq<(BlockId, usize, InstructionId)>,
    k: int,
    mco: AminicoroFns,
    env_type: TypeView,
) -> bool {
    let p = places[k];
    let (before, reused) = capability_replacement(
        mco,
        ds[k].instructions@.len(),
        ds[k].instruction_result_types@[p.2.0 as int]@,
        env_type,
    );
    site_replaced(ds[k], ds[k + 1], p.0, p.1, p.2, before, reused, seq![])
}

/// `d` is `d0` with each `Capability` of `d0` replaced in turn, through the definitions `ds`.
pub open spec fn capability_trace(
    d0: Definition,
    d: Definition,
    ds: Seq<Definition>,
    mco: AminicoroFns,
    env_type: TypeView,
) -> bool {
    let places = capability_places(d0);
    &&& ds.len() == places.len() + 1
    &&& ds[0] == d0
    &&& ds.last() == d
    &&& forall|k: int| 0 <= k < places.len() ==> #[trigger] capability_step_at(ds, places, k, mco, env_type)
}

/// The body `d` can have its capabilities expanded: its sites can be collected and it can take
/// the new instructions.
pub open spec fn capabilities_expandable(d: Definition) -> bool {
    &&& sites_well_formed(d)
    &&& d.instructions@.len() + 5 * capability_places(d).len() + 1 < u32::MAX
}

/// Replace each `Capability` within `body_fn_id`'s blocks with the chain that recovers the
/// capability from the running coroutine's user_data:
///
/// ```text
/// coro        = mco_coro_running()
/// user_data   = mco_coro_get_user_data(coro)
/// cap_and_env = Deref(user_data)              // (cap, env)
/// cap         = IndexTuple(cap_and_env, 0)    // reuses the Capability's instruction id
/// ```
///
/// The Capability's existing instruction id is reused for the final `IndexTuple` so any
/// downstream consumer of its result Value continues to work without rewriting (see
/// [capability_trace]). Nothing happens where there is no such definition.
pub fn expand_handler_caps_in_body(mir: &mut Mir, body_fn_id: DefinitionId, env_type: &Type, mco: &AminicoroFns)
    requires
        coro_fns_typed(*mco),
        old(mir).definitions@.contains_key(body_fn_id) ==> capabilities_expandable(old(mir).definitions@[body_fn_id]),
    ensures
        final(mir).externals == old(mir).externals,
        final(mir).preserved_op_indices == old(mir).preserved_op_indices,
        final(mir).definitions@.dom() == old(mir).definitions@.dom(),
        forall|id: DefinitionId| id != body_fn_id ==> #[trigger] final(mir).definitions@.get(id) == old(mir).definitions@.get(id),
        old(mir).definitions@.contains_key(body_fn_id) ==> exists|ds: Seq<Definition>|
            #[trigger] capability_trace(
                old(mir).definitions@[body_fn_id],
                final(mir).definitions@[body_fn_id],
                ds,
                *mco,
                env_type@,
            ),
{
    if fx_map_get(&mir.definitions, body_fn_id).is_none() {
        return;
    }
    let ghost m0 = *mir;
    let mut body = take_definition(mir, body_fn_id);
    let ghost d0 = body;
    let places = collect_capability_places(&body);
    let ghost places0 = places@;
    let ghost mut ds: Seq<Definition> = seq![d0];
    proof {
        lemma_sites_in_blocks(d0, d0.blocks@.len() as int, |i: Instruction| is_capability(i));
    }
    let n = places.len();
    let mut k: usize = 0;
    while k < n
        invariant
            0 <= k <= n,
            n == places0.len(),
            places@ == places0,
            places0 == capability_places(d0),
            coro_fns_typed(*mco),
            capabilities_expandable(d0),
            forall|j: int| 0 <= j < places0.len() ==> #[trigger] place_valid(d0, places0[j]),
            splice_ordered(places0),
            ds.len() == k + 1,
            ds[0] == d0,
            ds.last() == body,
            body.instructions@.len() == d0.instructions@.len() + 5 * k,
            body.instruction_result_types@.len() == body.instructions@.len(),
            body.blocks@.len() == d0.blocks@.len(),
            forall|j: int| k <= j < n ==> #[trigger] place_valid(body, places0[j]),
            forall|j: int| 0 <= j < k ==> #[trigger] capability_step_at(ds, places0, j, *mco, env_type@),
        decreases n - k,
    {
        let ghost dk = body;
        let (block, index, id) = places[k];
        proof {
            assert(place_valid(d0, places0[k as int]));
            assert(place_valid(dk, places0[k as int]));
            assert(places0[k as int] == (block, index, id));
            assert(d0.blocks@[block.0 as int].instructions@[index as int].0 < d0.instructions@.len());
        }
        let cap_type = body.instruction_result_types[id.0 as usize].clone();
        let mut pair: Vec<Type> = Vec::new();
        pair.push(cap_type.clone());
        pair.push(env_type.clone());
        proof {
            assert(types_view(pair@) =~= seq![cap_type@, env_type@]);
        }
        let ghost nk = dk.instructions@.len();
        let mut emitter = Emitter::pending();
        let ghost e0 = emitter;
        let coro = emitter.call_extern(&mut body, &mco.running, Vec::new());
        let ghost e1 = emitter;
        let ghost d1 = body;
        let args = vec![coro];
        assert(args@ =~= seq![result(nk + 1)]);
        let user_data = emitter.call_extern(&mut body, &mco.get_user_data, args);
        let ghost e2 = emitter;
        let ghost d2 = body;
        let cap_and_env = emitter.push_instruction(&mut body, Instruction::Deref(user_data), Type::tuple(pair));
        let ghost e3 = emitter;
        let ghost d3 = body;
        let ghost replacement = capability_replacement(*mco, nk, cap_type@, env_type@);
        proof {
            let c1 = extern_call_code(mco.running.name@, mco.running.typ@, seq![], nk);
            let c2 = extern_call_code(mco.get_user_data.name@, mco.get_user_data.typ@, seq![result(nk + 1)], nk + 2);
            let c3 = seq![(InstructionView::Deref(result(nk + 3)), TypeView::Tuple(seq![cap_type@, env_type@]))];
            assert(Seq::<Value>::empty() =~= seq![]);
            lemma_emitted_then(e0, dk, e1, d1, e2, d2, c1, c2);
            lemma_emitted_then(e0, dk, e2, d2, e3, d3, c1 + c2, c3);
            assert(c1 + c2 + c3 == replacement.0);
        }
        let ghost cap_copy = cap_type;
        let index_tuple = Instruction::IndexTuple { tuple: cap_and_env, index: 0 };
        let ghost reused_instruction = index_tuple;
        emitter.reuse_instruction(&mut body, id, index_tuple, cap_type);
        let ghost e4 = emitter;
        let ghost d4 = body;
        proof {
            lemma_emitted_nothing(e4, d4);
        }
        let pending = emitter.pending;
        splice_block(&mut body, block, index, &pending);
        proof {
            lemma_site_replaced(
                e0,
                dk,
                e3,
                d3,
                e4,
                d4,
                e4,
                d4,
                body,
                block,
                index,
                id,
                replacement.0,
                reused_instruction,
                cap_copy,
                seq![],
            );
            let old_ds = ds;
            ds = ds.push(body);
            assert(capability_step_at(ds, places0, k as int, *mco, env_type@));
            assert forall|j: int| 0 <= j < k + 1 implies #[trigger] capability_step_at(ds, places0, j, *mco, env_type@) by {
                if j < k {
                    assert(capability_step_at(old_ds, places0, j, *mco, env_type@));
                    assert(ds[j] == old_ds[j]);
                    assert(ds[j + 1] == old_ds[j + 1]);
                }
            }
            assert forall|j: int| k + 1 <= j < n implies #[trigger] place_valid(body, places0[j]) by {
                assert(place_valid(dk, places0[j]));
                lemma_place_kept(dk, body, block, index, id, replacement.0, replacement.1, seq![], places0[j]);
            }
        }
        k = k + 1;
    }
    fx_map_insert(&mut mir.definitions, body_fn_id, body);
    proof {
        assert(capability_trace(d0, mir.definitions@[body_fn_id], ds, *mco, env_type@));
        assert(mir.definitions@.dom() =~= m0.definitions@.dom());
    }
}

/// The capability closures: a `PackClosure` of each wrapper over `environment`, of the
/// wrapper's type.
pub open spec fn cap_closures_code(wrapper_ids: Seq<DefinitionId>, wrapper_types: Seq<TypeView>, environment: Value) -> Seq<
    (InstructionView, TypeView),
> {
    Seq::new(
        wrapper_ids.len(),
        |i: int| (InstructionView::PackClosure { function: Value::Definition(wrapper_ids[i]), environment }, wrapper_types[i]),
    )
}

/// The capability state of a lowered `handle` when its definition has `n` instructions: a
/// pointer slot holding a null coroutine for the wrappers to share (its address is
/// `result(n + 2)`), the capability closures over it, their tuple, and the `(cap, env)` pair in
/// a stack slot (whose address is the last result).
pub open spec fn cap_setup_code(
    n: nat,
    wrapper_ids: Seq<DefinitionId>,
    wrapper_types: Seq<TypeView>,
    env_value: Value,
    env_type: TypeView,
) -> Seq<(InstructionView, TypeView)> {
    let nw = wrapper_ids.len();
    let m = n + 3 + nw;
    let cap_tuple_type = TypeView::Tuple(wrapper_types);
    seq![
        (InstructionView::Transmute(Value::Integer(IntConstant::Usz(0))), pointer_view()),
        (InstructionView::MakeTuple(seq![result(n)]), TypeView::Tuple(seq![pointer_view()])),
        (InstructionView::StackAlloc(result(n + 1)), pointer_view()),
    ] + cap_closures_code(wrapper_ids, wrapper_types, result(n + 2)) + seq![
        (InstructionView::MakeTuple(results_from(n + 3, nw)), cap_tuple_type),
        (InstructionView::MakeTuple(seq![result(m), env_value]), TypeView::Tuple(seq![cap_tuple_type, env_type])),
        (InstructionView::StackAlloc(result(m + 1)), pointer_view()),
    ]
}

/// The start of the coroutine when the definition has `n` instructions, and the coroutine and
/// the drive's value: the body wrapper as a pointer, `mco_coro_init` over it with the
/// `(cap, env)` pair as user data, the capability state patched to hold the coroutine, and the
/// drive's value.
pub open spec fn coro_start_code(
    mco: AminicoroFns,
    n: nat,
    cap_state: Value,
    cap_and_env: Value,
    body_wrapper_id: DefinitionId,
    body_wrapper_typ: TypeView,
    drive_id: DefinitionId,
    drive_typ: TypeView,
    generic_count: u32,
) -> (Seq<(InstructionView, TypeView)>, Value, Value) {
    let (c4, body_wrapper_value) = forward_value_code(body_wrapper_id, body_wrapper_typ, generic_count, n);
    let m4 = n + c4.len();
    let c5 = seq![(InstructionView::Transmute(body_wrapper_value), pointer_view())];
    let c6 = extern_call_code(mco.init.name@, mco.init.typ@, seq![result(m4), cap_and_env], m4 + 1);
    let coro = result(m4 + 2);
    let c7 = seq![
        (InstructionView::MakeTuple(seq![coro]), TypeView::Tuple(seq![pointer_view()])),
        (InstructionView::Store { pointer: cap_state, value: result(m4 + 3) }, TypeView::Primitive(PrimitiveType::Unit)),
    ];
    let (c8, drive_value) = forward_value_code(drive_id, drive_typ, generic_count, m4 + 5);
    (c4 + c5 + c6 + c7 + c8, coro, drive_value)
}

/// What the `handle` becomes at its site when its definition has `n` instructions: before the
/// reused id, the capability state ([cap_setup_code]) and the coroutine's start
/// ([coro_start_code]); under the handle's own id, the drive's call with the coroutine and the
/// handlers; after it, the coroutine freed.
pub open spec fn handle_site_code(
    mco: AminicoroFns,
    n: nat,
    wrapper_ids: Seq<DefinitionId>,
    wrapper_types: Seq<TypeView>,
    env: Option<Value>,
    env_type: TypeView,
    body_wrapper_id: DefinitionId,
    body_wrapper_typ: TypeView,
    drive_id: DefinitionId,
    drive_typ: TypeView,
    handlers: Seq<Value>,
    result_type: TypeView,
    generic_count: u32,
) -> (Seq<(InstructionView, TypeView)>, (InstructionView, TypeView), Seq<(InstructionView, TypeView)>) {
    let env_value = match env {
        Some(e) => e,
        None => Value::Unit,
    };
    let setup = cap_setup_code(n, wrapper_ids, wrapper_types, env_value, env_type);
    let (start, coro, drive_value) = coro_start_code(
        mco,
        n + setup.len(),
        result(n + 2),
        result(n + 5 + wrapper_ids.len()),
        body_wrapper_id,
        body_wrapper_typ,
        drive_id,
        drive_typ,
        generic_count,
    );
    let before = setup + start;
    (
        before,
        (InstructionView::Call { function: drive_value, arguments: seq![coro] + handlers }, result_type),
        extern_call_code(mco.free.name@, mco.free.typ@, seq![coro], n + before.len()),
    )
}

/// Emits the capability closures (see [cap_closures_code]) and returns their results.
fn emit_cap_closures(
    e: &mut Emitter,
    definition: &mut Definition,
    wrapper_ids: &Vec<DefinitionId>,
    wrapper_types: &Vec<Type>,
    environment: Value,
) -> (r: Vec<Value>)
    requires
        wrapper_ids@.len() == wrapper_types@.len(),
        room_for(*old(e), *old(definition), wrapper_ids@.len()),
    ensures
        r@ == results_from(old(definition).instructions@.len(), wrapper_ids@.len()),
        emitted(
            *old(e),
            *old(definition),
            *final(e),
            *final(definition),
            cap_closures_code(wrapper_ids@, types_view(wrapper_types@), environment),
        ),
{
    let ghost e0 = *e;
    let ghost d0 = *definition;
    let ghost n = d0.instructions@.len();
    let ghost views = types_view(wrapper_types@);
    let mut values: Vec<Value> = Vec::new();
    proof {
        lemma_emitted_nothing(e0, d0);
        assert(cap_closures_code(wrapper_ids@.subrange(0, 0), views, environment) =~= seq![]);
    }
    let mut i: usize = 0;
    while i < wrapper_ids.len()
        invariant
            0 <= i <= wrapper_ids@.len(),
            wrapper_ids@.len() == wrapper_types@.len(),
            views == types_view(wrapper_types@),
            definition.instructions@.len() == n + i,
            room_for(e0, d0, wrapper_ids@.len()),
            d0.instructions@.len() == n,
            e.target == e0.target,
            values@ == results_from(n, i as nat),
            emitted(e0, d0, *e, *definition, cap_closures_code(wrapper_ids@.subrange(0, i as int), views, environment)),
        decreases wrapper_ids@.len() - i,
    {
        let ghost e1 = *e;
        let ghost d1 = *definition;
        let pack = Instruction::PackClosure { function: Value::Definition(wrapper_ids[i]), environment };
        let v = e.push_instruction(definition, pack, wrapper_types[i].clone());
        values.push(v);
        proof {
            let step = seq![
                (
                    InstructionView::PackClosure { function: Value::Definition(wrapper_ids@[i as int]), environment },
                    wrapper_types@[i as int]@,
                ),
            ];
            lemma_emitted_then(e0, d0, e1, d1, *e, *definition, cap_closures_code(wrapper_ids@.subrange(0, i as int), views, environment), step);
            assert(types_view(wrapper_types@).len() == wrapper_types@.len());
            assert(views[i as int] == wrapper_types@[i as int]@);
            assert(cap_closures_code(wrapper_ids@.subrange(0, i as int), views, environment) + step =~= cap_closures_code(
                wrapper_ids@.subrange(0, i + 1),
                views,
                environment,
            ));
        }
        i = i + 1;
        proof {
            assert(values@ =~= results_from(n, i as nat));
        }
    }
    proof {
        assert(wrapper_ids@.subrange(0, i as int) =~= wrapper_ids@);
    }
    values
}

/// Emits the capability state of a lowered `handle` (see [cap_setup_code]) and returns the
/// address of the state's slot and that of the `(cap, env)` pair's.
fn emit_cap_setup(
    e: &mut Emitter,
    definition: &mut Definition,
    wrapper_ids: &Vec<DefinitionId>,
    wrapper_types: &Vec<Type>,
    env_value: Value,
    env_type: &Type,
) -> (r: (Value, Value))
    requires
        wrapper_ids@.len() == wrapper_types@.len(),
        room_for(
            *old(e),
            *old(definition),
            cap_setup_code(old(definition).instructions@.len(), wrapper_ids@, types_view(wrapper_types@), env_value, env_type@).len(),
        ),
    ensures
        r == (
            result(old(definition).instructions@.len() + 2),
            result(old(definition).instructions@.len() + 5 + wrapper_ids@.len()),
        ),
        emitted(
            *old(e),
            *old(definition),
            *final(e),
            *final(definition),
            cap_setup_code(old(definition).instructions@.len(), wrapper_ids@, types_view(wrapper_types@), env_value, env_type@),
        ),
{
    let ghost e0 = *e;
    let ghost d0 = *definition;
    let ghost n = d0.instructions@.len();
    let ghost nw = wrapper_ids@.len();
    let ghost m = n + 3 + nw;
    let ghost views = types_view(wrapper_types@);
    let mut state_fields: Vec<Type> = Vec::new();
    state_fields.push(Type::pointer());
    proof {
        assert(types_view(state_fields@) =~= seq![pointer_view()]);
    }
    let cap_state_type = Type::tuple(state_fields);
    let null_ptr = e.push_instruction(definition, Instruction::Transmute(Value::Integer(IntConstant::Usz(0))), Type::pointer());
    let ghost ea = *e;
    let ghost da = *definition;
    let initial = vec![null_ptr];
    assert(initial@ =~= seq![result(n)]);
    let initial_cap_state = e.push_instruction(definition, Instruction::MakeTuple(initial), cap_state_type);
    let ghost eb = *e;
    let ghost db = *definition;
    let cap_state_ptr = e.push_instruction(definition, Instruction::StackAlloc(initial_cap_state), Type::pointer());
    let ghost e1 = *e;
    let ghost d1 = *definition;
    let cap_closures = emit_cap_closures(e, definition, wrapper_ids, wrapper_types, cap_state_ptr);
    let ghost e2 = *e;
    let ghost d2 = *definition;
    let cap_tuple_type = Type::tuple(crate::mir::types::clone_types(wrapper_types));
    let cap_tuple = e.push_instruction(definition, Instruction::MakeTuple(cap_closures), cap_tuple_type.clone());
    let ghost ec = *e;
    let ghost dc = *definition;
    let mut pair_types: Vec<Type> = Vec::new();
    pair_types.push(cap_tuple_type);
    pair_types.push(env_type.clone());
    proof {
        assert(types_view(pair_types@) =~= seq![TypeView::Tuple(views), env_type@]);
    }
    let pair = vec![cap_tuple, env_value];
    assert(pair@ =~= seq![result(m), env_value]);
    let cap_and_env = e.push_instruction(definition, Instruction::MakeTuple(pair), Type::tuple(pair_types));
    let ghost ed = *e;
    let ghost dd = *definition;
    let cap_and_env_ptr = e.push_instruction(definition, Instruction::StackAlloc(cap_and_env), Type::pointer());
    proof {
        let c1a = seq![(InstructionView::Transmute(Value::Integer(IntConstant::Usz(0))), pointer_view())];
        let c1b = seq![(InstructionView::MakeTuple(seq![result(n)]), TypeView::Tuple(seq![pointer_view()]))];
        let c1c = seq![(InstructionView::StackAlloc(result(n + 1)), pointer_view())];
        let c2 = cap_closures_code(wrapper_ids@, views, result(n + 2));
        let c3a = seq![(InstructionView::MakeTuple(results_from(n + 3, nw)), TypeView::Tuple(views))];
        let c3b = seq![
            (InstructionView::MakeTuple(seq![result(m), env_value]), TypeView::Tuple(seq![TypeView::Tuple(views), env_type@])),
        ];
        let c3c = seq![(InstructionView::StackAlloc(result(m + 1)), pointer_view())];
        lemma_emitted_then(e0, d0, ea, da, eb, db, c1a, c1b);
        lemma_emitted_then(e0, d0, eb, db, e1, d1, c1a + c1b, c1c);
        lemma_emitted_then(e0, d0, e1, d1, e2, d2, c1a + c1b + c1c, c2);
        lemma_emitted_then(e0, d0, e2, d2, ec, dc, c1a + c1b + c1c + c2, c3a);
        lemma_emitted_then(e0, d0, ec, dc, ed, dd, c1a + c1b + c1c + c2 + c3a, c3b);
        lemma_emitted_then(e0, d0, ed, dd, *e, *definition, c1a + c1b + c1c + c2 + c3a + c3b, c3c);
        assert(c1a + c1b + c1c + c2 + c3a + c3b + c3c =~= cap_setup_code(n, wrapper_ids@, views, env_value, env_type@));
    }
    (cap_state_ptr, cap_and_env_ptr)
}

/// Emits the start of the coroutine (see [coro_start_code]) and returns the coroutine and the
/// drive's value.
fn emit_coro_start(
    e: &mut Emitter,
    definition: &mut Definition,
    mco: &AminicoroFns,
    cap_state: Value,
    cap_and_env: Value,
    body_wrapper_id: DefinitionId,
    body_wrapper_typ: Type,
    drive_id: DefinitionId,
    drive_typ: Type,
    generic_count: u32,
) -> (r: (Value, Value))
    requires
        coro_fns_typed(*mco),
        room_for(
            *old(e),
            *old(definition),
            coro_start_code(
                *mco,
                old(definition).instructions@.len(),
                cap_state,
                cap_and_env,
                body_wrapper_id,
                body_wrapper_typ@,
                drive_id,
                drive_typ@,
                generic_count,
            ).0.len(),
        ),
    ensures
        ({
            let (code, coro, drive_value) = coro_start_code(
                *mco,
                old(definition).instructions@.len(),
                cap_state,
                cap_and_env,
                body_wrapper_id,
                body_wrapper_typ@,
                drive_id,
                drive_typ@,
                generic_count,
            );
            &&& r == (coro, drive_value)
            &&& emitted(*old(e), *old(definition), *final(e), *final(definition), code)
        }),
{
    let ghost e0 = *e;
    let ghost d0 = *definition;
    let ghost n = d0.instructions@.len();
    let ghost btyp = body_wrapper_typ@;
    let ghost dtyp = drive_typ@;
    let body_wrapper_value = crate::mir::effects::drive::emit_forward_value(e, definition, body_wrapper_id, body_wrapper_typ, generic_count);
    let ghost e4 = *e;
    let ghost d4 = *definition;
    let ghost m4 = d4.instructions@.len();
    let wrapper_ptr = e.push_instruction(definition, Instruction::Transmute(body_wrapper_value), Type::pointer());
    let ghost e5 = *e;
    let ghost d5 = *definition;
    let init_args = vec![wrapper_ptr, cap_and_env];
    assert(init_args@ =~= seq![result(m4), cap_and_env]);
    let coro = e.call_extern(definition, &mco.init, init_args);
    let ghost e6 = *e;
    let ghost d6 = *definition;
    let mut state_fields: Vec<Type> = Vec::new();
    state_fields.push(Type::pointer());
    proof {
        assert(types_view(state_fields@) =~= seq![pointer_view()]);
    }
    // Patch cap_state to hold the real `coro` now that we have it
    let patched = vec![coro];
    assert(patched@ =~= seq![result(m4 + 2)]);
    let real_cap_state = e.push_instruction(definition, Instruction::MakeTuple(patched), Type::tuple(state_fields));
    let ghost ef = *e;
    let ghost df = *definition;
    e.push_instruction(definition, Instruction::Store { pointer: cap_state, value: real_cap_state }, Type::unit());
    let ghost e7 = *e;
    let ghost d7 = *definition;
    let drive_value = crate::mir::effects::drive::emit_forward_value(e, definition, drive_id, drive_typ, generic_count);
    proof {
        let c4 = forward_value_code(body_wrapper_id, btyp, generic_count, n).0;
        let c5 = seq![(InstructionView::Transmute(body_wrapper_value), pointer_view())];
        let c6 = extern_call_code(mco.init.name@, mco.init.typ@, seq![result(m4), cap_and_env], m4 + 1);
        let c7a = seq![(InstructionView::MakeTuple(seq![result(m4 + 2)]), TypeView::Tuple(seq![pointer_view()]))];
        let c7b = seq![
            (InstructionView::Store { pointer: cap_state, value: result(m4 + 3) }, TypeView::Primitive(PrimitiveType::Unit)),
        ];
        let c8 = forward_value_code(drive_id, dtyp, generic_count, m4 + 5).0;
        lemma_emitted_then(e0, d0, e4, d4, e5, d5, c4, c5);
        lemma_emitted_then(e0, d0, e5, d5, e6, d6, c4 + c5, c6);
        lemma_emitted_then(e0, d0, e6, d6, ef, df, c4 + c5 + c6, c7a);
        lemma_emitted_then(e0, d0, ef, df, e7, d7, c4 + c5 + c6 + c7a, c7b);
        lemma_emitted_then(e0, d0, e7, d7, *e, *definition, c4 + c5 + c6 + c7a + c7b, c8);
        assert(c4 + c5 + c6 + c7a + c7b + c8 =~= coro_start_code(
            *mco,
            n,
            cap_state,
            cap_and_env,
            body_wrapper_id,
            btyp,
            drive_id,
            dtyp,
            generic_count,
        ).0);
    }
    (coro, drive_value)
}

/// Splices the replacement of the `handle` at position `index` of block `block` into the
/// definition (see [handle_site_code]).
pub fn emit_handle_replacement(
    definition: &mut Definition,
    block: BlockId,
    index: usize,
    original_id: InstructionId,
    wrapper_ids: &Vec<DefinitionId>,
    wrapper_types: &Vec<Type>,
    body_env: Option<Value>,
    env_type: &Type,
    body_wrapper_id: DefinitionId,
    body_wrapper_typ: Type,
    drive_id: DefinitionId,
    drive_typ: Type,
    handlers: &Vec<Value>,
    result_type: &Type,
    mco: &AminicoroFns,
    generic_count: u32,
)
    requires
        coro_fns_typed(*mco),
        place_valid(*old(definition), (block, index, original_id)),
        original_id.0 < old(definition).instructions@.len(),
        old(definition).instructions@.len() == old(definition).instruction_result_types@.len(),
        wrapper_ids@.len() == wrapper_types@.len(),
        ({
            let code = handle_site_code(
                *mco,
                old(definition).instructions@.len(),
                wrapper_ids@,
                types_view(wrapper_types@),
                body_env,
                env_type@,
                body_wrapper_id,
                body_wrapper_typ@,
                drive_id,
                drive_typ@,
                handlers@,
                result_type@,
                generic_count,
            );
            old(definition).instructions@.len() + code.0.len() + code.2.len() + 1 < u32::MAX
        }),
    ensures
        ({
            let code = handle_site_code(
                *mco,
                old(definition).instructions@.len(),
                wrapper_ids@,
                types_view(wrapper_types@),
                body_env,
                env_type@,
                body_wrapper_id,
                body_wrapper_typ@,
                drive_id,
                drive_typ@,
                handlers@,
                result_type@,
                generic_count,
            );
            site_replaced(*old(definition), *final(definition), block, index, original_id, code.0, code.1, code.2)
        }),
{
    let ghost d0 = *definition;
    let ghost n = d0.instructions@.len();
    let ghost code = handle_site_code(
        *mco,
        n,
        wrapper_ids@,
        types_view(wrapper_types@),
        body_env,
        env_type@,
        body_wrapper_id,
        body_wrapper_typ@,
        drive_id,
        drive_typ@,
        handlers@,
        result_type@,
        generic_count,
    );
    let env_value = match body_env {
        Some(env) => env,
        None => Value::Unit,
    };
    let ghost setup = cap_setup_code(n, wrapper_ids@, types_view(wrapper_types@), env_value, env_type@);
    let mut emitter = Emitter::pending();
    let ghost e0 = emitter;
    let (cap_state_ptr, cap_and_env_ptr) = emit_cap_setup(&mut emitter, definition, wrapper_ids, wrapper_types, env_value, env_type);
    let ghost e1 = emitter;
    let ghost d1 = *definition;
    let ghost start = coro_start_code(
        *mco,
        n + setup.len(),
        result(n + 2),
        result(n + 5 + wrapper_ids@.len()),
        body_wrapper_id,
        body_wrapper_typ@,
        drive_id,
        drive_typ@,
        generic_count,
    );
    let (coro, drive_value) = emit_coro_start(
        &mut emitter,
        definition,
        mco,
        cap_state_ptr,
        cap_and_env_ptr,
        body_wrapper_id,
        body_wrapper_typ,
        drive_id,
        drive_typ,
        generic_count,
    );
    let ghost e8 = emitter;
    let ghost d8 = *definition;
    proof {
        lemma_emitted_then(e0, d0, e1, d1, e8, d8, setup, start.0);
    }
    let drive_arguments = crate::mir::effects::drive::cons_values(coro, handlers);
    let call = Instruction::Call { function: drive_value, arguments: drive_arguments };
    let ghost call_copy = call;
    let ghost result_copy = *result_type;
    emitter.reuse_instruction(definition, original_id, call, result_type.clone());
    let ghost e9 = emitter;
    let ghost d9 = *definition;
    let free_args = vec![coro];
    assert(free_args@ =~= seq![start.1]);
    emitter.call_extern(definition, &mco.free, free_args);
    let ghost e10 = emitter;
    let ghost d10 = *definition;
    let pending = emitter.pending;
    splice_block(definition, block, index, &pending);
    proof {
        lemma_site_replaced(
            e0,
            d0,
            e8,
            d8,
            e9,
            d9,
            e10,
            d10,
            *definition,
            block,
            index,
            original_id,
            code.0,
            call_copy,
            result_copy,
            code.2,
        );
    }
}

/// `shape` is the shape of a handler of type `t` (see
/// [crate::mir::effects::lowering::shape_of]), read on the type's model.
pub open spec fn shape_of_view(t: TypeView, shape: CaseShape) -> bool {
    let ft = *t->Function_0;
    let resume = *ft.parameters.last()->Function_0;
    &&& types_view(shape.op_arg_types@) == ft.parameters.drop_last()
    &&& shape.op_return_type@ == if resume.parameters.len() > 0 {
        resume.parameters[0]
    } else {
        TypeView::Primitive(PrimitiveType::Unit)
    }
    &&& shape.handler_is_closure == spec_is_closure(ft)
}

/// The shape of a handler type is its shape on the type's model.
pub proof fn lemma_shape_view(t: Type, shape: CaseShape)
    requires
        is_handler_type(t),
        shape_of(t, shape),
    ensures
        shape_of_view(t@, shape),
{
    let ps = t->Function_0.parameters@;
    assert(types_view(ps).len() == ps.len());
    assert(types_view(ps.drop_last()) =~= types_view(ps).drop_last()) by {
        assert(types_view(ps.drop_last()).len() == ps.drop_last().len());
    }
    assert(types_view(ps).last() == ps.last()@);
    let rps = ps.last()->Function_0.parameters@;
    assert(types_view(rps).len() == rps.len());
    if rps.len() > 0 {
        assert(types_view(rps)[0] == rps[0]@);
    }
}

/// The definition, environment and bindings the body of the `handle` at `site` resolves to.
pub open spec fn handle_body(d: Definition, site: HandleSite) -> (DefinitionId, Option<Value>, Option<Arc<GenericBindings>>) {
    let (function, env) = spec_unpack(site.body, d.instructions@);
    let (id, bindings) = spec_resolve_id(function, d.instructions@)->0;
    (id, env, bindings)
}

/// The type of the body's environment; unit where it has none.
pub open spec fn handle_env_type(d: Definition, site: HandleSite, externals: Map<DefinitionId, Extern>, definitions: Map<DefinitionId, Definition>) -> TypeView {
    match handle_body(d, site).1 {
        Some(e) => spec_type_of_value(d, e, externals, definitions)->0,
        None => TypeView::Primitive(PrimitiveType::Unit),
    }
}

/// The handlers of the `handle`, in case order.
pub open spec fn handlers_of(site: HandleSite) -> Seq<Value> {
    site.cases@.map_values(|c: HandlerCase| c.handler)
}

/// The types of the handlers within `d`.
pub open spec fn handler_types_of(d: Definition, site: HandleSite, externals: Map<DefinitionId, Extern>, definitions: Map<DefinitionId, Definition>) -> Seq<TypeView> {
    value_types(d, handlers_of(site), externals, definitions)
}

/// `shapes` are the shapes of handlers of types `handler_types`.
pub open spec fn shapes_of(handler_types: Seq<TypeView>, shapes: Seq<CaseShape>) -> bool {
    &&& shapes.len() == handler_types.len()
    &&& forall|k: int| 0 <= k < shapes.len() ==> #[trigger] shape_of_view(handler_types[k], shapes[k])
}

/// The id of the resume function of case `k` of a `handle` with `count` cases lowered from
/// `base` on.
pub open spec fn resume_id_at(base: DefinitionId, count: nat, k: int) -> DefinitionId {
    nth_id(base, count + 2 + k)
}

/// The capability wrappers' types of a `handle` whose cases have the given shapes.
pub open spec fn wrapper_types_of(shapes: Seq<CaseShape>) -> Seq<TypeView> {
    Seq::new(shapes.len(), |i: int| wrapper_type_view(shapes[i]))
}

/// The type of a body wrapper.
pub open spec fn body_wrapper_type() -> TypeView {
    spec_ptr_fn(seq![pointer_view()], TypeView::Primitive(PrimitiveType::Unit))
}

/// What lowering the `handle` at `site` of `d` with the handler shapes `shapes` and the ids from
/// `base` on puts at the site (see [handle_site_code]).
pub open spec fn handle_site_replacement(
    mco: AminicoroFns,
    d: Definition,
    site: HandleSite,
    shapes: Seq<CaseShape>,
    base: DefinitionId,
    externals: Map<DefinitionId, Extern>,
    definitions: Map<DefinitionId, Definition>,
) -> (Seq<(InstructionView, TypeView)>, (InstructionView, TypeView), Seq<(InstructionView, TypeView)>) {
    let nc = site.cases@.len();
    handle_site_code(
        mco,
        d.instructions@.len(),
        Seq::new(nc, |i: int| nth_id(base, i)),
        wrapper_types_of(shapes),
        handle_body(d, site).1,
        handle_env_type(d, site, externals, definitions),
        nth_id(base, nc as int),
        body_wrapper_type(),
        nth_id(base, nc + 1int),
        drive_type(handler_types_of(d, site, externals, definitions), site.result_type@),
        handlers_of(site),
        site.result_type@,
        d.generic_count,
    )
}

/// Every generated function, and the site's replacement, fit their `u32` ids.
pub open spec fn handle_fits(mco: AminicoroFns, mir: Mir, definition_id: DefinitionId, site: HandleSite, shapes: Seq<CaseShape>, base: DefinitionId) -> bool {
    let d = mir.definitions@[definition_id];
    let nc = site.cases@.len();
    let (body_id, env, bindings) = handle_body(d, site);
    let env_type = handle_env_type(d, site, mir.externals@, mir.definitions@);
    let ht = handler_types_of(d, site, mir.externals@, mir.definitions@);
    let rt = site.result_type@;
    let code = handle_site_replacement(mco, d, site, shapes, base, mir.externals@, mir.definitions@);
    &&& forall|k: int| 0 <= k < nc ==> (#[trigger] shapes[k]).op_arg_types@.len() < u32::MAX
    &&& forall|k: int| 0 <= k < nc ==> (#[trigger] cap_wrapper_code(mco, shapes[k], k as u32)).0.len() < u32::MAX
    &&& body_wrapper_code(mco, body_id, mir.definitions@[body_id].typ@, bindings, env_type, TypeView::Tuple(wrapper_types_of(shapes)), rt).len() < u32::MAX
    &&& drive_layout(mco, ht, shapes, Seq::new(nc, |k: int| resume_id_at(base, nc, k)), rt, d.generic_count).0.len() < u32::MAX
    &&& forall|k: int| 0 <= k < nc ==> (#[trigger] resume_code(mco, shapes[k].op_return_type@, nth_id(base, nc + 1int), drive_type(ht, rt), ht, rt, d.generic_count)).0.len() < u32::MAX
    &&& d.instructions@.len() + code.0.len() + code.2.len() + 1 < u32::MAX
}

/// Every function generated for the `handle`, and the site's replacement, fit their `u32`
/// ids, counted from the handlers' types (see [crate::mir::effects::handle_sizes]).
pub open spec fn handle_fits_v(mco: AminicoroFns, mir: Mir, definition_id: DefinitionId, site: HandleSite) -> bool {
    let d = mir.definitions@[definition_id];
    let nc = site.cases@.len();
    let (body_id, env, bindings) = handle_body(d, site);
    let ht = handler_types_of(d, site, mir.externals@, mir.definitions@);
    let rt = site.result_type@;
    let gc = d.generic_count;
    &&& forall|k: int| 0 <= k < nc ==> handler_args(#[trigger] ht[k]).len() < u32::MAX
    &&& forall|k: int| 0 <= k < nc ==> cap_wrapper_len_v(#[trigger] ht[k]) < u32::MAX
    &&& body_wrapper_len(mir.definitions@[body_id].typ@, bindings, rt) < u32::MAX
    &&& drive_len_v(ht, rt, gc) < u32::MAX
    &&& forall|k: int| 0 <= k < nc ==> resume_len(handler_ret(#[trigger] ht[k]), nc, gc) < u32::MAX
    &&& d.instructions@.len() + 11 + nc + 2 * forward_len(gc) + 2 + 1 < u32::MAX
}

/// The replacement of a `handle` holds `11 + wrappers` instructions before the reused id, two
/// more where there are generics, and two after it.
proof fn lemma_site_len(
    mco: AminicoroFns,
    n: nat,
    wrapper_ids: Seq<DefinitionId>,
    wrapper_types: Seq<TypeView>,
    env: Option<Value>,
    env_type: TypeView,
    body_wrapper_id: DefinitionId,
    body_wrapper_typ: TypeView,
    drive_id: DefinitionId,
    drive_typ: TypeView,
    handlers: Seq<Value>,
    result_type: TypeView,
    generic_count: u32,
)
    ensures
        ({
            let code = handle_site_code(
                mco,
                n,
                wrapper_ids,
                wrapper_types,
                env,
                env_type,
                body_wrapper_id,
                body_wrapper_typ,
                drive_id,
                drive_typ,
                handlers,
                result_type,
                generic_count,
            );
            &&& code.0.len() == 11 + wrapper_ids.len() + 2 * forward_len(generic_count)
            &&& code.2.len() == 2
        }),
{
}

/// The `handle` at `site` of definition `definition_id` can be lowered with the ids from `base`
/// on: the site is valid, its body resolves to another definition of the program, whose
/// capabilities can be expanded, its environment and handlers have types, each handler has a
/// handler's type, the `2 * cases + 2` ids from `base` on are free, and everything generated
/// fits (see [handle_fits_v]).
pub open spec fn handle_lowerable(mco: AminicoroFns, mir: Mir, definition_id: DefinitionId, site: HandleSite, base: DefinitionId) -> bool {
    let d = mir.definitions@[definition_id];
    let nc = site.cases@.len();
    let (body_id, env, bindings) = handle_body(d, site);
    let ht = handler_types_of(d, site, mir.externals@, mir.definitions@);
    &&& coro_fns_typed(mco)
    &&& mir.definitions@.contains_key(definition_id)
    &&& place_valid(d, (site.block, site.index, site.id))
    &&& site.id.0 < d.instructions@.len()
    &&& d.instructions@.len() == d.instruction_result_types@.len()
    &&& unpack_in_bounds(site.body, d.instructions@)
    &&& ids_resolve(spec_unpack(site.body, d.instructions@).0, d.instructions@)
    &&& spec_resolve_id(spec_unpack(site.body, d.instructions@).0, d.instructions@) is Some
    &&& (env matches Some(e) ==> value_in_bounds(d, e) && spec_type_of_value(d, e, mir.externals@, mir.definitions@) is Some)
    &&& values_typed(d, handlers_of(site), mir.externals@, mir.definitions@)
    &&& forall|k: int| 0 <= k < nc ==> is_handler_view(#[trigger] ht[k])
    &&& mir.definitions@.contains_key(body_id)
    &&& body_id != definition_id
    &&& capabilities_expandable(mir.definitions@[body_id])
    &&& base.0 + 2 * nc + 2 <= u32::MAX
    &&& forall|j: int| 0 <= j < 2 * nc + 2 ==> !mir.definitions@.contains_key(#[trigger] nth_id(base, j))
    &&& nc + 8 <= u32::MAX
    &&& handle_fits_v(mco, mir, definition_id, site)
}

/// The ids the lowering of a `handle` with `count` cases adds from `base` on.
pub open spec fn new_ids(base: DefinitionId, count: nat) -> Set<DefinitionId> {
    Set::new(|x: DefinitionId| exists|j: int| 0 <= j < 2 * count + 2 && x == #[trigger] nth_id(base, j))
}

/// `after` is `before` with the `handle` at `site` of definition `definition_id` lowered, the
/// handlers having the shapes `shapes`: the site replaced ([handle_site_replacement]), the
/// body's capabilities expanded ([capability_trace]), and added under the ids from `base` on:
/// each case's capability wrapper, the body wrapper, the drive, and each case's resume function.
/// Nothing else changes.
pub open spec fn handle_lowered_with(
    mco: AminicoroFns,
    before: Mir,
    after: Mir,
    definition_id: DefinitionId,
    site: HandleSite,
    base: DefinitionId,
    shapes: Seq<CaseShape>,
) -> bool {
    let d = before.definitions@[definition_id];
    let nc = site.cases@.len();
    let (body_id, env, bindings) = handle_body(d, site);
    let env_type = handle_env_type(d, site, before.externals@, before.definitions@);
    let ht = handler_types_of(d, site, before.externals@, before.definitions@);
    let rt = site.result_type@;
    let gc = d.generic_count;
    let code = handle_site_replacement(mco, d, site, shapes, base, before.externals@, before.definitions@);
    let drive_id = nth_id(base, nc + 1int);
    &&& shapes_of(ht, shapes)
    &&& after.definitions@.dom() == before.definitions@.dom() + new_ids(base, nc)
    &&& site_replaced(d, after.definitions@[definition_id], site.block, site.index, site.id, code.0, code.1, code.2)
    &&& exists|ds: Seq<Definition>|
        #[trigger] capability_trace(before.definitions@[body_id], after.definitions@[body_id], ds, mco, env_type)
    &&& forall|k: int|
        0 <= k < nc ==> #[trigger] is_capability_wrapper(after.definitions@[nth_id(base, k)], nth_id(base, k), mco, shapes[k], k as u32, gc)
    &&& is_body_wrapper(
        after.definitions@[nth_id(base, nc as int)],
        nth_id(base, nc as int),
        mco,
        body_id,
        before.definitions@[body_id].typ@,
        bindings,
        env_type,
        TypeView::Tuple(wrapper_types_of(shapes)),
        rt,
        gc,
    )
    &&& is_drive_function(
        after.definitions@[drive_id],
        drive_id,
        mco,
        ht,
        shapes,
        Seq::new(nc, |k: int| resume_id_at(base, nc, k)),
        rt,
        gc,
    )
    &&& forall|k: int|
        0 <= k < nc ==> #[trigger] is_resume_function(
            after.definitions@[resume_id_at(base, nc, k)],
            resume_id_at(base, nc, k),
            mco,
            shapes[k].op_return_type@,
            drive_id,
            drive_type(ht, rt),
            ht,
            rt,
            gc,
        )
    &&& forall|id: DefinitionId|
        id != definition_id && id != body_id && !new_ids(base, nc).contains(id) ==> #[trigger] after.definitions@.get(id)
            == before.definitions@.get(id)
    &&& after.externals == before.externals
    &&& after.preserved_op_indices == before.preserved_op_indices
}

/// Inserts `defs[k]` under `ids[k]` for each `k`.
fn insert_all(map: &mut DefinitionMap<Definition>, ids: &Vec<DefinitionId>, defs: Vec<Definition>)
    requires
        ids@.len() == defs@.len(),
        ids@.no_duplicates(),
    ensures
        final(map)@.dom() == old(map)@.dom() + ids@.to_set(),
        forall|k: int| 0 <= k < ids@.len() ==> #[trigger] final(map)@[ids@[k]] == defs@[k],
        forall|x: DefinitionId| !ids@.contains(x) ==> #[trigger] final(map)@.get(x) == old(map)@.get(x),
{
    let ghost m0 = map@;
    let ghost defs0 = defs@;
    let mut defs = defs;
    let mut k: usize = ids.len();
    while k > 0
        invariant
            0 <= k <= ids@.len(),
            ids@.len() == defs0.len(),
            ids@.no_duplicates(),
            defs@ == defs0.subrange(0, k as int),
            map@.dom() == m0.dom() + ids@.subrange(k as int, ids@.len() as int).to_set(),
            forall|j: int| k <= j < ids@.len() ==> #[trigger] map@[ids@[j]] == defs0[j],
            forall|x: DefinitionId| !ids@.subrange(k as int, ids@.len() as int).contains(x) ==> #[trigger] map@.get(x) == m0.get(x),
        decreases k,
    {
        k = k - 1;
        let d = defs.pop().unwrap();
        let ghost before = map@;
        fx_map_insert(map, ids[k], d);
        proof {
            assert(defs@ =~= defs0.subrange(0, k as int));
            let tail = ids@.subrange(k as int, ids@.len() as int);
            let tail1 = ids@.subrange(k + 1, ids@.len() as int);
            assert(tail =~= seq![ids@[k as int]] + tail1);
            assert(tail.to_set() =~= tail1.to_set().insert(ids@[k as int])) by {
                assert forall|x: DefinitionId| tail.to_set().contains(x) <==> tail1.to_set().insert(ids@[k as int]).contains(x) by {
                    if tail.contains(x) {
                        let j = choose|j: int| 0 <= j < tail.len() && tail[j] == x;
                        if j > 0 {
                            assert(tail1[j - 1] == x);
                        }
                    }
                    if tail1.contains(x) {
                        let j = choose|j: int| 0 <= j < tail1.len() && tail1[j] == x;
                        assert(tail[j + 1] == x);
                    }
                    if x == ids@[k as int] {
                        assert(tail[0] == x);
                    }
                }
            }
            assert(map@.dom() =~= m0.dom() + tail.to_set());
            assert forall|j: int| k <= j < ids@.len() implies #[trigger] map@[ids@[j]] == defs0[j] by {
                if j > k {
                    assert(ids@[j] != ids@[k as int]);
                }
            }
            assert forall|x: DefinitionId| !tail.contains(x) implies #[trigger] map@.get(x) == m0.get(x) by {
                assert(x != ids@[k as int]) by {
                    if x == ids@[k as int] {
                        assert(tail[0] == x);
                    }
                }
                if tail1.contains(x) {
                    let j = choose|j: int| 0 <= j < tail1.len() && tail1[j] == x;
                    assert(tail[j + 1] == x);
                    assert(false);
                }
                assert(before.get(x) == m0.get(x));
                assert(map@.get(x) == before.get(x));
            }
        }
    }
    proof {
        assert(ids@.subrange(0, ids@.len() as int) =~= ids@);
    }
}

/// The ids `base, base + 1, ..` of `count` consecutive definitions from `base + offset` on.
fn id_run(base: DefinitionId, offset: u32, count: usize) -> (r: Vec<DefinitionId>)
    requires
        base.0 + offset + count <= u32::MAX,
    ensures
        r@ == Seq::new(count as nat, |i: int| nth_id(base, offset + i)),
        r@.no_duplicates(),
{
    let mut r: Vec<DefinitionId> = Vec::new();
    let mut i: usize = 0;
    while i < count
        invariant
            0 <= i <= count,
            base.0 + offset + count <= u32::MAX,
            r@ == Seq::new(i as nat, |j: int| nth_id(base, offset + j)),
        decreases count - i,
    {
        r.push(DefinitionId(base.0 + offset + i as u32));
        i = i + 1;
        proof {
            assert(r@ =~= Seq::new(i as nat, |j: int| nth_id(base, offset + j)));
        }
    }
    proof {
        assert forall|j: int, k: int| 0 <= j < r@.len() && 0 <= k < r@.len() && j != k implies r@[j] != r@[k] by {
            assert(r@[j].0 == base.0 + offset + j);
            assert(r@[k].0 == base.0 + offset + k);
        }
    }
    r
}

/// The handlers of `site` and their types within `definition`.
fn handler_values_and_types(definition: &Definition, site: &HandleSite, mir: &Mir) -> (r: (Vec<Value>, Vec<Type>))
    requires
        values_typed(*definition, handlers_of(*site), mir.externals@, mir.definitions@),
    ensures
        r.0@ == handlers_of(*site),
        r.1@.len() == site.cases@.len(),
        types_view(r.1@) == handler_types_of(*definition, *site, mir.externals@, mir.definitions@),
{
    let ghost all = handlers_of(*site);
    let mut handlers: Vec<Value> = Vec::new();
    let mut types: Vec<Type> = Vec::new();
    let mut i: usize = 0;
    while i < site.cases.len()
        invariant
            0 <= i <= site.cases@.len(),
            all == handlers_of(*site),
            all.len() == site.cases@.len(),
            values_typed(*definition, all, mir.externals@, mir.definitions@),
            handlers@ == all.subrange(0, i as int),
            types@.len() == i,
            types_view(types@) == value_types(*definition, all.subrange(0, i as int), mir.externals@, mir.definitions@),
        decreases site.cases@.len() - i,
    {
        let h = site.cases[i].handler;
        assert(h == all[i as int]);
        let t = definition.type_of_value(&h, &mir.externals, &mir.definitions);
        let ghost before = types@;
        handlers.push(h);
        types.push(t);
        proof {
            crate::mir::types::lemma_types_view_push(before, t);
            assert(all.subrange(0, i + 1) =~= all.subrange(0, i as int).push(h));
            assert(value_types(*definition, all.subrange(0, i + 1), mir.externals@, mir.definitions@) =~= value_types(
                *definition,
                all.subrange(0, i as int),
                mir.externals@,
                mir.definitions@,
            ).push(t@));
        }
        i = i + 1;
        proof {
            assert(handlers@ =~= all.subrange(0, i as int));
        }
    }
    proof {
        assert(all.subrange(0, i as int) =~= all);
    }
    (handlers, types)
}

/// The shape of each handler type.
fn shapes_of_handlers(handler_types: &Vec<Type>) -> (r: Vec<CaseShape>)
    requires
        forall|k: int| 0 <= k < handler_types@.len() ==> is_handler_view(#[trigger] types_view(handler_types@)[k]),
    ensures
        shapes_of(types_view(handler_types@), r@),
{
    let ghost views = types_view(handler_types@);
    let mut shapes: Vec<CaseShape> = Vec::new();
    let mut i: usize = 0;
    while i < handler_types.len()
        invariant
            0 <= i <= handler_types@.len(),
            views == types_view(handler_types@),
            views.len() == handler_types@.len(),
            forall|k: int| 0 <= k < handler_types@.len() ==> is_handler_view(#[trigger] views[k]),
            shapes@.len() == i,
            forall|k: int| 0 <= k < i ==> #[trigger] shape_of_view(views[k], shapes@[k]),
        decreases handler_types@.len() - i,
    {
        proof {
            lemma_handler_type_view(handler_types@[i as int]);
            assert(views[i as int] == handler_types@[i as int]@);
        }
        let shape = case_shape_from_handler_type(&handler_types[i]).unwrap();
        proof {
            lemma_shape_view(handler_types@[i as int], shape);
        }
        shapes.push(shape);
        i = i + 1;
    }
    shapes
}

/// Builds the capability wrapper of each case, under the ids `ids`, and gives their types.
fn generate_capability_wrappers(
    case_shapes: &Vec<CaseShape>,
    mco: &AminicoroFns,
    generic_count: u32,
    ids: &Vec<DefinitionId>,
) -> (r: (Vec<Definition>, Vec<Type>))
    requires
        coro_fns_typed(*mco),
        ids@.len() == case_shapes@.len(),
        case_shapes@.len() <= u32::MAX,
        forall|k: int| 0 <= k < case_shapes@.len() ==> (#[trigger] case_shapes@[k]).op_arg_types@.len() < u32::MAX,
        forall|k: int| 0 <= k < case_shapes@.len() ==> (#[trigger] cap_wrapper_code(*mco, case_shapes@[k], k as u32)).0.len() < u32::MAX,
    ensures
        r.0@.len() == case_shapes@.len(),
        forall|k: int|
            0 <= k < case_shapes@.len() ==> #[trigger] is_capability_wrapper(r.0@[k], ids@[k], *mco, case_shapes@[k], k as u32, generic_count),
        types_view(r.1@) == wrapper_types_of(case_shapes@),
{
    let mut wrappers: Vec<Definition> = Vec::new();
    let mut types: Vec<Type> = Vec::new();
    let mut i: usize = 0;
    while i < case_shapes.len()
        invariant
            0 <= i <= case_shapes@.len(),
            coro_fns_typed(*mco),
            ids@.len() == case_shapes@.len(),
            case_shapes@.len() <= u32::MAX,
            forall|k: int| 0 <= k < case_shapes@.len() ==> (#[trigger] case_shapes@[k]).op_arg_types@.len() < u32::MAX,
            forall|k: int|
                0 <= k < case_shapes@.len() ==> (#[trigger] cap_wrapper_code(*mco, case_shapes@[k], k as u32)).0.len() < u32::MAX,
            wrappers@.len() == i,
            forall|k: int| 0 <= k < i ==> #[trigger] is_capability_wrapper(wrappers@[k], ids@[k], *mco, case_shapes@[k], k as u32, generic_count),
            types_view(types@) == wrapper_types_of(case_shapes@).subrange(0, i as int),
        decreases case_shapes@.len() - i,
    {
        let w = generate_capability_wrapper(i as u32, &case_shapes[i], mco, generic_count, ids[i]);
        let t = w.typ.clone();
        let ghost before = types@;
        types.push(t);
        wrappers.push(w);
        proof {
            crate::mir::types::lemma_types_view_push(before, t);
            assert(types_view(types@) =~= wrapper_types_of(case_shapes@).subrange(0, i + 1));
        }
        i = i + 1;
    }
    proof {
        assert(wrapper_types_of(case_shapes@).subrange(0, i as int) =~= wrapper_types_of(case_shapes@));
    }
    (wrappers, types)
}

/// The ids `new_ids(base, count)` are the capability wrappers' `base..base + count`, the body
/// wrapper's `base + count`, the drive's `base + count + 1`, and the resume functions'.
proof fn lemma_new_ids(base: DefinitionId, count: nat, wrapper_ids: Seq<DefinitionId>, resume_ids: Seq<DefinitionId>)
    requires
        base.0 + 2 * count + 2 <= u32::MAX,
        wrapper_ids == Seq::new(count, |i: int| nth_id(base, 0 + i)),
        resume_ids == Seq::new(count, |i: int| nth_id(base, (count + 2) + i)),
    ensures
        new_ids(base, count) == wrapper_ids.to_set() + set![nth_id(base, count as int), nth_id(base, count + 1int)]
            + resume_ids.to_set(),
        forall|x: DefinitionId| #[trigger] new_ids(base, count).contains(x) ==> x.0 >= base.0,
{
    assert forall|x: DefinitionId| new_ids(base, count).contains(x) <==> (wrapper_ids.to_set() + set![
        nth_id(base, count as int),
        nth_id(base, count + 1int),
    ] + resume_ids.to_set()).contains(x) by {
        if new_ids(base, count).contains(x) {
            let j = choose|j: int| 0 <= j < 2 * count + 2 && x == #[trigger] nth_id(base, j);
            if j < count {
                assert(wrapper_ids[j] == x);
                assert(wrapper_ids.contains(x));
            } else if j >= count + 2 {
                assert(resume_ids[j - count - 2] == x);
                assert(resume_ids.contains(x));
            }
        }
        if wrapper_ids.contains(x) {
            let j = choose|j: int| 0 <= j < wrapper_ids.len() && wrapper_ids[j] == x;
            assert(nth_id(base, j) == x);
        }
        if resume_ids.contains(x) {
            let j = choose|j: int| 0 <= j < resume_ids.len() && resume_ids[j] == x;
            assert(nth_id(base, count + 2 + j) == x);
        }
        if x == nth_id(base, count as int) {
            assert(x == nth_id(base, count as int));
        }
        if x == nth_id(base, count + 1int) {
            assert(x == nth_id(base, count + 1int));
        }
    }
    assert(new_ids(base, count) =~= wrapper_ids.to_set() + set![nth_id(base, count as int), nth_id(base, count + 1int)]
        + resume_ids.to_set());
}

/// What lowering a `handle` reads of the program before it changes anything.
struct HandleInputs {
    generic_count: u32,
    body_fn_id: DefinitionId,
    body_env: Option<Value>,
    body_bindings: Option<Arc<GenericBindings>>,
    env_type: Type,
    handlers: Vec<Value>,
    handler_types: Vec<Type>,
    case_shapes: Vec<CaseShape>,
    body_typ: Type,
}

/// `inputs` are what the `handle` at `site` of definition `definition_id` reads of `mir`.
spec fn inputs_of(mir: Mir, definition_id: DefinitionId, site: HandleSite, inputs: HandleInputs) -> bool {
    let d = mir.definitions@[definition_id];
    let (body_id, env, bindings) = handle_body(d, site);
    &&& inputs.generic_count == d.generic_count
    &&& inputs.body_fn_id == body_id
    &&& inputs.body_env == env
    &&& inputs.body_bindings == bindings
    &&& inputs.env_type@ == handle_env_type(d, site, mir.externals@, mir.definitions@)
    &&& inputs.handlers@ == handlers_of(site)
    &&& inputs.handler_types@.len() == site.cases@.len()
    &&& types_view(inputs.handler_types@) == handler_types_of(d, site, mir.externals@, mir.definitions@)
    &&& shapes_of(types_view(inputs.handler_types@), inputs.case_shapes@)
    &&& inputs.body_typ@ == mir.definitions@[body_id].typ@
}

/// Reads what lowering the `handle` at `site` needs of the program.
fn gather_handle_inputs(mir: &Mir, definition_id: DefinitionId, site: &HandleSite, Ghost(mco): Ghost<AminicoroFns>, Ghost(base): Ghost<DefinitionId>) -> (r: HandleInputs)
    requires
        handle_lowerable(mco, *mir, definition_id, *site, base),
    ensures
        inputs_of(*mir, definition_id, *site, r),
{
    let definition = fx_map_get(&mir.definitions, definition_id).unwrap();
    let (body_fn_id, body_env, body_bindings) = resolve_body_function(site.body, definition);
    let env_type = match body_env {
        Some(env) => definition.type_of_value(&env, &mir.externals, &mir.definitions),
        None => Type::unit(),
    };
    let (handlers, handler_types) = handler_values_and_types(definition, site, mir);
    let case_shapes = shapes_of_handlers(&handler_types);
    let body_typ = fx_map_get(&mir.definitions, body_fn_id).unwrap().typ.clone();
    HandleInputs {
        generic_count: definition.generic_count,
        body_fn_id,
        body_env,
        body_bindings,
        env_type,
        handlers,
        handler_types,
        case_shapes,
        body_typ,
    }
}

/// A second handle to the same bindings, if any.
fn clone_bindings(b: &Option<Arc<GenericBindings>>) -> (r: Option<Arc<GenericBindings>>)
    ensures
        r == *b,
{
    match b {
        Some(a) => Some(crate::mir::types::arc_clone(a)),
        None => None,
    }
}

/// `after` is `before` with the functions of a lowered `handle` added under the ids from `base`
/// on and the body's capabilities expanded (see [handle_lowered_with]).
pub open spec fn handle_functions_added(
    mco: AminicoroFns,
    before: Mir,
    after: Mir,
    body_id: DefinitionId,
    bindings: Option<Arc<GenericBindings>>,
    env_type: TypeView,
    ht: Seq<TypeView>,
    shapes: Seq<CaseShape>,
    rt: TypeView,
    gc: u32,
    base: DefinitionId,
) -> bool {
    let nc = ht.len();
    let drive_id = nth_id(base, nc + 1int);
    &&& after.definitions@.dom() == before.definitions@.dom() + new_ids(base, nc)
    &&& exists|ds: Seq<Definition>|
        #[trigger] capability_trace(before.definitions@[body_id], after.definitions@[body_id], ds, mco, env_type)
    &&& forall|k: int|
        0 <= k < nc ==> #[trigger] is_capability_wrapper(after.definitions@[nth_id(base, k)], nth_id(base, k), mco, shapes[k], k as u32, gc)
    &&& is_body_wrapper(
        after.definitions@[nth_id(base, nc as int)],
        nth_id(base, nc as int),
        mco,
        body_id,
        before.definitions@[body_id].typ@,
        bindings,
        env_type,
        TypeView::Tuple(wrapper_types_of(shapes)),
        rt,
        gc,
    )
    &&& is_drive_function(after.definitions@[drive_id], drive_id, mco, ht, shapes, Seq::new(nc, |k: int| resume_id_at(base, nc, k)), rt, gc)
    &&& forall|k: int|
        0 <= k < nc ==> #[trigger] is_resume_function(
            after.definitions@[resume_id_at(base, nc, k)],
            resume_id_at(base, nc, k),
            mco,
            shapes[k].op_return_type@,
            drive_id,
            drive_type(ht, rt),
            ht,
            rt,
            gc,
        )
    &&& forall|id: DefinitionId|
        id != body_id && !new_ids(base, nc).contains(id) ==> #[trigger] after.definitions@.get(id) == before.definitions@.get(id)
    &&& after.externals == before.externals
    &&& after.preserved_op_indices == before.preserved_op_indices
}

/// The functions generated for a `handle` read with `inputs` fit their `u32` ids.
spec fn functions_fit(mco: AminicoroFns, inputs: HandleInputs, rt: TypeView, base: DefinitionId) -> bool {
    let nc = inputs.case_shapes@.len();
    let shapes = inputs.case_shapes@;
    let ht = types_view(inputs.handler_types@);
    &&& forall|k: int| 0 <= k < nc ==> (#[trigger] shapes[k]).op_arg_types@.len() < u32::MAX
    &&& forall|k: int| 0 <= k < nc ==> (#[trigger] cap_wrapper_code(mco, shapes[k], k as u32)).0.len() < u32::MAX
    &&& body_wrapper_code(
        mco,
        inputs.body_fn_id,
        inputs.body_typ@,
        inputs.body_bindings,
        inputs.env_type@,
        TypeView::Tuple(wrapper_types_of(shapes)),
        rt,
    ).len() < u32::MAX
    &&& drive_layout(mco, ht, shapes, Seq::new(nc, |k: int| resume_id_at(base, nc, k)), rt, inputs.generic_count).0.len() < u32::MAX
    &&& forall|k: int|
        0 <= k < nc ==> (#[trigger] resume_code(
            mco,
            shapes[k].op_return_type@,
            nth_id(base, nc + 1int),
            drive_type(ht, rt),
            ht,
            rt,
            inputs.generic_count,
        )).0.len() < u32::MAX
}

/// What [handle_lowerable] says of the functions to generate, for the inputs read.
proof fn lemma_functions_fit(mco: AminicoroFns, mir: Mir, definition_id: DefinitionId, site: HandleSite, base: DefinitionId, inputs: HandleInputs)
    requires
        handle_lowerable(mco, mir, definition_id, site, base),
        inputs_of(mir, definition_id, site, inputs),
    ensures
        functions_fit(mco, inputs, site.result_type@, base),
        handle_fits(mco, mir, definition_id, site, inputs.case_shapes@, base),
        inputs.handler_types@.len() == inputs.case_shapes@.len(),
{
    let d = mir.definitions@[definition_id];
    let nc = site.cases@.len();
    let ht = handler_types_of(d, site, mir.externals@, mir.definitions@);
    let shapes = inputs.case_shapes@;
    let rt = site.result_type@;
    let gc = d.generic_count;
    assert(shapes_of(ht, shapes));
    assert(types_view(inputs.handler_types@).len() == inputs.handler_types@.len());
    assert forall|k: int| 0 <= k < nc implies types_view((#[trigger] shapes[k]).op_arg_types@) == handler_args(ht[k])
        && shapes[k].op_return_type@ == handler_ret(ht[k]) by {
        assert(shape_of_view(ht[k], shapes[k]));
    }
    assert(shapes_match(ht, shapes));
    assert forall|k: int| 0 <= k < nc implies (#[trigger] shapes[k]).op_arg_types@.len() < u32::MAX by {
        assert(types_view(shapes[k].op_arg_types@).len() == shapes[k].op_arg_types@.len());
        assert(handler_args(ht[k]).len() < u32::MAX);
    }
    assert forall|k: int| 0 <= k < nc implies (#[trigger] cap_wrapper_code(mco, shapes[k], k as u32)).0.len() < u32::MAX by {
        lemma_cap_wrapper_len(mco, shapes[k], k as u32);
        assert(cap_wrapper_len_v(ht[k]) < u32::MAX);
    }
    lemma_body_wrapper_len(
        mco,
        inputs.body_fn_id,
        inputs.body_typ@,
        inputs.body_bindings,
        inputs.env_type@,
        TypeView::Tuple(wrapper_types_of(shapes)),
        rt,
    );
    lemma_drive_len(mco, ht, shapes, Seq::new(nc, |k: int| resume_id_at(base, nc, k)), rt, gc);
    lemma_drive_len_v(ht, shapes, rt, gc);
    assert forall|k: int| 0 <= k < nc implies (#[trigger] resume_code(
        mco,
        shapes[k].op_return_type@,
        nth_id(base, nc + 1int),
        drive_type(ht, rt),
        ht,
        rt,
        gc,
    )).0.len() < u32::MAX by {
        lemma_resume_len(mco, shapes[k].op_return_type@, nth_id(base, nc + 1int), drive_type(ht, rt), ht, rt, gc);
        assert(resume_len(handler_ret(ht[k]), nc, gc) < u32::MAX);
    }
    let code = handle_site_replacement(mco, d, site, shapes, base, mir.externals@, mir.definitions@);
    lemma_site_len(
        mco,
        d.instructions@.len(),
        Seq::new(nc, |i: int| nth_id(base, i)),
        wrapper_types_of(shapes),
        handle_body(d, site).1,
        handle_env_type(d, site, mir.externals@, mir.definitions@),
        nth_id(base, nc as int),
        body_wrapper_type(),
        nth_id(base, nc + 1int),
        drive_type(ht, rt),
        handlers_of(site),
        rt,
        gc,
    );
    assert(handle_fits(mco, mir, definition_id, site, shapes, base));
}

/// Expands the body's capabilities and adds the capability wrappers, the body wrapper, the drive
/// and the resume functions of a lowered `handle` (see [handle_functions_added]); returns the
/// wrappers' ids and types and the types of the body wrapper and of the drive.
fn add_handle_functions(
    mir: &mut Mir,
    inputs: &HandleInputs,
    result_type: &Type,
    mco: &AminicoroFns,
    base: DefinitionId,
) -> (r: (Vec<DefinitionId>, Vec<Type>, Type, Type))
    requires
        coro_fns_typed(*mco),
        inputs.handler_types@.len() == inputs.case_shapes@.len(),
        shapes_of(types_view(inputs.handler_types@), inputs.case_shapes@),
        old(mir).definitions@.contains_key(inputs.body_fn_id),
        capabilities_expandable(old(mir).definitions@[inputs.body_fn_id]),
        inputs.body_typ@ == old(mir).definitions@[inputs.body_fn_id].typ@,
        base.0 + 2 * inputs.case_shapes@.len() + 2 <= u32::MAX,
        forall|j: int| 0 <= j < 2 * inputs.case_shapes@.len() + 2 ==> !old(mir).definitions@.contains_key(#[trigger] nth_id(base, j)),
        inputs.case_shapes@.len() + 8 <= u32::MAX,
        functions_fit(*mco, *inputs, result_type@, base),
    ensures
        handle_functions_added(
            *mco,
            *old(mir),
            *final(mir),
            inputs.body_fn_id,
            inputs.body_bindings,
            inputs.env_type@,
            types_view(inputs.handler_types@),
            inputs.case_shapes@,
            result_type@,
            inputs.generic_count,
            base,
        ),
        r.0@ == Seq::new(inputs.case_shapes@.len(), |i: int| nth_id(base, 0 + i)),
        types_view(r.1@) == wrapper_types_of(inputs.case_shapes@),
        r.2@ == body_wrapper_type(),
        r.3@ == drive_type(types_view(inputs.handler_types@), result_type@),
{
    let ghost m0 = *mir;
    let ghost nc = inputs.case_shapes@.len();
    let ghost shapes = inputs.case_shapes@;
    let ghost ht = types_view(inputs.handler_types@);
    let nc_exec = inputs.case_shapes.len();
    let generic_count = inputs.generic_count;
    let body_fn_id = inputs.body_fn_id;

    // Replaces `Capability` placeholders in the body with the user_data fetch chain.
    expand_handler_caps_in_body(mir, body_fn_id, &inputs.env_type, mco);
    let ghost m1 = *mir;

    let wrapper_ids = id_run(base, 0, nc_exec);
    let (wrappers, wrapper_types) = generate_capability_wrappers(&inputs.case_shapes, mco, generic_count, &wrapper_ids);
    let ghost wrappers0 = wrappers@;
    insert_all(&mut mir.definitions, &wrapper_ids, wrappers);
    let ghost m2 = *mir;
    let cap_tuple_type = Type::tuple(crate::mir::types::clone_types(&wrapper_types));
    let body_wrapper_id = DefinitionId(base.0 + nc_exec as u32);
    let body_wrapper = generate_body_wrapper(
        body_fn_id,
        &inputs.body_typ,
        clone_bindings(&inputs.body_bindings),
        &inputs.env_type,
        &cap_tuple_type,
        result_type,
        mco,
        generic_count,
        body_wrapper_id,
    );
    let body_wrapper_typ = body_wrapper.typ.clone();
    let ghost bw0 = body_wrapper;
    fx_map_insert(&mut mir.definitions, body_wrapper_id, body_wrapper);
    let ghost m3 = *mir;
    let drive_id = DefinitionId(base.0 + nc_exec as u32 + 1);
    let resume_ids = id_run(base, nc_exec as u32 + 2, nc_exec);
    proof {
        assert(resume_ids@ =~= Seq::new(nc, |k: int| resume_id_at(base, nc, k)));
        assert(drive_id == nth_id(base, nc + 1int));
        assert(types_view(inputs.handler_types@).len() == nc);
    }
    let (drive, resumes) = generate_drive_function(
        &inputs.handler_types,
        &inputs.case_shapes,
        result_type,
        mco,
        generic_count,
        drive_id,
        &resume_ids,
    );
    let drive_typ = drive.typ.clone();
    let ghost drive0 = drive;
    let ghost resumes0 = resumes@;
    fx_map_insert(&mut mir.definitions, drive_id, drive);
    let ghost m4 = *mir;
    insert_all(&mut mir.definitions, &resume_ids, resumes);
    proof {
        let bw_id = nth_id(base, nc as int);
        let dr_id = nth_id(base, nc + 1int);
        assert(body_wrapper_id == bw_id);
        assert(drive_id == dr_id);
        assert(!m0.definitions@.contains_key(bw_id));
        assert(!m0.definitions@.contains_key(dr_id));
        assert forall|x: DefinitionId| #[trigger] wrapper_ids@.contains(x) implies !m0.definitions@.contains_key(x) && x != bw_id
            && x != dr_id && !resume_ids@.contains(x) by {
            let j = choose|j: int| 0 <= j < wrapper_ids@.len() && wrapper_ids@[j] == x;
            assert(x == nth_id(base, 0 + j));
            assert(!m0.definitions@.contains_key(nth_id(base, j)));
            if resume_ids@.contains(x) {
                let i = choose|i: int| 0 <= i < resume_ids@.len() && resume_ids@[i] == x;
                assert(x == nth_id(base, (nc + 2) + i));
            }
        }
        assert forall|x: DefinitionId| #[trigger] resume_ids@.contains(x) implies !m0.definitions@.contains_key(x) && x != bw_id
            && x != dr_id by {
            let j = choose|j: int| 0 <= j < resume_ids@.len() && resume_ids@[j] == x;
            assert(x == nth_id(base, (nc + 2) + j));
            assert(!m0.definitions@.contains_key(nth_id(base, (nc + 2) + j)));
        }
        assert(bw_id != dr_id);
        assert(!wrapper_ids@.contains(body_fn_id));
        assert(!resume_ids@.contains(body_fn_id));
        lemma_new_ids(base, nc, wrapper_ids@, resume_ids@);
        // the domain
        assert(mir.definitions@.dom() =~= m0.definitions@.dom() + new_ids(base, nc));
        // the body
        assert(mir.definitions@[body_fn_id] == m1.definitions@[body_fn_id]) by {
            assert(mir.definitions@.get(body_fn_id) == m4.definitions@.get(body_fn_id));
            assert(m3.definitions@.get(body_fn_id) == m2.definitions@.get(body_fn_id));
            assert(m2.definitions@.get(body_fn_id) == m1.definitions@.get(body_fn_id));
        }
        let ds = choose|ds: Seq<Definition>|
            capability_trace(m0.definitions@[body_fn_id], m1.definitions@[body_fn_id], ds, *mco, inputs.env_type@);
        assert(capability_trace(m0.definitions@[body_fn_id], mir.definitions@[body_fn_id], ds, *mco, inputs.env_type@));
        // the wrappers
        assert forall|k: int| 0 <= k < nc implies #[trigger] is_capability_wrapper(
            mir.definitions@[nth_id(base, k)],
            nth_id(base, k),
            *mco,
            shapes[k],
            k as u32,
            generic_count,
        ) by {
            assert(wrapper_ids@[k] == nth_id(base, k));
            assert(wrapper_ids@.contains(nth_id(base, k)));
            assert(m2.definitions@[nth_id(base, k)] == wrappers0[k]);
            assert(mir.definitions@.get(nth_id(base, k)) == m4.definitions@.get(nth_id(base, k)));
        }
        assert(mir.definitions@[bw_id] == bw0) by {
            assert(!resume_ids@.contains(bw_id));
            assert(mir.definitions@.get(bw_id) == m4.definitions@.get(bw_id));
        }
        assert(mir.definitions@[dr_id] == drive0) by {
            assert(!resume_ids@.contains(dr_id));
            assert(mir.definitions@.get(dr_id) == m4.definitions@.get(dr_id));
        }
        assert forall|k: int| 0 <= k < nc implies #[trigger] is_resume_function(
            mir.definitions@[resume_id_at(base, nc, k)],
            resume_id_at(base, nc, k),
            *mco,
            shapes[k].op_return_type@,
            dr_id,
            drive_type(ht, result_type@),
            ht,
            result_type@,
            generic_count,
        ) by {
            assert(resume_ids@[k] == resume_id_at(base, nc, k));
            assert(mir.definitions@[resume_ids@[k]] == resumes0[k]);
        }
        assert forall|id: DefinitionId| id != body_fn_id && !new_ids(base, nc).contains(id) implies #[trigger] mir.definitions@.get(id)
            == m0.definitions@.get(id) by {
            assert(!wrapper_ids@.contains(id));
            assert(!resume_ids@.contains(id));
            assert(mir.definitions@.get(id) == m4.definitions@.get(id));
            assert(m2.definitions@.get(id) == m1.definitions@.get(id));
        }
        assert(is_body_wrapper(
            mir.definitions@[nth_id(base, nc as int)],
            nth_id(base, nc as int),
            *mco,
            body_fn_id,
            m0.definitions@[body_fn_id].typ@,
            inputs.body_bindings,
            inputs.env_type@,
            TypeView::Tuple(wrapper_types_of(shapes)),
            result_type@,
            generic_count,
        ));
        assert(is_drive_function(
            mir.definitions@[dr_id],
            dr_id,
            *mco,
            ht,
            shapes,
            Seq::new(nc, |k: int| resume_id_at(base, nc, k)),
            result_type@,
            generic_count,
        ));
        assert(mir.externals == m0.externals);
        assert(mir.preserved_op_indices == m0.preserved_op_indices);
    }
    (wrapper_ids, wrapper_types, body_wrapper_typ, drive_typ)
}

/// The pieces of a `handle`'s lowering make up [handle_lowered_with].
proof fn lemma_handle_lowered(
    mco: AminicoroFns,
    m0: Mir,
    m5: Mir,
    m6: Mir,
    definition_id: DefinitionId,
    site: HandleSite,
    base: DefinitionId,
    inputs: HandleInputs,
    new_d: Definition,
    wrapper_ids: Seq<DefinitionId>,
    wrapper_types: Seq<TypeView>,
    body_wrapper_typ: TypeView,
    drive_typ: TypeView,
)
    requires
        m0.definitions@.contains_key(definition_id),
        inputs_of(m0, definition_id, site, inputs),
        inputs.body_fn_id != definition_id,
        !new_ids(base, site.cases@.len()).contains(definition_id),
        handle_functions_added(
            mco,
            m0,
            m5,
            inputs.body_fn_id,
            inputs.body_bindings,
            inputs.env_type@,
            types_view(inputs.handler_types@),
            inputs.case_shapes@,
            site.result_type@,
            inputs.generic_count,
            base,
        ),
        m6.definitions@ == m5.definitions@.insert(definition_id, new_d),
        m6.externals == m5.externals,
        m6.preserved_op_indices == m5.preserved_op_indices,
        wrapper_ids == Seq::new(inputs.case_shapes@.len(), |i: int| nth_id(base, 0 + i)),
        wrapper_types == wrapper_types_of(inputs.case_shapes@),
        body_wrapper_typ == body_wrapper_type(),
        drive_typ == drive_type(types_view(inputs.handler_types@), site.result_type@),
        ({
            let code = handle_site_code(
                mco,
                m0.definitions@[definition_id].instructions@.len(),
                wrapper_ids,
                wrapper_types,
                inputs.body_env,
                inputs.env_type@,
                nth_id(base, site.cases@.len() as int),
                body_wrapper_typ,
                nth_id(base, site.cases@.len() + 1int),
                drive_typ,
                inputs.handlers@,
                site.result_type@,
                inputs.generic_count,
            );
            site_replaced(m0.definitions@[definition_id], new_d, site.block, site.index, site.id, code.0, code.1, code.2)
        }),
    ensures
        handle_lowered_with(mco, m0, m6, definition_id, site, base, inputs.case_shapes@),
{
    let nc = site.cases@.len();
    let d0 = m0.definitions@[definition_id];
    let body_id = inputs.body_fn_id;
    assert(types_view(inputs.handler_types@).len() == nc);
    assert(wrapper_ids =~= Seq::new(nc, |i: int| nth_id(base, i)));
    assert(m6.definitions@.dom() =~= m0.definitions@.dom() + new_ids(base, nc)) by {
        assert(m0.definitions@.dom().contains(definition_id));
    }
    assert(m6.definitions@[body_id] == m5.definitions@[body_id]);
    let ds = choose|ds: Seq<Definition>|
        capability_trace(m0.definitions@[body_id], m5.definitions@[body_id], ds, mco, inputs.env_type@);
    assert(capability_trace(m0.definitions@[body_id], m6.definitions@[body_id], ds, mco, inputs.env_type@));
    assert forall|k: int| 0 <= k < nc implies #[trigger] is_capability_wrapper(
        m6.definitions@[nth_id(base, k)],
        nth_id(base, k),
        mco,
        inputs.case_shapes@[k],
        k as u32,
        inputs.generic_count,
    ) by {
        assert(new_ids(base, nc).contains(nth_id(base, k)));
        assert(m6.definitions@[nth_id(base, k)] == m5.definitions@[nth_id(base, k)]);
        assert(is_capability_wrapper(
            m5.definitions@[nth_id(base, k)],
            nth_id(base, k),
            mco,
            inputs.case_shapes@[k],
            k as u32,
            inputs.generic_count,
        ));
    }
    assert(new_ids(base, nc).contains(nth_id(base, nc as int)));
    assert(new_ids(base, nc).contains(nth_id(base, nc + 1int)));
    assert forall|k: int| 0 <= k < nc implies #[trigger] is_resume_function(
        m6.definitions@[resume_id_at(base, nc, k)],
        resume_id_at(base, nc, k),
        mco,
        inputs.case_shapes@[k].op_return_type@,
        nth_id(base, nc + 1int),
        drive_type(types_view(inputs.handler_types@), site.result_type@),
        types_view(inputs.handler_types@),
        site.result_type@,
        inputs.generic_count,
    ) by {
        assert(new_ids(base, nc).contains(nth_id(base, nc + 2 + k)));
        assert(m6.definitions@[resume_id_at(base, nc, k)] == m5.definitions@[resume_id_at(base, nc, k)]);
        assert(is_resume_function(
            m5.definitions@[resume_id_at(base, nc, k)],
            resume_id_at(base, nc, k),
            mco,
            inputs.case_shapes@[k].op_return_type@,
            nth_id(base, nc + 1int),
            drive_type(types_view(inputs.handler_types@), site.result_type@),
            types_view(inputs.handler_types@),
            site.result_type@,
            inputs.generic_count,
        ));
    }
    assert forall|id: DefinitionId|
        id != definition_id && id != body_id && !new_ids(base, nc).contains(id) implies #[trigger] m6.definitions@.get(id)
        == m0.definitions@.get(id) by {
        assert(m5.definitions@.get(id) == m0.definitions@.get(id));
    }
}

/// Lowers the `handle` at `site` of definition `definition_id`, with new definitions under the
/// `2 * cases + 2` ids from `base` on: the body's capabilities are expanded, a capability
/// wrapper is generated per case, then the body wrapper, the drive and its resume functions, and
/// the site is replaced by the coroutine's set-up, the drive's call under the handle's id, and
/// the coroutine's release (see [handle_lowered_with]).
#[verifier::rlimit(60)]
pub fn rewrite_single_handle(mir: &mut Mir, definition_id: DefinitionId, site: &HandleSite, mco: &AminicoroFns, base: DefinitionId)
    requires
        handle_lowerable(*mco, *old(mir), definition_id, *site, base),
    ensures
        exists|shapes: Seq<CaseShape>| #[trigger] handle_lowered_with(*mco, *old(mir), *final(mir), definition_id, *site, base, shapes),
{
    let ghost m0 = *mir;
    let ghost d0 = m0.definitions@[definition_id];
    let ghost nc = site.cases@.len();
    let inputs = gather_handle_inputs(mir, definition_id, site, Ghost(*mco), Ghost(base));
    let ghost shapes = inputs.case_shapes@;
    proof {
        lemma_functions_fit(*mco, m0, definition_id, *site, base, inputs);
    }
    let (wrapper_ids, wrapper_types, body_wrapper_typ, drive_typ) = add_handle_functions(mir, &inputs, &site.result_type, mco, base);
    let ghost m5 = *mir;
    let ghost bwt = body_wrapper_typ@;
    let ghost dt = drive_typ@;
    assert(types_view(wrapper_types@).len() == wrapper_types@.len());
    proof {
        assert(!new_ids(base, nc).contains(definition_id)) by {
            if new_ids(base, nc).contains(definition_id) {
                let j = choose|j: int| 0 <= j < 2 * nc + 2 && definition_id == #[trigger] nth_id(base, j);
                assert(!m0.definitions@.contains_key(nth_id(base, j)));
            }
        }
        assert(m5.definitions@.get(definition_id) == m0.definitions@.get(definition_id));
    }
    let mut definition = take_definition(mir, definition_id);
    emit_handle_replacement(
        &mut definition,
        site.block,
        site.index,
        site.id,
        &wrapper_ids,
        &wrapper_types,
        inputs.body_env,
        &inputs.env_type,
        DefinitionId(base.0 + site.cases.len() as u32),
        body_wrapper_typ,
        DefinitionId(base.0 + site.cases.len() as u32 + 1),
        drive_typ,
        &inputs.handlers,
        &site.result_type,
        mco,
        inputs.generic_count,
    );
    let ghost new_d = definition;
    fx_map_insert(&mut mir.definitions, definition_id, definition);
    proof {
        assert(mir.definitions@ =~= m5.definitions@.insert(definition_id, new_d));
        lemma_handle_lowered(
            *mco,
            m0,
            m5,
            *mir,
            definition_id,
            *site,
            base,
            inputs,
            new_d,
            wrapper_ids@,
            types_view(wrapper_types@),
            bwt,
            dt,
        );
    }
}

} // verus!
