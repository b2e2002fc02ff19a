//! Deciding whether a `handle` can be lowered (see [handle_lowerable]).
use crate::fx::{fx_map_contains_key, fx_map_get};
use crate::mir::definition::{Definition, spec_type_of_value, value_in_bounds};
use crate::mir::effects::code_size::capped;
use crate::mir::effects::coroutine_wrappers::cap_wrapper_code;
use crate::mir::effects::drive::coro_fns_typed;
use crate::mir::effects::handle_lowering::{
    capabilities_expandable, capability_places, collect_capability_places, handle_body, handle_fits_v, handle_lowerable,
    handler_types_of, handlers_of, shape_of_view,
};
use crate::mir::effects::handle_sizes::{
    body_wrapper_len, body_wrapper_size, cap_wrapper_len, cap_wrapper_len_v, cap_wrapper_size, drive_len, drive_len_v,
    drive_size, forward_len, handler_args, handler_ret, lemma_drive_len_v, resume_len, resume_size, shapes_match,
};
use crate::mir::effects::lowering::{
    AminicoroFns, CaseShape, HandleSite, case_shape_from_handler_type, ids_resolve, is_handler_type, resolve_id,
    sites_well_formed, spec_resolve_id, spec_unpack, unpack_in_bounds,
};
use crate::mir::effects::site_rewrite::{place_valid, values_typed};
use crate::mir::effects::tail_resume_pass::{
    block_instructions_in_bounds_check, ids_resolve_check, is_handler_view, lemma_handler_type_view, nth_id,
};
use crate::mir::instruction::Instruction;
use crate::mir::program::Mir;
use crate::mir::types::{Type, TypeView, lemma_types_view, types_view};
use crate::mir::values::{DefinitionId, Value};
use vstd::prelude::*;

verus! {

broadcast use lemma_types_view;

/// Whether the definition's sites can be collected (see [sites_well_formed]).
pub fn sites_well_formed_check(d: &Definition) -> (r: bool)
    ensures
        r == sites_well_formed(*d),
{
    d.instructions.len() == d.instruction_result_types.len() && d.blocks.len() <= 0xffff_ffff
        && block_instructions_in_bounds_check(d)
}

/// Whether the body's capabilities can be expanded (see [capabilities_expandable]).
fn capabilities_expandable_check(body: &Definition) -> (r: bool)
    ensures
        r == capabilities_expandable(*body),
{
    if !sites_well_formed_check(body) {
        return false;
    }
    let places = collect_capability_places(body);
    let count = places.len() as u64;
    (body.instructions.len() as u64) < 0xffff_fffe && count < 0x3333_3333 && (body.instructions.len() as u64) + 5 * count
        + 1 < 0xffff_ffff
}

/// Whether `value` names an instruction that exists and has a type within `d`.
fn value_typed_check(d: &Definition, value: &Value, mir: &Mir) -> (r: bool)
    ensures
        r == (value_in_bounds(*d, *value) && spec_type_of_value(*d, *value, mir.externals@, mir.definitions@) is Some),
{
    if let Value::InstructionResult(id) = value {
        if id.0 as usize >= d.instruction_result_types.len() {
            return false;
        }
    }
    d.try_type_of_value(value, &mir.externals, &mir.definitions).is_some()
}

/// The view shape of a handler's type decides the sizes of what is generated for it.
proof fn lemma_shape_sizes(t: TypeView, shape: CaseShape)
    requires
        shape_of_view(t, shape),
    ensures
        cap_wrapper_len(shape) == cap_wrapper_len_v(t),
        types_view(shape.op_arg_types@) == handler_args(t),
        shape.op_return_type@ == handler_ret(t),
{
}

/// Whether every generated function fits (see [handle_fits_v]), with the shapes of the handlers.
fn handle_fits_check(
    d: &Definition,
    site: &HandleSite,
    handler_types: &Vec<Type>,
    shapes: &Vec<CaseShape>,
    body_typ: &Type,
    bindings: &Option<std::sync::Arc<crate::mir::instruction::GenericBindings>>,
    Ghost(mco): Ghost<AminicoroFns>,
    Ghost(mir): Ghost<Mir>,
    Ghost(definition_id): Ghost<DefinitionId>,
) -> (r: bool)
    requires
        mir.definitions@.contains_key(definition_id),
        *d == mir.definitions@[definition_id],
        mir.definitions@.contains_key(handle_body(*d, *site).0),
        body_typ@ == mir.definitions@[handle_body(*d, *site).0].typ@,
        *bindings == handle_body(*d, *site).2,
        handler_types@.len() == site.cases@.len(),
        types_view(handler_types@) == handler_types_of(*d, *site, mir.externals@, mir.definitions@),
        shapes@.len() == site.cases@.len(),
        forall|k: int| 0 <= k < shapes@.len() ==> #[trigger] shape_of_view(types_view(handler_types@)[k], shapes@[k]),
    ensures
        r == handle_fits_v(mco, mir, definition_id, *site),
{
    let ghost ht = types_view(handler_types@);
    let ghost nc = site.cases@.len();
    let n = site.cases.len();
    let gc = d.generic_count;
    proof {
        assert forall|k: int| 0 <= k < nc implies types_view((#[trigger] shapes@[k]).op_arg_types@) == handler_args(ht[k])
            && shapes@[k].op_return_type@ == handler_ret(ht[k]) by {
            lemma_shape_sizes(ht[k], shapes@[k]);
        }
        assert(shapes_match(ht, shapes@));
    }
    let mut k: usize = 0;
    while k < n
        invariant
            0 <= k <= n,
            n == nc,
            shapes@.len() == nc,
            ht == types_view(handler_types@),
            ht == handler_types_of(*d, *site, mir.externals@, mir.definitions@),
            *d == mir.definitions@[definition_id],
            ht.len() == nc,
            nc == site.cases@.len(),
            gc == d.generic_count,
            forall|i: int| 0 <= i < shapes@.len() ==> #[trigger] shape_of_view(ht[i], shapes@[i]),
            forall|i: int| 0 <= i < k ==> handler_args(#[trigger] ht[i]).len() < u32::MAX,
            forall|i: int| 0 <= i < k ==> cap_wrapper_len_v(#[trigger] ht[i]) < u32::MAX,
            forall|i: int| 0 <= i < k ==> resume_len(handler_ret(#[trigger] ht[i]), nc, gc) < u32::MAX,
        decreases n - k,
    {
        let shape = &shapes[k];
        proof {
            lemma_shape_sizes(ht[k as int], *shape);
            assert(types_view(shape.op_arg_types@).len() == shape.op_arg_types@.len());
        }
        if shape.op_arg_types.len() >= 0xffff_ffff {
            assert(handler_args(ht[k as int]).len() >= u32::MAX);
            return false;
        }
        if cap_wrapper_size(shape) >= 0xffff_ffff {
            assert(cap_wrapper_len_v(ht[k as int]) >= u32::MAX);
            return false;
        }
        if resume_size(&shape.op_return_type, n, gc) >= 0xffff_ffff {
            assert(resume_len(handler_ret(ht[k as int]), nc, gc) >= u32::MAX);
            return false;
        }
        k = k + 1;
    }
    if body_wrapper_size(body_typ, bindings, &site.result_type) >= 0xffff_ffff {
        return false;
    }
    proof {
        lemma_drive_len_v(ht, shapes@, site.result_type@, gc);
    }
    if drive_size(shapes, &site.result_type, gc) >= 0xffff_ffff {
        return false;
    }
    let forward: u64 = if gc == 0 {
        0
    } else {
        1
    };
    let len = d.instructions.len() as u64;
    if len >= 0xffff_ffff || (n as u64) >= 0xffff_ffff {
        return false;
    }
    len + 11 + n as u64 + 2 * forward + 3 < 0xffff_ffff
}

/// Whether the `handle` at `site` of definition `definition_id` can be lowered with the ids from
/// `base` on (see [handle_lowerable]).
pub fn handle_lowerable_check(mco: &AminicoroFns, mir: &Mir, definition_id: DefinitionId, site: &HandleSite, base: DefinitionId) -> (r: bool)
    requires
        coro_fns_typed(*mco),
    ensures
        r == handle_lowerable(*mco, *mir, definition_id, *site, base),
{
    let d = match fx_map_get(&mir.definitions, definition_id) {
        Some(d) => d,
        None => return false,
    };
    let b = site.block.0 as usize;
    if b >= d.blocks.len() || site.index >= d.blocks[b].instructions.len() || d.blocks[b].instructions[site.index]
        != site.id {
        return false;
    }
    if site.id.0 as usize >= d.instructions.len() || d.instructions.len() != d.instruction_result_types.len() {
        return false;
    }
    // the body
    let mut function = site.body;
    let mut env: Option<Value> = None;
    if let Value::InstructionResult(i) = site.body {
        if i.0 as usize >= d.instructions.len() {
            return false;
        }
        if let Instruction::PackClosure { function: f, environment } = &d.instructions[i.0 as usize] {
            function = *f;
            env = Some(*environment);
        }
    }
    assert((function, env) == spec_unpack(site.body, d.instructions@));
    if !ids_resolve_check(function, d) {
        return false;
    }
    let (body_id, bindings) = match resolve_id(function, d) {
        Some(x) => x,
        None => return false,
    };
    assert(handle_body(*d, *site) == (body_id, env, bindings));
    if let Some(e) = &env {
        if !value_typed_check(d, e, mir) {
            return false;
        }
    }
    // the handlers
    let ghost handlers = handlers_of(*site);
    let mut handler_types: Vec<Type> = Vec::new();
    let mut shapes: Vec<CaseShape> = Vec::new();
    let mut k: usize = 0;
    while k < site.cases.len()
        invariant
            0 <= k <= site.cases@.len(),
            handlers == handlers_of(*site),
            handlers.len() == site.cases@.len(),
            d == mir.definitions@[definition_id],
            forall|i: int| 0 <= i < k ==> value_in_bounds(*d, #[trigger] handlers[i]) && spec_type_of_value(
                *d,
                handlers[i],
                mir.externals@,
                mir.definitions@,
            ) is Some,
            handler_types@.len() == k,
            types_view(handler_types@) == crate::mir::effects::site_rewrite::value_types(
                *d,
                handlers.subrange(0, k as int),
                mir.externals@,
                mir.definitions@,
            ),
            forall|i: int| 0 <= i < k ==> is_handler_view(#[trigger] types_view(handler_types@)[i]),
            shapes@.len() == k,
            forall|i: int| 0 <= i < k ==> #[trigger] shape_of_view(types_view(handler_types@)[i], shapes@[i]),
        decreases site.cases@.len() - k,
    {
        let h = site.cases[k].handler;
        assert(h == handlers[k as int]);
        if !value_typed_check(d, &h, mir) {
            return false;
        }
        let t = d.try_type_of_value(&h, &mir.externals, &mir.definitions).unwrap();
        proof {
            lemma_handler_type_view(t);
        }
        let shape = match case_shape_from_handler_type(&t) {
            Some(s) => s,
            None => {
                proof {
                    let views = crate::mir::effects::site_rewrite::value_types(*d, handlers, mir.externals@, mir.definitions@);
                    assert(views[k as int] == t@);
                    assert(!is_handler_view(views[k as int]));
                }
                return false;
            },
        };
        proof {
            crate::mir::effects::handle_lowering::lemma_shape_view(t, shape);
        }
        let ghost before = handler_types@;
        handler_types.push(t);
        shapes.push(shape);
        proof {
            crate::mir::types::lemma_types_view_push(before, t);
            assert(handlers.subrange(0, k + 1) =~= handlers.subrange(0, k as int).push(h));
            assert(crate::mir::effects::site_rewrite::value_types(*d, handlers.subrange(0, k + 1), mir.externals@, mir.definitions@)
                =~= crate::mir::effects::site_rewrite::value_types(
                *d,
                handlers.subrange(0, k as int),
                mir.externals@,
                mir.definitions@,
            ).push(t@));
        }
        k = k + 1;
    }
    proof {
        assert(handlers.subrange(0, k as int) =~= handlers);
    }
    // the body definition
    let body = match fx_map_get(&mir.definitions, body_id) {
        Some(body) => body,
        None => return false,
    };
    if body_id == definition_id || !capabilities_expandable_check(body) {
        return false;
    }
    // the ids
    let nc = site.cases.len() as u64;
    if nc >= 0xffff_fff0 || (base.0 as u64) + 2 * nc + 2 > 0xffff_ffff {
        return false;
    }
    let count = 2 * site.cases.len() as u32 + 2;
    let mut j: u32 = 0;
    while j < count
        invariant
            0 <= j <= count,
            base.0 + count <= u32::MAX,
            count == 2 * site.cases@.len() + 2,
            forall|i: int| 0 <= i < j ==> !mir.definitions@.contains_key(#[trigger] nth_id(base, i)),
        decreases count - j,
    {
        let id = DefinitionId(base.0 + j);
        assert(id == nth_id(base, j as int));
        if fx_map_contains_key(&mir.definitions, id) {
            assert(count == 2 * site.cases@.len() + 2);
            assert(mir.definitions@.contains_key(nth_id(base, j as int)));
            return false;
        }
        j = j + 1;
    }
    handle_fits_check(
        d,
        site,
        &handler_types,
        &shapes,
        &body.typ,
        &bindings,
        Ghost(*mco),
        Ghost(*mir),
        Ghost(definition_id),
    )
}

} // verus!
