//! Lower [crate::mir::instruction::Instruction::Handle] and
//! [crate::mir::instruction::Instruction::Perform] into aminicoro primitives.
//!
//! Each Handler expression lowers into:
//! - An init function wrapping the handled expression
//! - Creating the coroutine via `mco_coro_init` with the init function
//! - Creating a `drive` function to resume the coroutine, which gets passed
//!   as the capability value.
//!
//! Each effect performed uses `mco_coro_push` to push the relevant arguments
//! to the effect, followed by the tag of the effect performed, before calling
//! the driver function which will resume the handler, match on the effect,
//! and dispatch to the relevant handler branch.
use crate::fx::{DefinitionMap, fx_map_get, fx_map_insert, fx_map_keys, fx_map_new};
use crate::mir::definition::{Definition, spec_type_of_value, value_in_bounds};
use crate::mir::effects::drive::coro_fns_typed;
use crate::mir::effects::handle_check::{handle_lowerable_check, sites_well_formed_check};
use crate::mir::effects::handle_lowering::{handle_lowerable, handle_lowered_with, rewrite_single_handle};
use crate::mir::effects::handle_worklist::sites_of;
use crate::mir::effects::lowering::{
    AminicoroFns, CaseShape, HandleSite, aminicoro_fns, collect_handle_sites, collect_perform_sites, int_view,
    perform_site_matches, pointer_view, sites_well_formed, spec_ptr_fn,
};
use crate::mir::effects::site_rewrite::{
    lower_performs_in_definition, perform_lowerable_at, perform_places, performs_lowerable, performs_lowered,
};
use crate::mir::instruction::Instruction;
use crate::mir::program::{Mir, mentions};
use crate::mir::types::{IntegerKind, PrimitiveType, Type, TypeView, lemma_types_view, types_view};
use crate::mir::values::{DefinitionId, Value};
use vstd::prelude::*;

verus! {

broadcast use lemma_types_view;

/// Instruction `j` of definition `k` performs or handles an effect.
pub open spec fn is_effect_instruction(mir: Mir, k: DefinitionId, j: int) -> bool {
    &&& mir.definitions@.contains_key(k)
    &&& 0 <= j < mir.definitions@[k].instructions@.len()
    &&& (mir.definitions@[k].instructions@[j] is Perform || mir.definitions@[k].instructions@[j] is Handle)
}

/// Some definition of the program performs or handles an effect.
pub open spec fn spec_contains_effects(mir: Mir) -> bool {
    exists|k: DefinitionId, j: int| #[trigger] is_effect_instruction(mir, k, j)
}

/// Whether any instruction of `definition` performs or handles an effect.
fn definition_has_effects(definition: &Definition) -> (r: bool)
    ensures
        r == exists|j: int|
            0 <= j < definition.instructions@.len() && (definition.instructions@[j] is Perform
                || definition.instructions@[j] is Handle),
{
    let mut j: usize = 0;
    while j < definition.instructions.len()
        invariant
            0 <= j <= definition.instructions@.len(),
            forall|x: int|
                0 <= x < j ==> !(definition.instructions@[x] is Perform || definition.instructions@[x] is Handle),
        decreases definition.instructions@.len() - j,
    {
        match &definition.instructions[j] {
            Instruction::Perform { .. } | Instruction::Handle { .. } => return true,
            _ => {},
        }
        j = j + 1;
    }
    false
}

/// Whether any definition performs or handles an effect.
pub fn contains_effects(mir: &Mir) -> (r: bool)
    ensures
        r == spec_contains_effects(*mir),
{
    let keys = fx_map_keys(&mir.definitions);
    let mut i: usize = 0;
    while i < keys.len()
        invariant
            0 <= i <= keys@.len(),
            keys@.to_set() == mir.definitions@.dom(),
            forall|x: int, j: int| 0 <= x < i ==> !#[trigger] is_effect_instruction(*mir, keys@[x], j),
        decreases keys@.len() - i,
    {
        let definition = fx_map_get(&mir.definitions, keys[i]).unwrap();
        if definition_has_effects(definition) {
            proof {
                let j = choose|j: int|
                    0 <= j < definition.instructions@.len() && (definition.instructions@[j] is Perform
                        || definition.instructions@[j] is Handle);
                assert(is_effect_instruction(*mir, keys@[i as int], j));
            }
            return true;
        }
        i = i + 1;
    }
    proof {
        assert forall|k: DefinitionId, j: int| !#[trigger] is_effect_instruction(*mir, k, j) by {
            if is_effect_instruction(*mir, k, j) {
                assert(keys@.to_set().contains(k));
                let x = choose|x: int| 0 <= x < keys@.len() && keys@[x] == k;
                assert(!is_effect_instruction(*mir, keys@[x], j));
            }
        }
    }
    false
}

/// Case `c` of the `Handle` that is instruction `j` of definition `k` handles `op`.
pub open spec fn handle_case_at(mir: Mir, k: DefinitionId, j: int, c: int, op: DefinitionId) -> bool {
    &&& mir.definitions@.contains_key(k)
    &&& 0 <= j < mir.definitions@[k].instructions@.len()
    &&& mir.definitions@[k].instructions@[j] matches Instruction::Handle { cases, .. }
    &&& 0 <= c < cases@.len()
    &&& cases@[c].effect_op == op
}

/// Some `Handle` of the program handles `op` in its case `i`.
pub open spec fn handled_at(mir: Mir, op: DefinitionId, i: int) -> bool {
    exists|k: DefinitionId, j: int| #[trigger] handle_case_at(mir, k, j, i, op)
}

/// Every `Handle` of the program has at most `u32::MAX` cases, so that a case's position fits
/// in a `u32`.
pub open spec fn handle_cases_fit(mir: Mir) -> bool {
    forall|k: DefinitionId, j: int|
        #![trigger mir.definitions@[k].instructions@[j]]
        mir.definitions@.contains_key(k) && 0 <= j < mir.definitions@[k].instructions@.len() ==> (
        mir.definitions@[k].instructions@[j] matches Instruction::Handle { cases, .. } ==> cases@.len() <= u32::MAX)
}

/// `index` maps each effect operation to its position within its effect: every operation that
/// a `Handle` handles, and every preserved one, has an entry; a preserved operation has its
/// preserved position, and any other one a position at which some `Handle` handles it.
pub open spec fn op_index_of(mir: Mir, index: Map<DefinitionId, u32>) -> bool {
    &&& forall|op: DefinitionId, i: int| #[trigger] handled_at(mir, op, i) ==> index.contains_key(op)
    &&& forall|op: DefinitionId|
        #[trigger] mir.preserved_op_indices@.contains_key(op) ==> index.contains_key(op) && index[op]
            == mir.preserved_op_indices@[op]
    &&& forall|op: DefinitionId|
        #[trigger] index.contains_key(op) ==> mir.preserved_op_indices@.contains_key(op) || handled_at(mir, op, index[op] as int)
}

/// Mapping from an effect-op DefinitionId to its position within its parent effect (see
/// [op_index_of]). Where `Handle`s disagree on an operation's position, which of them wins
/// depends on the order in which the definitions are visited.
pub fn build_op_index(mir: &Mir) -> (r: DefinitionMap<u32>)
    requires
        handle_cases_fit(*mir),
    ensures
        op_index_of(*mir, r@),
{
    let mut index: DefinitionMap<u32> = fx_map_new();
    let keys = fx_map_keys(&mir.definitions);
    let mut x: usize = 0;
    while x < keys.len()
        invariant
            0 <= x <= keys@.len(),
            handle_cases_fit(*mir),
            keys@.to_set() == mir.definitions@.dom(),
            forall|op: DefinitionId| #[trigger] index@.contains_key(op) ==> handled_at(*mir, op, index@[op] as int),
            forall|y: int, j: int, c: int, op: DefinitionId|
                0 <= y < x && #[trigger] handle_case_at(*mir, keys@[y], j, c, op) ==> index@.contains_key(op),
        decreases keys@.len() - x,
    {
        let k = keys[x];
        let definition = fx_map_get(&mir.definitions, k).unwrap();
        let mut j: usize = 0;
        while j < definition.instructions.len()
            invariant
                0 <= j <= definition.instructions@.len(),
                0 <= x < keys@.len(),
                k == keys@[x as int],
                mir.definitions@.contains_key(k),
                *definition == mir.definitions@[k],
                handle_cases_fit(*mir),
                forall|op: DefinitionId| #[trigger] index@.contains_key(op) ==> handled_at(*mir, op, index@[op] as int),
                forall|y: int, jj: int, c: int, op: DefinitionId|
                    0 <= y < x && #[trigger] handle_case_at(*mir, keys@[y], jj, c, op) ==> index@.contains_key(op),
                forall|jj: int, c: int, op: DefinitionId|
                    0 <= jj < j && #[trigger] handle_case_at(*mir, k, jj, c, op) ==> index@.contains_key(op),
            decreases definition.instructions@.len() - j,
        {
            if let Instruction::Handle { cases, .. } = &definition.instructions[j] {
                assert(cases@.len() <= u32::MAX);
                let mut c: usize = 0;
                while c < cases.len()
                    invariant
                        0 <= c <= cases@.len(),
                        cases@.len() <= u32::MAX,
                        0 <= j < definition.instructions@.len(),
                        0 <= x < keys@.len(),
                        k == keys@[x as int],
                        mir.definitions@.contains_key(k),
                        *definition == mir.definitions@[k],
                        definition.instructions@[j as int] matches Instruction::Handle { cases: cs, .. } && cs == cases,
                        forall|op: DefinitionId|
                            #[trigger] index@.contains_key(op) ==> handled_at(*mir, op, index@[op] as int),
                        forall|y: int, jj: int, cc: int, op: DefinitionId|
                            0 <= y < x && #[trigger] handle_case_at(*mir, keys@[y], jj, cc, op) ==> index@.contains_key(op),
                        forall|jj: int, cc: int, op: DefinitionId|
                            0 <= jj < j && #[trigger] handle_case_at(*mir, k, jj, cc, op) ==> index@.contains_key(op),
                        forall|cc: int, op: DefinitionId|
                            0 <= cc < c && #[trigger] handle_case_at(*mir, k, j as int, cc, op) ==> index@.contains_key(op),
                    decreases cases@.len() - c,
                {
                    let op = cases[c].effect_op;
                    proof {
                        assert(handle_case_at(*mir, k, j as int, c as int, op));
                    }
                    fx_map_insert(&mut index, op, c as u32);
                    c = c + 1;
                }
            }
            j = j + 1;
        }
        x = x + 1;
    }
    // Merge in entries recovered from Handles that the tail-resume optimization removed before
    // this pass ran. These are op→index pairs that lower_effects would have built itself if the
    // Handles were still around.
    let preserved = fx_map_keys(&mir.preserved_op_indices);
    let ghost built = index@;
    let mut p: usize = 0;
    while p < preserved.len()
        invariant
            0 <= p <= preserved@.len(),
            preserved@.to_set() == mir.preserved_op_indices@.dom(),
            forall|op: DefinitionId| #[trigger] built.contains_key(op) ==> index@.contains_key(op),
            forall|op: DefinitionId|
                #[trigger] index@.contains_key(op) ==> mir.preserved_op_indices@.contains_key(op) || (built.contains_key(op)
                    && index@[op] == built[op]),
            forall|q: int|
                0 <= q < p ==> #[trigger] index@.contains_key(preserved@[q]) && index@[preserved@[q]]
                    == mir.preserved_op_indices@[preserved@[q]],
            preserved@.no_duplicates(),
            forall|op: DefinitionId| #[trigger] built.contains_key(op) ==> handled_at(*mir, op, built[op] as int),
        decreases preserved@.len() - p,
    {
        let op = preserved[p];
        let i = *fx_map_get(&mir.preserved_op_indices, op).unwrap();
        fx_map_insert(&mut index, op, i);
        proof {
            assert forall|q: int| 0 <= q < p + 1 implies #[trigger] index@.contains_key(preserved@[q]) && index@[preserved@[q]]
                == mir.preserved_op_indices@[preserved@[q]] by {
                if q < p {
                    assert(preserved@[q] != op);
                }
            }
        }
        p = p + 1;
    }
    proof {
        assert forall|op: DefinitionId, i: int| #[trigger] handled_at(*mir, op, i) implies index@.contains_key(op) by {
            let (k, j) = choose|k: DefinitionId, j: int| #[trigger] handle_case_at(*mir, k, j, i, op);
            assert(keys@.to_set().contains(k));
            let y = choose|y: int| 0 <= y < keys@.len() && keys@[y] == k;
            assert(handle_case_at(*mir, keys@[y], j, i, op));
            assert(built.contains_key(op));
        }
        assert forall|op: DefinitionId| #[trigger] mir.preserved_op_indices@.contains_key(op) implies index@.contains_key(op)
            && index@[op] == mir.preserved_op_indices@[op] by {
            assert(preserved@.to_set().contains(op));
            let q = choose|q: int| 0 <= q < preserved@.len() && preserved@[q] == op;
            assert(index@.contains_key(preserved@[q]));
        }
        assert forall|op: DefinitionId| #[trigger] index@.contains_key(op) implies mir.preserved_op_indices@.contains_key(op)
            || handled_at(*mir, op, index@[op] as int) by {
            if !mir.preserved_op_indices@.contains_key(op) {
                assert(built.contains_key(op) && index@[op] == built[op]);
            }
        }
    }
    index
}

/// Whether every `Perform` of `d` can be lowered with `index` (see [performs_lowerable]).
pub fn performs_lowerable_check(d: &Definition, index: &DefinitionMap<u32>, mir: &Mir) -> (r: bool)
    ensures
        r == performs_lowerable(*d, index@, mir.externals@, mir.definitions@),
{
    if !sites_well_formed_check(d) {
        return false;
    }
    let sites = collect_perform_sites(d);
    let ghost places = perform_places(*d);
    if d.instructions.len() >= 0xffff_ffff || sites.len() >= 0xffff_ffff || d.instructions.len() as u64 + sites.len() as u64
        + 1 >= 0xffff_ffff {
        return false;
    }
    let mut k: usize = 0;
    while k < sites.len()
        invariant
            0 <= k <= sites@.len(),
            sites@.len() == places.len(),
            places == perform_places(*d),
            sites_well_formed(*d),
            forall|j: int| 0 <= j < sites@.len() ==> perform_site_matches(*d, places[j], #[trigger] sites@[j]),
            forall|j: int|
                0 <= j < k ==> #[trigger] perform_lowerable_at(*d, places[j], index@, mir.externals@, mir.definitions@),
        decreases sites@.len() - k,
    {
        let site = &sites[k];
        proof {
            assert(perform_site_matches(*d, places[k as int], *site));
        }
        let ghost place = places[k as int];
        let slot = match fx_map_get(index, site.op) {
            Some(slot) => *slot,
            None => {
                assert(!perform_lowerable_at(*d, place, index@, mir.externals@, mir.definitions@));
                return false;
            },
        };
        let count = site.arguments.len();
        if count == 0 {
            assert(!perform_lowerable_at(*d, place, index@, mir.externals@, mir.definitions@));
            return false;
        }
        let mut a: usize = 0;
        while a < count
            invariant
                0 <= a <= count,
                count == site.arguments@.len(),
                perform_site_matches(*d, place, *site),
                0 <= k < places.len(),
                place == places[k as int],
                places == perform_places(*d),
                forall|i: int|
                    0 <= i < a ==> value_in_bounds(*d, #[trigger] site.arguments@[i]) && spec_type_of_value(
                        *d,
                        site.arguments@[i],
                        mir.externals@,
                        mir.definitions@,
                    ) is Some,
            decreases count - a,
        {
            if let Value::InstructionResult(id) = site.arguments[a] {
                if id.0 as usize >= d.instruction_result_types.len() {
                    assert(!value_in_bounds(*d, site.arguments@[a as int]));
                    assert(!perform_lowerable_at(*d, place, index@, mir.externals@, mir.definitions@));
                    return false;
                }
            }
            if d.try_type_of_value(&site.arguments[a], &mir.externals, &mir.definitions).is_none() {
                assert(spec_type_of_value(*d, site.arguments@[a as int], mir.externals@, mir.definitions@) is None);
                assert(!perform_lowerable_at(*d, place, index@, mir.externals@, mir.definitions@));
                return false;
            }
            a = a + 1;
        }
        let cap_type = d.try_type_of_value(&site.arguments[count - 1], &mir.externals, &mir.definitions).unwrap();
        assert(site.arguments@.last() == site.arguments@[count - 1]);
        if let Type::Tuple(fields) = &cap_type {
            assert(types_view(fields@).len() == fields@.len());
            if slot as usize >= fields.len() {
                assert(!perform_lowerable_at(*d, place, index@, mir.externals@, mir.definitions@));
                return false;
            }
        }
        assert(perform_lowerable_at(*d, place, index@, mir.externals@, mir.definitions@));
        k = k + 1;
    }
    true
}

/// `base` is the id [Mir::next_free_id] gives: past every id the program mentions, and right
/// after the largest.
pub open spec fn is_next_free(mir: Mir, base: DefinitionId) -> bool {
    &&& forall|x: DefinitionId| mentions(mir, x) ==> x.0 < base.0
    &&& base.0 == 0 || mentions(mir, DefinitionId((base.0 - 1) as u32))
}

/// There is one next free id.
proof fn lemma_next_free_unique(mir: Mir, a: DefinitionId, b: DefinitionId)
    requires
        is_next_free(mir, a),
        is_next_free(mir, b),
    ensures
        a == b,
{
    if a.0 < b.0 {
        assert(mentions(mir, DefinitionId((b.0 - 1) as u32)));
    } else if b.0 < a.0 {
        assert(mentions(mir, DefinitionId((a.0 - 1) as u32)));
    }
}

/// The `handle` at `site` of definition `definition_id` can be lowered with the ids from the
/// next free id `base` on.
pub open spec fn lowerable_from(mco: AminicoroFns, mir: Mir, definition_id: DefinitionId, site: HandleSite, base: DefinitionId) -> bool {
    is_next_free(mir, base) && handle_lowerable(mco, mir, definition_id, site, base)
}

/// One `handle` of the pass: lowered with the ids from the next free id on where it can be
/// ([handle_lowered_with]); otherwise nothing changes.
pub open spec fn handle_step(mco: AminicoroFns, before: Mir, after: Mir, definition_id: DefinitionId, site: HandleSite) -> bool {
    if exists|base: DefinitionId| #[trigger] lowerable_from(mco, before, definition_id, site, base) {
        exists|base: DefinitionId, shapes: Seq<CaseShape>|
            is_next_free(before, base) && #[trigger] handle_lowered_with(mco, before, after, definition_id, site, base, shapes)
    } else {
        after == before
    }
}

/// Lowers the `handle` at `site` where it can be lowered (see [handle_step]); returns whether
/// it was.
pub fn lower_handle_site(mir: &mut Mir, definition_id: DefinitionId, site: &HandleSite, mco: &AminicoroFns) -> (r: bool)
    requires
        coro_fns_typed(*mco),
    ensures
        handle_step(*mco, *old(mir), *final(mir), definition_id, *site),
        r == exists|base: DefinitionId| #[trigger] lowerable_from(*mco, *old(mir), definition_id, *site, base),
{
    let ghost m0 = *mir;
    match mir.next_free_id() {
        None => {
            proof {
                assert forall|base: DefinitionId| !#[trigger] lowerable_from(*mco, m0, definition_id, *site, base) by {
                    if is_next_free(m0, base) {
                        assert(mentions(m0, DefinitionId(u32::MAX)));
                    }
                }
            }
            false
        },
        Some(base) => {
            if handle_lowerable_check(mco, mir, definition_id, site, base) {
                rewrite_single_handle(mir, definition_id, site, mco, base);
                proof {
                    assert(lowerable_from(*mco, m0, definition_id, *site, base));
                    let shapes = choose|shapes: Seq<CaseShape>| #[trigger] handle_lowered_with(*mco, m0, *mir, definition_id, *site, base, shapes);
                    assert(is_next_free(m0, base) && handle_lowered_with(*mco, m0, *mir, definition_id, *site, base, shapes));
                }
                true
            } else {
                proof {
                    assert forall|other: DefinitionId| !#[trigger] lowerable_from(*mco, m0, definition_id, *site, other) by {
                        if is_next_free(m0, other) {
                            lemma_next_free_unique(m0, base, other);
                        }
                    }
                }
                false
            }
        },
    }
}

/// The handles of definition `definition_id`, `sites` as collected on arrival, each go through
/// [handle_step] in turn, through the programs `states`.
pub open spec fn handle_visit_trace(
    mco: AminicoroFns,
    before: Mir,
    after: Mir,
    definition_id: DefinitionId,
    sites: Seq<HandleSite>,
    states: Seq<Mir>,
) -> bool {
    &&& sites_of(before.definitions@[definition_id], sites)
    &&& states.len() == sites.len() + 1
    &&& states[0] == before
    &&& states.last() == after
    &&& forall|k: int| 0 <= k < sites.len() ==> #[trigger] handle_step_at(mco, states, definition_id, sites, k)
}

/// Step `k` of a [handle_visit_trace].
pub open spec fn handle_step_at(mco: AminicoroFns, states: Seq<Mir>, definition_id: DefinitionId, sites: Seq<HandleSite>, k: int) -> bool {
    handle_step(mco, states[k], states[k + 1], definition_id, sites[k])
}

/// Lowering the handles of definition `definition_id`: where it exists and its sites can be
/// collected, each of its handles in turn ([handle_visit_trace]); otherwise nothing changes.
pub open spec fn handles_lowered_in(mco: AminicoroFns, before: Mir, after: Mir, definition_id: DefinitionId) -> bool {
    if before.definitions@.contains_key(definition_id) && sites_well_formed(before.definitions@[definition_id]) {
        exists|sites: Seq<HandleSite>, states: Seq<Mir>| #[trigger] handle_visit_trace(mco, before, after, definition_id, sites, states)
    } else {
        after == before
    }
}

/// Pass 1 on one definition: rewrite every `Handle` into wrapper free functions and a
/// per-`Handle` drive function (see [handles_lowered_in]).
pub fn lower_handles_in_definition(mir: &mut Mir, definition_id: DefinitionId, mco: &AminicoroFns)
    requires
        coro_fns_typed(*mco),
    ensures
        handles_lowered_in(*mco, *old(mir), *final(mir), definition_id),
{
    let sites = match fx_map_get(&mir.definitions, definition_id) {
        Some(d) => {
            if !sites_well_formed_check(d) {
                return;
            }
            collect_handle_sites(d)
        },
        None => return,
    };
    let ghost m0 = *mir;
    let ghost mut states: Seq<Mir> = seq![*mir];
    let n = sites.len();
    let mut k: usize = 0;
    while k < n
        invariant
            0 <= k <= n,
            n == sites@.len(),
            coro_fns_typed(*mco),
            sites_of(m0.definitions@[definition_id], sites@),
            states.len() == k + 1,
            states[0] == m0,
            states.last() == *mir,
            forall|j: int| 0 <= j < k ==> #[trigger] handle_step_at(*mco, states, definition_id, sites@, j),
        decreases n - k,
    {
        let ghost before = *mir;
        lower_handle_site(mir, definition_id, &sites[k], mco);
        proof {
            let old_states = states;
            states = states.push(*mir);
            assert forall|j: int| 0 <= j < k + 1 implies #[trigger] handle_step_at(*mco, states, definition_id, sites@, j) by {
                if j < k {
                    assert(handle_step_at(*mco, old_states, definition_id, sites@, j));
                    assert(states[j] == old_states[j]);
                    assert(states[j + 1] == old_states[j + 1]);
                } else {
                    assert(states[j] == before);
                }
            }
        }
        k = k + 1;
    }
    proof {
        assert(handle_visit_trace(*mco, m0, *mir, definition_id, sites@, states));
    }
}

/// Pass 2 on one definition: where every `Perform` of it can be lowered, each is
/// ([performs_lowered]); otherwise nothing changes.
pub open spec fn performs_step(before: Mir, after: Mir, definition_id: DefinitionId, index: Map<DefinitionId, u32>) -> bool {
    if before.definitions@.contains_key(definition_id) && performs_lowerable(
        before.definitions@[definition_id],
        index,
        before.externals@,
        before.definitions@,
    ) {
        performs_lowered(before, after, definition_id, index)
    } else {
        after == before
    }
}

/// Pass 2 on one definition (see [performs_step]).
fn lower_performs_where_possible(mir: &mut Mir, definition_id: DefinitionId, index: &DefinitionMap<u32>)
    ensures
        performs_step(*old(mir), *final(mir), definition_id, index@),
{
    let lowerable = match fx_map_get(&mir.definitions, definition_id) {
        Some(d) => performs_lowerable_check(d, index, mir),
        None => false,
    };
    if lowerable {
        lower_performs_in_definition(mir, definition_id, index);
    }
}

/// The coroutine primitives [aminicoro_fns] gives.
pub open spec fn is_aminicoro(mco: AminicoroFns) -> bool {
    &&& mco.init.name@ == "mco_coro_init"@
    &&& mco.init.typ@ == spec_ptr_fn(seq![pointer_view(), pointer_view()], pointer_view())
    &&& mco.free.name@ == "mco_coro_free"@
    &&& mco.free.typ@ == spec_ptr_fn(seq![pointer_view()], int_view(IntegerKind::U8))
    &&& mco.is_suspended.name@ == "mco_coro_is_suspended"@
    &&& mco.is_suspended.typ@ == spec_ptr_fn(seq![pointer_view()], TypeView::Primitive(PrimitiveType::Bool))
    &&& mco.push.name@ == "mco_coro_push"@
    &&& mco.push.typ@ == spec_ptr_fn(seq![pointer_view(), pointer_view(), int_view(IntegerKind::Usz)], int_view(IntegerKind::U8))
    &&& mco.pop.name@ == "mco_coro_pop"@
    &&& mco.pop.typ@ == spec_ptr_fn(seq![pointer_view(), pointer_view(), int_view(IntegerKind::Usz)], int_view(IntegerKind::U8))
    &&& mco.suspend.name@ == "mco_coro_suspend"@
    &&& mco.suspend.typ@ == spec_ptr_fn(seq![pointer_view()], int_view(IntegerKind::U8))
    &&& mco.resume.name@ == "mco_coro_resume"@
    &&& mco.resume.typ@ == spec_ptr_fn(seq![pointer_view()], int_view(IntegerKind::U8))
    &&& mco.get_user_data.name@ == "mco_coro_get_user_data"@
    &&& mco.get_user_data.typ@ == spec_ptr_fn(seq![pointer_view()], pointer_view())
    &&& mco.running.name@ == "mco_coro_running"@
    &&& mco.running.typ@ == spec_ptr_fn(seq![], pointer_view())
    &&& mco.bytes_stored.name@ == "mco_coro_bytes_stored"@
    &&& mco.bytes_stored.typ@ == spec_ptr_fn(seq![pointer_view()], int_view(IntegerKind::Usz))
    &&& mco.transfer.name@ == "mco_coro_transfer"@
    &&& mco.transfer.typ@ == spec_ptr_fn(seq![pointer_view(), pointer_view(), int_view(IntegerKind::Usz)], int_view(IntegerKind::U8))
}

/// Pass 1 visits each definition of `ids` in turn ([handles_lowered_in]) through `states`.
pub open spec fn handle_pass_trace(mco: AminicoroFns, ids: Seq<DefinitionId>, states: Seq<Mir>) -> bool {
    &&& states.len() == ids.len() + 1
    &&& forall|k: int| 0 <= k < ids.len() ==> #[trigger] handle_pass_step(mco, ids, states, k)
}

pub open spec fn handle_pass_step(mco: AminicoroFns, ids: Seq<DefinitionId>, states: Seq<Mir>, k: int) -> bool {
    handles_lowered_in(mco, states[k], states[k + 1], ids[k])
}

/// Pass 2 visits each definition of `ids` in turn ([performs_step]) through `states`.
pub open spec fn perform_pass_trace(index: Map<DefinitionId, u32>, ids: Seq<DefinitionId>, states: Seq<Mir>) -> bool {
    &&& states.len() == ids.len() + 1
    &&& forall|k: int| 0 <= k < ids.len() ==> #[trigger] perform_pass_step(index, ids, states, k)
}

pub open spec fn perform_pass_step(index: Map<DefinitionId, u32>, ids: Seq<DefinitionId>, states: Seq<Mir>, k: int) -> bool {
    performs_step(states[k], states[k + 1], ids[k], index)
}

/// `after` is `before` with its effects lowered: pass 1 visits every definition of `before` in
/// some order `ids1` and lowers its handles; pass 2 visits every definition of the result in
/// some order `ids2` and lowers its performs with an operation index of `before`
/// ([op_index_of]).
pub open spec fn lowering_trace(
    before: Mir,
    after: Mir,
    mco: AminicoroFns,
    index: Map<DefinitionId, u32>,
    ids1: Seq<DefinitionId>,
    states1: Seq<Mir>,
    ids2: Seq<DefinitionId>,
    states2: Seq<Mir>,
) -> bool {
    &&& is_aminicoro(mco)
    &&& op_index_of(before, index)
    &&& ids1.no_duplicates()
    &&& ids1.to_set() == before.definitions@.dom()
    &&& handle_pass_trace(mco, ids1, states1)
    &&& states1[0] == before
    &&& ids2.no_duplicates()
    &&& ids2.to_set() == states1.last().definitions@.dom()
    &&& perform_pass_trace(index, ids2, states2)
    &&& states2[0] == states1.last()
    &&& states2.last() == after
}

/// What [Mir::lower_effects] does: nothing to a program without effects, else the two passes
/// of [lowering_trace].
pub open spec fn effects_lowered(before: Mir, after: Mir) -> bool {
    if spec_contains_effects(before) {
        exists|mco: AminicoroFns, index: Map<DefinitionId, u32>, ids1: Seq<DefinitionId>, states1: Seq<Mir>, ids2: Seq<DefinitionId>, states2: Seq<Mir>|
            #[trigger] lowering_trace(before, after, mco, index, ids1, states1, ids2, states2)
    } else {
        after == before
    }
}

impl Mir {
    /// Lowers every `Handle` and then every `Perform` of the program into aminicoro primitives
    /// (see [effects_lowered]). A `Handle` or a definition's `Performs` that cannot be lowered
    /// are left as they are.
    pub fn lower_effects(self) -> (r: Self)
        requires
            handle_cases_fit(self),
        ensures
            effects_lowered(self, r),
    {
        if !contains_effects(&self) {
            return self;
        }
        let fns = aminicoro_fns();
        assert(is_aminicoro(fns));
        assert(coro_fns_typed(fns));
        let op_index = build_op_index(&self);
        let ghost m0 = self;
        let mut mir = self;

        // Pass 1: rewrite every Handle into wrapper free functions + a per-Handle drive function.
        let ids1 = fx_map_keys(&mir.definitions);
        let ghost mut states1: Seq<Mir> = seq![mir];
        let mut k: usize = 0;
        while k < ids1.len()
            invariant
                0 <= k <= ids1@.len(),
                is_aminicoro(fns),
                coro_fns_typed(fns),
                states1.len() == k + 1,
                states1[0] == m0,
                states1.last() == mir,
                forall|j: int| 0 <= j < k ==> #[trigger] handle_pass_step(fns, ids1@, states1, j),
            decreases ids1@.len() - k,
        {
            lower_handles_in_definition(&mut mir, ids1[k], &fns);
            proof {
                let old_states = states1;
                states1 = states1.push(mir);
                assert forall|j: int| 0 <= j < k + 1 implies #[trigger] handle_pass_step(fns, ids1@, states1, j) by {
                    if j < k {
                        assert(handle_pass_step(fns, ids1@, old_states, j));
                        assert(states1[j] == old_states[j]);
                        assert(states1[j + 1] == old_states[j + 1]);
                    }
                }
            }
            k = k + 1;
        }
        let ghost m1 = mir;

        // Pass 2: rewrite every Perform into IndexTuple + CallClosure on the capability.
        let ids2 = fx_map_keys(&mir.definitions);
        let ghost mut states2: Seq<Mir> = seq![mir];
        let mut k: usize = 0;
        while k < ids2.len()
            invariant
                0 <= k <= ids2@.len(),
                states2.len() == k + 1,
                states2[0] == m1,
                states2.last() == mir,
                forall|j: int| 0 <= j < k ==> #[trigger] perform_pass_step(op_index@, ids2@, states2, j),
            decreases ids2@.len() - k,
        {
            lower_performs_where_possible(&mut mir, ids2[k], &op_index);
            proof {
                let old_states = states2;
                states2 = states2.push(mir);
                assert forall|j: int| 0 <= j < k + 1 implies #[trigger] perform_pass_step(op_index@, ids2@, states2, j) by {
                    if j < k {
                        assert(perform_pass_step(op_index@, ids2@, old_states, j));
                        assert(states2[j] == old_states[j]);
                        assert(states2[j + 1] == old_states[j + 1]);
                    }
                }
            }
            k = k + 1;
        }
        proof {
            assert(lowering_trace(m0, mir, fns, op_index@, ids1@, states1, ids2@, states2));
        }
        mir
    }
}

} // verus!
