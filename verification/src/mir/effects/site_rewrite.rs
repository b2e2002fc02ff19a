//! Replacing one instruction of a block by new code: the new instructions go where the old
//! one stood, and its id is reused for the instruction that gives the replacement's result, so
//! that the instructions using that result keep working.
use crate::fx::{DefinitionMap, fx_map_get, fx_map_insert};
use crate::mir::definition::{Definition, spec_type_of_value, value_in_bounds};
use crate::mir::effects::lowering::{
    EmitTarget, Emitter, PerformSite, appended, collect_perform_sites, emitted, id_range, is_perform, perform_site_matches,
    pointer_view, sites_in_block, sites_in_blocks, sites_well_formed,
};
use crate::mir::effects::channel::result;
use crate::mir::effects::tail_resume_pass::{splice_block, take_definition};
use crate::mir::instruction::{Instruction, InstructionView};
use crate::mir::program::Mir;
use crate::mir::types::{FunctionType, FunctionTypeView, Type, TypeView, lemma_types_view, types_view};
use crate::mir::values::{BlockId, DefinitionId, InstructionId, Value};
use std::sync::Arc;
use vstd::prelude::*;

verus! {

broadcast use lemma_types_view;

/// `new_d` is `d` with the instruction at position `index` of block `block` replaced: the new
/// instructions of `before` and then those of `after` are added after the definition's own,
/// instruction `reused` becomes `reused_code`, and the block lists the new instructions of
/// `before`, then `reused`, then those of `after` where it listed the old one. Nothing else
/// changes.
pub open spec fn site_replaced(
    d: Definition,
    new_d: Definition,
    block: BlockId,
    index: usize,
    reused: InstructionId,
    before: Seq<(InstructionView, TypeView)>,
    reused_code: (InstructionView, TypeView),
    after: Seq<(InstructionView, TypeView)>,
) -> bool {
    let n = d.instructions@.len();
    let nb = before.len();
    let added = before + after;
    let old_ids = d.blocks@[block.0 as int].instructions@;
    &&& new_d.instructions@.len() == n + added.len()
    &&& new_d.instruction_result_types@.len() == n + added.len()
    &&& forall|k: int| 0 <= k < n && k != reused.0 ==> #[trigger] new_d.instructions@[k] == d.instructions@[k]
    &&& forall|k: int|
        0 <= k < n && k != reused.0 ==> #[trigger] new_d.instruction_result_types@[k] == d.instruction_result_types@[k]
    &&& new_d.instructions@[reused.0 as int]@ == reused_code.0
    &&& new_d.instruction_result_types@[reused.0 as int]@ == reused_code.1
    &&& forall|k: int| 0 <= k < added.len() ==> (#[trigger] new_d.instructions@[n + k])@ == added[k].0
    &&& forall|k: int| 0 <= k < added.len() ==> (#[trigger] new_d.instruction_result_types@[n + k])@ == added[k].1
    &&& new_d.blocks@.len() == d.blocks@.len()
    &&& new_d.blocks@[block.0 as int].instructions@ == old_ids.subrange(0, index as int) + id_range(n, nb) + seq![reused]
        + id_range(n + nb, after.len()) + old_ids.subrange(index + 1, old_ids.len() as int)
    &&& new_d.blocks@[block.0 as int].parameter_types == d.blocks@[block.0 as int].parameter_types
    &&& new_d.blocks@[block.0 as int].terminator == d.blocks@[block.0 as int].terminator
    &&& forall|x: int| 0 <= x < d.blocks@.len() && x != block.0 ==> #[trigger] new_d.blocks@[x] == d.blocks@[x]
    &&& new_d.name == d.name
    &&& new_d.id == d.id
    &&& new_d.typ == d.typ
    &&& new_d.generic_count == d.generic_count
}

/// Emitting `before` on a pending list, reusing `reused`, emitting `after`, and splicing the
/// list in place of the old instruction replaces it (see [site_replaced]).
pub proof fn lemma_site_replaced(
    e0: Emitter,
    d0: Definition,
    e1: Emitter,
    d1: Definition,
    e2: Emitter,
    d2: Definition,
    e3: Emitter,
    d3: Definition,
    d4: Definition,
    block: BlockId,
    index: usize,
    reused: InstructionId,
    before: Seq<(InstructionView, TypeView)>,
    reused_instruction: Instruction,
    reused_type: Type,
    after: Seq<(InstructionView, TypeView)>,
)
    requires
        e0.target == EmitTarget::Pending,
        e0.pending@.len() == 0,
        reused.0 < d0.instructions@.len(),
        block.0 < d0.blocks@.len(),
        index < d0.blocks@[block.0 as int].instructions@.len(),
        emitted(e0, d0, e1, d1, before),
        d2.instructions@ == d1.instructions@.update(reused.0 as int, reused_instruction),
        d2.instruction_result_types@ == d1.instruction_result_types@.update(reused.0 as int, reused_type),
        appended(e1, d1, e2, d2, reused),
        d2.name == d1.name,
        d2.id == d1.id,
        d2.typ == d1.typ,
        d2.generic_count == d1.generic_count,
        emitted(e2, d2, e3, d3, after),
        ({
            let old_ids = d3.blocks@[block.0 as int].instructions@;
            d4.blocks@[block.0 as int].instructions@ == old_ids.subrange(0, index as int) + e3.pending@
                + old_ids.subrange(index + 1, old_ids.len() as int)
        }),
        d4.blocks@.len() == d3.blocks@.len(),
        d4.blocks@[block.0 as int].parameter_types == d3.blocks@[block.0 as int].parameter_types,
        d4.blocks@[block.0 as int].terminator == d3.blocks@[block.0 as int].terminator,
        forall|x: int| 0 <= x < d3.blocks@.len() && x != block.0 ==> #[trigger] d4.blocks@[x] == d3.blocks@[x],
        d4.instructions == d3.instructions,
        d4.instruction_result_types == d3.instruction_result_types,
        d4.name == d3.name,
        d4.id == d3.id,
        d4.typ == d3.typ,
        d4.generic_count == d3.generic_count,
    ensures
        site_replaced(d0, d4, block, index, reused, before, (reused_instruction@, reused_type@), after),
{
    let n = d0.instructions@.len();
    let nb = before.len();
    let m = d2.instructions@.len();
    assert(m == n + nb);
    let added = before + after;
    assert forall|k: int| 0 <= k < n && k != reused.0 implies #[trigger] d4.instructions@[k] == d0.instructions@[k] by {
        assert(d4.instructions@[k] == d3.instructions@.subrange(0, m as int)[k]);
        assert(d1.instructions@[k] == d1.instructions@.subrange(0, n as int)[k]);
    }
    assert forall|k: int| 0 <= k < n && k != reused.0 implies #[trigger] d4.instruction_result_types@[k]
        == d0.instruction_result_types@[k] by {
        assert(d4.instruction_result_types@[k] == d3.instruction_result_types@.subrange(0, m as int)[k]);
        assert(d1.instruction_result_types@[k] == d1.instruction_result_types@.subrange(0, n as int)[k]);
    }
    assert(d4.instructions@[reused.0 as int] == d3.instructions@.subrange(0, m as int)[reused.0 as int]);
    assert(d4.instruction_result_types@[reused.0 as int] == d3.instruction_result_types@.subrange(0, m as int)[reused.0 as int]);
    assert forall|k: int| 0 <= k < added.len() implies (#[trigger] d4.instructions@[n + k])@ == added[k].0 by {
        if k < nb {
            assert(d4.instructions@[n + k] == d3.instructions@.subrange(0, m as int)[n + k]);
            assert(d1.instructions@[n + k]@ == before[k].0);
        } else {
            let j = k - nb;
            assert(n + k == m + j);
            assert(d3.instructions@[m + j]@ == after[j].0);
        }
    }
    assert forall|k: int| 0 <= k < added.len() implies (#[trigger] d4.instruction_result_types@[n + k])@ == added[k].1 by {
        if k < nb {
            assert(d4.instruction_result_types@[n + k] == d3.instruction_result_types@.subrange(0, m as int)[n + k]);
            assert(d1.instruction_result_types@[n + k]@ == before[k].1);
        } else {
            let j = k - nb;
            assert(n + k == m + j);
            assert(d3.instruction_result_types@[m + j]@ == after[j].1);
        }
    }
    assert(e3.pending@ =~= id_range(n, nb) + seq![reused] + id_range(n + nb, after.len()));
    assert(d3.blocks == d0.blocks);
    let old_ids = d0.blocks@[block.0 as int].instructions@;
    assert(d4.blocks@[block.0 as int].instructions@ =~= old_ids.subrange(0, index as int) + id_range(n, nb) + seq![reused]
        + id_range(n + nb, after.len()) + old_ids.subrange(index + 1, old_ids.len() as int));
    assert(d4.instructions@[reused.0 as int]@ == reused_instruction@);
    assert(d4.instruction_result_types@[reused.0 as int]@ == reused_type@);
    assert(d4.instructions@.len() == n + added.len());
    assert forall|x: int| 0 <= x < d0.blocks@.len() && x != block.0 implies #[trigger] d4.blocks@[x] == d0.blocks@[x] by {
        assert(d3.blocks@[x] == d2.blocks@[x]);
    }
}

/// The type of slot `op_index` of a capability of type `cap`: that field where the capability
/// is a tuple, else a closure from the operation's arguments to its result with a pointer
/// environment.
pub open spec fn slot_type(cap: TypeView, op_index: u32, arg_types: Seq<TypeView>, return_type: TypeView) -> TypeView {
    match cap {
        TypeView::Tuple(fields) => fields[op_index as int],
        _ => TypeView::Function(
            Box::new(FunctionTypeView { parameters: arg_types, environment: pointer_view(), return_type }),
        ),
    }
}

/// The types, within `d`, of `values`.
pub open spec fn value_types(
    d: Definition,
    values: Seq<Value>,
    externals: Map<DefinitionId, crate::mir::definition::Extern>,
    definitions: Map<DefinitionId, Definition>,
) -> Seq<TypeView> {
    values.map_values(|v: Value| spec_type_of_value(d, v, externals, definitions)->0)
}

/// Every one of `values` exists in `d` and has a type there.
pub open spec fn values_typed(
    d: Definition,
    values: Seq<Value>,
    externals: Map<DefinitionId, crate::mir::definition::Extern>,
    definitions: Map<DefinitionId, Definition>,
) -> bool {
    forall|i: int|
        0 <= i < values.len() ==> value_in_bounds(d, #[trigger] values[i]) && spec_type_of_value(
            d,
            values[i],
            externals,
            definitions,
        ) is Some
}

/// Block `site.block` lists the site's instruction at `site.index`.
pub open spec fn perform_site_valid(d: Definition, site: PerformSite) -> bool {
    &&& place_valid(d, (site.block, site.index, site.id))
    &&& site.id.0 < d.instructions@.len()
    &&& d.instructions@.len() == d.instruction_result_types@.len()
}

/// What a `Perform` of operation slot `op_index` becomes within `d`: the closure in the slot is
/// taken out of the capability, the perform's trailing argument, and called with the other
/// arguments; the call keeps the perform's id and result type.
pub open spec fn perform_replacement(
    d: Definition,
    site: PerformSite,
    op_index: u32,
    externals: Map<DefinitionId, crate::mir::definition::Extern>,
    definitions: Map<DefinitionId, Definition>,
) -> (Seq<(InstructionView, TypeView)>, (InstructionView, TypeView)) {
    let n = d.instructions@.len();
    let arguments = site.arguments@;
    let cap = arguments.last();
    let op_args = arguments.drop_last();
    let cap_type = spec_type_of_value(d, cap, externals, definitions)->0;
    let return_type = d.instruction_result_types@[site.id.0 as int]@;
    let wrapper = slot_type(cap_type, op_index, value_types(d, op_args, externals, definitions), return_type);
    (
        seq![(InstructionView::IndexTuple { tuple: cap, index: op_index }, wrapper)],
        (InstructionView::CallClosure { closure: result(n), arguments: op_args }, return_type),
    )
}

/// The program can lower the `Perform` at `site` of definition `definition_id` with the
/// operation indices `op_index`: the site is valid, its operation has an index, it has the
/// capability as its last argument, its values have types, a tuple capability has the slot,
/// and the definition can take one more instruction.
pub open spec fn perform_lowerable(mir: Mir, definition_id: DefinitionId, site: PerformSite, op_index: Map<DefinitionId, u32>) -> bool {
    let d = mir.definitions@[definition_id];
    &&& mir.definitions@.contains_key(definition_id)
    &&& perform_site_valid(d, site)
    &&& op_index.contains_key(site.op)
    &&& site.arguments@.len() > 0
    &&& values_typed(d, site.arguments@, mir.externals@, mir.definitions@)
    &&& (spec_type_of_value(d, site.arguments@.last(), mir.externals@, mir.definitions@)->0 matches TypeView::Tuple(
        fields,
    ) ==> op_index[site.op] < fields.len())
    &&& d.instructions@.len() + 1 < u32::MAX
}

/// The types of `values` within `definition`.
fn types_of_values(definition: &Definition, values: &Vec<Value>, mir: &Mir, count: usize) -> (r: Vec<Type>)
    requires
        count <= values@.len(),
        values_typed(*definition, values@, mir.externals@, mir.definitions@),
    ensures
        types_view(r@) == value_types(*definition, values@.subrange(0, count as int), mir.externals@, mir.definitions@),
{
    let mut r: Vec<Type> = Vec::new();
    let mut i: usize = 0;
    while i < count
        invariant
            0 <= i <= count,
            count <= values@.len(),
            values_typed(*definition, values@, mir.externals@, mir.definitions@),
            types_view(r@) == value_types(*definition, values@.subrange(0, i as int), mir.externals@, mir.definitions@),
        decreases count - i,
    {
        let t = definition.type_of_value(&values[i], &mir.externals, &mir.definitions);
        let ghost before = r@;
        r.push(t);
        proof {
            crate::mir::types::lemma_types_view_push(before, t);
            assert(values@.subrange(0, i + 1) =~= values@.subrange(0, i as int).push(values@[i as int]));
            assert(value_types(*definition, values@.subrange(0, i + 1), mir.externals@, mir.definitions@)
                =~= value_types(*definition, values@.subrange(0, i as int), mir.externals@, mir.definitions@).push(t@));
        }
        i = i + 1;
    }
    r
}

/// Replace `Perform { op, args.., cap }` with:
///     wrapper = IndexTuple(cap, op_index)
///     result  = CallClosure(wrapper, op_args..)
/// reusing the original Perform's InstructionId for the result so existing users keep working
/// (see [perform_replacement]).
pub fn rewrite_single_perform(mir: &mut Mir, definition_id: DefinitionId, site: &PerformSite, op_index: &DefinitionMap<u32>)
    requires
        perform_lowerable(*old(mir), definition_id, *site, op_index@),
    ensures
        ({
            let d = old(mir).definitions@[definition_id];
            let (before, reused) = perform_replacement(d, *site, op_index@[site.op], old(mir).externals@, old(mir).definitions@);
            &&& final(mir).definitions@.dom() == old(mir).definitions@.dom()
            &&& forall|id: DefinitionId| id != definition_id ==> #[trigger] final(mir).definitions@.get(id)
                == old(mir).definitions@.get(id)
            &&& site_replaced(d, final(mir).definitions@[definition_id], site.block, site.index, site.id, before, reused, seq![])
        }),
        final(mir).externals == old(mir).externals,
        final(mir).preserved_op_indices == old(mir).preserved_op_indices,
{
    let ghost m0 = *mir;
    let ghost d0 = mir.definitions@[definition_id];
    let slot = *fx_map_get(op_index, site.op).unwrap();
    let count = site.arguments.len() - 1;
    let cap_value = site.arguments[count];
    let (cap_type, op_arg_types, return_type) = {
        let definition = fx_map_get(&mir.definitions, definition_id).unwrap();
        let cap_type = definition.type_of_value(&cap_value, &mir.externals, &mir.definitions);
        let op_arg_types = types_of_values(definition, &site.arguments, mir, count);
        let return_type = definition.instruction_result_types[site.id.0 as usize].clone();
        (cap_type, op_arg_types, return_type)
    };
    let mut op_args: Vec<Value> = Vec::new();
    let mut i: usize = 0;
    while i < count
        invariant
            0 <= i <= count,
            count + 1 == site.arguments@.len(),
            op_args@ == site.arguments@.subrange(0, i as int),
        decreases count - i,
    {
        op_args.push(site.arguments[i]);
        i = i + 1;
        proof {
            assert(op_args@ =~= site.arguments@.subrange(0, i as int));
        }
    }
    proof {
        assert(site.arguments@.drop_last() =~= site.arguments@.subrange(0, count as int));
    }
    let ghost replacement = perform_replacement(d0, *site, slot, m0.externals@, m0.definitions@);
    assert(cap_type@ == spec_type_of_value(d0, site.arguments@.last(), m0.externals@, m0.definitions@)->0);
    let wrapper_type = match &cap_type {
        Type::Tuple(fields) => {
            assert(cap_type@ == TypeView::Tuple(types_view(fields@)));
            let w = fields[slot as usize].clone();
            assert(w@ == replacement.0[0].1);
            w
        },
        // Fall back to inferring from the Perform if the cap isn't a known tuple type yet.
        _ => {
            let environment = Type::pointer();
            let rt = return_type.clone();
            let f = FunctionType { parameters: op_arg_types, environment, return_type: rt };
            assert(f@ == FunctionTypeView {
                parameters: value_types(d0, site.arguments@.drop_last(), m0.externals@, m0.definitions@),
                environment: pointer_view(),
                return_type: return_type@,
            });
            let w = Type::Function(Arc::new(f));
            assert(w@ == replacement.0[0].1);
            w
        },
    };

    let mut definition = take_definition(mir, definition_id);
    let ghost dd0 = definition;
    let mut emitter = Emitter::pending();
    let ghost e0 = emitter;
    let wrapper = emitter.push_instruction(&mut definition, Instruction::IndexTuple { tuple: cap_value, index: slot }, wrapper_type);
    let ghost e1 = emitter;
    let ghost d1 = definition;
    let call = Instruction::CallClosure { closure: wrapper, arguments: op_args };
    let ghost call_copy = call;
    let ghost return_copy = return_type;
    emitter.reuse_instruction(&mut definition, site.id, call, return_type);
    let ghost e2 = emitter;
    let ghost d2 = definition;
    proof {
        crate::mir::effects::lowering::lemma_emitted_nothing(e2, d2);
    }
    let pending = emitter.pending;
    splice_block(&mut definition, site.block, site.index, &pending);
    proof {
        lemma_site_replaced(
            e0,
            dd0,
            e1,
            d1,
            e2,
            d2,
            e2,
            d2,
            definition,
            site.block,
            site.index,
            site.id,
            replacement.0,
            call_copy,
            return_copy,
            seq![],
        );
    }
    fx_map_insert(&mut mir.definitions, definition_id, definition);
    proof {
        assert(mir.definitions@.dom() =~= m0.definitions@.dom());
    }
}

/// Block `p.0` of `d` lists instruction `p.2` at position `p.1`.
pub open spec fn place_valid(d: Definition, p: (BlockId, usize, InstructionId)) -> bool {
    &&& p.0.0 < d.blocks@.len()
    &&& p.1 < d.blocks@[p.0.0 as int].instructions@.len()
    &&& d.blocks@[p.0.0 as int].instructions@[p.1 as int] == p.2
}

/// Each place comes after the earlier ones in a later block, or before them in the same block,
/// so that splicing code in at each place in turn leaves the places still to come where they
/// were.
pub open spec fn splice_ordered(places: Seq<(BlockId, usize, InstructionId)>) -> bool {
    forall|j: int, k: int|
        0 <= j < k < places.len() ==> (#[trigger] places[j]).0.0 < (#[trigger] places[k]).0.0 || (places[j].0 == places[k].0
            && places[k].1 < places[j].1)
}

proof fn lemma_sites_in_block(
    d: Definition,
    b: int,
    lo: int,
    hi: int,
    is_site: spec_fn(Instruction) -> bool,
)
    requires
        0 <= b < d.blocks@.len(),
        d.blocks@.len() <= u32::MAX,
        0 <= lo,
        hi <= d.blocks@[b].instructions@.len(),
    ensures
        ({
            let places = sites_in_block(d, b, lo, hi, is_site);
            &&& forall|k: int| 0 <= k < places.len() ==> #[trigger] place_valid(d, places[k])
            &&& forall|k: int| 0 <= k < places.len() ==> (#[trigger] places[k]).0.0 == b && lo <= places[k].1 < hi
            &&& forall|j: int, k: int| 0 <= j < k < places.len() ==> (#[trigger] places[k]).1 < (#[trigger] places[j]).1
        }),
    decreases hi - lo,
{
    if lo < hi {
        assert(d.blocks@[b].instructions@.len() == d.blocks@[b].instructions.len());
        lemma_sites_in_block(d, b, lo + 1, hi, is_site);
        let rest = sites_in_block(d, b, lo + 1, hi, is_site);
        let places = sites_in_block(d, b, lo, hi, is_site);
        let id = d.blocks@[b].instructions@[lo];
        let here: Seq<(BlockId, usize, InstructionId)> = if is_site(d.instructions@[id.0 as int]) {
            seq![(BlockId(b as u32), lo as usize, id)]
        } else {
            seq![]
        };
        assert(places == rest + here);
        assert forall|k: int| 0 <= k < places.len() implies #[trigger] place_valid(d, places[k]) && places[k].0.0 == b && lo
            <= places[k].1 < hi by {
            if k < rest.len() {
                assert(places[k] == rest[k]);
            } else {
                assert(places[k] == here[k - rest.len()]);
            }
        }
        assert forall|j: int, k: int| 0 <= j < k < places.len() implies (#[trigger] places[k]).1 < (#[trigger] places[j]).1 by {
            if k < rest.len() {
                assert(places[k] == rest[k]);
                assert(places[j] == rest[j]);
            } else {
                assert(places[k] == here[k - rest.len()]);
                assert(places[j] == rest[j]);
            }
        }
    }
}

/// The places [sites_in_blocks] lists are where they say and come in splicing order.
pub proof fn lemma_sites_in_blocks(d: Definition, nb: int, is_site: spec_fn(Instruction) -> bool)
    requires
        0 <= nb <= d.blocks@.len(),
        d.blocks@.len() <= u32::MAX,
    ensures
        ({
            let places = sites_in_blocks(d, nb, is_site);
            &&& forall|k: int| 0 <= k < places.len() ==> #[trigger] place_valid(d, places[k])
            &&& forall|k: int| 0 <= k < places.len() ==> (#[trigger] places[k]).0.0 < nb
            &&& splice_ordered(places)
        }),
    decreases nb,
{
    if nb > 0 {
        lemma_sites_in_blocks(d, nb - 1, is_site);
        lemma_sites_in_block(d, nb - 1, 0, d.blocks@[nb - 1].instructions@.len() as int, is_site);
        let front = sites_in_blocks(d, nb - 1, is_site);
        let back = sites_in_block(d, nb - 1, 0, d.blocks@[nb - 1].instructions@.len() as int, is_site);
        let places = sites_in_blocks(d, nb, is_site);
        assert(places == front + back);
        assert forall|k: int| 0 <= k < places.len() implies #[trigger] place_valid(d, places[k]) by {
            if k < front.len() {
                assert(places[k] == front[k]);
            } else {
                assert(places[k] == back[k - front.len()]);
            }
        }
        assert forall|k: int| 0 <= k < places.len() implies (#[trigger] places[k]).0.0 < nb by {
            if k < front.len() {
                assert(places[k] == front[k]);
            } else {
                assert(places[k] == back[k - front.len()]);
            }
        }
        assert forall|j: int, k: int| 0 <= j < k < places.len() implies (#[trigger] places[j]).0.0 < (
        #[trigger] places[k]).0.0 || (places[j].0 == places[k].0 && places[k].1 < places[j].1) by {
            if k < front.len() {
                assert(places[k] == front[k]);
                assert(places[j] == front[j]);
            } else if j < front.len() {
                assert(places[k] == back[k - front.len()]);
                assert(places[j] == front[j]);
            } else {
                assert(places[k] == back[k - front.len()]);
                assert(places[j] == back[j - front.len()]);
            }
        }
    }
}

/// A replacement that keeps the result type of the reused instruction keeps the type of every
/// value of the definition, also when the definitions' map holds the new definition in place of
/// the old.
pub proof fn lemma_types_kept(
    d: Definition,
    new_d: Definition,
    block: BlockId,
    index: usize,
    reused: InstructionId,
    before: Seq<(InstructionView, TypeView)>,
    reused_code: (InstructionView, TypeView),
    after: Seq<(InstructionView, TypeView)>,
    externals: Map<DefinitionId, crate::mir::definition::Extern>,
    definitions: Map<DefinitionId, Definition>,
    new_definitions: Map<DefinitionId, Definition>,
    v: Value,
)
    requires
        site_replaced(d, new_d, block, index, reused, before, reused_code, after),
        reused.0 < d.instructions@.len(),
        d.instructions@.len() == d.instruction_result_types@.len(),
        reused_code.1 == d.instruction_result_types@[reused.0 as int]@,
        value_in_bounds(d, v),
        new_definitions.dom() == definitions.dom(),
        forall|x: DefinitionId| #[trigger] definitions.contains_key(x) ==> new_definitions[x].typ == definitions[x].typ,
    ensures
        value_in_bounds(new_d, v),
        spec_type_of_value(new_d, v, externals, new_definitions) == spec_type_of_value(d, v, externals, definitions),
{
    match v {
        Value::InstructionResult(id) => {
            if id != reused {
                assert(new_d.instruction_result_types@[id.0 as int] == d.instruction_result_types@[id.0 as int]);
            }
        },
        Value::Parameter(b, i) => {
            if b.0 < d.blocks@.len() && b.0 != block.0 {
                assert(new_d.blocks@[b.0 as int] == d.blocks@[b.0 as int]);
            }
        },
        Value::Definition(x) => {
            if definitions.contains_key(x) {
                assert(new_definitions[x].typ == definitions[x].typ);
            }
        },
        _ => {},
    }
}

/// A place before the replaced one, or in another block, stays where it was.
pub proof fn lemma_place_kept(
    d: Definition,
    new_d: Definition,
    block: BlockId,
    index: usize,
    reused: InstructionId,
    before: Seq<(InstructionView, TypeView)>,
    reused_code: (InstructionView, TypeView),
    after: Seq<(InstructionView, TypeView)>,
    p: (BlockId, usize, InstructionId),
)
    requires
        site_replaced(d, new_d, block, index, reused, before, reused_code, after),
        place_valid(d, (block, index, reused)),
        place_valid(d, p),
        p.0 != block || p.1 < index,
    ensures
        place_valid(new_d, p),
{
    if p.0 == block {
        let old_ids = d.blocks@[block.0 as int].instructions@;
        let new_ids = new_d.blocks@[block.0 as int].instructions@;
        assert(new_ids[p.1 as int] == old_ids.subrange(0, index as int)[p.1 as int]);
    } else {
        assert(new_d.blocks@[p.0.0 as int] == d.blocks@[p.0.0 as int]);
    }
}

/// The places of the `Perform`s of `d`, in the order they are rewritten.
pub open spec fn perform_places(d: Definition) -> Seq<(BlockId, usize, InstructionId)> {
    sites_in_blocks(d, d.blocks@.len() as int, |i: Instruction| is_perform(i))
}

/// The `Perform` at `place` can be lowered with `op_index`: its operation has an index, it has
/// the capability as its last argument, its arguments have types, and where the capability is a
/// tuple it has the operation's slot.
pub open spec fn perform_lowerable_at(
    d: Definition,
    place: (BlockId, usize, InstructionId),
    op_index: Map<DefinitionId, u32>,
    externals: Map<DefinitionId, crate::mir::definition::Extern>,
    definitions: Map<DefinitionId, Definition>,
) -> bool {
    &&& d.instructions@[place.2.0 as int] matches Instruction::Perform { effect_op, arguments }
    &&& op_index.contains_key(effect_op)
    &&& arguments@.len() > 0
    &&& values_typed(d, arguments@, externals, definitions)
    &&& (spec_type_of_value(d, arguments@.last(), externals, definitions)->0 matches TypeView::Tuple(fields)
        ==> op_index[effect_op] < fields.len())
}

/// Every `Perform` of `d` can be lowered, and `d` can take one new instruction for each.
pub open spec fn performs_lowerable(
    d: Definition,
    op_index: Map<DefinitionId, u32>,
    externals: Map<DefinitionId, crate::mir::definition::Extern>,
    definitions: Map<DefinitionId, Definition>,
) -> bool {
    let places = perform_places(d);
    &&& sites_well_formed(d)
    &&& d.instructions@.len() + places.len() + 1 < u32::MAX
    &&& forall|k: int| 0 <= k < places.len() ==> #[trigger] perform_lowerable_at(d, places[k], op_index, externals, definitions)
}

/// Step `k` of a trace: `ds[k + 1]` is `ds[k]` with the `Perform` of `sites[k]` replaced, with
/// the types as they are in the program holding `ds[k]`.
pub open spec fn perform_step_at(
    ds: Seq<Definition>,
    sites: Seq<PerformSite>,
    k: int,
    definition_id: DefinitionId,
    op_index: Map<DefinitionId, u32>,
    externals: Map<DefinitionId, crate::mir::definition::Extern>,
    definitions: Map<DefinitionId, Definition>,
) -> bool {
    let (before, reused) = perform_replacement(
        ds[k],
        sites[k],
        op_index[sites[k].op],
        externals,
        definitions.insert(definition_id, ds[k]),
    );
    site_replaced(ds[k], ds[k + 1], sites[k].block, sites[k].index, sites[k].id, before, reused, seq![])
}

/// `d` is `d0` with its `Perform`s, `sites` as collected from `d0`, replaced one after the
/// other through the definitions `ds`.
pub open spec fn perform_trace(
    d0: Definition,
    d: Definition,
    sites: Seq<PerformSite>,
    ds: Seq<Definition>,
    definition_id: DefinitionId,
    op_index: Map<DefinitionId, u32>,
    externals: Map<DefinitionId, crate::mir::definition::Extern>,
    definitions: Map<DefinitionId, Definition>,
) -> bool {
    let places = perform_places(d0);
    &&& sites.len() == places.len()
    &&& forall|k: int| 0 <= k < sites.len() ==> perform_site_matches(d0, places[k], #[trigger] sites[k])
    &&& ds.len() == sites.len() + 1
    &&& ds[0] == d0
    &&& ds.last() == d
    &&& forall|k: int|
        0 <= k < sites.len() ==> #[trigger] perform_step_at(ds, sites, k, definition_id, op_index, externals, definitions)
}

/// `after` is `before` with every `Perform` of definition `definition_id` lowered (see
/// [perform_trace]); nothing else changes.
pub open spec fn performs_lowered(before: Mir, after: Mir, definition_id: DefinitionId, op_index: Map<DefinitionId, u32>) -> bool {
    &&& after.definitions@.dom() == before.definitions@.dom()
    &&& forall|id: DefinitionId| id != definition_id ==> #[trigger] after.definitions@.get(id) == before.definitions@.get(id)
    &&& after.externals == before.externals
    &&& after.preserved_op_indices == before.preserved_op_indices
    &&& exists|sites: Seq<PerformSite>, ds: Seq<Definition>|
        #[trigger] perform_trace(
            before.definitions@[definition_id],
            after.definitions@[definition_id],
            sites,
            ds,
            definition_id,
            op_index,
            before.externals@,
            before.definitions@,
        )
}

/// Rewrites every `Perform` of definition `definition_id` into a call of the closure in its
/// operation's slot of the capability (see [rewrite_single_perform]).
pub fn lower_performs_in_definition(mir: &mut Mir, definition_id: DefinitionId, op_index: &DefinitionMap<u32>)
    requires
        old(mir).definitions@.contains_key(definition_id),
        performs_lowerable(old(mir).definitions@[definition_id], op_index@, old(mir).externals@, old(mir).definitions@),
    ensures
        performs_lowered(*old(mir), *final(mir), definition_id, op_index@),
{
    let ghost m0 = *mir;
    let ghost d0 = mir.definitions@[definition_id];
    let ghost places = perform_places(d0);
    let sites = collect_perform_sites(fx_map_get(&mir.definitions, definition_id).unwrap());
    let ghost sites0 = sites@;
    let ghost mut ds: Seq<Definition> = seq![d0];
    proof {
        lemma_sites_in_blocks(d0, d0.blocks@.len() as int, |i: Instruction| is_perform(i));
        assert(m0.definitions@.insert(definition_id, d0) =~= m0.definitions@);
    }
    let n = sites.len();
    let mut k: usize = 0;
    while k < n
        invariant
            0 <= k <= n,
            n == sites0.len(),
            sites@ == sites0,
            sites0.len() == places.len(),
            places == perform_places(d0),
            d0 == m0.definitions@[definition_id],
            m0.definitions@.contains_key(definition_id),
            performs_lowerable(d0, op_index@, m0.externals@, m0.definitions@),
            forall|j: int| 0 <= j < n ==> perform_site_matches(d0, places[j], #[trigger] sites0[j]),
            forall|j: int| 0 <= j < places.len() ==> #[trigger] place_valid(d0, places[j]),
            splice_ordered(places),
            ds.len() == k + 1,
            ds[0] == d0,
            mir.definitions@ == m0.definitions@.insert(definition_id, ds.last()),
            mir.externals == m0.externals,
            mir.preserved_op_indices == m0.preserved_op_indices,
            ds.last().instructions@.len() == d0.instructions@.len() + k,
            ds.last().instruction_result_types@.len() == d0.instructions@.len() + k,
            ds.last().blocks@.len() == d0.blocks@.len(),
            ds.last().typ == d0.typ,
            forall|j: int| k <= j < n ==> #[trigger] place_valid(ds.last(), places[j]),
            forall|v: Value|
                value_in_bounds(d0, v) ==> value_in_bounds(ds.last(), v) && #[trigger] spec_type_of_value(
                    ds.last(),
                    v,
                    m0.externals@,
                    mir.definitions@,
                ) == spec_type_of_value(d0, v, m0.externals@, m0.definitions@),
            forall|j: int|
                0 <= j < k ==> #[trigger] perform_step_at(ds, sites0, j, definition_id, op_index@, m0.externals@, m0.definitions@),
        decreases n - k,
    {
        let ghost dk = ds.last();
        let ghost mk = *mir;
        let ghost site = sites0[k as int];
        proof {
            assert(perform_lowerable_at(d0, places[k as int], op_index@, m0.externals@, m0.definitions@));
            assert(perform_site_matches(d0, places[k as int], site));
            assert(place_valid(dk, places[k as int]));
            assert forall|i: int| 0 <= i < site.arguments@.len() implies value_in_bounds(dk, #[trigger] site.arguments@[i])
                && spec_type_of_value(dk, site.arguments@[i], mk.externals@, mk.definitions@) is Some by {
                assert(value_in_bounds(d0, site.arguments@[i]));
                assert(spec_type_of_value(dk, site.arguments@[i], m0.externals@, mir.definitions@) == spec_type_of_value(
                    d0,
                    site.arguments@[i],
                    m0.externals@,
                    m0.definitions@,
                ));
            }
            let cap = site.arguments@.last();
            assert(value_in_bounds(d0, cap));
            assert(spec_type_of_value(dk, cap, m0.externals@, mir.definitions@) == spec_type_of_value(
                d0,
                cap,
                m0.externals@,
                m0.definitions@,
            ));
            assert(mk.definitions@[definition_id] == dk);
            assert(places[k as int] == (site.block, site.index, site.id));
            assert(place_valid(d0, places[k as int]));
            assert(sites_well_formed(d0));
            assert(d0.blocks@[site.block.0 as int].instructions@[site.index as int].0 < d0.instructions@.len());
            assert(perform_site_valid(dk, site));
            assert(op_index@.contains_key(site.op));
            assert(site.arguments@.len() > 0);
            assert(perform_lowerable(mk, definition_id, site, op_index@));
        }
        rewrite_single_perform(mir, definition_id, &sites[k], op_index);
        proof {
            let dk1 = mir.definitions@[definition_id];
            let (before, reused) = perform_replacement(dk, site, op_index@[site.op], mk.externals@, mk.definitions@);
            assert(mir.definitions@ =~= m0.definitions@.insert(definition_id, dk1)) by {
                assert forall|id: DefinitionId| #[trigger] mir.definitions@.contains_key(id) implies mir.definitions@[id]
                    == m0.definitions@.insert(definition_id, dk1)[id] by {
                    if id != definition_id {
                        assert(mir.definitions@.get(id) == mk.definitions@.get(id));
                    }
                }
            }
            let old_ds = ds;
            ds = ds.push(dk1);
            assert(ds[k as int] == dk);
            assert(ds[k + 1] == dk1);
            assert(mk.definitions@ == m0.definitions@.insert(definition_id, dk));
            assert(perform_step_at(ds, sites0, k as int, definition_id, op_index@, m0.externals@, m0.definitions@));
            assert forall|j: int| 0 <= j < k + 1 implies #[trigger] perform_step_at(
                ds,
                sites0,
                j,
                definition_id,
                op_index@,
                m0.externals@,
                m0.definitions@,
            ) by {
                if j < k {
                    assert(perform_step_at(old_ds, sites0, j, definition_id, op_index@, m0.externals@, m0.definitions@));
                    assert(ds[j] == old_ds[j]);
                    assert(ds[j + 1] == old_ds[j + 1]);
                }
            }
            assert forall|j: int| k + 1 <= j < n implies #[trigger] place_valid(dk1, places[j]) by {
                assert(place_valid(dk, places[j]));
                lemma_place_kept(dk, dk1, site.block, site.index, site.id, before, reused, seq![], places[j]);
            }
            assert forall|v: Value| value_in_bounds(d0, v) implies value_in_bounds(dk1, v) && #[trigger] spec_type_of_value(
                dk1,
                v,
                m0.externals@,
                mir.definitions@,
            ) == spec_type_of_value(d0, v, m0.externals@, m0.definitions@) by {
                lemma_types_kept(
                    dk,
                    dk1,
                    site.block,
                    site.index,
                    site.id,
                    before,
                    reused,
                    seq![],
                    m0.externals@,
                    mk.definitions@,
                    mir.definitions@,
                    v,
                );
            }
        }
        k = k + 1;
    }
    proof {
        assert(perform_trace(d0, mir.definitions@[definition_id], sites0, ds, definition_id, op_index@, m0.externals@, m0.definitions@));
    }
}

} // verus!
