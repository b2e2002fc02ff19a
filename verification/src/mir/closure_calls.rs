//! Lowering closures to tuples across the program: every `PackClosure` becomes the tuple
//! `(function, environment)`, and every closure call takes the function and the environment out
//! of the tuple and calls the function with the environment as a last argument.
use crate::fx::{fx_map_get, fx_map_insert, fx_map_keys};
use crate::mir::definition::{Definition, spec_type_of_value, value_in_bounds};
use crate::mir::effects::lowering::sites_well_formed;
use crate::mir::effects::tail_resume_pass::take_definition;
use crate::mir::instruction::{Instruction, InstructionView, clone_values};
use crate::mir::lower_closures::{inserted_before, lower_one_call_closure};
use crate::mir::program::Mir;
use crate::mir::types::{Type, TypeView, lemma_types_view, types_view};
use crate::mir::values::{BlockId, DefinitionId, InstructionId, Value};
use vstd::prelude::*;

verus! {

broadcast use lemma_types_view;

/// The closure calls that the first `k` listings of block `b` of `d` name, in listing order.
pub open spec fn closure_calls_in_block(d: Definition, b: int, k: int) -> Seq<(BlockId, InstructionId)>
    decreases k,
{
    if k <= 0 {
        seq![]
    } else {
        let id = d.blocks@[b].instructions@[k - 1];
        closure_calls_in_block(d, b, k - 1) + if d.instructions@[id.0 as int] is CallClosure {
            seq![(BlockId(b as u32), id)]
        } else {
            seq![]
        }
    }
}

/// The closure calls that the first `nb` blocks of `d` list, block by block.
pub open spec fn closure_calls_in_blocks(d: Definition, nb: int) -> Seq<(BlockId, InstructionId)>
    decreases nb,
{
    if nb <= 0 {
        seq![]
    } else {
        closure_calls_in_blocks(d, nb - 1) + closure_calls_in_block(d, nb - 1, d.blocks@[nb - 1].instructions@.len() as int)
    }
}

/// The closure calls of `d`, in the order they are expanded.
pub open spec fn closure_calls(d: Definition) -> Seq<(BlockId, InstructionId)> {
    closure_calls_in_blocks(d, d.blocks@.len() as int)
}

/// The closure of the closure call `id`.
pub open spec fn called_closure(d: Definition, id: InstructionId) -> Value {
    d.instructions@[id.0 as int]->CallClosure_closure
}

/// The arguments of the closure call `id`.
pub open spec fn call_arguments(d: Definition, id: InstructionId) -> Seq<Value> {
    d.instructions@[id.0 as int]->CallClosure_arguments@
}

/// The type of the closure of the closure call `id` within the program.
pub open spec fn closure_type(d: Definition, id: InstructionId, mir: Mir) -> TypeView {
    spec_type_of_value(d, called_closure(d, id), mir.externals@, mir.definitions@)->0
}

/// Every closure call of `d` calls a closure whose type is a pair, and `d` can take two new
/// instructions for each.
pub open spec fn closure_calls_lowerable(d: Definition, mir: Mir) -> bool {
    let calls = closure_calls(d);
    &&& sites_well_formed(d)
    &&& d.instructions@.len() + 2 * calls.len() <= u32::MAX
    &&& forall|k: int|
        0 <= k < calls.len() ==> {
            let id = (#[trigger] calls[k]).1;
            &&& value_in_bounds(d, called_closure(d, id))
            &&& spec_type_of_value(d, called_closure(d, id), mir.externals@, mir.definitions@) matches Some(
                TypeView::Tuple(fields),
            ) && fields.len() == 2
        }
}

/// `new_d` is `d` with every `PackClosure { function, environment }` made the tuple
/// `MakeTuple([function, environment])`; nothing else changes.
pub open spec fn packs_made_tuples(d: Definition, new_d: Definition) -> bool {
    &&& new_d.instructions@.len() == d.instructions@.len()
    &&& forall|k: int|
        0 <= k < d.instructions@.len() ==> (#[trigger] new_d.instructions@[k])@ == match d.instructions@[k] {
            Instruction::PackClosure { function, environment } => InstructionView::MakeTuple(seq![function, environment]),
            other => other@,
        }
    &&& new_d.instruction_result_types == d.instruction_result_types
    &&& new_d.blocks == d.blocks
    &&& new_d.name == d.name
    &&& new_d.id == d.id
    &&& new_d.typ == d.typ
    &&& new_d.generic_count == d.generic_count
}

/// Makes every `PackClosure` of the definition the tuple of its function and environment.
pub fn make_packs_tuples(definition: &mut Definition)
    ensures
        packs_made_tuples(*old(definition), *final(definition)),
{
    let ghost d0 = *definition;
    let mut k: usize = 0;
    while k < definition.instructions.len()
        invariant
            0 <= k <= definition.instructions@.len(),
            definition.instructions@.len() == d0.instructions@.len(),
            forall|j: int|
                0 <= j < k ==> (#[trigger] definition.instructions@[j])@ == match d0.instructions@[j] {
                    Instruction::PackClosure { function, environment } => InstructionView::MakeTuple(seq![function, environment]),
                    other => other@,
                },
            forall|j: int| k <= j < d0.instructions@.len() ==> #[trigger] definition.instructions@[j] == d0.instructions@[j],
            definition.instruction_result_types == d0.instruction_result_types,
            definition.blocks == d0.blocks,
            definition.name == d0.name,
            definition.id == d0.id,
            definition.typ == d0.typ,
            definition.generic_count == d0.generic_count,
        decreases d0.instructions@.len() - k,
    {
        let replacement = match &definition.instructions[k] {
            Instruction::PackClosure { function, environment } => Some(vec![*function, *environment]),
            _ => None,
        };
        if let Some(values) = replacement {
            assert(values@ =~= seq![values@[0], values@[1]]);
            definition.instructions.set(k, Instruction::MakeTuple(values));
        }
        k = k + 1;
    }
}

/// `new_d` is `d` with the closure call `call_id`, listed in block `block`, expanded (see
/// [lower_one_call_closure]): its closure's function and environment are taken out by two new
/// instructions, of types `fn_type` and `env_type`, put before its first listing, and the call
/// calls the function with `arguments` and the environment.
pub open spec fn call_expanded(
    d: Definition,
    new_d: Definition,
    block: BlockId,
    call_id: InstructionId,
    fn_type: Type,
    env_type: Type,
    closure: Value,
    arguments: Seq<Value>,
) -> bool {
    let n = d.instructions@.len();
    let b = block.0 as int;
    &&& new_d.instructions@.len() == n + 2
    &&& forall|k: int| 0 <= k < n && k != call_id.0 ==> #[trigger] new_d.instructions@[k] == d.instructions@[k]
    &&& new_d.instructions@[call_id.0 as int]@ == InstructionView::Call {
        function: Value::InstructionResult(InstructionId(n as u32)),
        arguments: arguments.push(Value::InstructionResult(InstructionId((n + 1) as u32))),
    }
    &&& new_d.instructions@[n as int] == Instruction::IndexTuple { tuple: closure, index: 0 }
    &&& new_d.instructions@[(n + 1) as int] == Instruction::IndexTuple { tuple: closure, index: 1 }
    &&& new_d.instruction_result_types@ == d.instruction_result_types@.push(fn_type).push(env_type)
    &&& new_d.blocks@.len() == d.blocks@.len()
    &&& inserted_before(
        d.blocks@[b].instructions@,
        call_id,
        seq![InstructionId(n as u32), InstructionId((n + 1) as u32)],
        new_d.blocks@[b].instructions@,
    )
    &&& new_d.blocks@[b].parameter_types == d.blocks@[b].parameter_types
    &&& new_d.blocks@[b].terminator == d.blocks@[b].terminator
    &&& forall|x: int| 0 <= x < d.blocks@.len() && x != b ==> #[trigger] new_d.blocks@[x] == d.blocks@[x]
    &&& new_d.name == d.name
    &&& new_d.id == d.id
    &&& new_d.typ == d.typ
    &&& new_d.generic_count == d.generic_count
}

/// A closure call of `d0` with what its expansion needs: where it is listed, its closure and
/// arguments, and the types of the function and the environment in the closure tuple.
pub struct ClosureCall {
    pub block: BlockId,
    pub id: InstructionId,
    pub closure: Value,
    pub arguments: Vec<Value>,
    pub fn_type: Type,
    pub env_type: Type,
}

/// `call` describes the closure call at `place` of `d`, with the closure's pair type in `mir`.
pub open spec fn call_matches(d: Definition, mir: Mir, place: (BlockId, InstructionId), call: ClosureCall) -> bool {
    &&& call.block == place.0
    &&& call.id == place.1
    &&& call.closure == called_closure(d, place.1)
    &&& call.arguments@ == call_arguments(d, place.1)
    &&& closure_type(d, place.1, mir) == TypeView::Tuple(seq![call.fn_type@, call.env_type@])
}

/// The closure calls of `definition`, with their closures' types in `mir`.
fn collect_closure_calls(definition: &Definition, mir: &Mir) -> (r: Vec<ClosureCall>)
    requires
        closure_calls_lowerable(*definition, *mir),
    ensures
        r@.len() == closure_calls(*definition).len(),
        forall|k: int| 0 <= k < r@.len() ==> call_matches(*definition, *mir, closure_calls(*definition)[k], #[trigger] r@[k]),
{
    let ghost d = *definition;
    let ghost all = closure_calls(d);
    let mut calls: Vec<ClosureCall> = Vec::new();
    let mut b: usize = 0;
    while b < definition.blocks.len()
        invariant
            0 <= b <= d.blocks@.len(),
            *definition == d,
            all == closure_calls(d),
            closure_calls_lowerable(d, *mir),
            calls@.len() == closure_calls_in_blocks(d, b as int).len(),
            forall|k: int| 0 <= k < calls@.len() ==> call_matches(d, *mir, closure_calls_in_blocks(d, b as int)[k], #[trigger] calls@[k]),
        decreases d.blocks@.len() - b,
    {
        let block = &definition.blocks[b];
        let ghost before = calls@;
        let mut index: usize = 0;
        while index < block.instructions.len()
            invariant
                0 <= index <= block.instructions@.len(),
                b < d.blocks@.len(),
                *block == d.blocks@[b as int],
                *definition == d,
                all == closure_calls(d),
                closure_calls_lowerable(d, *mir),
                before.len() == closure_calls_in_blocks(d, b as int).len(),
                calls@.len() == before.len() + closure_calls_in_block(d, b as int, index as int).len(),
                forall|k: int| 0 <= k < before.len() ==> #[trigger] calls@[k] == before[k],
                forall|k: int|
                    0 <= k < before.len() ==> call_matches(d, *mir, closure_calls_in_blocks(d, b as int)[k], #[trigger] before[k]),
                forall|k: int|
                    before.len() <= k < calls@.len() ==> call_matches(
                        d,
                        *mir,
                        closure_calls_in_block(d, b as int, index as int)[k - before.len()],
                        #[trigger] calls@[k],
                    ),
            decreases block.instructions@.len() - index,
        {
            let id = block.instructions[index];
            assert(id.0 < d.instructions@.len());
            if let Instruction::CallClosure { closure, arguments } = &definition.instructions[id.0 as usize] {
                proof {
                    assert(closure_calls_in_blocks(d, b + 1) == closure_calls_in_blocks(d, b as int) + closure_calls_in_block(
                        d,
                        b as int,
                        block.instructions@.len() as int,
                    ));
                    lemma_block_prefix(d, b as int, index + 1, block.instructions@.len() as int);
                    lemma_blocks_prefix(d, b + 1, d.blocks@.len() as int);
                    let inner = closure_calls_in_block(d, b as int, index + 1);
                    let k = before.len() + inner.len() - 1;
                    assert(inner.last() == (BlockId(b as u32), id));
                    assert(closure_calls_in_blocks(d, b + 1)[k] == (BlockId(b as u32), id));
                    assert(all[k] == (BlockId(b as u32), id));
                }
                let closure_typ = mir.type_of_value(closure, definition);
                let (fn_type, env_type) = match &closure_typ {
                    Type::Tuple(fields) => {
                        assert(types_view(fields@).len() == fields@.len());
                        let f = fields[0].clone();
                        let e = fields[1].clone();
                        assert(types_view(fields@) =~= seq![f@, e@]);
                        (f, e)
                    },
                    _ => {
                        assert(false);
                        (Type::unit(), Type::unit())
                    },
                };
                calls.push(
                    ClosureCall {
                        block: BlockId(b as u32),
                        id,
                        closure: *closure,
                        arguments: clone_values(arguments),
                        fn_type,
                        env_type,
                    },
                );
                proof {
                    assert(closure_type(d, id, *mir) == TypeView::Tuple(seq![fn_type@, env_type@]));
                }
            }
            index = index + 1;
            proof {
                assert forall|k: int| before.len() <= k < calls@.len() implies call_matches(
                    d,
                    *mir,
                    closure_calls_in_block(d, b as int, index as int)[k - before.len()],
                    #[trigger] calls@[k],
                ) by {
                    assert(closure_calls_in_block(d, b as int, index as int) == closure_calls_in_block(d, b as int, index - 1)
                        + if d.instructions@[id.0 as int] is CallClosure {
                        seq![(BlockId(b as u32), id)]
                    } else {
                        seq![]
                    });
                }
            }
        }
        proof {
            assert(closure_calls_in_blocks(d, b + 1) == closure_calls_in_blocks(d, b as int) + closure_calls_in_block(
                d,
                b as int,
                block.instructions@.len() as int,
            ));
        }
        b = b + 1;
    }
    calls
}

/// The calls of the first `j` listings of a block are the first of those of `k` listings.
proof fn lemma_block_prefix(d: Definition, b: int, j: int, k: int)
    requires
        0 <= j <= k,
    ensures
        closure_calls_in_block(d, b, j).len() <= closure_calls_in_block(d, b, k).len(),
        forall|x: int|
            0 <= x < closure_calls_in_block(d, b, j).len() ==> #[trigger] closure_calls_in_block(d, b, k)[x]
                == closure_calls_in_block(d, b, j)[x],
    decreases k - j,
{
    if j < k {
        lemma_block_prefix(d, b, j, k - 1);
    }
}

/// The calls of the first `j` blocks are the first of those of `k` blocks.
proof fn lemma_blocks_prefix(d: Definition, j: int, k: int)
    requires
        0 <= j <= k,
    ensures
        closure_calls_in_blocks(d, j).len() <= closure_calls_in_blocks(d, k).len(),
        forall|x: int|
            0 <= x < closure_calls_in_blocks(d, j).len() ==> #[trigger] closure_calls_in_blocks(d, k)[x]
                == closure_calls_in_blocks(d, j)[x],
    decreases k - j,
{
    if j < k {
        lemma_blocks_prefix(d, j, k - 1);
    }
}

/// Step `k` of a [closure_trace]: `ds[k + 1]` is `ds[k]` with closure call `calls[k]` expanded.
pub open spec fn call_step_at(ds: Seq<Definition>, calls: Seq<ClosureCall>, k: int) -> bool {
    call_expanded(
        ds[k],
        ds[k + 1],
        calls[k].block,
        calls[k].id,
        calls[k].fn_type,
        calls[k].env_type,
        calls[k].closure,
        calls[k].arguments@,
    )
}

/// `d` is `d0` with its closures lowered: its `PackClosure`s made tuples ([packs_made_tuples]),
/// then each of its closure calls, `calls` as found in `d0` with their types in `mir`, expanded
/// in turn through the definitions `ds`.
pub open spec fn closure_trace(d0: Definition, d: Definition, mir: Mir, calls: Seq<ClosureCall>, ds: Seq<Definition>) -> bool {
    let places = closure_calls(d0);
    &&& calls.len() == places.len()
    &&& forall|k: int| 0 <= k < calls.len() ==> call_matches(d0, mir, places[k], #[trigger] calls[k])
    &&& ds.len() == calls.len() + 1
    &&& packs_made_tuples(d0, ds[0])
    &&& ds.last() == d
    &&& forall|k: int| 0 <= k < calls.len() ==> #[trigger] call_step_at(ds, calls, k)
}

/// Every closure call found in `d` is listed by its block.
proof fn lemma_calls_listed(d: Definition, nb: int, k: int)
    requires
        0 <= nb <= d.blocks@.len(),
        d.blocks@.len() <= u32::MAX,
        0 <= k < closure_calls_in_blocks(d, nb).len(),
    ensures
        ({
            let c = closure_calls_in_blocks(d, nb)[k];
            &&& c.0.0 < d.blocks@.len()
            &&& d.blocks@[c.0.0 as int].instructions@.contains(c.1)
        }),
    decreases nb,
{
    let front = closure_calls_in_blocks(d, nb - 1);
    if k < front.len() {
        lemma_calls_listed(d, nb - 1, k);
    } else {
        lemma_block_listed(d, nb - 1, d.blocks@[nb - 1].instructions@.len() as int, k - front.len());
    }
}

proof fn lemma_block_listed(d: Definition, b: int, n: int, k: int)
    requires
        0 <= b < d.blocks@.len(),
        b <= u32::MAX,
        0 <= n <= d.blocks@[b].instructions@.len(),
        0 <= k < closure_calls_in_block(d, b, n).len(),
    ensures
        closure_calls_in_block(d, b, n)[k].0 == BlockId(b as u32),
        d.blocks@[b].instructions@.contains(closure_calls_in_block(d, b, n)[k].1),
    decreases n,
{
    let front = closure_calls_in_block(d, b, n - 1);
    if k < front.len() {
        lemma_block_listed(d, b, n - 1, k);
    } else {
        assert(d.blocks@[b].instructions@[n - 1] == closure_calls_in_block(d, b, n)[k].1);
    }
}

/// Whatever a block listed it still lists after an insertion.
proof fn lemma_still_listed(s: Seq<InstructionId>, at: InstructionId, inserted: Seq<InstructionId>, new: Seq<InstructionId>, x: InstructionId)
    requires
        inserted_before(s, at, inserted, new),
        s.contains(x),
    ensures
        new.contains(x),
{
    let pos = choose|pos: int|
        0 <= pos < s.len() && s[pos] == at && (forall|j: int| 0 <= j < pos ==> s[j] != at) && new == s.subrange(0, pos)
            + inserted + s.subrange(pos, s.len() as int);
    let j = choose|j: int| 0 <= j < s.len() && s[j] == x;
    if j < pos {
        assert(new[j] == x);
    } else {
        assert(new[inserted.len() + j] == x);
    }
}

/// Lowers the closures of definition `definition_id` (see [closure_trace]).
pub fn lower_closure_calls_in(mir: &mut Mir, definition_id: DefinitionId)
    requires
        old(mir).definitions@.contains_key(definition_id),
        closure_calls_lowerable(old(mir).definitions@[definition_id], *old(mir)),
    ensures
        final(mir).definitions@.dom() == old(mir).definitions@.dom(),
        forall|x: DefinitionId| x != definition_id ==> #[trigger] final(mir).definitions@.get(x) == old(mir).definitions@.get(x),
        final(mir).definitions@[definition_id].typ == old(mir).definitions@[definition_id].typ,
        exists|calls: Seq<ClosureCall>, ds: Seq<Definition>|
            #[trigger] closure_trace(old(mir).definitions@[definition_id], final(mir).definitions@[definition_id], *old(mir), calls, ds),
        final(mir).externals == old(mir).externals,
        final(mir).preserved_op_indices == old(mir).preserved_op_indices,
{
    let ghost m0 = *mir;
    let ghost d0 = mir.definitions@[definition_id];
    let calls = collect_closure_calls(fx_map_get(&mir.definitions, definition_id).unwrap(), mir);
    let ghost places = closure_calls(d0);
    let mut definition = take_definition(mir, definition_id);
    make_packs_tuples(&mut definition);
    let ghost mut ds: Seq<Definition> = seq![definition];
    let n = calls.len();
    proof {
        assert forall|j: int| 0 <= j < n implies #[trigger] definition.blocks@[calls@[j].block.0 as int].instructions@.contains(
            calls@[j].id,
        ) by {
            lemma_calls_listed(d0, d0.blocks@.len() as int, j);
            assert(call_matches(d0, m0, places[j], calls@[j]));
        }
    }
    let mut k: usize = 0;
    while k < n
        invariant
            0 <= k <= n,
            n == calls@.len(),
            calls@.len() == places.len(),
            places == closure_calls(d0),
            closure_calls_lowerable(d0, m0),
            forall|j: int| 0 <= j < n ==> call_matches(d0, m0, places[j], #[trigger] calls@[j]),
            ds.len() == k + 1,
            packs_made_tuples(d0, ds[0]),
            ds.last() == definition,
            definition.instructions@.len() == d0.instructions@.len() + 2 * k,
            definition.instruction_result_types@.len() == definition.instructions@.len(),
            definition.blocks@.len() == d0.blocks@.len(),
            definition.typ == d0.typ,
            forall|j: int|
                k <= j < n ==> #[trigger] definition.blocks@[calls@[j].block.0 as int].instructions@.contains(calls@[j].id),
            forall|j: int| 0 <= j < k ==> #[trigger] call_step_at(ds, calls@, j),
        decreases n - k,
    {
        let ghost before = definition;
        let call = &calls[k];
        proof {
            lemma_calls_listed(d0, d0.blocks@.len() as int, k as int);
            assert(places[k as int].1.0 < d0.instructions@.len());
            assert(definition.blocks@[call.block.0 as int].instructions@.contains(call.id));
        }
        lower_one_call_closure(
            &mut definition,
            call.block,
            call.id,
            call.fn_type.clone(),
            call.env_type.clone(),
            call.closure,
            clone_values(&call.arguments),
        );
        proof {
            let old_ds = ds;
            ds = ds.push(definition);
            assert(call_step_at(ds, calls@, k as int));
            assert forall|j: int| 0 <= j < k + 1 implies #[trigger] call_step_at(ds, calls@, j) by {
                if j < k {
                    assert(call_step_at(old_ds, calls@, j));
                    assert(ds[j] == old_ds[j]);
                    assert(ds[j + 1] == old_ds[j + 1]);
                }
            }
            assert forall|j: int| k + 1 <= j < n implies #[trigger] definition.blocks@[calls@[j].block.0 as int].instructions@.contains(
                calls@[j].id,
            ) by {
                let bj = calls@[j].block.0 as int;
                assert(before.blocks@[bj].instructions@.contains(calls@[j].id));
                if bj == call.block.0 as int {
                    lemma_still_listed(
                        before.blocks@[bj].instructions@,
                        call.id,
                        seq![InstructionId(before.instructions@.len() as u32), InstructionId((before.instructions@.len() + 1) as u32)],
                        definition.blocks@[bj].instructions@,
                        calls@[j].id,
                    );
                } else {
                    lemma_calls_listed(d0, d0.blocks@.len() as int, j);
                }
            }
        }
        k = k + 1;
    }
    fx_map_insert(&mut mir.definitions, definition_id, definition);
    proof {
        assert(closure_trace(d0, mir.definitions@[definition_id], m0, calls@, ds));
        assert(mir.definitions@.dom() =~= m0.definitions@.dom());
    }
}

/// Types within a definition depend on the other definitions only through their types.
proof fn lemma_types_by_header(
    d: Definition,
    v: Value,
    externals: Map<DefinitionId, crate::mir::definition::Extern>,
    d1: Map<DefinitionId, Definition>,
    d2: Map<DefinitionId, Definition>,
)
    requires
        d1.dom() == d2.dom(),
        forall|x: DefinitionId| #[trigger] d1.contains_key(x) ==> d1[x].typ == d2[x].typ,
    ensures
        spec_type_of_value(d, v, externals, d1) == spec_type_of_value(d, v, externals, d2),
{
    if let Value::Definition(x) = v {
        if d1.contains_key(x) {
            assert(d1[x].typ == d2[x].typ);
        }
    }
}

/// Definition `x` of `after` is that of `before` with its closures lowered ([closure_trace]).
pub open spec fn closures_lowered_at(before: Mir, after: Mir, x: DefinitionId) -> bool {
    exists|calls: Seq<ClosureCall>, ds: Seq<Definition>|
        #[trigger] closure_trace(before.definitions@[x], after.definitions@[x], before, calls, ds)
}

/// Lowers the closures of every definition of the program (see [closure_trace]): each
/// `PackClosure` becomes a tuple and each closure call a call of the tuple's function with its
/// environment.
pub fn lower_closure_instructions(mir: &mut Mir)
    requires
        forall|x: DefinitionId|
            #[trigger] old(mir).definitions@.contains_key(x) ==> closure_calls_lowerable(old(mir).definitions@[x], *old(mir)),
    ensures
        final(mir).definitions@.dom() == old(mir).definitions@.dom(),
        forall|x: DefinitionId| #[trigger] old(mir).definitions@.contains_key(x) ==> closures_lowered_at(*old(mir), *final(mir), x),
        final(mir).externals == old(mir).externals,
        final(mir).preserved_op_indices == old(mir).preserved_op_indices,
{
    let ghost m0 = *mir;
    let keys = fx_map_keys(&mir.definitions);
    let mut i: usize = 0;
    while i < keys.len()
        invariant
            0 <= i <= keys@.len(),
            keys@.no_duplicates(),
            keys@.to_set() == m0.definitions@.dom(),
            forall|x: DefinitionId| #[trigger] m0.definitions@.contains_key(x) ==> closure_calls_lowerable(m0.definitions@[x], m0),
            mir.definitions@.dom() == m0.definitions@.dom(),
            mir.externals == m0.externals,
            mir.preserved_op_indices == m0.preserved_op_indices,
            forall|x: DefinitionId| #[trigger] mir.definitions@.contains_key(x) ==> mir.definitions@[x].typ == m0.definitions@[x].typ,
            forall|j: int| i <= j < keys@.len() ==> #[trigger] mir.definitions@[keys@[j]] == m0.definitions@[keys@[j]],
            forall|j: int| 0 <= j < i ==> #[trigger] closures_lowered_at(m0, *mir, keys@[j]),
        decreases keys@.len() - i,
    {
        let ghost before = *mir;
        let key = keys[i];
        proof {
            assert(keys@.to_set().contains(key));
            let d = m0.definitions@[key];
            assert(before.definitions@[key] == d);
            // the types within `d` are those it had in the original program
            assert forall|v: Value| spec_type_of_value(d, v, m0.externals@, before.definitions@) == spec_type_of_value(
                d,
                v,
                m0.externals@,
                m0.definitions@,
            ) by {
                lemma_types_by_header(d, v, m0.externals@, before.definitions@, m0.definitions@);
            }
            assert(closure_calls_lowerable(d, before));
        }
        lower_closure_calls_in(mir, key);
        proof {
            let d = m0.definitions@[key];
            let (calls, ds) = choose|calls: Seq<ClosureCall>, ds: Seq<Definition>|
                #[trigger] closure_trace(d, mir.definitions@[key], before, calls, ds);
            assert forall|k: int| 0 <= k < calls.len() implies call_matches(d, m0, closure_calls(d)[k], #[trigger] calls[k]) by {
                assert(call_matches(d, before, closure_calls(d)[k], calls[k]));
                let id = closure_calls(d)[k].1;
                lemma_types_by_header(d, called_closure(d, id), m0.externals@, before.definitions@, m0.definitions@);
            }
            assert(closure_trace(d, mir.definitions@[key], m0, calls, ds));
            assert(closures_lowered_at(m0, *mir, key));
            assert forall|j: int| 0 <= j < i + 1 implies #[trigger] closures_lowered_at(m0, *mir, keys@[j]) by {
                if j < i {
                    assert(keys@[j] != key);
                    assert(mir.definitions@.get(keys@[j]) == before.definitions@.get(keys@[j]));
                    assert(closures_lowered_at(m0, before, keys@[j]));
                }
            }
            assert forall|j: int| i + 1 <= j < keys@.len() implies #[trigger] mir.definitions@[keys@[j]] == m0.definitions@[keys@[j]] by {
                assert(keys@[j] != key);
                assert(mir.definitions@.get(keys@[j]) == before.definitions@.get(keys@[j]));
            }
            assert forall|x: DefinitionId| #[trigger] mir.definitions@.contains_key(x) implies mir.definitions@[x].typ
                == m0.definitions@[x].typ by {
                if x != key {
                    assert(mir.definitions@.get(x) == before.definitions@.get(x));
                }
            }
        }
        i = i + 1;
    }
    proof {
        assert forall|x: DefinitionId| #[trigger] m0.definitions@.contains_key(x) implies closures_lowered_at(m0, *mir, x) by {
            assert(keys@.to_set().contains(x));
            let j = choose|j: int| 0 <= j < keys@.len() && keys@[j] == x;
            assert(closures_lowered_at(m0, *mir, keys@[j]));
        }
    }
}

/// No `PackClosure` is left in a definition whose closures were lowered: the tuples replaced
/// them all, and expanding a call only adds `IndexTuple`s and makes the call a plain `Call`.
pub proof fn lemma_no_pack_closure_left(d0: Definition, d: Definition, mir: Mir, calls: Seq<ClosureCall>, ds: Seq<Definition>)
    requires
        closure_trace(d0, d, mir, calls, ds),
    ensures
        forall|k: int| 0 <= k < d.instructions@.len() ==> !(#[trigger] d.instructions@[k] is PackClosure),
{
    assert forall|k: int| 0 <= k < ds[0].instructions@.len() implies !(#[trigger] ds[0].instructions@[k] is PackClosure) by {
        assert((ds[0].instructions@[k])@ == match d0.instructions@[k] {
            Instruction::PackClosure { function, environment } => InstructionView::MakeTuple(seq![function, environment]),
            other => other@,
        });
    }
    lemma_no_pack_from(ds, calls, 0);
}

proof fn lemma_no_pack_from(ds: Seq<Definition>, calls: Seq<ClosureCall>, j: int)
    requires
        ds.len() == calls.len() + 1,
        0 <= j <= calls.len(),
        forall|k: int| 0 <= k < calls.len() ==> #[trigger] call_step_at(ds, calls, k),
        forall|k: int| 0 <= k < ds[j].instructions@.len() ==> !(#[trigger] ds[j].instructions@[k] is PackClosure),
    ensures
        forall|k: int| 0 <= k < ds.last().instructions@.len() ==> !(#[trigger] ds.last().instructions@[k] is PackClosure),
    decreases calls.len() - j,
{
    if j < calls.len() {
        assert(call_step_at(ds, calls, j));
        let n = ds[j].instructions@.len();
        assert forall|k: int| 0 <= k < ds[j + 1].instructions@.len() implies !(#[trigger] ds[j + 1].instructions@[k] is PackClosure) by {
            if k < n && k != calls[j].id.0 {
                assert(ds[j + 1].instructions@[k] == ds[j].instructions@[k]);
            }
        }
        lemma_no_pack_from(ds, calls, j + 1);
    }
}


/// The closure of the closure call `id` is in bounds and has a pair type in `mir`.
pub open spec fn call_ok(d: Definition, mir: Mir, id: InstructionId) -> bool {
    &&& value_in_bounds(d, called_closure(d, id))
    &&& spec_type_of_value(d, called_closure(d, id), mir.externals@, mir.definitions@) matches Some(
        TypeView::Tuple(fields),
    ) && fields.len() == 2
}

/// Whether the closure calls of `definition` can be lowered ([closure_calls_lowerable]).
pub fn closure_calls_lowerable_check(definition: &Definition, mir: &Mir) -> (r: bool)
    ensures
        r == closure_calls_lowerable(*definition, *mir),
{
    if !crate::mir::effects::handle_check::sites_well_formed_check(definition) {
        return false;
    }
    let ghost d = *definition;
    let ghost all = closure_calls(d);
    let mut count: usize = 0;
    let mut b: usize = 0;
    while b < definition.blocks.len()
        invariant
            0 <= b <= d.blocks@.len(),
            *definition == d,
            all == closure_calls(d),
            sites_well_formed(d),
            count == closure_calls_in_blocks(d, b as int).len(),
            count <= all.len(),
            forall|k: int| 0 <= k < count ==> call_ok(d, *mir, (#[trigger] all[k]).1),
        decreases d.blocks@.len() - b,
    {
        let block = &definition.blocks[b];
        let ghost base = count as int;
        let mut index: usize = 0;
        while index < block.instructions.len()
            invariant
                0 <= index <= block.instructions@.len(),
                b < d.blocks@.len(),
                *block == d.blocks@[b as int],
                *definition == d,
                all == closure_calls(d),
                sites_well_formed(d),
                base == closure_calls_in_blocks(d, b as int).len(),
                count == base + closure_calls_in_block(d, b as int, index as int).len(),
                count <= all.len(),
                forall|k: int| 0 <= k < count ==> call_ok(d, *mir, (#[trigger] all[k]).1),
            decreases block.instructions@.len() - index,
        {
            let id = block.instructions[index];
            assert(id.0 < d.instructions@.len());
            proof {
                assert(closure_calls_in_blocks(d, b + 1) == closure_calls_in_blocks(d, b as int) + closure_calls_in_block(
                    d,
                    b as int,
                    block.instructions@.len() as int,
                ));
                lemma_block_prefix(d, b as int, index + 1, block.instructions@.len() as int);
                lemma_blocks_prefix(d, b + 1, d.blocks@.len() as int);
                assert(closure_calls_in_block(d, b as int, index + 1) == closure_calls_in_block(d, b as int, index as int)
                    + if d.instructions@[id.0 as int] is CallClosure {
                    seq![(BlockId(b as u32), id)]
                } else {
                    seq![]
                });
            }
            if let Instruction::CallClosure { closure, .. } = &definition.instructions[id.0 as usize] {
                proof {
                    let inner = closure_calls_in_block(d, b as int, index + 1);
                    let k = base + inner.len() - 1;
                    assert(inner.last() == (BlockId(b as u32), id));
                    assert(closure_calls_in_blocks(d, b + 1)[k] == (BlockId(b as u32), id));
                    assert(all[k] == (BlockId(b as u32), id));
                    assert(k == count);
                }
                let in_bounds = match closure {
                    Value::InstructionResult(result) => (result.0 as usize) < definition.instruction_result_types.len(),
                    _ => true,
                };
                if !in_bounds {
                    proof {
                        assert(!call_ok(d, *mir, all[count as int].1));
                    }
                    return false;
                }
                let t = definition.try_type_of_value(closure, &mir.externals, &mir.definitions);
                let pair = match &t {
                    Some(Type::Tuple(fields)) => {
                        assert(types_view(fields@).len() == fields@.len());
                        fields.len() == 2
                    },
                    Some(other) => {
                        assert(!(other@ is Tuple));
                        false
                    },
                    None => false,
                };
                if !pair {
                    proof {
                        assert(!call_ok(d, *mir, all[count as int].1));
                    }
                    return false;
                }
                proof {
                    assert(call_ok(d, *mir, all[count as int].1));
                }
                if count == usize::MAX {
                    return false;
                }
                count = count + 1;
            }
            index = index + 1;
        }
        b = b + 1;
    }
    proof {
        assert(closure_calls_in_blocks(d, d.blocks@.len() as int) == all);
    }
    if count > 0xffff_ffffusize || definition.instructions.len() > 0xffff_ffffusize {
        return false;
    }
    (definition.instructions.len() as u64) + 2 * (count as u64) <= 0xffff_ffffu64
}

} // verus!
