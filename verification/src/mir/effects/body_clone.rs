//! Cloning a handle's body together with the definitions only it uses, so that an optimized
//! handle can change its copy while the original, now dead, stays as it was.
use crate::fx::{DefinitionMap, fx_map_get, fx_map_insert, fx_map_keys};
use crate::mir::definition::{Block, Definition, same_block, same_body, same_terminator, spec_referenced_definitions};
use crate::mir::effects::tail_resume::{block_replaced, replace_in_target, substitute_value, terminator_replaced};
use crate::mir::instruction::{Instruction, InstructionView, JmpTarget, TerminatorInstruction, replace_in_instruction, replace_value};
use crate::mir::effects::tail_resume::OriginalEnvLayout;
use crate::mir::program::Mir;
use crate::mir::types::{FunctionType, Type, TypeView, clone_types, lemma_types_view, spec_is_closure, types_equal, types_view};
use crate::mir::values::{BlockId, DefinitionId, Value};
use std::sync::Arc;
use vstd::prelude::*;

verus! {

/// `r` is a definition of the program and refers to `c`.
pub open spec fn refers_to(defs: Map<DefinitionId, Definition>, r: DefinitionId, c: DefinitionId) -> bool {
    defs.contains_key(r) && spec_referenced_definitions(defs[r]).contains(c)
}

/// `c` can join the set `owned`: it is a definition of the program that a member of `owned`
/// refers to, and every definition that refers to it is in `owned`.
pub open spec fn can_join(defs: Map<DefinitionId, Definition>, owned: Set<DefinitionId>, c: DefinitionId) -> bool {
    &&& defs.contains_key(c)
    &&& exists|d: DefinitionId| #[trigger] owned.contains(d) && refers_to(defs, d, c)
    &&& forall|r: DefinitionId| #[trigger] refers_to(defs, r, c) ==> owned.contains(r)
}

/// Nothing more can join `owned`.
pub open spec fn ownership_closed(defs: Map<DefinitionId, Definition>, owned: Set<DefinitionId>) -> bool {
    forall|c: DefinitionId| #[trigger] can_join(defs, owned, c) ==> owned.contains(c)
}

/// The definitions that `root` privately owns: the least set that holds `root` and is closed
/// under [can_join]. Definitions that anything outside it refers to stay shared.
pub open spec fn owned_set(defs: Map<DefinitionId, Definition>, root: DefinitionId) -> Set<DefinitionId> {
    Set::new(
        |c: DefinitionId|
            forall|s: Set<DefinitionId>| #[trigger] ownership_closed(defs, s) && s.contains(root) ==> s.contains(c),
    )
}

fn contains_id(ids: &Vec<DefinitionId>, x: DefinitionId) -> (r: bool)
    ensures
        r == ids@.contains(x),
{
    let mut i: usize = 0;
    while i < ids.len()
        invariant
            0 <= i <= ids@.len(),
            forall|j: int| 0 <= j < i ==> ids@[j] != x,
        decreases ids@.len() - i,
    {
        if ids[i] == x {
            return true;
        }
        i = i + 1;
    }
    false
}

/// Whether definition `r` exists and refers to `c`.
fn refers(defs: &DefinitionMap<Definition>, r: DefinitionId, c: DefinitionId) -> (b: bool)
    ensures
        b == refers_to(defs@, r, c),
{
    match fx_map_get(defs, r) {
        Some(definition) => {
            let references = definition.for_each_referenced_definition();
            contains_id(&references, c)
        },
        None => false,
    }
}

/// Whether a member of `owned` refers to `c`.
fn referred_to_by(defs: &DefinitionMap<Definition>, owned: &Vec<DefinitionId>, c: DefinitionId) -> (b: bool)
    ensures
        b == exists|d: DefinitionId| #[trigger] owned@.contains(d) && refers_to(defs@, d, c),
{
    let mut i: usize = 0;
    while i < owned.len()
        invariant
            0 <= i <= owned@.len(),
            forall|j: int| 0 <= j < i ==> !refers_to(defs@, #[trigger] owned@[j], c),
        decreases owned@.len() - i,
    {
        if refers(defs, owned[i], c) {
            assert(owned@.contains(owned@[i as int]));
            return true;
        }
        i = i + 1;
    }
    proof {
        assert forall|d: DefinitionId| #[trigger] owned@.contains(d) implies !refers_to(defs@, d, c) by {
            let j = choose|j: int| 0 <= j < owned@.len() && owned@[j] == d;
        }
    }
    false
}

/// Whether every definition that refers to `c` is in `owned`; `keys` are the program's ids.
fn referrers_within(
    defs: &DefinitionMap<Definition>,
    keys: &Vec<DefinitionId>,
    owned: &Vec<DefinitionId>,
    c: DefinitionId,
) -> (b: bool)
    requires
        keys@.to_set() == defs@.dom(),
    ensures
        b == forall|r: DefinitionId| #[trigger] refers_to(defs@, r, c) ==> owned@.contains(r),
{
    let mut i: usize = 0;
    while i < keys.len()
        invariant
            0 <= i <= keys@.len(),
            forall|j: int| 0 <= j < i && refers_to(defs@, #[trigger] keys@[j], c) ==> owned@.contains(keys@[j]),
        decreases keys@.len() - i,
    {
        if refers(defs, keys[i], c) && !contains_id(owned, keys[i]) {
            return false;
        }
        i = i + 1;
    }
    proof {
        assert forall|r: DefinitionId| #[trigger] refers_to(defs@, r, c) implies owned@.contains(r) by {
            assert(keys@.to_set().contains(r));
            let j = choose|j: int| 0 <= j < keys@.len() && keys@[j] == r;
        }
    }
    true
}

/// A definition that can join `owned`, if any.
fn find_joiner(defs: &DefinitionMap<Definition>, keys: &Vec<DefinitionId>, owned: &Vec<DefinitionId>) -> (r: Option<
    DefinitionId,
>)
    requires
        keys@.to_set() == defs@.dom(),
    ensures
        r matches Some(c) ==> !owned@.contains(c) && can_join(defs@, owned@.to_set(), c),
        r is None ==> forall|c: DefinitionId| can_join(defs@, owned@.to_set(), c) ==> owned@.contains(c),
{
    let mut i: usize = 0;
    while i < keys.len()
        invariant
            0 <= i <= keys@.len(),
            keys@.to_set() == defs@.dom(),
            forall|j: int|
                0 <= j < i && can_join(defs@, owned@.to_set(), #[trigger] keys@[j]) ==> owned@.contains(keys@[j]),
        decreases keys@.len() - i,
    {
        let c = keys[i];
        proof {
            assert(keys@.to_set().contains(c));
        }
        if !contains_id(owned, c) && referred_to_by(defs, owned, c) && referrers_within(defs, keys, owned, c) {
            proof {
                assert forall|r: DefinitionId| #[trigger] refers_to(defs@, r, c) implies owned@.to_set().contains(r) by {}
                let d = choose|d: DefinitionId| #[trigger] owned@.contains(d) && refers_to(defs@, d, c);
                assert(owned@.to_set().contains(d));
            }
            return Some(c);
        }
        proof {
            if can_join(defs@, owned@.to_set(), c) {
                let d = choose|d: DefinitionId| #[trigger] owned@.to_set().contains(d) && refers_to(defs@, d, c);
                assert(owned@.contains(d));
                assert forall|r: DefinitionId| #[trigger] refers_to(defs@, r, c) implies owned@.contains(r) by {
                    assert(owned@.to_set().contains(r));
                }
            }
        }
        i = i + 1;
    }
    proof {
        assert forall|c: DefinitionId| can_join(defs@, owned@.to_set(), c) implies owned@.contains(c) by {
            assert(keys@.to_set().contains(c));
            let j = choose|j: int| 0 <= j < keys@.len() && keys@[j] == c;
        }
    }
    None
}

/// A list of distinct ids, all of them program ids but perhaps `root`, is at most one longer than
/// the list of program ids.
proof fn lemma_owned_bound(owned: Seq<DefinitionId>, keys: Seq<DefinitionId>, root: DefinitionId)
    requires
        owned.no_duplicates(),
        keys.no_duplicates(),
        forall|x: DefinitionId| #[trigger] owned.contains(x) ==> x == root || keys.to_set().contains(x),
    ensures
        owned.len() <= keys.len() + 1,
{
    broadcast use vstd::seq_lib::seq_to_set_is_finite;
    let others = owned.to_set().remove(root);
    assert(others.subset_of(keys.to_set()));
    keys.unique_seq_to_set();
    owned.unique_seq_to_set();
    vstd::set_lib::lemma_len_subset(others, keys.to_set());
}

/// The set of definitions privately owned by `root`: `root` itself plus every definition
/// reachable from it whose every referrer is also owned. Definitions referenced from outside
/// this set (named top-level functions, shared helpers) and externals stay shared. `root` comes
/// first.
pub fn owned_subtree(mir: &Mir, root: DefinitionId) -> (r: Vec<DefinitionId>)
    ensures
        r@.no_duplicates(),
        r@.len() > 0,
        r@[0] == root,
        r@.to_set() == owned_set(mir.definitions@, root),
{
    let defs = &mir.definitions;
    let keys = fx_map_keys(defs);
    let mut owned: Vec<DefinitionId> = Vec::new();
    owned.push(root);
    proof {
        assert(owned@.to_set().contains(root)) by {
            assert(owned@[0] == root);
        }
    }
    loop
        invariant
            defs@ == mir.definitions@,
            keys@.to_set() == defs@.dom(),
            keys@.no_duplicates(),
            owned@.no_duplicates(),
            owned@.len() > 0,
            owned@[0] == root,
            forall|x: DefinitionId| #[trigger] owned@.contains(x) ==> x == root || defs@.contains_key(x),
            owned@.len() <= keys@.len() + 1,
            forall|s: Set<DefinitionId>|
                #[trigger] ownership_closed(defs@, s) && s.contains(root) ==> owned@.to_set().subset_of(s),
        decreases keys@.len() + 1 - owned@.len(),
    {
        proof {
            assert(owned@.to_set().contains(root)) by {
                assert(owned@[0] == root);
            }
        }
        match find_joiner(defs, &keys, &owned) {
            Some(c) => {
                let ghost before = owned@;
                owned.push(c);
                proof {
                    assert(owned@.to_set() =~= before.to_set().insert(c)) by {
                        assert forall|x: DefinitionId| owned@.contains(x) <==> before.contains(x) || x == c by {
                            if owned@.contains(x) {
                                let j = choose|j: int| 0 <= j < owned@.len() && owned@[j] == x;
                                if j < before.len() {
                                    assert(before[j] == x);
                                }
                            }
                            if before.contains(x) {
                                let j = choose|j: int| 0 <= j < before.len() && before[j] == x;
                                assert(owned@[j] == x);
                            }
                            if x == c {
                                assert(owned@[before.len() as int] == c);
                            }
                        }
                    }
                    assert forall|s: Set<DefinitionId>|
                        #[trigger] ownership_closed(defs@, s) && s.contains(root) implies owned@.to_set().subset_of(s) by {
                        assert(before.to_set().subset_of(s));
                        let d = choose|d: DefinitionId| #[trigger] before.to_set().contains(d) && refers_to(defs@, d, c);
                        assert(s.contains(d));
                        assert forall|r: DefinitionId| #[trigger] refers_to(defs@, r, c) implies s.contains(r) by {
                            assert(before.to_set().contains(r));
                        }
                        assert(can_join(defs@, s, c));
                    }
                    assert forall|x: DefinitionId| #[trigger] owned@.contains(x) implies x == root || defs@.contains_key(x) by {
                        assert(owned@.to_set().contains(x));
                        if x != c {
                            assert(before.to_set().contains(x));
                        }
                    }
                    lemma_owned_bound(owned@, keys@, root);
                }
            },
            None => {
                proof {
                    assert forall|c: DefinitionId| #[trigger] can_join(defs@, owned@.to_set(), c) implies owned@.to_set().contains(c) by {}
                    assert(owned@.to_set().contains(root)) by {
                        assert(owned@[0] == root);
                    }
                    assert(owned@.to_set() =~= owned_set(defs@, root)) by {
                        assert forall|x: DefinitionId| owned@.to_set().contains(x) implies owned_set(defs@, root).contains(x) by {
                            assert forall|s: Set<DefinitionId>| #[trigger] ownership_closed(defs@, s) && s.contains(root) implies s.contains(x) by {
                                assert(owned@.to_set().subset_of(s));
                            }
                        }
                        assert forall|x: DefinitionId| owned_set(defs@, root).contains(x) implies owned@.to_set().contains(x) by {
                            assert(ownership_closed(defs@, owned@.to_set()));
                        }
                    }
                }
                assert(owned@.to_set() == owned_set(mir.definitions@, root));
                return owned;
            },
        }
    }
}

/// The old ids of a list of `(old, new)` id pairs are distinct, so that it is a map.
pub open spec fn olds_distinct(pairs: Seq<(DefinitionId, DefinitionId)>) -> bool {
    forall|i: int, j: int| 0 <= i < j < pairs.len() ==> pairs[i].0 != pairs[j].0
}

/// The id that `pairs` maps `id` to, or `id` itself where it maps it to nothing.
pub open spec fn remap_id(pairs: Seq<(DefinitionId, DefinitionId)>, id: DefinitionId) -> DefinitionId {
    if exists|j: int| 0 <= j < pairs.len() && pairs[j].0 == id {
        pairs[choose|j: int| 0 <= j < pairs.len() && pairs[j].0 == id].1
    } else {
        id
    }
}

/// An `Instantiate` of a definition that `pairs` maps, retargeted; any other instruction as it is.
pub open spec fn remap_instantiate(i: InstructionView, pairs: Seq<(DefinitionId, DefinitionId)>) -> InstructionView {
    match i {
        InstructionView::Instantiate(id, bindings) => InstructionView::Instantiate(remap_id(pairs, id), bindings),
        _ => i,
    }
}

/// `v` after replacing `Value::Definition(old)` by `Value::Definition(new)` for each pair in turn.
pub open spec fn substitute_pairs_value(v: Value, pairs: Seq<(DefinitionId, DefinitionId)>) -> Value
    decreases pairs.len(),
{
    if pairs.len() == 0 {
        v
    } else {
        replace_value(
            substitute_pairs_value(v, pairs.drop_last()),
            Value::Definition(pairs.last().0),
            Value::Definition(pairs.last().1),
        )
    }
}

/// `i` after replacing `Value::Definition(old)` by `Value::Definition(new)` for each pair in turn.
pub open spec fn substitute_pairs(i: InstructionView, pairs: Seq<(DefinitionId, DefinitionId)>) -> InstructionView
    decreases pairs.len(),
{
    if pairs.len() == 0 {
        i
    } else {
        replace_in_instruction(
            substitute_pairs(i, pairs.drop_last()),
            Value::Definition(pairs.last().0),
            Value::Definition(pairs.last().1),
        )
    }
}

pub open spec fn remap_target(t: JmpTarget, pairs: Seq<(DefinitionId, DefinitionId)>) -> JmpTarget {
    (
        t.0,
        match t.1 {
            Some(v) => Some(substitute_pairs_value(v, pairs)),
            None => None,
        },
    )
}

/// `new` is the terminator `t` with each of its values substituted by `pairs`; its jump targets
/// and merge blocks are those of `t`.
pub open spec fn terminator_remapped(
    t: TerminatorInstruction,
    new: TerminatorInstruction,
    pairs: Seq<(DefinitionId, DefinitionId)>,
) -> bool {
    match t {
        TerminatorInstruction::Jmp(target) => new == TerminatorInstruction::Jmp(remap_target(target, pairs)),
        TerminatorInstruction::If { condition, then, else_, end } => new == (TerminatorInstruction::If {
            condition: substitute_pairs_value(condition, pairs),
            then: remap_target(then, pairs),
            else_: remap_target(else_, pairs),
            end,
        }),
        TerminatorInstruction::Switch { int_value, cases, else_, end } => {
            &&& new is Switch
            &&& new->Switch_int_value == substitute_pairs_value(int_value, pairs)
            &&& new->Switch_cases@ == cases@.map_values(|c: (u32, JmpTarget)| (c.0, remap_target(c.1, pairs)))
            &&& new->Switch_else_ == remap_target(else_, pairs)
            &&& new->Switch_end == end
        },
        TerminatorInstruction::Unreachable => new == TerminatorInstruction::Unreachable,
        TerminatorInstruction::Return(v) => new == TerminatorInstruction::Return(substitute_pairs_value(v, pairs)),
        TerminatorInstruction::Result(v) => new == TerminatorInstruction::Result(substitute_pairs_value(v, pairs)),
    }
}

/// The block `new` is `old` with the values of its terminator substituted by `pairs`.
pub open spec fn block_remapped(old: Block, new: Block, pairs: Seq<(DefinitionId, DefinitionId)>) -> bool {
    &&& new.parameter_types == old.parameter_types
    &&& new.instructions == old.instructions
    &&& match old.terminator {
        None => new.terminator is None,
        Some(t) => new.terminator matches Some(t2) && terminator_remapped(t, t2, pairs),
    }
}

proof fn lemma_substitute_push(v: Value, pairs: Seq<(DefinitionId, DefinitionId)>, p: (DefinitionId, DefinitionId))
    ensures
        substitute_pairs_value(v, pairs.push(p)) == replace_value(
            substitute_pairs_value(v, pairs),
            Value::Definition(p.0),
            Value::Definition(p.1),
        ),
{
    assert(pairs.push(p).drop_last() =~= pairs);
}

proof fn lemma_remapped_none(t: TerminatorInstruction)
    ensures
        terminator_remapped(t, t, seq![]),
{
    if let TerminatorInstruction::Switch { cases, .. } = t {
        assert(cases@.map_values(|c: (u32, JmpTarget)| (c.0, remap_target(c.1, seq![]))) =~= cases@);
    }
}

proof fn lemma_remapped_step(
    t0: TerminatorInstruction,
    t1: TerminatorInstruction,
    t2: TerminatorInstruction,
    pairs: Seq<(DefinitionId, DefinitionId)>,
    p: (DefinitionId, DefinitionId),
)
    requires
        terminator_remapped(t0, t1, pairs),
        terminator_replaced(t1, t2, Value::Definition(p.0), Value::Definition(p.1)),
    ensures
        terminator_remapped(t0, t2, pairs.push(p)),
{
    let find = Value::Definition(p.0);
    let repl = Value::Definition(p.1);
    assert forall|v: Value| substitute_pairs_value(v, pairs.push(p)) == replace_value(substitute_pairs_value(v, pairs), find, repl) by {
        lemma_substitute_push(v, pairs, p);
    }
    assert forall|t: JmpTarget| remap_target(t, pairs.push(p)) == replace_in_target(remap_target(t, pairs), find, repl) by {
        if let Some(v) = t.1 {
            lemma_substitute_push(v, pairs, p);
        }
    }
    if let TerminatorInstruction::Switch { cases, .. } = t0 {
        let new_cases = cases@.map_values(|c: (u32, JmpTarget)| (c.0, remap_target(c.1, pairs.push(p))));
        assert(t2->Switch_cases@ =~= new_cases) by {
            assert forall|j: int| 0 <= j < new_cases.len() implies t2->Switch_cases@[j] == new_cases[j] by {
                let c = cases@[j];
                assert(remap_target(c.1, pairs.push(p)) == replace_in_target(remap_target(c.1, pairs), find, repl));
            }
        }
    }
}

fn remapped_id(pairs: &Vec<(DefinitionId, DefinitionId)>, id: DefinitionId) -> (r: DefinitionId)
    requires
        olds_distinct(pairs@),
    ensures
        r == remap_id(pairs@, id),
{
    let mut i: usize = 0;
    while i < pairs.len()
        invariant
            0 <= i <= pairs@.len(),
            olds_distinct(pairs@),
            forall|j: int| 0 <= j < i ==> pairs@[j].0 != id,
        decreases pairs@.len() - i,
    {
        if pairs[i].0 == id {
            proof {
                assert(pairs@[i as int].0 == id);
                let k = choose|j: int| 0 <= j < pairs@.len() && pairs@[j].0 == id;
                assert(k == i) by {
                    if k < i {
                    } else if k > i {
                        assert(pairs@[i as int].0 != pairs@[k].0);
                    }
                }
            }
            return pairs[i].1;
        }
        i = i + 1;
    }
    id
}

/// Rewrite every `Value::Definition` and `Instruction::Instantiate` target in `def` through
/// the `(old, new)` pairs: each `Instantiate` of an old id is retargeted, then each
/// `Value::Definition(old)` is replaced by `Value::Definition(new)`, one pair after another.
pub fn remap_definition_ids(def: &mut Definition, pairs: &Vec<(DefinitionId, DefinitionId)>)
    requires
        olds_distinct(pairs@),
    ensures
        final(def).instructions@.len() == old(def).instructions@.len(),
        forall|i: int|
            0 <= i < old(def).instructions@.len() ==> #[trigger] final(def).instructions@[i]@ == substitute_pairs(
                remap_instantiate(old(def).instructions@[i]@, pairs@),
                pairs@,
            ),
        final(def).blocks@.len() == old(def).blocks@.len(),
        forall|b: int|
            0 <= b < old(def).blocks@.len() ==> block_remapped(old(def).blocks@[b], #[trigger] final(def).blocks@[b], pairs@),
        final(def).instruction_result_types == old(def).instruction_result_types,
        final(def).name == old(def).name,
        final(def).id == old(def).id,
        final(def).generic_count == old(def).generic_count,
        final(def).typ == old(def).typ,
{
    let mut i: usize = 0;
    while i < def.instructions.len()
        invariant
            0 <= i <= def.instructions@.len(),
            olds_distinct(pairs@),
            def.instructions@.len() == old(def).instructions@.len(),
            forall|k: int|
                0 <= k < i ==> #[trigger] def.instructions@[k]@ == remap_instantiate(old(def).instructions@[k]@, pairs@),
            forall|k: int| i <= k < def.instructions@.len() ==> #[trigger] def.instructions@[k] == old(def).instructions@[k],
            def.blocks == old(def).blocks,
            def.instruction_result_types == old(def).instruction_result_types,
            def.name == old(def).name,
            def.id == old(def).id,
            def.generic_count == old(def).generic_count,
            def.typ == old(def).typ,
        decreases def.instructions@.len() - i,
    {
        let retarget = match &def.instructions[i] {
            Instruction::Instantiate(id, _) => Some(remapped_id(pairs, *id)),
            _ => None,
        };
        if let Some(new_id) = retarget {
            let mut taken = Instruction::Capability;
            std::mem::swap(&mut taken, &mut def.instructions[i]);
            if let Instruction::Instantiate(_, bindings) = taken {
                def.instructions.set(i, Instruction::Instantiate(new_id, bindings));
            }
        }
        i = i + 1;
    }
    let ghost start = *def;
    let mut k: usize = 0;
    proof {
        assert forall|b: int| 0 <= b < start.blocks@.len() implies block_remapped(old(def).blocks@[b], #[trigger] start.blocks@[b], pairs@.subrange(0, 0)) by {
            assert(pairs@.subrange(0, 0) =~= Seq::<(DefinitionId, DefinitionId)>::empty());
            if let Some(t) = start.blocks@[b].terminator {
                lemma_remapped_none(t);
            }
        }
        assert forall|j: int| 0 <= j < start.instructions@.len() implies #[trigger] start.instructions@[j]@ == substitute_pairs(
            remap_instantiate(old(def).instructions@[j]@, pairs@),
            pairs@.subrange(0, 0),
        ) by {
            assert(pairs@.subrange(0, 0) =~= Seq::<(DefinitionId, DefinitionId)>::empty());
        }
    }
    while k < pairs.len()
        invariant
            0 <= k <= pairs@.len(),
            def.instructions@.len() == old(def).instructions@.len(),
            forall|j: int|
                0 <= j < def.instructions@.len() ==> #[trigger] def.instructions@[j]@ == substitute_pairs(
                    remap_instantiate(old(def).instructions@[j]@, pairs@),
                    pairs@.subrange(0, k as int),
                ),
            def.blocks@.len() == old(def).blocks@.len(),
            forall|b: int|
                0 <= b < def.blocks@.len() ==> block_remapped(
                    old(def).blocks@[b],
                    #[trigger] def.blocks@[b],
                    pairs@.subrange(0, k as int),
                ),
            def.instruction_result_types == old(def).instruction_result_types,
            def.name == old(def).name,
            def.id == old(def).id,
            def.generic_count == old(def).generic_count,
            def.typ == old(def).typ,
        decreases pairs@.len() - k,
    {
        let ghost before = *def;
        let (old_id, new_id) = pairs[k];
        substitute_value(def, Value::Definition(old_id), Value::Definition(new_id));
        proof {
            let s = pairs@.subrange(0, k as int);
            assert(pairs@.subrange(0, k + 1) =~= s.push((old_id, new_id)));
            assert(pairs@.subrange(0, k + 1).drop_last() =~= s);
            assert forall|b: int| 0 <= b < def.blocks@.len() implies block_remapped(
                old(def).blocks@[b],
                #[trigger] def.blocks@[b],
                pairs@.subrange(0, k + 1),
            ) by {
                assert(block_replaced(before.blocks@[b], def.blocks@[b], Value::Definition(old_id), Value::Definition(new_id)));
                if let Some(t) = old(def).blocks@[b].terminator {
                    lemma_remapped_step(t, before.blocks@[b].terminator->0, def.blocks@[b].terminator->0, s, (old_id, new_id));
                }
            }
        }
        k = k + 1;
    }
    proof {
        assert(pairs@.subrange(0, k as int) =~= pairs@);
    }
}

/// The block `new` is a copy of `old` with the values of its terminator substituted by `pairs`.
pub open spec fn block_copied(old: Block, new: Block, pairs: Seq<(DefinitionId, DefinitionId)>) -> bool {
    &&& new.parameter_types@ == old.parameter_types@
    &&& new.instructions@ == old.instructions@
    &&& match old.terminator {
        None => new.terminator is None,
        Some(t) => new.terminator matches Some(t2) && terminator_remapped(t, t2, pairs),
    }
}

/// `clone` is a copy of `orig` under the id `new_id`, with the definition ids it uses remapped by
/// `pairs` as [remap_definition_ids] does.
pub open spec fn clone_remapped(
    orig: Definition,
    clone: Definition,
    new_id: DefinitionId,
    pairs: Seq<(DefinitionId, DefinitionId)>,
) -> bool {
    &&& clone.id == new_id
    &&& clone.name == orig.name
    &&& clone.generic_count == orig.generic_count
    &&& clone.typ == orig.typ
    &&& clone.instruction_result_types@ == orig.instruction_result_types@
    &&& clone.instructions@.len() == orig.instructions@.len()
    &&& forall|i: int|
        0 <= i < orig.instructions@.len() ==> #[trigger] clone.instructions@[i]@ == substitute_pairs(
            remap_instantiate(orig.instructions@[i]@, pairs),
            pairs,
        )
    &&& clone.blocks@.len() == orig.blocks@.len()
    &&& forall|b: int| 0 <= b < orig.blocks@.len() ==> block_copied(orig.blocks@[b], #[trigger] clone.blocks@[b], pairs)
}

proof fn lemma_remapped_same(t: TerminatorInstruction, t1: TerminatorInstruction, t2: TerminatorInstruction, pairs: Seq<(DefinitionId, DefinitionId)>)
    requires
        same_terminator(t, t1),
        terminator_remapped(t1, t2, pairs),
    ensures
        terminator_remapped(t, t2, pairs),
{
}

/// A copy of `orig` under `new_id`, remapped by `pairs`.
fn clone_and_remap(orig: &Definition, new_id: DefinitionId, pairs: &Vec<(DefinitionId, DefinitionId)>) -> (r: Definition)
    requires
        olds_distinct(pairs@),
    ensures
        clone_remapped(*orig, r, new_id, pairs@),
{
    let mut clone = orig.clone_with_id(new_id);
    let ghost copied = clone;
    remap_definition_ids(&mut clone, pairs);
    proof {
        assert(same_body(*orig, copied));
        assert forall|b: int| 0 <= b < orig.blocks@.len() implies block_copied(orig.blocks@[b], #[trigger] clone.blocks@[b], pairs@) by {
            assert(same_block(orig.blocks@[b], copied.blocks@[b]));
            assert(block_remapped(copied.blocks@[b], clone.blocks@[b], pairs@));
            if let Some(t) = orig.blocks@[b].terminator {
                lemma_remapped_same(t, copied.blocks@[b].terminator->0, clone.blocks@[b].terminator->0, pairs@);
            }
        }
        assert forall|i: int| 0 <= i < orig.instructions@.len() implies #[trigger] clone.instructions@[i]@ == substitute_pairs(
            remap_instantiate(orig.instructions@[i]@, pairs@),
            pairs@,
        ) by {
            assert(copied.instructions@[i]@ == orig.instructions@[i]@);
        }
    }
    clone
}

/// Two lists of distinct ids, the first within the second, are no longer than it.
proof fn lemma_distinct_subset_len(a: Seq<DefinitionId>, b: Seq<DefinitionId>)
    requires
        a.no_duplicates(),
        b.no_duplicates(),
        a.to_set().subset_of(b.to_set()),
    ensures
        a.len() <= b.len(),
{
    broadcast use vstd::seq_lib::seq_to_set_is_finite;
    a.unique_seq_to_set();
    b.unique_seq_to_set();
    vstd::set_lib::lemma_len_subset(a.to_set(), b.to_set());
}

/// The old ids of a list of pairs.
pub open spec fn olds(pairs: Seq<(DefinitionId, DefinitionId)>) -> Seq<DefinitionId> {
    pairs.map_values(|p: (DefinitionId, DefinitionId)| p.0)
}

/// `new_defs` is `old_defs` with, for each `(old, new)` of `pairs`, a copy of `old` under `new`
/// remapped by `pairs`; `pairs` lists the definitions that `root` owns, `root` first, with the
/// new ids `base`, `base + 1`, ....
pub open spec fn subtree_cloned(
    old_defs: Map<DefinitionId, Definition>,
    new_defs: Map<DefinitionId, Definition>,
    root: DefinitionId,
    base: DefinitionId,
    pairs: Seq<(DefinitionId, DefinitionId)>,
) -> bool {
    &&& pairs.len() > 0
    &&& pairs[0].0 == root
    &&& olds_distinct(pairs)
    &&& olds(pairs).to_set() == owned_set(old_defs, root)
    &&& forall|k: int| 0 <= k < pairs.len() ==> (#[trigger] pairs[k]).1 == DefinitionId((base.0 + k) as u32)
    &&& forall|k: int|
        0 <= k < pairs.len() ==> new_defs.contains_key((#[trigger] pairs[k]).1) && clone_remapped(
            old_defs[pairs[k].0],
            new_defs[pairs[k].1],
            pairs[k].1,
            pairs,
        )
    &&& forall|id: DefinitionId|
        #[trigger] old_defs.contains_key(id) ==> new_defs.contains_key(id) && new_defs[id] == old_defs[id]
    &&& forall|id: DefinitionId|
        #[trigger] new_defs.contains_key(id) ==> old_defs.contains_key(id) || (base.0 <= id.0 < base.0 + pairs.len())
}

/// Deep-clone `root` and its [owned_subtree] into fresh definitions with the ids `base`,
/// `base + 1`, ..., remapping all internal definition-id references to the clones. Returns the
/// cloned root id and the old-to-new id pairs, `root`'s first.
pub fn deep_clone_body_subtree(mir: &mut Mir, root: DefinitionId, base: DefinitionId) -> (r: (
    DefinitionId,
    Vec<(DefinitionId, DefinitionId)>,
))
    requires
        old(mir).definitions@.contains_key(root),
        forall|k: DefinitionId| old(mir).definitions@.contains_key(k) ==> k.0 < base.0,
        base.0 + old(mir).definitions@.len() <= u32::MAX,
    ensures
        r.0 == base,
        subtree_cloned(old(mir).definitions@, final(mir).definitions@, root, base, r.1@),
        final(mir).externals@ == old(mir).externals@,
        final(mir).preserved_op_indices@ == old(mir).preserved_op_indices@,
{
    let owned = owned_subtree(mir, root);
    let keys = fx_map_keys(&mir.definitions);
    proof {
        assert forall|x: DefinitionId| owned@.to_set().contains(x) implies keys@.to_set().contains(x) by {
            assert(owned@.contains(x));
            if !mir.definitions@.contains_key(x) {
                // Outside the program only the root could be owned, and it is in the program.
                let s = mir.definitions@.dom().insert(root);
                assert(ownership_closed(mir.definitions@, s));
                assert(owned_set(mir.definitions@, root).contains(x));
                assert(s.contains(x));
            }
        }
        lemma_distinct_subset_len(owned@, keys@);
        keys@.unique_seq_to_set();
    }
    let mut pairs: Vec<(DefinitionId, DefinitionId)> = Vec::new();
    let mut k: usize = 0;
    while k < owned.len()
        invariant
            0 <= k <= owned@.len(),
            owned@.len() <= keys@.len(),
            keys@.len() == old(mir).definitions@.len(),
            base.0 + old(mir).definitions@.len() <= u32::MAX,
            pairs@.len() == k,
            forall|j: int| 0 <= j < k ==> #[trigger] pairs@[j] == (owned@[j], DefinitionId((base.0 + j) as u32)),
        decreases owned@.len() - k,
    {
        pairs.push((owned[k], DefinitionId(base.0 + k as u32)));
        k = k + 1;
    }
    proof {
        assert(olds(pairs@) =~= owned@);
        assert(olds_distinct(pairs@)) by {
            assert forall|i: int, j: int| 0 <= i < j < pairs@.len() implies pairs@[i].0 != pairs@[j].0 by {
                assert(pairs@[i].0 == owned@[i]);
                assert(pairs@[j].0 == owned@[j]);
            }
        }
    }
    let mut k: usize = 0;
    while k < pairs.len()
        invariant
            0 <= k <= pairs@.len(),
            pairs@.len() == owned@.len(),
            olds_distinct(pairs@),
            forall|j: int| 0 <= j < pairs@.len() ==> #[trigger] pairs@[j] == (owned@[j], DefinitionId((base.0 + j) as u32)),
            forall|x: DefinitionId| #[trigger] owned@.contains(x) ==> old(mir).definitions@.contains_key(x),
            forall|id: DefinitionId| old(mir).definitions@.contains_key(id) ==> id.0 < base.0,
            base.0 + pairs@.len() <= u32::MAX,
            forall|id: DefinitionId|
                #[trigger] old(mir).definitions@.contains_key(id) ==> mir.definitions@.contains_key(id)
                    && mir.definitions@[id] == old(mir).definitions@[id],
            forall|j: int|
                0 <= j < k ==> mir.definitions@.contains_key((#[trigger] pairs@[j]).1) && clone_remapped(
                    old(mir).definitions@[pairs@[j].0],
                    mir.definitions@[pairs@[j].1],
                    pairs@[j].1,
                    pairs@,
                ),
            forall|id: DefinitionId|
                #[trigger] mir.definitions@.contains_key(id) ==> old(mir).definitions@.contains_key(id) || (base.0
                    <= id.0 < base.0 + k),
            mir.externals@ == old(mir).externals@,
            mir.preserved_op_indices@ == old(mir).preserved_op_indices@,
        decreases pairs@.len() - k,
    {
        let (old_id, new_id) = pairs[k];
        proof {
            assert(owned@.contains(owned@[k as int]));
        }
        let clone = clone_and_remap(fx_map_get(&mir.definitions, old_id).unwrap(), new_id, &pairs);
        let ghost before = mir.definitions@;
        fx_map_insert(&mut mir.definitions, new_id, clone);
        proof {
            assert forall|j: int| 0 <= j < k implies (#[trigger] pairs@[j]).1 != new_id by {}
        }
        k = k + 1;
    }
    proof {
        assert(pairs@[0].0 == root);
    }
    (base, pairs)
}

/// The environment of a body whose original environment fields are `fields` once the capability
/// of type `cap` is appended to them.
pub open spec fn extended_env_view(fields: Seq<Type>, cap: Type) -> TypeView {
    TypeView::Tuple(types_view(fields.push(cap)))
}

/// Whether a body of type `typ` is a closure whose environment is not a tuple: such a body's
/// environment cannot be extended, and it is left as it is.
pub open spec fn env_not_extensible(typ: Type) -> bool {
    spec_is_closure(typ->Function_0@) && !(typ->Function_0.environment is Tuple)
}

/// `after` is the body `before` with the capability of type `cap` appended to its environment:
/// `layout` records what the environment was, the type's environment and the entry block's
/// environment parameter (its last, or a new last one where the body was no closure) become the
/// extended tuple, and the name says that it is the body's tail-resume copy. A body that
/// [env_not_extensible] is left as it is.
pub open spec fn env_extended(before: Definition, after: Definition, cap: Type, layout: OriginalEnvLayout) -> bool {
    let ft = before.typ->Function_0;
    let n = before.blocks@[0].parameter_types@.len();
    &&& layout.was_closure == spec_is_closure(ft@)
    &&& if env_not_extensible(before.typ) {
        &&& layout.original_field_types@ == Seq::<Type>::empty()
        &&& after == before
    } else {
        let fields = if layout.was_closure { ft.environment->Tuple_0@ } else { Seq::<Type>::empty() };
        let params = after.blocks@[0].parameter_types@;
        &&& layout.original_field_types@ == fields
        &&& after.typ@ == TypeView::Function(
            Box::new(
                crate::mir::types::FunctionTypeView {
                    parameters: types_view(ft.parameters@),
                    environment: extended_env_view(fields, cap),
                    return_type: ft.return_type@,
                },
            ),
        )
        &&& after.name@ == before.name@ + "_tail_resume_body"@
        &&& params.len() == if layout.was_closure { n } else { n + 1 }
        &&& params[params.len() - 1]@ == extended_env_view(fields, cap)
        &&& forall|i: int| 0 <= i < params.len() - 1 ==> #[trigger] params[i] == before.blocks@[0].parameter_types@[i]
        &&& after.blocks@[0].instructions == before.blocks@[0].instructions
        &&& after.blocks@[0].terminator == before.blocks@[0].terminator
        &&& after.blocks@.len() == before.blocks@.len()
        &&& forall|b: int| 0 < b < before.blocks@.len() ==> #[trigger] after.blocks@[b] == before.blocks@[b]
        &&& after.instructions == before.instructions
        &&& after.instruction_result_types == before.instruction_result_types
        &&& after.id == before.id
        &&& after.generic_count == before.generic_count
    }
}

/// What [extend_body_env] needs of a body: a function type, an entry block, and where the
/// environment is a tuple to extend, an environment parameter in the entry block.
pub open spec fn env_extensible_body(d: Definition) -> bool {
    &&& d.typ is Function
    &&& d.blocks@.len() > 0
    &&& spec_is_closure(d.typ->Function_0@) && d.typ->Function_0.environment is Tuple ==> d.blocks@[0].parameter_types@.len()
        > 0
}

/// Give the body `def` an environment of its original fields followed by `cap_type`; where it
/// had no environment, one with `cap_type` alone. The body lambda has no explicit parameters,
/// so its environment is the last parameter of the entry block.
pub fn extend_body_env(def: &mut Definition, cap_type: &Type) -> (r: OriginalEnvLayout)
    requires
        env_extensible_body(*old(def)),
    ensures
        env_extended(*old(def), *final(def), *cap_type, r),
{
    let body_ft = match &def.typ {
        Type::Function(ft) => crate::mir::types::arc_clone(ft),
        _ => {
            // unreachable: the body is a function
            return OriginalEnvLayout { was_closure: false, original_field_types: Vec::new() };
        },
    };
    let was_closure = body_ft.is_closure();
    let original_field_types = if was_closure {
        match &body_ft.environment {
            Type::Tuple(fields) => clone_types(fields),
            _ => {
                return OriginalEnvLayout { was_closure, original_field_types: Vec::new() };
            },
        }
    } else {
        Vec::new()
    };
    let mut new_fields = clone_types(&original_field_types);
    new_fields.push(cap_type.clone());
    let new_env_type = Type::tuple(new_fields);
    proof {
        crate::mir::types::lemma_types_view_push(original_field_types@, *cap_type);
    }
    let parameters = clone_types(&body_ft.parameters);
    let return_type = body_ft.return_type.clone();
    def.typ = Type::Function(Arc::new(FunctionType { parameters, environment: new_env_type.clone(), return_type }));
    let mut name = (*def.name).clone();
    name.append("_tail_resume_body");
    def.name = Arc::new(name);
    let mut entry = crate::mir::definition::Block::new(Vec::new());
    std::mem::swap(&mut entry, &mut def.blocks[0]);
    if was_closure {
        let n = entry.parameter_types.len();
        entry.parameter_types.set(n - 1, new_env_type);
    } else {
        entry.parameter_types.push(new_env_type);
    }
    def.blocks.set(0, entry);
    proof {
        reveal_strlit("_tail_resume_body");
    }
    OriginalEnvLayout { was_closure, original_field_types }
}

/// Clone the body `orig` together with the definitions it privately owns, under the ids `base`,
/// `base + 1`, ..., and give the clone of `orig` an environment extended by `cap_type`
/// ([extend_body_env]). Returns the clone's id, the original environment's layout, and the ids
/// of all clones. We clone instead of mutating so that the outer definition's now-dead
/// instructions that still name the original body keep type-checking against its signature.
pub fn clone_body_with_extended_env(mir: &mut Mir, orig: DefinitionId, cap_type: &Type, base: DefinitionId) -> (r: (
    DefinitionId,
    OriginalEnvLayout,
    Vec<DefinitionId>,
))
    requires
        old(mir).definitions@.contains_key(orig),
        env_extensible_body(old(mir).definitions@[orig]),
        forall|k: DefinitionId| old(mir).definitions@.contains_key(k) ==> k.0 < base.0,
        base.0 + old(mir).definitions@.len() <= u32::MAX,
    ensures
        r.0 == base,
        exists|mid: Map<DefinitionId, Definition>, pairs: Seq<(DefinitionId, DefinitionId)>|
            {
                &&& subtree_cloned(old(mir).definitions@, mid, orig, base, pairs)
                &&& final(mir).definitions@ == mid.insert(base, final(mir).definitions@[base])
                &&& env_extended(mid[base], final(mir).definitions@[base], *cap_type, r.1)
                &&& r.2@ == pairs.map_values(|p: (DefinitionId, DefinitionId)| p.1)
            },
        final(mir).externals@ == old(mir).externals@,
        final(mir).preserved_op_indices@ == old(mir).preserved_op_indices@,
{
    let (new_id, pairs) = deep_clone_body_subtree(mir, orig, base);
    let ghost mid = mir.definitions@;
    let mut created: Vec<DefinitionId> = Vec::new();
    let mut k: usize = 0;
    while k < pairs.len()
        invariant
            0 <= k <= pairs@.len(),
            created@ == pairs@.subrange(0, k as int).map_values(|p: (DefinitionId, DefinitionId)| p.1),
        decreases pairs@.len() - k,
    {
        created.push(pairs[k].1);
        k = k + 1;
        proof {
            assert(created@ =~= pairs@.subrange(0, k as int).map_values(|p: (DefinitionId, DefinitionId)| p.1));
        }
    }
    proof {
        assert(pairs@.subrange(0, k as int) =~= pairs@);
        assert(pairs@[0].1 == base);
        assert(mid.contains_key(base));
        assert(clone_remapped(old(mir).definitions@[orig], mid[base], base, pairs@));
        assert(block_copied(old(mir).definitions@[orig].blocks@[0], mid[base].blocks@[0], pairs@));
    }
    let mut body = take_definition(mir, new_id);
    let layout = extend_body_env(&mut body, cap_type);
    let ghost after = body;
    fx_map_insert(&mut mir.definitions, new_id, body);
    proof {
        assert(mir.definitions@ =~= mid.insert(base, after));
    }
    (new_id, layout, created)
}

/// Takes the definition `id`, which must exist, out of the program.
fn take_definition(mir: &mut Mir, id: DefinitionId) -> (r: Definition)
    requires
        old(mir).definitions@.contains_key(id),
    ensures
        r == old(mir).definitions@[id],
        final(mir).definitions@ == old(mir).definitions@.remove(id),
        final(mir).externals == old(mir).externals,
        final(mir).preserved_op_indices == old(mir).preserved_op_indices,
{
    crate::fx::fx_map_remove(&mut mir.definitions, id).unwrap()
}

/// An instruction that stands for the handler's capability in a body: a `Capability`, or a
/// `Transmute(Unit)` of the capability tuple's type (which the abort optimization leaves where a
/// closure's environment was unit but carries the capability).
pub open spec fn is_capability_like(i: Instruction, result_type: Type, cap_tuple_type: Type) -> bool {
    ||| i is Capability
    ||| (i == Instruction::Transmute(Value::Unit) && result_type@ == cap_tuple_type@)
}

/// Replace each capability in the body `def` ([is_capability_like]) with
/// `IndexTuple(env_param, cap_index)`: the capability is the field after the environment's
/// original fields, and the environment is the last parameter of the entry block.
pub fn rewrite_handler_caps_in_body(def: &mut Definition, layout: &OriginalEnvLayout, cap_tuple_type: &Type)
    requires
        old(def).blocks@.len() > 0,
        0 < old(def).blocks@[0].parameter_types@.len() <= u32::MAX + 1,
        layout.original_field_types@.len() <= u32::MAX,
        old(def).instruction_result_types@.len() == old(def).instructions@.len(),
    ensures
        ({
            let env = Value::Parameter(BlockId(0), (old(def).blocks@[0].parameter_types@.len() - 1) as u32);
            let cap_index = layout.original_field_types@.len() as u32;
            forall|i: int|
                0 <= i < old(def).instructions@.len() ==> if is_capability_like(
                    old(def).instructions@[i],
                    old(def).instruction_result_types@[i],
                    *cap_tuple_type,
                ) {
                    &&& #[trigger] final(def).instructions@[i] == Instruction::IndexTuple { tuple: env, index: cap_index }
                    &&& final(def).instruction_result_types@[i] == *cap_tuple_type
                } else {
                    &&& final(def).instructions@[i] == old(def).instructions@[i]
                    &&& final(def).instruction_result_types@[i] == old(def).instruction_result_types@[i]
                }
        }),
        final(def).instructions@.len() == old(def).instructions@.len(),
        final(def).instruction_result_types@.len() == old(def).instruction_result_types@.len(),
        final(def).blocks == old(def).blocks,
        final(def).name == old(def).name,
        final(def).id == old(def).id,
        final(def).generic_count == old(def).generic_count,
        final(def).typ == old(def).typ,
{
    let env_param_index = (def.blocks[0].parameter_types.len() - 1) as u32;
    let env_param = Value::Parameter(BlockId(0), env_param_index);
    let cap_index = layout.original_field_types.len() as u32;
    let mut i: usize = 0;
    while i < def.instructions.len()
        invariant
            0 <= i <= def.instructions@.len(),
            def.instructions@.len() == old(def).instructions@.len(),
            def.instruction_result_types@.len() == old(def).instruction_result_types@.len(),
            old(def).instruction_result_types@.len() == old(def).instructions@.len(),
            env_param == Value::Parameter(BlockId(0), (old(def).blocks@[0].parameter_types@.len() - 1) as u32),
            cap_index == layout.original_field_types@.len() as u32,
            forall|k: int|
                0 <= k < i ==> if is_capability_like(
                    old(def).instructions@[k],
                    old(def).instruction_result_types@[k],
                    *cap_tuple_type,
                ) {
                    &&& #[trigger] def.instructions@[k] == Instruction::IndexTuple { tuple: env_param, index: cap_index }
                    &&& def.instruction_result_types@[k] == *cap_tuple_type
                } else {
                    &&& def.instructions@[k] == old(def).instructions@[k]
                    &&& def.instruction_result_types@[k] == old(def).instruction_result_types@[k]
                },
            forall|k: int| i <= k < def.instructions@.len() ==> #[trigger] def.instructions@[k] == old(def).instructions@[k],
            forall|k: int| i <= k < def.instructions@.len() ==> #[trigger] def.instruction_result_types@[k] == old(def).instruction_result_types@[k],
            def.blocks == old(def).blocks,
            def.name == old(def).name,
            def.id == old(def).id,
            def.generic_count == old(def).generic_count,
            def.typ == old(def).typ,
        decreases def.instructions@.len() - i,
    {
        let is_cap = match &def.instructions[i] {
            Instruction::Capability => true,
            Instruction::Transmute(Value::Unit) => types_equal(&def.instruction_result_types[i], cap_tuple_type),
            _ => false,
        };
        if is_cap {
            def.instructions.set(i, Instruction::IndexTuple { tuple: env_param, index: cap_index });
            def.instruction_result_types.set(i, cap_tuple_type.clone());
        }
        i = i + 1;
    }
}

/// Replace every `Capability` in the body `def` with `Transmute(Value::Unit)`, keeping the
/// recorded result types: the original of a cloned body is unreachable at run time but still
/// validated and compiled, and the transmute neutralizes its capabilities without affecting
/// types or other uses.
pub fn neutralize_handler_caps_in_dead_body(def: &mut Definition)
    ensures
        final(def).instructions@.len() == old(def).instructions@.len(),
        forall|i: int|
            0 <= i < old(def).instructions@.len() ==> #[trigger] final(def).instructions@[i] == if old(
                def,
            ).instructions@[i] is Capability {
                Instruction::Transmute(Value::Unit)
            } else {
                old(def).instructions@[i]
            },
        final(def).instruction_result_types == old(def).instruction_result_types,
        final(def).blocks == old(def).blocks,
        final(def).name == old(def).name,
        final(def).id == old(def).id,
        final(def).generic_count == old(def).generic_count,
        final(def).typ == old(def).typ,
{
    let mut i: usize = 0;
    while i < def.instructions.len()
        invariant
            0 <= i <= def.instructions@.len(),
            def.instructions@.len() == old(def).instructions@.len(),
            forall|k: int|
                0 <= k < i ==> #[trigger] def.instructions@[k] == if old(def).instructions@[k] is Capability {
                    Instruction::Transmute(Value::Unit)
                } else {
                    old(def).instructions@[k]
                },
            forall|k: int| i <= k < def.instructions@.len() ==> #[trigger] def.instructions@[k] == old(def).instructions@[k],
            def.instruction_result_types == old(def).instruction_result_types,
            def.blocks == old(def).blocks,
            def.name == old(def).name,
            def.id == old(def).id,
            def.generic_count == old(def).generic_count,
            def.typ == old(def).typ,
        decreases def.instructions@.len() - i,
    {
        let is_cap = match &def.instructions[i] {
            Instruction::Capability => true,
            _ => false,
        };
        if is_cap {
            def.instructions.set(i, Instruction::Transmute(Value::Unit));
        }
        i = i + 1;
    }
}

} // verus!
