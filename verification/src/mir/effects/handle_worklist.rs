//! Driving a handle optimization over a whole program: every definition is visited, each of its
//! `Handle`s is given to the optimization in turn, and the body clones that an optimization
//! creates are visited as well, so that handles nested in them are optimized too.
use crate::fx::{fx_id_set_contains, fx_id_set_insert, fx_id_set_new, fx_map_contains_key, fx_map_get, fx_map_keys};
use crate::mir::definition::Definition;
use crate::mir::effects::lowering::{HandleSite, collect_handle_sites, handle_site_matches, is_handle, sites_in_blocks, sites_well_formed};
use crate::mir::effects::abort_pass::{abort_handle_step, try_optimize_abort_handle};
use crate::mir::effects::handle_check::sites_well_formed_check;
use crate::mir::effects::tail_resume_pass::{handle_step, try_optimize_handle};
use crate::mir::instruction::Instruction;
use crate::mir::program::Mir;
use crate::mir::values::DefinitionId;
use rustc_hash::FxHashSet;
use vstd::prelude::*;

verus! {

/// The handle optimizations that run before effect lowering.
#[derive(Clone, Copy, PartialEq, Eq, Structural, Debug)]
pub enum HandleOptimization {
    /// Inline handles whose cases all `resume` in tail position.
    TailResume,
    /// Lower handles whose cases never `resume` to `setjmp`/`longjmp`.
    Abort,
}

/// One step of optimization `opt` at the `Handle` at `site` of definition `definition_id`.
pub open spec fn optimization_step(
    opt: HandleOptimization,
    before: Mir,
    after: Mir,
    definition_id: DefinitionId,
    site: HandleSite,
    created: Seq<DefinitionId>,
    dead_before: Set<DefinitionId>,
    dead_after: Set<DefinitionId>,
) -> bool {
    match opt {
        HandleOptimization::TailResume => handle_step(before, after, definition_id, site, created, dead_before, dead_after),
        HandleOptimization::Abort => abort_handle_step(before, after, definition_id, site, created, dead_before, dead_after),
    }
}

/// Applies optimization `opt` to the `Handle` at `site` ([optimization_step]).
fn try_optimize(
    opt: HandleOptimization,
    mir: &mut Mir,
    definition_id: DefinitionId,
    site: HandleSite,
    dead_bodies: &mut FxHashSet<DefinitionId>,
) -> (r: Vec<DefinitionId>)
    ensures
        optimization_step(opt, *old(mir), *final(mir), definition_id, site, r@, old(dead_bodies)@, final(dead_bodies)@),
{
    match opt {
        HandleOptimization::TailResume => try_optimize_handle(mir, definition_id, site, dead_bodies),
        HandleOptimization::Abort => try_optimize_abort_handle(mir, definition_id, site, dead_bodies),
    }
}

/// `sites` are the handle sites of `d`, in the order [collect_handle_sites] gives them.
pub open spec fn sites_of(d: Definition, sites: Seq<HandleSite>) -> bool {
    let places = sites_in_blocks(d, d.blocks@.len() as int, |i: Instruction| is_handle(i));
    &&& sites.len() == places.len()
    &&& forall|k: int| 0 <= k < sites.len() ==> handle_site_matches(d, places[k], #[trigger] sites[k])
}

/// A visit of definition `definition_id` that goes through the handle `sites` one after the
/// other: `states`, `deads` and `createds` are the program, the dead bodies and the clones
/// created around each [optimization_step].
pub open spec fn visit_trace(
    opt: HandleOptimization,
    before: Mir,
    after: Mir,
    definition_id: DefinitionId,
    dead_before: Set<DefinitionId>,
    dead_after: Set<DefinitionId>,
    created: Seq<DefinitionId>,
    sites: Seq<HandleSite>,
    states: Seq<Mir>,
    deads: Seq<Set<DefinitionId>>,
    createds: Seq<Seq<DefinitionId>>,
) -> bool {
    &&& sites_of(before.definitions@[definition_id], sites)
    &&& states.len() == sites.len() + 1
    &&& deads.len() == sites.len() + 1
    &&& createds.len() == sites.len()
    &&& states[0] == before
    &&& states.last() == after
    &&& deads[0] == dead_before
    &&& deads.last() == dead_after
    &&& forall|k: int|
        0 <= k < sites.len() ==> #[trigger] optimization_step(
            opt,
            states[k],
            states[k + 1],
            definition_id,
            sites[k],
            createds[k],
            deads[k],
            deads[k + 1],
        )
    &&& created == createds.flatten_alt()
}

/// Visiting definition `definition_id`: where it exists and its sites can be collected, each of
/// its handles, as found on arrival, is given to the optimization in turn ([visit_trace]), and
/// `created` lists the clones made; otherwise nothing changes.
pub open spec fn definition_visited(
    opt: HandleOptimization,
    before: Mir,
    after: Mir,
    definition_id: DefinitionId,
    dead_before: Set<DefinitionId>,
    dead_after: Set<DefinitionId>,
    created: Seq<DefinitionId>,
) -> bool {
    if before.definitions@.contains_key(definition_id) && sites_well_formed(before.definitions@[definition_id]) {
        exists|sites: Seq<HandleSite>, states: Seq<Mir>, deads: Seq<Set<DefinitionId>>, createds: Seq<Seq<DefinitionId>>|
            #[trigger] visit_trace(
                opt,
                before,
                after,
                definition_id,
                dead_before,
                dead_after,
                created,
                sites,
                states,
                deads,
                createds,
            )
    } else {
        &&& after == before
        &&& dead_after == dead_before
        &&& created.len() == 0
    }
}

/// Optimize every handle of definition `definition_id`, returning the ids of any new
/// definitions created so that the caller can visit them ([definition_visited]).
pub fn optimize_in_definition(
    opt: HandleOptimization,
    mir: &mut Mir,
    definition_id: DefinitionId,
    dead_bodies: &mut FxHashSet<DefinitionId>,
) -> (r: Vec<DefinitionId>)
    ensures
        definition_visited(opt, *old(mir), *final(mir), definition_id, old(dead_bodies)@, final(dead_bodies)@, r@),
{
    let mut sites = match fx_map_get(&mir.definitions, definition_id) {
        Some(d) => {
            if !sites_well_formed_check(d) {
                return Vec::new();
            }
            collect_handle_sites(d)
        },
        None => return Vec::new(),
    };
    let ghost old_mir = *mir;
    let ghost sites0 = sites@;
    let ghost mut states: Seq<Mir> = seq![*mir];
    let ghost mut deads: Seq<Set<DefinitionId>> = seq![dead_bodies@];
    let ghost mut createds: Seq<Seq<DefinitionId>> = seq![];
    let mut created: Vec<DefinitionId> = Vec::new();
    let n = sites.len();
    let mut k: usize = 0;
    proof {
        assert(sites0.subrange(0, n as int) =~= sites0);
    }
    while k < n
        invariant
            0 <= k <= n,
            n == sites0.len(),
            sites@ == sites0.subrange(k as int, n as int),
            states.len() == k + 1,
            deads.len() == k + 1,
            createds.len() == k,
            states[0] == old_mir,
            states.last() == *mir,
            deads[0] == old(dead_bodies)@,
            deads.last() == dead_bodies@,
            forall|j: int|
                0 <= j < k ==> #[trigger] optimization_step(
                    opt,
                    states[j],
                    states[j + 1],
                    definition_id,
                    sites0[j],
                    createds[j],
                    deads[j],
                    deads[j + 1],
                ),
            created@ == createds.flatten_alt(),
        decreases n - k,
    {
        let site = sites.remove(0);
        proof {
            assert(site == sites0[k as int]);
            assert(sites@ =~= sites0.subrange(k + 1, n as int));
        }
        let ghost before_mir = *mir;
        let ghost before_dead = dead_bodies@;
        let mut new_ids = try_optimize(opt, mir, definition_id, site, dead_bodies);
        let ghost new_ids0 = new_ids@;
        created.append(&mut new_ids);
        proof {
            let old_createds = createds;
            states = states.push(*mir);
            deads = deads.push(dead_bodies@);
            createds = createds.push(new_ids0);
            assert(createds.drop_last() =~= old_createds);
            assert(created@ =~= createds.flatten_alt());
            assert forall|j: int|
                0 <= j < k + 1 implies #[trigger] optimization_step(
                opt,
                states[j],
                states[j + 1],
                definition_id,
                sites0[j],
                createds[j],
                deads[j],
                deads[j + 1],
            ) by {
                if j < k {
                    assert(states[j] == states.drop_last()[j]);
                }
            }
        }
        k = k + 1;
    }
    proof {
        assert(visit_trace(opt, old_mir, *mir, definition_id, old(dead_bodies)@, dead_bodies@, created@, sites0, states, deads, createds));
    }
    created
}

/// The `k`th visit of a worklist run: a definition that is gone or dead on arrival is skipped,
/// any other is [definition_visited].
pub open spec fn visit_step(
    opt: HandleOptimization,
    visits: Seq<DefinitionId>,
    states: Seq<Mir>,
    deads: Seq<Set<DefinitionId>>,
    createds: Seq<Seq<DefinitionId>>,
    k: int,
) -> bool {
    if states[k].definitions@.contains_key(visits[k]) && !deads[k].contains(visits[k]) {
        definition_visited(opt, states[k], states[k + 1], visits[k], deads[k], deads[k + 1], createds[k])
    } else {
        &&& states[k + 1] == states[k]
        &&& deads[k + 1] == deads[k]
        &&& createds[k].len() == 0
    }
}

/// A run of the worklist over `visits`, with `states`, `deads` and `createds` the program, the
/// dead bodies and the clones created around each visit: a definition that is gone or dead on
/// arrival is skipped, any other is [definition_visited]. Every definition of `start` and every
/// clone created is visited.
pub open spec fn worklist_trace(
    opt: HandleOptimization,
    start: Mir,
    end: Mir,
    visits: Seq<DefinitionId>,
    states: Seq<Mir>,
    deads: Seq<Set<DefinitionId>>,
    createds: Seq<Seq<DefinitionId>>,
) -> bool {
    &&& states.len() == visits.len() + 1
    &&& deads.len() == visits.len() + 1
    &&& createds.len() == visits.len()
    &&& states[0] == start
    &&& states.last() == end
    &&& deads[0] == Set::<DefinitionId>::empty()
    &&& forall|k: int| 0 <= k < visits.len() ==> #[trigger] visit_step(opt, visits, states, deads, createds, k)
    &&& forall|id: DefinitionId| #[trigger] start.definitions@.contains_key(id) ==> visits.contains(id)
    &&& forall|k: int, c: DefinitionId| 0 <= k < visits.len() && #[trigger] createds[k].contains(c) ==> visits.contains(c)
}

/// A set of definition ids has at most 2^32 members.
proof fn lemma_id_set_bound(s: Set<DefinitionId>)
    requires
        s.finite(),
    ensures
        s.len() <= 0x1_0000_0000,
{
    let f = |d: DefinitionId| d.0 as int;
    let range = vstd::set_lib::set_int_range(0, 0x1_0000_0000);
    vstd::set_lib::lemma_int_range(0, 0x1_0000_0000);
    assert(vstd::relations::injective_on(f, s)) by {
        assert forall|a: DefinitionId, b: DefinitionId| s.contains(a) && s.contains(b) && #[trigger] f(a) == #[trigger] f(b) implies a == b by {}
    }
    vstd::set_lib::lemma_map_size(s, s.map(f), f);
    assert(s.map(f).subset_of(range));
    vstd::set_lib::lemma_len_subset(s.map(f), range);
}

/// Drives a handle optimization over the whole program, also visiting the body clones it
/// creates along the way ([worklist_trace]). Definitions are taken from the end of the
/// worklist; each id enters the worklist once.
pub fn run_handle_optimization_worklist(mir: &mut Mir, opt: HandleOptimization)
    ensures
        exists|visits: Seq<DefinitionId>, states: Seq<Mir>, deads: Seq<Set<DefinitionId>>, createds: Seq<Seq<DefinitionId>>|
            #[trigger] worklist_trace(opt, *old(mir), *final(mir), visits, states, deads, createds),
{
    broadcast use vstd::seq_lib::seq_to_set_is_finite;
    let keys = fx_map_keys(&mir.definitions);
    let mut worklist: Vec<DefinitionId> = Vec::new();
    let mut seen = fx_id_set_new();
    let mut i: usize = 0;
    while i < keys.len()
        invariant
            0 <= i <= keys@.len(),
            worklist@ == keys@.subrange(0, i as int),
            seen@ == keys@.subrange(0, i as int).to_set(),
        decreases keys@.len() - i,
    {
        worklist.push(keys[i]);
        fx_id_set_insert(&mut seen, keys[i]);
        proof {
            crate::seq_util::lemma_prefix_to_set(keys@, i + 1);
        }
        i = i + 1;
    }
    proof {
        assert(keys@.subrange(0, i as int) =~= keys@);
        lemma_id_set_bound(seen@);
    }
    let mut dead_bodies = fx_id_set_new();
    let ghost start = *mir;
    let ghost mut visits: Seq<DefinitionId> = seq![];
    let ghost mut states: Seq<Mir> = seq![*mir];
    let ghost mut deads: Seq<Set<DefinitionId>> = seq![dead_bodies@];
    let ghost mut createds: Seq<Seq<DefinitionId>> = seq![];
    while worklist.len() > 0
        invariant
            seen@.finite(),
            seen@.len() <= 0x1_0000_0000,
            states.len() == visits.len() + 1,
            deads.len() == visits.len() + 1,
            createds.len() == visits.len(),
            states[0] == start,
            states.last() == *mir,
            deads[0] == Set::<DefinitionId>::empty(),
            deads.last() == dead_bodies@,
            forall|k: int| 0 <= k < visits.len() ==> #[trigger] visit_step(opt, visits, states, deads, createds, k),
            forall|id: DefinitionId| #[trigger] start.definitions@.contains_key(id) ==> seen@.contains(id),
            forall|k: int, c: DefinitionId| 0 <= k < visits.len() && #[trigger] createds[k].contains(c) ==> seen@.contains(c),
            forall|id: DefinitionId| #[trigger] seen@.contains(id) ==> worklist@.contains(id) || visits.contains(id),
        decreases 2 * (0x1_0000_0000 - seen@.len()) + worklist@.len(),
    {
        let ghost seen0 = seen@;
        let ghost worklist0 = worklist@;
        let id = worklist.pop().unwrap();
        let ghost before_mir = *mir;
        let ghost before_dead = dead_bodies@;
        let new_ids = if fx_map_contains_key(&mir.definitions, id) && !fx_id_set_contains(&dead_bodies, id) {
            optimize_in_definition(opt, mir, id, &mut dead_bodies)
        } else {
            Vec::new()
        };
        let ghost after_mir = *mir;
        let ghost after_dead = dead_bodies@;
        let ghost step_ok = if before_mir.definitions@.contains_key(id) && !before_dead.contains(id) {
            definition_visited(opt, before_mir, after_mir, id, before_dead, after_dead, new_ids@)
        } else {
            after_mir == before_mir && after_dead == before_dead && new_ids@.len() == 0
        };
        assert(step_ok);
        let ghost visited_worklist = worklist@;
        let mut j: usize = 0;
        while j < new_ids.len()
            invariant
                0 <= j <= new_ids@.len(),
                seen@.finite(),
                seen@.len() <= 0x1_0000_0000,
                seen0.subset_of(seen@),
                forall|x: DefinitionId| 0 <= 0 && #[trigger] seen@.contains(x) ==> seen0.contains(x) || new_ids@.subrange(0, j as int).contains(x),
                forall|x: DefinitionId| #[trigger] new_ids@.subrange(0, j as int).contains(x) ==> seen@.contains(x),
                worklist@.len() - visited_worklist.len() == seen@.len() - seen0.len(),
                worklist@.len() >= visited_worklist.len(),
                worklist@.subrange(0, visited_worklist.len() as int) == visited_worklist,
                forall|x: DefinitionId| #[trigger] worklist@.contains(x) ==> visited_worklist.contains(x) || new_ids@.contains(x),
                forall|x: DefinitionId| seen@.contains(x) && !seen0.contains(x) ==> #[trigger] worklist@.contains(x),
            decreases new_ids@.len() - j,
        {
            let c = new_ids[j];
            let ghost seen1 = seen@;
            let ghost worklist1 = worklist@;
            if fx_id_set_insert(&mut seen, c) {
                worklist.push(c);
                proof {
                    lemma_id_set_bound(seen@);
                    assert(seen@.len() == seen1.len() + 1);
                    assert(worklist@.subrange(0, visited_worklist.len() as int) =~= worklist1.subrange(0, visited_worklist.len() as int));
                    assert(worklist@[worklist1.len() as int] == c);
                }
            }
            proof {
                assert forall|x: DefinitionId| #[trigger] new_ids@.subrange(0, j + 1).contains(x) implies seen@.contains(x) by {
                    if new_ids@.subrange(0, j as int).contains(x) {
                    } else {
                        let sub = new_ids@.subrange(0, j + 1);
                        let q = choose|q: int| 0 <= q < sub.len() && sub[q] == x;
                        if q < j {
                            assert(new_ids@.subrange(0, j as int)[q] == x);
                        }
                    }
                }
                assert forall|x: DefinitionId| 0 <= 0 && #[trigger] seen@.contains(x) implies seen0.contains(x) || new_ids@.subrange(0, j + 1).contains(x) by {
                    if seen1.contains(x) {
                        if new_ids@.subrange(0, j as int).contains(x) {
                            let sub = new_ids@.subrange(0, j as int);
                            let q = choose|q: int| 0 <= q < sub.len() && sub[q] == x;
                            assert(new_ids@.subrange(0, j + 1)[q] == x);
                        }
                    } else {
                        assert(x == c);
                        assert(new_ids@.subrange(0, j + 1)[j as int] == x);
                    }
                }
                assert forall|x: DefinitionId| #[trigger] worklist@.contains(x) implies visited_worklist.contains(x) || new_ids@.contains(x) by {
                    if worklist1.contains(x) {
                    } else {
                        assert(x == c);
                        assert(new_ids@[j as int] == c);
                    }
                }
                assert forall|x: DefinitionId| seen@.contains(x) && !seen0.contains(x) implies #[trigger] worklist@.contains(x) by {
                    if seen1.contains(x) {
                        assert(worklist1.contains(x));
                        let q = choose|q: int| 0 <= q < worklist1.len() && worklist1[q] == x;
                        assert(worklist@[q] == x);
                    } else {
                        assert(x == c);
                        assert(worklist@[worklist1.len() as int] == c);
                    }
                }
            }
            j = j + 1;
        }
        proof {
            assert(new_ids@.subrange(0, j as int) =~= new_ids@);
            let k = visits.len() as int;
            let old_visits = visits;
            let old_states = states;
            let old_deads = deads;
            let old_createds = createds;
            visits = visits.push(id);
            states = states.push(*mir);
            deads = deads.push(dead_bodies@);
            createds = createds.push(new_ids@);
            assert forall|q: int| 0 <= q < visits.len() implies #[trigger] visit_step(opt, visits, states, deads, createds, q) by {
                if q < k {
                    assert(visit_step(opt, old_visits, old_states, old_deads, old_createds, q));
                    assert(states[q] == old_states[q]);
                    assert(states[q + 1] == old_states[q + 1]);
                    assert(deads[q] == old_deads[q]);
                    assert(deads[q + 1] == old_deads[q + 1]);
                    assert(visits[q] == old_visits[q]);
                    assert(createds[q] == old_createds[q]);
                } else {
                    assert(step_ok);
                    assert(states[q] == before_mir);
                    assert(states[q + 1] == *mir);
                    assert(deads[q] == before_dead);
                    assert(deads[q + 1] == dead_bodies@);
                    assert(visits[q] == id);
                    assert(createds[q] == new_ids@);
                }
            }
            assert forall|q: int, c: DefinitionId| 0 <= q < visits.len() && #[trigger] createds[q].contains(c) implies seen@.contains(c) by {
                if q < k {
                    assert(createds[q] == old_createds[q]);
                } else {
                    assert(createds[q] == new_ids@);
                }
            }
            assert forall|x: DefinitionId| #[trigger] seen@.contains(x) implies worklist@.contains(x) || visits.contains(x) by {
                if seen0.contains(x) {
                    if worklist0.contains(x) {
                        let q = choose|q: int| 0 <= q < worklist0.len() && worklist0[q] == x;
                        if q < worklist0.len() - 1 {
                            assert(visited_worklist[q] == x);
                            assert(worklist@[q] == x);
                        } else {
                            assert(x == id);
                            assert(visits[k] == x);
                        }
                    } else {
                        assert(old_visits.contains(x));
                        let q = choose|q: int| 0 <= q < old_visits.len() && old_visits[q] == x;
                        assert(visits[q] == x);
                    }
                }
            }
            assert(worklist0 == visited_worklist.push(id));
        }
    }
    proof {
        assert forall|id: DefinitionId| #[trigger] start.definitions@.contains_key(id) implies visits.contains(id) by {
            assert(seen@.contains(id));
        }
        assert forall|k: int, c: DefinitionId| 0 <= k < visits.len() && #[trigger] createds[k].contains(c) implies visits.contains(c) by {
            assert(seen@.contains(c));
        }
        assert(worklist_trace(opt, start, *mir, visits, states, deads, createds));
    }
}

impl Mir {
    /// Inline every `Handle` whose handler cases all use `resume` in tail position into plain
    /// control flow using closures ([run_handle_optimization_worklist] with the tail-resume
    /// [handle_step]). Any other handle is left for effect lowering.
    pub fn optimize_tail_resume(self) -> (r: Self)
        ensures
            exists|visits: Seq<DefinitionId>, states: Seq<Mir>, deads: Seq<Set<DefinitionId>>, createds: Seq<Seq<DefinitionId>>|
                #[trigger] worklist_trace(HandleOptimization::TailResume, self, r, visits, states, deads, createds),
    {
        let mut mir = self;
        run_handle_optimization_worklist(&mut mir, HandleOptimization::TailResume);
        mir
    }

    /// Lower every `Handle` whose handler cases never call resume into setjmp/longjmp-based code
    /// ([run_handle_optimization_worklist] with the abort [abort_handle_step]). Performs are left
    /// unchanged by this pass.
    pub fn optimize_abort_handlers(self) -> (r: Self)
        ensures
            exists|visits: Seq<DefinitionId>, states: Seq<Mir>, deads: Seq<Set<DefinitionId>>, createds: Seq<Seq<DefinitionId>>|
                #[trigger] worklist_trace(HandleOptimization::Abort, self, r, visits, states, deads, createds),
    {
        let mut mir = self;
        run_handle_optimization_worklist(&mut mir, HandleOptimization::Abort);
        mir
    }
}

} // verus!
