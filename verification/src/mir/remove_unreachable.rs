//! A MIR pass that drops every definition not transitively reachable from `main`.
use crate::fx::{
    fx_id_set_contains, fx_id_set_insert, fx_id_set_new, fx_map_contains_key, fx_map_get, fx_map_keys,
    fx_map_remove,
};
use crate::mir::definition::{Definition, spec_referenced_definitions};
use crate::mir::program::Mir;
use crate::mir::values::DefinitionId;
use crate::seq_util::lemma_prefix_to_set;
use rustc_hash::FxHashSet;
use vstd::prelude::*;
use vstd::string::StringExecFns;

verus! {

/// `p` is a path through the reference graph of `defs`: every definition on it but the last
/// exists and refers to the next one, which exists too.
pub open spec fn is_reference_path(defs: Map<DefinitionId, Definition>, p: Seq<DefinitionId>) -> bool {
    &&& p.len() > 0
    &&& forall|i: int|
        0 <= i < p.len() - 1 ==> {
            &&& defs.contains_key(#[trigger] p[i])
            &&& defs.contains_key(p[i + 1])
            &&& spec_referenced_definitions(defs[p[i]]).contains(p[i + 1])
        }
}

/// `x` is one of `seeds` or is reached from one through references between definitions.
pub open spec fn is_reachable(defs: Map<DefinitionId, Definition>, seeds: Set<DefinitionId>, x: DefinitionId) -> bool {
    exists|p: Seq<DefinitionId>| #[trigger] is_reference_path(defs, p) && seeds.contains(p[0]) && p.last() == x
}

/// The definitions named `main`.
pub open spec fn main_definitions(defs: Map<DefinitionId, Definition>) -> Set<DefinitionId> {
    defs.dom().filter(|id: DefinitionId| defs[id].name@ == "main"@)
}

proof fn lemma_extend_path(defs: Map<DefinitionId, Definition>, p: Seq<DefinitionId>, c: DefinitionId)
    requires
        is_reference_path(defs, p),
        defs.contains_key(p.last()),
        defs.contains_key(c),
        spec_referenced_definitions(defs[p.last()]).contains(c),
    ensures
        is_reference_path(defs, p.push(c)),
        p.push(c)[0] == p[0],
        p.push(c).last() == c,
{
    let q = p.push(c);
    assert forall|i: int| 0 <= i < q.len() - 1 implies {
        &&& defs.contains_key(#[trigger] q[i])
        &&& defs.contains_key(q[i + 1])
        &&& spec_referenced_definitions(defs[q[i]]).contains(q[i + 1])
    } by {
        if i < p.len() - 1 {
            assert(q[i] == p[i] && q[i + 1] == p[i + 1]);
        }
    }
}

/// In a set that holds the seeds and is closed under references, every definition on a path
/// from a seed is in the set.
proof fn lemma_closed_holds_path(
    defs: Map<DefinitionId, Definition>,
    seeds: Set<DefinitionId>,
    r: Set<DefinitionId>,
    p: Seq<DefinitionId>,
    i: int,
)
    requires
        is_reference_path(defs, p),
        seeds.contains(p[0]),
        seeds.subset_of(r),
        forall|a: DefinitionId, c: DefinitionId|
            r.contains(a) && defs.contains_key(a) && defs.contains_key(c) && spec_referenced_definitions(
                defs[a],
            ).contains(c) ==> #[trigger] r.contains(c) || !#[trigger] defs.contains_key(a),
        0 <= i < p.len(),
    ensures
        r.contains(p[i]),
    decreases i,
{
    if i > 0 {
        lemma_closed_holds_path(defs, seeds, r, p, i - 1);
        assert(defs.contains_key(p[i - 1]));
    }
}

/// Every definition reachable from `seeds` through definitions of `mir`.
pub fn reachable_from(mir: &Mir, seeds: Vec<DefinitionId>) -> (r: FxHashSet<DefinitionId>)
    ensures
        forall|x: DefinitionId| r@.contains(x) <==> is_reachable(mir.definitions@, seeds@.to_set(), x),
{
    let ghost defs = mir.definitions@;
    let ghost seed_set = seeds@.to_set();
    let keys = fx_map_keys(&mir.definitions);
    let ghost universe = keys@.to_set() + seed_set;
    let mut reachable = fx_id_set_new();
    let mut worklist = seeds;
    proof {
        assert forall|x: DefinitionId| worklist@.contains(x) implies is_reachable(defs, seed_set, x) by {
            let p = seq![x];
            assert(is_reference_path(defs, p));
        }
        assert(seed_set.finite());
        assert(universe.finite());
    }
    while worklist.len() > 0
        invariant
            defs == mir.definitions@,
            keys@.to_set() == defs.dom(),
            universe == defs.dom() + seed_set,
            universe.finite(),
            reachable@.finite(),
            reachable@.subset_of(universe),
            forall|x: DefinitionId| #[trigger] worklist@.contains(x) ==> universe.contains(x),
            forall|x: DefinitionId|
                reachable@.contains(x) || worklist@.contains(x) ==> #[trigger] is_reachable(defs, seed_set, x),
            forall|x: DefinitionId| #[trigger]
                seed_set.contains(x) ==> reachable@.contains(x) || worklist@.contains(x),
            forall|a: DefinitionId, c: DefinitionId|
                reachable@.contains(a) && defs.contains_key(a) && defs.contains_key(c)
                    && spec_referenced_definitions(defs[a]).contains(c) ==> #[trigger] reachable@.contains(c)
                    || worklist@.contains(c) || !#[trigger] defs.contains_key(a),
        decreases universe.len() - reachable@.len(), worklist@.len(),
    {
        let ghost old_worklist = worklist@;
        let ghost old_reachable = reachable@;
        let id = worklist.pop().unwrap();
        proof {
            assert(old_worklist.contains(id));
            assert forall|x: DefinitionId| old_worklist.contains(x) implies x == id || worklist@.contains(x) by {
                if x != id {
                    let j = choose|j: int| 0 <= j < old_worklist.len() && old_worklist[j] == x;
                    assert(worklist@[j] == x);
                }
            }
            assert forall|x: DefinitionId| worklist@.contains(x) implies old_worklist.contains(x) by {
                let j = choose|j: int| 0 <= j < worklist@.len() && worklist@[j] == x;
                assert(old_worklist[j] == x);
            }
            assert forall|x: DefinitionId| #[trigger] worklist@.contains(x) implies universe.contains(x) by {
                assert(old_worklist.contains(x));
            }
        }
        if fx_id_set_insert(&mut reachable, id) {
            proof {
                assert(universe.contains(id));
                vstd::set_lib::lemma_len_subset(old_reachable, universe.remove(id));
            }
            match fx_map_get(&mir.definitions, id) {
                None => {},
                Some(def) => {
                    let called = def.for_each_referenced_definition();
                    let ghost before_push = worklist@;
                    let mut k: usize = 0;
                    while k < called.len()
                        invariant
                            0 <= k <= called@.len(),
                            defs == mir.definitions@,
                            defs.contains_key(id),
                            *def == defs[id],
                            called@ == spec_referenced_definitions(defs[id]),
                            reachable@.contains(id),
                            is_reachable(defs, seed_set, id),
                            universe == defs.dom() + seed_set,
                            forall|x: DefinitionId| before_push.contains(x) ==> #[trigger] worklist@.contains(x),
                            forall|x: DefinitionId| #[trigger] worklist@.contains(x) ==> universe.contains(x),
                            forall|x: DefinitionId|
                                #[trigger] worklist@.contains(x) ==> before_push.contains(x) || is_reachable(
                                    defs,
                                    seed_set,
                                    x,
                                ),
                            forall|j: int|
                                0 <= j < k ==> reachable@.contains(#[trigger] called@[j]) || worklist@.contains(
                                    called@[j],
                                ) || !defs.contains_key(called@[j]),
                        decreases called@.len() - k,
                    {
                        let c = called[k];
                        if fx_map_contains_key(&mir.definitions, c) && !fx_id_set_contains(&reachable, c) {
                            let ghost w = worklist@;
                            worklist.push(c);
                            proof {
                                let p = choose|p: Seq<DefinitionId>| #[trigger]
                                    is_reference_path(defs, p) && seed_set.contains(p[0]) && p.last() == id;
                                assert(called@.contains(c)) by {
                                    assert(called@[k as int] == c);
                                }
                                lemma_extend_path(defs, p, c);
                                assert(is_reference_path(defs, p.push(c)));
                                assert forall|x: DefinitionId| #[trigger] worklist@.contains(x) implies w.contains(x)
                                    || x == c by {
                                    let j = choose|j: int| 0 <= j < worklist@.len() && worklist@[j] == x;
                                    if j < w.len() {
                                        assert(w[j] == x);
                                    }
                                }
                                assert forall|x: DefinitionId| w.contains(x) implies #[trigger] worklist@.contains(x) by {
                                    let j = choose|j: int| 0 <= j < w.len() && w[j] == x;
                                    assert(worklist@[j] == x);
                                }
                                assert(worklist@[worklist@.len() - 1] == c);
                            }
                        }
                        k = k + 1;
                    }
                    proof {
                        assert forall|c: DefinitionId|
                            defs.contains_key(c) && spec_referenced_definitions(defs[id]).contains(c) implies reachable@.contains(
                            c,
                        ) || worklist@.contains(c) by {
                            let j = choose|j: int| 0 <= j < called@.len() && called@[j] == c;
                        }
                    }
                },
            }
        }
    }
    proof {
        assert forall|x: DefinitionId| is_reachable(defs, seed_set, x) implies reachable@.contains(x) by {
            let p = choose|p: Seq<DefinitionId>| #[trigger]
                is_reference_path(defs, p) && seed_set.contains(p[0]) && p.last() == x;
            assert(seed_set.subset_of(reachable@));
            lemma_closed_holds_path(defs, seed_set, reachable@, p, p.len() - 1);
        }
    }
    reachable
}

impl Mir {
    /// Drops every definition that is not reachable from a definition named `main` through the
    /// definitions each definition refers to. A MIR without a `main` is left as it is.
    pub fn remove_unreachable_functions(self) -> (r: Self)
        ensures
            main_definitions(self.definitions@).is_empty() ==> r.definitions@ == self.definitions@,
            !main_definitions(self.definitions@).is_empty() ==> r.definitions@ == self.definitions@.restrict(
                Set::new(|x: DefinitionId| is_reachable(self.definitions@, main_definitions(self.definitions@), x)),
            ),
            r.externals@ == self.externals@,
            r.preserved_op_indices@ == self.preserved_op_indices@,
    {
        let ghost defs = self.definitions@;
        let keys = fx_map_keys(&self.definitions);
        let main = String::from_str("main");
        let mut seeds: Vec<DefinitionId> = Vec::new();
        let mut i: usize = 0;
        while i < keys.len()
            invariant
                0 <= i <= keys@.len(),
                keys@.to_set() == defs.dom(),
                defs == self.definitions@,
                main@ == "main"@,
                seeds@.to_set() == main_definitions(defs).intersect(keys@.subrange(0, i as int).to_set()),
            decreases keys@.len() - i,
        {
            let k = keys[i];
            proof {
                assert(keys@.to_set().contains(k));
            }
            let def = fx_map_get(&self.definitions, k).unwrap();
            let ghost before = seeds@;
            let is_main = *def.name == main;
            proof {
                assert(is_main == main_definitions(defs).contains(k));
            }
            if is_main {
                seeds.push(k);
            }
            i = i + 1;
            proof {
                lemma_prefix_to_set(keys@, i as int);
                if is_main {
                    let n = seeds@.len() as int;
                    lemma_prefix_to_set(seeds@, n);
                    assert(seeds@.subrange(0, n) =~= seeds@);
                    assert(seeds@.subrange(0, n - 1) =~= before);
                    assert(seeds@.to_set() == before.to_set().insert(k));
                } else {
                    assert(seeds@ == before);
                }
                assert(seeds@.to_set() =~= main_definitions(defs).intersect(keys@.subrange(0, i as int).to_set()));
            }
        }
        proof {
            assert(keys@.subrange(0, i as int) =~= keys@);
            assert(seeds@.to_set() =~= main_definitions(defs));
        }
        // No main found, leave the MIR alone
        if seeds.len() == 0 {
            proof {
                assert(main_definitions(defs).is_empty()) by {
                    if !main_definitions(defs).is_empty() {
                        let x = main_definitions(defs).choose();
                        assert(seeds@.to_set().contains(x));
                    }
                }
            }
            return self;
        }
        proof {
            assert(seeds@.to_set().contains(seeds@[0]));
        }
        let reachable = reachable_from(&self, seeds);
        let mut this = self;
        let mut j: usize = 0;
        while j < keys.len()
            invariant
                0 <= j <= keys@.len(),
                keys@.to_set() == defs.dom(),
                this.externals@ == self.externals@,
                this.preserved_op_indices@ == self.preserved_op_indices@,
                forall|x: DefinitionId| reachable@.contains(x) <==> is_reachable(defs, main_definitions(defs), x),
                this.definitions@ == defs.remove_keys(
                    keys@.subrange(0, j as int).to_set().filter(|x: DefinitionId| !reachable@.contains(x)),
                ),
            decreases keys@.len() - j,
        {
            let k = keys[j];
            if !fx_id_set_contains(&reachable, k) {
                fx_map_remove(&mut this.definitions, k);
            }
            j = j + 1;
            proof {
                lemma_prefix_to_set(keys@, j as int);
                assert(this.definitions@ =~= defs.remove_keys(
                    keys@.subrange(0, j as int).to_set().filter(|x: DefinitionId| !reachable@.contains(x)),
                ));
            }
        }
        proof {
            assert(keys@.subrange(0, j as int) =~= keys@);
            assert(this.definitions@ =~= defs.restrict(
                Set::new(|x: DefinitionId| is_reachable(defs, main_definitions(defs), x)),
            ));
        }
        this
    }
}

} // verus!
