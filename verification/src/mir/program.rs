//! A whole MIR program: its definitions and the external items it uses.
use crate::fx::{
    DefinitionMap, fx_map_contains_key, fx_map_get, fx_map_insert, fx_map_keys, fx_map_new, fx_map_remove,
};
use crate::mir::definition::{Definition, Extern, spec_referenced_definitions, spec_type_of_value, value_in_bounds};
use crate::mir::types::Type;
use crate::mir::values::{DefinitionId, Value};
use crate::seq_util::lemma_prefix_to_set;
use std::sync::Arc;
use vstd::prelude::*;

verus! {

pub struct Mir {
    pub definitions: DefinitionMap<Definition>,
    /// Any extern symbols used but not defined in this [Mir]
    pub externals: DefinitionMap<Extern>,
    /// Effect op to position-within-effect mappings recovered from Handles removed by the
    /// handler optimizations, so effect lowering can still resolve the `Perform`s that lived
    /// inside an optimized Handle's body.
    pub preserved_op_indices: DefinitionMap<u32>,
}

/// Moves every entry of `from` into `into`, where it replaces an entry with the same key.
pub fn extend_map<V>(into: &mut DefinitionMap<V>, from: DefinitionMap<V>)
    ensures
        final(into)@ == old(into)@.union_prefer_right(from@),
{
    let keys = fx_map_keys(&from);
    let mut from = from;
    let ghost original = from@;
    let mut i: usize = 0;
    while i < keys.len()
        invariant
            0 <= i <= keys@.len(),
            keys@.no_duplicates(),
            keys@.to_set() == original.dom(),
            from@ == original.remove_keys(keys@.subrange(0, i as int).to_set()),
            into@ == old(into)@.union_prefer_right(original.restrict(keys@.subrange(0, i as int).to_set())),
        decreases keys@.len() - i,
    {
        let k = keys[i];
        proof {
            assert(keys@.to_set().contains(k));
            assert(!keys@.subrange(0, i as int).contains(k)) by {
                if keys@.subrange(0, i as int).contains(k) {
                    let j = choose|j: int| 0 <= j < i && keys@.subrange(0, i as int)[j] == k;
                    assert(keys@[j] == keys@[i as int]);
                }
            }
        }
        match fx_map_remove(&mut from, k) {
            Some(v) => {
                fx_map_insert(into, k, v);
            },
            None => {},
        }
        i = i + 1;
        proof {
            lemma_prefix_to_set(keys@, i as int);
            assert(from@ =~= original.remove_keys(keys@.subrange(0, i as int).to_set()));
            assert(into@ =~= old(into)@.union_prefer_right(
                original.restrict(keys@.subrange(0, i as int).to_set()),
            ));
        }
    }
    proof {
        assert(keys@.subrange(0, i as int) =~= keys@);
        assert(original.restrict(keys@.to_set()) =~= original);
    }
}

impl Mir {
    /// An empty program.
    pub fn new() -> (r: Mir)
        ensures
            r.definitions@.dom().is_empty(),
            r.externals@.dom().is_empty(),
            r.preserved_op_indices@.dom().is_empty(),
    {
        Mir { definitions: fx_map_new(), externals: fx_map_new(), preserved_op_indices: fx_map_new() }
    }

    /// The union of two programs; where both have an entry for an id, `other`'s is kept.
    pub fn extend(self, other: Mir) -> (r: Mir)
        ensures
            r.definitions@ == self.definitions@.union_prefer_right(other.definitions@),
            r.externals@ == self.externals@.union_prefer_right(other.externals@),
            r.preserved_op_indices@ == self.preserved_op_indices@.union_prefer_right(
                other.preserved_op_indices@,
            ),
    {
        let mut this = self;
        let Mir { definitions, externals, preserved_op_indices } = other;
        extend_map(&mut this.definitions, definitions);
        extend_map(&mut this.externals, externals);
        extend_map(&mut this.preserved_op_indices, preserved_op_indices);
        this
    }

    pub fn get(&self, id: DefinitionId) -> (r: Option<&Definition>)
        ensures
            self.definitions@.contains_key(id) ==> r == Some(&self.definitions@[id]),
            !self.definitions@.contains_key(id) ==> r is None,
    {
        fx_map_get(&self.definitions, id)
    }

    /// The definition with the given id, which must exist.
    pub fn index(&self, id: DefinitionId) -> (r: &Definition)
        requires
            self.definitions@.contains_key(id),
        ensures
            *r == self.definitions@[id],
    {
        fx_map_get(&self.definitions, id).unwrap()
    }

    /// The name of a definition, or else of an external item, with the given id.
    pub fn get_name(&self, id: DefinitionId) -> (r: Option<&Arc<String>>)
        ensures
            self.definitions@.contains_key(id) ==> r == Some(&self.definitions@[id].name),
            !self.definitions@.contains_key(id) && self.externals@.contains_key(id) ==> r == Some(
                &self.externals@[id].name,
            ),
            !self.definitions@.contains_key(id) && !self.externals@.contains_key(id) ==> r is None,
    {
        match fx_map_get(&self.definitions, id) {
            Some(def) => Some(&def.name),
            None => match fx_map_get(&self.externals, id) {
                Some(ext) => Some(&ext.name),
                None => None,
            },
        }
    }

    /// Returns the type of the given value given that the value originates in the given [Definition].
    pub fn type_of_value(&self, value: &Value, definition: &Definition) -> (r: Type)
        requires
            value_in_bounds(*definition, *value),
            spec_type_of_value(*definition, *value, self.externals@, self.definitions@) is Some,
        ensures
            r@ == spec_type_of_value(*definition, *value, self.externals@, self.definitions@)->0,
    {
        definition.type_of_value(value, &self.externals, &self.definitions)
    }

    /// Remove any entries in `self.externals` which are also present in `self.definitions`
    pub fn remove_internal_externs(self) -> (r: Self)
        ensures
            r.definitions@ == self.definitions@,
            r.externals@ == self.externals@.remove_keys(self.definitions@.dom()),
            r.preserved_op_indices@ == self.preserved_op_indices@,
    {
        let mut this = self;
        let keys = fx_map_keys(&this.externals);
        let ghost original = this.externals@;
        let mut i: usize = 0;
        while i < keys.len()
            invariant
                0 <= i <= keys@.len(),
                keys@.to_set() == original.dom(),
                this.definitions@ == self.definitions@,
                this.preserved_op_indices@ == self.preserved_op_indices@,
                original == self.externals@,
                this.externals@ == original.remove_keys(
                    keys@.subrange(0, i as int).to_set().intersect(self.definitions@.dom()),
                ),
            decreases keys@.len() - i,
        {
            let k = keys[i];
            if fx_map_contains_key(&this.definitions, k) {
                fx_map_remove(&mut this.externals, k);
            }
            i = i + 1;
            proof {
                lemma_prefix_to_set(keys@, i as int);
                assert(this.externals@ =~= original.remove_keys(
                    keys@.subrange(0, i as int).to_set().intersect(self.definitions@.dom()),
                ));
            }
        }
        proof {
            assert(keys@.subrange(0, i as int) =~= keys@);
            assert(this.externals@ =~= original.remove_keys(self.definitions@.dom()));
        }
        this
    }
}

/// Whether the program mentions `id` anywhere: as a definition, an external item, an effect
/// operation with a preserved index, or as the id of, or a reference within, one of its
/// definitions.
pub open spec fn mentions(mir: Mir, id: DefinitionId) -> bool {
    ||| mir.definitions@.contains_key(id)
    ||| mir.externals@.contains_key(id)
    ||| mir.preserved_op_indices@.contains_key(id)
    ||| exists|k: DefinitionId|
        #![trigger mir.definitions@[k]]
        mir.definitions@.contains_key(k) && (mir.definitions@[k].id == id || spec_referenced_definitions(
            mir.definitions@[k],
        ).contains(id))
}

/// Raises `next` so that it is above `id`.
fn note_id(next: &mut u64, id: DefinitionId)
    requires
        *old(next) <= 0x1_0000_0000,
    ensures
        *final(next) == if *old(next) > id.0 + 1 { *old(next) } else { (id.0 + 1) as u64 },
        *final(next) <= 0x1_0000_0000,
{
    if *next <= id.0 as u64 {
        *next = id.0 as u64 + 1;
    }
}

/// Raises `next` above each of `ids`.
fn note_ids(next: &mut u64, ids: &Vec<DefinitionId>)
    requires
        *old(next) <= 0x1_0000_0000,
    ensures
        *final(next) <= 0x1_0000_0000,
        *old(next) <= *final(next),
        forall|x: DefinitionId| ids@.contains(x) ==> x.0 < *final(next),
        *final(next) == *old(next) || ids@.contains(DefinitionId((*final(next) - 1) as u32)),
{
    let mut i: usize = 0;
    while i < ids.len()
        invariant
            0 <= i <= ids@.len(),
            *old(next) <= *next <= 0x1_0000_0000,
            forall|j: int| 0 <= j < i ==> (#[trigger] ids@[j]).0 < *next,
            *next == *old(next) || ids@.contains(DefinitionId((*next - 1) as u32)),
        decreases ids@.len() - i,
    {
        let ghost before = *next;
        note_id(next, ids[i]);
        proof {
            if *next != before {
                assert(ids@[i as int] == DefinitionId((*next - 1) as u32));
            }
        }
        i = i + 1;
    }
    proof {
        assert forall|x: DefinitionId| ids@.contains(x) implies x.0 < *next by {
            let j = choose|j: int| 0 <= j < ids@.len() && ids@[j] == x;
        }
    }
}

impl Mir {
    /// An id that nothing in the program uses yet: one past the largest id it mentions, or `0`
    /// where it mentions none. `None` where the largest id is `u32::MAX`, past which there is
    /// no id.
    pub fn next_free_id(&self) -> (r: Option<DefinitionId>)
        ensures
            r matches Some(id) ==> forall|x: DefinitionId| mentions(*self, x) ==> x.0 < id.0,
            r matches Some(id) ==> (id.0 == 0 || mentions(*self, DefinitionId((id.0 - 1) as u32))),
            r is None ==> mentions(*self, DefinitionId(u32::MAX)),
    {
        let mut next: u64 = 0;
        let keys = fx_map_keys(&self.definitions);
        let mut i: usize = 0;
        while i < keys.len()
            invariant
                0 <= i <= keys@.len(),
                keys@.to_set() == self.definitions@.dom(),
                next <= 0x1_0000_0000,
                forall|j: int|
                    0 <= j < i ==> (#[trigger] keys@[j]).0 < next && self.definitions@[keys@[j]].id.0 < next
                        && forall|x: DefinitionId|
                        spec_referenced_definitions(self.definitions@[keys@[j]]).contains(x) ==> x.0 < next,
                next == 0 || mentions(*self, DefinitionId((next - 1) as u32)),
            decreases keys@.len() - i,
        {
            let k = keys[i];
            proof {
                assert(keys@.to_set().contains(k));
            }
            let definition = fx_map_get(&self.definitions, k).unwrap();
            let ghost before = next;
            note_id(&mut next, k);
            note_id(&mut next, definition.id);
            let references = definition.for_each_referenced_definition();
            let ghost middle = next;
            note_ids(&mut next, &references);
            proof {
                if next != before {
                    if next == middle {
                        if next == (k.0 + 1) as u64 {
                            assert(mentions(*self, k));
                        } else {
                            assert(self.definitions@[k].id == DefinitionId((next - 1) as u32));
                        }
                    } else {
                        assert(spec_referenced_definitions(self.definitions@[k]).contains(
                            DefinitionId((next - 1) as u32),
                        ));
                    }
                }
            }
            i = i + 1;
        }
        let externals = fx_map_keys(&self.externals);
        let ghost before = next;
        note_ids(&mut next, &externals);
        proof {
            if next != before {
                assert(externals@.to_set().contains(DefinitionId((next - 1) as u32)));
            }
        }
        let preserved = fx_map_keys(&self.preserved_op_indices);
        let ghost before = next;
        note_ids(&mut next, &preserved);
        proof {
            if next != before {
                assert(preserved@.to_set().contains(DefinitionId((next - 1) as u32)));
            }
            assert forall|x: DefinitionId| mentions(*self, x) implies x.0 < next by {
                if self.definitions@.contains_key(x) {
                    assert(keys@.to_set().contains(x));
                    let j = choose|j: int| 0 <= j < keys@.len() && keys@[j] == x;
                } else if self.externals@.contains_key(x) {
                    assert(externals@.to_set().contains(x));
                } else if self.preserved_op_indices@.contains_key(x) {
                    assert(preserved@.to_set().contains(x));
                } else {
                    let k = choose|k: DefinitionId|
                        #![trigger self.definitions@[k]]
                        self.definitions@.contains_key(k) && (self.definitions@[k].id == x
                            || spec_referenced_definitions(self.definitions@[k]).contains(x));
                    assert(keys@.to_set().contains(k));
                    let j = choose|j: int| 0 <= j < keys@.len() && keys@[j] == k;
                }
            }
        }
        if next > 0xffff_ffff {
            None
        } else {
            Some(DefinitionId(next as u32))
        }
    }
}

} // verus!
