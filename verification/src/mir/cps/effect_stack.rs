//! The stack of effect handlers in scope at a point of the conversion to continuation-passing
//! style.
use crate::mir::types::Type;
use crate::mir::values::{DefinitionId, Value};
use vstd::prelude::*;

verus! {

/// A handler in scope: the effect it handles, the handler value and its type, and a time stamp.
pub struct Effect {
    pub id: DefinitionId,
    pub handler: Value,
    pub handler_type: Type,
    /// The time stamp on an effect is an id which increases each time the
    /// EffectStack is pushed to. It is used as a quick method of determining
    /// equality and hashing of effect stacks.
    pub time_stamp: usize,
}

impl Clone for Effect {
    fn clone(&self) -> (r: Self)
        ensures
            r == *self,
    {
        Effect { id: self.id, handler: self.handler, handler_type: self.handler_type.clone(), time_stamp: self.time_stamp }
    }
}

/// The handlers in scope, innermost last.
pub struct EffectStack {
    effects: Vec<Effect>,
}

impl View for EffectStack {
    type V = Seq<Effect>;

    closed spec fn view(&self) -> Seq<Effect> {
        self.effects@
    }
}

/// Two stacks are taken to be equal when they have the same height and, unless empty, their top
/// effects have the same time stamp.
pub open spec fn stacks_equal(a: Seq<Effect>, b: Seq<Effect>) -> bool {
    a.len() == b.len() && (a.len() == 0 || a.last().time_stamp == b.last().time_stamp)
}

impl PartialEq for EffectStack {
    fn eq(&self, other: &Self) -> (r: bool) {
        if self.effects.len() != other.effects.len() {
            false
        } else if self.effects.len() == 0 {
            true
        } else {
            let self_last = &self.effects[self.effects.len() - 1];
            let other_last = &other.effects[other.effects.len() - 1];
            self_last.time_stamp == other_last.time_stamp
        }
    }
}

impl vstd::std_specs::cmp::PartialEqSpecImpl for EffectStack {
    open spec fn obeys_eq_spec() -> bool {
        true
    }

    open spec fn eq_spec(&self, other: &Self) -> bool {
        stacks_equal(self@, other@)
    }
}

impl Eq for EffectStack {

}

impl Default for EffectStack {
    fn default() -> (r: Self)
        ensures
            r@ == Seq::<Effect>::empty(),
    {
        EffectStack { effects: Vec::new() }
    }
}

impl Clone for EffectStack {
    fn clone(&self) -> (r: Self)
        ensures
            r@ == self@,
    {
        let mut effects: Vec<Effect> = Vec::new();
        let mut i: usize = 0;
        while i < self.effects.len()
            invariant
                0 <= i <= self.effects@.len(),
                effects@ == self.effects@.subrange(0, i as int),
            decreases self.effects@.len() - i,
        {
            effects.push(self.effects[i].clone());
            i = i + 1;
        }
        assert(effects@ =~= self.effects@);
        EffectStack { effects }
    }
}

/// Some effect of `s` handles `id`.
pub open spec fn has_effect(s: Seq<Effect>, id: DefinitionId) -> bool {
    exists|i: int| 0 <= i < s.len() && (#[trigger] s[i]).id == id
}

impl EffectStack {
    pub fn new(effects: Vec<Effect>) -> (r: Self)
        ensures
            r@ == effects@,
    {
        EffectStack { effects }
    }

    /// Find the effect with the given id, the outermost where there are several. The effect
    /// must be on the stack.
    pub fn find(&self, id: DefinitionId) -> (r: &Effect)
        requires
            has_effect(self@, id),
        ensures
            exists|i: int|
                0 <= i < self@.len() && self@[i] == *r && r.id == id && forall|j: int| 0 <= j < i ==> (#[trigger] self@[j]).id != id,
    {
        let mut i: usize = 0;
        while i < self.effects.len()
            invariant
                0 <= i <= self.effects@.len(),
                has_effect(self.effects@, id),
                forall|j: int| 0 <= j < i ==> (#[trigger] self.effects@[j]).id != id,
            decreases self.effects@.len() - i,
        {
            if self.effects[i].id == id {
                assert(self@[i as int] == self.effects@[i as int]);
                return &self.effects[i];
            }
            i = i + 1;
        }
        proof {
            let k = choose|k: int| 0 <= k < self.effects@.len() && (#[trigger] self.effects@[k]).id == id;
            assert(self.effects@[k].id != id);
        }
        &self.effects[0]
    }

    pub fn as_slice(&self) -> (r: &[Effect])
        ensures
            r@ == self@,
    {
        self.effects.as_slice()
    }

    pub fn is_empty(&self) -> (r: bool)
        ensures
            r == (self@.len() == 0),
    {
        self.effects.len() == 0
    }

    pub fn len(&self) -> (r: usize)
        ensures
            r == self@.len(),
    {
        self.effects.len()
    }

    pub fn push(&mut self, effect: Effect)
        ensures
            final(self)@ == old(self)@.push(effect),
    {
        self.effects.push(effect);
    }
}

/// Pushing an effect with a fresh time stamp onto equal stacks leaves them equal, and onto a
/// stack makes it differ from what it was.
pub proof fn lemma_push_keeps_equality(a: Seq<Effect>, b: Seq<Effect>, e: Effect, f: Effect)
    requires
        stacks_equal(a, b),
        e.time_stamp == f.time_stamp,
    ensures
        stacks_equal(a.push(e), b.push(f)),
        !stacks_equal(a.push(e), a),
{
}

} // verus!
