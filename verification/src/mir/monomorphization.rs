//! Specializing generics out of the MIR: monomorphization, a MIR -> MIR transformation.
//!
//! Starting from the program's non-generic definitions, every instantiation of a generic
//! definition with concrete type arguments gets a definition of its own, with those arguments
//! substituted into its types. A table of the specializations made so far, keyed by the original
//! definition and the type arguments, lets each one be made once; a queue holds those still to
//! be built. Generic definitions that reference one another directly (a recursive call without
//! an `Instantiate`) are specialized with the current definition's type arguments.
use crate::fx::{DefinitionMap, fx_map_get, fx_map_insert, fx_map_keys, fx_map_new};
use vstd::string::StringExecFns;
use crate::mir::definition::{Block, Definition, same_body, same_terminator};
use crate::mir::instruction::{HandlerCase, Instruction, InstructionView, TerminatorInstruction, instruction_values};
use crate::mir::program::Mir;
use crate::mir::substitute::{spec_substitute, spec_substitute_all, substitute_all};
use crate::mir::types::{Type, TypeView, clone_types, lemma_types_view, types_view};
use crate::mir::values::{DefinitionId, Value};
use vstd::prelude::*;

verus! {

broadcast use lemma_types_view;

/// A specialization made: the original definition, the type arguments, the new definition.
pub open spec fn entry_view(e: (DefinitionId, Vec<Type>, DefinitionId)) -> (DefinitionId, Seq<TypeView>, DefinitionId) {
    (e.0, types_view(e.1@), e.2)
}

pub open spec fn entries_view(s: Seq<(DefinitionId, Vec<Type>, DefinitionId)>) -> Seq<(DefinitionId, Seq<TypeView>, DefinitionId)> {
    s.map_values(|e: (DefinitionId, Vec<Type>, DefinitionId)| entry_view(e))
}

/// A specialization still to be built: the original definition, the new id, the type arguments.
pub open spec fn queued_view(e: (DefinitionId, DefinitionId, Vec<Type>)) -> (DefinitionId, DefinitionId, Seq<TypeView>) {
    (e.0, e.1, types_view(e.2@))
}

pub open spec fn queue_view(q: Seq<(DefinitionId, DefinitionId, Vec<Type>)>) -> Seq<(DefinitionId, DefinitionId, Seq<TypeView>)> {
    q.map_values(|e: (DefinitionId, DefinitionId, Vec<Type>)| queued_view(e))
}

/// The specialization of `d` at the type arguments `b` in the table `s`: that of the first entry
/// for them.
pub open spec fn lookup(s: Seq<(DefinitionId, Seq<TypeView>, DefinitionId)>, d: DefinitionId, b: Seq<TypeView>) -> Option<DefinitionId>
    decreases s.len(),
{
    if s.len() == 0 {
        None
    } else {
        match lookup(s.drop_last(), d, b) {
            Some(n) => Some(n),
            None => if s.last().0 == d && s.last().1 == b {
                Some(s.last().2)
            } else {
                None
            },
        }
    }
}

/// Whether `d` is a generic definition of `initial`.
pub open spec fn is_generic_in(initial: Mir, d: DefinitionId) -> bool {
    initial.definitions@.contains_key(d) && initial.definitions@[d].generic_count != 0
}

/// `v`, or its specialization at `b` where it refers to a definition that the table `s` has
/// specialized at `b`.
pub open spec fn remapped_value(v: Value, s: Seq<(DefinitionId, Seq<TypeView>, DefinitionId)>, b: Seq<TypeView>) -> Value {
    match v {
        Value::Definition(d) => match lookup(s, d, b) {
            Some(n) => Value::Definition(n),
            None => v,
        },
        _ => v,
    }
}

/// `v` needs no further specialization at `b`: it is no reference to a generic definition, or
/// the table has the specialization.
pub open spec fn resolved(v: Value, s: Seq<(DefinitionId, Seq<TypeView>, DefinitionId)>, b: Seq<TypeView>, initial: Mir) -> bool {
    match v {
        Value::Definition(d) => lookup(s, d, b) is Some || !is_generic_in(initial, d),
        _ => true,
    }
}

/// Entry `k` of `s` is a new specialization of a generic definition at `b`, which no earlier
/// entry has.
pub open spec fn fresh_at(s: Seq<(DefinitionId, Seq<TypeView>, DefinitionId)>, k: int, b: Seq<TypeView>, initial: Mir) -> bool {
    &&& s[k].1 == b
    &&& is_generic_in(initial, s[k].0)
    &&& lookup(s.subrange(0, k), s[k].0, b) is None
}

/// `new_s` is `old_s` followed by new specializations at `b`.
pub open spec fn extends(
    old_s: Seq<(DefinitionId, Seq<TypeView>, DefinitionId)>,
    new_s: Seq<(DefinitionId, Seq<TypeView>, DefinitionId)>,
    b: Seq<TypeView>,
    initial: Mir,
) -> bool {
    &&& old_s.len() <= new_s.len()
    &&& new_s.subrange(0, old_s.len() as int) == old_s
    &&& forall|k: int| old_s.len() <= k < new_s.len() ==> #[trigger] fresh_at(new_s, k, b, initial)
}

/// Entry `i` of the table, the `i - s_len`th new one, has the id `next + (i - s_len)`, refers to a
/// definition that `demand` uses, and is queued at the same position after `q_len`.
pub open spec fn fresh_entry(
    s: Seq<(DefinitionId, Seq<TypeView>, DefinitionId)>,
    q: Seq<(DefinitionId, DefinitionId, Seq<TypeView>)>,
    i: int,
    s_len: int,
    q_len: int,
    next: DefinitionId,
    demand: Set<Value>,
) -> bool {
    &&& s[i].2.0 == next.0 + (i - s_len)
    &&& q[q_len + (i - s_len)] == (s[i].0, s[i].2, s[i].1)
    &&& demand.contains(Value::Definition(s[i].0))
}

/// From (`old_s`, `old_q`, `old_next`) to (`new_s`, `new_q`, `new_next`) the table and the queue
/// grew by exactly the new specializations at `b` of generic definitions that `demand` uses, each
/// with the next unused id, in order.
pub open spec fn grew(
    old_s: Seq<(DefinitionId, Seq<TypeView>, DefinitionId)>,
    new_s: Seq<(DefinitionId, Seq<TypeView>, DefinitionId)>,
    old_q: Seq<(DefinitionId, DefinitionId, Seq<TypeView>)>,
    new_q: Seq<(DefinitionId, DefinitionId, Seq<TypeView>)>,
    old_next: DefinitionId,
    new_next: DefinitionId,
    b: Seq<TypeView>,
    initial: Mir,
    demand: Set<Value>,
) -> bool {
    &&& extends(old_s, new_s, b, initial)
    &&& old_next.0 <= new_next.0
    &&& new_s.len() - old_s.len() == new_next.0 - old_next.0
    &&& new_q.len() == old_q.len() + (new_s.len() - old_s.len())
    &&& new_q.subrange(0, old_q.len() as int) == old_q
    &&& forall|i: int|
        old_s.len() <= i < new_s.len() ==> #[trigger] fresh_entry(
            new_s,
            new_q,
            i,
            old_s.len() as int,
            old_q.len() as int,
            old_next,
            demand,
        )
}

proof fn lemma_lookup_prefix(s: Seq<(DefinitionId, Seq<TypeView>, DefinitionId)>, j: int, d: DefinitionId, b: Seq<TypeView>)
    requires
        0 <= j <= s.len(),
        lookup(s.subrange(0, j), d, b) is Some,
    ensures
        lookup(s, d, b) == lookup(s.subrange(0, j), d, b),
    decreases s.len(),
{
    if j == s.len() {
        assert(s.subrange(0, j) =~= s);
    } else {
        assert(s.drop_last().subrange(0, j) =~= s.subrange(0, j));
        lemma_lookup_prefix(s.drop_last(), j, d, b);
    }
}

proof fn lemma_lookup_none_after(
    s: Seq<(DefinitionId, Seq<TypeView>, DefinitionId)>,
    from: int,
    to: int,
    d: DefinitionId,
    b: Seq<TypeView>,
    initial: Mir,
)
    requires
        0 <= from <= to <= s.len(),
        lookup(s.subrange(0, from), d, b) is None,
        !is_generic_in(initial, d),
        forall|k: int| from <= k < to ==> #[trigger] fresh_at(s, k, b, initial),
    ensures
        lookup(s.subrange(0, to), d, b) is None,
    decreases to - from,
{
    if to > from {
        lemma_lookup_none_after(s, from, to - 1, d, b, initial);
        assert(fresh_at(s, to - 1, b, initial));
        assert(s.subrange(0, to).drop_last() =~= s.subrange(0, to - 1));
    }
}

/// Growing the table leaves each resolved value's specialization as it was.
proof fn lemma_stable(
    v: Value,
    old_s: Seq<(DefinitionId, Seq<TypeView>, DefinitionId)>,
    new_s: Seq<(DefinitionId, Seq<TypeView>, DefinitionId)>,
    b: Seq<TypeView>,
    initial: Mir,
)
    requires
        extends(old_s, new_s, b, initial),
        resolved(v, old_s, b, initial),
    ensures
        remapped_value(v, new_s, b) == remapped_value(v, old_s, b),
        resolved(v, new_s, b, initial),
{
    if let Value::Definition(d) = v {
        if lookup(old_s, d, b) is Some {
            lemma_lookup_prefix(new_s, old_s.len() as int, d, b);
        } else {
            lemma_lookup_none_after(new_s, old_s.len() as int, new_s.len() as int, d, b, initial);
            assert(new_s.subrange(0, new_s.len() as int) =~= new_s);
        }
    }
}

proof fn lemma_grew_refl(
    s: Seq<(DefinitionId, Seq<TypeView>, DefinitionId)>,
    q: Seq<(DefinitionId, DefinitionId, Seq<TypeView>)>,
    next: DefinitionId,
    b: Seq<TypeView>,
    initial: Mir,
    demand: Set<Value>,
)
    ensures
        grew(s, s, q, q, next, next, b, initial, demand),
{
    assert(s.subrange(0, s.len() as int) =~= s);
    assert(q.subrange(0, q.len() as int) =~= q);
}

proof fn lemma_grew_trans(
    s1: Seq<(DefinitionId, Seq<TypeView>, DefinitionId)>,
    s2: Seq<(DefinitionId, Seq<TypeView>, DefinitionId)>,
    s3: Seq<(DefinitionId, Seq<TypeView>, DefinitionId)>,
    q1: Seq<(DefinitionId, DefinitionId, Seq<TypeView>)>,
    q2: Seq<(DefinitionId, DefinitionId, Seq<TypeView>)>,
    q3: Seq<(DefinitionId, DefinitionId, Seq<TypeView>)>,
    n1: DefinitionId,
    n2: DefinitionId,
    n3: DefinitionId,
    b: Seq<TypeView>,
    initial: Mir,
    d1: Set<Value>,
    d2: Set<Value>,
    demand: Set<Value>,
)
    requires
        grew(s1, s2, q1, q2, n1, n2, b, initial, d1),
        grew(s2, s3, q2, q3, n2, n3, b, initial, d2),
        d1.subset_of(demand),
        d2.subset_of(demand),
    ensures
        grew(s1, s3, q1, q3, n1, n3, b, initial, demand),
{
    assert(s3.subrange(0, s1.len() as int) =~= s2.subrange(0, s1.len() as int));
    assert(q3.subrange(0, q1.len() as int) =~= q2.subrange(0, q1.len() as int));
    assert forall|k: int| s1.len() <= k < s3.len() implies #[trigger] fresh_at(s3, k, b, initial) by {
        if k < s2.len() {
            assert(fresh_at(s2, k, b, initial));
            assert(s3[k] == s2[k]);
            assert(s3.subrange(0, k) =~= s2.subrange(0, k));
        }
    }
    assert forall|i: int| s1.len() <= i < s3.len() implies #[trigger] fresh_entry(
        s3,
        q3,
        i,
        s1.len() as int,
        q1.len() as int,
        n1,
        demand,
    ) by {
        if i < s2.len() {
            assert(fresh_entry(s2, q2, i, s1.len() as int, q1.len() as int, n1, d1));
            assert(s3[i] == s2[i]);
            assert(q3[q1.len() + (i - s1.len())] == q2[q1.len() + (i - s1.len())]);
        } else {
            assert(fresh_entry(s3, q3, i, s2.len() as int, q2.len() as int, n2, d2));
        }
    }
}

/// The specialization of `d` at `bindings` in the table, if it has one.
fn find_specialized(specialized: &Vec<(DefinitionId, Vec<Type>, DefinitionId)>, d: DefinitionId, bindings: &Vec<Type>) -> (r: Option<DefinitionId>)
    ensures
        r == lookup(entries_view(specialized@), d, types_view(bindings@)),
{
    let ghost s = entries_view(specialized@);
    let ghost b = types_view(bindings@);
    let mut i: usize = 0;
    while i < specialized.len()
        invariant
            0 <= i <= specialized@.len(),
            s == entries_view(specialized@),
            b == types_view(bindings@),
            lookup(s.subrange(0, i as int), d, b) is None,
        decreases specialized@.len() - i,
    {
        let e = &specialized[i];
        proof {
            assert(s.subrange(0, i + 1).drop_last() =~= s.subrange(0, i as int));
            assert(s[i as int] == entry_view(*e));
        }
        if e.0 == d && crate::mir::types::all_types_equal(&e.1, bindings) {
            proof {
                lemma_lookup_prefix(s, i + 1, d, b);
            }
            return Some(e.2);
        }
        i = i + 1;
    }
    proof {
        assert(s.subrange(0, i as int) =~= s);
    }
    None
}


/// Whether every generic in `t` is below `n`.
pub open spec fn generics_below(t: TypeView, n: nat) -> bool
    decreases t,
{
    match t {
        TypeView::Generic(g) => g < n,
        TypeView::Tuple(elements) => all_generics_below(elements, n),
        TypeView::Union(variants) => all_generics_below(variants, n),
        TypeView::Function(f) => {
            &&& all_generics_below(f.parameters, n)
            &&& generics_below(f.environment, n)
            &&& generics_below(f.return_type, n)
        },
        TypeView::Array(length, element) => generics_below(*length, n) && generics_below(*element, n),
        _ => true,
    }
}

/// [generics_below] of each type of `s`.
pub open spec fn all_generics_below(s: Seq<TypeView>, n: nat) -> bool
    decreases s,
{
    if s.len() == 0 {
        true
    } else {
        generics_below(s[0], n) && all_generics_below(s.subrange(1, s.len() as int), n)
    }
}

pub proof fn lemma_all_generics_below(s: Seq<TypeView>, n: nat)
    ensures
        all_generics_below(s, n) <==> all_below(s, n),
    decreases s.len(),
{
    if s.len() > 0 {
        let rest = s.subrange(1, s.len() as int);
        lemma_all_generics_below(rest, n);
        if all_below(s, n) {
            assert forall|k: int| 0 <= k < rest.len() implies generics_below(#[trigger] rest[k], n) by {
                assert(rest[k] == s[k + 1]);
            }
        }
        if all_generics_below(s, n) {
            assert forall|k: int| 0 <= k < s.len() implies generics_below(#[trigger] s[k], n) by {
                if k > 0 {
                    assert(rest[k - 1] == s[k]);
                }
            }
        }
    }
}

/// The types an instruction holds, besides the type arguments of an `Instantiate`, have their
/// generics below `n`.
pub open spec fn instruction_types_below(i: InstructionView, n: nat) -> bool {
    match i {
        InstructionView::StackAllocUninit(t) => generics_below(t, n),
        InstructionView::GetFieldPtr { struct_type, .. } => generics_below(struct_type, n),
        InstructionView::SizeOf(t) => generics_below(t, n),
        InstructionView::ArrayLen(t) => generics_below(t, n),
        _ => true,
    }
}

pub open spec fn remapped_values(vs: Seq<Value>, s: Seq<(DefinitionId, Seq<TypeView>, DefinitionId)>, b: Seq<TypeView>) -> Seq<Value> {
    vs.map_values(|v: Value| remapped_value(v, s, b))
}

pub open spec fn remapped_case(c: HandlerCase, s: Seq<(DefinitionId, Seq<TypeView>, DefinitionId)>, b: Seq<TypeView>) -> HandlerCase {
    HandlerCase { effect_op: c.effect_op, handler: remapped_value(c.handler, s, b) }
}

/// The instruction with each value remapped to its specialization at `b` in the table `s`, and
/// the types it holds specialized by `b`; the type arguments of an `Instantiate` are left alone.
pub open spec fn remap_view(i: InstructionView, s: Seq<(DefinitionId, Seq<TypeView>, DefinitionId)>, b: Seq<TypeView>) -> InstructionView {
    let r = |v: Value| remapped_value(v, s, b);
    match i {
        InstructionView::Call { function, arguments } => InstructionView::Call { function: r(function), arguments: remapped_values(arguments, s, b) },
        InstructionView::CallClosure { closure, arguments } => InstructionView::CallClosure { closure: r(closure), arguments: remapped_values(arguments, s, b) },
        InstructionView::Perform { effect_op, arguments } => InstructionView::Perform { effect_op, arguments: remapped_values(arguments, s, b) },
        InstructionView::Handle { body, cases } => InstructionView::Handle { body: r(body), cases: cases.map_values(|c: HandlerCase| remapped_case(c, s, b)) },
        InstructionView::PackClosure { function, environment } => InstructionView::PackClosure { function: r(function), environment: r(environment) },
        InstructionView::IndexTuple { tuple, index } => InstructionView::IndexTuple { tuple: r(tuple), index },
        InstructionView::MakeTuple(elements) => InstructionView::MakeTuple(remapped_values(elements, s, b)),
        InstructionView::MakeArray(elements) => InstructionView::MakeArray(remapped_values(elements, s, b)),
        InstructionView::Store { pointer, value } => InstructionView::Store { pointer: r(pointer), value: r(value) },
        InstructionView::GetFieldPtr { struct_ptr, struct_type, index } => InstructionView::GetFieldPtr { struct_ptr: r(struct_ptr), struct_type: spec_substitute(struct_type, b), index },
        InstructionView::StackAllocUninit(t) => InstructionView::StackAllocUninit(spec_substitute(t, b)),
        InstructionView::SizeOf(t) => InstructionView::SizeOf(spec_substitute(t, b)),
        InstructionView::ArrayLen(t) => InstructionView::ArrayLen(spec_substitute(t, b)),
        InstructionView::AddInt(a, b) => InstructionView::AddInt(r(a), r(b)),
        InstructionView::AddFloat(a, b) => InstructionView::AddFloat(r(a), r(b)),
        InstructionView::SubInt(a, b) => InstructionView::SubInt(r(a), r(b)),
        InstructionView::SubFloat(a, b) => InstructionView::SubFloat(r(a), r(b)),
        InstructionView::MulInt(a, b) => InstructionView::MulInt(r(a), r(b)),
        InstructionView::MulFloat(a, b) => InstructionView::MulFloat(r(a), r(b)),
        InstructionView::DivSigned(a, b) => InstructionView::DivSigned(r(a), r(b)),
        InstructionView::DivUnsigned(a, b) => InstructionView::DivUnsigned(r(a), r(b)),
        InstructionView::DivFloat(a, b) => InstructionView::DivFloat(r(a), r(b)),
        InstructionView::ModSigned(a, b) => InstructionView::ModSigned(r(a), r(b)),
        InstructionView::ModUnsigned(a, b) => InstructionView::ModUnsigned(r(a), r(b)),
        InstructionView::ModFloat(a, b) => InstructionView::ModFloat(r(a), r(b)),
        InstructionView::LessSigned(a, b) => InstructionView::LessSigned(r(a), r(b)),
        InstructionView::LessUnsigned(a, b) => InstructionView::LessUnsigned(r(a), r(b)),
        InstructionView::LessFloat(a, b) => InstructionView::LessFloat(r(a), r(b)),
        InstructionView::EqInt(a, b) => InstructionView::EqInt(r(a), r(b)),
        InstructionView::EqFloat(a, b) => InstructionView::EqFloat(r(a), r(b)),
        InstructionView::BitwiseAnd(a, b) => InstructionView::BitwiseAnd(r(a), r(b)),
        InstructionView::BitwiseOr(a, b) => InstructionView::BitwiseOr(r(a), r(b)),
        InstructionView::BitwiseXor(a, b) => InstructionView::BitwiseXor(r(a), r(b)),
        InstructionView::StackAlloc(v) => InstructionView::StackAlloc(r(v)),
        InstructionView::AllocShared(v) => InstructionView::AllocShared(r(v)),
        InstructionView::Transmute(v) => InstructionView::Transmute(r(v)),
        InstructionView::Id(v) => InstructionView::Id(r(v)),
        InstructionView::BitwiseNot(v) => InstructionView::BitwiseNot(r(v)),
        InstructionView::SignExtend(v) => InstructionView::SignExtend(r(v)),
        InstructionView::ZeroExtend(v) => InstructionView::ZeroExtend(r(v)),
        InstructionView::SignedToFloat(v) => InstructionView::SignedToFloat(r(v)),
        InstructionView::UnsignedToFloat(v) => InstructionView::UnsignedToFloat(r(v)),
        InstructionView::FloatToSigned(v) => InstructionView::FloatToSigned(r(v)),
        InstructionView::FloatToUnsigned(v) => InstructionView::FloatToUnsigned(r(v)),
        InstructionView::FloatPromote(v) => InstructionView::FloatPromote(r(v)),
        InstructionView::FloatDemote(v) => InstructionView::FloatDemote(r(v)),
        InstructionView::Truncate(v) => InstructionView::Truncate(r(v)),
        InstructionView::Deref(v) => InstructionView::Deref(r(v)),
        _ => i,
    }
}

/// What [remap_value] and the functions built on it do to the table, the queue and the next id,
/// and to a value `v`: it ends up specialized through the final table, and resolved.
pub open spec fn remapped_with(
    specialized: Seq<(DefinitionId, Vec<Type>, DefinitionId)>,
    final_specialized: Seq<(DefinitionId, Vec<Type>, DefinitionId)>,
    queue: Seq<(DefinitionId, DefinitionId, Vec<Type>)>,
    final_queue: Seq<(DefinitionId, DefinitionId, Vec<Type>)>,
    next_id: DefinitionId,
    final_next_id: DefinitionId,
    bindings: Seq<Type>,
    initial: Mir,
    demand: Set<Value>,
) -> bool {
    grew(
        entries_view(specialized),
        entries_view(final_specialized),
        queue_view(queue),
        queue_view(final_queue),
        next_id,
        final_next_id,
        types_view(bindings),
        initial,
        demand,
    )
}

/// `Value::Definition(d)` remapped: the specialization of `d` at `bindings` if the table has
/// one; else, for a generic `d`, a new specialization with the next id, added to the table and
/// queued; else `v` itself.
fn remap_value(
    v: Value,
    bindings: &Vec<Type>,
    initial: &Mir,
    specialized: &mut Vec<(DefinitionId, Vec<Type>, DefinitionId)>,
    queue: &mut Vec<(DefinitionId, DefinitionId, Vec<Type>)>,
    next_id: &mut DefinitionId,
    Ghost(demand): Ghost<Set<Value>>,
) -> (r: Value)
    requires
        old(next_id).0 < u32::MAX,
        demand.contains(v),
    ensures
        remapped_with(old(specialized)@, final(specialized)@, old(queue)@, final(queue)@, *old(next_id), *final(next_id), bindings@, *initial, demand),
        final(next_id).0 <= old(next_id).0 + 1,
        r == remapped_value(v, entries_view(final(specialized)@), types_view(bindings@)),
        resolved(v, entries_view(final(specialized)@), types_view(bindings@), *initial),
{
    let ghost s0 = entries_view(specialized@);
    let ghost q0 = queue_view(queue@);
    let ghost b = types_view(bindings@);
    proof {
        lemma_grew_refl(s0, q0, *next_id, b, *initial, demand);
    }
    if let Value::Definition(d) = v {
        match find_specialized(specialized, d, bindings) {
            Some(n) => Value::Definition(n),
            None => {
                let generic = match fx_map_get(&initial.definitions, d) {
                    Some(def) => !def.is_monomorphic(),
                    None => false,
                };
                if generic {
                    let n = *next_id;
                    *next_id = DefinitionId(n.0 + 1);
                    specialized.push((d, clone_types(bindings), n));
                    queue.push((d, n, clone_types(bindings)));
                    proof {
                        let s1 = entries_view(specialized@);
                        let q1 = queue_view(queue@);
                        assert(s1 =~= s0.push((d, b, n)));
                        assert(q1 =~= q0.push((d, n, b)));
                        assert(s1.drop_last() =~= s0);
                        assert(s1.subrange(0, s0.len() as int) =~= s0);
                        assert(q1.subrange(0, q0.len() as int) =~= q0);
                        assert(fresh_at(s1, s0.len() as int, b, *initial));
                        assert(fresh_entry(s1, q1, s0.len() as int, s0.len() as int, q0.len() as int, n, demand));
                    }
                    Value::Definition(n)
                } else {
                    v
                }
            },
        }
    } else {
        v
    }
}

/// Two values remapped one after the other.
fn remap2(
    a: Value,
    c: Value,
    bindings: &Vec<Type>,
    initial: &Mir,
    specialized: &mut Vec<(DefinitionId, Vec<Type>, DefinitionId)>,
    queue: &mut Vec<(DefinitionId, DefinitionId, Vec<Type>)>,
    next_id: &mut DefinitionId,
    Ghost(demand): Ghost<Set<Value>>,
) -> (r: (Value, Value))
    requires
        old(next_id).0 + 2 <= u32::MAX,
        demand.contains(a),
        demand.contains(c),
    ensures
        remapped_with(old(specialized)@, final(specialized)@, old(queue)@, final(queue)@, *old(next_id), *final(next_id), bindings@, *initial, demand),
        final(next_id).0 <= old(next_id).0 + 2,
        r.0 == remapped_value(a, entries_view(final(specialized)@), types_view(bindings@)),
        r.1 == remapped_value(c, entries_view(final(specialized)@), types_view(bindings@)),
        resolved(a, entries_view(final(specialized)@), types_view(bindings@), *initial),
        resolved(c, entries_view(final(specialized)@), types_view(bindings@), *initial),
{
    let ghost s0 = specialized@;
    let ghost q0 = queue@;
    let ghost n0 = *next_id;
    let a2 = remap_value(a, bindings, initial, specialized, queue, next_id, Ghost(demand));
    let ghost s1 = specialized@;
    let ghost q1 = queue@;
    let ghost n1 = *next_id;
    let c2 = remap_value(c, bindings, initial, specialized, queue, next_id, Ghost(demand));
    proof {
        let b = types_view(bindings@);
        lemma_stable(a, entries_view(s1), entries_view(specialized@), b, *initial);
        lemma_grew_trans(
            entries_view(s0), entries_view(s1), entries_view(specialized@),
            queue_view(q0), queue_view(q1), queue_view(queue@),
            n0, n1, *next_id, b, *initial, demand, demand, demand,
        );
    }
    (a2, c2)
}

/// Each value of `values` remapped, in order.
fn remap_values(
    values: &Vec<Value>,
    bindings: &Vec<Type>,
    initial: &Mir,
    specialized: &mut Vec<(DefinitionId, Vec<Type>, DefinitionId)>,
    queue: &mut Vec<(DefinitionId, DefinitionId, Vec<Type>)>,
    next_id: &mut DefinitionId,
    Ghost(demand): Ghost<Set<Value>>,
) -> (r: Vec<Value>)
    requires
        old(next_id).0 + values@.len() <= u32::MAX,
        forall|k: int| 0 <= k < values@.len() ==> demand.contains(#[trigger] values@[k]),
    ensures
        remapped_with(old(specialized)@, final(specialized)@, old(queue)@, final(queue)@, *old(next_id), *final(next_id), bindings@, *initial, demand),
        final(next_id).0 <= old(next_id).0 + values@.len(),
        r@ == remapped_values(values@, entries_view(final(specialized)@), types_view(bindings@)),
        forall|k: int| 0 <= k < values@.len() ==> resolved(#[trigger] values@[k], entries_view(final(specialized)@), types_view(bindings@), *initial),
{
    let ghost s0 = specialized@;
    let ghost q0 = queue@;
    let ghost n0 = *next_id;
    let ghost b = types_view(bindings@);
    let ghost all = demand;
    proof {
        lemma_grew_refl(entries_view(s0), queue_view(q0), n0, b, *initial, all);
    }
    let mut r: Vec<Value> = Vec::new();
    let mut i: usize = 0;
    while i < values.len()
        invariant
            0 <= i <= values@.len(),
            b == types_view(bindings@),
            all == demand,
            forall|k: int| 0 <= k < values@.len() ==> demand.contains(#[trigger] values@[k]),
            n0.0 + values@.len() <= u32::MAX,
            next_id.0 <= n0.0 + i,
            remapped_with(s0, specialized@, q0, queue@, n0, *next_id, bindings@, *initial, all),
            r@ == remapped_values(values@.subrange(0, i as int), entries_view(specialized@), b),
            forall|k: int| 0 <= k < i ==> resolved(#[trigger] values@[k], entries_view(specialized@), b, *initial),
        decreases values@.len() - i,
    {
        let ghost s1 = specialized@;
        let ghost q1 = queue@;
        let ghost n1 = *next_id;
        let v = values[i];
        let w = remap_value(v, bindings, initial, specialized, queue, next_id, Ghost(demand));
        r.push(w);
        proof {
            let sa = entries_view(s1);
            let sb = entries_view(specialized@);
            lemma_grew_trans(
                entries_view(s0), sa, sb,
                queue_view(q0), queue_view(q1), queue_view(queue@),
                n0, n1, *next_id, b, *initial, all, all, all,
            );
            assert forall|k: int| 0 <= k < i implies resolved(#[trigger] values@[k], sb, b, *initial)
                && remapped_value(values@[k], sb, b) == remapped_value(values@[k], sa, b) by {
                lemma_stable(values@[k], sa, sb, b, *initial);
            }
            assert(r@ =~= remapped_values(values@.subrange(0, i + 1), sb, b));
        }
        i = i + 1;
    }
    proof {
        assert(values@.subrange(0, i as int) =~= values@);
    }
    r
}


/// The handler of each case remapped, in order.
fn remap_cases(
    cases: &Vec<HandlerCase>,
    bindings: &Vec<Type>,
    initial: &Mir,
    specialized: &mut Vec<(DefinitionId, Vec<Type>, DefinitionId)>,
    queue: &mut Vec<(DefinitionId, DefinitionId, Vec<Type>)>,
    next_id: &mut DefinitionId,
    Ghost(demand): Ghost<Set<Value>>,
) -> (r: Vec<HandlerCase>)
    requires
        old(next_id).0 + cases@.len() <= u32::MAX,
        forall|k: int| 0 <= k < cases@.len() ==> demand.contains(#[trigger] cases@[k].handler),
    ensures
        remapped_with(old(specialized)@, final(specialized)@, old(queue)@, final(queue)@, *old(next_id), *final(next_id), bindings@, *initial, demand),
        final(next_id).0 <= old(next_id).0 + cases@.len(),
        r@ == cases@.map_values(|c: HandlerCase| remapped_case(c, entries_view(final(specialized)@), types_view(bindings@))),
{
    let ghost s0 = specialized@;
    let ghost q0 = queue@;
    let ghost n0 = *next_id;
    let ghost b = types_view(bindings@);
    proof {
        lemma_grew_refl(entries_view(s0), queue_view(q0), n0, b, *initial, demand);
    }
    let mut r: Vec<HandlerCase> = Vec::new();
    let mut i: usize = 0;
    while i < cases.len()
        invariant
            0 <= i <= cases@.len(),
            b == types_view(bindings@),
            forall|k: int| 0 <= k < cases@.len() ==> demand.contains(#[trigger] cases@[k].handler),
            n0.0 + cases@.len() <= u32::MAX,
            next_id.0 <= n0.0 + i,
            remapped_with(s0, specialized@, q0, queue@, n0, *next_id, bindings@, *initial, demand),
            r@ == cases@.subrange(0, i as int).map_values(|c: HandlerCase| remapped_case(c, entries_view(specialized@), b)),
            forall|k: int| 0 <= k < i ==> resolved(#[trigger] cases@[k].handler, entries_view(specialized@), b, *initial),
        decreases cases@.len() - i,
    {
        let ghost s1 = specialized@;
        let ghost q1 = queue@;
        let ghost n1 = *next_id;
        let c = cases[i];
        assert(demand.contains(cases@[i as int].handler));
        let w = remap_value(c.handler, bindings, initial, specialized, queue, next_id, Ghost(demand));
        r.push(HandlerCase { effect_op: c.effect_op, handler: w });
        proof {
            let sa = entries_view(s1);
            let sb = entries_view(specialized@);
            lemma_grew_trans(
                entries_view(s0), sa, sb,
                queue_view(q0), queue_view(q1), queue_view(queue@),
                n0, n1, *next_id, b, *initial, demand, demand, demand,
            );
            assert forall|k: int| 0 <= k < i implies resolved(#[trigger] cases@[k].handler, sb, b, *initial)
                && remapped_value(cases@[k].handler, sb, b) == remapped_value(cases@[k].handler, sa, b) by {
                lemma_stable(cases@[k].handler, sa, sb, b, *initial);
            }
            assert(r@ =~= cases@.subrange(0, i + 1).map_values(|c: HandlerCase| remapped_case(c, sb, b)));
        }
        i = i + 1;
    }
    proof {
        assert(cases@.subrange(0, i as int) =~= cases@);
    }
    r
}

/// One value, then a vector of them, remapped.
fn remap_head_and_values(
    head: Value,
    values: &Vec<Value>,
    bindings: &Vec<Type>,
    initial: &Mir,
    specialized: &mut Vec<(DefinitionId, Vec<Type>, DefinitionId)>,
    queue: &mut Vec<(DefinitionId, DefinitionId, Vec<Type>)>,
    next_id: &mut DefinitionId,
    Ghost(demand): Ghost<Set<Value>>,
) -> (r: (Value, Vec<Value>))
    requires
        old(next_id).0 + 1 + values@.len() <= u32::MAX,
        demand.contains(head),
        forall|k: int| 0 <= k < values@.len() ==> demand.contains(#[trigger] values@[k]),
    ensures
        remapped_with(old(specialized)@, final(specialized)@, old(queue)@, final(queue)@, *old(next_id), *final(next_id), bindings@, *initial, demand),
        final(next_id).0 <= old(next_id).0 + 1 + values@.len(),
        r.0 == remapped_value(head, entries_view(final(specialized)@), types_view(bindings@)),
        r.1@ == remapped_values(values@, entries_view(final(specialized)@), types_view(bindings@)),
{
    let ghost s0 = specialized@;
    let ghost q0 = queue@;
    let ghost n0 = *next_id;
    let h = remap_value(head, bindings, initial, specialized, queue, next_id, Ghost(demand));
    let ghost s1 = specialized@;
    let ghost q1 = queue@;
    let ghost n1 = *next_id;
    let vs = remap_values(values, bindings, initial, specialized, queue, next_id, Ghost(demand));
    proof {
        let b = types_view(bindings@);
        lemma_stable(head, entries_view(s1), entries_view(specialized@), b, *initial);
        lemma_grew_trans(
            entries_view(s0), entries_view(s1), entries_view(specialized@),
            queue_view(q0), queue_view(q1), queue_view(queue@),
            n0, n1, *next_id, b, *initial, demand, demand, demand,
        );
    }
    (h, vs)
}

/// `instruction` with every value remapped ([remap_view]), consuming it.
fn remap_consumed(
    instruction: Instruction,
    bindings: &Vec<Type>,
    initial: &Mir,
    specialized: &mut Vec<(DefinitionId, Vec<Type>, DefinitionId)>,
    queue: &mut Vec<(DefinitionId, DefinitionId, Vec<Type>)>,
    next_id: &mut DefinitionId,
) -> (r: Instruction)
    requires
        old(next_id).0 + instruction_values(instruction@).len() <= u32::MAX,
    ensures
        remapped_with(old(specialized)@, final(specialized)@, old(queue)@, final(queue)@, *old(next_id), *final(next_id), bindings@, *initial, instruction_values(instruction@).to_set()),
        final(next_id).0 <= old(next_id).0 + instruction_values(instruction@).len(),
        r@ == remap_view(instruction@, entries_view(final(specialized)@), types_view(bindings@)),
{
    let ghost demand = instruction_values(instruction@).to_set();
    let ghost vals = instruction_values(instruction@);
    let ghost s0 = specialized@;
    let ghost q0 = queue@;
    let ghost n0 = *next_id;
    proof {
        lemma_grew_refl(entries_view(s0), queue_view(q0), n0, types_view(bindings@), *initial, demand);
        assert forall|k: int| 0 <= k < vals.len() implies demand.contains(#[trigger] vals[k]) by {
            assert(vals.contains(vals[k]));
        }
    }
    match instruction {
        Instruction::Call { function, arguments } => {
            proof {
                assert(vals[0] == function);
                assert forall|k: int| 0 <= k < arguments@.len() implies demand.contains(#[trigger] arguments@[k]) by {
                    assert(vals[k + 1] == arguments@[k]);
                }
            }
            let (f, args) = remap_head_and_values(function, &arguments, bindings, initial, specialized, queue, next_id, Ghost(demand));
            Instruction::Call { function: f, arguments: args }
        },
        Instruction::CallClosure { closure, arguments } => {
            proof {
                assert(vals[0] == closure);
                assert forall|k: int| 0 <= k < arguments@.len() implies demand.contains(#[trigger] arguments@[k]) by {
                    assert(vals[k + 1] == arguments@[k]);
                }
            }
            let (f, args) = remap_head_and_values(closure, &arguments, bindings, initial, specialized, queue, next_id, Ghost(demand));
            Instruction::CallClosure { closure: f, arguments: args }
        },
        Instruction::Perform { effect_op, arguments } => {
            let args = remap_values(&arguments, bindings, initial, specialized, queue, next_id, Ghost(demand));
            Instruction::Perform { effect_op, arguments: args }
        },
        Instruction::Handle { body, cases } => {
            proof {
                assert(vals[0] == body);
                assert forall|k: int| 0 <= k < cases@.len() implies demand.contains(#[trigger] cases@[k].handler) by {
                    assert(vals[k + 1] == cases@[k].handler);
                }
            }
            let ghost s1 = specialized@;
            let ghost q1 = queue@;
            let ghost n1 = *next_id;
            let new_body = remap_value(body, bindings, initial, specialized, queue, next_id, Ghost(demand));
            let ghost s2 = specialized@;
            let ghost q2 = queue@;
            let ghost n2 = *next_id;
            let new_cases = remap_cases(&cases, bindings, initial, specialized, queue, next_id, Ghost(demand));
            proof {
                let b = types_view(bindings@);
                lemma_stable(body, entries_view(s2), entries_view(specialized@), b, *initial);
                lemma_grew_trans(
                    entries_view(s1), entries_view(s2), entries_view(specialized@),
                    queue_view(q1), queue_view(q2), queue_view(queue@),
                    n1, n2, *next_id, b, *initial, demand, demand, demand,
                );
            }
            Instruction::Handle { body: new_body, cases: new_cases }
        },
        Instruction::PackClosure { function, environment } => {
            proof {
                assert(vals[0] == function);
                assert(vals[1] == environment);
            }
            let (f, e) = remap2(function, environment, bindings, initial, specialized, queue, next_id, Ghost(demand));
            Instruction::PackClosure { function: f, environment: e }
        },
        Instruction::IndexTuple { tuple, index } => {
            proof {
                assert(vals[0] == tuple);
            }
            Instruction::IndexTuple { tuple: remap_value(tuple, bindings, initial, specialized, queue, next_id, Ghost(demand)), index }
        },
        Instruction::MakeTuple(values) => Instruction::MakeTuple(remap_values(&values, bindings, initial, specialized, queue, next_id, Ghost(demand))),
        Instruction::MakeArray(values) => Instruction::MakeArray(remap_values(&values, bindings, initial, specialized, queue, next_id, Ghost(demand))),
        Instruction::Store { pointer, value } => {
            proof {
                assert(vals[0] == pointer);
                assert(vals[1] == value);
            }
            let (p, v) = remap2(pointer, value, bindings, initial, specialized, queue, next_id, Ghost(demand));
            Instruction::Store { pointer: p, value: v }
        },
        Instruction::GetFieldPtr { struct_ptr, struct_type, index } => {
            proof {
                assert(vals[0] == struct_ptr);
            }
            let p = remap_value(struct_ptr, bindings, initial, specialized, queue, next_id, Ghost(demand));
            Instruction::GetFieldPtr { struct_ptr: p, struct_type: struct_type.substitute(bindings), index }
        },
        Instruction::StackAllocUninit(t) => Instruction::StackAllocUninit(t.substitute(bindings)),
        Instruction::SizeOf(t) => Instruction::SizeOf(t.substitute(bindings)),
        Instruction::ArrayLen(t) => Instruction::ArrayLen(t.substitute(bindings)),
        Instruction::Capability => Instruction::Capability,
        Instruction::MakeBytes(bytes) => Instruction::MakeBytes(bytes),
        Instruction::Instantiate(id, bs) => Instruction::Instantiate(id, bs),
        Instruction::Extern(name) => Instruction::Extern(name),
        Instruction::AddInt(a, b) => {
            let (a, b) = remap2(a, b, bindings, initial, specialized, queue, next_id, Ghost(demand));
            Instruction::AddInt(a, b)
        },
        Instruction::AddFloat(a, b) => {
            let (a, b) = remap2(a, b, bindings, initial, specialized, queue, next_id, Ghost(demand));
            Instruction::AddFloat(a, b)
        },
        Instruction::SubInt(a, b) => {
            let (a, b) = remap2(a, b, bindings, initial, specialized, queue, next_id, Ghost(demand));
            Instruction::SubInt(a, b)
        },
        Instruction::SubFloat(a, b) => {
            let (a, b) = remap2(a, b, bindings, initial, specialized, queue, next_id, Ghost(demand));
            Instruction::SubFloat(a, b)
        },
        Instruction::MulInt(a, b) => {
            let (a, b) = remap2(a, b, bindings, initial, specialized, queue, next_id, Ghost(demand));
            Instruction::MulInt(a, b)
        },
        Instruction::MulFloat(a, b) => {
            let (a, b) = remap2(a, b, bindings, initial, specialized, queue, next_id, Ghost(demand));
            Instruction::MulFloat(a, b)
        },
        Instruction::DivSigned(a, b) => {
            let (a, b) = remap2(a, b, bindings, initial, specialized, queue, next_id, Ghost(demand));
            Instruction::DivSigned(a, b)
        },
        Instruction::DivUnsigned(a, b) => {
            let (a, b) = remap2(a, b, bindings, initial, specialized, queue, next_id, Ghost(demand));
            Instruction::DivUnsigned(a, b)
        },
        Instruction::DivFloat(a, b) => {
            let (a, b) = remap2(a, b, bindings, initial, specialized, queue, next_id, Ghost(demand));
            Instruction::DivFloat(a, b)
        },
        Instruction::ModSigned(a, b) => {
            let (a, b) = remap2(a, b, bindings, initial, specialized, queue, next_id, Ghost(demand));
            Instruction::ModSigned(a, b)
        },
        Instruction::ModUnsigned(a, b) => {
            let (a, b) = remap2(a, b, bindings, initial, specialized, queue, next_id, Ghost(demand));
            Instruction::ModUnsigned(a, b)
        },
        Instruction::ModFloat(a, b) => {
            let (a, b) = remap2(a, b, bindings, initial, specialized, queue, next_id, Ghost(demand));
            Instruction::ModFloat(a, b)
        },
        Instruction::LessSigned(a, b) => {
            let (a, b) = remap2(a, b, bindings, initial, specialized, queue, next_id, Ghost(demand));
            Instruction::LessSigned(a, b)
        },
        Instruction::LessUnsigned(a, b) => {
            let (a, b) = remap2(a, b, bindings, initial, specialized, queue, next_id, Ghost(demand));
            Instruction::LessUnsigned(a, b)
        },
        Instruction::LessFloat(a, b) => {
            let (a, b) = remap2(a, b, bindings, initial, specialized, queue, next_id, Ghost(demand));
            Instruction::LessFloat(a, b)
        },
        Instruction::EqInt(a, b) => {
            let (a, b) = remap2(a, b, bindings, initial, specialized, queue, next_id, Ghost(demand));
            Instruction::EqInt(a, b)
        },
        Instruction::EqFloat(a, b) => {
            let (a, b) = remap2(a, b, bindings, initial, specialized, queue, next_id, Ghost(demand));
            Instruction::EqFloat(a, b)
        },
        Instruction::BitwiseAnd(a, b) => {
            let (a, b) = remap2(a, b, bindings, initial, specialized, queue, next_id, Ghost(demand));
            Instruction::BitwiseAnd(a, b)
        },
        Instruction::BitwiseOr(a, b) => {
            let (a, b) = remap2(a, b, bindings, initial, specialized, queue, next_id, Ghost(demand));
            Instruction::BitwiseOr(a, b)
        },
        Instruction::BitwiseXor(a, b) => {
            let (a, b) = remap2(a, b, bindings, initial, specialized, queue, next_id, Ghost(demand));
            Instruction::BitwiseXor(a, b)
        },
        Instruction::StackAlloc(v) => Instruction::StackAlloc(remap_value(v, bindings, initial, specialized, queue, next_id, Ghost(demand))),
        Instruction::AllocShared(v) => Instruction::AllocShared(remap_value(v, bindings, initial, specialized, queue, next_id, Ghost(demand))),
        Instruction::Transmute(v) => Instruction::Transmute(remap_value(v, bindings, initial, specialized, queue, next_id, Ghost(demand))),
        Instruction::Id(v) => Instruction::Id(remap_value(v, bindings, initial, specialized, queue, next_id, Ghost(demand))),
        Instruction::BitwiseNot(v) => Instruction::BitwiseNot(remap_value(v, bindings, initial, specialized, queue, next_id, Ghost(demand))),
        Instruction::SignExtend(v) => Instruction::SignExtend(remap_value(v, bindings, initial, specialized, queue, next_id, Ghost(demand))),
        Instruction::ZeroExtend(v) => Instruction::ZeroExtend(remap_value(v, bindings, initial, specialized, queue, next_id, Ghost(demand))),
        Instruction::SignedToFloat(v) => Instruction::SignedToFloat(remap_value(v, bindings, initial, specialized, queue, next_id, Ghost(demand))),
        Instruction::UnsignedToFloat(v) => Instruction::UnsignedToFloat(remap_value(v, bindings, initial, specialized, queue, next_id, Ghost(demand))),
        Instruction::FloatToSigned(v) => Instruction::FloatToSigned(remap_value(v, bindings, initial, specialized, queue, next_id, Ghost(demand))),
        Instruction::FloatToUnsigned(v) => Instruction::FloatToUnsigned(remap_value(v, bindings, initial, specialized, queue, next_id, Ghost(demand))),
        Instruction::FloatPromote(v) => Instruction::FloatPromote(remap_value(v, bindings, initial, specialized, queue, next_id, Ghost(demand))),
        Instruction::FloatDemote(v) => Instruction::FloatDemote(remap_value(v, bindings, initial, specialized, queue, next_id, Ghost(demand))),
        Instruction::Truncate(v) => Instruction::Truncate(remap_value(v, bindings, initial, specialized, queue, next_id, Ghost(demand))),
        Instruction::Deref(v) => Instruction::Deref(remap_value(v, bindings, initial, specialized, queue, next_id, Ghost(demand))),
    }
}

/// Remaps every `Value::Definition` in `instruction` to its specialization at `bindings`: the
/// one in `specialized` where there is one; else, for a generic definition of `initial`, a new
/// specialization with the next id, which is added to `specialized` and queued; else the value
/// is left alone. The types the instruction holds are specialized by `bindings`; an
/// `Instantiate` is left as it is.
pub fn remap_definition_values_in_instruction(
    instruction: &mut Instruction,
    bindings: &Vec<Type>,
    initial: &Mir,
    specialized: &mut Vec<(DefinitionId, Vec<Type>, DefinitionId)>,
    queue: &mut Vec<(DefinitionId, DefinitionId, Vec<Type>)>,
    next_id: &mut DefinitionId,
)
    requires
        old(next_id).0 + instruction_values(old(instruction)@).len() <= u32::MAX,
        instruction_types_below(old(instruction)@, bindings@.len()),
    ensures
        final(instruction)@ == remap_view(old(instruction)@, entries_view(final(specialized)@), types_view(bindings@)),
        grew(
            entries_view(old(specialized)@),
            entries_view(final(specialized)@),
            queue_view(old(queue)@),
            queue_view(final(queue)@),
            *old(next_id),
            *final(next_id),
            types_view(bindings@),
            *initial,
            instruction_values(old(instruction)@).to_set(),
        ),
        final(next_id).0 <= old(next_id).0 + instruction_values(old(instruction)@).len(),
{
    let mut taken = Instruction::Capability;
    std::mem::swap(&mut taken, instruction);
    *instruction = remap_consumed(taken, bindings, initial, specialized, queue, next_id);
}


/// Every type of `ts` has its generics below `n`.
pub open spec fn all_below(ts: Seq<TypeView>, n: nat) -> bool {
    forall|k: int| 0 <= k < ts.len() ==> generics_below(#[trigger] ts[k], n)
}

/// Whether the generics of `t` are all below `n`.
fn check_generics_below(t: &Type, n: usize) -> (r: bool)
    ensures
        r == generics_below(t@, n as nat),
    decreases t,
{
    match t {
        Type::Generic(g) => (g.0 as usize) < n,
        Type::Tuple(elements) => {
            let r = check_all_below(elements, n);
            proof {
                lemma_all_generics_below(types_view(elements@), n as nat);
            }
            r
        },
        Type::Union(variants) => {
            let r = check_all_below(variants, n);
            proof {
                lemma_all_generics_below(types_view(variants@), n as nat);
            }
            r
        },
        Type::Function(f) => {
            let r = check_all_below(&f.parameters, n) && check_generics_below(&f.environment, n)
                && check_generics_below(&f.return_type, n);
            proof {
                lemma_all_generics_below(types_view(f.parameters@), n as nat);
            }
            r
        },
        Type::Array { length, element } => check_generics_below(length, n) && check_generics_below(element, n),
        _ => true,
    }
}

/// Whether the generics of every type of `ts` are below `n`.
fn check_all_below(ts: &Vec<Type>, n: usize) -> (r: bool)
    ensures
        r == all_below(types_view(ts@), n as nat),
    decreases ts,
{
    let mut i: usize = 0;
    while i < ts.len()
        invariant
            0 <= i <= ts@.len(),
            types_view(ts@).len() == ts@.len(),
            forall|k: int| 0 <= k < i ==> generics_below(#[trigger] types_view(ts@)[k], n as nat),
        decreases ts@.len() - i,
    {
        if !check_generics_below(&ts[i], n) {
            proof {
                assert(types_view(ts@)[i as int] == ts@[i as int]@);
            }
            return false;
        }
        proof {
            assert(types_view(ts@)[i as int] == ts@[i as int]@);
        }
        i = i + 1;
    }
    true
}

/// Substituting type arguments without generics for every generic of `t` leaves no generic.
pub proof fn lemma_substitute_generic_free(t: TypeView, args: Seq<TypeView>)
    requires
        generics_below(t, args.len()),
        all_below(args, 0),
    ensures
        generics_below(spec_substitute(t, args), 0),
    decreases t,
{
    match t {
        TypeView::Generic(g) => {
            assert(generics_below(args[g as int], 0));
        },
        TypeView::Tuple(elements) => {
            lemma_all_generics_below(elements, args.len());
            lemma_substitute_all_generic_free(elements, args);
            lemma_all_generics_below(spec_substitute_all(elements, args), 0);
        },
        TypeView::Union(variants) => {
            lemma_all_generics_below(variants, args.len());
            lemma_substitute_all_generic_free(variants, args);
            lemma_all_generics_below(spec_substitute_all(variants, args), 0);
        },
        TypeView::Function(f) => {
            lemma_all_generics_below(f.parameters, args.len());
            lemma_substitute_all_generic_free(f.parameters, args);
            lemma_all_generics_below(spec_substitute_all(f.parameters, args), 0);
            lemma_substitute_generic_free(f.environment, args);
            lemma_substitute_generic_free(f.return_type, args);
        },
        TypeView::Array(length, element) => {
            lemma_substitute_generic_free(*length, args);
            lemma_substitute_generic_free(*element, args);
        },
        _ => {},
    }
}

pub proof fn lemma_substitute_all_generic_free(s: Seq<TypeView>, args: Seq<TypeView>)
    requires
        all_below(s, args.len()),
        all_below(args, 0),
    ensures
        all_below(spec_substitute_all(s, args), 0),
    decreases s,
{
    crate::mir::substitute::lemma_substitute_all(s, args);
    assert forall|k: int| 0 <= k < s.len() implies generics_below(#[trigger] spec_substitute_all(s, args)[k], 0) by {
        assert(decreases_to!(s => s[k]));
        lemma_substitute_generic_free(s[k], args);
    }
}


/// Whether the types an instruction holds, its `Instantiate` type arguments among them, have their
/// generics below `n`, and an `Instantiate` has type arguments at all.
pub open spec fn instruction_checks_out(i: InstructionView, n: nat) -> bool {
    &&& instruction_types_below(i, n)
    &&& i matches InstructionView::Instantiate(_, bs) ==> bs.len() > 0 && all_below(bs, n)
}

/// Whether every type of `d`'s body has its generics below `n` and each `Instantiate` has type
/// arguments.
pub open spec fn body_checks_out(d: Definition, n: nat) -> bool {
    &&& all_below(types_view(d.instruction_result_types@), n)
    &&& forall|b: int| 0 <= b < d.blocks@.len() ==> all_below(types_view(#[trigger] d.blocks@[b].parameter_types@), n)
    &&& forall|k: int| 0 <= k < d.instructions@.len() ==> instruction_checks_out(#[trigger] d.instructions@[k]@, n)
}

/// Whether `d`'s body holds no generic type and no `Instantiate`.
pub open spec fn body_generic_free(d: Definition) -> bool {
    &&& all_below(types_view(d.instruction_result_types@), 0)
    &&& forall|b: int| 0 <= b < d.blocks@.len() ==> all_below(types_view(#[trigger] d.blocks@[b].parameter_types@), 0)
    &&& forall|k: int|
        0 <= k < d.instructions@.len() ==> !(#[trigger] d.instructions@[k]@ is Instantiate) && instruction_types_below(
            d.instructions@[k]@,
            0,
        )
}

/// Every specialization in the table is at type arguments without generics.
pub open spec fn entries_generic_free(s: Seq<(DefinitionId, Seq<TypeView>, DefinitionId)>) -> bool {
    forall|i: int| 0 <= i < s.len() ==> all_below(#[trigger] s[i].1, 0)
}

/// The key under which an instantiation at `bs` is specialized inside a definition specialized
/// at `mapping`: `bs` itself, or `bs` with `mapping` substituted in.
pub open spec fn key_bindings(bs: Seq<TypeView>, mapping: Seq<TypeView>) -> Seq<TypeView> {
    if mapping.len() == 0 {
        bs
    } else {
        spec_substitute_all(bs, mapping)
    }
}

/// `ts` specialized at `mapping` (left alone where `mapping` is empty).
pub open spec fn specialize_types(ts: Seq<TypeView>, mapping: Seq<TypeView>) -> Seq<TypeView> {
    if mapping.len() == 0 {
        ts
    } else {
        spec_substitute_all(ts, mapping)
    }
}

/// `new` is `old` specialized at `mapping` through the first `j` entries of the table `s`: an
/// `Instantiate` becomes the id of its specialization; with a non-empty `mapping` any other
/// instruction is remapped ([remap_view]); with an empty one it is left alone.
pub open spec fn instruction_done(
    old: InstructionView,
    new: InstructionView,
    mapping: Seq<TypeView>,
    s: Seq<(DefinitionId, Seq<TypeView>, DefinitionId)>,
    j: int,
) -> bool {
    match old {
        InstructionView::Instantiate(d, bs) => lookup(s.subrange(0, j), d, key_bindings(bs, mapping)) matches Some(n)
            && new == InstructionView::Id(Value::Definition(n)),
        _ => if mapping.len() == 0 {
            new == old
        } else {
            new == remap_view(old, s.subrange(0, j), mapping)
        },
    }
}

/// `new` is `old` specialized at `mapping` through the table as it stood at some point.
pub open spec fn instruction_specialized(
    old: InstructionView,
    new: InstructionView,
    mapping: Seq<TypeView>,
    s: Seq<(DefinitionId, Seq<TypeView>, DefinitionId)>,
) -> bool {
    exists|j: int| 0 <= j <= s.len() && #[trigger] instruction_done(old, new, mapping, s, j)
}

/// `b` is the terminator `a`, where `a` has one.
pub open spec fn terminator_kept(a: Option<TerminatorInstruction>, b: Option<TerminatorInstruction>) -> bool {
    match a {
        Some(t) => b matches Some(u) && same_terminator(t, u),
        None => b is None,
    }
}

/// `new` is the block `old` with its parameter types specialized at `mapping`.
pub open spec fn block_specialized(old: Block, new: Block, mapping: Seq<TypeView>) -> bool {
    &&& new.instructions@ == old.instructions@
    &&& terminator_kept(old.terminator, new.terminator)
    &&& types_view(new.parameter_types@) == specialize_types(types_view(old.parameter_types@), mapping)
}

/// The body of `new` (blocks, instructions, result types) is that of `old` specialized at
/// `mapping` through the table `s`.
pub open spec fn body_specialized(
    old: Definition,
    new: Definition,
    mapping: Seq<TypeView>,
    s: Seq<(DefinitionId, Seq<TypeView>, DefinitionId)>,
) -> bool {
    &&& types_view(new.instruction_result_types@) == specialize_types(types_view(old.instruction_result_types@), mapping)
    &&& new.blocks@.len() == old.blocks@.len()
    &&& forall|b: int| 0 <= b < old.blocks@.len() ==> block_specialized(old.blocks@[b], #[trigger] new.blocks@[b], mapping)
    &&& new.instructions@.len() == old.instructions@.len()
    &&& forall|k: int|
        0 <= k < old.instructions@.len() ==> instruction_specialized(
            old.instructions@[k]@,
            #[trigger] new.instructions@[k]@,
            mapping,
            s,
        )
}

/// `new` is `old` with its body specialized at `mapping` through the table `s`; its id, name,
/// type and generic count are those of `old`.
pub open spec fn definition_specialized(
    old: Definition,
    new: Definition,
    mapping: Seq<TypeView>,
    s: Seq<(DefinitionId, Seq<TypeView>, DefinitionId)>,
) -> bool {
    &&& new.id == old.id
    &&& new.name == old.name
    &&& new.typ == old.typ
    &&& new.generic_count == old.generic_count
    &&& body_specialized(old, new, mapping, s)
}

/// Entry `i` of the table, the `i - s_len`th new one, has the id `next + (i - s_len)`, is queued
/// at the same position after `q_len`, and no earlier entry has its key.
pub open spec fn new_entry(
    s: Seq<(DefinitionId, Seq<TypeView>, DefinitionId)>,
    q: Seq<(DefinitionId, DefinitionId, Seq<TypeView>)>,
    i: int,
    s_len: int,
    q_len: int,
    next: DefinitionId,
) -> bool {
    &&& s[i].2.0 == next.0 + (i - s_len)
    &&& q[q_len + (i - s_len)] == (s[i].0, s[i].2, s[i].1)
    &&& lookup(s.subrange(0, i), s[i].0, s[i].1) is None
}

/// The table and the queue grew by new specializations, each with the next unused id, queued in
/// the order they were made.
pub open spec fn table_grew(
    old_s: Seq<(DefinitionId, Seq<TypeView>, DefinitionId)>,
    new_s: Seq<(DefinitionId, Seq<TypeView>, DefinitionId)>,
    old_q: Seq<(DefinitionId, DefinitionId, Seq<TypeView>)>,
    new_q: Seq<(DefinitionId, DefinitionId, Seq<TypeView>)>,
    old_next: DefinitionId,
    new_next: DefinitionId,
) -> bool {
    &&& old_s.len() <= new_s.len()
    &&& new_s.subrange(0, old_s.len() as int) == old_s
    &&& old_next.0 <= new_next.0
    &&& new_s.len() - old_s.len() == new_next.0 - old_next.0
    &&& new_q.len() == old_q.len() + (new_s.len() - old_s.len())
    &&& new_q.subrange(0, old_q.len() as int) == old_q
    &&& forall|i: int|
        old_s.len() <= i < new_s.len() ==> #[trigger] new_entry(
            new_s,
            new_q,
            i,
            old_s.len() as int,
            old_q.len() as int,
            old_next,
        )
}

proof fn lemma_grew_table(
    old_s: Seq<(DefinitionId, Seq<TypeView>, DefinitionId)>,
    new_s: Seq<(DefinitionId, Seq<TypeView>, DefinitionId)>,
    old_q: Seq<(DefinitionId, DefinitionId, Seq<TypeView>)>,
    new_q: Seq<(DefinitionId, DefinitionId, Seq<TypeView>)>,
    old_next: DefinitionId,
    new_next: DefinitionId,
    b: Seq<TypeView>,
    initial: Mir,
    demand: Set<Value>,
)
    requires
        grew(old_s, new_s, old_q, new_q, old_next, new_next, b, initial, demand),
    ensures
        table_grew(old_s, new_s, old_q, new_q, old_next, new_next),
        forall|i: int| old_s.len() <= i < new_s.len() ==> #[trigger] new_s[i].1 == b,
        forall|i: int|
            old_s.len() <= i < new_s.len() ==> is_generic_in(initial, (#[trigger] new_s[i]).0) && demand.contains(
                Value::Definition(new_s[i].0),
            ),
{
    assert forall|i: int| old_s.len() <= i < new_s.len() implies #[trigger] new_entry(
        new_s,
        new_q,
        i,
        old_s.len() as int,
        old_q.len() as int,
        old_next,
    ) by {
        assert(fresh_at(new_s, i, b, initial));
        assert(fresh_entry(new_s, new_q, i, old_s.len() as int, old_q.len() as int, old_next, demand));
    }
    assert forall|i: int| old_s.len() <= i < new_s.len() implies #[trigger] new_s[i].1 == b by {
        assert(fresh_at(new_s, i, b, initial));
    }
    assert forall|i: int| old_s.len() <= i < new_s.len() implies is_generic_in(initial, (#[trigger] new_s[i]).0) && demand.contains(
        Value::Definition(new_s[i].0),
    ) by {
        assert(fresh_at(new_s, i, b, initial));
        assert(fresh_entry(new_s, new_q, i, old_s.len() as int, old_q.len() as int, old_next, demand));
    }
}

proof fn lemma_table_trans(
    s1: Seq<(DefinitionId, Seq<TypeView>, DefinitionId)>,
    s2: Seq<(DefinitionId, Seq<TypeView>, DefinitionId)>,
    s3: Seq<(DefinitionId, Seq<TypeView>, DefinitionId)>,
    q1: Seq<(DefinitionId, DefinitionId, Seq<TypeView>)>,
    q2: Seq<(DefinitionId, DefinitionId, Seq<TypeView>)>,
    q3: Seq<(DefinitionId, DefinitionId, Seq<TypeView>)>,
    n1: DefinitionId,
    n2: DefinitionId,
    n3: DefinitionId,
)
    requires
        table_grew(s1, s2, q1, q2, n1, n2),
        table_grew(s2, s3, q2, q3, n2, n3),
    ensures
        table_grew(s1, s3, q1, q3, n1, n3),
{
    assert(s3.subrange(0, s1.len() as int) =~= s2.subrange(0, s1.len() as int));
    assert(q3.subrange(0, q1.len() as int) =~= q2.subrange(0, q1.len() as int));
    assert forall|i: int| s1.len() <= i < s3.len() implies #[trigger] new_entry(
        s3,
        q3,
        i,
        s1.len() as int,
        q1.len() as int,
        n1,
    ) by {
        if i < s2.len() {
            assert(new_entry(s2, q2, i, s1.len() as int, q1.len() as int, n1));
            assert(s3[i] == s2[i]);
            assert(s3.subrange(0, i) =~= s2.subrange(0, i));
            assert(q3[q1.len() + (i - s1.len())] == q2[q1.len() + (i - s1.len())]);
        } else {
            assert(new_entry(s3, q3, i, s2.len() as int, q2.len() as int, n2));
        }
    }
}

proof fn lemma_table_refl(
    s: Seq<(DefinitionId, Seq<TypeView>, DefinitionId)>,
    q: Seq<(DefinitionId, DefinitionId, Seq<TypeView>)>,
    n: DefinitionId,
)
    ensures
        table_grew(s, s, q, q, n, n),
{
    assert(s.subrange(0, s.len() as int) =~= s);
    assert(q.subrange(0, q.len() as int) =~= q);
}

/// A specialization through the table stays one as the table grows.
proof fn lemma_specialized_stable(
    old: InstructionView,
    new: InstructionView,
    mapping: Seq<TypeView>,
    s1: Seq<(DefinitionId, Seq<TypeView>, DefinitionId)>,
    s2: Seq<(DefinitionId, Seq<TypeView>, DefinitionId)>,
)
    requires
        s1.len() <= s2.len(),
        s2.subrange(0, s1.len() as int) == s1,
        instruction_specialized(old, new, mapping, s1),
    ensures
        instruction_specialized(old, new, mapping, s2),
{
    let j = choose|j: int| 0 <= j <= s1.len() && #[trigger] instruction_done(old, new, mapping, s1, j);
    assert(s2.subrange(0, j) =~= s1.subrange(0, j));
    assert(instruction_done(old, new, mapping, s2, j));
}

/// Whether every type of the body of `d` has its generics below `n` and each `Instantiate` has
/// type arguments ([body_checks_out]).
fn check_body(d: &Definition, n: usize) -> (r: bool)
    ensures
        r == body_checks_out(*d, n as nat),
{
    if !check_all_below(&d.instruction_result_types, n) {
        return false;
    }
    let mut b: usize = 0;
    while b < d.blocks.len()
        invariant
            0 <= b <= d.blocks@.len(),
            forall|k: int| 0 <= k < b ==> all_below(types_view(#[trigger] d.blocks@[k].parameter_types@), n as nat),
        decreases d.blocks@.len() - b,
    {
        if !check_all_below(&d.blocks[b].parameter_types, n) {
            assert(!all_below(types_view(d.blocks@[b as int].parameter_types@), n as nat));
            return false;
        }
        b = b + 1;
    }
    let mut k: usize = 0;
    while k < d.instructions.len()
        invariant
            0 <= k <= d.instructions@.len(),
            forall|j: int| 0 <= j < k ==> instruction_checks_out(#[trigger] d.instructions@[j]@, n as nat),
        decreases d.instructions@.len() - k,
    {
        let ok = match &d.instructions[k] {
            Instruction::StackAllocUninit(t) => check_generics_below(t, n),
            Instruction::GetFieldPtr { struct_type, .. } => check_generics_below(struct_type, n),
            Instruction::SizeOf(t) => check_generics_below(t, n),
            Instruction::ArrayLen(t) => check_generics_below(t, n),
            Instruction::Instantiate(_, bs) => bs.len() > 0 && check_all_below(bs, n),
            _ => true,
        };
        assert(ok == instruction_checks_out(d.instructions@[k as int]@, n as nat));
        if !ok {
            return false;
        }
        k = k + 1;
    }
    true
}


proof fn lemma_remap_generic_free(i: InstructionView, s: Seq<(DefinitionId, Seq<TypeView>, DefinitionId)>, b: Seq<TypeView>)
    requires
        instruction_types_below(i, b.len()),
        all_below(b, 0),
        !(i is Instantiate),
    ensures
        instruction_types_below(remap_view(i, s, b), 0),
        !(remap_view(i, s, b) is Instantiate),
{
    match i {
        InstructionView::StackAllocUninit(t) => lemma_substitute_generic_free(t, b),
        InstructionView::GetFieldPtr { struct_type, .. } => lemma_substitute_generic_free(struct_type, b),
        InstructionView::SizeOf(t) => lemma_substitute_generic_free(t, b),
        InstructionView::ArrayLen(t) => lemma_substitute_generic_free(t, b),
        _ => {},
    }
}

/// The specialization of `d` at the key `key`: the one the table has, or a new one with the next
/// id, added to the table and queued.
fn specialization_of(
    d: DefinitionId,
    key: Vec<Type>,
    specialized: &mut Vec<(DefinitionId, Vec<Type>, DefinitionId)>,
    queue: &mut Vec<(DefinitionId, DefinitionId, Vec<Type>)>,
    next_id: &mut DefinitionId,
) -> (r: DefinitionId)
    requires
        old(next_id).0 < u32::MAX,
    ensures
        table_grew(
            entries_view(old(specialized)@),
            entries_view(final(specialized)@),
            queue_view(old(queue)@),
            queue_view(final(queue)@),
            *old(next_id),
            *final(next_id),
        ),
        forall|i: int|
            old(specialized)@.len() <= i < final(specialized)@.len() ==> #[trigger] entries_view(final(specialized)@)[i].1
                == types_view(key@) && entries_view(final(specialized)@)[i].0 == d,
        lookup(entries_view(final(specialized)@), d, types_view(key@)) == Some(r),
{
    let ghost s0 = entries_view(specialized@);
    let ghost q0 = queue_view(queue@);
    let ghost k = types_view(key@);
    match find_specialized(specialized, d, &key) {
        Some(n) => {
            proof {
                lemma_table_refl(s0, q0, *next_id);
            }
            n
        },
        None => {
            let n = *next_id;
            *next_id = DefinitionId(n.0 + 1);
            let key2 = clone_types(&key);
            specialized.push((d, key, n));
            queue.push((d, n, key2));
            proof {
                let s1 = entries_view(specialized@);
                let q1 = queue_view(queue@);
                assert(s1 =~= s0.push((d, k, n)));
                assert(q1 =~= q0.push((d, n, k)));
                assert(s1.drop_last() =~= s0);
                assert(s1.subrange(0, s0.len() as int) =~= s0);
                assert(q1.subrange(0, q0.len() as int) =~= q0);
                assert(new_entry(s1, q1, s0.len() as int, s0.len() as int, q0.len() as int, n));
            }
            n
        },
    }
}

/// Instruction `i` of a definition specialized at `m` needs the specialization of `g` at `bb`:
/// it instantiates `g` at what `bb` is made of, or, with a non-empty `m`, it uses the generic
/// definition `g` directly and `bb` is `m`.
pub open spec fn instruction_demands(i: InstructionView, m: Seq<TypeView>, initial: Mir, g: DefinitionId, bb: Seq<TypeView>) -> bool {
    match i {
        InstructionView::Instantiate(x, bs) => g == x && bb == key_bindings(bs, m),
        _ => m.len() > 0 && bb == m && is_generic_in(initial, g) && instruction_values(i).contains(Value::Definition(g)),
    }
}

/// Some instruction of `d`, specialized at `m`, needs the specialization of `g` at `bb`.
pub open spec fn demanded_by(d: Definition, m: Seq<TypeView>, initial: Mir, g: DefinitionId, bb: Seq<TypeView>) -> bool {
    exists|k: int| 0 <= k < d.instructions@.len() && #[trigger] instruction_demands(d.instructions@[k]@, m, initial, g, bb)
}

/// Specializes the body of `definition` at `mapping` (the type arguments of the definition it was
/// copied from, or none for a definition that is not generic): with a non-empty `mapping` its
/// types are specialized and every instruction but an `Instantiate` is remapped
/// ([remap_definition_values_in_instruction]); each `Instantiate` becomes the id of the
/// specialization of its definition at its (specialized) type arguments, made and queued if the
/// table has none. Returns `false`, leaving the definition part done, where a type of the body has
/// a generic that `mapping` does not bind or an `Instantiate` has no type arguments, or where the
/// ids run out; then nothing is promised of the definition.
pub fn monomorphize_definition(
    definition: &mut Definition,
    mapping: &Vec<Type>,
    initial: &Mir,
    specialized: &mut Vec<(DefinitionId, Vec<Type>, DefinitionId)>,
    queue: &mut Vec<(DefinitionId, DefinitionId, Vec<Type>)>,
    next_id: &mut DefinitionId,
) -> (ok: bool)
    requires
        all_below(types_view(mapping@), 0),
        entries_generic_free(entries_view(old(specialized)@)),
    ensures
        entries_generic_free(entries_view(final(specialized)@)),
        table_grew(
            entries_view(old(specialized)@),
            entries_view(final(specialized)@),
            queue_view(old(queue)@),
            queue_view(final(queue)@),
            *old(next_id),
            *final(next_id),
        ),
        forall|i: int|
            old(specialized)@.len() <= i < final(specialized)@.len() ==> demanded_by(
                *old(definition),
                types_view(mapping@),
                *initial,
                (#[trigger] entries_view(final(specialized)@)[i]).0,
                entries_view(final(specialized)@)[i].1,
            ),
        ok ==> body_checks_out(*old(definition), mapping@.len()),
        ok ==> definition_specialized(
            *old(definition),
            *final(definition),
            types_view(mapping@),
            entries_view(final(specialized)@),
        ),
        ok ==> body_generic_free(*final(definition)),
        !ok ==> !body_checks_out(*old(definition), mapping@.len()) || exists|k: int|
            0 <= k < old(definition).instructions@.len() && final(next_id).0 + instruction_values(
                #[trigger] old(definition).instructions@[k]@,
            ).len() + 1 > u32::MAX,
{
    let ghost d0 = *definition;
    let ghost s0 = entries_view(specialized@);
    let ghost q0 = queue_view(queue@);
    let ghost n0 = *next_id;
    let ghost b = types_view(mapping@);
    proof {
        lemma_table_refl(s0, q0, n0);
    }
    if !check_body(definition, mapping.len()) {
        return false;
    }
    if mapping.len() > 0 {
        let result_types = substitute_all(&definition.instruction_result_types, mapping);
        definition.instruction_result_types = result_types;
        let mut bi: usize = 0;
        while bi < definition.blocks.len()
            invariant
                0 <= bi <= definition.blocks@.len(),
                b == types_view(mapping@),
                specialized@ == old(specialized)@,
                queue@ == old(queue)@,
                *next_id == *old(next_id),
                s0 == entries_view(old(specialized)@),
                q0 == queue_view(old(queue)@),
                n0 == *old(next_id),
                d0 == *old(definition),
                b.len() > 0,
                definition.blocks@.len() == d0.blocks@.len(),
                definition.id == d0.id,
                definition.name == d0.name,
                definition.typ == d0.typ,
                definition.generic_count == d0.generic_count,
                definition.instructions == d0.instructions,
                types_view(definition.instruction_result_types@) == spec_substitute_all(types_view(d0.instruction_result_types@), b),
                forall|k: int| 0 <= k < bi ==> block_specialized(d0.blocks@[k], #[trigger] definition.blocks@[k], b),
                forall|k: int| bi <= k < definition.blocks@.len() ==> #[trigger] definition.blocks@[k] == d0.blocks@[k],
            decreases definition.blocks@.len() - bi,
        {
            let mut blk = Block::new(Vec::new());
            std::mem::swap(&mut blk, &mut definition.blocks[bi]);
            let params = substitute_all(&blk.parameter_types, mapping);
            blk.parameter_types = params;
            std::mem::swap(&mut blk, &mut definition.blocks[bi]);
            bi = bi + 1;
        }
    }
    let ghost d1 = *definition;
    proof {
        if b.len() > 0 {
            lemma_substitute_all_generic_free(types_view(d0.instruction_result_types@), b);
            assert forall|k: int| 0 <= k < d1.blocks@.len() implies all_below(types_view(#[trigger] d1.blocks@[k].parameter_types@), 0) by {
                assert(block_specialized(d0.blocks@[k], d1.blocks@[k], b));
                assert(all_below(types_view(d0.blocks@[k].parameter_types@), b.len()));
                lemma_substitute_all_generic_free(types_view(d0.blocks@[k].parameter_types@), b);
            }
        } else {
            assert forall|k: int| 0 <= k < d1.blocks@.len() implies block_specialized(d0.blocks@[k], #[trigger] d1.blocks@[k], b) by {}
        }
    }
    let mut i: usize = 0;
    while i < definition.instructions.len()
        invariant
            0 <= i <= definition.instructions@.len(),
            b == types_view(mapping@),
            s0 == entries_view(old(specialized)@),
            q0 == queue_view(old(queue)@),
            n0 == *old(next_id),
            d0 == *old(definition),
            all_below(b, 0),
            body_checks_out(d0, b.len()),
            definition.instructions@.len() == d0.instructions@.len(),
            definition.blocks == d1.blocks,
            definition.instruction_result_types == d1.instruction_result_types,
            definition.id == d0.id,
            definition.name == d0.name,
            definition.typ == d0.typ,
            definition.generic_count == d0.generic_count,
            entries_generic_free(entries_view(specialized@)),
            table_grew(s0, entries_view(specialized@), q0, queue_view(queue@), n0, *next_id),
            forall|j: int|
                s0.len() <= j < specialized@.len() ==> demanded_by(
                    d0,
                    b,
                    *initial,
                    (#[trigger] entries_view(specialized@)[j]).0,
                    entries_view(specialized@)[j].1,
                ),
            forall|k: int|
                0 <= k < i ==> instruction_specialized(
                    d0.instructions@[k]@,
                    #[trigger] definition.instructions@[k]@,
                    b,
                    entries_view(specialized@),
                ),
            forall|k: int|
                0 <= k < i ==> !(#[trigger] definition.instructions@[k]@ is Instantiate) && instruction_types_below(
                    definition.instructions@[k]@,
                    0,
                ),
            forall|k: int| i <= k < definition.instructions@.len() ==> #[trigger] definition.instructions@[k] == d0.instructions@[k],
        decreases definition.instructions@.len() - i,
    {
        let count = definition.instructions[i].for_each_value().len();
        if count as u64 >= (0xffff_ffffu32 - next_id.0) as u64 {
            proof {
                assert(definition.instructions@[i as int] == d0.instructions@[i as int]);
            }
            return false;
        }
        let ghost sa = entries_view(specialized@);
        let ghost qa = queue_view(queue@);
        let ghost na = *next_id;
        let ghost old_i = d0.instructions@[i as int]@;
        proof {
            assert(instruction_checks_out(old_i, b.len()));
        }
        let target = match &definition.instructions[i] {
            Instruction::Instantiate(id, bs) => {
                let key = if mapping.len() == 0 {
                    clone_types(bs)
                } else {
                    substitute_all(bs, mapping)
                };
                proof {
                    let bsv = types_view(bs@);
                    assert(types_view(key@) == key_bindings(bsv, b));
                    if b.len() > 0 {
                        lemma_substitute_all_generic_free(bsv, b);
                    }
                }
                let ghost kv = types_view(key@);
                proof {
                    assert(sa.len() == specialized@.len());
                }
                let n = specialization_of(*id, key, specialized, queue, next_id);
                proof {
                    let sb = entries_view(specialized@);
                    assert(sb.subrange(0, sb.len() as int) =~= sb);
                    assert(instruction_done(old_i, InstructionView::Id(Value::Definition(n)), b, sb, sb.len() as int));
                    assert(instruction_demands(d0.instructions@[i as int]@, b, *initial, *id, kv));
                    assert forall|j: int| s0.len() <= j < sb.len() implies demanded_by(d0, b, *initial, (#[trigger] sb[j]).0, sb[j].1) by {
                        if j >= sa.len() {
                            assert(entries_view(specialized@)[j].1 == kv && entries_view(specialized@)[j].0 == *id);
                            assert(instruction_demands(d0.instructions@[i as int]@, b, *initial, sb[j].0, sb[j].1));
                        } else {
                            assert(sb.subrange(0, sa.len() as int)[j] == sb[j]);
                            assert(sa[j] == sb[j]);
                        }
                    }
                    assert forall|j: int| 0 <= j < sb.len() implies all_below(#[trigger] sb[j].1, 0) by {
                        if j >= sa.len() {
                            assert(sb[j].1 == kv);
                        } else {
                            assert(sb.subrange(0, sa.len() as int)[j] == sb[j]);
                        }
                    }
                }
                Some(n)
            },
            _ => None,
        };
        match target {
            Some(n) => {
                definition.instructions.set(i, Instruction::Id(Value::Definition(n)));
            },
            None => {
                if mapping.len() > 0 {
                    let mut taken = Instruction::Capability;
                    std::mem::swap(&mut taken, &mut definition.instructions[i]);
                    let remapped = remap_consumed(taken, mapping, initial, specialized, queue, next_id);
                    definition.instructions.set(i, remapped);
                    proof {
                        let sb = entries_view(specialized@);
                        lemma_grew_table(sa, sb, qa, queue_view(queue@), na, *next_id, b, *initial, instruction_values(old_i).to_set());
                        assert(sb.subrange(0, sb.len() as int) =~= sb);
                        assert(instruction_done(old_i, remapped@, b, sb, sb.len() as int));
                        lemma_remap_generic_free(old_i, sb, b);
                        assert forall|j: int| s0.len() <= j < sb.len() implies demanded_by(d0, b, *initial, (#[trigger] sb[j]).0, sb[j].1) by {
                            if j >= sa.len() {
                                assert(instruction_values(old_i).to_set().contains(Value::Definition(sb[j].0)));
                                assert(instruction_demands(d0.instructions@[i as int]@, b, *initial, sb[j].0, sb[j].1));
                            } else {
                                assert(sb.subrange(0, sa.len() as int)[j] == sb[j]);
                                assert(sa[j] == sb[j]);
                            }
                        }
                        assert forall|j: int| 0 <= j < sb.len() implies all_below(#[trigger] sb[j].1, 0) by {
                            if j >= sa.len() {
                                assert(sb[j].1 == b);
                            } else {
                                assert(sb.subrange(0, sa.len() as int)[j] == sb[j]);
                            }
                        }
                    }
                } else {
                    proof {
                        lemma_table_refl(sa, qa, na);
                        assert(instruction_done(old_i, old_i, b, sa, 0));
                    }
                }
            },
        }
        proof {
            let sb = entries_view(specialized@);
            lemma_table_trans(s0, sa, sb, q0, qa, queue_view(queue@), n0, na, *next_id);
            assert forall|k: int| 0 <= k < i implies instruction_specialized(
                d0.instructions@[k]@,
                #[trigger] definition.instructions@[k]@,
                b,
                sb,
            ) by {
                lemma_specialized_stable(d0.instructions@[k]@, definition.instructions@[k]@, b, sa, sb);
            }
            assert(instruction_specialized(d0.instructions@[i as int]@, definition.instructions@[i as int]@, b, sb));
        }
        i = i + 1;
    }
    true
}


proof fn lemma_same_terminator_trans(a: TerminatorInstruction, b: TerminatorInstruction, c: TerminatorInstruction)
    requires
        same_terminator(a, b),
        same_terminator(b, c),
    ensures
        same_terminator(a, c),
{
}

/// A body specialized from a copy of `orig` is specialized from `orig`.
proof fn lemma_body_transfer(
    orig: Definition,
    copy: Definition,
    new: Definition,
    mapping: Seq<TypeView>,
    s: Seq<(DefinitionId, Seq<TypeView>, DefinitionId)>,
)
    requires
        same_body(orig, copy),
        body_specialized(copy, new, mapping, s),
    ensures
        body_specialized(orig, new, mapping, s),
{
    assert forall|b: int| 0 <= b < orig.blocks@.len() implies block_specialized(orig.blocks@[b], #[trigger] new.blocks@[b], mapping) by {
        assert(block_specialized(copy.blocks@[b], new.blocks@[b], mapping));
        if let Some(t) = orig.blocks@[b].terminator {
            lemma_same_terminator_trans(t, copy.blocks@[b].terminator->0, new.blocks@[b].terminator->0);
        }
    }
    assert forall|k: int| 0 <= k < orig.instructions@.len() implies instruction_specialized(
        orig.instructions@[k]@,
        #[trigger] new.instructions@[k]@,
        mapping,
        s,
    ) by {
        assert(instruction_specialized(copy.instructions@[k]@, new.instructions@[k]@, mapping, s));
    }
}

/// A specialized body stays one as the table grows.
proof fn lemma_body_stable(
    old: Definition,
    new: Definition,
    mapping: Seq<TypeView>,
    s1: Seq<(DefinitionId, Seq<TypeView>, DefinitionId)>,
    s2: Seq<(DefinitionId, Seq<TypeView>, DefinitionId)>,
)
    requires
        s1.len() <= s2.len(),
        s2.subrange(0, s1.len() as int) == s1,
        body_specialized(old, new, mapping, s1),
    ensures
        body_specialized(old, new, mapping, s2),
{
    assert forall|k: int| 0 <= k < old.instructions@.len() implies instruction_specialized(
        old.instructions@[k]@,
        #[trigger] new.instructions@[k]@,
        mapping,
        s2,
    ) by {
        lemma_specialized_stable(old.instructions@[k]@, new.instructions@[k]@, mapping, s1, s2);
    }
}

/// Whether `d` is where monomorphization starts: a definition that is not generic, or `main`.
pub open spec fn is_entry_point(d: Definition) -> bool {
    d.generic_count == 0 || d.name@ == "main"@
}

/// The type arguments a specialization `e` of `orig` is built with: none where `orig` is not
/// generic, else those of `e`.
pub open spec fn mapping_of(orig: Definition, e: (DefinitionId, Seq<TypeView>, DefinitionId)) -> Seq<TypeView> {
    if orig.generic_count == 0 {
        Seq::empty()
    } else {
        e.1
    }
}

/// `new` is the specialization `e` of `orig`: a copy under the id `e.2`, generic count zero
/// (unless it is an entry point, which keeps its own), its type and body specialized at
/// [mapping_of] through the table `s`.
pub open spec fn produced(
    orig: Definition,
    new: Definition,
    e: (DefinitionId, Seq<TypeView>, DefinitionId),
    entry_point: bool,
    s: Seq<(DefinitionId, Seq<TypeView>, DefinitionId)>,
) -> bool {
    &&& new.id == e.2
    &&& new.name == orig.name
    &&& new.generic_count == (if entry_point {
        orig.generic_count
    } else {
        0
    })
    &&& new.typ@ == (if mapping_of(orig, e).len() == 0 {
        orig.typ@
    } else {
        spec_substitute(orig.typ@, mapping_of(orig, e))
    })
    &&& body_specialized(orig, new, mapping_of(orig, e), s)
}

/// `m` is the monomorphization of `initial` through the table `s`, whose first `k` entries are
/// the entry points: every entry point of `initial` is specialized under its own id with no type
/// arguments, and `m` holds exactly the specializations of the table, each [produced] from its
/// definition in `initial`.
pub open spec fn mono_table(initial: Mir, s: Seq<(DefinitionId, Seq<TypeView>, DefinitionId)>, k: int, m: Mir) -> bool {
    &&& 0 <= k <= s.len()
    &&& forall|i: int|
        0 <= i < k ==> (#[trigger] s[i]).0 == s[i].2 && s[i].1.len() == 0 && initial.definitions@.contains_key(s[i].0)
            && is_entry_point(initial.definitions@[s[i].0])
    &&& forall|d: DefinitionId|
        #![trigger initial.definitions@[d]]
        initial.definitions@.contains_key(d) && is_entry_point(initial.definitions@[d]) ==> exists|i: int|
            0 <= i < k && #[trigger] s[i] == (d, Seq::<TypeView>::empty(), d)
    &&& forall|i: int|
        0 <= i < s.len() ==> initial.definitions@.contains_key((#[trigger] s[i]).0) && m.definitions@.contains_key(s[i].2)
            && produced(initial.definitions@[s[i].0], m.definitions@[s[i].2], s[i], i < k, s)
    &&& forall|id: DefinitionId| #[trigger] m.definitions@.contains_key(id) ==> exists|i: int| 0 <= i < s.len() && (#[trigger] s[i]).2 == id
}

/// `m` is a monomorphization of `initial` through some table of specializations ([mono_table]).
pub open spec fn is_monomorphization(initial: Mir, m: Mir) -> bool {
    exists|s: Seq<(DefinitionId, Seq<TypeView>, DefinitionId)>, k: int| #[trigger] mono_table(initial, s, k, m)
}

/// Whether the whole of `d` (its type and its body) is free of generic types and of
/// `Instantiate`s.
pub open spec fn definition_generic_free(d: Definition) -> bool {
    generics_below(d.typ@, 0) && body_generic_free(d)
}


/// The specialization `e` of the table `s` can be built from `initial`: its definition is there,
/// its body's types and its own type use only generics its type arguments bind, and every
/// specialization that the body needs is in `s`.
pub open spec fn closed_entry_ok(initial: Mir, s: Seq<(DefinitionId, Seq<TypeView>, DefinitionId)>, e: (DefinitionId, Seq<TypeView>, DefinitionId)) -> bool {
    let orig = initial.definitions@[e.0];
    let m = mapping_of(orig, e);
    &&& initial.definitions@.contains_key(e.0)
    &&& body_checks_out(orig, m.len())
    &&& generics_below(orig.typ@, m.len())
    &&& forall|k: int, g: DefinitionId, bb: Seq<TypeView>|
        0 <= k < orig.instructions@.len() && #[trigger] instruction_demands(orig.instructions@[k]@, m, initial, g, bb) ==> lookup(
            s,
            g,
            bb,
        ) is Some
}

/// `s` is a set of specializations that monomorphizing `initial` cannot leave: it holds every
/// entry point, each of its specializations can be built and needs only specializations in `s`,
/// and the ids past those `initial` mentions suffice for all of them.
pub open spec fn mono_closed(initial: Mir, s: Seq<(DefinitionId, Seq<TypeView>, DefinitionId)>) -> bool {
    &&& !crate::mir::program::mentions(initial, DefinitionId(u32::MAX))
    &&& forall|d: DefinitionId|
        #![trigger initial.definitions@[d]]
        initial.definitions@.contains_key(d) && is_entry_point(initial.definitions@[d]) ==> lookup(s, d, Seq::empty()) is Some
    &&& forall|i: int| 0 <= i < s.len() ==> closed_entry_ok(initial, s, #[trigger] s[i])
    &&& forall|x: DefinitionId, d: DefinitionId, k: int|
        #![trigger crate::mir::program::mentions(initial, x), initial.definitions@[d].instructions@[k]]
        crate::mir::program::mentions(initial, x) && initial.definitions@.contains_key(d) && 0 <= k
            < initial.definitions@[d].instructions@.len() ==> x.0 + s.len() + instruction_values(
            initial.definitions@[d].instructions@[k]@,
        ).len() + 2 <= u32::MAX
}

/// Monomorphizing `initial` reaches only finitely many specializations, all of which can be
/// built, and the ids suffice for them ([mono_closed]).
pub open spec fn monomorphizable(initial: Mir) -> bool {
    exists|s: Seq<(DefinitionId, Seq<TypeView>, DefinitionId)>| #[trigger] mono_closed(initial, s)
}

/// No two entries of `s` have the same key.
pub open spec fn keys_distinct(s: Seq<(DefinitionId, Seq<TypeView>, DefinitionId)>) -> bool {
    forall|i: int, j: int| 0 <= i < j < s.len() ==> !((#[trigger] s[i]).0 == (#[trigger] s[j]).0 && s[i].1 == s[j].1)
}

/// Every key of `t` is a key of `sc`.
pub open spec fn keys_within(t: Seq<(DefinitionId, Seq<TypeView>, DefinitionId)>, sc: Seq<(DefinitionId, Seq<TypeView>, DefinitionId)>) -> bool {
    forall|i: int| 0 <= i < t.len() ==> lookup(sc, (#[trigger] t[i]).0, t[i].1) is Some
}

proof fn lemma_lookup_some_index(s: Seq<(DefinitionId, Seq<TypeView>, DefinitionId)>, g: DefinitionId, b: Seq<TypeView>)
    requires
        lookup(s, g, b) is Some,
    ensures
        exists|i: int| 0 <= i < s.len() && (#[trigger] s[i]).0 == g && s[i].1 == b,
    decreases s.len(),
{
    if lookup(s.drop_last(), g, b) is Some {
        lemma_lookup_some_index(s.drop_last(), g, b);
        let i = choose|i: int| 0 <= i < s.drop_last().len() && (#[trigger] s.drop_last()[i]).0 == g && s.drop_last()[i].1 == b;
        assert(s[i] == s.drop_last()[i]);
    } else {
        assert(s[s.len() - 1] == s.last());
    }
}

proof fn lemma_lookup_none_absent(s: Seq<(DefinitionId, Seq<TypeView>, DefinitionId)>, g: DefinitionId, b: Seq<TypeView>)
    requires
        lookup(s, g, b) is None,
    ensures
        forall|i: int| 0 <= i < s.len() ==> !((#[trigger] s[i]).0 == g && s[i].1 == b),
    decreases s.len(),
{
    if s.len() > 0 {
        lemma_lookup_none_absent(s.drop_last(), g, b);
        assert forall|i: int| 0 <= i < s.len() implies !((#[trigger] s[i]).0 == g && s[i].1 == b) by {
            if i < s.len() - 1 {
                assert(s[i] == s.drop_last()[i]);
            }
        }
    }
}

/// A table with distinct keys, all of which are keys of `sc`, is no longer than `sc`.
proof fn lemma_keys_bound(t: Seq<(DefinitionId, Seq<TypeView>, DefinitionId)>, sc: Seq<(DefinitionId, Seq<TypeView>, DefinitionId)>)
    requires
        keys_distinct(t),
        keys_within(t, sc),
    ensures
        t.len() <= sc.len(),
{
    let kt = t.map_values(|e: (DefinitionId, Seq<TypeView>, DefinitionId)| (e.0, e.1));
    let ks = sc.map_values(|e: (DefinitionId, Seq<TypeView>, DefinitionId)| (e.0, e.1));
    assert forall|i: int, j: int| 0 <= i < j < kt.len() implies kt[i] != kt[j] by {
        assert(!(t[i].0 == t[j].0 && t[i].1 == t[j].1));
    }
    assert(kt.no_duplicates());
    kt.unique_seq_to_set();
    assert forall|p: (DefinitionId, Seq<TypeView>)| kt.to_set().contains(p) implies ks.to_set().contains(p) by {
        let i = choose|i: int| 0 <= i < kt.len() && kt[i] == p;
        assert(lookup(sc, t[i].0, t[i].1) is Some);
        lemma_lookup_some_index(sc, t[i].0, t[i].1);
        let j = choose|j: int| 0 <= j < sc.len() && (#[trigger] sc[j]).0 == t[i].0 && sc[j].1 == t[i].1;
        assert(ks[j] == p);
    }
    vstd::set_lib::lemma_len_subset(kt.to_set(), ks.to_set());
    ks.lemma_cardinality_of_set();
}

/// A grown table keeps its keys distinct.
proof fn lemma_distinct_grows(
    sa: Seq<(DefinitionId, Seq<TypeView>, DefinitionId)>,
    sb: Seq<(DefinitionId, Seq<TypeView>, DefinitionId)>,
    qa: Seq<(DefinitionId, DefinitionId, Seq<TypeView>)>,
    qb: Seq<(DefinitionId, DefinitionId, Seq<TypeView>)>,
    na: DefinitionId,
    nb: DefinitionId,
)
    requires
        keys_distinct(sa),
        table_grew(sa, sb, qa, qb, na, nb),
    ensures
        keys_distinct(sb),
{
    assert forall|i: int, j: int| 0 <= i < j < sb.len() implies !((#[trigger] sb[i]).0 == (#[trigger] sb[j]).0 && sb[i].1 == sb[j].1) by {
        if j < sa.len() {
            assert(sb.subrange(0, sa.len() as int)[i] == sb[i]);
            assert(sb.subrange(0, sa.len() as int)[j] == sb[j]);
        } else {
            assert(new_entry(sb, qb, j, sa.len() as int, qa.len() as int, na));
            lemma_lookup_none_absent(sb.subrange(0, j), sb[j].0, sb[j].1);
            assert(sb.subrange(0, j)[i] == sb[i]);
        }
    }
}

/// The new specializations that building an entry `e` of a closed table makes stay within it.
proof fn lemma_new_entries_closed(
    initial: Mir,
    sc: Seq<(DefinitionId, Seq<TypeView>, DefinitionId)>,
    e: (DefinitionId, Seq<TypeView>, DefinitionId),
    copy: Definition,
    sa: Seq<(DefinitionId, Seq<TypeView>, DefinitionId)>,
    sb: Seq<(DefinitionId, Seq<TypeView>, DefinitionId)>,
)
    requires
        mono_closed(initial, sc),
        lookup(sc, e.0, e.1) is Some,
        initial.definitions@.contains_key(e.0),
        same_body(initial.definitions@[e.0], copy),
        keys_within(sa, sc),
        sa.len() <= sb.len(),
        sb.subrange(0, sa.len() as int) == sa,
        forall|j: int|
            sa.len() <= j < sb.len() ==> demanded_by(
                copy,
                mapping_of(initial.definitions@[e.0], e),
                initial,
                (#[trigger] sb[j]).0,
                sb[j].1,
            ),
    ensures
        keys_within(sb, sc),
{
    let orig = initial.definitions@[e.0];
    let m = mapping_of(orig, e);
    lemma_lookup_some_index(sc, e.0, e.1);
    let idx = choose|i: int| 0 <= i < sc.len() && (#[trigger] sc[i]).0 == e.0 && sc[i].1 == e.1;
    assert(closed_entry_ok(initial, sc, sc[idx]));
    assert(mapping_of(orig, sc[idx]) == m);
    assert forall|j: int| 0 <= j < sb.len() implies lookup(sc, (#[trigger] sb[j]).0, sb[j].1) is Some by {
        if j < sa.len() {
            assert(sb.subrange(0, sa.len() as int)[j] == sb[j]);
            assert(sa[j] == sb[j]);
        } else {
            assert(demanded_by(copy, m, initial, sb[j].0, sb[j].1));
            let k = choose|k: int| 0 <= k < copy.instructions@.len() && #[trigger] instruction_demands(copy.instructions@[k]@, m, initial, sb[j].0, sb[j].1);
            assert(copy.instructions@[k]@ == orig.instructions@[k]@);
            assert(instruction_demands(orig.instructions@[k]@, m, initial, sb[j].0, sb[j].1));
        }
    }
}

/// The body checks of a copy are those of the original.
proof fn lemma_checks_of_copy(orig: Definition, copy: Definition, n: nat)
    requires
        same_body(orig, copy),
    ensures
        body_checks_out(copy, n) == body_checks_out(orig, n),
{
    assert forall|b: int| 0 <= b < copy.blocks@.len() implies types_view(#[trigger] copy.blocks@[b].parameter_types@) == types_view(orig.blocks@[b].parameter_types@) by {
        assert(crate::mir::definition::same_block(orig.blocks@[b], copy.blocks@[b]));
    }
    assert forall|k: int| 0 <= k < copy.instructions@.len() implies (#[trigger] copy.instructions@[k])@ == orig.instructions@[k]@ by {}
    if body_checks_out(orig, n) {
        assert forall|b: int| 0 <= b < copy.blocks@.len() implies all_below(types_view(#[trigger] copy.blocks@[b].parameter_types@), n) by {
            assert(types_view(copy.blocks@[b].parameter_types@) == types_view(orig.blocks@[b].parameter_types@));
        }
        assert forall|k: int| 0 <= k < copy.instructions@.len() implies instruction_checks_out(#[trigger] copy.instructions@[k]@, n) by {
            assert(copy.instructions@[k]@ == orig.instructions@[k]@);
        }
    }
    if body_checks_out(copy, n) {
        assert forall|b: int| 0 <= b < orig.blocks@.len() implies all_below(types_view(#[trigger] orig.blocks@[b].parameter_types@), n) by {
            assert(types_view(copy.blocks@[b].parameter_types@) == types_view(orig.blocks@[b].parameter_types@));
        }
        assert forall|k: int| 0 <= k < orig.instructions@.len() implies instruction_checks_out(#[trigger] orig.instructions@[k]@, n) by {
            assert(copy.instructions@[k]@ == orig.instructions@[k]@);
        }
    }
}

/// With a closed table `sc` no longer than the table built so far, the ids left suffice for any
/// instruction of a definition of `initial`.
proof fn lemma_ids_suffice(
    initial: Mir,
    sc: Seq<(DefinitionId, Seq<TypeView>, DefinitionId)>,
    d: DefinitionId,
    n0: DefinitionId,
    next: DefinitionId,
    made: int,
)
    requires
        mono_closed(initial, sc),
        initial.definitions@.contains_key(d),
        n0.0 == 0 || crate::mir::program::mentions(initial, DefinitionId((n0.0 - 1) as u32)),
        forall|x: DefinitionId| crate::mir::program::mentions(initial, x) ==> x.0 < n0.0,
        next.0 <= n0.0 + made,
        made <= sc.len(),
    ensures
        forall|k: int|
            0 <= k < initial.definitions@[d].instructions@.len() ==> next.0 + instruction_values(
                #[trigger] initial.definitions@[d].instructions@[k]@,
            ).len() + 1 <= u32::MAX,
{
    assert(crate::mir::program::mentions(initial, d));
    let x = DefinitionId((n0.0 - 1) as u32);
    assert forall|k: int|
        0 <= k < initial.definitions@[d].instructions@.len() implies next.0 + instruction_values(
            #[trigger] initial.definitions@[d].instructions@[k]@,
        ).len() + 1 <= u32::MAX by {
        assert(crate::mir::program::mentions(initial, x));
        assert(x.0 + sc.len() + instruction_values(initial.definitions@[d].instructions@[k]@).len() + 2 <= u32::MAX);
    }
}

/// The entry points of `initial`, each as the specialization of itself with no type arguments,
/// in the table and in the queue.
fn entry_points(initial: &Mir, n0: DefinitionId) -> (r: (
    Vec<(DefinitionId, Vec<Type>, DefinitionId)>,
    Vec<(DefinitionId, DefinitionId, Vec<Type>)>,
))
    requires
        forall|x: DefinitionId| crate::mir::program::mentions(*initial, x) ==> x.0 < n0.0,
    ensures
        r.0@.len() == r.1@.len(),
        forall|j: int|
            0 <= j < r.0@.len() ==> (#[trigger] entries_view(r.0@)[j]).0 == entries_view(r.0@)[j].2
                && entries_view(r.0@)[j].1.len() == 0 && initial.definitions@.contains_key(entries_view(r.0@)[j].0)
                && is_entry_point(initial.definitions@[entries_view(r.0@)[j].0])
                && entries_view(r.0@)[j].2.0 < n0.0
                && queue_view(r.1@)[j] == (entries_view(r.0@)[j].0, entries_view(r.0@)[j].2, entries_view(r.0@)[j].1),
        forall|j1: int, j2: int|
            0 <= j1 < j2 < r.0@.len() ==> (#[trigger] entries_view(r.0@)[j1]).0 != (#[trigger] entries_view(r.0@)[j2]).0,
        forall|d: DefinitionId|
            #![trigger initial.definitions@[d]]
            initial.definitions@.contains_key(d) && is_entry_point(initial.definitions@[d]) ==> exists|x: int|
                0 <= x < r.0@.len() && #[trigger] entries_view(r.0@)[x] == (d, Seq::<TypeView>::empty(), d),
{
    let keys = fx_map_keys(&initial.definitions);
    let main = String::from_str("main");
    let mut specialized: Vec<(DefinitionId, Vec<Type>, DefinitionId)> = Vec::new();
    let mut queue: Vec<(DefinitionId, DefinitionId, Vec<Type>)> = Vec::new();
    let ghost defs = initial.definitions@;
    let mut i: usize = 0;
    while i < keys.len()
        invariant
            0 <= i <= keys@.len(),
            defs == initial.definitions@,
            keys@.to_set() == defs.dom(),
            main@ == "main"@,
            keys@.no_duplicates(),
            forall|x: DefinitionId| crate::mir::program::mentions(*initial, x) ==> x.0 < n0.0,
            specialized@.len() == queue@.len(),
            forall|j: int| 0 <= j < specialized@.len() ==> exists|x: int| 0 <= x < i && #[trigger] keys@[x] == (#[trigger] entries_view(specialized@)[j]).0,
            forall|j1: int, j2: int|
                0 <= j1 < j2 < specialized@.len() ==> (#[trigger] entries_view(specialized@)[j1]).0 != (#[trigger] entries_view(specialized@)[j2]).0,
            forall|j: int|
                0 <= j < specialized@.len() ==> (#[trigger] entries_view(specialized@)[j]).0 == entries_view(specialized@)[j].2
                    && entries_view(specialized@)[j].1.len() == 0 && defs.contains_key(entries_view(specialized@)[j].0)
                    && is_entry_point(defs[entries_view(specialized@)[j].0])
                    && entries_view(specialized@)[j].2.0 < n0.0
                    && queue_view(queue@)[j] == (entries_view(specialized@)[j].0, entries_view(specialized@)[j].2, entries_view(specialized@)[j].1),
            forall|j: int|
                0 <= j < i && is_entry_point(defs[#[trigger] keys@[j]]) ==> exists|x: int|
                    0 <= x < specialized@.len() && #[trigger] entries_view(specialized@)[x] == (keys@[j], Seq::<TypeView>::empty(), keys@[j]),
        decreases keys@.len() - i,
    {
        let k = keys[i];
        proof {
            assert(keys@.to_set().contains(k));
        }
        let def = fx_map_get(&initial.definitions, k).unwrap();
        if def.is_monomorphic() || *def.name == main {
            let ghost s0 = entries_view(specialized@);
            let ghost q0 = queue_view(queue@);
            proof {
                assert(defs.contains_key(k));
                assert(crate::mir::program::mentions(*initial, k));
                assert(is_entry_point(defs[k]));
                assert forall|j: int| 0 <= j < s0.len() implies (#[trigger] s0[j]).0 != k by {
                    let x = choose|x: int| 0 <= x < i && #[trigger] keys@[x] == s0[j].0;
                }
            }
            specialized.push((k, Vec::new(), k));
            queue.push((k, k, Vec::new()));
            proof {
                let s1 = entries_view(specialized@);
                let q1 = queue_view(queue@);
                assert(s1 =~= s0.push((k, Seq::<TypeView>::empty(), k)));
                assert(q1 =~= q0.push((k, k, Seq::<TypeView>::empty())));
                assert(s1[s0.len() as int] == (k, Seq::<TypeView>::empty(), k));
                assert forall|j: int| 0 <= j < i && is_entry_point(defs[#[trigger] keys@[j]]) implies exists|x: int|
                    0 <= x < s1.len() && #[trigger] s1[x] == (keys@[j], Seq::<TypeView>::empty(), keys@[j]) by {
                    let x = choose|x: int| 0 <= x < s0.len() && #[trigger] s0[x] == (keys@[j], Seq::<TypeView>::empty(), keys@[j]);
                    assert(s1[x] == s0[x]);
                }
            }
        } else {
            proof {
                assert(!is_entry_point(defs[keys@[i as int]]));
            }
        }
        i = i + 1;
    }
    proof {
        assert forall|d: DefinitionId|
            #![trigger initial.definitions@[d]]
            initial.definitions@.contains_key(d) && is_entry_point(initial.definitions@[d]) implies exists|x: int|
                0 <= x < specialized@.len() && #[trigger] entries_view(specialized@)[x] == (d, Seq::<TypeView>::empty(), d) by {
            assert(keys@.to_set().contains(d));
            let j = choose|j: int| 0 <= j < keys@.len() && keys@[j] == d;
            assert(is_entry_point(defs[keys@[j]]));
        }
    }
    (specialized, queue)
}

/// Monomorphizes the program `initial`: starting from its entry points (the definitions that
/// are not generic, and `main`), every specialization that a definition reaches, through an
/// `Instantiate` or a direct reference between generic definitions, is built once, with fresh
/// ids past those `initial` mentions. On success no definition of the result holds a generic
/// type or an `Instantiate`. `None` where a type of a definition to build has a generic its type
/// arguments do not bind, an `Instantiate` has no type arguments, a queued definition is not in
/// `initial`, or the ids run out.
#[verifier::rlimit(80)]
pub fn monomorphize(initial: &Mir) -> (r: Option<Mir>)
    ensures
        r matches Some(m) ==> forall|id: DefinitionId| #[trigger] m.definitions@.contains_key(id) ==> definition_generic_free(
            m.definitions@[id],
        ),
        r matches Some(m) ==> is_monomorphization(*initial, m),
        r matches Some(m) ==> m.externals@.dom().is_empty() && m.preserved_op_indices@.dom().is_empty(),
        monomorphizable(*initial) ==> r is Some,
{
    let ghost closed = monomorphizable(*initial);
    let ghost sc = choose|s: Seq<(DefinitionId, Seq<TypeView>, DefinitionId)>| mono_closed(*initial, s);
    let n0 = match initial.next_free_id() {
        Some(n) => n,
        None => {
            proof {
                if closed {
                    assert(mono_closed(*initial, sc));
                }
            }
            return None;
        },
    };
    let (mut specialized, mut queue) = entry_points(initial, n0);
    let ghost defs = initial.definitions@;
    let ghost seed_s = entries_view(specialized@);
    let ghost seed_q = queue_view(queue@);
    let seeds = specialized.len();
    let mut next_id = n0;
    let mut finished: DefinitionMap<Definition> = fx_map_new();
    proof {
        lemma_table_refl(seed_s, seed_q, n0);
        assert(entries_generic_free(seed_s));
        assert(keys_distinct(seed_s));
        if closed {
            assert(mono_closed(*initial, sc));
            assert forall|i: int| 0 <= i < seed_s.len() implies lookup(sc, (#[trigger] seed_s[i]).0, seed_s[i].1) is Some by {
                let d = seed_s[i].0;
                assert(initial.definitions@.contains_key(d) && is_entry_point(initial.definitions@[d]));
                assert(seed_s[i].1 =~= Seq::<TypeView>::empty());
            }
            assert(keys_within(seed_s, sc));
        }
    }
    let mut c: usize = 0;
    while c < queue.len()
        invariant
            0 <= seeds <= c <= queue@.len() || 0 <= c <= seeds <= queue@.len(),
            seeds == seed_s.len(),
            defs == initial.definitions@,
            forall|x: DefinitionId| crate::mir::program::mentions(*initial, x) ==> x.0 < n0.0,
            specialized@.len() == queue@.len(),
            table_grew(seed_s, entries_view(specialized@), seed_q, queue_view(queue@), n0, next_id),
            entries_generic_free(entries_view(specialized@)),
            forall|j: int|
                0 <= j < seeds ==> (#[trigger] seed_s[j]).0 == seed_s[j].2 && seed_s[j].1.len() == 0 && defs.contains_key(seed_s[j].0)
                    && is_entry_point(defs[seed_s[j].0]) && seed_s[j].2.0 < n0.0
                    && seed_q[j] == (seed_s[j].0, seed_s[j].2, seed_s[j].1),
            forall|j1: int, j2: int| 0 <= j1 < j2 < seeds ==> (#[trigger] seed_s[j1]).0 != (#[trigger] seed_s[j2]).0,
            forall|d: DefinitionId|
                #![trigger initial.definitions@[d]]
                initial.definitions@.contains_key(d) && is_entry_point(initial.definitions@[d]) ==> exists|x: int|
                    0 <= x < seeds && #[trigger] seed_s[x] == (d, Seq::<TypeView>::empty(), d),
            forall|j: int|
                0 <= j < c ==> defs.contains_key((#[trigger] entries_view(specialized@)[j]).0) && finished@.contains_key(entries_view(specialized@)[j].2)
                    && produced(defs[entries_view(specialized@)[j].0], finished@[entries_view(specialized@)[j].2], entries_view(specialized@)[j], j < seeds, entries_view(specialized@)),
            forall|id: DefinitionId| #[trigger] finished@.contains_key(id) ==> exists|j: int| 0 <= j < c && (#[trigger] entries_view(specialized@)[j]).2 == id,
            forall|id: DefinitionId| #[trigger] finished@.contains_key(id) ==> definition_generic_free(finished@[id]),
            closed == monomorphizable(*initial),
            closed ==> mono_closed(*initial, sc),
            closed ==> keys_within(entries_view(specialized@), sc),
            keys_distinct(entries_view(specialized@)),
            n0.0 == 0 || crate::mir::program::mentions(*initial, DefinitionId((n0.0 - 1) as u32)),
        decreases 0xffff_ffffu32 - next_id.0, queue@.len() - c,
    {
        let ghost sa = entries_view(specialized@);
        let ghost qa = queue_view(queue@);
        let ghost na = next_id;
        let old_id = queue[c].0;
        let new_id = queue[c].1;
        let bindings = clone_types(&queue[c].2);
        proof {
            // The queue mirrors the table: the seeds, then the new specializations.
            if c < seeds {
                assert(sa.subrange(0, seeds as int)[c as int] == sa[c as int]);
                assert(qa.subrange(0, seeds as int)[c as int] == qa[c as int]);
            } else {
                assert(new_entry(sa, qa, c as int, seeds as int, seeds as int, n0));
            }
            assert(qa[c as int] == (sa[c as int].0, sa[c as int].2, sa[c as int].1));
            assert(all_below(sa[c as int].1, 0));
        }
        let ghost e = sa[c as int];
        let orig = match fx_map_get(&initial.definitions, old_id) {
            Some(d) => d,
            None => {
                proof {
                    if closed {
                        assert(lookup(sc, e.0, e.1) is Some);
                        lemma_lookup_some_index(sc, e.0, e.1);
                        let idx = choose|i: int| 0 <= i < sc.len() && (#[trigger] sc[i]).0 == e.0 && sc[i].1 == e.1;
                        assert(closed_entry_ok(*initial, sc, sc[idx]));
                    }
                }
                return None;
            },
        };
        let mapping = if orig.is_monomorphic() {
            Vec::new()
        } else {
            bindings
        };
        let mut def = orig.clone_with_id(new_id);
        if c >= seeds {
            def.generic_count = 0;
        }
        proof {
            assert(types_view(mapping@) == mapping_of(*orig, e));
        }
        if !check_generics_below(&def.typ, mapping.len()) {
            proof {
                if closed {
                    assert(lookup(sc, e.0, e.1) is Some);
                    lemma_lookup_some_index(sc, e.0, e.1);
                    let idx = choose|i: int| 0 <= i < sc.len() && (#[trigger] sc[i]).0 == e.0 && sc[i].1 == e.1;
                    assert(closed_entry_ok(*initial, sc, sc[idx]));
                    assert(mapping_of(*orig, sc[idx]) == mapping_of(*orig, e));
                }
            }
            return None;
        }
        if mapping.len() > 0 {
            let t = def.typ.substitute(&mapping);
            def.typ = t;
        }
        let ghost copy = def;
        let ok = monomorphize_definition(&mut def, &mapping, initial, &mut specialized, &mut queue, &mut next_id);
        proof {
            let sb = entries_view(specialized@);
            assert(same_body(*orig, copy));
            lemma_distinct_grows(sa, sb, qa, queue_view(queue@), na, next_id);
            if closed {
                assert(lookup(sc, e.0, e.1) is Some);
                lemma_new_entries_closed(*initial, sc, e, copy, sa, sb);
            }
        }
        if !ok {
            proof {
                if closed {
                    let sb = entries_view(specialized@);
                    lemma_lookup_some_index(sc, e.0, e.1);
                    let idx = choose|i: int| 0 <= i < sc.len() && (#[trigger] sc[i]).0 == e.0 && sc[i].1 == e.1;
                    assert(closed_entry_ok(*initial, sc, sc[idx]));
                    assert(mapping_of(*orig, sc[idx]) == mapping_of(*orig, e));
                    lemma_checks_of_copy(*orig, copy, mapping@.len() as nat);
                    lemma_keys_bound(sb, sc);
                    lemma_table_trans(seed_s, sa, sb, seed_q, qa, queue_view(queue@), n0, na, next_id);
                    lemma_ids_suffice(*initial, sc, old_id, n0, next_id, sb.len() as int, );
                    assert forall|k: int| 0 <= k < copy.instructions@.len() implies next_id.0 + instruction_values(
                        #[trigger] copy.instructions@[k]@,
                    ).len() + 1 <= u32::MAX by {
                        assert(copy.instructions@[k]@ == orig.instructions@[k]@);
                    }
                }
            }
            return None;
        }
        proof {
            let sb = entries_view(specialized@);
            let e = sa[c as int];
            assert(types_view(mapping@) == mapping_of(*orig, e));
            assert(same_body(*orig, copy));
            lemma_body_transfer(*orig, copy, def, types_view(mapping@), sb);
            if mapping@.len() > 0 {
                lemma_substitute_generic_free(orig.typ@, types_view(mapping@));
            }
            lemma_table_trans(seed_s, sa, sb, seed_q, qa, queue_view(queue@), n0, na, next_id);
        }
        let ghost before = finished@;
        fx_map_insert(&mut finished, new_id, def);
        proof {
            let sb = entries_view(specialized@);
            assert(sb.subrange(0, sa.len() as int) == sa);
            // Ids of distinct entries differ: the seeds' lie below `n0`, the new ones count up from it.
            assert forall|j: int| 0 <= j < c implies (#[trigger] sb[j]).2 != new_id by {
                assert(sb[j] == sa[j]);
                if j < seeds {
                    assert(sa.subrange(0, seeds as int)[j] == sa[j]);
                }
                if c >= seeds {
                    assert(new_entry(sa, qa, c as int, seeds as int, seeds as int, n0));
                    if j >= seeds {
                        assert(new_entry(sa, qa, j, seeds as int, seeds as int, n0));
                    }
                } else {
                    assert(sa.subrange(0, seeds as int)[c as int] == sa[c as int]);
                    assert(sa.subrange(0, seeds as int)[j] == sa[j]);
                    assert(seed_s[j].0 != seed_s[c as int].0);
                }
            }
            assert forall|j: int|
                0 <= j < c + 1 implies defs.contains_key((#[trigger] sb[j]).0) && finished@.contains_key(sb[j].2)
                    && produced(defs[sb[j].0], finished@[sb[j].2], sb[j], j < seeds, sb) by {
                assert(sb[j] == sa[j]);
                if j < c {
                    lemma_body_stable(defs[sa[j].0], before[sa[j].2], mapping_of(defs[sa[j].0], sa[j]), sa, sb);
                }
            }
            assert forall|id: DefinitionId| #[trigger] finished@.contains_key(id) implies exists|j: int|
                0 <= j < c + 1 && (#[trigger] sb[j]).2 == id by {
                if id == new_id {
                    assert(sb[c as int].2 == id);
                } else {
                    let j = choose|j: int| 0 <= j < c && (#[trigger] sa[j]).2 == id;
                    assert(sb[j] == sa[j]);
                }
            }
        }
        c = c + 1;
    }
    let m = Mir { definitions: finished, externals: fx_map_new(), preserved_op_indices: fx_map_new() };
    proof {
        let s = entries_view(specialized@);
        assert(s.subrange(0, seeds as int) == seed_s);
        assert forall|j: int| 0 <= j < seeds implies (#[trigger] s[j]).0 == s[j].2 && s[j].1.len() == 0
            && initial.definitions@.contains_key(s[j].0) && is_entry_point(initial.definitions@[s[j].0]) by {
            assert(s.subrange(0, seeds as int)[j] == s[j]);
        }
        assert forall|d: DefinitionId|
            #![trigger initial.definitions@[d]]
            initial.definitions@.contains_key(d) && is_entry_point(initial.definitions@[d]) implies exists|x: int|
                0 <= x < seeds && #[trigger] s[x] == (d, Seq::<TypeView>::empty(), d) by {
            let x = choose|x: int| 0 <= x < seeds && #[trigger] seed_s[x] == (d, Seq::<TypeView>::empty(), d);
            assert(s.subrange(0, seeds as int)[x] == s[x]);
        }
        assert(mono_table(*initial, s, seeds as int, m));
        assert(is_monomorphization(*initial, m));
    }
    Some(m)
}

} // verus!
