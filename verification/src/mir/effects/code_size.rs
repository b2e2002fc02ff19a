//! How many instructions the code that moves values through a coroutine's channel takes, so
//! that lowering can tell beforehand whether a definition has room for it.
use crate::mir::effects::channel::{pop_code, pop_fields_code, push_code, push_fields_code};
use crate::mir::effects::lowering::{is_zero_sized, spec_is_zero_sized};
use crate::mir::types::{Type, TypeView, lemma_types_view, types_view};
use crate::mir::values::Value;
use vstd::prelude::*;

verus! {

broadcast use lemma_types_view;

/// The largest size this module counts exactly; larger sizes are reported as this.
pub open spec fn size_cap() -> nat {
    u32::MAX as nat
}

/// `x`, or [size_cap] where `x` is larger.
pub open spec fn capped(x: nat) -> nat {
    if x < size_cap() {
        x
    } else {
        size_cap()
    }
}

/// How many instructions pushing a value of type `t` takes.
pub open spec fn push_len(t: TypeView) -> nat
    decreases t, 0int,
{
    if spec_is_zero_sized(t) {
        0
    } else {
        match t {
            TypeView::Tuple(fields) => push_fields_len(fields, 0),
            _ => 4,
        }
    }
}

/// How many instructions pushing the fields of a tuple from field `i` on takes.
pub open spec fn push_fields_len(fields: Seq<TypeView>, i: int) -> nat
    decreases fields, fields.len() - i,
{
    if 0 <= i < fields.len() {
        1 + push_len(fields[i]) + push_fields_len(fields, i + 1)
    } else {
        0
    }
}

/// How many instructions popping a value of type `t` takes.
pub open spec fn pop_len(t: TypeView) -> nat
    decreases t, 0int,
{
    if spec_is_zero_sized(t) {
        0
    } else {
        match t {
            TypeView::Tuple(fields) => pop_fields_len(fields, fields.len() as int) + 1,
            _ => 5,
        }
    }
}

/// How many instructions popping the first `k` fields of a tuple takes.
pub open spec fn pop_fields_len(fields: Seq<TypeView>, k: int) -> nat
    decreases fields, k,
{
    if 0 < k <= fields.len() {
        pop_len(fields[k - 1]) + pop_fields_len(fields, k - 1)
    } else {
        0
    }
}

/// The pushes take [push_len] instructions, whatever they push and wherever.
pub proof fn lemma_push_len(name: Seq<char>, typ: TypeView, coro: Value, value: Value, t: TypeView, n: nat)
    ensures
        push_code(name, typ, coro, value, t, n).len() == push_len(t),
    decreases t, 0int,
{
    if !spec_is_zero_sized(t) {
        if let TypeView::Tuple(fields) = t {
            lemma_push_fields_len(name, typ, coro, value, fields, 0, n);
        }
    }
}

/// The pushes of a tuple's fields take [push_fields_len] instructions.
pub proof fn lemma_push_fields_len(
    name: Seq<char>,
    typ: TypeView,
    coro: Value,
    value: Value,
    fields: Seq<TypeView>,
    i: int,
    n: nat,
)
    ensures
        push_fields_code(name, typ, coro, value, fields, i, n).len() == push_fields_len(fields, i),
    decreases fields, fields.len() - i,
{
    if 0 <= i < fields.len() {
        let inner = push_code(name, typ, coro, crate::mir::effects::channel::result(n), fields[i], n + 1);
        lemma_push_len(name, typ, coro, crate::mir::effects::channel::result(n), fields[i], n + 1);
        lemma_push_fields_len(name, typ, coro, value, fields, i + 1, n + 1 + inner.len());
    }
}

/// The pops take [pop_len] instructions, wherever they start.
pub proof fn lemma_pop_len(name: Seq<char>, typ: TypeView, coro: Value, t: TypeView, n: nat)
    ensures
        pop_code(name, typ, coro, t, n).0.len() == pop_len(t),
    decreases t, 0int,
{
    if !spec_is_zero_sized(t) {
        if let TypeView::Tuple(fields) = t {
            lemma_pop_fields_len(name, typ, coro, fields, fields.len() as int, n);
        }
    }
}

/// The pops of a tuple's first `k` fields take [pop_fields_len] instructions.
pub proof fn lemma_pop_fields_len(name: Seq<char>, typ: TypeView, coro: Value, fields: Seq<TypeView>, k: int, n: nat)
    ensures
        pop_fields_code(name, typ, coro, fields, k, n).0.len() == pop_fields_len(fields, k),
    decreases fields, k,
{
    if 0 < k <= fields.len() {
        let first = pop_code(name, typ, coro, fields[k - 1], n).0;
        lemma_pop_len(name, typ, coro, fields[k - 1], n);
        lemma_pop_fields_len(name, typ, coro, fields, k - 1, n + first.len());
    }
}

/// `a + b`, capped.
pub fn add_capped(a: u64, b: u64) -> (r: u64)
    requires
        a <= size_cap(),
        b <= size_cap(),
    ensures
        r == capped((a + b) as nat),
{
    let s = a + b;
    if s < 0xffff_ffff {
        s
    } else {
        0xffff_ffff
    }
}

/// [push_len] of the type, capped.
pub fn push_size(t: &Type) -> (r: u64)
    ensures
        r == capped(push_len(t@)),
    decreases t,
{
    if is_zero_sized(t) {
        return 0;
    }
    match t {
        Type::Tuple(fields) => push_fields_size(fields),
        _ => 4,
    }
}

/// [push_fields_len] of the fields, from the first, capped.
fn push_fields_size(fields: &Vec<Type>) -> (r: u64)
    ensures
        r == capped(push_fields_len(types_view(fields@), 0)),
    decreases fields,
{
    let ghost views = types_view(fields@);
    let mut acc: u64 = 0;
    let mut i: usize = fields.len();
    assert(push_fields_len(views, views.len() as int) == 0);
    while i > 0
        invariant
            0 <= i <= fields@.len(),
            views == types_view(fields@),
            views.len() == fields@.len(),
            acc == capped(push_fields_len(views, i as int)),
        decreases i,
    {
        i = i - 1;
        assert(views[i as int] == fields@[i as int]@);
        let one = push_size(&fields[i]);
        let with_one = add_capped(one, 1);
        acc = add_capped(with_one, acc);
    }
    acc
}

/// [pop_len] of the type, capped.
pub fn pop_size(t: &Type) -> (r: u64)
    ensures
        r == capped(pop_len(t@)),
    decreases t,
{
    if is_zero_sized(t) {
        return 0;
    }
    match t {
        Type::Tuple(fields) => {
            let inner = pop_fields_size(fields, fields.len());
            assert(types_view(fields@).len() == fields@.len());
            add_capped(inner, 1)
        },
        _ => 5,
    }
}

/// [pop_fields_len] of the first `k` fields, capped.
pub fn pop_fields_size(fields: &Vec<Type>, k: usize) -> (r: u64)
    requires
        k <= fields@.len(),
    ensures
        r == capped(pop_fields_len(types_view(fields@), k as int)),
    decreases fields,
{
    let ghost views = types_view(fields@);
    let mut acc: u64 = 0;
    let mut i: usize = 0;
    while i < k
        invariant
            0 <= i <= k,
            k <= fields@.len(),
            views == types_view(fields@),
            views.len() == fields@.len(),
            acc == capped(pop_fields_len(views, i as int)),
        decreases k - i,
    {
        assert(views[i as int] == fields@[i as int]@);
        let one = pop_size(&fields[i]);
        acc = add_capped(one, acc);
        i = i + 1;
    }
    acc
}

} // verus!
