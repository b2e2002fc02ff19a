//! A pass separate to but related to monomorphization.
//!
//! Traverses the Mir replacing each union type with the largest variant in the union,
//! according to the current target machine.
use crate::fx::{fx_map_insert, fx_map_keys, fx_map_remove};
use crate::mir::definition::{Block, Definition};
use crate::mir::instruction::{Instruction, InstructionView};
use crate::mir::layout::spec_size;
use crate::mir::program::Mir;
use crate::mir::types::{
    FunctionType, FunctionTypeView, PrimitiveType, Type, TypeView, lemma_types_view, types_view,
};
use crate::mir::values::{DefinitionId, IntConstant, Value};
use crate::seq_util::lemma_prefix_to_set;
use std::sync::Arc;
use vstd::prelude::*;

verus! {

/// Whether a union occurs anywhere in the type (the length of an array type is not looked at).
pub open spec fn spec_contains_union(t: TypeView) -> bool
    decreases t,
{
    match t {
        TypeView::Primitive(_) | TypeView::Generic(_) | TypeView::U32(_) => false,
        TypeView::Union(_) => true,
        TypeView::Tuple(fields) => spec_any_contains_union(fields),
        TypeView::Array(_, element) => spec_contains_union(*element),
        TypeView::Function(f) => spec_any_contains_union(f.parameters) || spec_contains_union(f.environment)
            || spec_contains_union(f.return_type),
    }
}

pub open spec fn spec_any_contains_union(s: Seq<TypeView>) -> bool
    decreases s,
{
    if s.len() == 0 {
        false
    } else {
        spec_contains_union(s[0]) || spec_any_contains_union(s.subrange(1, s.len() as int))
    }
}

/// `t` with every union replaced, innermost first, by its largest variant.
pub open spec fn spec_select(t: TypeView, ptr_size: u32) -> TypeView
    decreases t,
{
    if !spec_contains_union(t) {
        t
    } else {
        match t {
            TypeView::Tuple(fields) => TypeView::Tuple(spec_select_all(fields, ptr_size)),
            TypeView::Array(length, element) => TypeView::Array(length, Box::new(spec_select(*element, ptr_size))),
            TypeView::Function(f) => TypeView::Function(
                Box::new(
                    FunctionTypeView {
                        parameters: spec_select_all(f.parameters, ptr_size),
                        environment: spec_select(f.environment, ptr_size),
                        return_type: spec_select(f.return_type, ptr_size),
                    },
                ),
            ),
            TypeView::Union(variants) => spec_largest(spec_select_all(variants, ptr_size), ptr_size),
            _ => t,
        }
    }
}

pub open spec fn spec_select_all(s: Seq<TypeView>, ptr_size: u32) -> Seq<TypeView>
    decreases s,
{
    if s.len() == 0 {
        seq![]
    } else {
        seq![spec_select(s[0], ptr_size)] + spec_select_all(s.subrange(1, s.len() as int), ptr_size)
    }
}

/// The index of the variant with the largest size; the last of them where several are largest.
pub open spec fn spec_largest_index(variants: Seq<TypeView>, ptr_size: u32) -> int
    decreases variants.len(),
{
    if variants.len() <= 1 {
        0
    } else {
        let k = spec_largest_index(variants.drop_last(), ptr_size);
        if spec_size(variants.last(), ptr_size).unwrap() >= spec_size(variants[k], ptr_size).unwrap() {
            variants.len() - 1
        } else {
            k
        }
    }
}

/// The largest variant: `Unit` for no variants, the variant itself for one.
pub open spec fn spec_largest(variants: Seq<TypeView>, ptr_size: u32) -> TypeView {
    if variants.len() == 0 {
        TypeView::Primitive(PrimitiveType::Unit)
    } else if variants.len() == 1 {
        variants[0]
    } else {
        variants[spec_largest_index(variants, ptr_size)]
    }
}

/// The variants can be compared: there is at most one, or each has a size.
pub open spec fn variants_comparable(variants: Seq<TypeView>, ptr_size: u32) -> bool {
    variants.len() >= 2 ==> forall|i: int| 0 <= i < variants.len() ==> (#[trigger] spec_size(variants[i], ptr_size)) is Some
}

/// Selecting the largest variants of `t` compares only variants that have a size.
pub open spec fn select_ok(t: TypeView, ptr_size: u32) -> bool
    decreases t,
{
    !spec_contains_union(t) || match t {
        TypeView::Tuple(fields) => select_all_ok(fields, ptr_size),
        TypeView::Array(_, element) => select_ok(*element, ptr_size),
        TypeView::Function(f) => select_all_ok(f.parameters, ptr_size) && select_ok(f.environment, ptr_size)
            && select_ok(f.return_type, ptr_size),
        TypeView::Union(variants) => select_all_ok(variants, ptr_size) && variants_comparable(
            spec_select_all(variants, ptr_size),
            ptr_size,
        ),
        _ => true,
    }
}

pub open spec fn select_all_ok(s: Seq<TypeView>, ptr_size: u32) -> bool
    decreases s,
{
    s.len() == 0 || (select_ok(s[0], ptr_size) && select_all_ok(s.subrange(1, s.len() as int), ptr_size))
}

/// The largest of two or more comparable variants is one of them, at least as large as every
/// variant, and strictly larger than each variant after it.
pub proof fn lemma_largest_variant_is_largest(variants: Seq<TypeView>, ptr_size: u32)
    requires
        variants.len() >= 2,
        variants_comparable(variants, ptr_size),
    ensures
        exists|i: int| 0 <= i < variants.len() && spec_largest(variants, ptr_size) == variants[i] && forall|k: int|
            i < k < variants.len() ==> spec_size(variants[k], ptr_size).unwrap() < spec_size(variants[i], ptr_size).unwrap(),
        forall|k: int|
            0 <= k < variants.len() ==> spec_size(spec_largest(variants, ptr_size), ptr_size).unwrap() >= spec_size(
                #[trigger] variants[k],
                ptr_size,
            ).unwrap(),
{
    lemma_largest_index(variants, ptr_size);
    let i = spec_largest_index(variants, ptr_size);
    assert(spec_largest(variants, ptr_size) == variants[i]);
}

/// Selecting the largest variants of a union of two or more variants gives one of its variants
/// (with its own unions selected), at least as large as each of them.
pub proof fn lemma_union_becomes_its_largest_variant(variants: Seq<TypeView>, ptr_size: u32)
    requires
        variants.len() >= 2,
        select_ok(TypeView::Union(variants), ptr_size),
    ensures
        exists|i: int| 0 <= i < variants.len() && spec_select(TypeView::Union(variants), ptr_size) == spec_select(#[trigger] variants[i], ptr_size),
        forall|k: int|
            0 <= k < variants.len() ==> spec_size(spec_select(TypeView::Union(variants), ptr_size), ptr_size).unwrap()
                >= spec_size(spec_select(#[trigger] variants[k], ptr_size), ptr_size).unwrap(),
{
    let sel = spec_select_all(variants, ptr_size);
    lemma_select_all(variants, ptr_size);
    assert(spec_contains_union(TypeView::Union(variants)));
    assert(variants_comparable(sel, ptr_size));
    lemma_largest_variant_is_largest(sel, ptr_size);
    let i = choose|i: int| 0 <= i < sel.len() && spec_largest(sel, ptr_size) == sel[i] && forall|k: int|
        i < k < sel.len() ==> spec_size(sel[k], ptr_size).unwrap() < spec_size(sel[i], ptr_size).unwrap();
    assert(spec_select(variants[i], ptr_size) == sel[i]);
    assert forall|k: int| 0 <= k < variants.len() implies spec_size(spec_select(TypeView::Union(variants), ptr_size), ptr_size).unwrap()
        >= spec_size(spec_select(#[trigger] variants[k], ptr_size), ptr_size).unwrap() by {
        assert(sel[k] == spec_select(variants[k], ptr_size));
    }
}

/// [spec_largest_index] picks a variant at least as large as every other, and the last of them.
proof fn lemma_largest_index(variants: Seq<TypeView>, ptr_size: u32)
    requires
        variants.len() >= 1,
        forall|i: int| 0 <= i < variants.len() ==> (#[trigger] spec_size(variants[i], ptr_size)) is Some,
    ensures
        0 <= spec_largest_index(variants, ptr_size) < variants.len(),
        forall|k: int|
            0 <= k < variants.len() ==> spec_size(variants[spec_largest_index(variants, ptr_size)], ptr_size).unwrap()
                >= spec_size(#[trigger] variants[k], ptr_size).unwrap(),
        forall|k: int|
            spec_largest_index(variants, ptr_size) < k < variants.len() ==> spec_size(#[trigger] variants[k], ptr_size).unwrap()
                < spec_size(variants[spec_largest_index(variants, ptr_size)], ptr_size).unwrap(),
    decreases variants.len(),
{
    if variants.len() > 1 {
        let p = variants.drop_last();
        assert forall|i: int| 0 <= i < p.len() implies (#[trigger] spec_size(p[i], ptr_size)) is Some by {
            assert(p[i] == variants[i]);
        }
        lemma_largest_index(p, ptr_size);
        let k0 = spec_largest_index(p, ptr_size);
        assert(p[k0] == variants[k0]);
        assert(spec_size(variants[variants.len() - 1], ptr_size) is Some);
        assert forall|k: int| 0 <= k < variants.len() implies spec_size(variants[spec_largest_index(variants, ptr_size)], ptr_size).unwrap()
            >= spec_size(#[trigger] variants[k], ptr_size).unwrap() by {
            if k < variants.len() - 1 {
                assert(p[k] == variants[k]);
            }
        }
        assert forall|k: int|
            spec_largest_index(variants, ptr_size) < k < variants.len() implies spec_size(#[trigger] variants[k], ptr_size).unwrap()
                < spec_size(variants[spec_largest_index(variants, ptr_size)], ptr_size).unwrap() by {
            if k < variants.len() - 1 {
                assert(p[k] == variants[k]);
            }
        }
    }
}

proof fn lemma_subrange_index(s: Seq<TypeView>, i: int)
    requires
        0 < i < s.len(),
    ensures
        s.subrange(1, s.len() as int)[i - 1] == s[i],
{
}

pub proof fn lemma_select_all(s: Seq<TypeView>, ptr_size: u32)
    ensures
        spec_select_all(s, ptr_size).len() == s.len(),
        forall|i: int| 0 <= i < s.len() ==> #[trigger] spec_select_all(s, ptr_size)[i] == spec_select(s[i], ptr_size),
        spec_any_contains_union(s) <==> exists|i: int| 0 <= i < s.len() && spec_contains_union(#[trigger] s[i]),
        select_all_ok(s, ptr_size) <==> forall|i: int| 0 <= i < s.len() ==> select_ok(#[trigger] s[i], ptr_size),
    decreases s.len(),
{
    if s.len() > 0 {
        let rest = s.subrange(1, s.len() as int);
        lemma_select_all(rest, ptr_size);
        assert forall|i: int| 0 <= i < s.len() implies #[trigger] spec_select_all(s, ptr_size)[i] == spec_select(
            s[i],
            ptr_size,
        ) by {
            if i > 0 {
                lemma_subrange_index(s, i);
            }
        }
        if spec_any_contains_union(s) {
            if spec_contains_union(s[0]) {
            } else {
                let j = choose|j: int| 0 <= j < rest.len() && spec_contains_union(#[trigger] rest[j]);
                assert(s[j + 1] == rest[j]);
            }
        }
        if exists|i: int| 0 <= i < s.len() && spec_contains_union(#[trigger] s[i]) {
            let i = choose|i: int| 0 <= i < s.len() && spec_contains_union(#[trigger] s[i]);
            if i > 0 {
                lemma_subrange_index(s, i);
            }
        }
        if select_all_ok(s, ptr_size) {
            assert forall|i: int| 0 <= i < s.len() implies select_ok(#[trigger] s[i], ptr_size) by {
                if i > 0 {
                    lemma_subrange_index(s, i);
                }
            }
        }
        if forall|i: int| 0 <= i < s.len() ==> select_ok(#[trigger] s[i], ptr_size) {
            assert forall|i: int| 0 <= i < rest.len() implies select_ok(#[trigger] rest[i], ptr_size) by {
                assert(rest[i] == s[i + 1]);
            }
        }
    }
}

/// After selecting the largest variants, no union is left in a type.
pub proof fn lemma_select_removes_unions(t: TypeView, ptr_size: u32)
    ensures
        !spec_contains_union(spec_select(t, ptr_size)),
    decreases t,
{
    if spec_contains_union(t) {
        match t {
            TypeView::Tuple(fields) => {
                lemma_select_all_removes_unions(fields, ptr_size);
            },
            TypeView::Array(_, element) => {
                lemma_select_removes_unions(*element, ptr_size);
            },
            TypeView::Function(f) => {
                lemma_select_all_removes_unions(f.parameters, ptr_size);
                lemma_select_removes_unions(f.environment, ptr_size);
                lemma_select_removes_unions(f.return_type, ptr_size);
            },
            TypeView::Union(variants) => {
                lemma_select_all_removes_unions(variants, ptr_size);
                let selected = spec_select_all(variants, ptr_size);
                lemma_select_all(variants, ptr_size);
                if selected.len() >= 2 {
                    lemma_largest_index_bounds(selected, ptr_size);
                    let k = spec_largest_index(selected, ptr_size);
                    assert(!spec_contains_union(selected[k]));
                } else if selected.len() == 1 {
                    assert(!spec_contains_union(selected[0]));
                }
            },
            _ => {},
        }
    }
}

proof fn lemma_select_all_removes_unions(s: Seq<TypeView>, ptr_size: u32)
    ensures
        !spec_any_contains_union(spec_select_all(s, ptr_size)),
        forall|i: int| 0 <= i < s.len() ==> !spec_contains_union(#[trigger] spec_select_all(s, ptr_size)[i]),
    decreases s,
{
    lemma_select_all(s, ptr_size);
    lemma_select_all(spec_select_all(s, ptr_size), ptr_size);
    assert forall|i: int| 0 <= i < s.len() implies !spec_contains_union(#[trigger] spec_select_all(s, ptr_size)[i]) by {
        lemma_select_removes_unions(s[i], ptr_size);
    }
}

proof fn lemma_largest_index_bounds(variants: Seq<TypeView>, ptr_size: u32)
    requires
        variants.len() >= 1,
    ensures
        0 <= spec_largest_index(variants, ptr_size) < variants.len(),
    decreases variants.len(),
{
    if variants.len() > 1 {
        lemma_largest_index_bounds(variants.drop_last(), ptr_size);
    }
}

impl Type {
    /// Whether a union occurs anywhere in this type.
    pub fn contains_union(&self) -> (r: bool)
        ensures
            r == spec_contains_union(self@),
        decreases self,
    {
        match self {
            Type::Primitive(_) | Type::Generic(_) | Type::U32(_) => false,
            Type::Union(_) => true,
            Type::Tuple(fields) => any_contains_union(fields),
            Type::Array { length: _, element } => element.contains_union(),
            Type::Function(function) => {
                any_contains_union(&function.parameters) || function.environment.contains_union()
                    || function.return_type.contains_union()
            },
        }
    }

    /// This type with every union replaced by its largest variant.
    fn with_largest_variants(&self, ptr_size: u32) -> (r: Type)
        requires
            select_ok(self@, ptr_size),
        ensures
            r@ == spec_select(self@, ptr_size),
        decreases self,
    {
        if !self.contains_union() {
            return self.clone();
        }
        match self {
            Type::Tuple(items) => Type::Tuple(Arc::new(all_with_largest_variants(items, ptr_size))),
            Type::Array { length, element } => {
                // Length is a type-level U32 by this point (monomorphization is done) so no
                // recursion needed for it.
                Type::Array { length: crate::mir::types::arc_clone(length), element: Arc::new(element.with_largest_variants(ptr_size)) }
            },
            Type::Function(function) => {
                let parameters = all_with_largest_variants(&function.parameters, ptr_size);
                let environment = function.environment.with_largest_variants(ptr_size);
                let return_type = function.return_type.with_largest_variants(ptr_size);
                let r = Type::Function(Arc::new(FunctionType { parameters, environment, return_type }));
                proof {
                    assert(r@->Function_0 == spec_select(self@, ptr_size)->Function_0);
                }
                r
            },
            Type::Union(variants) => {
                let selected = all_with_largest_variants(variants, ptr_size);
                Self::find_largest_variant(&selected, ptr_size)
            },
            _ => self.clone(),
        }
    }

    /// Replaces each union type within this type with the largest variant of that union.
    /// `ptr_size` should be the size of a pointer in bytes.
    pub fn select_largest_variants(&mut self, ptr_size: u32)
        requires
            select_ok(old(self)@, ptr_size),
        ensures
            final(self)@ == spec_select(old(self)@, ptr_size),
    {
        if self.contains_union() {
            let selected = self.with_largest_variants(ptr_size);
            *self = selected;
        }
    }

    /// The largest of the given variants by size: `Unit` when there are none, and the last of
    /// several that are equally large.
    pub fn find_largest_variant(variants: &Vec<Type>, ptr_size: u32) -> (r: Type)
        requires
            variants_comparable(types_view(variants@), ptr_size),
        ensures
            r@ == spec_largest(types_view(variants@), ptr_size),
    {
        let ghost s = types_view(variants@);
        proof {
            lemma_types_view(variants@);
        }
        if variants.len() == 0 {
            return Type::unit();
        }
        if variants.len() == 1 {
            return variants[0].clone();
        }
        let mut best: usize = 0;
        proof {
            assert(s[0] == variants@[0]@);
            assert(spec_size(s[0], ptr_size) is Some);
        }
        let mut best_size: u32 = variants[0].size_in_bytes(ptr_size);
        let mut i: usize = 1;
        proof {
            assert(s.subrange(0, 1).len() == 1);
        }
        while i < variants.len()
            invariant
                2 <= variants@.len(),
                1 <= i <= variants@.len(),
                s == types_view(variants@),
                s.len() == variants@.len(),
                variants_comparable(s, ptr_size),
                best < i,
                best as int == spec_largest_index(s.subrange(0, i as int), ptr_size),
                best_size == spec_size(s[best as int], ptr_size).unwrap(),
            decreases variants@.len() - i,
        {
            proof {
                lemma_types_view(variants@);
                assert(s.subrange(0, i + 1).drop_last() =~= s.subrange(0, i as int));
                assert(s.subrange(0, i + 1)[best as int] == s[best as int]);
            }
            proof {
                assert(s[i as int] == variants@[i as int]@);
                assert(spec_size(s[i as int], ptr_size) is Some);
            }
            let size = variants[i].size_in_bytes(ptr_size);
            if size >= best_size {
                best = i;
                best_size = size;
            }
            i = i + 1;
        }
        proof {
            assert(s.subrange(0, i as int) =~= s);
        }
        variants[best].clone()
    }
}

/// Whether a union occurs in any of the types.
fn any_contains_union(types: &Vec<Type>) -> (r: bool)
    ensures
        r == spec_any_contains_union(types_view(types@)),
    decreases types,
{
    proof {
        lemma_types_view(types@);
        lemma_select_all(types_view(types@), 0);
    }
    let mut i: usize = 0;
    while i < types.len()
        invariant
            0 <= i <= types@.len(),
            types_view(types@).len() == types@.len(),
            forall|j: int| 0 <= j < types@.len() ==> #[trigger] types_view(types@)[j] == types@[j]@,
            forall|j: int| 0 <= j < i ==> !spec_contains_union(#[trigger] types_view(types@)[j]),
        decreases types@.len() - i,
    {
        if types[i].contains_union() {
            proof {
                lemma_select_all(types_view(types@), 0);
                assert(spec_contains_union(types_view(types@)[i as int]));
            }
            return true;
        }
        i = i + 1;
    }
    proof {
        lemma_select_all(types_view(types@), 0);
    }
    false
}

/// Each of the types with its unions replaced by their largest variants.
fn all_with_largest_variants(types: &Vec<Type>, ptr_size: u32) -> (r: Vec<Type>)
    requires
        select_all_ok(types_view(types@), ptr_size),
    ensures
        types_view(r@) == spec_select_all(types_view(types@), ptr_size),
    decreases types,
{
    let ghost s = types_view(types@);
    proof {
        lemma_types_view(types@);
        lemma_select_all(s, ptr_size);
    }
    let mut r: Vec<Type> = Vec::new();
    let mut i: usize = 0;
    while i < types.len()
        invariant
            0 <= i <= types@.len(),
            s == types_view(types@),
            s.len() == types@.len(),
            forall|j: int| 0 <= j < types@.len() ==> #[trigger] s[j] == types@[j]@,
            forall|j: int| 0 <= j < s.len() ==> select_ok(#[trigger] s[j], ptr_size),
            r@.len() == i,
            forall|j: int| 0 <= j < i ==> #[trigger] r@[j]@ == spec_select(s[j], ptr_size),
        decreases types@.len() - i,
    {
        proof {
            assert(s[i as int] == types@[i as int]@);
            assert(select_ok(s[i as int], ptr_size));
        }
        let t = types[i].with_largest_variants(ptr_size);
        r.push(t);
        i = i + 1;
    }
    proof {
        lemma_select_all(s, ptr_size);
        lemma_types_view(r@);
        assert forall|j: int| 0 <= j < r@.len() implies #[trigger] types_view(r@)[j] == spec_select_all(s, ptr_size)[j] by {
            assert(types_view(r@)[j] == r@[j]@);
        }
        assert(types_view(r@) =~= spec_select_all(s, ptr_size));
    }
    r
}

/// `new` is `old` with the largest variants selected in every type it holds, with each
/// `SizeOf` and `ArrayLen` replaced by the constant it denotes.
pub open spec fn selected_instruction(old: InstructionView, new: InstructionView, ptr_size: u32) -> bool {
    match old {
        InstructionView::SizeOf(t) => new == InstructionView::Id(
            Value::Integer(IntConstant::Usz(spec_size(spec_select(t, ptr_size), ptr_size).unwrap() as usize)),
        ),
        InstructionView::ArrayLen(t) => match spec_select(t, ptr_size) {
            TypeView::Array(length, _) => match *length {
                TypeView::U32(n) => new == InstructionView::Id(Value::Integer(IntConstant::Usz(n as usize))),
                _ => false,
            },
            _ => false,
        },
        InstructionView::StackAllocUninit(t) => new == InstructionView::StackAllocUninit(spec_select(t, ptr_size)),
        _ => new == old,
    }
}

/// The instruction can be rewritten: its types can be selected, a `SizeOf`'s type then has a
/// size and an `ArrayLen`'s type is an array of constant length.
pub open spec fn instruction_select_ok(i: InstructionView, ptr_size: u32) -> bool {
    match i {
        InstructionView::SizeOf(t) => select_ok(t, ptr_size) && spec_size(spec_select(t, ptr_size), ptr_size) is Some,
        InstructionView::ArrayLen(t) => select_ok(t, ptr_size) && (spec_select(t, ptr_size) matches TypeView::Array(
            length,
            _,
        ) && *length is U32),
        InstructionView::StackAllocUninit(t) => select_ok(t, ptr_size),
        _ => true,
    }
}

/// Every type of the definition can be selected and every instruction rewritten.
pub open spec fn definition_select_ok(d: Definition, ptr_size: u32) -> bool {
    &&& select_ok(d.typ@, ptr_size)
    &&& forall|i: int| 0 <= i < d.instruction_result_types@.len() ==> select_ok(#[trigger] d.instruction_result_types@[i]@, ptr_size)
    &&& forall|b: int, p: int|
        0 <= b < d.blocks@.len() && 0 <= p < d.blocks@[b].parameter_types@.len() ==> select_ok(
            #[trigger] d.blocks@[b].parameter_types@[p]@,
            ptr_size,
        )
    &&& forall|i: int| 0 <= i < d.instructions@.len() ==> instruction_select_ok(#[trigger] d.instructions@[i]@, ptr_size)
}

/// `new` is `old` after [Definition::select_largest_variants].
pub open spec fn selected_definition(old: Definition, new: Definition, ptr_size: u32) -> bool {
    &&& new.name == old.name
    &&& new.id == old.id
    &&& new.generic_count == old.generic_count
    &&& new.typ@ == spec_select(old.typ@, ptr_size)
    &&& new.instruction_result_types@.len() == old.instruction_result_types@.len()
    &&& forall|i: int| 0 <= i < old.instruction_result_types@.len() ==> (#[trigger] new.instruction_result_types@[i])@
        == spec_select(old.instruction_result_types@[i]@, ptr_size)
    &&& new.blocks@.len() == old.blocks@.len()
    &&& forall|b: int|
        0 <= b < old.blocks@.len() ==> {
            &&& (#[trigger] new.blocks@[b]).instructions == old.blocks@[b].instructions
            &&& new.blocks@[b].terminator == old.blocks@[b].terminator
            &&& new.blocks@[b].parameter_types@.len() == old.blocks@[b].parameter_types@.len()
            &&& forall|p: int| 0 <= p < old.blocks@[b].parameter_types@.len() ==> (#[trigger] new.blocks@[b].parameter_types@[p])@
                == spec_select(old.blocks@[b].parameter_types@[p]@, ptr_size)
        }
    &&& new.instructions@.len() == old.instructions@.len()
    &&& forall|i: int| 0 <= i < old.instructions@.len() ==> selected_instruction(old.instructions@[i]@, (#[trigger] new.instructions@[i])@, ptr_size)
}

/// The length of an array type whose length is a type-level constant.
fn constant_array_length(t: &Type) -> (r: Option<u32>)
    ensures
        match t@ {
            TypeView::Array(length, _) => match *length {
                TypeView::U32(n) => r == Some(n),
                _ => r is None,
            },
            _ => r is None,
        },
{
    match t {
        Type::Array { length, element } => {
            proof {
                assert(t@ == TypeView::Array(Box::new((**length)@), Box::new((**element)@)));
            }
            match &**length {
                Type::U32(n) => Some(*n),
                _ => {
                    proof {
                        assert(!((**length)@ is U32));
                    }
                    None
                },
            }
        },
        _ => None,
    }
}

/// Selects the largest variants in each of the types of `types`.
fn select_in_all(types: &mut Vec<Type>, ptr_size: u32)
    requires
        forall|i: int| 0 <= i < old(types)@.len() ==> select_ok(#[trigger] old(types)@[i]@, ptr_size),
    ensures
        final(types)@.len() == old(types)@.len(),
        forall|i: int| 0 <= i < old(types)@.len() ==> (#[trigger] final(types)@[i])@ == spec_select(old(types)@[i]@, ptr_size),
{
    let ghost original = types@;
    let mut i: usize = 0;
    while i < types.len()
        invariant
            0 <= i <= types@.len(),
            types@.len() == original.len(),
            forall|j: int| 0 <= j < original.len() ==> select_ok(#[trigger] original[j]@, ptr_size),
            forall|j: int| 0 <= j < i ==> (#[trigger] types@[j])@ == spec_select(original[j]@, ptr_size),
            forall|j: int| i <= j < types@.len() ==> #[trigger] types@[j] == original[j],
        decreases types@.len() - i,
    {
        let selected = types[i].with_largest_variants(ptr_size);
        types.set(i, selected);
        i = i + 1;
    }
}

impl Definition {
    /// Replaces each union type with the largest variant of that union, and each `SizeOf` and
    /// `ArrayLen` of a (now concrete) type with the `Usz` constant it denotes.
    ///
    /// `ptr_size` should be the size of a pointer in bytes.
    pub fn select_largest_variants(&mut self, ptr_size: u32)
        requires
            definition_select_ok(*old(self), ptr_size),
        ensures
            selected_definition(*old(self), *final(self), ptr_size),
    {
        self.typ.select_largest_variants(ptr_size);
        select_in_all(&mut self.instruction_result_types, ptr_size);

        let ghost old_blocks = self.blocks@;
        let mut b: usize = 0;
        while b < self.blocks.len()
            invariant
                0 <= b <= self.blocks@.len(),
                self.blocks@.len() == old_blocks.len(),
                forall|x: int, p: int|
                    0 <= x < old_blocks.len() && 0 <= p < old_blocks[x].parameter_types@.len() ==> select_ok(
                        #[trigger] old_blocks[x].parameter_types@[p]@,
                        ptr_size,
                    ),
                forall|x: int|
                    0 <= x < b ==> {
                        &&& (#[trigger] self.blocks@[x]).instructions == old_blocks[x].instructions
                        &&& self.blocks@[x].terminator == old_blocks[x].terminator
                        &&& self.blocks@[x].parameter_types@.len() == old_blocks[x].parameter_types@.len()
                        &&& forall|p: int| 0 <= p < old_blocks[x].parameter_types@.len() ==> (#[trigger] self.blocks@[x].parameter_types@[p])@
                            == spec_select(old_blocks[x].parameter_types@[p]@, ptr_size)
                    },
                forall|x: int| b <= x < self.blocks@.len() ==> #[trigger] self.blocks@[x] == old_blocks[x],
                old_blocks == old(self).blocks@,
                self.instructions == old(self).instructions,
                self.name == old(self).name,
                self.id == old(self).id,
                self.generic_count == old(self).generic_count,
                self.typ@ == spec_select(old(self).typ@, ptr_size),
                self.instruction_result_types@.len() == old(self).instruction_result_types@.len(),
                forall|x: int| 0 <= x < old(self).instruction_result_types@.len() ==> (#[trigger] self.instruction_result_types@[x])@
                    == spec_select(old(self).instruction_result_types@[x]@, ptr_size),
            decreases self.blocks@.len() - b,
        {
            let mut block = Block::new(Vec::new());
            std::mem::swap(&mut block, &mut self.blocks[b]);
            select_in_all(&mut block.parameter_types, ptr_size);
            self.blocks.set(b, block);
            b = b + 1;
        }

        // Resolve SizeOf / ArrayLen of concrete types to Usz constants now that all types are concrete.
        let ghost old_instructions = self.instructions@;
        let mut i: usize = 0;
        while i < self.instructions.len()
            invariant
                0 <= i <= self.instructions@.len(),
                self.instructions@.len() == old_instructions.len(),
                forall|j: int| 0 <= j < old_instructions.len() ==> instruction_select_ok(#[trigger] old_instructions[j]@, ptr_size),
                forall|j: int| 0 <= j < i ==> selected_instruction(old_instructions[j]@, (#[trigger] self.instructions@[j])@, ptr_size),
                forall|j: int| i <= j < self.instructions@.len() ==> #[trigger] self.instructions@[j] == old_instructions[j],
                old_instructions == old(self).instructions@,
                self.name == old(self).name,
                self.id == old(self).id,
                self.generic_count == old(self).generic_count,
                self.typ@ == spec_select(old(self).typ@, ptr_size),
                self.instruction_result_types@.len() == old(self).instruction_result_types@.len(),
                forall|x: int| 0 <= x < old(self).instruction_result_types@.len() ==> (#[trigger] self.instruction_result_types@[x])@
                    == spec_select(old(self).instruction_result_types@[x]@, ptr_size),
                self.blocks@.len() == old(self).blocks@.len(),
                forall|x: int|
                    0 <= x < old(self).blocks@.len() ==> {
                        &&& (#[trigger] self.blocks@[x]).instructions == old(self).blocks@[x].instructions
                        &&& self.blocks@[x].terminator == old(self).blocks@[x].terminator
                        &&& self.blocks@[x].parameter_types@.len() == old(self).blocks@[x].parameter_types@.len()
                        &&& forall|p: int| 0 <= p < old(self).blocks@[x].parameter_types@.len() ==> (#[trigger] self.blocks@[x].parameter_types@[p])@
                            == spec_select(old(self).blocks@[x].parameter_types@[p]@, ptr_size)
                    },
            decreases self.instructions@.len() - i,
        {
            proof {
                assert(self.instructions@[i as int] == old_instructions[i as int]);
                assert(instruction_select_ok(old_instructions[i as int]@, ptr_size));
            }
            let replacement = match &self.instructions[i] {
                Instruction::SizeOf(typ) => {
                    let typ = typ.with_largest_variants(ptr_size);
                    let size = typ.size_in_bytes(ptr_size) as usize;
                    Some(Instruction::Id(Value::Integer(IntConstant::Usz(size))))
                },
                Instruction::ArrayLen(typ) => {
                    let typ = typ.with_largest_variants(ptr_size);
                    match constant_array_length(&typ) {
                        Some(n) => Some(Instruction::Id(Value::Integer(IntConstant::Usz(n as usize)))),
                        None => None,
                    }
                },
                Instruction::StackAllocUninit(typ) => Some(Instruction::StackAllocUninit(typ.with_largest_variants(ptr_size))),
                _ => None,
            };
            if let Some(instruction) = replacement {
                self.instructions.set(i, instruction);
            }
            i = i + 1;
        }
    }
}

impl Mir {
    /// Replace each union type used with the largest variant of that type.
    /// `ptr_size` is the size of a pointer on the target machine.
    pub fn select_largest_variants(self, ptr_size: u32) -> (r: Self)
        requires
            forall|id: DefinitionId| #[trigger] self.definitions@.contains_key(id) ==> definition_select_ok(
                self.definitions@[id],
                ptr_size,
            ),
            forall|id: DefinitionId| #[trigger] self.externals@.contains_key(id) ==> select_ok(
                self.externals@[id].typ@,
                ptr_size,
            ),
        ensures
            r.definitions@.dom() == self.definitions@.dom(),
            forall|id: DefinitionId| #[trigger] self.definitions@.contains_key(id) ==> selected_definition(
                self.definitions@[id],
                r.definitions@[id],
                ptr_size,
            ),
            r.externals@.dom() == self.externals@.dom(),
            forall|id: DefinitionId| #[trigger] self.externals@.contains_key(id) ==> {
                &&& r.externals@[id].name == self.externals@[id].name
                &&& r.externals@[id].typ@ == spec_select(self.externals@[id].typ@, ptr_size)
            },
            r.preserved_op_indices@ == self.preserved_op_indices@,
    {
        let mut this = self;
        let keys = fx_map_keys(&this.definitions);
        let ghost original = this.definitions@;
        let mut i: usize = 0;
        while i < keys.len()
            invariant
                0 <= i <= keys@.len(),
                keys@.no_duplicates(),
                keys@.to_set() == original.dom(),
                original == self.definitions@,
                this.externals@ == self.externals@,
                this.preserved_op_indices@ == self.preserved_op_indices@,
                this.definitions@.dom() == original.dom(),
                forall|id: DefinitionId| #[trigger] original.contains_key(id) ==> definition_select_ok(original[id], ptr_size),
                forall|id: DefinitionId| #[trigger]
                    original.contains_key(id) ==> if keys@.subrange(0, i as int).contains(id) {
                        selected_definition(original[id], this.definitions@[id], ptr_size)
                    } else {
                        this.definitions@[id] == original[id]
                    },
            decreases keys@.len() - i,
        {
            let k = keys[i];
            proof {
                assert(keys@.to_set().contains(k));
                crate::seq_util::lemma_not_in_prefix(keys@, i as int);
            }
            let mut definition = fx_map_remove(&mut this.definitions, k).unwrap();
            definition.select_largest_variants(ptr_size);
            fx_map_insert(&mut this.definitions, k, definition);
            i = i + 1;
            proof {
                lemma_prefix_to_set(keys@, i as int);
                assert(this.definitions@.dom() =~= original.dom());
                assert forall|id: DefinitionId| #[trigger] original.contains_key(id) implies if keys@.subrange(
                    0,
                    i as int,
                ).contains(id) {
                    selected_definition(original[id], this.definitions@[id], ptr_size)
                } else {
                    this.definitions@[id] == original[id]
                } by {
                    assert(keys@.subrange(0, i as int).to_set().contains(id) == keys@.subrange(0, i as int).contains(id));
                    assert(keys@.subrange(0, i - 1).to_set().contains(id) == keys@.subrange(0, i - 1).contains(id));
                }
            }
        }
        proof {
            assert(keys@.subrange(0, i as int) =~= keys@);
            assert forall|id: DefinitionId| #[trigger] original.contains_key(id) implies keys@.contains(id) by {
                assert(keys@.to_set().contains(id));
            }
        }

        let ext_keys = fx_map_keys(&this.externals);
        let ghost original_ext = this.externals@;
        let mut j: usize = 0;
        while j < ext_keys.len()
            invariant
                0 <= j <= ext_keys@.len(),
                ext_keys@.no_duplicates(),
                ext_keys@.to_set() == original_ext.dom(),
                original_ext == self.externals@,
                this.definitions@.dom() == self.definitions@.dom(),
                forall|id: DefinitionId| #[trigger] self.definitions@.contains_key(id) ==> selected_definition(
                    self.definitions@[id],
                    this.definitions@[id],
                    ptr_size,
                ),
                this.preserved_op_indices@ == self.preserved_op_indices@,
                this.externals@.dom() == original_ext.dom(),
                forall|id: DefinitionId| #[trigger] original_ext.contains_key(id) ==> select_ok(original_ext[id].typ@, ptr_size),
                forall|id: DefinitionId| #[trigger]
                    original_ext.contains_key(id) ==> if ext_keys@.subrange(0, j as int).contains(id) {
                        &&& this.externals@[id].name == original_ext[id].name
                        &&& this.externals@[id].typ@ == spec_select(original_ext[id].typ@, ptr_size)
                    } else {
                        this.externals@[id] == original_ext[id]
                    },
            decreases ext_keys@.len() - j,
        {
            let k = ext_keys[j];
            proof {
                assert(ext_keys@.to_set().contains(k));
                crate::seq_util::lemma_not_in_prefix(ext_keys@, j as int);
            }
            let mut external = fx_map_remove(&mut this.externals, k).unwrap();
            external.typ.select_largest_variants(ptr_size);
            fx_map_insert(&mut this.externals, k, external);
            j = j + 1;
            proof {
                lemma_prefix_to_set(ext_keys@, j as int);
                assert(this.externals@.dom() =~= original_ext.dom());
                assert forall|id: DefinitionId| #[trigger] original_ext.contains_key(id) implies if ext_keys@.subrange(
                    0,
                    j as int,
                ).contains(id) {
                    &&& this.externals@[id].name == original_ext[id].name
                    &&& this.externals@[id].typ@ == spec_select(original_ext[id].typ@, ptr_size)
                } else {
                    this.externals@[id] == original_ext[id]
                } by {
                    assert(ext_keys@.subrange(0, j as int).to_set().contains(id) == ext_keys@.subrange(0, j as int).contains(id));
                    assert(ext_keys@.subrange(0, j - 1).to_set().contains(id) == ext_keys@.subrange(0, j - 1).contains(id));
                }
            }
        }
        proof {
            assert(ext_keys@.subrange(0, j as int) =~= ext_keys@);
            assert forall|id: DefinitionId| #[trigger] original_ext.contains_key(id) implies ext_keys@.contains(id) by {
                assert(ext_keys@.to_set().contains(id));
            }
        }
        this
    }
}

} // verus!
