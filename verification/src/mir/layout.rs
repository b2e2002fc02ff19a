//! The memory layout of MIR types: their size and natural alignment on a target machine.
//!
//! Both computations are in `u32` arithmetic. The model functions below return `None` exactly
//! where the computation cannot be carried out: on a generic type, on an array whose length is
//! not a type-level constant, and wherever a `u32` step would overflow.
use crate::mir::types::{Type, TypeView, types_view, lemma_types_view, spec_primitive_size};
use vstd::prelude::*;

verus! {

pub open spec fn max_u32(a: u32, b: u32) -> u32 {
    if a >= b {
        a
    } else {
        b
    }
}

/// `x` rounded up with the mask of `a`: `(x + a - 1) & !(a - 1)`, the round-up to a multiple of
/// `a` when `a` is a power of two. Defined where `a >= 1` and `x + a` fits in a `u32`.
pub open spec fn align_up(x: u32, a: u32) -> u32 {
    ((x + a - 1) as u32) & !((a - 1) as u32)
}

pub open spec fn align_up_fits(x: u32, a: u32) -> bool {
    a >= 1 && x + a <= u32::MAX
}

/// The natural alignment of a type in bytes.
pub open spec fn spec_align(t: TypeView, ptr_size: u32) -> Option<u32>
    decreases t,
{
    match t {
        TypeView::Primitive(p) => Some(max_u32(spec_primitive_size(p, ptr_size), 1)),
        TypeView::Tuple(fields) => spec_seq_align(fields, ptr_size),
        TypeView::Function(_) => Some(ptr_size),
        TypeView::Union(variants) => spec_seq_align(variants, ptr_size),
        TypeView::Array(_, element) => spec_align(*element, ptr_size),
        TypeView::U32(_) => Some(1),
        TypeView::Generic(_) => None,
    }
}

/// The largest alignment in `s`, or 1 when `s` is empty.
pub open spec fn spec_seq_align(s: Seq<TypeView>, ptr_size: u32) -> Option<u32>
    decreases s,
{
    if s.len() == 0 {
        Some(1)
    } else if s.len() == 1 {
        spec_align(s[0], ptr_size)
    } else {
        match (spec_seq_align(s.subrange(0, s.len() - 1), ptr_size), spec_align(s[s.len() - 1], ptr_size)) {
            (Some(a), Some(b)) => Some(max_u32(a, b)),
            _ => None,
        }
    }
}

/// The size in bytes of a type as it sits in memory, trailing padding included.
pub open spec fn spec_size(t: TypeView, ptr_size: u32) -> Option<u32>
    decreases t,
{
    match t {
        TypeView::Primitive(p) => Some(spec_primitive_size(p, ptr_size)),
        TypeView::Tuple(fields) => match spec_tuple_layout(fields, ptr_size) {
            Some((offset, max_align)) => if align_up_fits(offset, max_align) {
                Some(align_up(offset, max_align))
            } else {
                None
            },
            None => None,
        },
        TypeView::Function(_) => Some(ptr_size),
        TypeView::Union(variants) => spec_union_size(variants, ptr_size),
        TypeView::Array(length, element) => match (spec_size(*element, ptr_size), spec_align(*element, ptr_size)) {
            (Some(size), Some(align)) => {
                let a = max_u32(align, 1);
                if !align_up_fits(size, a) {
                    None
                } else {
                    match *length {
                        TypeView::U32(n) => if align_up(size, a) * n <= u32::MAX {
                            Some((align_up(size, a) * n) as u32)
                        } else {
                            None
                        },
                        _ => None,
                    }
                }
            },
            _ => None,
        },
        TypeView::U32(_) => Some(0),
        TypeView::Generic(_) => None,
    }
}

/// The end offset and the largest field alignment after laying out the fields of `s` in order,
/// each at its own alignment.
pub open spec fn spec_tuple_layout(s: Seq<TypeView>, ptr_size: u32) -> Option<(u32, u32)>
    decreases s,
{
    if s.len() == 0 {
        Some((0u32, 1u32))
    } else {
        let last = s[s.len() - 1];
        match (
            spec_tuple_layout(s.subrange(0, s.len() - 1), ptr_size),
            spec_align(last, ptr_size),
            spec_size(last, ptr_size),
        ) {
            (Some((offset, max_align)), Some(align), Some(size)) => {
                let a = max_u32(align, 1);
                if align_up_fits(offset, a) && align_up(offset, a) + size <= u32::MAX {
                    Some(((align_up(offset, a) + size) as u32, max_u32(max_align, a)))
                } else {
                    None
                }
            },
            _ => None,
        }
    }
}

/// The largest size in `s`, or 0 when `s` is empty.
pub open spec fn spec_union_size(s: Seq<TypeView>, ptr_size: u32) -> Option<u32>
    decreases s,
{
    if s.len() == 0 {
        Some(0)
    } else {
        match (spec_union_size(s.subrange(0, s.len() - 1), ptr_size), spec_size(s[s.len() - 1], ptr_size)) {
            (Some(a), Some(b)) => Some(max_u32(a, b)),
            _ => None,
        }
    }
}

proof fn lemma_prefix(s: Seq<TypeView>, i: int)
    requires
        0 <= i < s.len(),
    ensures
        s.subrange(0, i + 1).subrange(0, i) == s.subrange(0, i),
        s.subrange(0, i + 1)[i] == s[i],
        s.subrange(0, i + 1).len() == i + 1,
{
    assert(s.subrange(0, i + 1).subrange(0, i) =~= s.subrange(0, i));
}

/// If the layout of a whole sequence is defined, so is the layout of each of its prefixes.
proof fn lemma_tuple_layout_prefix(s: Seq<TypeView>, ptr_size: u32, i: int)
    requires
        0 <= i <= s.len(),
        spec_tuple_layout(s, ptr_size) is Some,
    ensures
        spec_tuple_layout(s.subrange(0, i), ptr_size) is Some,
    decreases s.len() - i,
{
    if i < s.len() {
        lemma_tuple_layout_prefix(s, ptr_size, i + 1);
        lemma_prefix(s, i);
    } else {
        assert(s.subrange(0, i) =~= s);
    }
}

proof fn lemma_union_size_prefix(s: Seq<TypeView>, ptr_size: u32, i: int)
    requires
        0 <= i <= s.len(),
        spec_union_size(s, ptr_size) is Some,
    ensures
        spec_union_size(s.subrange(0, i), ptr_size) is Some,
        forall|j: int| 0 <= j < i ==> (#[trigger] spec_size(s[j], ptr_size)) is Some,
    decreases s.len() - i,
{
    if i < s.len() {
        lemma_union_size_prefix(s, ptr_size, i + 1);
        lemma_prefix(s, i);
    } else {
        assert(s.subrange(0, i) =~= s);
        lemma_union_elements(s, ptr_size);
    }
}

proof fn lemma_union_elements(s: Seq<TypeView>, ptr_size: u32)
    requires
        spec_union_size(s, ptr_size) is Some,
    ensures
        forall|j: int| 0 <= j < s.len() ==> (#[trigger] spec_size(s[j], ptr_size)) is Some,
    decreases s.len(),
{
    if s.len() > 0 {
        let p = s.subrange(0, s.len() - 1);
        lemma_union_elements(p, ptr_size);
        assert forall|j: int| 0 <= j < s.len() implies (#[trigger] spec_size(s[j], ptr_size)) is Some by {
            if j < s.len() - 1 {
                assert(p[j] == s[j]);
            }
        }
    }
}

proof fn lemma_seq_align_prefix(s: Seq<TypeView>, ptr_size: u32, i: int)
    requires
        1 <= i <= s.len(),
        spec_seq_align(s, ptr_size) is Some,
    ensures
        spec_seq_align(s.subrange(0, i), ptr_size) is Some,
        forall|j: int| 0 <= j < i ==> (#[trigger] spec_align(s[j], ptr_size)) is Some,
    decreases s.len() - i,
{
    if i < s.len() {
        lemma_seq_align_prefix(s, ptr_size, i + 1);
        lemma_prefix(s, i);
        let q = s.subrange(0, i + 1);
        assert forall|j: int| 0 <= j < i implies (#[trigger] spec_align(s[j], ptr_size)) is Some by {
            assert(q[j] == s[j]);
        }
    } else {
        assert(s.subrange(0, i) =~= s);
        lemma_seq_align_elements(s, ptr_size);
    }
}

proof fn lemma_seq_align_elements(s: Seq<TypeView>, ptr_size: u32)
    requires
        spec_seq_align(s, ptr_size) is Some,
    ensures
        forall|j: int| 0 <= j < s.len() ==> (#[trigger] spec_align(s[j], ptr_size)) is Some,
    decreases s.len(),
{
    if s.len() > 1 {
        let p = s.subrange(0, s.len() - 1);
        lemma_seq_align_elements(p, ptr_size);
        assert forall|j: int| 0 <= j < s.len() implies (#[trigger] spec_align(s[j], ptr_size)) is Some by {
            if j < s.len() - 1 {
                assert(p[j] == s[j]);
            }
        }
    }
}

/// The alignment a field of type `t` is placed at (at least 1).
pub open spec fn field_align(t: TypeView, ptr_size: u32) -> u32 {
    max_u32(spec_align(t, ptr_size).unwrap(), 1)
}

pub open spec fn is_power_of_two(a: u32) -> bool {
    a >= 1 && a & ((a - 1) as u32) == 0
}

/// `offsets` place the fields of `fields` within `total` bytes: each field at a multiple of its
/// alignment, in order, no two overlapping, and each ending by `total`.
pub open spec fn fields_placed(fields: Seq<TypeView>, ptr_size: u32, offsets: Seq<u32>, total: int) -> bool {
    &&& offsets.len() == fields.len()
    &&& forall|i: int| 0 <= i < fields.len() ==> #[trigger] offsets[i] & ((field_align(fields[i], ptr_size) - 1) as u32) == 0
    &&& forall|i: int, j: int|
        0 <= i < j < fields.len() ==> #[trigger] offsets[i] + spec_size(fields[i], ptr_size).unwrap() <= #[trigger] offsets[j]
    &&& forall|i: int| 0 <= i < fields.len() ==> #[trigger] offsets[i] + spec_size(fields[i], ptr_size).unwrap() <= total
}

/// Rounding up to a power of two gives a multiple of it, at least the value rounded.
proof fn lemma_align_up(x: u32, a: u32)
    requires
        is_power_of_two(a),
        x + a <= u32::MAX,
    ensures
        align_up(x, a) >= x,
        align_up(x, a) & ((a - 1) as u32) == 0,
{
    assert(((((x + a - 1) as u32) & !((a - 1) as u32)) >= x) && ((((x + a - 1) as u32) & !((a - 1) as u32)) & ((a - 1) as u32)) == 0)
        by (bit_vector)
        requires
            a >= 1,
            a & ((a - 1) as u32) == 0,
            x + a <= 0xffff_ffff,
    ;
}

/// Where the fields of `s` go: each at its end-so-far rounded up to its alignment.
pub open spec fn field_offsets(s: Seq<TypeView>, ptr_size: u32) -> Seq<u32>
    decreases s.len(),
{
    if s.len() == 0 {
        Seq::empty()
    } else {
        let prefix = s.subrange(0, s.len() - 1);
        match spec_tuple_layout(prefix, ptr_size) {
            Some((end, _)) => field_offsets(prefix, ptr_size).push(align_up(end, field_align(s[s.len() - 1], ptr_size))),
            None => Seq::empty(),
        }
    }
}

proof fn lemma_layout_places_fields(s: Seq<TypeView>, ptr_size: u32)
    requires
        spec_tuple_layout(s, ptr_size) is Some,
        forall|i: int| 0 <= i < s.len() ==> is_power_of_two(#[trigger] field_align(s[i], ptr_size)),
    ensures
        fields_placed(s, ptr_size, field_offsets(s, ptr_size), spec_tuple_layout(s, ptr_size).unwrap().0 as int),
        is_power_of_two(spec_tuple_layout(s, ptr_size).unwrap().1),
        forall|i: int| 0 <= i < s.len() ==> #[trigger] field_align(s[i], ptr_size) <= spec_tuple_layout(s, ptr_size).unwrap().1,
    decreases s.len(),
{
    if s.len() > 0 {
        let n = s.len() - 1;
        let prefix = s.subrange(0, n);
        assert forall|i: int| 0 <= i < prefix.len() implies is_power_of_two(#[trigger] field_align(prefix[i], ptr_size)) by {
            assert(prefix[i] == s[i]);
            assert(is_power_of_two(field_align(s[i], ptr_size)));
        }
        lemma_layout_places_fields(prefix, ptr_size);
        let (end, ma) = spec_tuple_layout(prefix, ptr_size).unwrap();
        let a = field_align(s[n], ptr_size);
        assert(is_power_of_two(field_align(s[n], ptr_size)));
        lemma_align_up(end, a);
        let o = field_offsets(prefix, ptr_size);
        let offs = field_offsets(s, ptr_size);
        assert(offs == o.push(align_up(end, a)));
        let new_end = spec_tuple_layout(s, ptr_size).unwrap().0;
        assert forall|i: int| 0 <= i < s.len() implies #[trigger] offs[i] & ((field_align(s[i], ptr_size) - 1) as u32) == 0 by {
            if i < n {
                assert(prefix[i] == s[i]);
                assert(offs[i] == o[i]);
                assert(o[i] & ((field_align(prefix[i], ptr_size) - 1) as u32) == 0);
            }
        }
        assert forall|i: int, j: int|
            0 <= i < j < s.len() implies #[trigger] offs[i] + spec_size(s[i], ptr_size).unwrap() <= #[trigger] offs[j] by {
            assert(prefix[i] == s[i]);
            assert(offs[i] == o[i]);
            assert(o[i] + spec_size(prefix[i], ptr_size).unwrap() <= end);
            if j < n {
                assert(prefix[j] == s[j]);
                assert(offs[j] == o[j]);
                assert(o[i] + spec_size(prefix[i], ptr_size).unwrap() <= o[j]);
            }
        }
        assert forall|i: int| 0 <= i < s.len() implies #[trigger] offs[i] + spec_size(s[i], ptr_size).unwrap() <= new_end by {
            if i < n {
                assert(prefix[i] == s[i]);
                assert(offs[i] == o[i]);
                assert(o[i] + spec_size(prefix[i], ptr_size).unwrap() <= end);
            }
        }
        assert(is_power_of_two(max_u32(ma, a)));
        assert forall|i: int| 0 <= i < s.len() implies #[trigger] field_align(s[i], ptr_size) <= spec_tuple_layout(s, ptr_size).unwrap().1 by {
            if i < n {
                assert(prefix[i] == s[i]);
                assert(field_align(prefix[i], ptr_size) <= ma);
            }
        }
    } else {
        assert((1u32 & 0u32) == 0) by (bit_vector);
    }
}

/// The fields of a tuple fit in its size as the target lays them out: there are offsets at which
/// each field starts at a multiple of its alignment, after the end of the field before it, and
/// ends within the tuple's size. (Alignments are powers of two, as on every target.)
pub proof fn lemma_tuple_fields_placed(fields: Seq<TypeView>, ptr_size: u32)
    requires
        spec_size(TypeView::Tuple(fields), ptr_size) is Some,
        forall|i: int| 0 <= i < fields.len() ==> is_power_of_two(#[trigger] field_align(fields[i], ptr_size)),
    ensures
        exists|offsets: Seq<u32>| fields_placed(fields, ptr_size, offsets, spec_size(TypeView::Tuple(fields), ptr_size).unwrap() as int),
{
    lemma_layout_places_fields(fields, ptr_size);
    let (end, ma) = spec_tuple_layout(fields, ptr_size).unwrap();
    lemma_align_up(end, ma);
    let total = spec_size(TypeView::Tuple(fields), ptr_size).unwrap();
    let offs = field_offsets(fields, ptr_size);
    assert forall|i: int| 0 <= i < fields.len() implies #[trigger] offs[i] + spec_size(fields[i], ptr_size).unwrap() <= total by {}
    assert(fields_placed(fields, ptr_size, offs, total as int));
}

/// A tuple's size is a multiple of the alignment of each of its fields, trailing padding
/// included, so that tuples of it can be laid out one after another.
pub proof fn lemma_tuple_size_aligned(fields: Seq<TypeView>, ptr_size: u32)
    requires
        spec_size(TypeView::Tuple(fields), ptr_size) is Some,
        forall|i: int| 0 <= i < fields.len() ==> is_power_of_two(#[trigger] field_align(fields[i], ptr_size)),
    ensures
        forall|i: int|
            0 <= i < fields.len() ==> spec_size(TypeView::Tuple(fields), ptr_size).unwrap() & ((#[trigger] field_align(
                fields[i],
                ptr_size,
            ) - 1) as u32) == 0,
{
    lemma_layout_places_fields(fields, ptr_size);
    let (end, ma) = spec_tuple_layout(fields, ptr_size).unwrap();
    lemma_align_up(end, ma);
    let total = spec_size(TypeView::Tuple(fields), ptr_size).unwrap();
    assert forall|i: int| 0 <= i < fields.len() implies total & ((#[trigger] field_align(fields[i], ptr_size) - 1) as u32) == 0 by {
        let a = field_align(fields[i], ptr_size);
        assert(is_power_of_two(a));
        assert(a <= ma);
        assert((total & ((a - 1) as u32)) == 0) by (bit_vector)
            requires
                a >= 1,
                a & ((a - 1) as u32) == 0,
                ma >= 1,
                ma & ((ma - 1) as u32) == 0,
                a <= ma,
                total & ((ma - 1) as u32) == 0,
        ;
    }
}

/// A union is as large as its largest variant: no smaller than any variant, and the size of one
/// of them when it has any.
pub proof fn lemma_union_size_is_largest(variants: Seq<TypeView>, ptr_size: u32)
    requires
        spec_size(TypeView::Union(variants), ptr_size) is Some,
    ensures
        forall|i: int|
            0 <= i < variants.len() ==> spec_size(TypeView::Union(variants), ptr_size).unwrap() >= spec_size(
                #[trigger] variants[i],
                ptr_size,
            ).unwrap(),
        variants.len() > 0 ==> exists|i: int|
            0 <= i < variants.len() && spec_size(#[trigger] variants[i], ptr_size) == spec_size(TypeView::Union(variants), ptr_size),
        variants.len() == 0 ==> spec_size(TypeView::Union(variants), ptr_size) == Some(0u32),
{
    assert(spec_size(TypeView::Union(variants), ptr_size) == spec_union_size(variants, ptr_size));
    lemma_union_size_largest_seq(variants, ptr_size);
}

proof fn lemma_union_size_largest_seq(variants: Seq<TypeView>, ptr_size: u32)
    requires
        spec_union_size(variants, ptr_size) is Some,
    ensures
        forall|i: int|
            0 <= i < variants.len() ==> spec_union_size(variants, ptr_size).unwrap() >= spec_size(#[trigger] variants[i], ptr_size).unwrap(),
        variants.len() > 0 ==> exists|i: int|
            0 <= i < variants.len() && spec_size(#[trigger] variants[i], ptr_size) == spec_union_size(variants, ptr_size),
        variants.len() == 0 ==> spec_union_size(variants, ptr_size) == Some(0u32),
    decreases variants.len(),
{
    if variants.len() > 0 {
        let p = variants.subrange(0, variants.len() - 1);
        let n = variants.len() - 1;
        lemma_union_size_largest_seq(p, ptr_size);
        assert forall|i: int| 0 <= i < variants.len() implies spec_union_size(variants, ptr_size).unwrap() >= spec_size(
            #[trigger] variants[i],
            ptr_size,
        ).unwrap() by {
            if i < n {
                assert(p[i] == variants[i]);
            }
        }
        if spec_size(variants[n], ptr_size).unwrap() >= spec_union_size(p, ptr_size).unwrap() {
            assert(spec_size(variants[n], ptr_size) == spec_union_size(variants, ptr_size));
        } else {
            if p.len() > 0 {
                let j = choose|j: int| 0 <= j < p.len() && spec_size(#[trigger] p[j], ptr_size) == spec_union_size(p, ptr_size);
                assert(p[j] == variants[j]);
                assert(spec_size(variants[j], ptr_size) == spec_union_size(variants, ptr_size));
            }
        }
    }
}

fn max_of(a: u32, b: u32) -> (r: u32)
    ensures
        r == max_u32(a, b),
{
    if a >= b {
        a
    } else {
        b
    }
}

/// Computes `(x + a - 1) & !(a - 1)`.
fn round_up(x: u32, a: u32) -> (r: u32)
    requires
        align_up_fits(x, a),
    ensures
        r == align_up(x, a),
{
    (x + a - 1) & !(a - 1)
}

impl Type {
    /// Natural alignment of this type in bytes (LLVM's `getABITypeAlignment`).
    /// For tuples this is the maximum alignment of any field.
    pub fn align_in_bytes(&self, ptr_size: u32) -> (r: u32)
        requires
            spec_align(self@, ptr_size) is Some,
        ensures
            r == spec_align(self@, ptr_size).unwrap(),
        decreases self,
    {
        match self {
            Type::Primitive(primitive) => max_of(primitive.size_in_bytes(ptr_size), 1),
            Type::Tuple(fields) => align_of_all(fields, ptr_size),
            Type::Function(_) => ptr_size,
            Type::Union(variants) => align_of_all(variants, ptr_size),
            Type::Array { length: _, element } => element.align_in_bytes(ptr_size),
            Type::U32(_) => 1,
            Type::Generic(_) => 0,
        }
    }

    /// Retrieves the size in bytes of this type as it sits in memory, including any
    /// trailing alignment padding (the equivalent of LLVM's `getTypeAllocSize`).
    /// Result depends on the target machine.
    pub fn size_in_bytes(&self, ptr_size: u32) -> (r: u32)
        requires
            spec_size(self@, ptr_size) is Some,
        ensures
            r == spec_size(self@, ptr_size).unwrap(),
        decreases self,
    {
        match self {
            Type::Primitive(primitive) => primitive.size_in_bytes(ptr_size),
            Type::Tuple(fields) => tuple_size(fields, ptr_size),
            Type::Function(_) => ptr_size,
            // This is a raw union so the tag isn't counted here
            Type::Union(variants) => union_size(variants, ptr_size),
            Type::Array { length, element } => {
                let elem_size = element.size_in_bytes(ptr_size);
                let elem_align = max_of(element.align_in_bytes(ptr_size), 1);
                let stride = round_up(elem_size, elem_align);
                match &**length {
                    Type::U32(n) => {
                        proof {
                            assert(self@ == TypeView::Array(Box::new((**length)@), Box::new((**element)@)));
                            assert((**length)@ == TypeView::U32(*n));
                        }
                        stride * *n
                    },
                    _ => 0,
                }
            },
            Type::U32(_) => 0,
            Type::Generic(_) => 0,
        }
    }
}

/// The size of a tuple with the given fields: each field is placed at the next offset that its
/// alignment allows, and the total is rounded up to the largest field alignment.
fn tuple_size(fields: &Vec<Type>, ptr_size: u32) -> (r: u32)
    requires
        spec_size(TypeView::Tuple(types_view(fields@)), ptr_size) is Some,
    ensures
        r == spec_size(TypeView::Tuple(types_view(fields@)), ptr_size).unwrap(),
    decreases fields,
{
    let ghost s = types_view(fields@);
    let mut offset: u32 = 0;
    let mut max_align: u32 = 1;
    let mut i: usize = 0;
    proof {
        broadcast use lemma_types_view;

        assert(s.subrange(0, 0) =~= Seq::<TypeView>::empty());
    }
    while i < fields.len()
        invariant
            0 <= i <= fields@.len(),
            s == types_view(fields@),
            s.len() == fields@.len(),
            spec_tuple_layout(s, ptr_size) is Some,
            spec_tuple_layout(s.subrange(0, i as int), ptr_size) == Some((offset, max_align)),
        decreases fields@.len() - i,
    {
        proof {
            broadcast use lemma_types_view;

            lemma_tuple_layout_prefix(s, ptr_size, i + 1);
            lemma_prefix(s, i as int);
        }
        let a = max_of(fields[i].align_in_bytes(ptr_size), 1);
        let size = fields[i].size_in_bytes(ptr_size);
        offset = round_up(offset, a);
        offset = offset + size;
        if a > max_align {
            max_align = a;
        }
        i = i + 1;
    }
    proof {
        assert(s.subrange(0, i as int) =~= s);
    }
    round_up(offset, max_align)
}

/// The size of a raw union: the largest size among its variants, 0 when there are none.
fn union_size(variants: &Vec<Type>, ptr_size: u32) -> (r: u32)
    requires
        spec_union_size(types_view(variants@), ptr_size) is Some,
    ensures
        r == spec_union_size(types_view(variants@), ptr_size).unwrap(),
    decreases variants,
{
    let ghost s = types_view(variants@);
    let mut largest: u32 = 0;
    let mut i: usize = 0;
    proof {
        broadcast use lemma_types_view;

        assert(s.subrange(0, 0) =~= Seq::<TypeView>::empty());
    }
    while i < variants.len()
        invariant
            0 <= i <= variants@.len(),
            s == types_view(variants@),
            s.len() == variants@.len(),
            spec_union_size(s, ptr_size) is Some,
            spec_union_size(s.subrange(0, i as int), ptr_size) == Some(largest),
        decreases variants@.len() - i,
    {
        proof {
            broadcast use lemma_types_view;

            lemma_union_size_prefix(s, ptr_size, i + 1);
            lemma_prefix(s, i as int);
        }
        let size = variants[i].size_in_bytes(ptr_size);
        largest = max_of(largest, size);
        i = i + 1;
    }
    proof {
        assert(s.subrange(0, i as int) =~= s);
    }
    largest
}

/// The largest alignment among `types`, or 1 when there are none.
fn align_of_all(types: &Vec<Type>, ptr_size: u32) -> (r: u32)
    requires
        spec_seq_align(types_view(types@), ptr_size) is Some,
    ensures
        r == spec_seq_align(types_view(types@), ptr_size).unwrap(),
    decreases types,
{
    let ghost s = types_view(types@);
    proof {
        broadcast use lemma_types_view;

    }
    if types.len() == 0 {
        return 1;
    }
    proof {
        lemma_seq_align_prefix(s, ptr_size, 1);
        assert(s.subrange(0, 1)[0] == s[0]);
    }
    let mut largest: u32 = types[0].align_in_bytes(ptr_size);
    let mut i: usize = 1;
    while i < types.len()
        invariant
            1 <= i <= types@.len(),
            s == types_view(types@),
            s.len() == types@.len(),
            spec_seq_align(s, ptr_size) is Some,
            spec_seq_align(s.subrange(0, i as int), ptr_size) == Some(largest),
        decreases types@.len() - i,
    {
        proof {
            broadcast use lemma_types_view;

            lemma_seq_align_prefix(s, ptr_size, i + 1);
            lemma_prefix(s, i as int);
        }
        let a = types[i].align_in_bytes(ptr_size);
        largest = max_of(largest, a);
        i = i + 1;
    }
    proof {
        assert(s.subrange(0, i as int) =~= s);
    }
    largest
}

} // verus!
