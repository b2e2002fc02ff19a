use ante_mir::mir::effects::abort::jmp_buf_type;
use ante_mir::mir::effects::lowering::is_zero_sized;
use ante_mir::mir::instruction::identity_bindings;
use ante_mir::mir::types::{types_equal, FloatKind, FunctionType, IntegerKind, PrimitiveType, Type};
use std::sync::Arc;

fn integer_type(kind: IntegerKind) -> Type {
    Type::integer(kind)
}

fn function(parameters: Vec<Type>, environment: Type, return_type: Type) -> Type {
    Type::Function(Arc::new(FunctionType { parameters, environment, return_type }))
}

#[test]
fn primitive_sizes() {
    assert_eq!(PrimitiveType::Int(IntegerKind::I8).size_in_bytes(8), 1);
    assert_eq!(PrimitiveType::Int(IntegerKind::U16).size_in_bytes(8), 2);
    assert_eq!(PrimitiveType::Int(IntegerKind::I32).size_in_bytes(8), 4);
    assert_eq!(PrimitiveType::Int(IntegerKind::U64).size_in_bytes(8), 8);
    assert_eq!(PrimitiveType::Int(IntegerKind::Usz).size_in_bytes(4), 4);
    assert_eq!(PrimitiveType::Float(FloatKind::F32).size_in_bytes(8), 4);
    assert_eq!(PrimitiveType::Float(FloatKind::F64).size_in_bytes(8), 8);
    assert_eq!(PrimitiveType::Pointer.size_in_bytes(8), 8);
    assert!(IntegerKind::I64.is_signed());
    assert!(!IntegerKind::Usz.is_signed());
}

#[test]
fn tuple_layout_pads_fields_and_total() {
    // (U8, U32): the U32 starts at offset 4, and the tuple is 8 bytes aligned to 4.
    let t = Type::tuple(vec![integer_type(IntegerKind::U8), integer_type(IntegerKind::U32)]);
    assert_eq!(t.size_in_bytes(8), 8);
    assert_eq!(t.align_in_bytes(8), 4);
    // (U32, U8): 5 bytes of data, rounded up to 8.
    let t = Type::tuple(vec![integer_type(IntegerKind::U32), integer_type(IntegerKind::U8)]);
    assert_eq!(t.size_in_bytes(8), 8);
}

#[test]
fn union_array_and_function_layout() {
    let u = Type::union(vec![integer_type(IntegerKind::U8), integer_type(IntegerKind::U64)]);
    assert_eq!(u.size_in_bytes(8), 8);
    assert_eq!(u.align_in_bytes(8), 8);
    let a = Type::array_with_length(Type::U32(3), integer_type(IntegerKind::U16));
    assert_eq!(a.size_in_bytes(8), 6);
    assert_eq!(a.align_in_bytes(8), 2);
    let f = function(vec![], Type::no_closure_env(), Type::unit());
    assert_eq!(f.size_in_bytes(4), 4);
    assert_eq!(jmp_buf_type().size_in_bytes(8), 256);
}

#[test]
fn substitute_replaces_generics_in_range() {
    let t = Type::tuple(vec![Type::generic(0), Type::generic(1)]);
    let r = t.substitute(&vec![integer_type(IntegerKind::U8)]);
    assert!(types_equal(&r, &Type::tuple(vec![integer_type(IntegerKind::U8), Type::generic(1)])));
    // Substituting nothing leaves the type as it is.
    let same = t.substitute(&vec![]);
    assert!(types_equal(&same, &t));
}

#[test]
fn select_largest_variants_removes_unions() {
    let mut t = Type::tuple(vec![Type::union(vec![integer_type(IntegerKind::U8), integer_type(IntegerKind::U32)]), Type::bool_type()]);
    assert!(t.contains_union());
    t.select_largest_variants(8);
    assert!(!t.contains_union());
    assert!(types_equal(&t, &Type::tuple(vec![integer_type(IntegerKind::U32), Type::bool_type()])));
    let largest = Type::find_largest_variant(&vec![integer_type(IntegerKind::U16), integer_type(IntegerKind::U64), integer_type(IntegerKind::U8)], 8);
    assert!(types_equal(&largest, &integer_type(IntegerKind::U64)));
}

#[test]
fn types_equal_is_structural() {
    let a = function(vec![integer_type(IntegerKind::I32)], Type::no_closure_env(), Type::unit());
    let b = function(vec![integer_type(IntegerKind::I32)], Type::no_closure_env(), Type::unit());
    let c = function(vec![integer_type(IntegerKind::I64)], Type::no_closure_env(), Type::unit());
    assert!(types_equal(&a, &b));
    assert!(!types_equal(&a, &c));
    assert!(!types_equal(&Type::unit(), &Type::pointer()));
}

#[test]
fn closures_and_kinds() {
    let closure = function(vec![], Type::pointer(), Type::unit());
    let plain = function(vec![], Type::no_closure_env(), Type::unit());
    assert!(closure.is_closure());
    assert!(!plain.is_closure());
    assert!(integer_type(IntegerKind::U8).is_unsigned_int());
    assert!(integer_type(IntegerKind::I8).is_signed_int());
    assert!(Type::float(FloatKind::F64).is_float());
    assert!(Type::char_type().can_be_used_as_integer());
    assert!(!Type::pointer().can_be_used_as_integer());
}

#[test]
fn contains_union_or_generic_skips_environments() {
    assert!(Type::generic(0).contains_union_or_generic());
    assert!(Type::tuple(vec![Type::unit(), Type::union(vec![])]).contains_union_or_generic());
    assert!(!Type::tuple(vec![Type::unit(), Type::pointer()]).contains_union_or_generic());
    // A function's environment is not looked at.
    assert!(!function(vec![], Type::generic(0), Type::unit()).contains_union_or_generic());
    assert!(function(vec![Type::generic(0)], Type::no_closure_env(), Type::unit()).contains_union_or_generic());
}

#[test]
fn zero_sized_types() {
    assert!(is_zero_sized(&Type::unit()));
    assert!(is_zero_sized(&Type::tuple(vec![Type::unit(), Type::tuple(vec![])])));
    assert!(!is_zero_sized(&Type::tuple(vec![Type::unit(), Type::bool_type()])));
}

#[test]
fn identity_bindings_lists_generics() {
    assert!(identity_bindings(0).is_none());
    let bindings = identity_bindings(3).unwrap();
    assert_eq!(bindings.len(), 3);
    for (i, t) in bindings.iter().enumerate() {
        assert!(types_equal(t, &Type::generic(i as u32)));
    }
}

#[test]
fn union_tag_and_return_types() {
    let f = function(vec![], Type::no_closure_env(), Type::bool_type());
    assert!(types_equal(f.function_return_type().unwrap(), &Type::bool_type()));
    assert!(Type::unit().function_return_type().is_none());
    let tagged = Type::tuple(vec![Type::tag_type(), Type::union(vec![Type::unit()])]);
    assert!(types_equal(&tagged.without_union_tag().unwrap(), &Type::union(vec![Type::unit()])));
}
