use ante_mir::mir::cps::effect_stack::{Effect, EffectStack};
use ante_mir::mir::types::Type;
use ante_mir::mir::values::{DefinitionId, Value};
use ante_mir::name_resolution::builtin::{str_equals, Builtin};
use ante_mir::name_resolution::namespace::{crate_root_module, CrateId, LocalModuleId, Namespace, SourceFileId};
use ante_mir::name_resolution::origin::{NameId, Origin, TopLevelName};
use ante_mir::text::{push_decimal, push_signed_decimal};

fn effect(id: u32, time_stamp: usize) -> Effect {
    Effect { id: DefinitionId(id), handler: Value::Unit, handler_type: Type::unit(), time_stamp }
}

#[test]
fn builtins_by_name() {
    assert_eq!(Builtin::from_name("Unit"), Some(Builtin::Unit));
    assert_eq!(Builtin::from_name("Char"), Some(Builtin::Char));
    assert_eq!(Builtin::from_name("Bool"), Some(Builtin::Bool));
    assert_eq!(Builtin::from_name("Ptr"), Some(Builtin::Ptr));
    assert_eq!(Builtin::from_name("Array"), Some(Builtin::Array));
    assert_eq!(Builtin::from_name("Never"), Some(Builtin::Never));
    // `intrinsic` is not exposed to modules.
    assert_eq!(Builtin::from_name("intrinsic"), None);
    assert_eq!(Builtin::from_name("unit"), None);
    assert_eq!(Builtin::from_name(""), None);
}

#[test]
fn builtin_names_round_trip() {
    for b in [Builtin::Unit, Builtin::Char, Builtin::Bool, Builtin::Ptr, Builtin::Array, Builtin::Never] {
        assert_eq!(Builtin::from_name(&b.to_string()), Some(b));
    }
    assert_eq!(Builtin::Intrinsic.to_string(), "intrinsic");
    assert!(str_equals("abc", "abc"));
    assert!(!str_equals("abc", "abd"));
}

#[test]
fn effect_stacks_compare_by_height_and_top_stamp() {
    let mut a = EffectStack::new(vec![effect(1, 0)]);
    let mut b = EffectStack::new(vec![effect(2, 0)]);
    assert!(a == b);
    a.push(effect(3, 5));
    assert!(a != b);
    b.push(effect(4, 5));
    assert!(a == b);
    assert!(EffectStack::default() == EffectStack::new(vec![]));
    assert!(EffectStack::default().is_empty());
    assert_eq!(a.len(), 2);
    assert_eq!(a.as_slice().len(), 2);
    let copy = a.clone();
    assert!(copy == a);
}

#[test]
fn find_gives_the_outermost_matching_effect() {
    let stack = EffectStack::new(vec![effect(1, 0), effect(2, 1), effect(1, 2)]);
    assert_eq!(stack.find(DefinitionId(1)).time_stamp, 0);
    assert_eq!(stack.find(DefinitionId(2)).time_stamp, 1);
}

#[test]
fn crate_namespaces_and_ids() {
    assert_eq!(CrateId::stdlib(), CrateId(0));
    assert_eq!(CrateId::local(), CrateId(1));
    assert_eq!(crate_root_module(), LocalModuleId(0));
    assert!(
        Namespace::crate_(CrateId(7))
            == Namespace::Module(SourceFileId { crate_id: CrateId(7), local_module_id: LocalModuleId(0) })
    );
    assert!(SourceFileId { crate_id: CrateId(0), local_module_id: LocalModuleId(9) } < SourceFileId { crate_id: CrateId(1), local_module_id: LocalModuleId(0) });
}

#[test]
fn decimal_numerals() {
    let mut s = String::from("v");
    push_decimal(&mut s, 0);
    push_decimal(&mut s, 1234567890);
    assert_eq!(s, "v01234567890");
    let mut t = String::new();
    push_signed_decimal(&mut t, -42);
    push_signed_decimal(&mut t, i64::MIN);
    assert_eq!(t, "-42-9223372036854775808");
}

#[test]
fn origins_that_may_be_types() {
    assert!(Origin::Local(NameId(3)).may_be_a_type());
    assert!(Origin::TopLevelDefinition(TopLevelName { top_level_item: 7, local_name_id: NameId(0) }).may_be_a_type());
    assert!(!Origin::TypeResolution.may_be_a_type());
    assert!(Origin::Builtin(Builtin::Unit).may_be_a_type());
    assert!(Origin::Builtin(Builtin::Char).may_be_a_type());
    assert!(!Origin::Builtin(Builtin::Bool).may_be_a_type());
    assert!(!Origin::Builtin(Builtin::Intrinsic).may_be_a_type());
}
