//! Substituting generic arguments into a [Type].
use crate::mir::types::{FunctionType, FunctionTypeView, Type, TypeView, lemma_types_view, types_view};
use std::sync::Arc;
use vstd::prelude::*;

verus! {

/// `t` with each `Generic(i)` for which `args` has an `i`th element replaced by that element.
pub open spec fn spec_substitute(t: TypeView, args: Seq<TypeView>) -> TypeView
    decreases t,
{
    match t {
        TypeView::Primitive(p) => TypeView::Primitive(p),
        TypeView::Generic(g) => if g < args.len() {
            args[g as int]
        } else {
            TypeView::Generic(g)
        },
        TypeView::U32(n) => TypeView::U32(n),
        TypeView::Tuple(elements) => TypeView::Tuple(spec_substitute_all(elements, args)),
        TypeView::Function(f) => TypeView::Function(
            Box::new(
                FunctionTypeView {
                    parameters: spec_substitute_all(f.parameters, args),
                    environment: spec_substitute(f.environment, args),
                    return_type: spec_substitute(f.return_type, args),
                },
            ),
        ),
        TypeView::Union(variants) => TypeView::Union(spec_substitute_all(variants, args)),
        TypeView::Array(length, element) => TypeView::Array(
            Box::new(spec_substitute(*length, args)),
            Box::new(spec_substitute(*element, args)),
        ),
    }
}

/// [spec_substitute] applied to each element of `s`.
pub open spec fn spec_substitute_all(s: Seq<TypeView>, args: Seq<TypeView>) -> Seq<TypeView>
    decreases s,
{
    if s.len() == 0 {
        Seq::empty()
    } else {
        seq![spec_substitute(s[0], args)] + spec_substitute_all(s.subrange(1, s.len() as int), args)
    }
}

pub broadcast proof fn lemma_substitute_all(s: Seq<TypeView>, args: Seq<TypeView>)
    ensures
        #[trigger] spec_substitute_all(s, args).len() == s.len(),
        forall|i: int|
            0 <= i < s.len() ==> #[trigger] spec_substitute_all(s, args)[i] == spec_substitute(s[i], args),
    decreases s.len(),
{
    if s.len() > 0 {
        lemma_substitute_all(s.subrange(1, s.len() as int), args);
        assert forall|i: int| 0 <= i < s.len() implies #[trigger] spec_substitute_all(s, args)[i]
            == spec_substitute(s[i], args) by {
            if i > 0 {
                assert(s.subrange(1, s.len() as int)[i - 1] == s[i]);
            }
        }
    }
}

/// Substituting no generic arguments leaves every type unchanged.
pub proof fn lemma_substitute_nothing(t: TypeView)
    ensures
        spec_substitute(t, Seq::empty()) == t,
    decreases t,
{
    match t {
        TypeView::Tuple(elements) => lemma_substitute_all_nothing(elements),
        TypeView::Union(variants) => lemma_substitute_all_nothing(variants),
        TypeView::Function(f) => {
            lemma_substitute_all_nothing(f.parameters);
            lemma_substitute_nothing(f.environment);
            lemma_substitute_nothing(f.return_type);
            assert(spec_substitute(t, Seq::empty())->Function_0 == f);
        },
        TypeView::Array(length, element) => {
            lemma_substitute_nothing(*length);
            lemma_substitute_nothing(*element);
        },
        _ => {},
    }
}

proof fn lemma_substitute_all_nothing(s: Seq<TypeView>)
    ensures
        spec_substitute_all(s, Seq::empty()) == s,
    decreases s,
{
    if s.len() > 0 {
        lemma_substitute_nothing(s[0]);
        lemma_substitute_all_nothing(s.subrange(1, s.len() as int));
        assert(spec_substitute_all(s, Seq::empty()) =~= s);
    }
}

/// The type arguments `Generic(0)`, ..., `Generic(n - 1)`: each generic bound to itself.
pub open spec fn identity_args(n: nat) -> Seq<TypeView> {
    Seq::new(n, |i: int| TypeView::Generic(i as u32))
}

/// Binding each generic to itself changes nothing: substituting `Generic(0)`, ...,
/// `Generic(n - 1)` into any type gives that type back.
pub proof fn lemma_substitute_identity(t: TypeView, n: nat)
    requires
        n <= 0x1_0000_0000,
    ensures
        spec_substitute(t, identity_args(n)) == t,
    decreases t,
{
    match t {
        TypeView::Tuple(elements) => lemma_substitute_all_identity(elements, n),
        TypeView::Union(variants) => lemma_substitute_all_identity(variants, n),
        TypeView::Function(f) => {
            lemma_substitute_all_identity(f.parameters, n);
            lemma_substitute_identity(f.environment, n);
            lemma_substitute_identity(f.return_type, n);
            assert(spec_substitute(t, identity_args(n))->Function_0 == f);
        },
        TypeView::Array(length, element) => {
            lemma_substitute_identity(*length, n);
            lemma_substitute_identity(*element, n);
        },
        _ => {},
    }
}

/// The law of [Type::substitute] with identity bindings: substituting the vector
/// `Generic(0), ..., Generic(n - 1)` (what `(0..n).map(Type::generic)` makes) into a type
/// changes nothing.
pub proof fn lemma_substitute_identity_bindings(t: Type, args: Seq<Type>)
    requires
        args.len() <= 0x1_0000_0000,
        forall|i: int| 0 <= i < args.len() ==> (#[trigger] args[i])@ == TypeView::Generic(i as u32),
    ensures
        spec_substitute(t@, types_view(args)) == t@,
{
    lemma_types_view(args);
    assert(types_view(args) =~= identity_args(args.len()));
    lemma_substitute_identity(t@, args.len());
}

proof fn lemma_substitute_all_identity(s: Seq<TypeView>, n: nat)
    requires
        n <= 0x1_0000_0000,
    ensures
        spec_substitute_all(s, identity_args(n)) == s,
    decreases s,
{
    if s.len() > 0 {
        lemma_substitute_identity(s[0], n);
        lemma_substitute_all_identity(s.subrange(1, s.len() as int), n);
        assert(spec_substitute_all(s, identity_args(n)) =~= s);
    }
}

/// Substitutes every element of `types`.
pub fn substitute_all(types: &Vec<Type>, generic_args: &Vec<Type>) -> (r: Vec<Type>)
    ensures
        types_view(r@) == spec_substitute_all(types_view(types@), types_view(generic_args@)),
    decreases types,
{
    let ghost args = types_view(generic_args@);
    let ghost s = types_view(types@);
    proof {
        broadcast use lemma_types_view;

    }
    let mut r: Vec<Type> = Vec::new();
    let mut i: usize = 0;
    while i < types.len()
        invariant
            0 <= i <= types@.len(),
            args == types_view(generic_args@),
            s == types_view(types@),
            s.len() == types@.len(),
            r@.len() == i,
            forall|j: int| 0 <= j < i ==> #[trigger] r@[j]@ == spec_substitute(s[j], args),
        decreases types@.len() - i,
    {
        proof {
            broadcast use lemma_types_view;

        }
        let t = types[i].substitute(generic_args);
        r.push(t);
        proof {
            assert(s[i as int] == types@[i as int]@);
        }
        i = i + 1;
    }
    proof {
        lemma_types_view(r@);
        lemma_substitute_all(s, args);
        assert forall|j: int| 0 <= j < r@.len() implies #[trigger] types_view(r@)[j] == spec_substitute_all(
            s,
            args,
        )[j] by {
            assert(types_view(r@)[j] == r@[j]@);
        }
        assert(types_view(r@) =~= spec_substitute_all(s, args));
    }
    r
}

impl Type {
    /// Substitute in the given generic arguments. Replacing each `Generic(i)` with `generic_args[i]`.
    pub fn substitute(&self, generic_args: &Vec<Type>) -> (r: Type)
        ensures
            r@ == spec_substitute(self@, types_view(generic_args@)),
        decreases self,
    {
        proof {
            broadcast use lemma_types_view;

        }
        match self {
            Type::Primitive(primitive) => Type::Primitive(*primitive),
            Type::Generic(generic) => {
                if (generic.0 as usize) < generic_args.len() {
                    generic_args[generic.0 as usize].clone()
                } else {
                    Type::Generic(*generic)
                }
            },
            Type::U32(n) => Type::U32(*n),
            Type::Tuple(elements) => Type::Tuple(Arc::new(substitute_all(elements, generic_args))),
            Type::Function(function_type) => {
                let parameters = substitute_all(&function_type.parameters, generic_args);
                let environment = function_type.environment.substitute(generic_args);
                let return_type = function_type.return_type.substitute(generic_args);
                let r = Type::Function(Arc::new(FunctionType { parameters, environment, return_type }));
                proof {
                    assert(r@->Function_0 == spec_substitute(self@, types_view(generic_args@))->Function_0);
                }
                r
            },
            Type::Union(variants) => Type::Union(Arc::new(substitute_all(variants, generic_args))),
            Type::Array { length, element } => Type::Array {
                length: Arc::new(length.substitute(generic_args)),
                element: Arc::new(element.substitute(generic_args)),
            },
        }
    }
}

} // verus!
