//! The types of MIR values, together with a mathematical model of them
//! ([TypeView]) that the contracts of the passes are stated over.
use std::sync::Arc;
use vstd::prelude::*;

verus! {

/// The width and signedness of an integer type.
#[derive(PartialEq, Eq, Structural, Clone, Copy, Debug, Hash, PartialOrd, Ord)]
pub enum IntegerKind {
    I8,
    I16,
    I32,
    I64,
    Isz,
    U8,
    U16,
    U32,
    U64,
    Usz,
}

/// The width of a floating-point type.
#[derive(PartialEq, Eq, Structural, Clone, Copy, Debug, Hash, PartialOrd, Ord)]
pub enum FloatKind {
    F32,
    F64,
}

pub open spec fn spec_integer_size(kind: IntegerKind, ptr_size: u32) -> u32 {
    match kind {
        IntegerKind::I8 | IntegerKind::U8 => 1,
        IntegerKind::I16 | IntegerKind::U16 => 2,
        IntegerKind::I32 | IntegerKind::U32 => 4,
        IntegerKind::I64 | IntegerKind::U64 => 8,
        IntegerKind::Isz | IntegerKind::Usz => ptr_size,
    }
}

pub open spec fn spec_integer_is_signed(kind: IntegerKind) -> bool {
    match kind {
        IntegerKind::I8 | IntegerKind::I16 | IntegerKind::I32 | IntegerKind::I64 | IntegerKind::Isz => true,
        _ => false,
    }
}

impl IntegerKind {
    /// The size in bytes of an integer of this kind; `ptr_size` is the size of a pointer.
    pub fn size_in_bytes(self, ptr_size: u32) -> (r: u32)
        ensures
            r == spec_integer_size(self, ptr_size),
    {
        match self {
            IntegerKind::I8 | IntegerKind::U8 => 1,
            IntegerKind::I16 | IntegerKind::U16 => 2,
            IntegerKind::I32 | IntegerKind::U32 => 4,
            IntegerKind::I64 | IntegerKind::U64 => 8,
            IntegerKind::Isz | IntegerKind::Usz => ptr_size,
        }
    }

    /// True for the signed kinds `I8` through `Isz`.
    pub fn is_signed(self) -> (r: bool)
        ensures
            r == spec_integer_is_signed(self),
    {
        match self {
            IntegerKind::I8 | IntegerKind::I16 | IntegerKind::I32 | IntegerKind::I64 | IntegerKind::Isz => true,
            _ => false,
        }
    }
}

pub open spec fn spec_float_size(kind: FloatKind) -> u32 {
    match kind {
        FloatKind::F32 => 4,
        FloatKind::F64 => 8,
    }
}

impl FloatKind {
    /// The size in bytes of a float of this kind.
    pub fn size_in_bytes(self) -> (r: u32)
        ensures
            r == spec_float_size(self),
    {
        match self {
            FloatKind::F32 => 4,
            FloatKind::F64 => 8,
        }
    }
}

#[derive(PartialEq, Eq, Structural, Clone, Copy, Debug, Hash, PartialOrd, Ord)]
pub enum PrimitiveType {
    Error,
    Unit,
    Bool,
    /// An opaque pointer type
    Pointer,
    Char,
    Int(IntegerKind),
    Float(FloatKind),
    NoClosureEnv,
}

pub open spec fn spec_primitive_size(p: PrimitiveType, ptr_size: u32) -> u32 {
    match p {
        PrimitiveType::Error | PrimitiveType::NoClosureEnv | PrimitiveType::Unit => 0,
        PrimitiveType::Bool => 1,
        PrimitiveType::Pointer => ptr_size,
        PrimitiveType::Char => 1,
        PrimitiveType::Int(kind) => spec_integer_size(kind, ptr_size),
        PrimitiveType::Float(kind) => spec_float_size(kind),
    }
}

impl PrimitiveType {
    /// The size in bytes of this primitive; `ptr_size` is the size of a pointer.
    pub fn size_in_bytes(self, ptr_size: u32) -> (r: u32)
        ensures
            r == spec_primitive_size(self, ptr_size),
    {
        match self {
            PrimitiveType::Error | PrimitiveType::NoClosureEnv | PrimitiveType::Unit => 0,
            PrimitiveType::Bool => 1,
            PrimitiveType::Pointer => ptr_size,
            PrimitiveType::Char => 1,
            PrimitiveType::Int(kind) => kind.size_in_bytes(ptr_size),
            PrimitiveType::Float(kind) => kind.size_in_bytes(),
        }
    }
}

/// Generics are represented as their index into their function's generic_count
#[derive(PartialEq, Eq, Structural, Clone, Copy, Debug, Hash)]
pub struct Generic(pub u32);

pub struct FunctionType {
    pub parameters: Vec<Type>,
    /// If this is anything other than Type::NO_CLOSURE_ENV, then this function is a closure
    pub environment: Type,
    pub return_type: Type,
}

pub enum Type {
    Primitive(PrimitiveType),
    Tuple(Arc<Vec<Type>>),
    Function(Arc<FunctionType>),
    /// A C-style union of the given types. Sum types are encoded as this + a tag.
    Union(Arc<Vec<Type>>),
    Array { length: Arc<Type>, element: Arc<Type> },
    /// A type-level U32
    U32(u32),
    Generic(Generic),
}

/// The mathematical model of a [FunctionType].
pub struct FunctionTypeView {
    pub parameters: Seq<TypeView>,
    pub environment: TypeView,
    pub return_type: TypeView,
}

/// The mathematical model of a [Type]: the same tree with sequences in place of vectors.
pub enum TypeView {
    Primitive(PrimitiveType),
    Tuple(Seq<TypeView>),
    Function(Box<FunctionTypeView>),
    Union(Seq<TypeView>),
    Array(Box<TypeView>, Box<TypeView>),
    U32(u32),
    Generic(u32),
}

pub open spec fn type_view(t: Type) -> TypeView
    decreases t,
{
    match t {
        Type::Primitive(p) => TypeView::Primitive(p),
        Type::Tuple(fields) => TypeView::Tuple(types_view(fields@)),
        Type::Function(f) => TypeView::Function(
            Box::new(
                FunctionTypeView {
                    parameters: types_view(f.parameters@),
                    environment: type_view(f.environment),
                    return_type: type_view(f.return_type),
                },
            ),
        ),
        Type::Union(variants) => TypeView::Union(types_view(variants@)),
        Type::Array { length, element } => TypeView::Array(
            Box::new(type_view(*length)),
            Box::new(type_view(*element)),
        ),
        Type::U32(n) => TypeView::U32(n),
        Type::Generic(g) => TypeView::Generic(g.0),
    }
}

pub open spec fn types_view(s: Seq<Type>) -> Seq<TypeView>
    decreases s,
{
    if s.len() == 0 {
        Seq::empty()
    } else {
        seq![type_view(s[0])] + types_view(s.subrange(1, s.len() as int))
    }
}

pub broadcast proof fn lemma_types_view(s: Seq<Type>)
    ensures
        #[trigger] types_view(s).len() == s.len(),
        forall|i: int| 0 <= i < s.len() ==> #[trigger] types_view(s)[i] == type_view(s[i]),
    decreases s.len(),
{
    if s.len() > 0 {
        lemma_types_view(s.subrange(1, s.len() as int));
        assert forall|i: int| 0 <= i < s.len() implies #[trigger] types_view(s)[i] == type_view(s[i]) by {
            if i > 0 {
                assert(s.subrange(1, s.len() as int)[i - 1] == s[i]);
            }
        }
    }
}

pub proof fn lemma_types_view_push(s: Seq<Type>, t: Type)
    ensures
        types_view(s.push(t)) == types_view(s).push(type_view(t)),
{
    broadcast use lemma_types_view;
    assert(types_view(s.push(t)) =~= types_view(s).push(type_view(t)));
}

impl View for Type {
    type V = TypeView;

    open spec fn view(&self) -> TypeView {
        type_view(*self)
    }
}

impl View for FunctionType {
    type V = FunctionTypeView;

    open spec fn view(&self) -> FunctionTypeView {
        FunctionTypeView {
            parameters: types_view(self.parameters@),
            environment: type_view(self.environment),
            return_type: type_view(self.return_type),
        }
    }
}

/// Makes a second handle to the value behind an [Arc]. Calls `Arc::clone`, which (per std's
/// documentation) points the new handle at the same allocation, so the value seen through it is
/// the same.
#[verifier::external_body]
pub(crate) fn arc_clone<T>(a: &Arc<T>) -> (r: Arc<T>)
    ensures
        r == *a,
{
    Arc::clone(a)
}

impl Clone for Type {
    fn clone(&self) -> (r: Self)
        ensures
            r == *self,
    {
        match self {
            Type::Primitive(p) => Type::Primitive(*p),
            Type::Tuple(fields) => Type::Tuple(arc_clone(fields)),
            Type::Function(f) => Type::Function(arc_clone(f)),
            Type::Union(variants) => Type::Union(arc_clone(variants)),
            Type::Array { length, element } => Type::Array {
                length: arc_clone(length),
                element: arc_clone(element),
            },
            Type::U32(n) => Type::U32(*n),
            Type::Generic(g) => Type::Generic(*g),
        }
    }
}

/// Copies every element of `v` (cloning each), giving a vector equal to `v` element for element.
pub fn clone_types(v: &Vec<Type>) -> (r: Vec<Type>)
    ensures
        r@ == v@,
{
    let mut r: Vec<Type> = Vec::new();
    let mut i: usize = 0;
    while i < v.len()
        invariant
            0 <= i <= v@.len(),
            r@ == v@.subrange(0, i as int),
        decreases v@.len() - i,
    {
        r.push(v[i].clone());
        i = i + 1;
    }
    assert(r@ =~= v@);
    r
}

pub open spec fn is_no_closure_env_view(t: TypeView) -> bool {
    t == TypeView::Primitive(PrimitiveType::NoClosureEnv)
}

pub open spec fn spec_is_closure(f: FunctionTypeView) -> bool {
    !is_no_closure_env_view(f.environment)
}

impl FunctionType {
    /// True if this function carries a closure environment, i.e. its environment is anything
    /// other than `NoClosureEnv`.
    pub fn is_closure(&self) -> (r: bool)
        ensures
            r == spec_is_closure(self@),
    {
        match &self.environment {
            Type::Primitive(PrimitiveType::NoClosureEnv) => false,
            _ => true,
        }
    }

    /// Returns `Some(env)` if the environment is not `Type::NO_CLOSURE_ENV`,
    /// otherwise returns `None`
    pub fn environment(&self) -> (r: Option<&Type>)
        ensures
            spec_is_closure(self@) ==> r == Some(&self.environment),
            !spec_is_closure(self@) ==> r is None,
    {
        match &self.environment {
            Type::Primitive(PrimitiveType::NoClosureEnv) => None,
            other => Some(other),
        }
    }
}

impl Type {
    pub fn error() -> (r: Type)
        ensures
            r == Type::Primitive(PrimitiveType::Error),
    {
        Type::Primitive(PrimitiveType::Error)
    }

    pub fn unit() -> (r: Type)
        ensures
            r == Type::Primitive(PrimitiveType::Unit),
    {
        Type::Primitive(PrimitiveType::Unit)
    }

    pub fn bool_type() -> (r: Type)
        ensures
            r == Type::Primitive(PrimitiveType::Bool),
    {
        Type::Primitive(PrimitiveType::Bool)
    }

    pub fn pointer() -> (r: Type)
        ensures
            r == Type::Primitive(PrimitiveType::Pointer),
    {
        Type::Primitive(PrimitiveType::Pointer)
    }

    pub fn char_type() -> (r: Type)
        ensures
            r == Type::Primitive(PrimitiveType::Char),
    {
        Type::Primitive(PrimitiveType::Char)
    }

    pub fn no_closure_env() -> (r: Type)
        ensures
            r == Type::Primitive(PrimitiveType::NoClosureEnv),
    {
        Type::Primitive(PrimitiveType::NoClosureEnv)
    }

    pub fn integer(kind: IntegerKind) -> (r: Type)
        ensures
            r == Type::Primitive(PrimitiveType::Int(kind)),
    {
        Type::Primitive(PrimitiveType::Int(kind))
    }

    pub fn float(kind: FloatKind) -> (r: Type)
        ensures
            r == Type::Primitive(PrimitiveType::Float(kind)),
    {
        Type::Primitive(PrimitiveType::Float(kind))
    }

    /// The type of a string: a tuple of two pointers and two `U32`s.
    pub fn string() -> (r: Type)
        ensures
            r@ == TypeView::Tuple(
                seq![
                    TypeView::Primitive(PrimitiveType::Pointer),
                    TypeView::Primitive(PrimitiveType::Pointer),
                    TypeView::Primitive(PrimitiveType::Int(IntegerKind::U32)),
                    TypeView::Primitive(PrimitiveType::Int(IntegerKind::U32)),
                ],
            ),
    {
        let mut fields: Vec<Type> = Vec::new();
        fields.push(Type::pointer());
        fields.push(Type::pointer());
        fields.push(Type::integer(IntegerKind::U32));
        fields.push(Type::integer(IntegerKind::U32));
        proof {
            broadcast use lemma_types_view;

            assert(types_view(fields@) =~= seq![
                TypeView::Primitive(PrimitiveType::Pointer),
                TypeView::Primitive(PrimitiveType::Pointer),
                TypeView::Primitive(PrimitiveType::Int(IntegerKind::U32)),
                TypeView::Primitive(PrimitiveType::Int(IntegerKind::U32)),
            ]);
        }
        Type::Tuple(Arc::new(fields))
    }

    pub fn generic(index: u32) -> (r: Type)
        ensures
            r == Type::Generic(Generic(index)),
    {
        Type::Generic(Generic(index))
    }

    /// The type of a tagged-union's tag
    pub fn tag_type() -> (r: Type)
        ensures
            r == Type::Primitive(PrimitiveType::Int(IntegerKind::U8)),
    {
        Type::integer(IntegerKind::U8)
    }

    pub fn tuple(fields: Vec<Type>) -> (r: Type)
        ensures
            r == Type::Tuple(Arc::new(fields)),
            r@ == TypeView::Tuple(types_view(fields@)),
    {
        Type::Tuple(Arc::new(fields))
    }

    pub fn union(variants: Vec<Type>) -> (r: Type)
        ensures
            r == Type::Union(Arc::new(variants)),
            r@ == TypeView::Union(types_view(variants@)),
    {
        Type::Union(Arc::new(variants))
    }

    pub fn array_with_length(length: Type, element: Type) -> (r: Type)
        ensures
            r == (Type::Array { length: Arc::new(length), element: Arc::new(element) }),
            r@ == TypeView::Array(Box::new(length@), Box::new(element@)),
    {
        Type::Array { length: Arc::new(length), element: Arc::new(element) }
    }

    /// The return type of a function type, `None` for any other type.
    pub fn function_return_type(&self) -> (r: Option<&Type>)
        ensures
            match *self {
                Type::Function(f) => r == Some(&f.return_type),
                _ => r is None,
            },
    {
        match self {
            Type::Function(function) => Some(&function.return_type),
            _ => None,
        }
    }

    /// If this is a tagged-union type in the form `(tag, {union})`, return `{union}`
    /// otherwise return None.
    pub fn without_union_tag(&self) -> (r: Option<Type>)
        ensures
            match *self {
                Type::Tuple(fields) => if fields@.len() == 2 {
                    r == Some(fields@[1])
                } else {
                    r is None
                },
                _ => r is None,
            },
    {
        match self {
            Type::Tuple(fields) => {
                if fields.len() == 2 {
                    Some(fields[1].clone())
                } else {
                    None
                }
            },
            _ => None,
        }
    }

    /// True if the underlying representation of this type can be treated as an integer,
    /// often for casting intrinsics.
    pub fn can_be_used_as_integer(&self) -> (r: bool)
        ensures
            r == (*self is Primitive && (self->Primitive_0 is Int || self->Primitive_0 is Bool
                || self->Primitive_0 is Char)),
    {
        match self {
            Type::Primitive(PrimitiveType::Int(_)) => true,
            Type::Primitive(PrimitiveType::Bool) => true,
            Type::Primitive(PrimitiveType::Char) => true,
            _ => false,
        }
    }

    pub fn is_int(&self) -> (r: bool)
        ensures
            r == (*self is Primitive && self->Primitive_0 is Int),
    {
        match self {
            Type::Primitive(PrimitiveType::Int(_)) => true,
            _ => false,
        }
    }

    pub fn is_float(&self) -> (r: bool)
        ensures
            r == (*self is Primitive && self->Primitive_0 is Float),
    {
        match self {
            Type::Primitive(PrimitiveType::Float(_)) => true,
            _ => false,
        }
    }

    pub fn is_unsigned_int(&self) -> (r: bool)
        ensures
            r == (*self is Primitive && self->Primitive_0 is Int && !spec_integer_is_signed(
                self->Primitive_0->Int_0,
            )),
    {
        match self {
            Type::Primitive(PrimitiveType::Int(kind)) => !kind.is_signed(),
            _ => false,
        }
    }

    pub fn is_signed_int(&self) -> (r: bool)
        ensures
            r == (*self is Primitive && self->Primitive_0 is Int && spec_integer_is_signed(
                self->Primitive_0->Int_0,
            )),
    {
        match self {
            Type::Primitive(PrimitiveType::Int(kind)) => kind.is_signed(),
            _ => false,
        }
    }

    /// True if this is a function type carrying a closure environment.
    pub fn is_closure(&self) -> (r: bool)
        ensures
            r == (self@ is Function && spec_is_closure(*self@->Function_0)),
    {
        match self {
            Type::Function(function) => function.is_closure(),
            _ => false,
        }
    }
}


/// Whether two types are the same, structurally.
pub fn types_equal(a: &Type, b: &Type) -> (r: bool)
    ensures
        r == (a@ == b@),
    decreases a,
{
    match (a, b) {
        (Type::Primitive(p), Type::Primitive(q)) => *p == *q,
        (Type::Tuple(x), Type::Tuple(y)) => all_types_equal(x, y),
        (Type::Union(x), Type::Union(y)) => all_types_equal(x, y),
        (Type::Function(f), Type::Function(g)) => {
            let r = all_types_equal(&f.parameters, &g.parameters) && types_equal(&f.environment, &g.environment)
                && types_equal(&f.return_type, &g.return_type);
            proof {
                if !r {
                    assert(a@->Function_0.parameters != b@->Function_0.parameters || a@->Function_0.environment
                        != b@->Function_0.environment || a@->Function_0.return_type != b@->Function_0.return_type);
                }
            }
            r
        },
        (Type::Array { length: l1, element: e1 }, Type::Array { length: l2, element: e2 }) => {
            let r = types_equal(l1, l2) && types_equal(e1, e2);
            proof {
                if !r {
                    assert(*a@->Array_0 != *b@->Array_0 || *a@->Array_1 != *b@->Array_1);
                }
            }
            r
        },
        (Type::U32(n), Type::U32(m)) => *n == *m,
        (Type::Generic(g), Type::Generic(h)) => g.0 == h.0,
        _ => false,
    }
}

/// Whether two vectors of types hold the same types, in order.
pub fn all_types_equal(a: &Vec<Type>, b: &Vec<Type>) -> (r: bool)
    ensures
        r == (types_view(a@) == types_view(b@)),
    decreases a,
{
    proof {
        lemma_types_view(a@);
        lemma_types_view(b@);
    }
    if a.len() != b.len() {
        return false;
    }
    let mut i: usize = 0;
    while i < a.len()
        invariant
            0 <= i <= a@.len(),
            a@.len() == b@.len(),
            types_view(a@).len() == a@.len(),
            types_view(b@).len() == b@.len(),
            forall|k: int| 0 <= k < a@.len() ==> #[trigger] types_view(a@)[k] == a@[k]@,
            forall|k: int| 0 <= k < b@.len() ==> #[trigger] types_view(b@)[k] == b@[k]@,
            forall|k: int| 0 <= k < i ==> types_view(a@)[k] == types_view(b@)[k],
        decreases a@.len() - i,
    {
        if !types_equal(&a[i], &b[i]) {
            proof {
                assert(types_view(a@)[i as int] != types_view(b@)[i as int]);
            }
            return false;
        }
        i = i + 1;
    }
    proof {
        assert(types_view(a@) =~= types_view(b@));
    }
    true
}

} // verus!
