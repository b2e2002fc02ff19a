//! Checking the well-formedness of a [Mir]: that each instruction is given and returns values of
//! the types it works on, that each terminator passes blocks the arguments they take, that each
//! function's entry block matches its type, and, before the backend, that no union or generic
//! type is left.
use crate::fx::{fx_map_get, fx_map_keys};
use crate::mir::definition::{Definition, spec_type_of_value, value_in_bounds};
use crate::mir::instruction::{HandlerCase, Instruction, JmpTarget, TerminatorInstruction};
use crate::mir::program::Mir;
use crate::mir::substitute::spec_substitute;
use crate::mir::types::{
    FloatKind, FunctionTypeView, IntegerKind, PrimitiveType, Type, TypeView, lemma_types_view, spec_integer_is_signed, spec_is_closure,
    types_equal, types_view,
};
use crate::mir::values::{BlockId, DefinitionId, InstructionId, Value};
use vstd::prelude::*;

verus! {

pub open spec fn prim(p: PrimitiveType) -> TypeView {
    TypeView::Primitive(p)
}

pub open spec fn is_int_view(t: TypeView) -> bool {
    t matches TypeView::Primitive(PrimitiveType::Int(_))
}

pub open spec fn is_float_view(t: TypeView) -> bool {
    t matches TypeView::Primitive(PrimitiveType::Float(_))
}

pub open spec fn is_signed_view(t: TypeView) -> bool {
    t matches TypeView::Primitive(PrimitiveType::Int(k)) && spec_integer_is_signed(k)
}

pub open spec fn is_unsigned_view(t: TypeView) -> bool {
    t matches TypeView::Primitive(PrimitiveType::Int(k)) && !spec_integer_is_signed(k)
}

/// Integers, booleans and characters, which can be truncated like integers.
pub open spec fn is_integer_like_view(t: TypeView) -> bool {
    is_int_view(t) || t == prim(PrimitiveType::Bool) || t == prim(PrimitiveType::Char)
}

/// The type of `v` within `d`, where the checker can find one: an instruction result within the
/// result types, or a definition among those of `m`, its externals, or `d` itself.
#[verifier::opaque]
pub open spec fn value_type(m: Mir, d: Definition, v: Value) -> Option<TypeView> {
    if value_in_bounds(d, v) {
        spec_type_of_value(d, v, m.externals@, m.definitions@)
    } else {
        None
    }
}

/// `v` has a type.
pub open spec fn typed(m: Mir, d: Definition, v: Value) -> bool {
    value_type(m, d, v) is Some
}

/// The type of `v`, where it has one.
pub open spec fn ty(m: Mir, d: Definition, v: Value) -> TypeView {
    value_type(m, d, v)->0
}

/// A call of a function of type `function` with `arguments` type checks with result type
/// `result`: the function type takes as many arguments as are given, each argument has its
/// parameter's type unless either is the error type, and it returns `result`.
pub open spec fn call_ok(m: Mir, d: Definition, function: Option<TypeView>, arguments: Seq<Value>, result: TypeView) -> bool {
    &&& function matches Some(TypeView::Function(f))
    &&& function->0->Function_0.parameters.len() == arguments.len()
    &&& forall|j: int| 0 <= j < arguments.len() ==> typed(m, d, #[trigger] arguments[j])
    &&& forall|j: int|
        0 <= j < arguments.len() ==> {
            let p = function->0->Function_0.parameters[j];
            let a = ty(m, d, #[trigger] arguments[j]);
            (p != prim(PrimitiveType::Error) && a != prim(PrimitiveType::Error)) ==> p == a
        }
    &&& function->0->Function_0.return_type == result
}

/// The rule that an instruction on two values follows.
#[derive(Clone, Copy, PartialEq, Eq, Structural)]
pub enum BinaryRule {
    /// Integer arithmetic and bitwise operations: integers of one type, giving that type.
    Int,
    /// Float arithmetic: floats of one type, giving that type.
    Float,
    /// Signed division and remainder.
    Signed,
    /// Unsigned division and remainder.
    Unsigned,
    /// Signed comparison, giving a Bool.
    LessSigned,
    /// Unsigned comparison (of unsigned integers or characters), giving a Bool.
    LessUnsigned,
    /// Float comparison, giving a Bool.
    FloatCompare,
    /// Equality of integers, booleans or characters, giving a Bool.
    EqInt,
}

/// The two operands have one type, of the kind `rule` takes, and the result has the type `rule`
/// gives.
pub open spec fn binary_ok(m: Mir, d: Definition, a: Value, b: Value, result: TypeView, rule: BinaryRule) -> bool {
    let ta = ty(m, d, a);
    let bool_view = prim(PrimitiveType::Bool);
    &&& typed(m, d, a)
    &&& typed(m, d, b)
    &&& match rule {
        BinaryRule::Int => is_int_view(ta),
        BinaryRule::Float => is_float_view(ta),
        BinaryRule::Signed => is_signed_view(ta),
        BinaryRule::Unsigned => is_unsigned_view(ta),
        BinaryRule::LessSigned => is_signed_view(ta),
        BinaryRule::LessUnsigned => is_unsigned_view(ta) || ta == prim(PrimitiveType::Char),
        BinaryRule::FloatCompare => is_float_view(ta),
        BinaryRule::EqInt => is_int_view(ta) || ta == bool_view || ta == prim(PrimitiveType::Char),
    }
    &&& ta == ty(m, d, b)
    &&& match rule {
        BinaryRule::Int | BinaryRule::Float | BinaryRule::Signed | BinaryRule::Unsigned => ta == result,
        _ => result == bool_view,
    }
}

/// Unsigned division and remainder type check exactly on two operands of one unsigned integer
/// type, giving that type; signed division and remainder exactly on one signed integer type.
pub proof fn lemma_division_typing(m: Mir, d: Definition, a: Value, b: Value, result: TypeView)
    ensures
        instruction_checks(m, d, Instruction::DivUnsigned(a, b), result) <==> (typed(m, d, a) && typed(m, d, b) && ty(m, d, a)
            == ty(m, d, b) && ty(m, d, a) == result && unsigned_integer_type(ty(m, d, a))),
        instruction_checks(m, d, Instruction::ModUnsigned(a, b), result) <==> (typed(m, d, a) && typed(m, d, b) && ty(m, d, a)
            == ty(m, d, b) && ty(m, d, a) == result && unsigned_integer_type(ty(m, d, a))),
        instruction_checks(m, d, Instruction::DivSigned(a, b), result) <==> (typed(m, d, a) && typed(m, d, b) && ty(m, d, a)
            == ty(m, d, b) && ty(m, d, a) == result && signed_integer_type(ty(m, d, a))),
        instruction_checks(m, d, Instruction::ModSigned(a, b), result) <==> (typed(m, d, a) && typed(m, d, b) && ty(m, d, a)
            == ty(m, d, b) && ty(m, d, a) == result && signed_integer_type(ty(m, d, a))),
{
    let t = ty(m, d, a);
    if let TypeView::Primitive(PrimitiveType::Int(k)) = t {
        match k {
            IntegerKind::I8 => {},
            IntegerKind::I16 => {},
            IntegerKind::I32 => {},
            IntegerKind::I64 => {},
            IntegerKind::Isz => {},
            IntegerKind::U8 => {},
            IntegerKind::U16 => {},
            IntegerKind::U32 => {},
            IntegerKind::U64 => {},
            IntegerKind::Usz => {},
        }
    }
}

/// Integer arithmetic type checks exactly on two operands of one integer type, giving that type;
/// float arithmetic on one float type; integer equality on one integer, boolean or character
/// type, giving a boolean.
pub proof fn lemma_arithmetic_typing(m: Mir, d: Definition, a: Value, b: Value, result: TypeView)
    ensures
        instruction_checks(m, d, Instruction::AddInt(a, b), result) <==> (typed(m, d, a) && typed(m, d, b) && ty(m, d, a) == ty(
            m,
            d,
            b,
        ) && ty(m, d, a) == result && (signed_integer_type(ty(m, d, a)) || unsigned_integer_type(ty(m, d, a)))),
        instruction_checks(m, d, Instruction::AddFloat(a, b), result) <==> (typed(m, d, a) && typed(m, d, b) && ty(m, d, a)
            == ty(m, d, b) && ty(m, d, a) == result && (ty(m, d, a) == prim(PrimitiveType::Float(FloatKind::F32)) || ty(m, d, a)
            == prim(PrimitiveType::Float(FloatKind::F64)))),
        instruction_checks(m, d, Instruction::EqInt(a, b), result) <==> (typed(m, d, a) && typed(m, d, b) && ty(m, d, a) == ty(
            m,
            d,
            b,
        ) && result == prim(PrimitiveType::Bool) && (signed_integer_type(ty(m, d, a)) || unsigned_integer_type(ty(m, d, a))
            || ty(m, d, a) == prim(PrimitiveType::Bool) || ty(m, d, a) == prim(PrimitiveType::Char))),
{
    let t = ty(m, d, a);
    if let TypeView::Primitive(PrimitiveType::Int(k)) = t {
        match k {
            IntegerKind::I8 => {},
            IntegerKind::I16 => {},
            IntegerKind::I32 => {},
            IntegerKind::I64 => {},
            IntegerKind::Isz => {},
            IntegerKind::U8 => {},
            IntegerKind::U16 => {},
            IntegerKind::U32 => {},
            IntegerKind::U64 => {},
            IntegerKind::Usz => {},
        }
    }
    if let TypeView::Primitive(PrimitiveType::Float(k)) = t {
        match k {
            FloatKind::F32 => {},
            FloatKind::F64 => {},
        }
    }
}

/// Unsigned comparison type checks exactly on two operands of one unsigned integer type or two
/// characters, giving a boolean; signed comparison on one signed integer type.
pub proof fn lemma_comparison_typing(m: Mir, d: Definition, a: Value, b: Value, result: TypeView)
    ensures
        instruction_checks(m, d, Instruction::LessUnsigned(a, b), result) <==> (typed(m, d, a) && typed(m, d, b) && ty(m, d, a)
            == ty(m, d, b) && result == prim(PrimitiveType::Bool) && (unsigned_integer_type(ty(m, d, a)) || ty(m, d, a) == prim(
            PrimitiveType::Char,
        ))),
        instruction_checks(m, d, Instruction::LessSigned(a, b), result) <==> (typed(m, d, a) && typed(m, d, b) && ty(m, d, a)
            == ty(m, d, b) && result == prim(PrimitiveType::Bool) && signed_integer_type(ty(m, d, a))),
{
    let t = ty(m, d, a);
    if let TypeView::Primitive(PrimitiveType::Int(k)) = t {
        match k {
            IntegerKind::I8 => {},
            IntegerKind::I16 => {},
            IntegerKind::I32 => {},
            IntegerKind::I64 => {},
            IntegerKind::Isz => {},
            IntegerKind::U8 => {},
            IntegerKind::U16 => {},
            IntegerKind::U32 => {},
            IntegerKind::U64 => {},
            IntegerKind::Usz => {},
        }
    }
}

/// The rule that a conversion follows.
#[derive(Clone, Copy, PartialEq, Eq, Structural)]
pub enum ConversionRule {
    /// Sign extension of a signed integer into an integer.
    SignExtend,
    /// Zero extension of an unsigned integer, boolean or character into an integer.
    ZeroExtend,
    SignedToFloat,
    UnsignedToFloat,
    FloatToSigned,
    FloatToUnsigned,
    /// Float promotion and demotion.
    FloatToFloat,
    /// Truncation of an integer, boolean or character into one.
    Truncate,
}

/// The operand has a type of the kind `rule` takes, and the result one of the kind it gives.
pub open spec fn conversion_ok(m: Mir, d: Definition, v: Value, result: TypeView, rule: ConversionRule) -> bool {
    let t = ty(m, d, v);
    &&& typed(m, d, v)
    &&& match rule {
        ConversionRule::SignExtend => is_signed_view(t) && is_int_view(result),
        ConversionRule::ZeroExtend => (is_unsigned_view(t) || t == prim(PrimitiveType::Bool) || t == prim(PrimitiveType::Char))
            && is_int_view(result),
        ConversionRule::SignedToFloat => is_signed_view(t) && is_float_view(result),
        ConversionRule::UnsignedToFloat => is_unsigned_view(t) && is_float_view(result),
        ConversionRule::FloatToSigned => is_float_view(t) && is_signed_view(result),
        ConversionRule::FloatToUnsigned => is_float_view(t) && is_unsigned_view(result),
        ConversionRule::FloatToFloat => is_float_view(t) && is_float_view(result),
        ConversionRule::Truncate => is_integer_like_view(t) && is_integer_like_view(result),
    }
}

/// The body and every handler of a `Handle` are functions returning `result`.
pub open spec fn handle_ok(m: Mir, d: Definition, body: Value, cases: Seq<HandlerCase>, result: TypeView) -> bool {
    &&& value_type(m, d, body) matches Some(TypeView::Function(b))
    &&& ty(m, d, body)->Function_0.return_type == result
    &&& forall|c: int|
        0 <= c < cases.len() ==> (value_type(m, d, (#[trigger] cases[c]).handler) matches Some(TypeView::Function(h))
            && ty(m, d, cases[c].handler)->Function_0.return_type == result)
}

/// A function packed with an environment of the type it takes gives a closure.
pub open spec fn pack_closure_ok(m: Mir, d: Definition, function: Value, environment: Value, result: TypeView) -> bool {
    &&& typed(m, d, function)
    &&& typed(m, d, environment)
    &&& ty(m, d, function) is Function
    &&& ty(m, d, function)->Function_0.environment == ty(m, d, environment)
    &&& result is Function
    &&& spec_is_closure(*result->Function_0)
}

/// A tuple's field `index` exists and has type `result`.
pub open spec fn index_tuple_ok(m: Mir, d: Definition, tuple: Value, index: u32, result: TypeView) -> bool {
    &&& value_type(m, d, tuple) matches Some(TypeView::Tuple(fields))
    &&& index < ty(m, d, tuple)->Tuple_0.len()
    &&& ty(m, d, tuple)->Tuple_0[index as int] == result
}

/// The tuple type `result` has one field per element, of the element's type.
pub open spec fn make_tuple_ok(m: Mir, d: Definition, elements: Seq<Value>, result: TypeView) -> bool {
    &&& result is Tuple
    &&& result->Tuple_0.len() == elements.len()
    &&& forall|j: int| 0 <= j < elements.len() ==> typed(m, d, #[trigger] elements[j]) && result->Tuple_0[j] == ty(m, d, elements[j])
}

/// The array type `result` has a constant length, the number of elements, and every element
/// has its element type.
pub open spec fn make_array_ok(m: Mir, d: Definition, elements: Seq<Value>, result: TypeView) -> bool {
    &&& result is Array
    &&& *result->Array_0 is U32
    &&& result->Array_0->U32_0 == elements.len()
    &&& forall|j: int| 0 <= j < elements.len() ==> typed(m, d, #[trigger] elements[j]) && *result->Array_1 == ty(m, d, elements[j])
}

/// One of the unsigned integer types `U8`, `U16`, `U32`, `U64`, `Usz`.
pub open spec fn unsigned_integer_type(t: TypeView) -> bool {
    ||| t == prim(PrimitiveType::Int(IntegerKind::U8))
    ||| t == prim(PrimitiveType::Int(IntegerKind::U16))
    ||| t == prim(PrimitiveType::Int(IntegerKind::U32))
    ||| t == prim(PrimitiveType::Int(IntegerKind::U64))
    ||| t == prim(PrimitiveType::Int(IntegerKind::Usz))
}

/// One of the signed integer types `I8`, `I16`, `I32`, `I64`, `Isz`.
pub open spec fn signed_integer_type(t: TypeView) -> bool {
    ||| t == prim(PrimitiveType::Int(IntegerKind::I8))
    ||| t == prim(PrimitiveType::Int(IntegerKind::I16))
    ||| t == prim(PrimitiveType::Int(IntegerKind::I32))
    ||| t == prim(PrimitiveType::Int(IntegerKind::I64))
    ||| t == prim(PrimitiveType::Int(IntegerKind::Isz))
}

/// Instruction `i` of `d`, with result type `result`, takes and gives values of the types it
/// works on.
pub open spec fn instruction_checks(m: Mir, d: Definition, i: Instruction, result: TypeView) -> bool {
    let pointer = prim(PrimitiveType::Pointer);
    match i {
        Instruction::Call { function, arguments } => typed(m, d, function) && call_ok(m, d, value_type(m, d, function), arguments@, result),
        Instruction::CallClosure { closure, arguments } => typed(m, d, closure) && call_ok(m, d, value_type(m, d, closure), arguments@, result),
        Instruction::Perform { effect_op, arguments } => {
            let op = Value::Definition(effect_op);
            typed(m, d, op) && call_ok(m, d, value_type(m, d, op), arguments@, result)
        },
        Instruction::Handle { body, cases } => handle_ok(m, d, body, cases@, result),
        Instruction::PackClosure { function, environment } => pack_closure_ok(m, d, function, environment, result),
        Instruction::IndexTuple { tuple, index } => index_tuple_ok(m, d, tuple, index, result),
        Instruction::MakeBytes(_) => result == pointer,
        Instruction::MakeTuple(elements) => make_tuple_ok(m, d, elements@, result),
        Instruction::MakeArray(elements) => make_array_ok(m, d, elements@, result),
        Instruction::StackAlloc(_) => result == pointer,
        Instruction::Transmute(_) => true,
        Instruction::Instantiate(id, arguments) => {
            let target = Value::Definition(id);
            typed(m, d, target) && result == spec_substitute(ty(m, d, target), types_view(arguments@))
        },
        Instruction::Id(v) => typed(m, d, v) && result == ty(m, d, v),
        Instruction::AddInt(a, b) => binary_ok(m, d, a, b, result, BinaryRule::Int),
        Instruction::SubInt(a, b) => binary_ok(m, d, a, b, result, BinaryRule::Int),
        Instruction::MulInt(a, b) => binary_ok(m, d, a, b, result, BinaryRule::Int),
        Instruction::BitwiseAnd(a, b) => binary_ok(m, d, a, b, result, BinaryRule::Int),
        Instruction::BitwiseOr(a, b) => binary_ok(m, d, a, b, result, BinaryRule::Int),
        Instruction::BitwiseXor(a, b) => binary_ok(m, d, a, b, result, BinaryRule::Int),
        Instruction::AddFloat(a, b) => binary_ok(m, d, a, b, result, BinaryRule::Float),
        Instruction::SubFloat(a, b) => binary_ok(m, d, a, b, result, BinaryRule::Float),
        Instruction::MulFloat(a, b) => binary_ok(m, d, a, b, result, BinaryRule::Float),
        Instruction::DivFloat(a, b) => binary_ok(m, d, a, b, result, BinaryRule::Float),
        Instruction::ModFloat(a, b) => binary_ok(m, d, a, b, result, BinaryRule::Float),
        Instruction::DivSigned(a, b) => binary_ok(m, d, a, b, result, BinaryRule::Signed),
        Instruction::ModSigned(a, b) => binary_ok(m, d, a, b, result, BinaryRule::Signed),
        Instruction::DivUnsigned(a, b) => binary_ok(m, d, a, b, result, BinaryRule::Unsigned),
        Instruction::ModUnsigned(a, b) => binary_ok(m, d, a, b, result, BinaryRule::Unsigned),
        Instruction::LessSigned(a, b) => binary_ok(m, d, a, b, result, BinaryRule::LessSigned),
        Instruction::LessUnsigned(a, b) => binary_ok(m, d, a, b, result, BinaryRule::LessUnsigned),
        Instruction::LessFloat(a, b) => binary_ok(m, d, a, b, result, BinaryRule::FloatCompare),
        Instruction::EqFloat(a, b) => binary_ok(m, d, a, b, result, BinaryRule::FloatCompare),
        Instruction::EqInt(a, b) => binary_ok(m, d, a, b, result, BinaryRule::EqInt),
        Instruction::BitwiseNot(v) => typed(m, d, v) && is_int_view(ty(m, d, v)) && ty(m, d, v) == result,
        Instruction::SignExtend(v) => conversion_ok(m, d, v, result, ConversionRule::SignExtend),
        Instruction::ZeroExtend(v) => conversion_ok(m, d, v, result, ConversionRule::ZeroExtend),
        Instruction::SignedToFloat(v) => conversion_ok(m, d, v, result, ConversionRule::SignedToFloat),
        Instruction::UnsignedToFloat(v) => conversion_ok(m, d, v, result, ConversionRule::UnsignedToFloat),
        Instruction::FloatToSigned(v) => conversion_ok(m, d, v, result, ConversionRule::FloatToSigned),
        Instruction::FloatToUnsigned(v) => conversion_ok(m, d, v, result, ConversionRule::FloatToUnsigned),
        Instruction::FloatPromote(v) => conversion_ok(m, d, v, result, ConversionRule::FloatToFloat),
        Instruction::FloatDemote(v) => conversion_ok(m, d, v, result, ConversionRule::FloatToFloat),
        Instruction::Truncate(v) => conversion_ok(m, d, v, result, ConversionRule::Truncate),
        Instruction::Deref(v) => typed(m, d, v) && ty(m, d, v) == pointer,
        Instruction::Store { pointer: p, value: _ } => typed(m, d, p) && ty(m, d, p) == pointer && result == prim(
            PrimitiveType::Unit,
        ),
        Instruction::SizeOf(_) => result == prim(PrimitiveType::Int(IntegerKind::Usz)),
        Instruction::ArrayLen(_) => result == prim(PrimitiveType::Int(IntegerKind::Usz)),
        Instruction::StackAllocUninit(_) => result == pointer,
        Instruction::AllocShared(_) => result == pointer,
        Instruction::GetFieldPtr { struct_ptr, .. } => typed(m, d, struct_ptr) && ty(m, d, struct_ptr) == pointer && result
            == pointer,
        Instruction::Extern(_) => true,
        Instruction::Capability => result is Tuple || result == prim(PrimitiveType::Error),
    }
}

/// Instruction `k` of `d` has a result type and type checks.
pub open spec fn instruction_ok(m: Mir, d: Definition, k: int) -> bool {
    k < d.instruction_result_types@.len() && instruction_checks(m, d, d.instructions@[k], d.instruction_result_types@[k]@)
}

/// The type of `v` within the definition, where the checker can find one (see [value_type]).
fn find_type(d: &Definition, mir: &Mir, v: &Value) -> (r: Option<Type>)
    ensures
        value_type(*mir, *d, *v) matches Some(t) ==> r is Some && r->0@ == t,
        value_type(*mir, *d, *v) is None ==> r is None,
{
    reveal(value_type);
    if let Value::InstructionResult(id) = v {
        if id.0 as usize >= d.instruction_result_types.len() {
            return None;
        }
    }
    d.try_type_of_value(v, &mir.externals, &mir.definitions)
}

fn is_prim(t: &Type, p: PrimitiveType) -> (r: bool)
    ensures
        r == (t@ == prim(p)),
{
    match t {
        Type::Primitive(q) => *q == p,
        _ => false,
    }
}

fn check_call(d: &Definition, mir: &Mir, function: &Value, arguments: &Vec<Value>, result: &Type) -> (r: bool)
    ensures
        r == (typed(*mir, *d, *function) && call_ok(*mir, *d, value_type(*mir, *d, *function), arguments@, result@)),
{
    let function_type = match find_type(d, mir, function) {
        Some(t) => t,
        None => return false,
    };
    let f = match &function_type {
        Type::Function(f) => f,
        _ => return false,
    };
    proof {
        lemma_types_view(f.parameters@);
    }
    if f.parameters.len() != arguments.len() {
        return false;
    }
    let mut i: usize = 0;
    while i < arguments.len()
        invariant
            0 <= i <= arguments@.len(),
            f.parameters@.len() == arguments@.len(),
            types_view(f.parameters@).len() == f.parameters@.len(),
            forall|j: int| 0 <= j < f.parameters@.len() ==> #[trigger] types_view(f.parameters@)[j] == f.parameters@[j]@,
            value_type(*mir, *d, *function) == Some(function_type@),
            function_type == Type::Function(*f),
            forall|j: int| 0 <= j < i ==> typed(*mir, *d, #[trigger] arguments@[j]),
            forall|j: int|
                0 <= j < i ==> {
                    let p = types_view(f.parameters@)[j];
                    let a = ty(*mir, *d, #[trigger] arguments@[j]);
                    (p != prim(PrimitiveType::Error) && a != prim(PrimitiveType::Error)) ==> p == a
                },
        decreases arguments@.len() - i,
    {
        let argument_type = match find_type(d, mir, &arguments[i]) {
            Some(t) => t,
            None => return false,
        };
        let parameter = &f.parameters[i];
        if !is_prim(parameter, PrimitiveType::Error) && !is_prim(&argument_type, PrimitiveType::Error) {
            if !types_equal(parameter, &argument_type) {
                return false;
            }
        }
        i = i + 1;
    }
    types_equal(&f.return_type, result)
}

fn check_binary(d: &Definition, mir: &Mir, a: &Value, b: &Value, result: &Type, rule: BinaryRule) -> (r: bool)
    ensures
        r == binary_ok(*mir, *d, *a, *b, result@, rule),
{
    let a_type = match find_type(d, mir, a) {
        Some(t) => t,
        None => return false,
    };
    let b_type = match find_type(d, mir, b) {
        Some(t) => t,
        None => return false,
    };
    let kind_ok = match rule {
        BinaryRule::Int => a_type.is_int(),
        BinaryRule::Float => a_type.is_float(),
        BinaryRule::Signed => a_type.is_signed_int(),
        BinaryRule::Unsigned => a_type.is_unsigned_int(),
        BinaryRule::LessSigned => a_type.is_signed_int(),
        BinaryRule::LessUnsigned => a_type.is_unsigned_int() || is_prim(&a_type, PrimitiveType::Char),
        BinaryRule::FloatCompare => a_type.is_float(),
        BinaryRule::EqInt => a_type.is_int() || is_prim(&a_type, PrimitiveType::Bool) || is_prim(&a_type, PrimitiveType::Char),
    };
    if !kind_ok {
        return false;
    }
    if !types_equal(&a_type, &b_type) {
        return false;
    }
    match rule {
        BinaryRule::Int | BinaryRule::Float | BinaryRule::Signed | BinaryRule::Unsigned => types_equal(&a_type, result),
        _ => is_prim(result, PrimitiveType::Bool),
    }
}

fn check_conversion(d: &Definition, mir: &Mir, v: &Value, result: &Type, rule: ConversionRule) -> (r: bool)
    ensures
        r == conversion_ok(*mir, *d, *v, result@, rule),
{
    let t = match find_type(d, mir, v) {
        Some(t) => t,
        None => return false,
    };
    let integer_like = |x: &Type| -> (r: bool)
        ensures
            r == is_integer_like_view(x@),
        { x.is_int() || is_prim(x, PrimitiveType::Bool) || is_prim(x, PrimitiveType::Char) };
    match rule {
        ConversionRule::SignExtend => t.is_signed_int() && result.is_int(),
        ConversionRule::ZeroExtend => (t.is_unsigned_int() || is_prim(&t, PrimitiveType::Bool) || is_prim(&t, PrimitiveType::Char))
            && result.is_int(),
        ConversionRule::SignedToFloat => t.is_signed_int() && result.is_float(),
        ConversionRule::UnsignedToFloat => t.is_unsigned_int() && result.is_float(),
        ConversionRule::FloatToSigned => t.is_float() && result.is_signed_int(),
        ConversionRule::FloatToUnsigned => t.is_float() && result.is_unsigned_int(),
        ConversionRule::FloatToFloat => t.is_float() && result.is_float(),
        ConversionRule::Truncate => integer_like(&t) && integer_like(result),
    }
}

fn check_handle(d: &Definition, mir: &Mir, body: &Value, cases: &Vec<HandlerCase>, result: &Type) -> (r: bool)
    ensures
        r == handle_ok(*mir, *d, *body, cases@, result@),
{
    match find_type(d, mir, body) {
        Some(Type::Function(b)) => {
            if !types_equal(&b.return_type, result) {
                return false;
            }
        },
        _ => return false,
    }
    let mut c: usize = 0;
    while c < cases.len()
        invariant
            0 <= c <= cases@.len(),
            forall|k: int|
                0 <= k < c ==> (value_type(*mir, *d, (#[trigger] cases@[k]).handler) matches Some(TypeView::Function(h))
                    && ty(*mir, *d, cases@[k].handler)->Function_0.return_type == result@),
        decreases cases@.len() - c,
    {
        match find_type(d, mir, &cases[c].handler) {
            Some(Type::Function(h)) => {
                if !types_equal(&h.return_type, result) {
                    return false;
                }
            },
            _ => return false,
        }
        c = c + 1;
    }
    true
}

/// Each of `elements` has a type, the type `types[j]` for element `j`.
fn check_elements(d: &Definition, mir: &Mir, elements: &Vec<Value>, types: &Vec<Type>) -> (r: bool)
    requires
        types@.len() == elements@.len(),
    ensures
        r == forall|j: int| 0 <= j < elements@.len() ==> typed(*mir, *d, #[trigger] elements@[j]) && types@[j]@ == ty(*mir, *d, elements@[j]),
{
    let mut j: usize = 0;
    while j < elements.len()
        invariant
            0 <= j <= elements@.len(),
            types@.len() == elements@.len(),
            forall|k: int| 0 <= k < j ==> typed(*mir, *d, #[trigger] elements@[k]) && types@[k]@ == ty(*mir, *d, elements@[k]),
        decreases elements@.len() - j,
    {
        match find_type(d, mir, &elements[j]) {
            Some(t) => {
                if !types_equal(&types[j], &t) {
                    return false;
                }
            },
            None => return false,
        }
        j = j + 1;
    }
    true
}

/// Each of `elements` has type `element`.
fn check_array_elements(d: &Definition, mir: &Mir, elements: &Vec<Value>, element: &Type) -> (r: bool)
    ensures
        r == forall|j: int| 0 <= j < elements@.len() ==> typed(*mir, *d, #[trigger] elements@[j]) && element@ == ty(*mir, *d, elements@[j]),
{
    let mut j: usize = 0;
    while j < elements.len()
        invariant
            0 <= j <= elements@.len(),
            forall|k: int| 0 <= k < j ==> typed(*mir, *d, #[trigger] elements@[k]) && element@ == ty(*mir, *d, elements@[k]),
        decreases elements@.len() - j,
    {
        match find_type(d, mir, &elements[j]) {
            Some(t) => {
                if !types_equal(element, &t) {
                    return false;
                }
            },
            None => return false,
        }
        j = j + 1;
    }
    true
}


fn check_pack_closure(d: &Definition, mir: &Mir, function: &Value, environment: &Value, result: &Type) -> (r: bool)
    ensures
        r == pack_closure_ok(*mir, *d, *function, *environment, result@),
{
    let function_type = match find_type(d, mir, function) {
        Some(t) => t,
        None => return false,
    };
    let environment_type = match find_type(d, mir, environment) {
        Some(t) => t,
        None => return false,
    };
    let f = match &function_type {
        Type::Function(f) => f,
        _ => return false,
    };
    if !types_equal(&f.environment, &environment_type) {
        return false;
    }
    match result {
        Type::Function(closure_type) => closure_type.is_closure(),
        _ => false,
    }
}

fn check_index_tuple(d: &Definition, mir: &Mir, tuple: &Value, index: u32, result: &Type) -> (r: bool)
    ensures
        r == index_tuple_ok(*mir, *d, *tuple, index, result@),
{
    match find_type(d, mir, tuple) {
        Some(Type::Tuple(fields)) => {
            proof {
                lemma_types_view(fields@);
            }
            if (index as usize) < fields.len() {
                types_equal(&fields[index as usize], result)
            } else {
                false
            }
        },
        _ => false,
    }
}

fn check_make_tuple(d: &Definition, mir: &Mir, elements: &Vec<Value>, result: &Type) -> (r: bool)
    ensures
        r == make_tuple_ok(*mir, *d, elements@, result@),
{
    match result {
        Type::Tuple(types) => {
            proof {
                lemma_types_view(types@);
                assert(result@ == TypeView::Tuple(types_view(types@)));
            }
            if types.len() != elements.len() {
                return false;
            }
            check_elements(d, mir, elements, types)
        },
        _ => false,
    }
}

fn check_make_array(d: &Definition, mir: &Mir, elements: &Vec<Value>, result: &Type) -> (r: bool)
    ensures
        r == make_array_ok(*mir, *d, elements@, result@),
{
    match result {
        Type::Array { length, element } => {
            assert(result@ == TypeView::Array(Box::new((**length)@), Box::new((**element)@)));
            match &**length {
                Type::U32(n) => {
                    assert((**length)@ == TypeView::U32(*n));
                    if (*n as usize) != elements.len() {
                        return false;
                    }
                    check_array_elements(d, mir, elements, element)
                },
                _ => false,
            }
        },
        _ => false,
    }
}

/// Whether instruction `instruction`, of result type `result`, type checks within `d`.
#[verifier::rlimit(100)]
pub fn check_instruction(d: &Definition, mir: &Mir, instruction: &Instruction, result: &Type) -> (r: bool)
    ensures
        r == instruction_checks(*mir, *d, *instruction, result@),
{
    match instruction {
        Instruction::Call { function, arguments } => check_call(d, mir, function, arguments, result),
        Instruction::CallClosure { closure, arguments } => check_call(d, mir, closure, arguments, result),
        Instruction::Perform { effect_op, arguments } => check_call(d, mir, &Value::Definition(*effect_op), arguments, result),
        Instruction::Handle { body, cases } => check_handle(d, mir, body, cases, result),
        Instruction::PackClosure { function, environment } => check_pack_closure(d, mir, function, environment, result),
        Instruction::IndexTuple { tuple, index } => check_index_tuple(d, mir, tuple, *index, result),
        Instruction::MakeBytes(_) => is_prim(result, PrimitiveType::Pointer),
        Instruction::MakeTuple(elements) => check_make_tuple(d, mir, elements, result),
        Instruction::MakeArray(elements) => check_make_array(d, mir, elements, result),
        Instruction::StackAlloc(_) => is_prim(result, PrimitiveType::Pointer),
        Instruction::Transmute(_) => true,
        Instruction::Instantiate(id, arguments) => {
            match find_type(d, mir, &Value::Definition(*id)) {
                Some(target) => types_equal(result, &target.substitute(arguments)),
                None => false,
            }
        },
        Instruction::Id(v) => {
            match find_type(d, mir, v) {
                Some(t) => types_equal(result, &t),
                None => false,
            }
        },
        Instruction::AddInt(a, b) => check_binary(d, mir, a, b, result, BinaryRule::Int),
        Instruction::SubInt(a, b) => check_binary(d, mir, a, b, result, BinaryRule::Int),
        Instruction::MulInt(a, b) => check_binary(d, mir, a, b, result, BinaryRule::Int),
        Instruction::BitwiseAnd(a, b) => check_binary(d, mir, a, b, result, BinaryRule::Int),
        Instruction::BitwiseOr(a, b) => check_binary(d, mir, a, b, result, BinaryRule::Int),
        Instruction::BitwiseXor(a, b) => check_binary(d, mir, a, b, result, BinaryRule::Int),
        Instruction::AddFloat(a, b) => check_binary(d, mir, a, b, result, BinaryRule::Float),
        Instruction::SubFloat(a, b) => check_binary(d, mir, a, b, result, BinaryRule::Float),
        Instruction::MulFloat(a, b) => check_binary(d, mir, a, b, result, BinaryRule::Float),
        Instruction::DivFloat(a, b) => check_binary(d, mir, a, b, result, BinaryRule::Float),
        Instruction::ModFloat(a, b) => check_binary(d, mir, a, b, result, BinaryRule::Float),
        Instruction::DivSigned(a, b) => check_binary(d, mir, a, b, result, BinaryRule::Signed),
        Instruction::ModSigned(a, b) => check_binary(d, mir, a, b, result, BinaryRule::Signed),
        Instruction::DivUnsigned(a, b) => check_binary(d, mir, a, b, result, BinaryRule::Unsigned),
        Instruction::ModUnsigned(a, b) => check_binary(d, mir, a, b, result, BinaryRule::Unsigned),
        Instruction::LessSigned(a, b) => check_binary(d, mir, a, b, result, BinaryRule::LessSigned),
        Instruction::LessUnsigned(a, b) => check_binary(d, mir, a, b, result, BinaryRule::LessUnsigned),
        Instruction::LessFloat(a, b) => check_binary(d, mir, a, b, result, BinaryRule::FloatCompare),
        Instruction::EqFloat(a, b) => check_binary(d, mir, a, b, result, BinaryRule::FloatCompare),
        Instruction::EqInt(a, b) => check_binary(d, mir, a, b, result, BinaryRule::EqInt),
        Instruction::BitwiseNot(v) => {
            match find_type(d, mir, v) {
                Some(t) => t.is_int() && types_equal(&t, result),
                None => false,
            }
        },
        Instruction::SignExtend(v) => check_conversion(d, mir, v, result, ConversionRule::SignExtend),
        Instruction::ZeroExtend(v) => check_conversion(d, mir, v, result, ConversionRule::ZeroExtend),
        Instruction::SignedToFloat(v) => check_conversion(d, mir, v, result, ConversionRule::SignedToFloat),
        Instruction::UnsignedToFloat(v) => check_conversion(d, mir, v, result, ConversionRule::UnsignedToFloat),
        Instruction::FloatToSigned(v) => check_conversion(d, mir, v, result, ConversionRule::FloatToSigned),
        Instruction::FloatToUnsigned(v) => check_conversion(d, mir, v, result, ConversionRule::FloatToUnsigned),
        Instruction::FloatPromote(v) => check_conversion(d, mir, v, result, ConversionRule::FloatToFloat),
        Instruction::FloatDemote(v) => check_conversion(d, mir, v, result, ConversionRule::FloatToFloat),
        Instruction::Truncate(v) => check_conversion(d, mir, v, result, ConversionRule::Truncate),
        Instruction::Deref(v) => {
            match find_type(d, mir, v) {
                Some(t) => is_prim(&t, PrimitiveType::Pointer),
                None => false,
            }
        },
        Instruction::Store { pointer, value: _ } => {
            match find_type(d, mir, pointer) {
                Some(t) => is_prim(&t, PrimitiveType::Pointer) && is_prim(result, PrimitiveType::Unit),
                None => false,
            }
        },
        Instruction::SizeOf(_) => is_prim(result, PrimitiveType::Int(IntegerKind::Usz)),
        Instruction::ArrayLen(_) => is_prim(result, PrimitiveType::Int(IntegerKind::Usz)),
        Instruction::StackAllocUninit(_) => is_prim(result, PrimitiveType::Pointer),
        Instruction::AllocShared(_) => is_prim(result, PrimitiveType::Pointer),
        Instruction::GetFieldPtr { struct_ptr, .. } => {
            match find_type(d, mir, struct_ptr) {
                Some(t) => is_prim(&t, PrimitiveType::Pointer) && is_prim(result, PrimitiveType::Pointer),
                None => false,
            }
        },
        Instruction::Extern(_) => true,
        Instruction::Capability => {
            match result {
                Type::Tuple(_) => true,
                _ => is_prim(result, PrimitiveType::Error),
            }
        },
    }
}

/// Jumping to `target` passes the block the argument it takes, or none where it takes none.
pub open spec fn target_ok(m: Mir, d: Definition, target: JmpTarget) -> bool {
    let b = target.0.0 as int;
    &&& b < d.blocks@.len()
    &&& match target.1 {
        Some(arg) => d.blocks@[b].parameter_types@.len() == 1 && typed(m, d, arg) && d.blocks@[b].parameter_types@[0]@ == ty(
            m,
            d,
            arg,
        ),
        None => d.blocks@[b].parameter_types@.len() == 0,
    }
}

/// What a function of type `t` returns; a global's own type where `t` is not a function type.
pub open spec fn return_type_of(t: TypeView) -> TypeView {
    match t {
        TypeView::Function(f) => f.return_type,
        _ => t,
    }
}

/// The terminator exists and type checks: conditions are Bools, switched values integers, jumps
/// pass their targets what those take, and returns return the definition's return type.
pub open spec fn terminator_ok(m: Mir, d: Definition, t: Option<TerminatorInstruction>) -> bool {
    match t {
        Some(TerminatorInstruction::Jmp(target)) => target_ok(m, d, target),
        Some(TerminatorInstruction::If { condition, then, else_, end: _ }) => {
            &&& typed(m, d, condition)
            &&& ty(m, d, condition) == prim(PrimitiveType::Bool)
            &&& target_ok(m, d, then)
            &&& target_ok(m, d, else_)
        },
        Some(TerminatorInstruction::Switch { int_value, cases, else_, end: _ }) => {
            &&& typed(m, d, int_value)
            &&& ty(m, d, int_value) matches TypeView::Primitive(PrimitiveType::Int(_))
            &&& forall|j: int| 0 <= j < cases@.len() ==> target_ok(m, d, (#[trigger] cases@[j]).1)
            &&& target_ok(m, d, else_)
        },
        Some(TerminatorInstruction::Unreachable) => true,
        Some(TerminatorInstruction::Return(v)) => typed(m, d, v) && ty(m, d, v) == return_type_of(d.typ@),
        Some(TerminatorInstruction::Result(v)) => typed(m, d, v) && ty(m, d, v) == d.typ@,
        None => false,
    }
}

/// The definition is a global: a single block ending in `Result`.
pub open spec fn spec_is_global(d: Definition) -> bool {
    d.blocks@.len() == 1 && d.blocks@[0].terminator matches Some(TerminatorInstruction::Result(_))
}

/// A global's entry block takes no parameters; a function's takes those of its type, followed
/// by its environment where it is a closure.
pub open spec fn parameters_match_type(d: Definition) -> bool {
    let entry = types_view(d.blocks@[0].parameter_types@);
    &&& d.blocks@.len() > 0
    &&& if spec_is_global(d) {
        entry.len() == 0
    } else {
        &&& d.typ@ is Function
        &&& {
            let f = *d.typ@->Function_0;
            let closure = spec_is_closure(f);
            &&& f.parameters.len() + (if closure {
                1int
            } else {
                0int
            }) == entry.len()
            &&& f.parameters == entry.subrange(0, f.parameters.len() as int)
            &&& closure ==> f.environment == entry.last()
        }
    }
}

/// Why a definition is not well-typed: the first place where the checks fail.
#[derive(PartialEq, Eq, Structural, Clone, Copy, Debug)]
pub enum ValidationError {
    /// This instruction has no result type or does not type check.
    Instruction(InstructionId),
    /// The terminator of this block is missing or does not type check.
    Terminator(BlockId),
    /// The entry block's parameters do not match the definition's type.
    Parameters,
}

fn is_int_type(t: &Type) -> (r: bool)
    ensures
        r == is_int_view(t@),
{
    match t {
        Type::Primitive(PrimitiveType::Int(_)) => true,
        _ => false,
    }
}

fn check_target(d: &Definition, mir: &Mir, target: &JmpTarget) -> (r: bool)
    ensures
        r == target_ok(*mir, *d, *target),
{
    let b = target.0.0 as usize;
    if b >= d.blocks.len() {
        return false;
    }
    let parameters = &d.blocks[b].parameter_types;
    match target.1 {
        Some(arg) => {
            if parameters.len() != 1 {
                return false;
            }
            match find_type(d, mir, &arg) {
                Some(t) => types_equal(&parameters[0], &t),
                None => false,
            }
        },
        None => parameters.len() == 0,
    }
}

fn check_targets(d: &Definition, mir: &Mir, cases: &Vec<(u32, JmpTarget)>) -> (r: bool)
    ensures
        r == forall|k: int| 0 <= k < cases@.len() ==> target_ok(*mir, *d, (#[trigger] cases@[k]).1),
{
    let mut j: usize = 0;
    while j < cases.len()
        invariant
            0 <= j <= cases@.len(),
            forall|k: int| 0 <= k < j ==> target_ok(*mir, *d, (#[trigger] cases@[k]).1),
        decreases cases@.len() - j,
    {
        if !check_target(d, mir, &cases[j].1) {
            return false;
        }
        j = j + 1;
    }
    true
}

/// Whether the terminator exists and type checks (see [terminator_ok]).
pub fn check_terminator(d: &Definition, mir: &Mir, terminator: &Option<TerminatorInstruction>) -> (r: bool)
    ensures
        r == terminator_ok(*mir, *d, *terminator),
{
    match terminator {
        Some(TerminatorInstruction::Jmp(target)) => check_target(d, mir, target),
        Some(TerminatorInstruction::If { condition, then, else_, end: _ }) => {
            match find_type(d, mir, condition) {
                Some(t) => is_prim(&t, PrimitiveType::Bool) && check_target(d, mir, then) && check_target(d, mir, else_),
                None => false,
            }
        },
        Some(TerminatorInstruction::Switch { int_value, cases, else_, end: _ }) => {
            match find_type(d, mir, int_value) {
                Some(t) => {
                    if !is_int_type(&t) {
                        return false;
                    }
                },
                None => return false,
            }
            check_targets(d, mir, cases) && check_target(d, mir, else_)
        },
        Some(TerminatorInstruction::Unreachable) => true,
        Some(TerminatorInstruction::Return(v)) => {
            let return_type = match d.typ.function_return_type() {
                Some(return_type) => return_type,
                None => &d.typ,
            };
            match find_type(d, mir, v) {
                Some(t) => types_equal(&t, return_type),
                None => false,
            }
        },
        Some(TerminatorInstruction::Result(v)) => {
            match find_type(d, mir, v) {
                Some(t) => types_equal(&t, &d.typ),
                None => false,
            }
        },
        None => false,
    }
}

/// Whether the entry block's parameters match the definition's type (see
/// [parameters_match_type]).
pub fn check_parameters(d: &Definition) -> (r: bool)
    ensures
        r == parameters_match_type(*d),
{
    if d.blocks.len() == 0 {
        return false;
    }
    let entry = &d.blocks[0].parameter_types;
    proof {
        lemma_types_view(entry@);
    }
    if d.is_global() {
        return entry.len() == 0;
    }
    let f = match &d.typ {
        Type::Function(f) => f,
        _ => return false,
    };
    proof {
        lemma_types_view(f.parameters@);
        assert(d.typ@ == TypeView::Function(Box::new(f@)));
    }
    let closure = f.is_closure();
    let n = f.parameters.len();
    if closure {
        if n >= entry.len() || n + 1 != entry.len() {
            return false;
        }
    } else if n != entry.len() {
        return false;
    }
    let mut i: usize = 0;
    while i < n
        invariant
            0 <= i <= n,
            n == f.parameters@.len(),
            n <= entry@.len(),
            types_view(f.parameters@).len() == n,
            types_view(entry@).len() == entry@.len(),
            forall|k: int| 0 <= k < n ==> #[trigger] types_view(f.parameters@)[k] == f.parameters@[k]@,
            forall|k: int| 0 <= k < entry@.len() ==> #[trigger] types_view(entry@)[k] == entry@[k]@,
            forall|k: int| 0 <= k < i ==> types_view(f.parameters@)[k] == types_view(entry@)[k],
            d.blocks@.len() > 0,
            *entry == d.blocks@[0].parameter_types,
            !spec_is_global(*d),
            d.typ@ == TypeView::Function(Box::new(f@)),
            closure == spec_is_closure(f@),
            n + (if closure {
                1int
            } else {
                0int
            }) == entry@.len(),
        decreases n - i,
    {
        if !types_equal(&f.parameters[i], &entry[i]) {
            proof {
                assert(types_view(f.parameters@)[i as int] != types_view(entry@).subrange(0, n as int)[i as int]);
            }
            return false;
        }
        i = i + 1;
    }
    proof {
        assert(types_view(f.parameters@) =~= types_view(entry@).subrange(0, n as int));
    }
    if closure {
        types_equal(&f.environment, &entry[entry.len() - 1])
    } else {
        true
    }
}

/// Every instruction, every terminator and the entry block of `d` type check.
pub open spec fn well_typed(m: Mir, d: Definition) -> bool {
    &&& forall|k: int| 0 <= k < d.instructions@.len() ==> instruction_ok(m, d, k)
    &&& forall|b: int| 0 <= b < d.blocks@.len() ==> terminator_ok(m, d, (#[trigger] d.blocks@[b]).terminator)
    &&& parameters_match_type(d)
}

/// The ids of the definition's instructions and blocks fit in 32 bits.
pub open spec fn ids_fit(d: Definition) -> bool {
    &&& d.instructions@.len() <= u32::MAX
    &&& d.instruction_result_types@.len() <= u32::MAX
    &&& d.blocks@.len() <= u32::MAX
}

/// No union or generic type is left in the definition's type, its result types or its block
/// parameters.
pub open spec fn free_of_unions_and_generics(d: Definition) -> bool {
    &&& !spec_contains_union_or_generic(d.typ@)
    &&& forall|k: int|
        0 <= k < d.instruction_result_types@.len() ==> !spec_contains_union_or_generic(
            (#[trigger] d.instruction_result_types@[k])@,
        )
    &&& forall|b: int| 0 <= b < d.blocks@.len() ==> !block_has_union_or_generic(d, b)
}

/// Asserts the argument & result types of each instruction are valid, then those of each
/// terminator, then the entry block's parameters. If they are not, the Mir is not well-formed:
/// the error names the first check that failed.
pub fn check_types(d: &Definition, mir: &Mir) -> (r: Result<(), ValidationError>)
    requires
        ids_fit(*d),
    ensures
        r is Ok <==> well_typed(*mir, *d),
        r matches Err(e) ==> check_types_result(*mir, *d, e),
{
    let mut i: usize = 0;
    while i < d.instructions.len()
        invariant
            0 <= i <= d.instructions@.len(),
            d.instructions@.len() <= u32::MAX,
            forall|k: int| 0 <= k < i ==> instruction_ok(*mir, *d, k),
        decreases d.instructions@.len() - i,
    {
        if i >= d.instruction_result_types.len() || !check_instruction(d, mir, &d.instructions[i], &d.instruction_result_types[i]) {
            assert(!instruction_ok(*mir, *d, i as int));
            return Err(ValidationError::Instruction(InstructionId(i as u32)));
        }
        i = i + 1;
    }
    let mut b: usize = 0;
    while b < d.blocks.len()
        invariant
            0 <= b <= d.blocks@.len(),
            d.blocks@.len() <= u32::MAX,
            forall|k: int| 0 <= k < d.instructions@.len() ==> instruction_ok(*mir, *d, k),
            forall|k: int| 0 <= k < b ==> terminator_ok(*mir, *d, (#[trigger] d.blocks@[k]).terminator),
        decreases d.blocks@.len() - b,
    {
        if !check_terminator(d, mir, &d.blocks[b].terminator) {
            assert(!terminator_ok(*mir, *d, d.blocks@[b as int].terminator));
            return Err(ValidationError::Terminator(BlockId(b as u32)));
        }
        b = b + 1;
    }
    if !check_parameters(d) {
        return Err(ValidationError::Parameters);
    }
    Ok(())
}

/// Whether a union or a generic occurs in the type. A function's environment is not looked at.
pub open spec fn spec_contains_union_or_generic(t: TypeView) -> bool
    decreases t,
{
    match t {
        TypeView::Primitive(_) | TypeView::U32(_) => false,
        TypeView::Union(_) | TypeView::Generic(_) => true,
        TypeView::Tuple(fields) => spec_any_union_or_generic(fields),
        TypeView::Array(length, element) => spec_contains_union_or_generic(*length) || spec_contains_union_or_generic(*element),
        TypeView::Function(f) => spec_any_union_or_generic(f.parameters) || spec_contains_union_or_generic(f.return_type),
    }
}

pub open spec fn spec_any_union_or_generic(s: Seq<TypeView>) -> bool
    decreases s,
{
    if s.len() == 0 {
        false
    } else {
        spec_contains_union_or_generic(s[0]) || spec_any_union_or_generic(s.subrange(1, s.len() as int))
    }
}

proof fn lemma_any_union_or_generic(s: Seq<TypeView>)
    ensures
        spec_any_union_or_generic(s) <==> exists|i: int| 0 <= i < s.len() && spec_contains_union_or_generic(#[trigger] s[i]),
    decreases s.len(),
{
    if s.len() > 0 {
        let rest = s.subrange(1, s.len() as int);
        lemma_any_union_or_generic(rest);
        if exists|i: int| 0 <= i < rest.len() && spec_contains_union_or_generic(#[trigger] rest[i]) {
            let i = choose|i: int| 0 <= i < rest.len() && spec_contains_union_or_generic(#[trigger] rest[i]);
            assert(s[i + 1] == rest[i]);
        }
        if exists|i: int| 0 <= i < s.len() && spec_contains_union_or_generic(#[trigger] s[i]) {
            let i = choose|i: int| 0 <= i < s.len() && spec_contains_union_or_generic(#[trigger] s[i]);
            if i > 0 {
                assert(rest[i - 1] == s[i]);
            }
        }
    }
}

impl Type {
    /// Whether a union or a generic occurs in this type (see [spec_contains_union_or_generic]).
    pub fn contains_union_or_generic(&self) -> (r: bool)
        ensures
            r == spec_contains_union_or_generic(self@),
        decreases self,
    {
        match self {
            Type::Primitive(_) | Type::U32(_) => false,
            Type::Union(_) | Type::Generic(_) => true,
            Type::Tuple(fields) => any_union_or_generic(fields),
            Type::Array { length, element } => length.contains_union_or_generic() || element.contains_union_or_generic(),
            Type::Function(function) => any_union_or_generic(&function.parameters) || function.return_type.contains_union_or_generic(),
        }
    }
}

fn any_union_or_generic(types: &Vec<Type>) -> (r: bool)
    ensures
        r == spec_any_union_or_generic(types_view(types@)),
    decreases types,
{
    proof {
        lemma_types_view(types@);
        lemma_any_union_or_generic(types_view(types@));
    }
    let mut i: usize = 0;
    while i < types.len()
        invariant
            0 <= i <= types@.len(),
            types_view(types@).len() == types@.len(),
            forall|j: int| 0 <= j < types@.len() ==> #[trigger] types_view(types@)[j] == types@[j]@,
            forall|j: int| 0 <= j < i ==> !spec_contains_union_or_generic(#[trigger] types_view(types@)[j]),
            spec_any_union_or_generic(types_view(types@)) <==> exists|j: int|
                0 <= j < types@.len() && spec_contains_union_or_generic(#[trigger] types_view(types@)[j]),
        decreases types@.len() - i,
    {
        if types[i].contains_union_or_generic() {
            proof {
                assert(spec_contains_union_or_generic(types_view(types@)[i as int]));
            }
            return true;
        }
        i = i + 1;
    }
    false
}

/// Where a union or a generic type is left in a definition.
#[derive(PartialEq, Eq, Structural, Clone, Copy, Debug)]
pub enum UnionOrGenericAt {
    /// In the definition's own type.
    DefinitionType,
    /// In the result type of this instruction.
    ResultType(InstructionId),
    /// In the type of a parameter of this block.
    BlockParameter(BlockId),
}

/// Some parameter of block `b` holds a union or a generic.
pub open spec fn block_has_union_or_generic(d: Definition, b: int) -> bool {
    exists|k: int|
        0 <= k < d.blocks@[b].parameter_types@.len() && spec_contains_union_or_generic(
            (#[trigger] d.blocks@[b].parameter_types@[k])@,
        )
}

/// Union and generic types should be lowered into more explicit forms before handing off the
/// Mir to the backend: the first place, in the definition's type, then the result types, then
/// the block parameters, where one is left, if any.
pub fn find_union_or_generic(d: &Definition) -> (r: Option<UnionOrGenericAt>)
    requires
        ids_fit(*d),
    ensures
        r is None <==> free_of_unions_and_generics(*d),
        r == Some(UnionOrGenericAt::DefinitionType) ==> spec_contains_union_or_generic(d.typ@),
        r matches Some(UnionOrGenericAt::ResultType(id)) ==> id.0 < d.instruction_result_types@.len()
            && spec_contains_union_or_generic(d.instruction_result_types@[id.0 as int]@),
        r matches Some(UnionOrGenericAt::BlockParameter(b)) ==> b.0 < d.blocks@.len() && block_has_union_or_generic(*d, b.0 as int),
{
    if d.typ.contains_union_or_generic() {
        return Some(UnionOrGenericAt::DefinitionType);
    }
    let mut i: usize = 0;
    while i < d.instruction_result_types.len()
        invariant
            0 <= i <= d.instruction_result_types@.len(),
            d.instruction_result_types@.len() <= u32::MAX,
            forall|k: int| 0 <= k < i ==> !spec_contains_union_or_generic((#[trigger] d.instruction_result_types@[k])@),
        decreases d.instruction_result_types@.len() - i,
    {
        if d.instruction_result_types[i].contains_union_or_generic() {
            return Some(UnionOrGenericAt::ResultType(InstructionId(i as u32)));
        }
        i = i + 1;
    }
    let mut b: usize = 0;
    while b < d.blocks.len()
        invariant
            0 <= b <= d.blocks@.len(),
            d.blocks@.len() <= u32::MAX,
            !spec_contains_union_or_generic(d.typ@),
            forall|x: int| 0 <= x < d.instruction_result_types@.len() ==> !spec_contains_union_or_generic((#[trigger] d.instruction_result_types@[x])@),
            forall|k: int| 0 <= k < b ==> !block_has_union_or_generic(*d, k),
        decreases d.blocks@.len() - b,
    {
        let parameters = &d.blocks[b].parameter_types;
        let mut k: usize = 0;
        while k < parameters.len()
            invariant
                0 <= k <= parameters@.len(),
                b < d.blocks@.len(),
                *parameters == d.blocks@[b as int].parameter_types,
                d.blocks@.len() <= u32::MAX,
                !spec_contains_union_or_generic(d.typ@),
                forall|x: int| 0 <= x < d.instruction_result_types@.len() ==> !spec_contains_union_or_generic((#[trigger] d.instruction_result_types@[x])@),
                forall|x: int| 0 <= x < b ==> !block_has_union_or_generic(*d, x),
                forall|x: int| 0 <= x < k ==> !spec_contains_union_or_generic((#[trigger] parameters@[x])@),
            decreases parameters@.len() - k,
        {
            if parameters[k].contains_union_or_generic() {
                proof {
                    assert(spec_contains_union_or_generic(d.blocks@[b as int].parameter_types@[k as int]@));
                    assert(block_has_union_or_generic(*d, b as int));
                }
                return Some(UnionOrGenericAt::BlockParameter(BlockId(b as u32)));
            }
            k = k + 1;
        }
        assert(!block_has_union_or_generic(*d, b as int));
        b = b + 1;
    }
    None
}

impl Mir {
    /// Checks that each definition type checks (see [check_types]). The error names a definition
    /// that does not, and the first place where it fails; which definition is named, where
    /// several fail, follows the order in which the map hands out its keys.
    pub fn type_check(&self) -> (r: Result<(), (DefinitionId, ValidationError)>)
        requires
            forall|id: DefinitionId| #[trigger] self.definitions@.contains_key(id) ==> ids_fit(self.definitions@[id]),
        ensures
            r is Ok <==> forall|id: DefinitionId| #[trigger] self.definitions@.contains_key(id) ==> well_typed(*self, self.definitions@[id]),
            r matches Err((id, e)) ==> self.definitions@.contains_key(id) && check_types_result(*self, self.definitions@[id], e),
    {
        let keys = fx_map_keys(&self.definitions);
        let mut i: usize = 0;
        while i < keys.len()
            invariant
                0 <= i <= keys@.len(),
                keys@.to_set() == self.definitions@.dom(),
                forall|id: DefinitionId| #[trigger] self.definitions@.contains_key(id) ==> ids_fit(self.definitions@[id]),
                forall|j: int| 0 <= j < i ==> well_typed(*self, self.definitions@[#[trigger] keys@[j]]),
            decreases keys@.len() - i,
        {
            let id = keys[i];
            proof {
                assert(keys@.to_set().contains(id));
            }
            let definition = fx_map_get(&self.definitions, id).unwrap();
            match check_types(definition, self) {
                Ok(()) => {},
                Err(e) => {
                    return Err((id, e));
                },
            }
            i = i + 1;
        }
        proof {
            assert forall|id: DefinitionId| #[trigger] self.definitions@.contains_key(id) implies well_typed(*self, self.definitions@[id]) by {
                assert(keys@.to_set().contains(id));
                let j = choose|j: int| 0 <= j < keys@.len() && keys@[j] == id;
                assert(well_typed(*self, self.definitions@[keys@[j]]));
            }
        }
        Ok(())
    }

    /// Union and generic types should be lowered into more explicit forms before handing off the
    /// Mir to the backend: a definition where one is left, and where, if any.
    pub fn find_union_or_generic(&self) -> (r: Option<(DefinitionId, UnionOrGenericAt)>)
        requires
            forall|id: DefinitionId| #[trigger] self.definitions@.contains_key(id) ==> ids_fit(self.definitions@[id]),
        ensures
            r is None <==> forall|id: DefinitionId|
                #[trigger] self.definitions@.contains_key(id) ==> free_of_unions_and_generics(self.definitions@[id]),
            r matches Some((id, _)) ==> self.definitions@.contains_key(id) && !free_of_unions_and_generics(self.definitions@[id]),
    {
        let keys = fx_map_keys(&self.definitions);
        let mut i: usize = 0;
        while i < keys.len()
            invariant
                0 <= i <= keys@.len(),
                keys@.to_set() == self.definitions@.dom(),
                forall|id: DefinitionId| #[trigger] self.definitions@.contains_key(id) ==> ids_fit(self.definitions@[id]),
                forall|j: int| 0 <= j < i ==> free_of_unions_and_generics(self.definitions@[#[trigger] keys@[j]]),
            decreases keys@.len() - i,
        {
            let id = keys[i];
            proof {
                assert(keys@.to_set().contains(id));
            }
            let definition = fx_map_get(&self.definitions, id).unwrap();
            match find_union_or_generic(definition) {
                Some(at) => {
                    return Some((id, at));
                },
                None => {},
            }
            i = i + 1;
        }
        proof {
            assert forall|id: DefinitionId| #[trigger] self.definitions@.contains_key(id) implies free_of_unions_and_generics(self.definitions@[id]) by {
                assert(keys@.to_set().contains(id));
                let j = choose|j: int| 0 <= j < keys@.len() && keys@[j] == id;
                assert(free_of_unions_and_generics(self.definitions@[keys@[j]]));
            }
        }
        None
    }
}

/// `e` is the error [check_types] gives for `d`: the first failing check of those it makes in
/// order.
pub open spec fn check_types_result(m: Mir, d: Definition, e: ValidationError) -> bool {
    match e {
        ValidationError::Instruction(id) => id.0 < d.instructions@.len() && !instruction_ok(m, d, id.0 as int) && forall|k: int|
            0 <= k < id.0 ==> instruction_ok(m, d, k),
        ValidationError::Terminator(b) => (forall|k: int| 0 <= k < d.instructions@.len() ==> instruction_ok(m, d, k)) && b.0
            < d.blocks@.len() && !terminator_ok(m, d, d.blocks@[b.0 as int].terminator) && forall|k: int|
            0 <= k < b.0 ==> terminator_ok(m, d, (#[trigger] d.blocks@[k]).terminator),
        ValidationError::Parameters => (forall|k: int| 0 <= k < d.instructions@.len() ==> instruction_ok(m, d, k)) && (forall|b: int|
            0 <= b < d.blocks@.len() ==> terminator_ok(m, d, (#[trigger] d.blocks@[b]).terminator)) && !parameters_match_type(d),
    }
}

} // verus!
