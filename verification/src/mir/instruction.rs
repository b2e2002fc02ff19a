//! MIR instructions and block terminators.
use crate::mir::types::{Generic, Type, TypeView, arc_clone, types_view};
use crate::mir::values::{BlockId, DefinitionId, Value};
use std::sync::Arc;
use vstd::prelude::*;

verus! {

/// Each nth item in the bindings Vec corresponds to the nth generic of a definition.
pub type GenericBindings = Vec<Type>;

/// `[Generic(0), Generic(1), ..., Generic(N-1)]`. Used inside generated
/// definitions whose `generic_count == N` to forward identity bindings to
/// other generated defs that share the same generics; `None` where there are no generics.
pub fn identity_bindings(generic_count: u32) -> (r: Option<Arc<GenericBindings>>)
    ensures
        generic_count == 0 ==> r is None,
        generic_count > 0 ==> (r matches Some(b) && b@.len() == generic_count && forall|i: int|
            0 <= i < generic_count ==> #[trigger] b@[i] == Type::Generic(Generic(i as u32))),
{
    let mut bindings: Vec<Type> = Vec::new();
    let mut i: u32 = 0;
    while i < generic_count
        invariant
            0 <= i <= generic_count,
            bindings@.len() == i,
            forall|k: int| 0 <= k < i ==> #[trigger] bindings@[k] == Type::Generic(Generic(k as u32)),
        decreases generic_count - i,
    {
        bindings.push(Type::generic(i));
        i = i + 1;
    }
    if bindings.len() == 0 {
        None
    } else {
        Some(Arc::new(bindings))
    }
}

/// A handler case attached to an [Instruction::Handle]. Maps an effect operation
/// (identified by its top-level [DefinitionId]) to the function that handles it.
#[derive(PartialEq, Eq, Structural, Clone, Copy, Debug)]
pub struct HandlerCase {
    pub effect_op: DefinitionId,
    pub handler: Value,
}

pub enum Instruction {
    Call { function: Value, arguments: Vec<Value> },
    /// Similar to `Call` but expects a closure tuple of `(function, environment)`
    /// instead of a raw function value.
    CallClosure { closure: Value, arguments: Vec<Value> },
    /// Transfers control to the handler for `effect_op` somewhere up the call stack.
    Perform { effect_op: DefinitionId, arguments: Vec<Value> },
    /// Run `body: fn () [env] -> r`. Any `Perform` instructions to an `effect_op` in this
    /// handle's cases will transfer control to that case.
    Handle { body: Value, cases: Vec<HandlerCase> },
    /// Placeholder bound to the handler binding inside a `handle` body lambda.
    Capability,
    /// Returns a closure value after packing the function with the given environment.
    PackClosure { function: Value, environment: Value },
    IndexTuple { tuple: Value, index: u32 },
    /// Embed an immutable byte array into the binary and return a pointer to it.
    MakeBytes(Vec<u8>),
    MakeTuple(Vec<Value>),
    MakeArray(Vec<Value>),
    StackAlloc(Value),
    StackAllocUninit(Type),
    /// Heap-allocate and store a shared value, returning its pointer.
    AllocShared(Value),
    /// Store a value into a pointer location. Returns unit.
    Store { pointer: Value, value: Value },
    /// Get a pointer to a field at `index` within the struct pointed to by `struct_ptr`.
    GetFieldPtr { struct_ptr: Value, struct_type: Type, index: u32 },
    /// Reinterpret one value as another type.
    Transmute(Value),
    /// Instantiate a polymorphic value with concrete types.
    Instantiate(DefinitionId, Arc<GenericBindings>),
    /// Returns the given value as-is.
    Id(Value),
    /// Returns the value of the given external symbol.
    Extern(String),
    AddInt(Value, Value),
    AddFloat(Value, Value),
    SubInt(Value, Value),
    SubFloat(Value, Value),
    MulInt(Value, Value),
    MulFloat(Value, Value),
    DivSigned(Value, Value),
    DivUnsigned(Value, Value),
    DivFloat(Value, Value),
    ModSigned(Value, Value),
    ModUnsigned(Value, Value),
    ModFloat(Value, Value),
    LessSigned(Value, Value),
    LessUnsigned(Value, Value),
    LessFloat(Value, Value),
    EqInt(Value, Value),
    EqFloat(Value, Value),
    BitwiseAnd(Value, Value),
    BitwiseOr(Value, Value),
    BitwiseXor(Value, Value),
    BitwiseNot(Value),
    SignExtend(Value),
    ZeroExtend(Value),
    SignedToFloat(Value),
    UnsignedToFloat(Value),
    FloatToSigned(Value),
    FloatToUnsigned(Value),
    FloatPromote(Value),
    FloatDemote(Value),
    Truncate(Value),
    Deref(Value),
    /// Static byte size of a type.
    SizeOf(Type),
    /// Static length of an array.
    ArrayLen(Type),
}

/// The mathematical model of an [Instruction]: the same variants, with sequences in place of
/// vectors and strings and type models in place of types.
pub enum InstructionView {
    Call { function: Value, arguments: Seq<Value> },
    CallClosure { closure: Value, arguments: Seq<Value> },
    Perform { effect_op: DefinitionId, arguments: Seq<Value> },
    Handle { body: Value, cases: Seq<HandlerCase> },
    Capability,
    PackClosure { function: Value, environment: Value },
    IndexTuple { tuple: Value, index: u32 },
    MakeBytes(Seq<u8>),
    MakeTuple(Seq<Value>),
    MakeArray(Seq<Value>),
    StackAlloc(Value),
    StackAllocUninit(TypeView),
    AllocShared(Value),
    Store { pointer: Value, value: Value },
    GetFieldPtr { struct_ptr: Value, struct_type: TypeView, index: u32 },
    Transmute(Value),
    Instantiate(DefinitionId, Seq<TypeView>),
    Id(Value),
    Extern(Seq<char>),
    AddInt(Value, Value),
    AddFloat(Value, Value),
    SubInt(Value, Value),
    SubFloat(Value, Value),
    MulInt(Value, Value),
    MulFloat(Value, Value),
    DivSigned(Value, Value),
    DivUnsigned(Value, Value),
    DivFloat(Value, Value),
    ModSigned(Value, Value),
    ModUnsigned(Value, Value),
    ModFloat(Value, Value),
    LessSigned(Value, Value),
    LessUnsigned(Value, Value),
    LessFloat(Value, Value),
    EqInt(Value, Value),
    EqFloat(Value, Value),
    BitwiseAnd(Value, Value),
    BitwiseOr(Value, Value),
    BitwiseXor(Value, Value),
    BitwiseNot(Value),
    SignExtend(Value),
    ZeroExtend(Value),
    SignedToFloat(Value),
    UnsignedToFloat(Value),
    FloatToSigned(Value),
    FloatToUnsigned(Value),
    FloatPromote(Value),
    FloatDemote(Value),
    Truncate(Value),
    Deref(Value),
    SizeOf(TypeView),
    ArrayLen(TypeView),
}

impl View for Instruction {
    type V = InstructionView;

    open spec fn view(&self) -> InstructionView {
        match *self {
            Instruction::Call { function, arguments } => InstructionView::Call { function, arguments: arguments@ },
            Instruction::CallClosure { closure, arguments } => InstructionView::CallClosure { closure, arguments: arguments@ },
            Instruction::Perform { effect_op, arguments } => InstructionView::Perform { effect_op, arguments: arguments@ },
            Instruction::Handle { body, cases } => InstructionView::Handle { body, cases: cases@ },
            Instruction::Capability => InstructionView::Capability,
            Instruction::PackClosure { function, environment } => InstructionView::PackClosure { function, environment },
            Instruction::IndexTuple { tuple, index } => InstructionView::IndexTuple { tuple, index },
            Instruction::MakeBytes(bytes) => InstructionView::MakeBytes(bytes@),
            Instruction::MakeTuple(values) => InstructionView::MakeTuple(values@),
            Instruction::MakeArray(values) => InstructionView::MakeArray(values@),
            Instruction::StackAlloc(v) => InstructionView::StackAlloc(v),
            Instruction::StackAllocUninit(t) => InstructionView::StackAllocUninit(t@),
            Instruction::AllocShared(v) => InstructionView::AllocShared(v),
            Instruction::Store { pointer, value } => InstructionView::Store { pointer, value },
            Instruction::GetFieldPtr { struct_ptr, struct_type, index } => InstructionView::GetFieldPtr { struct_ptr, struct_type: struct_type@, index },
            Instruction::Transmute(v) => InstructionView::Transmute(v),
            Instruction::Instantiate(id, bindings) => InstructionView::Instantiate(id, types_view(bindings@)),
            Instruction::Id(v) => InstructionView::Id(v),
            Instruction::Extern(name) => InstructionView::Extern(name@),
            Instruction::AddInt(a, b) => InstructionView::AddInt(a, b),
            Instruction::AddFloat(a, b) => InstructionView::AddFloat(a, b),
            Instruction::SubInt(a, b) => InstructionView::SubInt(a, b),
            Instruction::SubFloat(a, b) => InstructionView::SubFloat(a, b),
            Instruction::MulInt(a, b) => InstructionView::MulInt(a, b),
            Instruction::MulFloat(a, b) => InstructionView::MulFloat(a, b),
            Instruction::DivSigned(a, b) => InstructionView::DivSigned(a, b),
            Instruction::DivUnsigned(a, b) => InstructionView::DivUnsigned(a, b),
            Instruction::DivFloat(a, b) => InstructionView::DivFloat(a, b),
            Instruction::ModSigned(a, b) => InstructionView::ModSigned(a, b),
            Instruction::ModUnsigned(a, b) => InstructionView::ModUnsigned(a, b),
            Instruction::ModFloat(a, b) => InstructionView::ModFloat(a, b),
            Instruction::LessSigned(a, b) => InstructionView::LessSigned(a, b),
            Instruction::LessUnsigned(a, b) => InstructionView::LessUnsigned(a, b),
            Instruction::LessFloat(a, b) => InstructionView::LessFloat(a, b),
            Instruction::EqInt(a, b) => InstructionView::EqInt(a, b),
            Instruction::EqFloat(a, b) => InstructionView::EqFloat(a, b),
            Instruction::BitwiseAnd(a, b) => InstructionView::BitwiseAnd(a, b),
            Instruction::BitwiseOr(a, b) => InstructionView::BitwiseOr(a, b),
            Instruction::BitwiseXor(a, b) => InstructionView::BitwiseXor(a, b),
            Instruction::BitwiseNot(v) => InstructionView::BitwiseNot(v),
            Instruction::SignExtend(v) => InstructionView::SignExtend(v),
            Instruction::ZeroExtend(v) => InstructionView::ZeroExtend(v),
            Instruction::SignedToFloat(v) => InstructionView::SignedToFloat(v),
            Instruction::UnsignedToFloat(v) => InstructionView::UnsignedToFloat(v),
            Instruction::FloatToSigned(v) => InstructionView::FloatToSigned(v),
            Instruction::FloatToUnsigned(v) => InstructionView::FloatToUnsigned(v),
            Instruction::FloatPromote(v) => InstructionView::FloatPromote(v),
            Instruction::FloatDemote(v) => InstructionView::FloatDemote(v),
            Instruction::Truncate(v) => InstructionView::Truncate(v),
            Instruction::Deref(v) => InstructionView::Deref(v),
            Instruction::SizeOf(t) => InstructionView::SizeOf(t@),
            Instruction::ArrayLen(t) => InstructionView::ArrayLen(t@),
        }
    }
}

/// The values an instruction uses, in the order [Instruction::for_each_value] visits them.
pub open spec fn instruction_values(i: InstructionView) -> Seq<Value> {
    match i {
        InstructionView::Call { function, arguments } => seq![function] + arguments,
        InstructionView::CallClosure { closure, arguments } => seq![closure] + arguments,
        InstructionView::Perform { effect_op: _, arguments } => arguments,
        InstructionView::Handle { body, cases } => seq![body] + cases.map_values(|c: HandlerCase| c.handler),
        InstructionView::Capability => seq![],
        InstructionView::PackClosure { function, environment } => seq![function, environment],
        InstructionView::IndexTuple { tuple, index: _ } => seq![tuple],
        InstructionView::MakeBytes(_) => seq![],
        InstructionView::MakeTuple(elements) => elements,
        InstructionView::MakeArray(elements) => elements,
        InstructionView::StackAlloc(v) => seq![v],
        InstructionView::StackAllocUninit(_) => seq![],
        InstructionView::AllocShared(v) => seq![v],
        InstructionView::Store { pointer, value } => seq![pointer, value],
        InstructionView::GetFieldPtr { struct_ptr, .. } => seq![struct_ptr],
        InstructionView::Transmute(v) => seq![v],
        InstructionView::Instantiate(_, _) => seq![],
        InstructionView::Id(v) => seq![v],
        InstructionView::Extern(_) => seq![],
        InstructionView::AddInt(a, b) => seq![a, b],
        InstructionView::AddFloat(a, b) => seq![a, b],
        InstructionView::SubInt(a, b) => seq![a, b],
        InstructionView::SubFloat(a, b) => seq![a, b],
        InstructionView::MulInt(a, b) => seq![a, b],
        InstructionView::MulFloat(a, b) => seq![a, b],
        InstructionView::DivSigned(a, b) => seq![a, b],
        InstructionView::DivUnsigned(a, b) => seq![a, b],
        InstructionView::DivFloat(a, b) => seq![a, b],
        InstructionView::ModSigned(a, b) => seq![a, b],
        InstructionView::ModUnsigned(a, b) => seq![a, b],
        InstructionView::ModFloat(a, b) => seq![a, b],
        InstructionView::LessSigned(a, b) => seq![a, b],
        InstructionView::LessUnsigned(a, b) => seq![a, b],
        InstructionView::LessFloat(a, b) => seq![a, b],
        InstructionView::EqInt(a, b) => seq![a, b],
        InstructionView::EqFloat(a, b) => seq![a, b],
        InstructionView::BitwiseAnd(a, b) => seq![a, b],
        InstructionView::BitwiseOr(a, b) => seq![a, b],
        InstructionView::BitwiseXor(a, b) => seq![a, b],
        InstructionView::BitwiseNot(v) => seq![v],
        InstructionView::SignExtend(v) => seq![v],
        InstructionView::ZeroExtend(v) => seq![v],
        InstructionView::SignedToFloat(v) => seq![v],
        InstructionView::UnsignedToFloat(v) => seq![v],
        InstructionView::FloatToSigned(v) => seq![v],
        InstructionView::FloatToUnsigned(v) => seq![v],
        InstructionView::FloatPromote(v) => seq![v],
        InstructionView::FloatDemote(v) => seq![v],
        InstructionView::Truncate(v) => seq![v],
        InstructionView::Deref(v) => seq![v],
        InstructionView::SizeOf(_) => seq![],
        InstructionView::ArrayLen(_) => seq![],
    }
}

/// `v`, or `replace` where `v` is `find`.
pub open spec fn replace_value(v: Value, find: Value, replace: Value) -> Value {
    if v == find {
        replace
    } else {
        v
    }
}

pub open spec fn replace_values(s: Seq<Value>, find: Value, replace: Value) -> Seq<Value> {
    s.map_values(|v: Value| replace_value(v, find, replace))
}

pub open spec fn replace_in_case(c: HandlerCase, find: Value, replace: Value) -> HandlerCase {
    HandlerCase { effect_op: c.effect_op, handler: replace_value(c.handler, find, replace) }
}

/// The instruction with every use of `find` replaced by `replace`; everything else, the result
/// types of nested types and the operation itself, is left as it is.
pub open spec fn replace_in_instruction(i: InstructionView, find: Value, replace: Value) -> InstructionView {
    let r = |v: Value| replace_value(v, find, replace);
    match i {
        InstructionView::Call { function, arguments } => InstructionView::Call { function: r(function), arguments: replace_values(arguments, find, replace) },
        InstructionView::CallClosure { closure, arguments } => InstructionView::CallClosure { closure: r(closure), arguments: replace_values(arguments, find, replace) },
        InstructionView::Perform { effect_op, arguments } => InstructionView::Perform { effect_op, arguments: replace_values(arguments, find, replace) },
        InstructionView::Handle { body, cases } => InstructionView::Handle { body: r(body), cases: cases.map_values(|c: HandlerCase| replace_in_case(c, find, replace)) },
        InstructionView::PackClosure { function, environment } => InstructionView::PackClosure { function: r(function), environment: r(environment) },
        InstructionView::IndexTuple { tuple, index } => InstructionView::IndexTuple { tuple: r(tuple), index },
        InstructionView::MakeTuple(elements) => InstructionView::MakeTuple(replace_values(elements, find, replace)),
        InstructionView::MakeArray(elements) => InstructionView::MakeArray(replace_values(elements, find, replace)),
        InstructionView::StackAlloc(v) => InstructionView::StackAlloc(r(v)),
        InstructionView::AllocShared(v) => InstructionView::AllocShared(r(v)),
        InstructionView::Store { pointer, value } => InstructionView::Store { pointer: r(pointer), value: r(value) },
        InstructionView::GetFieldPtr { struct_ptr, struct_type, index } => InstructionView::GetFieldPtr { struct_ptr: r(struct_ptr), struct_type, index },
        InstructionView::Transmute(v) => InstructionView::Transmute(r(v)),
        InstructionView::Id(v) => InstructionView::Id(r(v)),
        InstructionView::AddInt(a, b) => InstructionView::AddInt(r(a), r(b)),
        InstructionView::AddFloat(a, b) => InstructionView::AddFloat(r(a), r(b)),
        InstructionView::SubInt(a, b) => InstructionView::SubInt(r(a), r(b)),
        InstructionView::SubFloat(a, b) => InstructionView::SubFloat(r(a), r(b)),
        InstructionView::MulInt(a, b) => InstructionView::MulInt(r(a), r(b)),
        InstructionView::MulFloat(a, b) => InstructionView::MulFloat(r(a), r(b)),
        InstructionView::DivSigned(a, b) => InstructionView::DivSigned(r(a), r(b)),
        InstructionView::DivUnsigned(a, b) => InstructionView::DivUnsigned(r(a), r(b)),
        InstructionView::DivFloat(a, b) => InstructionView::DivFloat(r(a), r(b)),
        InstructionView::ModSigned(a, b) => InstructionView::ModSigned(r(a), r(b)),
        InstructionView::ModUnsigned(a, b) => InstructionView::ModUnsigned(r(a), r(b)),
        InstructionView::ModFloat(a, b) => InstructionView::ModFloat(r(a), r(b)),
        InstructionView::LessSigned(a, b) => InstructionView::LessSigned(r(a), r(b)),
        InstructionView::LessUnsigned(a, b) => InstructionView::LessUnsigned(r(a), r(b)),
        InstructionView::LessFloat(a, b) => InstructionView::LessFloat(r(a), r(b)),
        InstructionView::EqInt(a, b) => InstructionView::EqInt(r(a), r(b)),
        InstructionView::EqFloat(a, b) => InstructionView::EqFloat(r(a), r(b)),
        InstructionView::BitwiseAnd(a, b) => InstructionView::BitwiseAnd(r(a), r(b)),
        InstructionView::BitwiseOr(a, b) => InstructionView::BitwiseOr(r(a), r(b)),
        InstructionView::BitwiseXor(a, b) => InstructionView::BitwiseXor(r(a), r(b)),
        InstructionView::BitwiseNot(v) => InstructionView::BitwiseNot(r(v)),
        InstructionView::SignExtend(v) => InstructionView::SignExtend(r(v)),
        InstructionView::ZeroExtend(v) => InstructionView::ZeroExtend(r(v)),
        InstructionView::SignedToFloat(v) => InstructionView::SignedToFloat(r(v)),
        InstructionView::UnsignedToFloat(v) => InstructionView::UnsignedToFloat(r(v)),
        InstructionView::FloatToSigned(v) => InstructionView::FloatToSigned(r(v)),
        InstructionView::FloatToUnsigned(v) => InstructionView::FloatToUnsigned(r(v)),
        InstructionView::FloatPromote(v) => InstructionView::FloatPromote(r(v)),
        InstructionView::FloatDemote(v) => InstructionView::FloatDemote(r(v)),
        InstructionView::Truncate(v) => InstructionView::Truncate(r(v)),
        InstructionView::Deref(v) => InstructionView::Deref(r(v)),
        _ => i,
    }
}

/// Pushes the values of `values` onto `out`.
fn push_all(out: &mut Vec<Value>, values: &Vec<Value>)
    ensures
        final(out)@ == old(out)@ + values@,
{
    let mut i: usize = 0;
    while i < values.len()
        invariant
            0 <= i <= values@.len(),
            out@ == old(out)@ + values@.subrange(0, i as int),
        decreases values@.len() - i,
    {
        out.push(values[i]);
        i = i + 1;
        proof {
            assert(values@.subrange(0, i as int) =~= values@.subrange(0, i - 1).push(values@[i - 1]));
        }
    }
    proof {
        assert(values@.subrange(0, i as int) =~= values@);
    }
}

impl Instruction {
    /// The values this instruction uses, in order. Each operand that is a [Value] is listed
    /// once per occurrence; nested types, indices and definition ids are not values.
    pub fn for_each_value(&self) -> (r: Vec<Value>)
        ensures
            r@ == instruction_values(self@),
    {
        let mut out: Vec<Value> = Vec::new();
        match self {
            Instruction::Call { function, arguments } => {
                out.push(*function);
                push_all(&mut out, arguments);
            },
            Instruction::CallClosure { closure, arguments } => {
                out.push(*closure);
                push_all(&mut out, arguments);
            },
            Instruction::Perform { effect_op: _, arguments } => push_all(&mut out, arguments),
            Instruction::Handle { body, cases } => {
                out.push(*body);
                let mut i: usize = 0;
                while i < cases.len()
                    invariant
                        0 <= i <= cases@.len(),
                        out@ == seq![*body] + cases@.subrange(0, i as int).map_values(|c: HandlerCase| c.handler),
                    decreases cases@.len() - i,
                {
                    out.push(cases[i].handler);
                    i = i + 1;
                    proof {
                        assert(cases@.subrange(0, i as int).map_values(|c: HandlerCase| c.handler) =~= cases@.subrange(
                            0,
                            i - 1,
                        ).map_values(|c: HandlerCase| c.handler).push(cases@[i - 1].handler));
                    }
                }
                proof {
                    assert(cases@.subrange(0, i as int) =~= cases@);
                }
            },
            Instruction::Capability => {},
            Instruction::PackClosure { function, environment } => {
                out.push(*function);
                out.push(*environment);
            },
            Instruction::IndexTuple { tuple, index: _ } => out.push(*tuple),
            Instruction::MakeBytes(_) => {},
            Instruction::MakeTuple(elements) => push_all(&mut out, elements),
            Instruction::MakeArray(elements) => push_all(&mut out, elements),
            Instruction::StackAlloc(value) => out.push(*value),
            Instruction::StackAllocUninit(_) => {},
            Instruction::AllocShared(value) => out.push(*value),
            Instruction::Store { pointer, value } => {
                out.push(*pointer);
                out.push(*value);
            },
            Instruction::Transmute(value) => out.push(*value),
            Instruction::Instantiate(_, _) => {},
            Instruction::Id(value) => out.push(*value),
            Instruction::AddInt(a, b) => {
                out.push(*a);
                out.push(*b);
            },
            Instruction::AddFloat(a, b) => {
                out.push(*a);
                out.push(*b);
            },
            Instruction::SubInt(a, b) => {
                out.push(*a);
                out.push(*b);
            },
            Instruction::SubFloat(a, b) => {
                out.push(*a);
                out.push(*b);
            },
            Instruction::MulInt(a, b) => {
                out.push(*a);
                out.push(*b);
            },
            Instruction::MulFloat(a, b) => {
                out.push(*a);
                out.push(*b);
            },
            Instruction::DivSigned(a, b) => {
                out.push(*a);
                out.push(*b);
            },
            Instruction::DivUnsigned(a, b) => {
                out.push(*a);
                out.push(*b);
            },
            Instruction::DivFloat(a, b) => {
                out.push(*a);
                out.push(*b);
            },
            Instruction::ModSigned(a, b) => {
                out.push(*a);
                out.push(*b);
            },
            Instruction::ModUnsigned(a, b) => {
                out.push(*a);
                out.push(*b);
            },
            Instruction::ModFloat(a, b) => {
                out.push(*a);
                out.push(*b);
            },
            Instruction::LessSigned(a, b) => {
                out.push(*a);
                out.push(*b);
            },
            Instruction::LessUnsigned(a, b) => {
                out.push(*a);
                out.push(*b);
            },
            Instruction::LessFloat(a, b) => {
                out.push(*a);
                out.push(*b);
            },
            Instruction::EqInt(a, b) => {
                out.push(*a);
                out.push(*b);
            },
            Instruction::EqFloat(a, b) => {
                out.push(*a);
                out.push(*b);
            },
            Instruction::BitwiseAnd(a, b) => {
                out.push(*a);
                out.push(*b);
            },
            Instruction::BitwiseOr(a, b) => {
                out.push(*a);
                out.push(*b);
            },
            Instruction::BitwiseXor(a, b) => {
                out.push(*a);
                out.push(*b);
            },
            Instruction::BitwiseNot(value) => out.push(*value),
            Instruction::SignExtend(value) => out.push(*value),
            Instruction::ZeroExtend(value) => out.push(*value),
            Instruction::SignedToFloat(value) => out.push(*value),
            Instruction::UnsignedToFloat(value) => out.push(*value),
            Instruction::FloatToSigned(value) => out.push(*value),
            Instruction::FloatToUnsigned(value) => out.push(*value),
            Instruction::FloatPromote(value) => out.push(*value),
            Instruction::FloatDemote(value) => out.push(*value),
            Instruction::Truncate(value) => out.push(*value),
            Instruction::Deref(value) => out.push(*value),
            Instruction::SizeOf(_) => {},
            Instruction::ArrayLen(_) => {},
            Instruction::GetFieldPtr { struct_ptr, .. } => out.push(*struct_ptr),
            Instruction::Extern(_) => {},
        }
        proof {
            assert(out@ =~= instruction_values(self@));
        }
        out
    }
}

/// Copies `values`.
pub fn clone_values(values: &Vec<Value>) -> (r: Vec<Value>)
    ensures
        r@ == values@,
{
    let mut r: Vec<Value> = Vec::new();
    push_all(&mut r, values);
    proof {
        assert(r@ =~= values@);
    }
    r
}

impl Clone for Instruction {
    fn clone(&self) -> (r: Self)
        ensures
            r@ == self@,
    {
        match self {
            Instruction::Call { function, arguments } => Instruction::Call { function: *function, arguments: clone_values(arguments) },
            Instruction::CallClosure { closure, arguments } => Instruction::CallClosure { closure: *closure, arguments: clone_values(arguments) },
            Instruction::Perform { effect_op, arguments } => Instruction::Perform { effect_op: *effect_op, arguments: clone_values(arguments) },
            Instruction::Handle { body, cases } => {
                let mut copied: Vec<HandlerCase> = Vec::new();
                let mut i: usize = 0;
                while i < cases.len()
                    invariant
                        0 <= i <= cases@.len(),
                        copied@ == cases@.subrange(0, i as int),
                    decreases cases@.len() - i,
                {
                    copied.push(cases[i]);
                    i = i + 1;
                    proof {
                        assert(cases@.subrange(0, i as int) =~= cases@.subrange(0, i - 1).push(cases@[i - 1]));
                    }
                }
                proof {
                    assert(cases@.subrange(0, i as int) =~= cases@);
                }
                Instruction::Handle { body: *body, cases: copied }
            },
            Instruction::Capability => Instruction::Capability,
            Instruction::PackClosure { function, environment } => Instruction::PackClosure { function: *function, environment: *environment },
            Instruction::IndexTuple { tuple, index } => Instruction::IndexTuple { tuple: *tuple, index: *index },
            Instruction::MakeBytes(bytes) => {
                let mut copied: Vec<u8> = Vec::new();
                let mut i: usize = 0;
                while i < bytes.len()
                    invariant
                        0 <= i <= bytes@.len(),
                        copied@ == bytes@.subrange(0, i as int),
                    decreases bytes@.len() - i,
                {
                    copied.push(bytes[i]);
                    i = i + 1;
                    proof {
                        assert(bytes@.subrange(0, i as int) =~= bytes@.subrange(0, i - 1).push(bytes@[i - 1]));
                    }
                }
                proof {
                    assert(bytes@.subrange(0, i as int) =~= bytes@);
                }
                Instruction::MakeBytes(copied)
            },
            Instruction::MakeTuple(values) => Instruction::MakeTuple(clone_values(values)),
            Instruction::MakeArray(values) => Instruction::MakeArray(clone_values(values)),
            Instruction::StackAlloc(v) => Instruction::StackAlloc(*v),
            Instruction::StackAllocUninit(t) => Instruction::StackAllocUninit(t.clone()),
            Instruction::AllocShared(v) => Instruction::AllocShared(*v),
            Instruction::Store { pointer, value } => Instruction::Store { pointer: *pointer, value: *value },
            Instruction::GetFieldPtr { struct_ptr, struct_type, index } => Instruction::GetFieldPtr { struct_ptr: *struct_ptr, struct_type: struct_type.clone(), index: *index },
            Instruction::Transmute(v) => Instruction::Transmute(*v),
            Instruction::Instantiate(id, bindings) => Instruction::Instantiate(*id, arc_clone(bindings)),
            Instruction::Id(v) => Instruction::Id(*v),
            Instruction::Extern(name) => Instruction::Extern(name.clone()),
            Instruction::AddInt(a, b) => Instruction::AddInt(*a, *b),
            Instruction::AddFloat(a, b) => Instruction::AddFloat(*a, *b),
            Instruction::SubInt(a, b) => Instruction::SubInt(*a, *b),
            Instruction::SubFloat(a, b) => Instruction::SubFloat(*a, *b),
            Instruction::MulInt(a, b) => Instruction::MulInt(*a, *b),
            Instruction::MulFloat(a, b) => Instruction::MulFloat(*a, *b),
            Instruction::DivSigned(a, b) => Instruction::DivSigned(*a, *b),
            Instruction::DivUnsigned(a, b) => Instruction::DivUnsigned(*a, *b),
            Instruction::DivFloat(a, b) => Instruction::DivFloat(*a, *b),
            Instruction::ModSigned(a, b) => Instruction::ModSigned(*a, *b),
            Instruction::ModUnsigned(a, b) => Instruction::ModUnsigned(*a, *b),
            Instruction::ModFloat(a, b) => Instruction::ModFloat(*a, *b),
            Instruction::LessSigned(a, b) => Instruction::LessSigned(*a, *b),
            Instruction::LessUnsigned(a, b) => Instruction::LessUnsigned(*a, *b),
            Instruction::LessFloat(a, b) => Instruction::LessFloat(*a, *b),
            Instruction::EqInt(a, b) => Instruction::EqInt(*a, *b),
            Instruction::EqFloat(a, b) => Instruction::EqFloat(*a, *b),
            Instruction::BitwiseAnd(a, b) => Instruction::BitwiseAnd(*a, *b),
            Instruction::BitwiseOr(a, b) => Instruction::BitwiseOr(*a, *b),
            Instruction::BitwiseXor(a, b) => Instruction::BitwiseXor(*a, *b),
            Instruction::BitwiseNot(v) => Instruction::BitwiseNot(*v),
            Instruction::SignExtend(v) => Instruction::SignExtend(*v),
            Instruction::ZeroExtend(v) => Instruction::ZeroExtend(*v),
            Instruction::SignedToFloat(v) => Instruction::SignedToFloat(*v),
            Instruction::UnsignedToFloat(v) => Instruction::UnsignedToFloat(*v),
            Instruction::FloatToSigned(v) => Instruction::FloatToSigned(*v),
            Instruction::FloatToUnsigned(v) => Instruction::FloatToUnsigned(*v),
            Instruction::FloatPromote(v) => Instruction::FloatPromote(*v),
            Instruction::FloatDemote(v) => Instruction::FloatDemote(*v),
            Instruction::Truncate(v) => Instruction::Truncate(*v),
            Instruction::Deref(v) => Instruction::Deref(*v),
            Instruction::SizeOf(t) => Instruction::SizeOf(t.clone()),
            Instruction::ArrayLen(t) => Instruction::ArrayLen(t.clone()),
        }
    }
}

/// A block to jump to with the argument for that block, if any.
/// A block's arguments is MIR's equivalent of PHI values in other SSA-based IRs.
pub type JmpTarget = (BlockId, Option<Value>);

pub enum TerminatorInstruction {
    Jmp(JmpTarget),
    If {
        condition: Value,
        then: JmpTarget,
        else_: JmpTarget,
        /// The block expected to merge the then and else paths after the if
        end: BlockId,
    },
    Switch { int_value: Value, cases: Vec<(u32, JmpTarget)>, else_: JmpTarget, end: BlockId },
    Unreachable,
    Return(Value),
    /// Similar to `Return` but for non-function globals.
    Result(Value),
}

pub open spec fn opt_value(v: Option<Value>) -> Seq<Value> {
    match v {
        Some(v) => seq![v],
        None => seq![],
    }
}

/// The values of the case arguments of a switch, in order.
pub open spec fn case_values(cases: Seq<(u32, JmpTarget)>) -> Seq<Value>
    decreases cases.len(),
{
    if cases.len() == 0 {
        seq![]
    } else {
        case_values(cases.drop_last()) + opt_value(cases.last().1.1)
    }
}

/// The values a terminator uses, in the order [TerminatorInstruction::for_each_value] visits them.
pub open spec fn terminator_values(t: TerminatorInstruction) -> Seq<Value> {
    match t {
        TerminatorInstruction::Jmp((_, arg)) => opt_value(arg),
        TerminatorInstruction::If { condition, then, else_, end: _ } => seq![condition] + opt_value(then.1)
            + opt_value(else_.1),
        TerminatorInstruction::Switch { int_value, cases, else_, end: _ } => seq![int_value] + case_values(
            cases@,
        ) + opt_value(else_.1),
        TerminatorInstruction::Unreachable => seq![],
        TerminatorInstruction::Return(v) => seq![v],
        TerminatorInstruction::Result(v) => seq![v],
    }
}

fn push_opt(out: &mut Vec<Value>, v: &Option<Value>)
    ensures
        final(out)@ == old(out)@ + opt_value(*v),
{
    if let Some(value) = v {
        out.push(*value);
    }
    proof {
        assert(final(out)@ =~= old(out)@ + opt_value(*v));
    }
}

impl TerminatorInstruction {
    pub fn jmp(target: BlockId, arg: Value) -> (r: Self)
        ensures
            r == TerminatorInstruction::Jmp((target, Some(arg))),
    {
        TerminatorInstruction::Jmp((target, Some(arg)))
    }

    pub fn jmp_no_args(target: BlockId) -> (r: Self)
        ensures
            r == TerminatorInstruction::Jmp((target, None)),
    {
        TerminatorInstruction::Jmp((target, None))
    }

    pub fn if_(condition: Value, then: BlockId, else_: BlockId, end: BlockId) -> (r: Self)
        ensures
            r == (TerminatorInstruction::If { condition, then: (then, None), else_: (else_, None), end }),
    {
        TerminatorInstruction::If { condition, then: (then, None), else_: (else_, None), end }
    }

    /// The values this terminator uses, in order.
    pub fn for_each_value(&self) -> (r: Vec<Value>)
        ensures
            r@ == terminator_values(*self),
    {
        let mut out: Vec<Value> = Vec::new();
        match self {
            TerminatorInstruction::Jmp((_, arg)) => push_opt(&mut out, arg),
            TerminatorInstruction::If { condition, then, else_, end: _ } => {
                out.push(*condition);
                push_opt(&mut out, &then.1);
                push_opt(&mut out, &else_.1);
            },
            TerminatorInstruction::Switch { int_value, cases, else_, end: _ } => {
                out.push(*int_value);
                let mut i: usize = 0;
                while i < cases.len()
                    invariant
                        0 <= i <= cases@.len(),
                        out@ == seq![*int_value] + case_values(cases@.subrange(0, i as int)),
                    decreases cases@.len() - i,
                {
                    push_opt(&mut out, &cases[i].1.1);
                    i = i + 1;
                    proof {
                        assert(cases@.subrange(0, i as int).drop_last() =~= cases@.subrange(0, i - 1));
                    }
                }
                proof {
                    assert(cases@.subrange(0, i as int) =~= cases@);
                }
                push_opt(&mut out, &else_.1);
            },
            TerminatorInstruction::Unreachable => {},
            TerminatorInstruction::Return(value) => out.push(*value),
            TerminatorInstruction::Result(value) => out.push(*value),
        }
        proof {
            assert(out@ =~= terminator_values(*self));
        }
        out
    }
}

} // verus!
