//! Moving values through a coroutine's byte channel. A value is pushed field by field, each
//! non-tuple field through a stack slot with `mco_coro_push`; popping mirrors this, last field
//! first, since the channel is last-in first-out.
use crate::mir::definition::Definition;
use crate::mir::effects::lowering::{
    AminicoroFns, Emitter, emitted, room_for, extern_call_code, is_zero_sized, lemma_emitted_nothing,
    lemma_emitted_then, pointer_view, spec_is_zero_sized, usz_view,
};
use crate::mir::instruction::{Instruction, InstructionView};
use crate::mir::types::{PrimitiveType, Type, TypeView, lemma_types_view, types_view};
use crate::mir::values::{InstructionId, Value};
use vstd::prelude::*;

verus! {

pub open spec fn result(n: nat) -> Value {
    Value::InstructionResult(InstructionId(n as u32))
}

/// The instructions that push `value` of type `t` onto the channel of `coro` when the
/// definition has `n` instructions; `name` and `typ` are those of `mco_coro_push`.
pub open spec fn push_code(name: Seq<char>, typ: TypeView, coro: Value, value: Value, t: TypeView, n: nat) -> Seq<
    (InstructionView, TypeView),
>
    decreases t, 0int,
{
    if spec_is_zero_sized(t) {
        seq![]
    } else {
        match t {
            TypeView::Tuple(fields) => push_fields_code(name, typ, coro, value, fields, 0, n),
            _ => seq![(InstructionView::StackAlloc(value), pointer_view()), (InstructionView::SizeOf(t), usz_view())]
                + extern_call_code(name, typ, seq![coro, result(n), result(n + 1)], n + 2),
        }
    }
}

/// The instructions that push the fields of the tuple `value`, from field `i` on, each taken out
/// with `IndexTuple` and then pushed.
pub open spec fn push_fields_code(
    name: Seq<char>,
    typ: TypeView,
    coro: Value,
    value: Value,
    fields: Seq<TypeView>,
    i: int,
    n: nat,
) -> Seq<(InstructionView, TypeView)>
    decreases fields, fields.len() - i,
{
    if 0 <= i < fields.len() {
        let inner = push_code(name, typ, coro, result(n), fields[i], n + 1);
        seq![(InstructionView::IndexTuple { tuple: value, index: i as u32 }, fields[i])] + inner + push_fields_code(
            name,
            typ,
            coro,
            value,
            fields,
            i + 1,
            n + 1 + inner.len(),
        )
    } else {
        seq![]
    }
}

/// The instructions that pop a value of type `t` off the channel of `coro` when the definition
/// has `n` instructions, and the value they leave it in; `name` and `typ` are those of
/// `mco_coro_pop`.
pub open spec fn pop_code(name: Seq<char>, typ: TypeView, coro: Value, t: TypeView, n: nat) -> (Seq<
    (InstructionView, TypeView),
>, Value)
    decreases t, 0int,
{
    if spec_is_zero_sized(t) {
        (seq![], Value::Unit)
    } else {
        match t {
            TypeView::Tuple(fields) => {
                let (code, values) = pop_fields_code(name, typ, coro, fields, fields.len() as int, n);
                (code + seq![(InstructionView::MakeTuple(values), t)], result(n + code.len()))
            },
            _ => (
                seq![(InstructionView::StackAllocUninit(t), pointer_view()), (InstructionView::SizeOf(t), usz_view())]
                    + extern_call_code(name, typ, seq![coro, result(n), result(n + 1)], n + 2) + seq![
                    (InstructionView::Deref(result(n)), t),
                ],
                result(n + 4),
            ),
        }
    }
}

/// The instructions that pop the first `k` fields of a tuple, field `k - 1` first, and the
/// values they leave the fields in, in field order.
pub open spec fn pop_fields_code(name: Seq<char>, typ: TypeView, coro: Value, fields: Seq<TypeView>, k: int, n: nat) -> (Seq<
    (InstructionView, TypeView),
>, Seq<Value>)
    decreases fields, k,
{
    if 0 < k <= fields.len() {
        let (first, last_value) = pop_code(name, typ, coro, fields[k - 1], n);
        let (rest, values) = pop_fields_code(name, typ, coro, fields, k - 1, n + first.len());
        (first + rest, values.push(last_value))
    } else {
        (seq![], seq![])
    }
}

proof fn lemma_push_fields_len(
    name: Seq<char>,
    typ: TypeView,
    coro: Value,
    value: Value,
    fields: Seq<TypeView>,
    i: int,
    n: nat,
)
    requires
        0 <= i <= fields.len(),
    ensures
        push_fields_code(name, typ, coro, value, fields, i, n).len() >= fields.len() - i,
    decreases fields.len() - i,
{
    if i < fields.len() {
        let inner = push_code(name, typ, coro, result(n), fields[i], n + 1);
        lemma_push_fields_len(name, typ, coro, value, fields, i + 1, n + 1 + inner.len());
    }
}

/// The coroutine primitives have the function types that [crate::mir::effects::lowering::aminicoro_fns]
/// gives them.
pub open spec fn primitives_are_functions(mco: AminicoroFns) -> bool {
    &&& mco.push.typ is Function
    &&& mco.pop.typ is Function
}

impl Emitter {
    /// Pushes `value`, of type `value_type`, onto the channel of coroutine `coro`: nothing for a
    /// type without size, each field in turn for a tuple, and otherwise the value through a
    /// stack slot with `mco_coro_push`.
    pub fn push_bytes(
        &mut self,
        definition: &mut Definition,
        mco: &AminicoroFns,
        coro: Value,
        value: Value,
        value_type: &Type,
    )
        requires
            primitives_are_functions(*mco),
            room_for(
                *old(self),
                *old(definition),
                push_code(mco.push.name@, mco.push.typ@, coro, value, value_type@, old(definition).instructions@.len()).len(),
            ),
        ensures
            emitted(
                *old(self),
                *old(definition),
                *final(self),
                *final(definition),
                push_code(mco.push.name@, mco.push.typ@, coro, value, value_type@, old(definition).instructions@.len()),
            ),
        decreases value_type, 0int,
    {
        let ghost e0 = *self;
        let ghost d0 = *definition;
        let ghost n = definition.instructions@.len();
        if is_zero_sized(value_type) {
            proof {
                lemma_emitted_nothing(e0, d0);
            }
            return;
        }
        if let Type::Tuple(fields) = value_type {
            proof {
                lemma_types_view(fields@);
            }
            self.push_fields(definition, mco, coro, value, fields, 0);
            return;
        }
        let slot = self.push_instruction(definition, Instruction::StackAlloc(value), Type::pointer());
        let ghost e1 = *self;
        let ghost d1 = *definition;
        let size = self.emit_size_of(definition, value_type);
        let ghost e2 = *self;
        let ghost d2 = *definition;
        let arguments = vec![coro, slot, size];
        let ghost args = arguments@;
        self.call_extern(definition, &mco.push, arguments);
        proof {
            let c1 = seq![(InstructionView::StackAlloc(value), pointer_view())];
            let c2 = seq![(InstructionView::SizeOf(value_type@), usz_view())];
            let c3 = extern_call_code(mco.push.name@, mco.push.typ@, args, n + 2);
            lemma_emitted_then(e0, d0, e1, d1, e2, d2, c1, c2);
            lemma_emitted_then(e0, d0, e2, d2, *self, *definition, c1 + c2, c3);
            assert(args =~= seq![coro, result(n), result(n + 1)]);
            assert(c1 + c2 + c3 =~= push_code(mco.push.name@, mco.push.typ@, coro, value, value_type@, n));
        }
    }

    /// Pushes the fields of the tuple `value`, from field `i` on.
    fn push_fields(
        &mut self,
        definition: &mut Definition,
        mco: &AminicoroFns,
        coro: Value,
        value: Value,
        fields: &Vec<Type>,
        i: usize,
    )
        requires
            i <= fields@.len(),
            primitives_are_functions(*mco),
            room_for(
                *old(self),
                *old(definition),
                push_fields_code(
                    mco.push.name@,
                    mco.push.typ@,
                    coro,
                    value,
                    types_view(fields@),
                    i as int,
                    old(definition).instructions@.len(),
                ).len(),
            ),
        ensures
            emitted(
                *old(self),
                *old(definition),
                *final(self),
                *final(definition),
                push_fields_code(
                    mco.push.name@,
                    mco.push.typ@,
                    coro,
                    value,
                    types_view(fields@),
                    i as int,
                    old(definition).instructions@.len(),
                ),
            ),
        decreases fields, fields@.len() - i,
    {
        let ghost e0 = *self;
        let ghost d0 = *definition;
        let ghost n = definition.instructions@.len();
        let ghost views = types_view(fields@);
        proof {
            lemma_types_view(fields@);
        }
        if i >= fields.len() {
            proof {
                lemma_emitted_nothing(e0, d0);
            }
            return;
        }
        proof {
            lemma_push_fields_len(mco.push.name@, mco.push.typ@, coro, value, views, i as int, n);
            assert(views[i as int] == fields@[i as int]@);
        }
        let field_type = &fields[i];
        let field = self.push_instruction(
            definition,
            Instruction::IndexTuple { tuple: value, index: i as u32 },
            field_type.clone(),
        );
        let ghost e1 = *self;
        let ghost d1 = *definition;
        let ghost inner = push_code(mco.push.name@, mco.push.typ@, coro, result(n), views[i as int], n + 1);
        assert(field == result(n));
        self.push_bytes(definition, mco, coro, field, field_type);
        let ghost e2 = *self;
        let ghost d2 = *definition;
        self.push_fields(definition, mco, coro, value, fields, i + 1);
        proof {
            let c1 = seq![(InstructionView::IndexTuple { tuple: value, index: i as u32 }, views[i as int])];
            let c3 = push_fields_code(mco.push.name@, mco.push.typ@, coro, value, views, i + 1, n + 1 + inner.len());
            lemma_emitted_then(e0, d0, e1, d1, e2, d2, c1, inner);
            lemma_emitted_then(e0, d0, e2, d2, *self, *definition, c1 + inner, c3);
            assert(c1 + inner + c3 =~= push_fields_code(mco.push.name@, mco.push.typ@, coro, value, views, i as int, n));
        }
    }

    /// Pops a value of type `value_type` off the channel of coroutine `coro` and returns it:
    /// unit for a type without size, each field in turn, last first, then the tuple of them for
    /// a tuple, and otherwise the value through a fresh stack slot with `mco_coro_pop`.
    pub fn pop_bytes(&mut self, definition: &mut Definition, mco: &AminicoroFns, coro: Value, value_type: &Type) -> (r: Value)
        requires
            primitives_are_functions(*mco),
            room_for(
                *old(self),
                *old(definition),
                pop_code(mco.pop.name@, mco.pop.typ@, coro, value_type@, old(definition).instructions@.len()).0.len(),
            ),
        ensures
            r == pop_code(mco.pop.name@, mco.pop.typ@, coro, value_type@, old(definition).instructions@.len()).1,
            emitted(
                *old(self),
                *old(definition),
                *final(self),
                *final(definition),
                pop_code(mco.pop.name@, mco.pop.typ@, coro, value_type@, old(definition).instructions@.len()).0,
            ),
        decreases value_type, 0int,
    {
        let ghost e0 = *self;
        let ghost d0 = *definition;
        let ghost n = definition.instructions@.len();
        if is_zero_sized(value_type) {
            proof {
                lemma_emitted_nothing(e0, d0);
            }
            return Value::Unit;
        }
        if let Type::Tuple(fields) = value_type {
            proof {
                lemma_types_view(fields@);
            }
            let popped = self.pop_fields(definition, mco, coro, fields, fields.len());
            let ghost e1 = *self;
            let ghost d1 = *definition;
            let r = self.push_instruction(definition, Instruction::MakeTuple(popped), value_type.clone());
            proof {
                let (code, values) = pop_fields_code(mco.pop.name@, mco.pop.typ@, coro, types_view(fields@), fields@.len() as int, n);
                lemma_emitted_then(e0, d0, e1, d1, *self, *definition, code, seq![(InstructionView::MakeTuple(values), value_type@)]);
            }
            return r;
        }
        let slot = self.push_instruction(definition, Instruction::StackAllocUninit(value_type.clone()), Type::pointer());
        let ghost e1 = *self;
        let ghost d1 = *definition;
        let size = self.emit_size_of(definition, value_type);
        let ghost e2 = *self;
        let ghost d2 = *definition;
        let arguments = vec![coro, slot, size];
        let ghost args = arguments@;
        self.call_extern(definition, &mco.pop, arguments);
        let ghost e3 = *self;
        let ghost d3 = *definition;
        let r = self.push_instruction(definition, Instruction::Deref(slot), value_type.clone());
        proof {
            let c1 = seq![(InstructionView::StackAllocUninit(value_type@), pointer_view())];
            let c2 = seq![(InstructionView::SizeOf(value_type@), usz_view())];
            let c3 = extern_call_code(mco.pop.name@, mco.pop.typ@, args, n + 2);
            let c4 = seq![(InstructionView::Deref(result(n)), value_type@)];
            lemma_emitted_then(e0, d0, e1, d1, e2, d2, c1, c2);
            lemma_emitted_then(e0, d0, e2, d2, e3, d3, c1 + c2, c3);
            lemma_emitted_then(e0, d0, e3, d3, *self, *definition, c1 + c2 + c3, c4);
            assert(args =~= seq![coro, result(n), result(n + 1)]);
            assert(c1 + c2 + c3 + c4 =~= pop_code(mco.pop.name@, mco.pop.typ@, coro, value_type@, n).0);
        }
        r
    }

    /// Pops the arguments of an operation, of types `arg_types`, off the channel of `coro`,
    /// the last first since the channel is last-in first-out, and returns them in order.
    pub fn pop_operation_arguments(
        &mut self,
        definition: &mut Definition,
        mco: &AminicoroFns,
        coro: Value,
        arg_types: &Vec<Type>,
    ) -> (r: Vec<Value>)
        requires
            primitives_are_functions(*mco),
            room_for(
                *old(self),
                *old(definition),
                pop_fields_code(mco.pop.name@, mco.pop.typ@, coro, types_view(arg_types@), arg_types@.len() as int, old(definition).instructions@.len()).0.len(),
            ),
        ensures
            r@ == pop_fields_code(mco.pop.name@, mco.pop.typ@, coro, types_view(arg_types@), arg_types@.len() as int, old(definition).instructions@.len()).1,
            emitted(
                *old(self),
                *old(definition),
                *final(self),
                *final(definition),
                pop_fields_code(mco.pop.name@, mco.pop.typ@, coro, types_view(arg_types@), arg_types@.len() as int, old(definition).instructions@.len()).0,
            ),
    {
        self.pop_fields(definition, mco, coro, arg_types, arg_types.len())
    }

    /// Pops the first `k` fields of a tuple, field `k - 1` first, and returns them in field
    /// order.
    fn pop_fields(&mut self, definition: &mut Definition, mco: &AminicoroFns, coro: Value, fields: &Vec<Type>, k: usize) -> (r: Vec<Value>)
        requires
            k <= fields@.len(),
            primitives_are_functions(*mco),
            room_for(
                *old(self),
                *old(definition),
                pop_fields_code(mco.pop.name@, mco.pop.typ@, coro, types_view(fields@), k as int, old(definition).instructions@.len()).0.len(),
            ),
        ensures
            r@ == pop_fields_code(mco.pop.name@, mco.pop.typ@, coro, types_view(fields@), k as int, old(definition).instructions@.len()).1,
            emitted(
                *old(self),
                *old(definition),
                *final(self),
                *final(definition),
                pop_fields_code(mco.pop.name@, mco.pop.typ@, coro, types_view(fields@), k as int, old(definition).instructions@.len()).0,
            ),
        decreases fields, k,
    {
        let ghost e0 = *self;
        let ghost d0 = *definition;
        let ghost n = definition.instructions@.len();
        let ghost views = types_view(fields@);
        proof {
            lemma_types_view(fields@);
        }
        if k == 0 {
            proof {
                lemma_emitted_nothing(e0, d0);
            }
            return Vec::new();
        }
        proof {
            assert(views[k - 1] == fields@[k - 1]@);
        }
        let last = self.pop_bytes(definition, mco, coro, &fields[k - 1]);
        let ghost e1 = *self;
        let ghost d1 = *definition;
        let ghost first = pop_code(mco.pop.name@, mco.pop.typ@, coro, views[k - 1], n).0;
        let mut values = self.pop_fields(definition, mco, coro, fields, k - 1);
        values.push(last);
        proof {
            let rest = pop_fields_code(mco.pop.name@, mco.pop.typ@, coro, views, k - 1, n + first.len()).0;
            lemma_emitted_then(e0, d0, e1, d1, *self, *definition, first, rest);
        }
        values
    }
}

} // verus!
