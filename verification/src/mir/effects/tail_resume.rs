//! The tail-resume optimization inlines handlers whose cases all `resume` in tail position.
//! This module holds the parts of it that reason about a single definition: finding a handler's
//! function and rewriting one value into another throughout a definition.
use crate::fx::{fx_set_contains, fx_set_insert, fx_set_new};
use crate::mir::definition::{Block, Definition};
use crate::mir::effects::lowering::{CaseShape, ids_resolve, resolve_id, spec_resolve_id, spec_unpack, unpack_in_bounds};
use crate::mir::instruction::{
    GenericBindings, HandlerCase, Instruction, InstructionView, JmpTarget, TerminatorInstruction, instruction_values,
    replace_in_case, replace_in_instruction, replace_value, replace_values, terminator_values, opt_value, case_values,
};
use crate::mir::types::Type;
use crate::mir::values::{BlockId, DefinitionId, InstructionId, Value};
use std::sync::Arc;
use vstd::prelude::*;

verus! {

/// What a handle body's environment was before the handler's capability was added to it: whether
/// the body was a closure at all, and the types of its environment's fields.
pub struct OriginalEnvLayout {
    pub was_closure: bool,
    pub original_field_types: Vec<Type>,
}

/// `v`, or `replace` where `v` is `find`.
fn replaced(v: Value, find: Value, replace: Value) -> (r: Value)
    ensures
        r == replace_value(v, find, replace),
{
    if v == find {
        replace
    } else {
        v
    }
}

fn replaced_all(values: Vec<Value>, find: Value, replace: Value) -> (r: Vec<Value>)
    ensures
        r@ == replace_values(values@, find, replace),
{
    let mut r: Vec<Value> = Vec::new();
    let mut i: usize = 0;
    while i < values.len()
        invariant
            0 <= i <= values@.len(),
            r@ == replace_values(values@.subrange(0, i as int), find, replace),
        decreases values@.len() - i,
    {
        r.push(replaced(values[i], find, replace));
        i = i + 1;
        proof {
            assert(r@ =~= replace_values(values@.subrange(0, i as int), find, replace));
        }
    }
    proof {
        assert(values@.subrange(0, i as int) =~= values@);
    }
    r
}

fn replaced_cases(cases: Vec<HandlerCase>, find: Value, replace: Value) -> (r: Vec<HandlerCase>)
    ensures
        r@ == cases@.map_values(|c: HandlerCase| replace_in_case(c, find, replace)),
{
    let mut r: Vec<HandlerCase> = Vec::new();
    let mut i: usize = 0;
    while i < cases.len()
        invariant
            0 <= i <= cases@.len(),
            r@ == cases@.subrange(0, i as int).map_values(|c: HandlerCase| replace_in_case(c, find, replace)),
        decreases cases@.len() - i,
    {
        let case = cases[i];
        r.push(HandlerCase { effect_op: case.effect_op, handler: replaced(case.handler, find, replace) });
        i = i + 1;
        proof {
            assert(r@ =~= cases@.subrange(0, i as int).map_values(
                |c: HandlerCase| replace_in_case(c, find, replace),
            ));
        }
    }
    proof {
        assert(cases@.subrange(0, i as int) =~= cases@);
    }
    r
}

/// `instruction` with every use of `find` replaced by `replace`.
pub fn substitute_in_instruction(instruction: Instruction, find: Value, replace: Value) -> (r: Instruction)
    ensures
        r@ == replace_in_instruction(instruction@, find, replace),
{
    let r = match instruction {
        Instruction::Call { function, arguments } => Instruction::Call {
            function: replaced(function, find, replace),
            arguments: replaced_all(arguments, find, replace),
        },
        Instruction::CallClosure { closure, arguments } => Instruction::CallClosure {
            closure: replaced(closure, find, replace),
            arguments: replaced_all(arguments, find, replace),
        },
        Instruction::Perform { effect_op, arguments } => Instruction::Perform {
            effect_op,
            arguments: replaced_all(arguments, find, replace),
        },
        Instruction::Handle { body, cases } => Instruction::Handle {
            body: replaced(body, find, replace),
            cases: replaced_cases(cases, find, replace),
        },
        Instruction::PackClosure { function, environment } => Instruction::PackClosure {
            function: replaced(function, find, replace),
            environment: replaced(environment, find, replace),
        },
        Instruction::IndexTuple { tuple, index } => Instruction::IndexTuple { tuple: replaced(tuple, find, replace), index },
        Instruction::MakeTuple(values) => Instruction::MakeTuple(replaced_all(values, find, replace)),
        Instruction::MakeArray(values) => Instruction::MakeArray(replaced_all(values, find, replace)),
        Instruction::Store { pointer, value } => Instruction::Store {
            pointer: replaced(pointer, find, replace),
            value: replaced(value, find, replace),
        },
        Instruction::GetFieldPtr { struct_ptr, struct_type, index } => Instruction::GetFieldPtr {
            struct_ptr: replaced(struct_ptr, find, replace),
            struct_type,
            index,
        },
        Instruction::AddInt(a, b) => Instruction::AddInt(replaced(a, find, replace), replaced(b, find, replace)),
        Instruction::AddFloat(a, b) => Instruction::AddFloat(replaced(a, find, replace), replaced(b, find, replace)),
        Instruction::SubInt(a, b) => Instruction::SubInt(replaced(a, find, replace), replaced(b, find, replace)),
        Instruction::SubFloat(a, b) => Instruction::SubFloat(replaced(a, find, replace), replaced(b, find, replace)),
        Instruction::MulInt(a, b) => Instruction::MulInt(replaced(a, find, replace), replaced(b, find, replace)),
        Instruction::MulFloat(a, b) => Instruction::MulFloat(replaced(a, find, replace), replaced(b, find, replace)),
        Instruction::DivSigned(a, b) => Instruction::DivSigned(replaced(a, find, replace), replaced(b, find, replace)),
        Instruction::DivUnsigned(a, b) => Instruction::DivUnsigned(replaced(a, find, replace), replaced(b, find, replace)),
        Instruction::DivFloat(a, b) => Instruction::DivFloat(replaced(a, find, replace), replaced(b, find, replace)),
        Instruction::ModSigned(a, b) => Instruction::ModSigned(replaced(a, find, replace), replaced(b, find, replace)),
        Instruction::ModUnsigned(a, b) => Instruction::ModUnsigned(replaced(a, find, replace), replaced(b, find, replace)),
        Instruction::ModFloat(a, b) => Instruction::ModFloat(replaced(a, find, replace), replaced(b, find, replace)),
        Instruction::LessSigned(a, b) => Instruction::LessSigned(replaced(a, find, replace), replaced(b, find, replace)),
        Instruction::LessUnsigned(a, b) => Instruction::LessUnsigned(replaced(a, find, replace), replaced(b, find, replace)),
        Instruction::LessFloat(a, b) => Instruction::LessFloat(replaced(a, find, replace), replaced(b, find, replace)),
        Instruction::EqInt(a, b) => Instruction::EqInt(replaced(a, find, replace), replaced(b, find, replace)),
        Instruction::EqFloat(a, b) => Instruction::EqFloat(replaced(a, find, replace), replaced(b, find, replace)),
        Instruction::BitwiseAnd(a, b) => Instruction::BitwiseAnd(replaced(a, find, replace), replaced(b, find, replace)),
        Instruction::BitwiseOr(a, b) => Instruction::BitwiseOr(replaced(a, find, replace), replaced(b, find, replace)),
        Instruction::BitwiseXor(a, b) => Instruction::BitwiseXor(replaced(a, find, replace), replaced(b, find, replace)),
        Instruction::StackAlloc(v) => Instruction::StackAlloc(replaced(v, find, replace)),
        Instruction::AllocShared(v) => Instruction::AllocShared(replaced(v, find, replace)),
        Instruction::Transmute(v) => Instruction::Transmute(replaced(v, find, replace)),
        Instruction::Id(v) => Instruction::Id(replaced(v, find, replace)),
        Instruction::BitwiseNot(v) => Instruction::BitwiseNot(replaced(v, find, replace)),
        Instruction::SignExtend(v) => Instruction::SignExtend(replaced(v, find, replace)),
        Instruction::ZeroExtend(v) => Instruction::ZeroExtend(replaced(v, find, replace)),
        Instruction::SignedToFloat(v) => Instruction::SignedToFloat(replaced(v, find, replace)),
        Instruction::UnsignedToFloat(v) => Instruction::UnsignedToFloat(replaced(v, find, replace)),
        Instruction::FloatToSigned(v) => Instruction::FloatToSigned(replaced(v, find, replace)),
        Instruction::FloatToUnsigned(v) => Instruction::FloatToUnsigned(replaced(v, find, replace)),
        Instruction::FloatPromote(v) => Instruction::FloatPromote(replaced(v, find, replace)),
        Instruction::FloatDemote(v) => Instruction::FloatDemote(replaced(v, find, replace)),
        Instruction::Truncate(v) => Instruction::Truncate(replaced(v, find, replace)),
        Instruction::Deref(v) => Instruction::Deref(replaced(v, find, replace)),
        Instruction::Capability => Instruction::Capability,
        Instruction::MakeBytes(bytes) => Instruction::MakeBytes(bytes),
        Instruction::StackAllocUninit(t) => Instruction::StackAllocUninit(t),
        Instruction::Instantiate(id, bindings) => Instruction::Instantiate(id, bindings),
        Instruction::Extern(name) => Instruction::Extern(name),
        Instruction::SizeOf(t) => Instruction::SizeOf(t),
        Instruction::ArrayLen(t) => Instruction::ArrayLen(t),
    };
    r
}

proof fn lemma_values_of_replaced(i: InstructionView, find: Value, replace: Value)
    ensures
        instruction_values(replace_in_instruction(i, find, replace)) == replace_values(
            instruction_values(i),
            find,
            replace,
        ),
{
    let lhs = instruction_values(replace_in_instruction(i, find, replace));
    let rhs = replace_values(instruction_values(i), find, replace);
    match i {
        InstructionView::Handle { body, cases } => {
            assert(lhs =~= rhs);
        },
        _ => {
            assert(lhs =~= rhs);
        },
    }
}

/// A jump target with its argument, if it has one, rewritten.
pub open spec fn replace_in_target(t: JmpTarget, find: Value, replace: Value) -> JmpTarget {
    (
        t.0,
        match t.1 {
            Some(v) => Some(replace_value(v, find, replace)),
            None => None,
        },
    )
}

pub open spec fn replace_in_switch_cases(cases: Seq<(u32, JmpTarget)>, find: Value, replace: Value) -> Seq<
    (u32, JmpTarget),
> {
    cases.map_values(|c: (u32, JmpTarget)| (c.0, replace_in_target(c.1, find, replace)))
}

/// `new` is the terminator `t` with every use of `find` replaced by `replace`; its jump targets
/// and merge blocks are those of `t`.
pub open spec fn terminator_replaced(t: TerminatorInstruction, new: TerminatorInstruction, find: Value, replace: Value) -> bool {
    match t {
        TerminatorInstruction::Jmp(target) => new == TerminatorInstruction::Jmp(replace_in_target(target, find, replace)),
        TerminatorInstruction::If { condition, then, else_, end } => new == (TerminatorInstruction::If {
            condition: replace_value(condition, find, replace),
            then: replace_in_target(then, find, replace),
            else_: replace_in_target(else_, find, replace),
            end,
        }),
        TerminatorInstruction::Switch { int_value, cases, else_, end } => {
            &&& new is Switch
            &&& new->Switch_int_value == replace_value(int_value, find, replace)
            &&& new->Switch_cases@ == replace_in_switch_cases(cases@, find, replace)
            &&& new->Switch_else_ == replace_in_target(else_, find, replace)
            &&& new->Switch_end == end
        },
        TerminatorInstruction::Unreachable => new == TerminatorInstruction::Unreachable,
        TerminatorInstruction::Return(v) => new == TerminatorInstruction::Return(replace_value(v, find, replace)),
        TerminatorInstruction::Result(v) => new == TerminatorInstruction::Result(replace_value(v, find, replace)),
    }
}

fn replaced_target(t: JmpTarget, find: Value, replace: Value) -> (r: JmpTarget)
    ensures
        r == replace_in_target(t, find, replace),
{
    match t.1 {
        Some(v) => (t.0, Some(replaced(v, find, replace))),
        None => (t.0, None),
    }
}

/// `terminator` with every use of `find` replaced by `replace`.
pub fn substitute_in_terminator(terminator: TerminatorInstruction, find: Value, replace: Value) -> (r: TerminatorInstruction)
    ensures
        terminator_replaced(terminator, r, find, replace),
{
    match terminator {
        TerminatorInstruction::Jmp(target) => TerminatorInstruction::Jmp(replaced_target(target, find, replace)),
        TerminatorInstruction::If { condition, then, else_, end } => TerminatorInstruction::If {
            condition: replaced(condition, find, replace),
            then: replaced_target(then, find, replace),
            else_: replaced_target(else_, find, replace),
            end,
        },
        TerminatorInstruction::Switch { int_value, cases, else_, end } => {
            let mut new_cases: Vec<(u32, JmpTarget)> = Vec::new();
            let mut i: usize = 0;
            while i < cases.len()
                invariant
                    0 <= i <= cases@.len(),
                    new_cases@ == replace_in_switch_cases(cases@.subrange(0, i as int), find, replace),
                decreases cases@.len() - i,
            {
                let (tag, target) = cases[i];
                new_cases.push((tag, replaced_target(target, find, replace)));
                i = i + 1;
                proof {
                    assert(new_cases@ =~= replace_in_switch_cases(cases@.subrange(0, i as int), find, replace));
                }
            }
            proof {
                assert(cases@.subrange(0, i as int) =~= cases@);
            }
            TerminatorInstruction::Switch {
                int_value: replaced(int_value, find, replace),
                cases: new_cases,
                else_: replaced_target(else_, find, replace),
                end,
            }
        },
        TerminatorInstruction::Unreachable => TerminatorInstruction::Unreachable,
        TerminatorInstruction::Return(v) => TerminatorInstruction::Return(replaced(v, find, replace)),
        TerminatorInstruction::Result(v) => TerminatorInstruction::Result(replaced(v, find, replace)),
    }
}

proof fn lemma_opt_replaced(v: Option<Value>, find: Value, replace: Value)
    ensures
        opt_value(replace_in_target((crate::mir::values::BlockId(0), v), find, replace).1) == replace_values(
            opt_value(v),
            find,
            replace,
        ),
{
    assert(opt_value(replace_in_target((crate::mir::values::BlockId(0), v), find, replace).1) =~= replace_values(
        opt_value(v),
        find,
        replace,
    ));
}

proof fn lemma_case_values_replaced(cases: Seq<(u32, JmpTarget)>, find: Value, replace: Value)
    ensures
        case_values(replace_in_switch_cases(cases, find, replace)) == replace_values(case_values(cases), find, replace),
    decreases cases.len(),
{
    if cases.len() > 0 {
        let rest = cases.drop_last();
        lemma_case_values_replaced(rest, find, replace);
        assert(replace_in_switch_cases(cases, find, replace).drop_last() =~= replace_in_switch_cases(rest, find, replace));
        lemma_opt_replaced(cases.last().1.1, find, replace);
        assert(replace_in_target(cases.last().1, find, replace).1 == replace_in_target(
            (crate::mir::values::BlockId(0), cases.last().1.1),
            find,
            replace,
        ).1);
        assert(case_values(replace_in_switch_cases(cases, find, replace)) =~= replace_values(
            case_values(cases),
            find,
            replace,
        ));
    } else {
        assert(case_values(replace_in_switch_cases(cases, find, replace)) =~= replace_values(
            case_values(cases),
            find,
            replace,
        ));
    }
}

proof fn lemma_terminator_values_replaced(t: TerminatorInstruction, new: TerminatorInstruction, find: Value, replace: Value)
    requires
        terminator_replaced(t, new, find, replace),
    ensures
        terminator_values(new) == replace_values(terminator_values(t), find, replace),
{
    match t {
        TerminatorInstruction::Jmp(target) => {
            lemma_opt_replaced(target.1, find, replace);
            assert(replace_in_target(target, find, replace).1 == replace_in_target((crate::mir::values::BlockId(0), target.1), find, replace).1);
        },
        TerminatorInstruction::If { condition, then, else_, end } => {
            lemma_opt_replaced(then.1, find, replace);
            lemma_opt_replaced(else_.1, find, replace);
            assert(replace_in_target(then, find, replace).1 == replace_in_target((crate::mir::values::BlockId(0), then.1), find, replace).1);
            assert(replace_in_target(else_, find, replace).1 == replace_in_target((crate::mir::values::BlockId(0), else_.1), find, replace).1);
            assert(terminator_values(new) =~= replace_values(terminator_values(t), find, replace));
        },
        TerminatorInstruction::Switch { int_value, cases, else_, end } => {
            lemma_case_values_replaced(cases@, find, replace);
            lemma_opt_replaced(else_.1, find, replace);
            assert(replace_in_target(else_, find, replace).1 == replace_in_target((crate::mir::values::BlockId(0), else_.1), find, replace).1);
            assert(terminator_values(new) =~= replace_values(terminator_values(t), find, replace));
        },
        _ => {
            assert(terminator_values(new) =~= replace_values(terminator_values(t), find, replace));
        },
    }
}

proof fn lemma_replaced_values_lack(s: Seq<Value>, find: Value, replace: Value)
    requires
        find != replace,
    ensures
        !replace_values(s, find, replace).contains(find),
{
    if replace_values(s, find, replace).contains(find) {
        let k = choose|k: int| 0 <= k < replace_values(s, find, replace).len() && replace_values(s, find, replace)[k] == find;
        assert(replace_values(s, find, replace)[k] == replace_value(s[k], find, replace));
    }
}

/// Replacing one value by another in an instruction keeps the number of values it uses.
pub proof fn lemma_replace_keeps_instruction_value_count(i: InstructionView, find: Value, replace: Value)
    ensures
        instruction_values(replace_in_instruction(i, find, replace)).len() == instruction_values(i).len(),
{
    lemma_values_of_replaced(i, find, replace);
}

/// Replacing one value by another in a terminator keeps the number of values it uses.
pub proof fn lemma_replace_keeps_terminator_value_count(t: TerminatorInstruction, new_t: TerminatorInstruction, find: Value, replace: Value)
    requires
        terminator_replaced(t, new_t, find, replace),
    ensures
        terminator_values(new_t).len() == terminator_values(t).len(),
{
    lemma_terminator_values_replaced(t, new_t, find, replace);
}

/// The block `new` is `old` with every use of `find` in its terminator replaced by `replace`.
pub open spec fn block_replaced(old: Block, new: Block, find: Value, replace: Value) -> bool {
    &&& new.parameter_types == old.parameter_types
    &&& new.instructions == old.instructions
    &&& match old.terminator {
        None => new.terminator is None,
        Some(t) => new.terminator matches Some(t2) && terminator_replaced(t, t2, find, replace),
    }
}

/// Replace every occurrence of `find` with `replace` across a Definition's instructions and
/// block terminators. This is a structural Value-level substitution; it does not modify
/// instruction result types or block parameter types.
pub fn substitute_value(definition: &mut Definition, find: Value, replace: Value)
    ensures
        final(definition).instructions@.len() == old(definition).instructions@.len(),
        forall|i: int|
            0 <= i < old(definition).instructions@.len() ==> #[trigger] final(definition).instructions@[i]@
                == replace_in_instruction(old(definition).instructions@[i]@, find, replace),
        final(definition).blocks@.len() == old(definition).blocks@.len(),
        forall|b: int|
            0 <= b < old(definition).blocks@.len() ==> block_replaced(
                old(definition).blocks@[b],
                #[trigger] final(definition).blocks@[b],
                find,
                replace,
            ),
        final(definition).instruction_result_types == old(definition).instruction_result_types,
        final(definition).name == old(definition).name,
        final(definition).id == old(definition).id,
        final(definition).generic_count == old(definition).generic_count,
        final(definition).typ == old(definition).typ,
        // Afterwards nothing uses `find` any more.
        find != replace ==> forall|i: int|
            0 <= i < final(definition).instructions@.len() ==> !instruction_values(
                #[trigger] final(definition).instructions@[i]@,
            ).contains(find),
        find != replace ==> forall|b: int|
            0 <= b < final(definition).blocks@.len() ==> ((#[trigger] final(definition).blocks@[b]).terminator matches Some(
                t,
            ) ==> !terminator_values(t).contains(find)),
        // Each instruction and terminator uses as many values as before.
        forall|i: int|
            0 <= i < old(definition).instructions@.len() ==> instruction_values(#[trigger] final(definition).instructions@[i]@).len()
                == instruction_values(old(definition).instructions@[i]@).len(),
        forall|b: int|
            0 <= b < old(definition).blocks@.len() ==> ((#[trigger] final(definition).blocks@[b]).terminator matches Some(t2)
                ==> terminator_values(t2).len() == terminator_values(old(definition).blocks@[b].terminator->0).len()),
{
    let mut i: usize = 0;
    while i < definition.instructions.len()
        invariant
            0 <= i <= definition.instructions@.len(),
            definition.instructions@.len() == old(definition).instructions@.len(),
            forall|k: int|
                0 <= k < i ==> #[trigger] definition.instructions@[k]@ == replace_in_instruction(
                    old(definition).instructions@[k]@,
                    find,
                    replace,
                ),
            forall|k: int| i <= k < definition.instructions@.len() ==> #[trigger] definition.instructions@[k] == old(definition).instructions@[k],
            definition.blocks == old(definition).blocks,
            definition.instruction_result_types == old(definition).instruction_result_types,
            definition.name == old(definition).name,
            definition.id == old(definition).id,
            definition.generic_count == old(definition).generic_count,
            definition.typ == old(definition).typ,
        decreases definition.instructions@.len() - i,
    {
        let mut taken = Instruction::Capability;
        std::mem::swap(&mut taken, &mut definition.instructions[i]);
        definition.instructions.set(i, substitute_in_instruction(taken, find, replace));
        i = i + 1;
    }
    let mut b: usize = 0;
    while b < definition.blocks.len()
        invariant
            0 <= b <= definition.blocks@.len(),
            definition.blocks@.len() == old(definition).blocks@.len(),
            forall|k: int| 0 <= k < b ==> block_replaced(old(definition).blocks@[k], #[trigger] definition.blocks@[k], find, replace),
            forall|k: int| b <= k < definition.blocks@.len() ==> #[trigger] definition.blocks@[k] == old(definition).blocks@[k],
            definition.instructions@.len() == old(definition).instructions@.len(),
            forall|k: int|
                0 <= k < definition.instructions@.len() ==> #[trigger] definition.instructions@[k]@ == replace_in_instruction(
                    old(definition).instructions@[k]@,
                    find,
                    replace,
                ),
            definition.instruction_result_types == old(definition).instruction_result_types,
            definition.name == old(definition).name,
            definition.id == old(definition).id,
            definition.generic_count == old(definition).generic_count,
            definition.typ == old(definition).typ,
        decreases definition.blocks@.len() - b,
    {
        let mut block = Block::new(Vec::new());
        std::mem::swap(&mut block, &mut definition.blocks[b]);
        let terminator = match block.terminator {
            Some(t) => Some(substitute_in_terminator(t, find, replace)),
            None => None,
        };
        let new_block = Block { parameter_types: block.parameter_types, instructions: block.instructions, terminator };
        definition.blocks.set(b, new_block);
        b = b + 1;
    }
    proof {
        assert forall|k: int| 0 <= k < old(definition).instructions@.len() implies instruction_values(#[trigger] definition.instructions@[k]@).len()
            == instruction_values(old(definition).instructions@[k]@).len() by {
            lemma_values_of_replaced(old(definition).instructions@[k]@, find, replace);
        }
        assert forall|k: int| 0 <= k < old(definition).blocks@.len() implies ((#[trigger] definition.blocks@[k]).terminator matches Some(t2)
            ==> terminator_values(t2).len() == terminator_values(old(definition).blocks@[k].terminator->0).len()) by {
            if let Some(t2) = definition.blocks@[k].terminator {
                lemma_terminator_values_replaced(old(definition).blocks@[k].terminator->0, t2, find, replace);
            }
        }
        if find != replace {
            assert forall|k: int| 0 <= k < definition.instructions@.len() implies !instruction_values(
                #[trigger] definition.instructions@[k]@,
            ).contains(find) by {
                lemma_values_of_replaced(old(definition).instructions@[k]@, find, replace);
                lemma_replaced_values_lack(instruction_values(old(definition).instructions@[k]@), find, replace);
            }
            assert forall|k: int| 0 <= k < definition.blocks@.len() implies ((#[trigger] definition.blocks@[k]).terminator matches Some(
                t,
            ) ==> !terminator_values(t).contains(find)) by {
                if let Some(t) = definition.blocks@[k].terminator {
                    let t0 = old(definition).blocks@[k].terminator->0;
                    lemma_terminator_values_replaced(t0, t, find, replace);
                    lemma_replaced_values_lack(terminator_values(t0), find, replace);
                }
            }
        }
    }
}

/// Resolve the handler value to its underlying [DefinitionId], optional closure env,
/// and optional generic bindings recovered from any `Instantiate` along the chain: the same as
/// [crate::mir::effects::lowering::resolve_body_function], but `None` where the handler leads
/// to anything but a definition.
pub fn resolve_handler(handler: Value, definition: &Definition) -> (r: Option<(DefinitionId, Option<Value>, Option<Arc<GenericBindings>>)>)
    requires
        unpack_in_bounds(handler, definition.instructions@),
        ids_resolve(spec_unpack(handler, definition.instructions@).0, definition.instructions@),
    ensures
        ({
            let (function, env) = spec_unpack(handler, definition.instructions@);
            match spec_resolve_id(function, definition.instructions@) {
                Some((id, bindings)) => r == Some((id, env, bindings)),
                None => r is None,
            }
        }),
{
    let mut function = handler;
    let mut env: Option<Value> = None;
    if let Value::InstructionResult(instruction) = handler {
        if let Instruction::PackClosure { function: f, environment } = &definition.instructions[instruction.0 as usize] {
            function = *f;
            env = Some(*environment);
        }
    }
    match resolve_id(function, definition) {
        Some((id, bindings)) => Some((id, env, bindings)),
        None => None,
    }
}

/// Every instruction id that a block lists names an instruction of the definition.
pub open spec fn block_instructions_in_bounds(d: Definition) -> bool {
    forall|b: int, k: int|
        0 <= b < d.blocks@.len() && 0 <= k < d.blocks@[b].instructions@.len() ==> (#[trigger] d.blocks@[b].instructions@[k]).0
            < d.instructions@.len()
}

/// Block `b` ends by returning the result of its last instruction, a call of `resume` with one
/// argument.
pub open spec fn is_tail_resume_block(d: Definition, b: int, resume: Value) -> bool {
    let block = d.blocks@[b];
    &&& block.terminator matches Some(TerminatorInstruction::Return(Value::InstructionResult(call)))
    &&& block.instructions@.len() > 0
    &&& block.instructions@.last() == call
    &&& d.instructions@[call.0 as int] matches Instruction::CallClosure { closure, arguments }
    &&& closure == resume
    &&& arguments@.len() == 1
}

/// The call that a tail-resume block returns.
pub open spec fn tail_call(d: Definition, b: int) -> InstructionId {
    d.blocks@[b].terminator->0->Return_0->InstructionResult_0
}

/// Instruction `id` is the call of a tail-resume block.
pub open spec fn is_tail_call(d: Definition, id: u32, resume: Value) -> bool {
    exists|b: int| 0 <= b < d.blocks@.len() && #[trigger] is_tail_resume_block(d, b, resume) && tail_call(d, b).0 == id
}

/// The resume parameter of a handler whose operation takes `arity` arguments: the entry block's
/// parameter after them.
pub open spec fn resume_parameter(arity: nat) -> Value {
    Value::Parameter(BlockId(0), arity as u32)
}

/// Every `return` of the handler returns a tail call of `resume`, there is at least one, and
/// `resume` is used nowhere else: not as an argument of those calls, not by any other
/// instruction, and not by the terminator of any other block.
pub open spec fn spec_case_is_tail_resumptive(d: Definition, resume: Value) -> bool {
    &&& exists|b: int| 0 <= b < d.blocks@.len() && #[trigger] is_tail_resume_block(d, b, resume)
    &&& forall|b: int|
        0 <= b < d.blocks@.len() && ((#[trigger] d.blocks@[b]).terminator matches Some(TerminatorInstruction::Return(_)))
            ==> is_tail_resume_block(d, b, resume)
    &&& forall|i: int|
        0 <= i < d.instructions@.len() ==> if is_tail_call(d, i as u32, resume) {
            !((#[trigger] d.instructions@[i]) matches Instruction::CallClosure { arguments, .. } && arguments@.contains(resume))
        } else {
            !instruction_values(d.instructions@[i]@).contains(resume)
        }
    &&& forall|b: int|
        0 <= b < d.blocks@.len() && !is_tail_resume_block(d, b, resume) ==> ((#[trigger] d.blocks@[b]).terminator matches Some(t)
            ==> !terminator_values(t).contains(resume))
}

/// A tail-resumptive handler case resumes on every return: each block that ends in `return v`
/// returns the result of its own last instruction, and that instruction calls the resume
/// parameter with one argument.
pub proof fn lemma_tail_resumptive_case_resumes_on_every_return(d: Definition, resume: Value, b: int)
    requires
        spec_case_is_tail_resumptive(d, resume),
        0 <= b < d.blocks@.len(),
        d.blocks@[b].terminator matches Some(TerminatorInstruction::Return(_)),
    ensures
        d.blocks@[b].terminator matches Some(TerminatorInstruction::Return(Value::InstructionResult(call))) && d.blocks@[b].instructions@.len()
            > 0 && d.blocks@[b].instructions@.last() == call && (d.instructions@[call.0 as int] matches Instruction::CallClosure {
            closure,
            arguments,
        } && closure == resume && arguments@.len() == 1),
{
    assert(is_tail_resume_block(d, b, resume));
}

/// A tail-resumptive handler case uses its resume parameter only as the callee of those tail
/// calls: an instruction that uses it calls it, not with it as an argument, and is returned as
/// the last instruction of some block.
pub proof fn lemma_tail_resumptive_case_uses_resume_only_in_tail_calls(d: Definition, resume: Value, i: int)
    requires
        spec_case_is_tail_resumptive(d, resume),
        d.instructions@.len() <= u32::MAX,
        0 <= i < d.instructions@.len(),
        instruction_values(d.instructions@[i]@).contains(resume),
    ensures
        d.instructions@[i] matches Instruction::CallClosure { closure, arguments } && closure == resume && !arguments@.contains(
            resume,
        ),
        exists|b: int|
            0 <= b < d.blocks@.len() && (#[trigger] d.blocks@[b]).terminator == Some(
                TerminatorInstruction::Return(Value::InstructionResult(InstructionId(i as u32))),
            ) && d.blocks@[b].instructions@.last() == InstructionId(i as u32),
{
    assert(is_tail_call(d, i as u32, resume));
    let b = choose|b: int| 0 <= b < d.blocks@.len() && #[trigger] is_tail_resume_block(d, b, resume) && tail_call(d, b).0 == i as u32;
    assert(tail_call(d, b) == InstructionId(i as u32));
}

/// A tail-resumptive handler case has a block that returns a call of the resume parameter, and
/// no terminator of it uses the resume parameter (a parameter of the entry block).
pub proof fn lemma_tail_resumptive_case_returns_a_resume(d: Definition, arity: nat)
    requires
        spec_case_is_tail_resumptive(d, resume_parameter(arity)),
    ensures
        exists|b: int|
            0 <= b < d.blocks@.len() && ((#[trigger] d.blocks@[b]).terminator matches Some(
                TerminatorInstruction::Return(Value::InstructionResult(_)),
            )) && (d.instructions@[d.blocks@[b].terminator->0->Return_0->InstructionResult_0.0 as int] matches Instruction::CallClosure {
                closure,
                ..
            } && closure == resume_parameter(arity)),
        forall|b: int|
            0 <= b < d.blocks@.len() ==> ((#[trigger] d.blocks@[b]).terminator matches Some(t) ==> !terminator_values(t).contains(
                resume_parameter(arity),
            )),
{
    let resume = resume_parameter(arity);
    let b0 = choose|b: int| 0 <= b < d.blocks@.len() && #[trigger] is_tail_resume_block(d, b, resume);
    assert(d.blocks@[b0].terminator matches Some(TerminatorInstruction::Return(Value::InstructionResult(_))));
    assert forall|b: int| 0 <= b < d.blocks@.len() implies ((#[trigger] d.blocks@[b]).terminator matches Some(t)
        ==> !terminator_values(t).contains(resume)) by {
        if is_tail_resume_block(d, b, resume) {
            let t = d.blocks@[b].terminator->0;
            assert(terminator_values(t) =~= seq![t->Return_0]);
        }
    }
}

fn contains_value(values: &Vec<Value>, v: Value) -> (r: bool)
    ensures
        r == values@.contains(v),
{
    let mut i: usize = 0;
    while i < values.len()
        invariant
            0 <= i <= values@.len(),
            forall|k: int| 0 <= k < i ==> values@[k] != v,
        decreases values@.len() - i,
    {
        if values[i] == v {
            return true;
        }
        i = i + 1;
    }
    false
}

/// The call that block `b` returns, where `b` is a tail-resume block.
pub fn tail_resume_call(handler_def: &Definition, b: usize, resume: Value) -> (r: Option<InstructionId>)
    requires
        b < handler_def.blocks@.len(),
        block_instructions_in_bounds(*handler_def),
    ensures
        is_tail_resume_block(*handler_def, b as int, resume) ==> r == Some(tail_call(*handler_def, b as int)),
        !is_tail_resume_block(*handler_def, b as int, resume) ==> r is None,
{
    let block = &handler_def.blocks[b];
    let call_id = match &block.terminator {
        Some(TerminatorInstruction::Return(Value::InstructionResult(call_id))) => *call_id,
        _ => return None,
    };
    let n = block.instructions.len();
    if n == 0 || block.instructions[n - 1] != call_id {
        return None;
    }
    match &handler_def.instructions[call_id.0 as usize] {
        Instruction::CallClosure { closure, arguments } => {
            if *closure == resume && arguments.len() == 1 {
                Some(call_id)
            } else {
                None
            }
        },
        _ => None,
    }
}

/// True if every Return in `handler_def` is a tail-call to the resume parameter, the resume
/// parameter is used nowhere else, and at least one tail-resume call exists.
pub fn case_is_tail_resumptive(handler_def: &Definition, shape: &CaseShape) -> (r: bool)
    requires
        block_instructions_in_bounds(*handler_def),
        handler_def.blocks@.len() <= u32::MAX,
        handler_def.instructions@.len() <= u32::MAX,
        shape.op_arg_types@.len() <= u32::MAX,
    ensures
        r == spec_case_is_tail_resumptive(*handler_def, resume_parameter(shape.op_arg_types@.len())),
{
    let resume_param = Value::Parameter(BlockId::entry_block(), shape.op_arg_types.len() as u32);
    let ghost resume = resume_parameter(shape.op_arg_types@.len());
    let ghost d = *handler_def;
    assert(resume_param == resume);

    // 1. The tail calls of resume, and the blocks that return them.
    let mut tail_call_ids = fx_set_new();
    let mut tail_call_blocks = fx_set_new();
    let mut found_any = false;
    let nb = handler_def.blocks.len();
    let mut b: usize = 0;
    while b < nb
        invariant
            0 <= b <= nb,
            nb == d.blocks@.len(),
            *handler_def == d,
            block_instructions_in_bounds(d),
            resume_param == resume,
            nb <= u32::MAX,
            forall|x: u32| #[trigger] tail_call_blocks@.contains(x) <==> (x < b && is_tail_resume_block(d, x as int, resume)),
            forall|x: u32|
                #[trigger] tail_call_ids@.contains(x) <==> exists|k: int|
                    0 <= k < b && #[trigger] is_tail_resume_block(d, k, resume) && tail_call(d, k).0 == x,
            found_any <==> exists|k: int| 0 <= k < b && #[trigger] is_tail_resume_block(d, k, resume),
        decreases nb - b,
    {
        match tail_resume_call(handler_def, b, resume_param) {
            Some(call_id) => {
                fx_set_insert(&mut tail_call_ids, call_id.0);
                fx_set_insert(&mut tail_call_blocks, b as u32);
                found_any = true;
            },
            None => {},
        }
        b = b + 1;
    }
    if !found_any {
        return false;
    }

    // 2. Every Return must be one of the recognized tail-resume returns.
    let mut b: usize = 0;
    while b < nb
        invariant
            0 <= b <= nb,
            nb == d.blocks@.len(),
            nb <= u32::MAX,
            *handler_def == d,
            resume == resume_parameter(shape.op_arg_types@.len()),
            forall|x: u32| #[trigger] tail_call_blocks@.contains(x) <==> (x < nb && is_tail_resume_block(d, x as int, resume)),
            forall|k: int|
                0 <= k < b && ((#[trigger] d.blocks@[k]).terminator matches Some(TerminatorInstruction::Return(_)))
                    ==> is_tail_resume_block(d, k, resume),
        decreases nb - b,
    {
        if let Some(TerminatorInstruction::Return(_)) = &handler_def.blocks[b].terminator {
            if !fx_set_contains(&tail_call_blocks, b as u32) {
                proof {
                    assert(!tail_call_blocks@.contains(b as u32));
                    assert(!is_tail_resume_block(d, b as int, resume));
                    assert(d.blocks@[b as int].terminator matches Some(TerminatorInstruction::Return(_)));
                }
                return false;
            }
        }
        b = b + 1;
    }

    // 3. The resume parameter appears nowhere outside a tail call's `closure` slot.
    let ni = handler_def.instructions.len();
    let mut i: usize = 0;
    while i < ni
        invariant
            0 <= i <= ni,
            ni == d.instructions@.len(),
            ni <= u32::MAX,
            *handler_def == d,
            resume_param == resume,
            resume == resume_parameter(shape.op_arg_types@.len()),
            forall|x: u32| #[trigger] tail_call_ids@.contains(x) <==> is_tail_call(d, x, resume),
            forall|k: int|
                0 <= k < i ==> if is_tail_call(d, k as u32, resume) {
                    !((#[trigger] d.instructions@[k]) matches Instruction::CallClosure { arguments, .. } && arguments@.contains(
                        resume,
                    ))
                } else {
                    !instruction_values(d.instructions@[k]@).contains(resume)
                },
        decreases ni - i,
    {
        let instruction = &handler_def.instructions[i];
        if fx_set_contains(&tail_call_ids, i as u32) {
            if let Instruction::CallClosure { closure: _, arguments } = instruction {
                if contains_value(arguments, resume_param) {
                    return false;
                }
            }
        } else {
            let values = instruction.for_each_value();
            if contains_value(&values, resume_param) {
                proof {
                    assert(!tail_call_ids@.contains(i as u32));
                    assert(!is_tail_call(d, i as u32, resume));
                    assert(instruction_values(d.instructions@[i as int]@).contains(resume));
                }
                return false;
            }
        }
        i = i + 1;
    }

    // 4. The resume parameter appears in no other terminator.
    let mut b: usize = 0;
    while b < nb
        invariant
            0 <= b <= nb,
            nb == d.blocks@.len(),
            nb <= u32::MAX,
            *handler_def == d,
            resume_param == resume,
            resume == resume_parameter(shape.op_arg_types@.len()),
            forall|x: u32| #[trigger] tail_call_blocks@.contains(x) <==> (x < nb && is_tail_resume_block(d, x as int, resume)),
            forall|k: int|
                0 <= k < b && !is_tail_resume_block(d, k, resume) ==> ((#[trigger] d.blocks@[k]).terminator matches Some(t)
                    ==> !terminator_values(t).contains(resume)),
        decreases nb - b,
    {
        if !fx_set_contains(&tail_call_blocks, b as u32) {
            if let Some(t) = &handler_def.blocks[b].terminator {
                let values = t.for_each_value();
                if contains_value(&values, resume_param) {
                    proof {
                        assert(!tail_call_blocks@.contains(b as u32));
                        assert(!is_tail_resume_block(d, b as int, resume));
                        assert(d.blocks@[b as int].terminator == Some(*t));
                    }
                    return false;
                }
            }
        }
        b = b + 1;
    }
    true
}

} // verus!
