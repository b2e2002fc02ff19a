//! The functions that run a lowered `handle`: the drive loop that resumes the body's
//! coroutine and dispatches each operation it performs, and the resume closures it hands the
//! handlers.
use crate::mir::definition::{Block, Definition};
use crate::mir::effects::abort::set_terminator;
use crate::mir::effects::channel::{pop_code, pop_fields_code, push_code, result};
use crate::mir::effects::lowering::{
    AminicoroFns, CaseShape, Emitter, code_added, definition_value_code, emitted, extern_call_code, id_range,
    int_view, lemma_emitted_nothing, lemma_emitted_then, pointer_view, ptr_fn, room_for, spec_ptr_fn, usz_view,
};
use crate::mir::instruction::{Instruction, InstructionView, TerminatorInstruction, identity_bindings};
use crate::mir::types::{
    FunctionType, FunctionTypeView, IntegerKind, PrimitiveType, Type, TypeView, lemma_types_view, types_view,
};
use crate::mir::values::{BlockId, DefinitionId, InstructionId, Value};
use std::sync::Arc;
use vstd::prelude::*;

verus! {

broadcast use lemma_types_view;

/// Every coroutine primitive has a function type.
pub open spec fn coro_fns_typed(mco: AminicoroFns) -> bool {
    &&& mco.init.typ is Function
    &&& mco.free.typ is Function
    &&& mco.is_suspended.typ is Function
    &&& mco.push.typ is Function
    &&& mco.pop.typ is Function
    &&& mco.suspend.typ is Function
    &&& mco.resume.typ is Function
    &&& mco.get_user_data.typ is Function
    &&& mco.running.typ is Function
    &&& mco.bytes_stored.typ is Function
    &&& mco.transfer.typ is Function
}

/// The generics `Generic(0), .., Generic(count - 1)` of a definition with `count` generics.
pub open spec fn identity_views(count: u32) -> Seq<TypeView> {
    Seq::new(count as nat, |i: int| TypeView::Generic(i as u32))
}

/// What referring to definition `id`, of type `typ`, from a definition with `generic_count`
/// generics emits when that definition has `n` instructions, and the value it gives: the
/// definition itself without generics, else an `Instantiate` at the caller's own generics.
pub open spec fn forward_value_code(id: DefinitionId, typ: TypeView, generic_count: u32, n: nat) -> (Seq<
    (InstructionView, TypeView),
>, Value) {
    if generic_count == 0 {
        (seq![], Value::Definition(id))
    } else {
        (seq![(InstructionView::Instantiate(id, identity_views(generic_count)), typ)], result(n))
    }
}

/// `new_d` is `d` with the instructions of `code` added after its own and appended to block
/// `b`, whose terminator becomes `term`; its parameters and the other blocks are unchanged.
pub open spec fn block_filled(
    d: Definition,
    new_d: Definition,
    b: int,
    code: Seq<(InstructionView, TypeView)>,
    term: Option<TerminatorInstruction>,
) -> bool {
    &&& code_added(d, new_d, code)
    &&& new_d.blocks@.len() == d.blocks@.len()
    &&& new_d.blocks@[b].instructions@ == d.blocks@[b].instructions@ + id_range(d.instructions@.len(), code.len())
    &&& new_d.blocks@[b].parameter_types == d.blocks@[b].parameter_types
    &&& new_d.blocks@[b].terminator == term
    &&& forall|x: int| 0 <= x < d.blocks@.len() && x != b ==> #[trigger] new_d.blocks@[x] == d.blocks@[x]
}

/// Emitting into block `b` and then setting its terminator fills the block.
proof fn lemma_block_filled(
    e: Emitter,
    d0: Definition,
    e1: Emitter,
    d1: Definition,
    d2: Definition,
    b: int,
    code: Seq<(InstructionView, TypeView)>,
    term: Option<TerminatorInstruction>,
)
    requires
        e.target == crate::mir::effects::lowering::EmitTarget::Block(BlockId(b as u32)),
        0 <= b < d0.blocks@.len(),
        b <= u32::MAX,
        emitted(e, d0, e1, d1, code),
        d2.blocks@.len() == d1.blocks@.len(),
        d2.blocks@[b].terminator == term,
        d2.blocks@[b].instructions == d1.blocks@[b].instructions,
        d2.blocks@[b].parameter_types == d1.blocks@[b].parameter_types,
        forall|x: int| 0 <= x < d1.blocks@.len() && x != b ==> #[trigger] d2.blocks@[x] == d1.blocks@[x],
        d2.instructions == d1.instructions,
        d2.instruction_result_types == d1.instruction_result_types,
        d2.name == d1.name,
        d2.id == d1.id,
        d2.typ == d1.typ,
        d2.generic_count == d1.generic_count,
    ensures
        block_filled(d0, d2, b, code, term),
{
    assert forall|x: int| 0 <= x < d0.blocks@.len() && x != b implies #[trigger] d2.blocks@[x] == d0.blocks@[x] by {
        assert(d2.blocks@[x] == d1.blocks@[x]);
    }
}

/// Block `b` exists and the definition can take `len` more instructions.
pub open spec fn block_room(d: Definition, b: BlockId, len: nat) -> bool {
    &&& d.instructions@.len() == d.instruction_result_types@.len()
    &&& d.instructions@.len() + len < u32::MAX
    &&& b.0 < d.blocks@.len()
}

/// Refers to definition `id` from a definition with `generic_count` generics, at its own
/// generics (see [forward_value_code]).
pub fn emit_forward_value(
    e: &mut Emitter,
    definition: &mut Definition,
    id: DefinitionId,
    typ: Type,
    generic_count: u32,
) -> (r: Value)
    requires
        room_for(*old(e), *old(definition), forward_value_code(id, typ@, generic_count, old(definition).instructions@.len()).0.len()),
    ensures
        r == forward_value_code(id, typ@, generic_count, old(definition).instructions@.len()).1,
        emitted(
            *old(e),
            *old(definition),
            *final(e),
            *final(definition),
            forward_value_code(id, typ@, generic_count, old(definition).instructions@.len()).0,
        ),
{
    let bindings = identity_bindings(generic_count);
    proof {
        if generic_count > 0 {
            let b = bindings->0;
            assert(types_view(b@) =~= identity_views(generic_count));
        }
    }
    e.emit_definition_value(definition, id, typ, bindings)
}

/// The drive's handler parameters: parameters `1..=count` of its entry block.
pub open spec fn handler_params(count: nat) -> Seq<Value> {
    Seq::new(count, |i: int| Value::Parameter(BlockId(0), (i + 1) as u32))
}

/// The state a resume closure carries: the coroutine, then each handler.
pub open spec fn state_type(handler_types: Seq<TypeView>) -> TypeView {
    TypeView::Tuple(seq![pointer_view()] + handler_types)
}

/// The type of a resume closure: it takes what the operation returns and gives what the
/// `handle` gives, with a pointer environment.
pub open spec fn resume_type(op_return: TypeView, result_type: TypeView) -> TypeView {
    TypeView::Function(
        Box::new(FunctionTypeView { parameters: seq![op_return], environment: pointer_view(), return_type: result_type }),
    )
}

/// What a handler case of the drive emits when the drive has `n` instructions, and the
/// handler's result: the operation's arguments popped off `coro`, the resume closure's state
/// (the coroutine and every handler) in a stack slot, the resume closure over it, and the call
/// of the case's handler with the arguments and the resume closure.
pub open spec fn handler_case_code(
    mco: AminicoroFns,
    coro: Value,
    resume_id: DefinitionId,
    resume_typ: TypeView,
    handler: Value,
    handlers: Seq<Value>,
    handler_types: Seq<TypeView>,
    op_arg_types: Seq<TypeView>,
    handler_is_closure: bool,
    result_type: TypeView,
    generic_count: u32,
    n: nat,
) -> (Seq<(InstructionView, TypeView)>, Value) {
    let (popped, arguments) = pop_fields_code(mco.pop.name@, mco.pop.typ@, coro, op_arg_types, op_arg_types.len() as int, n);
    let n1 = n + popped.len();
    let (resume_code, resume_value) = forward_value_code(resume_id, resume_typ, generic_count, n1 + 2);
    let n2 = n1 + 2 + resume_code.len();
    let call = if handler_is_closure {
        InstructionView::CallClosure { closure: handler, arguments: arguments.push(result(n2)) }
    } else {
        InstructionView::Call { function: handler, arguments: arguments.push(result(n2)) }
    };
    (
        popped + seq![
            (InstructionView::MakeTuple(seq![coro] + handlers), state_type(handler_types)),
            (InstructionView::StackAlloc(result(n1)), pointer_view()),
        ] + resume_code + seq![
            (InstructionView::PackClosure { function: resume_value, environment: result(n1 + 1) }, resume_typ),
            (call, result_type),
        ],
        result(n2 + 1),
    )
}

/// Builds the state type of a resume closure: a pointer, then each handler type.
fn make_state_type(handler_types: &Vec<Type>) -> (r: Type)
    ensures
        r@ == state_type(types_view(handler_types@)),
{
    let mut fields: Vec<Type> = Vec::new();
    fields.push(Type::pointer());
    let mut i: usize = 0;
    while i < handler_types.len()
        invariant
            0 <= i <= handler_types@.len(),
            fields@ == seq![Type::Primitive(crate::mir::types::PrimitiveType::Pointer)] + handler_types@.subrange(0, i as int),
        decreases handler_types@.len() - i,
    {
        fields.push(handler_types[i].clone());
        i = i + 1;
        proof {
            assert(fields@ =~= seq![Type::Primitive(crate::mir::types::PrimitiveType::Pointer)] + handler_types@.subrange(0, i as int));
        }
    }
    proof {
        assert(fields@ =~= seq![Type::Primitive(crate::mir::types::PrimitiveType::Pointer)] + handler_types@);
        assert(types_view(fields@) =~= seq![pointer_view()] + types_view(handler_types@));
    }
    Type::tuple(fields)
}

/// The values `first`, then each of `rest`.
pub fn cons_values(first: Value, rest: &Vec<Value>) -> (r: Vec<Value>)
    ensures
        r@ == seq![first] + rest@,
{
    let mut r: Vec<Value> = Vec::new();
    r.push(first);
    let mut i: usize = 0;
    while i < rest.len()
        invariant
            0 <= i <= rest@.len(),
            r@ == seq![first] + rest@.subrange(0, i as int),
        decreases rest@.len() - i,
    {
        r.push(rest[i]);
        i = i + 1;
        proof {
            assert(r@ =~= seq![first] + rest@.subrange(0, i as int));
        }
    }
    assert(r@ =~= seq![first] + rest@);
    r
}

/// Fills block `case_block` of a drive with one handler case (see [handler_case_code]) and
/// jumps to `final_block` with the handler's result. `handler_types` are the types of
/// `all_handlers`, the drive's handler parameters.
pub fn emit_handler_case(
    definition: &mut Definition,
    case_block: BlockId,
    coro: Value,
    resume_function_id: DefinitionId,
    resume_function_type: &Type,
    handler: Value,
    all_handlers: &Vec<Value>,
    handler_types: &Vec<Type>,
    shape: &CaseShape,
    result_type: &Type,
    final_block: BlockId,
    mco: &AminicoroFns,
    generic_count: u32,
)
    requires
        coro_fns_typed(*mco),
        case_block.0 < old(definition).blocks@.len(),
        block_room(
            *old(definition),
            case_block,
            handler_case_code(
                *mco,
                coro,
                resume_function_id,
                resume_function_type@,
                handler,
                all_handlers@,
                types_view(handler_types@),
                types_view(shape.op_arg_types@),
                shape.handler_is_closure,
                result_type@,
                generic_count,
                old(definition).instructions@.len(),
            ).0.len(),
        ),
    ensures
        ({
            let (code, value) = handler_case_code(
                *mco,
                coro,
                resume_function_id,
                resume_function_type@,
                handler,
                all_handlers@,
                types_view(handler_types@),
                types_view(shape.op_arg_types@),
                shape.handler_is_closure,
                result_type@,
                generic_count,
                old(definition).instructions@.len(),
            );
            block_filled(
                *old(definition),
                *final(definition),
                case_block.0 as int,
                code,
                Some(TerminatorInstruction::Jmp((final_block, Some(value)))),
            )
        }),
{
    let ghost d0 = *definition;
    let ghost n = d0.instructions@.len();
    let ghost code_all = handler_case_code(
        *mco,
        coro,
        resume_function_id,
        resume_function_type@,
        handler,
        all_handlers@,
        types_view(handler_types@),
        types_view(shape.op_arg_types@),
        shape.handler_is_closure,
        result_type@,
        generic_count,
        n,
    );
    let mut emitter = Emitter::in_block(case_block);
    let ghost e0 = emitter;
    let ghost popped_code = pop_fields_code(
        mco.pop.name@,
        mco.pop.typ@,
        coro,
        types_view(shape.op_arg_types@),
        shape.op_arg_types@.len() as int,
        n,
    ).0;
    let popped_arguments = emitter.pop_operation_arguments(definition, mco, coro, &shape.op_arg_types);
    let ghost e1 = emitter;
    let ghost d1 = *definition;
    let ghost n1 = n + popped_code.len();
    let state_elements = cons_values(coro, all_handlers);
    let state_typ = make_state_type(handler_types);
    let ghost c2 = seq![(InstructionView::MakeTuple(state_elements@), state_typ@)];
    let state = emitter.push_instruction(definition, Instruction::MakeTuple(state_elements), state_typ);
    let ghost e2 = emitter;
    let ghost d2 = *definition;
    let environment = emitter.push_instruction(definition, Instruction::StackAlloc(state), Type::pointer());
    let ghost e3 = emitter;
    let ghost d3 = *definition;
    let ghost c3 = seq![(InstructionView::StackAlloc(result(n1)), pointer_view())];
    let resume_value = emit_forward_value(
        &mut emitter,
        definition,
        resume_function_id,
        resume_function_type.clone(),
        generic_count,
    );
    let ghost e4 = emitter;
    let ghost d4 = *definition;
    let ghost c4 = forward_value_code(resume_function_id, resume_function_type@, generic_count, n1 + 2).0;
    let resume_closure = emitter.push_instruction(
        definition,
        Instruction::PackClosure { function: resume_value, environment },
        resume_function_type.clone(),
    );
    let ghost e5 = emitter;
    let ghost d5 = *definition;
    let ghost c5 = seq![
        (InstructionView::PackClosure { function: resume_value, environment: result(n1 + 1) }, resume_function_type@),
    ];
    let mut handler_arguments = popped_arguments;
    handler_arguments.push(resume_closure);
    let call_instruction = if shape.handler_is_closure {
        Instruction::CallClosure { closure: handler, arguments: handler_arguments }
    } else {
        Instruction::Call { function: handler, arguments: handler_arguments }
    };
    let ghost c6 = seq![(call_instruction@, result_type@)];
    let handler_result = emitter.push_instruction(definition, call_instruction, result_type.clone());
    let ghost d6 = *definition;
    proof {
        lemma_emitted_then(e0, d0, e1, d1, e2, d2, popped_code, c2);
        lemma_emitted_then(e0, d0, e2, d2, e3, d3, popped_code + c2, c3);
        lemma_emitted_then(e0, d0, e3, d3, e4, d4, popped_code + c2 + c3, c4);
        lemma_emitted_then(e0, d0, e4, d4, e5, d5, popped_code + c2 + c3 + c4, c5);
        lemma_emitted_then(e0, d0, e5, d5, emitter, d6, popped_code + c2 + c3 + c4 + c5, c6);
        assert(popped_code + c2 + c3 + c4 + c5 + c6 =~= code_all.0);
    }
    set_terminator(definition, case_block, Some(TerminatorInstruction::Jmp((final_block, Some(handler_result)))));
    proof {
        lemma_block_filled(
            e0,
            d0,
            emitter,
            d6,
            *definition,
            case_block.0 as int,
            code_all.0,
            Some(TerminatorInstruction::Jmp((final_block, Some(handler_result)))),
        );
    }
}

/// The definition holds exactly the instructions of `code`, with their result types, in order.
pub open spec fn holds_code(d: Definition, code: Seq<(InstructionView, TypeView)>) -> bool {
    &&& d.instructions@.len() == code.len()
    &&& d.instruction_result_types@.len() == code.len()
    &&& forall|k: int| 0 <= k < code.len() ==> (#[trigger] d.instructions@[k])@ == code[k].0
    &&& forall|k: int| 0 <= k < code.len() ==> (#[trigger] d.instruction_result_types@[k])@ == code[k].1
}

/// A fresh definition with the given header and the single entry block `entry`, that holds
/// `code`.
proof fn lemma_holds_code(d0: Definition, d: Definition, code: Seq<(InstructionView, TypeView)>)
    requires
        d0.instructions@.len() == 0,
        d0.instruction_result_types@.len() == 0,
        code_added(d0, d, code),
    ensures
        holds_code(d, code),
{
    assert forall|k: int| 0 <= k < code.len() implies (#[trigger] d.instructions@[k])@ == code[k].0 by {
        assert(d.instructions@[0 + k]@ == code[k].0);
    }
    assert forall|k: int| 0 <= k < code.len() implies (#[trigger] d.instruction_result_types@[k])@ == code[k].1 by {
        assert(d.instruction_result_types@[0 + k]@ == code[k].1);
    }
}

/// `IndexTuple` of fields `offset, offset + 1, ..` of `tuple`, of the given types.
pub open spec fn index_fields_code(tuple: Value, types: Seq<TypeView>, offset: nat) -> Seq<(InstructionView, TypeView)> {
    Seq::new(types.len(), |i: int| (InstructionView::IndexTuple { tuple, index: (i + offset) as u32 }, types[i]))
}

/// The results of the `count` instructions from `n` on.
pub open spec fn results_from(n: nat, count: nat) -> Seq<Value> {
    Seq::new(count, |i: int| result((n + i) as nat))
}

/// Emits an `IndexTuple` of each field of `tuple` from `offset` on, one per type of `types`,
/// and returns their results.
fn emit_index_fields(e: &mut Emitter, definition: &mut Definition, tuple: Value, types: &Vec<Type>, offset: u32) -> (r: Vec<Value>)
    requires
        room_for(*old(e), *old(definition), types@.len()),
        offset + types@.len() <= u32::MAX,
    ensures
        r@ == results_from(old(definition).instructions@.len(), types@.len()),
        emitted(*old(e), *old(definition), *final(e), *final(definition), index_fields_code(tuple, types_view(types@), offset as nat)),
{
    let ghost e0 = *e;
    let ghost d0 = *definition;
    let ghost n = d0.instructions@.len();
    let mut values: Vec<Value> = Vec::new();
    proof {
        lemma_emitted_nothing(e0, d0);
        assert(index_fields_code(tuple, types_view(types@.subrange(0, 0)), offset as nat) =~= seq![]);
    }
    let mut i: usize = 0;
    while i < types.len()
        invariant
            0 <= i <= types@.len(),
            offset + types@.len() <= u32::MAX,
            definition.instructions@.len() == n + i,
            room_for(e0, d0, types@.len()),
            e.target == e0.target,
            values@ == results_from(n, i as nat),
            emitted(e0, d0, *e, *definition, index_fields_code(tuple, types_view(types@.subrange(0, i as int)), offset as nat)),
        decreases types@.len() - i,
    {
        let ghost e1 = *e;
        let ghost d1 = *definition;
        let index = offset + i as u32;
        let v = e.push_instruction(definition, Instruction::IndexTuple { tuple, index }, types[i].clone());
        values.push(v);
        proof {
            let before = index_fields_code(tuple, types_view(types@.subrange(0, i as int)), offset as nat);
            let step = seq![(InstructionView::IndexTuple { tuple, index }, types@[i as int]@)];
            lemma_emitted_then(e0, d0, e1, d1, *e, *definition, before, step);
            assert(before + step =~= index_fields_code(tuple, types_view(types@.subrange(0, i + 1)), offset as nat));
        }
        i = i + 1;
        proof {
            assert(values@ =~= results_from(n, i as nat));
        }
    }
    proof {
        assert(types@.subrange(0, types@.len() as int) =~= types@);
    }
    values
}

/// The code of a resume function, and the value it returns: the state read through the
/// environment pointer, the coroutine and each handler taken out of it, the value it was
/// resumed with pushed onto the coroutine, and the drive called again with the coroutine and
/// the handlers.
pub open spec fn resume_code(
    mco: AminicoroFns,
    op_return: TypeView,
    drive_id: DefinitionId,
    drive_typ: TypeView,
    handler_types: Seq<TypeView>,
    result_type: TypeView,
    generic_count: u32,
) -> (Seq<(InstructionView, TypeView)>, Value) {
    let nh = handler_types.len();
    let state = seq![
        (InstructionView::Deref(Value::Parameter(BlockId(0), 1)), state_type(handler_types)),
        (InstructionView::IndexTuple { tuple: result(0), index: 0 }, pointer_view()),
    ];
    let fields = index_fields_code(result(0), handler_types, 1);
    let push = push_code(mco.push.name@, mco.push.typ@, result(1), Value::Parameter(BlockId(0), 0), op_return, 2 + nh);
    let n3 = 2 + nh + push.len();
    let (drive_code, drive_value) = forward_value_code(drive_id, drive_typ, generic_count, n3);
    let n4 = n3 + drive_code.len();
    (
        state + fields + push + drive_code + seq![
            (
                InstructionView::Call { function: drive_value, arguments: seq![result(1)] + results_from(2, nh) },
                result_type,
            ),
        ],
        result(n4),
    )
}

/// `d` is the resume function `id` of a drive: `fn (op_return) [Pointer] -> result_type`, its
/// one block taking the value and the environment pointer and running [resume_code].
pub open spec fn is_resume_function(
    d: Definition,
    id: DefinitionId,
    mco: AminicoroFns,
    op_return: TypeView,
    drive_id: DefinitionId,
    drive_typ: TypeView,
    handler_types: Seq<TypeView>,
    result_type: TypeView,
    generic_count: u32,
) -> bool {
    let (code, value) = resume_code(mco, op_return, drive_id, drive_typ, handler_types, result_type, generic_count);
    &&& d.name@ == "handle_resume"@
    &&& d.id == id
    &&& d.generic_count == generic_count
    &&& d.typ@ == resume_type(op_return, result_type)
    &&& d.blocks@.len() == 1
    &&& types_view(d.blocks@[0].parameter_types@) == seq![op_return, pointer_view()]
    &&& d.blocks@[0].instructions@ == id_range(0, code.len())
    &&& d.blocks@[0].terminator == Some(TerminatorInstruction::Return(value))
    &&& holds_code(d, code)
}

/// `resume: fn r1 [Pointer] -> result`; its environment points at `(coro, handler_0, ..)`.
/// Builds the resume function `resume_id` of the drive `drive_function_id`.
pub fn generate_resume_function(
    r1_type: Type,
    drive_function_id: DefinitionId,
    drive_function_type: Type,
    handler_types: &Vec<Type>,
    result_type: &Type,
    mco: &AminicoroFns,
    generic_count: u32,
    resume_id: DefinitionId,
) -> (r: Definition)
    requires
        coro_fns_typed(*mco),
        resume_code(
            *mco,
            r1_type@,
            drive_function_id,
            drive_function_type@,
            types_view(handler_types@),
            result_type@,
            generic_count,
        ).0.len() < u32::MAX,
    ensures
        is_resume_function(
            r,
            resume_id,
            *mco,
            r1_type@,
            drive_function_id,
            drive_function_type@,
            types_view(handler_types@),
            result_type@,
            generic_count,
        ),
{
    let ghost code_all = resume_code(
        *mco,
        r1_type@,
        drive_function_id,
        drive_function_type@,
        types_view(handler_types@),
        result_type@,
        generic_count,
    );
    let ghost nh = handler_types@.len();
    let mut parameters: Vec<Type> = Vec::new();
    parameters.push(r1_type.clone());
    let function_type = Type::Function(Arc::new(FunctionType { parameters, environment: Type::pointer(), return_type: result_type.clone() }));
    proof {
        assert(types_view(parameters@) =~= seq![r1_type@]);
    }
    let mut definition = Definition::new(Arc::new(String::from_str("handle_resume")), resume_id, generic_count, function_type);
    let mut entry_parameters: Vec<Type> = Vec::new();
    entry_parameters.push(r1_type.clone());
    entry_parameters.push(Type::pointer());
    proof {
        assert(types_view(entry_parameters@) =~= seq![r1_type@, pointer_view()]);
    }
    definition.blocks.set(0, Block::new(entry_parameters));
    let state_typ = make_state_type(handler_types);
    let ghost d0 = definition;
    let entry = BlockId(0);
    let mut emitter = Emitter::in_block(entry);
    let ghost e0 = emitter;
    let ghost c1 = seq![(InstructionView::Deref(Value::Parameter(BlockId(0), 1)), state_type(types_view(handler_types@)))];
    let ghost c2 = seq![(InstructionView::IndexTuple { tuple: result(0), index: 0 }, pointer_view())];
    let ghost c3 = index_fields_code(result(0), types_view(handler_types@), 1);
    let ghost c4 = push_code(mco.push.name@, mco.push.typ@, result(1), Value::Parameter(BlockId(0), 0), r1_type@, 2 + nh);
    let ghost c5 = forward_value_code(drive_function_id, drive_function_type@, generic_count, 2 + nh + c4.len()).0;
    assert(code_all.0.len() == 2 + nh + c4.len() + c5.len() + 1);
    let state = emitter.push_instruction(&mut definition, Instruction::Deref(Value::Parameter(entry, 1)), state_typ);
    let ghost e1 = emitter;
    let ghost d1 = definition;
    let coro = emitter.push_instruction(&mut definition, Instruction::IndexTuple { tuple: state, index: 0 }, Type::pointer());
    let ghost e2 = emitter;
    let ghost d2 = definition;
    let handler_values = emit_index_fields(&mut emitter, &mut definition, state, handler_types, 1);
    let ghost e3 = emitter;
    let ghost d3 = definition;
    emitter.push_bytes(&mut definition, mco, coro, Value::Parameter(entry, 0), &r1_type);
    let ghost e4 = emitter;
    let ghost d4 = definition;
    let drive_arguments = cons_values(coro, &handler_values);
    let drive_value = emit_forward_value(&mut emitter, &mut definition, drive_function_id, drive_function_type, generic_count);
    let ghost e5 = emitter;
    let ghost d5 = definition;
    let ghost c6 = seq![(InstructionView::Call { function: drive_value, arguments: drive_arguments@ }, result_type@)];
    let drive_result = emitter.push_instruction(
        &mut definition,
        Instruction::Call { function: drive_value, arguments: drive_arguments },
        result_type.clone(),
    );
    let ghost d6 = definition;
    proof {
        lemma_emitted_then(e0, d0, e1, d1, e2, d2, c1, c2);
        lemma_emitted_then(e0, d0, e2, d2, e3, d3, c1 + c2, c3);
        lemma_emitted_then(e0, d0, e3, d3, e4, d4, c1 + c2 + c3, c4);
        lemma_emitted_then(e0, d0, e4, d4, e5, d5, c1 + c2 + c3 + c4, c5);
        lemma_emitted_then(e0, d0, e5, d5, emitter, d6, c1 + c2 + c3 + c4 + c5, c6);
        assert(c1 + c2 + c3 + c4 + c5 + c6 =~= code_all.0);
        lemma_holds_code(d0, d6, code_all.0);
        assert(d6.blocks@[0].instructions@ =~= id_range(0, code_all.0.len()));
    }
    set_terminator(&mut definition, entry, Some(TerminatorInstruction::Return(drive_result)));
    definition
}

/// The drive's coroutine: the first parameter of its entry block.
pub open spec fn drive_coro() -> Value {
    Value::Parameter(BlockId(0), 0)
}

/// The loop header of a drive: resume the coroutine, then ask whether it suspended again.
pub open spec fn header_code(mco: AminicoroFns) -> Seq<(InstructionView, TypeView)> {
    extern_call_code(mco.resume.name@, mco.resume.typ@, seq![drive_coro()], 0) + extern_call_code(
        mco.is_suspended.name@,
        mco.is_suspended.typ@,
        seq![drive_coro()],
        2,
    )
}

/// The dispatch block of a drive at `n`, and the target coroutine, the case index and the
/// test that they pop: the target and then the case index come off the coroutine, and the
/// target is compared, as an integer, with the drive's own coroutine.
pub open spec fn dispatch_code(mco: AminicoroFns, n: nat) -> (Seq<(InstructionView, TypeView)>, Value, Value, Value) {
    let (c1, target) = pop_code(mco.pop.name@, mco.pop.typ@, drive_coro(), pointer_view(), n);
    let (c2, case_idx) = pop_code(mco.pop.name@, mco.pop.typ@, drive_coro(), int_view(IntegerKind::U32), n + c1.len());
    let m = n + c1.len() + c2.len();
    (
        c1 + c2 + seq![
            (InstructionView::Transmute(target), usz_view()),
            (InstructionView::Transmute(drive_coro()), usz_view()),
            (InstructionView::EqInt(result(m), result(m + 1)), TypeView::Primitive(PrimitiveType::Bool)),
        ],
        target,
        case_idx,
        result(m + 2),
    )
}

/// The forwarding block of a drive at `n`: a message for another handler moves, bytes and
/// all, to the parent coroutine with its case index and target, the parent suspends, and the
/// answer moves back.
pub open spec fn forward_code(mco: AminicoroFns, case_idx: Value, target: Value, n: nat) -> Seq<
    (InstructionView, TypeView),
> {
    let parent = result(n + 1);
    let p1 = push_code(mco.push.name@, mco.push.typ@, parent, case_idx, int_view(IntegerKind::U32), n + 6);
    let p2 = push_code(mco.push.name@, mco.push.typ@, parent, target, pointer_view(), n + 6 + p1.len());
    let m = n + 6 + p1.len() + p2.len();
    extern_call_code(mco.running.name@, mco.running.typ@, seq![], n) + extern_call_code(
        mco.bytes_stored.name@,
        mco.bytes_stored.typ@,
        seq![drive_coro()],
        n + 2,
    ) + extern_call_code(mco.transfer.name@, mco.transfer.typ@, seq![drive_coro(), parent, result(n + 3)], n + 4) + p1
        + p2 + extern_call_code(mco.suspend.name@, mco.suspend.typ@, seq![parent], m) + extern_call_code(
        mco.bytes_stored.name@,
        mco.bytes_stored.typ@,
        seq![parent],
        m + 2,
    ) + extern_call_code(mco.transfer.name@, mco.transfer.typ@, seq![parent, drive_coro(), result(m + 3)], m + 4)
}

/// Fills the loop header `block` of a drive (see [header_code]) and branches on whether the
/// coroutine suspended: to `dispatch_block` if so, else to `complete_block`.
fn emit_loop_header(
    definition: &mut Definition,
    block: BlockId,
    mco: &AminicoroFns,
    dispatch_block: BlockId,
    complete_block: BlockId,
)
    requires
        coro_fns_typed(*mco),
        old(definition).instructions@.len() == 0,
        block_room(*old(definition), block, header_code(*mco).len()),
    ensures
        block_filled(
            *old(definition),
            *final(definition),
            block.0 as int,
            header_code(*mco),
            Some(
                TerminatorInstruction::If {
                    condition: result(3),
                    then: (dispatch_block, None),
                    else_: (complete_block, None),
                    end: complete_block,
                },
            ),
        ),
{
    let ghost d0 = *definition;
    let coro = Value::Parameter(BlockId(0), 0);
    let mut emitter = Emitter::in_block(block);
    let ghost e0 = emitter;
    let args = vec![coro];
    assert(args@ =~= seq![drive_coro()]);
    emitter.call_extern(definition, &mco.resume, args);
    let ghost e1 = emitter;
    let ghost d1 = *definition;
    let args = vec![coro];
    assert(args@ =~= seq![drive_coro()]);
    let suspended = emitter.call_extern(definition, &mco.is_suspended, args);
    let ghost d2 = *definition;
    let term = Some(
        TerminatorInstruction::If {
            condition: suspended,
            then: (dispatch_block, None),
            else_: (complete_block, None),
            end: complete_block,
        },
    );
    proof {
        lemma_emitted_then(
            e0,
            d0,
            e1,
            d1,
            emitter,
            d2,
            extern_call_code(mco.resume.name@, mco.resume.typ@, seq![drive_coro()], 0),
            extern_call_code(mco.is_suspended.name@, mco.is_suspended.typ@, seq![drive_coro()], 2),
        );
    }
    set_terminator(definition, block, term);
    proof {
        lemma_block_filled(e0, d0, emitter, d2, *definition, block.0 as int, header_code(*mco), term);
    }
}

/// Fills `block` with the pop of a value of type `value_type` off `coro` and a jump with it to
/// `jmp_target`.
pub fn emit_pop_and_jmp(
    definition: &mut Definition,
    block: BlockId,
    coro: Value,
    value_type: &Type,
    jmp_target: BlockId,
    mco: &AminicoroFns,
)
    requires
        coro_fns_typed(*mco),
        block_room(
            *old(definition),
            block,
            pop_code(mco.pop.name@, mco.pop.typ@, coro, value_type@, old(definition).instructions@.len()).0.len(),
        ),
    ensures
        ({
            let (code, value) = pop_code(mco.pop.name@, mco.pop.typ@, coro, value_type@, old(definition).instructions@.len());
            block_filled(
                *old(definition),
                *final(definition),
                block.0 as int,
                code,
                Some(TerminatorInstruction::Jmp((jmp_target, Some(value)))),
            )
        }),
{
    let ghost d0 = *definition;
    let mut emitter = Emitter::in_block(block);
    let ghost e0 = emitter;
    let value = emitter.pop_bytes(definition, mco, coro, value_type);
    let ghost d1 = *definition;
    let term = Some(TerminatorInstruction::Jmp((jmp_target, Some(value))));
    set_terminator(definition, block, term);
    proof {
        lemma_block_filled(
            e0,
            d0,
            emitter,
            d1,
            *definition,
            block.0 as int,
            pop_code(mco.pop.name@, mco.pop.typ@, coro, value_type@, d0.instructions@.len()).0,
            term,
        );
    }
}

/// Fills the dispatch `block` of a drive (see [dispatch_code]) and branches on whether the
/// message is for this drive: to `my_dispatch_block` if so, else to `forward_block`. Returns the
/// target and the case index.
fn emit_dispatch(
    definition: &mut Definition,
    block: BlockId,
    mco: &AminicoroFns,
    my_dispatch_block: BlockId,
    forward_block: BlockId,
) -> (r: (Value, Value))
    requires
        coro_fns_typed(*mco),
        block_room(*old(definition), block, dispatch_code(*mco, old(definition).instructions@.len()).0.len()),
    ensures
        ({
            let (code, target, case_idx, eq) = dispatch_code(*mco, old(definition).instructions@.len());
            &&& r == (target, case_idx)
            &&& block_filled(
                *old(definition),
                *final(definition),
                block.0 as int,
                code,
                Some(
                    TerminatorInstruction::If {
                        condition: eq,
                        then: (my_dispatch_block, None),
                        else_: (forward_block, None),
                        end: forward_block,
                    },
                ),
            )
        }),
{
    let ghost d0 = *definition;
    let ghost n = d0.instructions@.len();
    let coro = Value::Parameter(BlockId(0), 0);
    let mut emitter = Emitter::in_block(block);
    let ghost e0 = emitter;
    let ghost all = dispatch_code(*mco, n);
    let ghost c1 = pop_code(mco.pop.name@, mco.pop.typ@, drive_coro(), pointer_view(), n).0;
    let ghost c2 = pop_code(mco.pop.name@, mco.pop.typ@, drive_coro(), int_view(IntegerKind::U32), n + c1.len()).0;
    let ghost m = n + c1.len() + c2.len();
    let target = emitter.pop_bytes(definition, mco, coro, &Type::pointer());
    let ghost e1 = emitter;
    let ghost d1 = *definition;
    let case_idx = emitter.pop_bytes(definition, mco, coro, &Type::integer(IntegerKind::U32));
    let ghost e2 = emitter;
    let ghost d2 = *definition;
    let target_int = emitter.push_instruction(definition, Instruction::Transmute(target), Type::integer(IntegerKind::Usz));
    let ghost e3 = emitter;
    let ghost d3 = *definition;
    let my_int = emitter.push_instruction(definition, Instruction::Transmute(coro), Type::integer(IntegerKind::Usz));
    let ghost e4 = emitter;
    let ghost d4 = *definition;
    let eq = emitter.push_instruction(definition, Instruction::EqInt(target_int, my_int), Type::bool_type());
    let ghost d5 = *definition;
    proof {
        let c3 = seq![(InstructionView::Transmute(target), usz_view())];
        let c4 = seq![(InstructionView::Transmute(drive_coro()), usz_view())];
        let c5 = seq![(InstructionView::EqInt(result(m), result(m + 1)), TypeView::Primitive(PrimitiveType::Bool))];
        lemma_emitted_then(e0, d0, e1, d1, e2, d2, c1, c2);
        lemma_emitted_then(e0, d0, e2, d2, e3, d3, c1 + c2, c3);
        lemma_emitted_then(e0, d0, e3, d3, e4, d4, c1 + c2 + c3, c4);
        lemma_emitted_then(e0, d0, e4, d4, emitter, d5, c1 + c2 + c3 + c4, c5);
        assert(c1 + c2 + c3 + c4 + c5 =~= all.0);
    }
    let term = Some(
        TerminatorInstruction::If {
            condition: eq,
            then: (my_dispatch_block, None),
            else_: (forward_block, None),
            end: forward_block,
        },
    );
    set_terminator(definition, block, term);
    proof {
        lemma_block_filled(e0, d0, emitter, d5, *definition, block.0 as int, all.0, term);
    }
    (target, case_idx)
}

/// Fills the forwarding `block` of a drive (see [forward_code]) and jumps back to
/// `loop_header`.
fn emit_forward(
    definition: &mut Definition,
    block: BlockId,
    mco: &AminicoroFns,
    case_idx: Value,
    target: Value,
    loop_header: BlockId,
)
    requires
        coro_fns_typed(*mco),
        block_room(*old(definition), block, forward_code(*mco, case_idx, target, old(definition).instructions@.len()).len()),
    ensures
        block_filled(
            *old(definition),
            *final(definition),
            block.0 as int,
            forward_code(*mco, case_idx, target, old(definition).instructions@.len()),
            Some(TerminatorInstruction::Jmp((loop_header, None))),
        ),
{
    let ghost d0 = *definition;
    let ghost n = d0.instructions@.len();
    let coro = Value::Parameter(BlockId(0), 0);
    let mut emitter = Emitter::in_block(block);
    let ghost e0 = emitter;
    let ghost parent_v = result(n + 1);
    let ghost p1 = push_code(mco.push.name@, mco.push.typ@, parent_v, case_idx, int_view(IntegerKind::U32), n + 6);
    let ghost p2 = push_code(mco.push.name@, mco.push.typ@, parent_v, target, pointer_view(), n + 6 + p1.len());
    let ghost m = n + 6 + p1.len() + p2.len();
    let ghost c1 = extern_call_code(mco.running.name@, mco.running.typ@, seq![], n);
    let ghost c2 = extern_call_code(mco.bytes_stored.name@, mco.bytes_stored.typ@, seq![drive_coro()], n + 2);
    let ghost c3 = extern_call_code(mco.transfer.name@, mco.transfer.typ@, seq![drive_coro(), parent_v, result(n + 3)], n + 4);
    let ghost c6 = extern_call_code(mco.suspend.name@, mco.suspend.typ@, seq![parent_v], m);
    let ghost c7 = extern_call_code(mco.bytes_stored.name@, mco.bytes_stored.typ@, seq![parent_v], m + 2);
    let ghost c8 = extern_call_code(mco.transfer.name@, mco.transfer.typ@, seq![parent_v, drive_coro(), result(m + 3)], m + 4);
    let parent = emitter.call_extern(definition, &mco.running, Vec::new());
    let ghost e1 = emitter;
    let ghost d1 = *definition;
    let args = vec![coro];
    assert(args@ =~= seq![drive_coro()]);
    let n_args = emitter.call_extern(definition, &mco.bytes_stored, args);
    let ghost e2 = emitter;
    let ghost d2 = *definition;
    let args = vec![coro, parent, n_args];
    assert(args@ =~= seq![drive_coro(), parent_v, result(n + 3)]);
    emitter.call_extern(definition, &mco.transfer, args);
    let ghost e3 = emitter;
    let ghost d3 = *definition;
    emitter.push_bytes(definition, mco, parent, case_idx, &Type::integer(IntegerKind::U32));
    let ghost e4 = emitter;
    let ghost d4 = *definition;
    emitter.push_bytes(definition, mco, parent, target, &Type::pointer());
    let ghost e5 = emitter;
    let ghost d5 = *definition;
    let args = vec![parent];
    assert(args@ =~= seq![parent_v]);
    emitter.call_extern(definition, &mco.suspend, args);
    let ghost e6 = emitter;
    let ghost d6 = *definition;
    let args = vec![parent];
    assert(args@ =~= seq![parent_v]);
    let n_result = emitter.call_extern(definition, &mco.bytes_stored, args);
    let ghost e7 = emitter;
    let ghost d7 = *definition;
    let args = vec![parent, coro, n_result];
    assert(args@ =~= seq![parent_v, drive_coro(), result(m + 3)]);
    emitter.call_extern(definition, &mco.transfer, args);
    let ghost d8 = *definition;
    proof {
        assert(Seq::<Value>::empty() =~= seq![]);
        lemma_emitted_then(e0, d0, e1, d1, e2, d2, c1, c2);
        lemma_emitted_then(e0, d0, e2, d2, e3, d3, c1 + c2, c3);
        lemma_emitted_then(e0, d0, e3, d3, e4, d4, c1 + c2 + c3, p1);
        lemma_emitted_then(e0, d0, e4, d4, e5, d5, c1 + c2 + c3 + p1, p2);
        lemma_emitted_then(e0, d0, e5, d5, e6, d6, c1 + c2 + c3 + p1 + p2, c6);
        lemma_emitted_then(e0, d0, e6, d6, e7, d7, c1 + c2 + c3 + p1 + p2 + c6, c7);
        lemma_emitted_then(e0, d0, e7, d7, emitter, d8, c1 + c2 + c3 + p1 + p2 + c6 + c7, c8);
        assert(c1 + c2 + c3 + p1 + p2 + c6 + c7 + c8 =~= forward_code(*mco, case_idx, target, n));
    }
    let term = Some(TerminatorInstruction::Jmp((loop_header, None)));
    set_terminator(definition, block, term);
    proof {
        lemma_block_filled(e0, d0, emitter, d8, *definition, block.0 as int, forward_code(*mco, case_idx, target, n), term);
    }
}

/// Case `i` of a drive when the drive has `n` instructions, and the handler's result (see
/// [handler_case_code]): the case's handler is handler parameter `i`, its resume closure is
/// resume function `resume_ids[i]`.
pub open spec fn case_code(
    mco: AminicoroFns,
    handler_types: Seq<TypeView>,
    shapes: Seq<CaseShape>,
    resume_ids: Seq<DefinitionId>,
    result_type: TypeView,
    generic_count: u32,
    i: int,
    n: nat,
) -> (Seq<(InstructionView, TypeView)>, Value) {
    handler_case_code(
        mco,
        drive_coro(),
        resume_ids[i],
        resume_type(shapes[i].op_return_type@, result_type),
        handler_params(handler_types.len())[i],
        handler_params(handler_types.len()),
        handler_types,
        types_view(shapes[i].op_arg_types@),
        shapes[i].handler_is_closure,
        result_type,
        generic_count,
        n,
    )
}

/// How many instructions the drive has after its first `k` cases, which start at `n`.
pub open spec fn cases_end(
    mco: AminicoroFns,
    handler_types: Seq<TypeView>,
    shapes: Seq<CaseShape>,
    resume_ids: Seq<DefinitionId>,
    result_type: TypeView,
    generic_count: u32,
    k: nat,
    n: nat,
) -> nat
    decreases k,
{
    if k == 0 {
        n
    } else {
        let m = cases_end(mco, handler_types, shapes, resume_ids, result_type, generic_count, (k - 1) as nat, n);
        m + case_code(mco, handler_types, shapes, resume_ids, result_type, generic_count, k - 1, m).0.len()
    }
}

/// The code of the first `k` cases of the drive, in order, starting at `n`.
pub open spec fn cases_code(
    mco: AminicoroFns,
    handler_types: Seq<TypeView>,
    shapes: Seq<CaseShape>,
    resume_ids: Seq<DefinitionId>,
    result_type: TypeView,
    generic_count: u32,
    k: nat,
    n: nat,
) -> Seq<(InstructionView, TypeView)>
    decreases k,
{
    if k == 0 {
        seq![]
    } else {
        let m = cases_end(mco, handler_types, shapes, resume_ids, result_type, generic_count, (k - 1) as nat, n);
        cases_code(mco, handler_types, shapes, resume_ids, result_type, generic_count, (k - 1) as nat, n) + case_code(
            mco,
            handler_types,
            shapes,
            resume_ids,
            result_type,
            generic_count,
            k - 1,
            m,
        ).0
    }
}

pub proof fn lemma_cases_end(
    mco: AminicoroFns,
    handler_types: Seq<TypeView>,
    shapes: Seq<CaseShape>,
    resume_ids: Seq<DefinitionId>,
    result_type: TypeView,
    generic_count: u32,
    j: nat,
    k: nat,
    n: nat,
)
    requires
        j <= k,
    ensures
        cases_end(mco, handler_types, shapes, resume_ids, result_type, generic_count, j, n) <= cases_end(
            mco,
            handler_types,
            shapes,
            resume_ids,
            result_type,
            generic_count,
            k,
            n,
        ),
        cases_code(mco, handler_types, shapes, resume_ids, result_type, generic_count, k, n).len() == cases_end(
            mco,
            handler_types,
            shapes,
            resume_ids,
            result_type,
            generic_count,
            k,
            n,
        ) - n,
    decreases k,
{
    if k > 0 {
        if j < k {
            lemma_cases_end(mco, handler_types, shapes, resume_ids, result_type, generic_count, j, (k - 1) as nat, n);
        } else {
            lemma_cases_end(mco, handler_types, shapes, resume_ids, result_type, generic_count, 0, (k - 1) as nat, n);
        }
    }
}

/// The cases of the drive's switch: case index `i` goes to block `7 + i`.
pub open spec fn switch_cases(count: nat) -> Seq<(u32, (BlockId, Option<Value>))> {
    Seq::new(count, |i: int| (i as u32, (BlockId((7 + i) as u32), None::<Value>)))
}

/// Block `b` of `d` takes parameters of the types `params`, lists the `len` instructions from
/// `start` on, and ends with `term`.
pub open spec fn block_is(
    d: Definition,
    b: int,
    params: Seq<TypeView>,
    start: nat,
    len: nat,
    term: Option<TerminatorInstruction>,
) -> bool {
    &&& types_view(d.blocks@[b].parameter_types@) == params
    &&& d.blocks@[b].instructions@ == id_range(start, len)
    &&& d.blocks@[b].terminator == term
}

/// Block `7 + j` of the drive `d` is case `j`, whose code starts at `cases_end(j, n)`, jumping
/// to the final block with the handler's result.
pub open spec fn case_block_ok(
    d: Definition,
    mco: AminicoroFns,
    handler_types: Seq<TypeView>,
    shapes: Seq<CaseShape>,
    resume_ids: Seq<DefinitionId>,
    result_type: TypeView,
    generic_count: u32,
    n: nat,
    j: int,
) -> bool {
    let start = cases_end(mco, handler_types, shapes, resume_ids, result_type, generic_count, j as nat, n);
    let (code, value) = case_code(mco, handler_types, shapes, resume_ids, result_type, generic_count, j, start);
    block_is(d, 7 + j, seq![], start, code.len(), Some(TerminatorInstruction::Jmp((BlockId(6), Some(value)))))
}

/// The code of the drive in the order it is emitted: the loop header, the completion, the
/// dispatch, each case, and the forwarding; with where the dispatch, the cases and the
/// forwarding start.
pub open spec fn drive_layout(
    mco: AminicoroFns,
    handler_types: Seq<TypeView>,
    shapes: Seq<CaseShape>,
    resume_ids: Seq<DefinitionId>,
    result_type: TypeView,
    generic_count: u32,
) -> (Seq<(InstructionView, TypeView)>, nat, nat, nat) {
    let complete = pop_code(mco.pop.name@, mco.pop.typ@, drive_coro(), result_type, 4).0;
    let nd = 4 + complete.len();
    let (dispatch, target, case_idx, eq) = dispatch_code(mco, nd);
    let nc = nd + dispatch.len();
    let nf = cases_end(mco, handler_types, shapes, resume_ids, result_type, generic_count, handler_types.len(), nc);
    let forward = forward_code(mco, case_idx, target, nf);
    (
        header_code(mco) + complete + dispatch + cases_code(
            mco,
            handler_types,
            shapes,
            resume_ids,
            result_type,
            generic_count,
            handler_types.len(),
            nc,
        ) + forward,
        nd,
        nc,
        nf,
    )
}

/// `d` is the drive `id` of a `handle` with handlers of types `handler_types`:
/// `fn (Pointer, handlers..) -> result_type`, with the blocks
/// 0. entry, taking the coroutine and the handlers, jumping to the loop header;
/// 1. loop header (see [header_code]): to the dispatch if the coroutine suspended, else to
///    the completion;
/// 2. dispatch (see [dispatch_code]): to the switch if the message is for this drive, else to
///    the forwarding;
/// 3. completion: the body's result popped and handed to the final block;
/// 4. switch on the case index: case `i` to block `7 + i`, anything else to the unreachable
///    block;
/// 5. forwarding (see [forward_code]), then back to the loop header;
/// 6. final: returns its one parameter;
/// 7 + i. case `i` (see [case_code]), handing the handler's result to the final block;
/// 7 + count. unreachable.
pub open spec fn is_drive_function(
    d: Definition,
    id: DefinitionId,
    mco: AminicoroFns,
    handler_types: Seq<TypeView>,
    shapes: Seq<CaseShape>,
    resume_ids: Seq<DefinitionId>,
    result_type: TypeView,
    generic_count: u32,
) -> bool {
    let nh = handler_types.len();
    let (code, nd, nc, nf) = drive_layout(mco, handler_types, shapes, resume_ids, result_type, generic_count);
    let complete = pop_code(mco.pop.name@, mco.pop.typ@, drive_coro(), result_type, 4);
    let (dispatch, target, case_idx, eq) = dispatch_code(mco, nd);
    let forward = forward_code(mco, case_idx, target, nf);
    &&& d.name@ == "handle_drive"@
    &&& d.id == id
    &&& d.generic_count == generic_count
    &&& d.typ@ == spec_ptr_fn(seq![pointer_view()] + handler_types, result_type)
    &&& d.blocks@.len() == 8 + nh
    &&& holds_code(d, code)
    &&& block_is(d, 0, seq![pointer_view()] + handler_types, 0, 0, Some(TerminatorInstruction::Jmp((BlockId(1), None))))
    &&& block_is(
        d,
        1,
        seq![],
        0,
        4,
        Some(
            TerminatorInstruction::If {
                condition: result(3),
                then: (BlockId(2), None),
                else_: (BlockId(3), None),
                end: BlockId(3),
            },
        ),
    )
    &&& block_is(
        d,
        2,
        seq![],
        nd,
        dispatch.len(),
        Some(
            TerminatorInstruction::If {
                condition: eq,
                then: (BlockId(4), None),
                else_: (BlockId(5), None),
                end: BlockId(5),
            },
        ),
    )
    &&& block_is(d, 3, seq![], 4, complete.0.len(), Some(TerminatorInstruction::Jmp((BlockId(6), Some(complete.1)))))
    &&& d.blocks@[4].parameter_types@.len() == 0
    &&& d.blocks@[4].instructions@.len() == 0
    &&& d.blocks@[4].terminator matches Some(TerminatorInstruction::Switch { int_value, cases, else_, end })
        && int_value == case_idx && cases@ == switch_cases(nh) && else_ == (BlockId((7 + nh) as u32), None::<Value>)
        && end == BlockId(6)
    &&& block_is(d, 5, seq![], nf, forward.len(), Some(TerminatorInstruction::Jmp((BlockId(1), None))))
    &&& block_is(d, 6, seq![result_type], nf + forward.len(), 0, Some(TerminatorInstruction::Return(Value::Parameter(BlockId(6), 0))))
    &&& forall|j: int|
        0 <= j < nh ==> #[trigger] case_block_ok(d, mco, handler_types, shapes, resume_ids, result_type, generic_count, nc, j)
    &&& block_is(d, 7 + nh as int, seq![], 0, 0, Some(TerminatorInstruction::Unreachable))
}

/// Adding `c1` and then `c2` adds `c1 + c2`.
proof fn lemma_code_added_then(
    d0: Definition,
    d1: Definition,
    d2: Definition,
    c1: Seq<(InstructionView, TypeView)>,
    c2: Seq<(InstructionView, TypeView)>,
)
    requires
        code_added(d0, d1, c1),
        code_added(d1, d2, c2),
    ensures
        code_added(d0, d2, c1 + c2),
{
    let n = d0.instructions@.len();
    let m = d1.instructions@.len();
    assert(d2.instructions@.subrange(0, n as int) =~= d0.instructions@) by {
        assert(d2.instructions@.subrange(0, n as int) =~= d2.instructions@.subrange(0, m as int).subrange(0, n as int));
    }
    assert(d2.instruction_result_types@.subrange(0, n as int) =~= d0.instruction_result_types@) by {
        assert(d2.instruction_result_types@.subrange(0, n as int) =~= d2.instruction_result_types@.subrange(0, m as int).subrange(0, n as int));
    }
    let c = c1 + c2;
    assert forall|k: int| 0 <= k < c.len() implies (#[trigger] d2.instructions@[n + k])@ == c[k].0 by {
        if k < c1.len() {
            assert(d2.instructions@[n + k] == d2.instructions@.subrange(0, m as int)[n + k]);
            assert(d1.instructions@[n + k]@ == c1[k].0);
        } else {
            let j = k - c1.len();
            assert(n + k == m + j);
            assert(d2.instructions@[m + j]@ == c2[j].0);
        }
    }
    assert forall|k: int| 0 <= k < c.len() implies (#[trigger] d2.instruction_result_types@[n + k])@ == c[k].1 by {
        if k < c1.len() {
            assert(d2.instruction_result_types@[n + k] == d2.instruction_result_types@.subrange(0, m as int)[n + k]);
            assert(d1.instruction_result_types@[n + k]@ == c1[k].1);
        } else {
            let j = k - c1.len();
            assert(n + k == m + j);
            assert(d2.instruction_result_types@[m + j]@ == c2[j].1);
        }
    }
}

/// Nothing is added where the instructions and the header stay as they are.
proof fn lemma_code_added_nothing(d0: Definition, d1: Definition)
    requires
        d0.instructions@.len() == d0.instruction_result_types@.len(),
        d1.instructions == d0.instructions,
        d1.instruction_result_types == d0.instruction_result_types,
        d1.name == d0.name,
        d1.id == d0.id,
        d1.typ == d0.typ,
        d1.generic_count == d0.generic_count,
    ensures
        code_added(d0, d1, seq![]),
{
    assert(d1.instructions@.subrange(0, d0.instructions@.len() as int) =~= d0.instructions@);
    assert(d1.instruction_result_types@.subrange(0, d0.instructions@.len() as int) =~= d0.instruction_result_types@);
}

/// The handler parameters of a drive with `count` handlers.
fn make_handler_params(count: usize) -> (r: Vec<Value>)
    requires
        count < u32::MAX,
    ensures
        r@ == handler_params(count as nat),
{
    let mut r: Vec<Value> = Vec::new();
    let mut i: usize = 0;
    while i < count
        invariant
            0 <= i <= count,
            count < u32::MAX,
            r@ == handler_params(i as nat),
        decreases count - i,
    {
        r.push(Value::Parameter(BlockId(0), (i + 1) as u32));
        i = i + 1;
        proof {
            assert(r@ =~= handler_params(i as nat));
        }
    }
    r
}

/// The type of a resume closure (see [resume_type]).
fn make_resume_type(op_return: &Type, result_type: &Type) -> (r: Type)
    ensures
        r@ == resume_type(op_return@, result_type@),
{
    let mut parameters: Vec<Type> = Vec::new();
    parameters.push(op_return.clone());
    proof {
        assert(types_view(parameters@) =~= seq![op_return@]);
    }
    let environment = Type::pointer();
    let return_type = result_type.clone();
    let f = FunctionType { parameters, environment, return_type };
    assert(f@ == FunctionTypeView { parameters: seq![op_return@], environment: pointer_view(), return_type: result_type@ });
    let r = Type::Function(Arc::new(f));
    r
}

/// The parameter types of a drive: a pointer to the coroutine, then each handler.
fn make_drive_parameters(handler_types: &Vec<Type>) -> (r: Vec<Type>)
    ensures
        types_view(r@) == seq![pointer_view()] + types_view(handler_types@),
{
    let mut fields: Vec<Type> = Vec::new();
    fields.push(Type::pointer());
    let mut i: usize = 0;
    while i < handler_types.len()
        invariant
            0 <= i <= handler_types@.len(),
            fields@ == seq![Type::Primitive(PrimitiveType::Pointer)] + handler_types@.subrange(0, i as int),
        decreases handler_types@.len() - i,
    {
        fields.push(handler_types[i].clone());
        i = i + 1;
        proof {
            assert(fields@ =~= seq![Type::Primitive(PrimitiveType::Pointer)] + handler_types@.subrange(0, i as int));
        }
    }
    proof {
        assert(fields@ =~= seq![Type::Primitive(PrimitiveType::Pointer)] + handler_types@);
        assert(types_view(fields@) =~= seq![pointer_view()] + types_view(handler_types@));
    }
    fields
}

/// The type of the drive of a `handle` with handlers of types `handler_types`.
pub open spec fn drive_type(handler_types: Seq<TypeView>, result_type: TypeView) -> TypeView {
    spec_ptr_fn(seq![pointer_view()] + handler_types, result_type)
}

/// Builds the resume function `resume_ids[i]` of case `i` for every case.
fn generate_resume_functions(
    case_shapes: &Vec<CaseShape>,
    drive_id: DefinitionId,
    drive_typ: &Type,
    handler_types: &Vec<Type>,
    result_type: &Type,
    mco: &AminicoroFns,
    generic_count: u32,
    resume_ids: &Vec<DefinitionId>,
) -> (r: Vec<Definition>)
    requires
        coro_fns_typed(*mco),
        resume_ids@.len() == case_shapes@.len(),
        forall|i: int|
            0 <= i < case_shapes@.len() ==> (#[trigger] resume_code(
                *mco,
                case_shapes@[i].op_return_type@,
                drive_id,
                drive_typ@,
                types_view(handler_types@),
                result_type@,
                generic_count,
            )).0.len() < u32::MAX,
    ensures
        r@.len() == case_shapes@.len(),
        forall|i: int|
            0 <= i < case_shapes@.len() ==> #[trigger] is_resume_function(
                r@[i],
                resume_ids@[i],
                *mco,
                case_shapes@[i].op_return_type@,
                drive_id,
                drive_typ@,
                types_view(handler_types@),
                result_type@,
                generic_count,
            ),
{
    let mut resumes: Vec<Definition> = Vec::new();
    let mut i: usize = 0;
    while i < case_shapes.len()
        invariant
            0 <= i <= case_shapes@.len(),
            coro_fns_typed(*mco),
            resume_ids@.len() == case_shapes@.len(),
            forall|k: int|
                0 <= k < case_shapes@.len() ==> (#[trigger] resume_code(
                    *mco,
                    case_shapes@[k].op_return_type@,
                    drive_id,
                    drive_typ@,
                    types_view(handler_types@),
                    result_type@,
                    generic_count,
                )).0.len() < u32::MAX,
            resumes@.len() == i,
            forall|k: int|
                0 <= k < i ==> #[trigger] is_resume_function(
                    resumes@[k],
                    resume_ids@[k],
                    *mco,
                    case_shapes@[k].op_return_type@,
                    drive_id,
                    drive_typ@,
                    types_view(handler_types@),
                    result_type@,
                    generic_count,
                ),
        decreases case_shapes@.len() - i,
    {
        let resume = generate_resume_function(
            case_shapes[i].op_return_type.clone(),
            drive_id,
            drive_typ.clone(),
            handler_types,
            result_type,
            mco,
            generic_count,
            resume_ids[i],
        );
        resumes.push(resume);
        i = i + 1;
    }
    resumes
}

/// Per-`handle` drive. The body coroutine is resumed in a loop. Each yield carries
/// (args, case_idx, target_coro) on the running coroutine's storage. The drive checks
/// `target == my_coro`: if so, it dispatches to the matching handler by `case_idx`;
/// otherwise it forwards the entire message bytewise to the parent coroutine, suspends the
/// parent, then transfers the result back and loops. Builds the drive `drive_id` (see
/// [is_drive_function]) and, for each case `i`, its resume function `resume_ids[i]`.
pub fn generate_drive_function(
    handler_types: &Vec<Type>,
    case_shapes: &Vec<CaseShape>,
    result_type: &Type,
    mco: &AminicoroFns,
    generic_count: u32,
    drive_id: DefinitionId,
    resume_ids: &Vec<DefinitionId>,
) -> (r: (Definition, Vec<Definition>))
    requires
        coro_fns_typed(*mco),
        case_shapes@.len() == handler_types@.len(),
        resume_ids@.len() == handler_types@.len(),
        handler_types@.len() + 8 <= u32::MAX,
        drive_layout(*mco, types_view(handler_types@), case_shapes@, resume_ids@, result_type@, generic_count).0.len()
            < u32::MAX,
        forall|i: int|
            0 <= i < case_shapes@.len() ==> (#[trigger] resume_code(
                *mco,
                case_shapes@[i].op_return_type@,
                drive_id,
                drive_type(types_view(handler_types@), result_type@),
                types_view(handler_types@),
                result_type@,
                generic_count,
            )).0.len() < u32::MAX,
    ensures
        is_drive_function(r.0, drive_id, *mco, types_view(handler_types@), case_shapes@, resume_ids@, result_type@, generic_count),
        r.1@.len() == handler_types@.len(),
        forall|i: int|
            0 <= i < handler_types@.len() ==> #[trigger] is_resume_function(
                r.1@[i],
                resume_ids@[i],
                *mco,
                case_shapes@[i].op_return_type@,
                drive_id,
                drive_type(types_view(handler_types@), result_type@),
                types_view(handler_types@),
                result_type@,
                generic_count,
            ),
{
    let ghost ht = types_view(handler_types@);
    let ghost nh = handler_types@.len();
    let ghost rt = result_type@;
    let ghost shapes = case_shapes@;
    let ghost rids = resume_ids@;
    let ghost layout = drive_layout(*mco, ht, shapes, rids, rt, generic_count);
    let ghost nd = layout.1;
    let ghost nc = layout.2;
    let ghost nf = layout.3;
    let ghost complete = pop_code(mco.pop.name@, mco.pop.typ@, drive_coro(), rt, 4);
    let ghost dispatch = dispatch_code(*mco, nd);
    let ghost forward = forward_code(*mco, dispatch.2, dispatch.1, nf);
    proof {
        lemma_cases_end(*mco, ht, shapes, rids, rt, generic_count, nh, nh, nc);
        assert(layout.0.len() == 4 + complete.0.len() + dispatch.0.len() + (nf - nc) + forward.len());
    }

    let drive_parameters = make_drive_parameters(handler_types);
    let drive_typ = ptr_fn(make_drive_parameters(handler_types), result_type.clone());
    let resume_functions = generate_resume_functions(
        case_shapes,
        drive_id,
        &drive_typ,
        handler_types,
        result_type,
        mco,
        generic_count,
        resume_ids,
    );

    let mut definition = Definition::new(Arc::new(String::from_str("handle_drive")), drive_id, generic_count, drive_typ);
    definition.blocks.set(0, Block::new(drive_parameters));
    let coro = Value::Parameter(BlockId(0), 0);
    let handler_parameters = make_handler_params(handler_types.len());

    let loop_header = BlockId(1);
    let dispatch_block = BlockId(2);
    let complete_block = BlockId(3);
    let my_dispatch_block = BlockId(4);
    let forward_block = BlockId(5);
    let final_block = BlockId(6);
    definition.blocks.push(Block::new(Vec::new()));
    definition.blocks.push(Block::new(Vec::new()));
    definition.blocks.push(Block::new(Vec::new()));
    definition.blocks.push(Block::new(Vec::new()));
    definition.blocks.push(Block::new(Vec::new()));
    let mut final_parameters: Vec<Type> = Vec::new();
    final_parameters.push(result_type.clone());
    proof {
        assert(types_view(final_parameters@) =~= seq![rt]);
        assert(types_view(Seq::<Type>::empty()) =~= Seq::<TypeView>::empty());
    }
    definition.blocks.push(Block::new(final_parameters));
    set_terminator(&mut definition, BlockId(0), Some(TerminatorInstruction::Jmp((loop_header, None))));
    let ghost d0 = definition;
    assert(d0.blocks@.len() == 7);

    // loop_header: resume my_coro; if suspended -> dispatch else -> complete
    emit_loop_header(&mut definition, loop_header, mco, dispatch_block, complete_block);
    let ghost d1 = definition;
    // complete_block: pop R, jmp final_block(R)
    emit_pop_and_jmp(&mut definition, complete_block, coro, result_type, final_block, mco);
    let ghost d2 = definition;
    // dispatch_block: pop target, pop case_idx, branch on (target == my_coro)
    let (target, case_idx) = emit_dispatch(&mut definition, dispatch_block, mco, my_dispatch_block, forward_block);
    let ghost d3 = definition;
    proof {
        lemma_code_added_then(d0, d1, d2, header_code(*mco), complete.0);
        lemma_code_added_then(d0, d2, d3, header_code(*mco) + complete.0, dispatch.0);
        lemma_code_added_nothing(d3, d3);
        assert(cases_code(*mco, ht, shapes, rids, rt, generic_count, 0, nc) =~= seq![]);
    }

    // my_dispatch_block: one case block per handler
    let mut switch: Vec<(u32, (BlockId, Option<Value>))> = Vec::new();
    let mut i: usize = 0;
    while i < handler_types.len()
        invariant
            0 <= i <= nh,
            nh == handler_types@.len(),
            nh + 8 <= u32::MAX,
            coro_fns_typed(*mco),
            case_shapes@.len() == nh,
            resume_ids@.len() == nh,
            ht == types_view(handler_types@),
            shapes == case_shapes@,
            rids == resume_ids@,
            rt == result_type@,
            handler_parameters@ == handler_params(nh),
            coro == drive_coro(),
            final_block == BlockId(6),
            nf == cases_end(*mco, ht, shapes, rids, rt, generic_count, nh, nc),
            nf + forward.len() < u32::MAX,
            definition.blocks@.len() == 7 + i,
            definition.instructions@.len() == cases_end(*mco, ht, shapes, rids, rt, generic_count, i as nat, nc),
            definition.instructions@.len() == definition.instruction_result_types@.len(),
            code_added(d3, definition, cases_code(*mco, ht, shapes, rids, rt, generic_count, i as nat, nc)),
            forall|x: int| 0 <= x < 7 ==> #[trigger] definition.blocks@[x] == d3.blocks@[x],
            forall|j: int|
                0 <= j < i ==> #[trigger] case_block_ok(definition, *mco, ht, shapes, rids, rt, generic_count, nc, j),
            switch@ == switch_cases(i as nat),
        decreases nh - i,
    {
        let ghost before = definition;
        let case_block = BlockId((7 + i) as u32);
        definition.blocks.push(Block::new(Vec::new()));
        let ghost pushed = definition;
        let resume_typ = make_resume_type(&case_shapes[i].op_return_type, result_type);
        let ghost start = cases_end(*mco, ht, shapes, rids, rt, generic_count, i as nat, nc);
        let ghost case = case_code(*mco, ht, shapes, rids, rt, generic_count, i as int, start);
        proof {
            lemma_cases_end(*mco, ht, shapes, rids, rt, generic_count, (i + 1) as nat, nh, nc);
            assert(cases_end(*mco, ht, shapes, rids, rt, generic_count, (i + 1) as nat, nc) == start + case.0.len());
        }
        emit_handler_case(
            &mut definition,
            case_block,
            coro,
            resume_ids[i],
            &resume_typ,
            handler_parameters[i],
            &handler_parameters,
            handler_types,
            &case_shapes[i],
            result_type,
            final_block,
            mco,
            generic_count,
        );
        switch.push((i as u32, (case_block, None)));
        proof {
            lemma_code_added_nothing(before, pushed);
            lemma_code_added_then(d3, before, pushed, cases_code(*mco, ht, shapes, rids, rt, generic_count, i as nat, nc), seq![]);
            assert(cases_code(*mco, ht, shapes, rids, rt, generic_count, i as nat, nc) + seq![]
                =~= cases_code(*mco, ht, shapes, rids, rt, generic_count, i as nat, nc));
            lemma_code_added_then(d3, pushed, definition, cases_code(*mco, ht, shapes, rids, rt, generic_count, i as nat, nc), case.0);
            assert(types_view(Seq::<Type>::empty()) =~= Seq::<TypeView>::empty());
            assert(id_range(start, case.0.len()) =~= seq![] + id_range(start, case.0.len()));
            assert(ht.len() == nh);
            assert(handler_params(ht.len())[i as int] == handler_parameters@[i as int]);
            assert(case.0 == handler_case_code(
                *mco,
                coro,
                resume_ids@[i as int],
                resume_typ@,
                handler_parameters@[i as int],
                handler_parameters@,
                types_view(handler_types@),
                types_view(case_shapes@[i as int].op_arg_types@),
                case_shapes@[i as int].handler_is_closure,
                result_type@,
                generic_count,
                pushed.instructions@.len(),
            ).0);
            assert(definition.blocks@[7 + i].instructions@ == id_range(start, case.0.len()));
            assert(types_view(definition.blocks@[7 + i].parameter_types@) == Seq::<TypeView>::empty());
            assert(definition.blocks@[7 + i].terminator == Some(TerminatorInstruction::Jmp((BlockId(6), Some(case.1)))));
            assert(case_block_ok(definition, *mco, ht, shapes, rids, rt, generic_count, nc, i as int));
            assert forall|j: int| 0 <= j < i + 1 implies #[trigger] case_block_ok(
                definition,
                *mco,
                ht,
                shapes,
                rids,
                rt,
                generic_count,
                nc,
                j,
            ) by {
                if j < i {
                    assert(definition.blocks@[7 + j] == before.blocks@[7 + j]);
                    assert(case_block_ok(before, *mco, ht, shapes, rids, rt, generic_count, nc, j));
                }
            }
            assert forall|x: int| 0 <= x < 7 implies #[trigger] definition.blocks@[x] == d3.blocks@[x] by {
                assert(definition.blocks@[x] == pushed.blocks@[x]);
                assert(before.blocks@[x] == d3.blocks@[x]);
            }
            assert(switch@ =~= switch_cases((i + 1) as nat));
        }
        i = i + 1;
    }
    let ghost d4 = definition;

    let unreachable_else = BlockId((7 + i) as u32);
    definition.blocks.push(Block::new(Vec::new()));
    set_terminator(&mut definition, unreachable_else, Some(TerminatorInstruction::Unreachable));
    set_terminator(
        &mut definition,
        my_dispatch_block,
        Some(TerminatorInstruction::Switch { int_value: case_idx, cases: switch, else_: (unreachable_else, None), end: final_block }),
    );
    let ghost d5 = definition;

    // forward_block: relay to parent, then transfer the result back and loop.
    emit_forward(&mut definition, forward_block, mco, case_idx, target, loop_header);
    let ghost d6 = definition;
    set_terminator(&mut definition, final_block, Some(TerminatorInstruction::Return(Value::Parameter(final_block, 0))));
    proof {
        lemma_code_added_nothing(d4, d5);
        let cases_all = cases_code(*mco, ht, shapes, rids, rt, generic_count, nh, nc);
        lemma_code_added_then(d0, d3, d4, header_code(*mco) + complete.0 + dispatch.0, cases_all);
        lemma_code_added_then(d0, d4, d5, header_code(*mco) + complete.0 + dispatch.0 + cases_all, seq![]);
        assert(header_code(*mco) + complete.0 + dispatch.0 + cases_all + seq![] =~= header_code(*mco) + complete.0 + dispatch.0 + cases_all);
        lemma_code_added_then(d0, d5, d6, header_code(*mco) + complete.0 + dispatch.0 + cases_all, forward);
        lemma_code_added_nothing(d6, definition);
        lemma_code_added_then(d0, d6, definition, layout.0, seq![]);
        assert(layout.0 + seq![] =~= layout.0);
        lemma_holds_code(d0, definition, layout.0);
        assert(types_view(Seq::<Type>::empty()) =~= Seq::<TypeView>::empty());
        // the fixed blocks
        assert(definition.blocks@[0] == d0.blocks@[0]);
        assert(id_range(0, 0) =~= Seq::<InstructionId>::empty());
        assert(id_range(0, 4) =~= seq![] + id_range(0, 4));
        assert(id_range(4, complete.0.len()) =~= seq![] + id_range(4, complete.0.len()));
        assert(id_range(nd, dispatch.0.len()) =~= seq![] + id_range(nd, dispatch.0.len()));
        assert(id_range(nf, forward.len()) =~= seq![] + id_range(nf, forward.len()));
        assert(id_range(nf + forward.len(), 0) =~= Seq::<InstructionId>::empty());
        assert(definition.blocks@[1] == d1.blocks@[1]);
        assert(definition.blocks@[2] == d3.blocks@[2]);
        assert(definition.blocks@[3] == d2.blocks@[3]);
        assert forall|j: int| 0 <= j < nh implies #[trigger] case_block_ok(
            definition,
            *mco,
            ht,
            shapes,
            rids,
            rt,
            generic_count,
            nc,
            j,
        ) by {
            assert(definition.blocks@[7 + j] == d4.blocks@[7 + j]);
            assert(case_block_ok(d4, *mco, ht, shapes, rids, rt, generic_count, nc, j));
        }
    }
    (definition, resume_functions)
}

} // verus!
