//! The parts of effect lowering that the handler optimizations share: the shape of a handler's
//! type, following a value back to the definition it names, the coroutine primitives, and
//! emitting new instructions into a definition.
use crate::mir::definition::{Block, Definition};
use crate::mir::instruction::{GenericBindings, HandlerCase, Instruction, InstructionView, clone_values};
use crate::mir::types::{
    FunctionType, FunctionTypeView, IntegerKind, PrimitiveType, Type, TypeView, arc_clone, clone_types,
    lemma_types_view, spec_is_closure, types_view,
};
use crate::mir::values::{BlockId, DefinitionId, InstructionId, Value};
use std::sync::Arc;
use vstd::prelude::*;
use vstd::string::StringExecFns;

verus! {

/// An aminicoro primitive: its C name and its MIR function type.
pub struct AminicoroFn {
    pub name: &'static str,
    pub typ: Type,
}

pub struct AminicoroFns {
    pub init: AminicoroFn,
    pub free: AminicoroFn,
    pub is_suspended: AminicoroFn,
    pub push: AminicoroFn,
    pub pop: AminicoroFn,
    pub suspend: AminicoroFn,
    pub resume: AminicoroFn,
    pub get_user_data: AminicoroFn,
    pub running: AminicoroFn,
    pub bytes_stored: AminicoroFn,
    pub transfer: AminicoroFn,
}

/// The type of a plain function (no closure environment) with the given parameters and return.
pub open spec fn spec_ptr_fn(parameters: Seq<TypeView>, return_type: TypeView) -> TypeView {
    TypeView::Function(
        Box::new(
            FunctionTypeView {
                parameters,
                environment: TypeView::Primitive(PrimitiveType::NoClosureEnv),
                return_type,
            },
        ),
    )
}

/// A function type without a closure environment.
pub fn ptr_fn(parameters: Vec<Type>, return_type: Type) -> (r: Type)
    ensures
        r@ == spec_ptr_fn(types_view(parameters@), return_type@),
{
    let environment = Type::no_closure_env();
    assert(environment@ == TypeView::Primitive(PrimitiveType::NoClosureEnv));
    let r = Type::Function(Arc::new(FunctionType { parameters, environment, return_type }));
    assert(r@ == spec_ptr_fn(types_view(parameters@), return_type@));
    r
}

pub open spec fn pointer_view() -> TypeView {
    TypeView::Primitive(PrimitiveType::Pointer)
}

pub open spec fn int_view(kind: IntegerKind) -> TypeView {
    TypeView::Primitive(PrimitiveType::Int(kind))
}

fn types2(a: Type, b: Type) -> (r: Vec<Type>)
    ensures
        types_view(r@) == seq![a@, b@],
{
    let mut v: Vec<Type> = Vec::new();
    v.push(a);
    v.push(b);
    proof {
        lemma_types_view(v@);
        assert(types_view(v@) =~= seq![a@, b@]);
    }
    v
}

fn types3(a: Type, b: Type, c: Type) -> (r: Vec<Type>)
    ensures
        types_view(r@) == seq![a@, b@, c@],
{
    let mut v: Vec<Type> = Vec::new();
    v.push(a);
    v.push(b);
    v.push(c);
    proof {
        lemma_types_view(v@);
        assert(types_view(v@) =~= seq![a@, b@, c@]);
    }
    v
}

fn types1(a: Type) -> (r: Vec<Type>)
    ensures
        types_view(r@) == seq![a@],
{
    let mut v: Vec<Type> = Vec::new();
    v.push(a);
    proof {
        lemma_types_view(v@);
        assert(types_view(v@) =~= seq![a@]);
    }
    v
}

/// The aminicoro coroutine primitives that effect lowering calls.
pub fn aminicoro_fns() -> (r: AminicoroFns)
    ensures
        r.init.name@ == "mco_coro_init"@,
        r.init.typ@ == spec_ptr_fn(seq![pointer_view(), pointer_view()], pointer_view()),
        r.free.name@ == "mco_coro_free"@,
        r.free.typ@ == spec_ptr_fn(seq![pointer_view()], int_view(IntegerKind::U8)),
        r.is_suspended.name@ == "mco_coro_is_suspended"@,
        r.is_suspended.typ@ == spec_ptr_fn(seq![pointer_view()], TypeView::Primitive(PrimitiveType::Bool)),
        r.push.name@ == "mco_coro_push"@,
        r.push.typ@ == spec_ptr_fn(
            seq![pointer_view(), pointer_view(), int_view(IntegerKind::Usz)],
            int_view(IntegerKind::U8),
        ),
        r.pop.name@ == "mco_coro_pop"@,
        r.pop.typ@ == spec_ptr_fn(
            seq![pointer_view(), pointer_view(), int_view(IntegerKind::Usz)],
            int_view(IntegerKind::U8),
        ),
        r.suspend.name@ == "mco_coro_suspend"@,
        r.suspend.typ@ == spec_ptr_fn(seq![pointer_view()], int_view(IntegerKind::U8)),
        r.resume.name@ == "mco_coro_resume"@,
        r.resume.typ@ == spec_ptr_fn(seq![pointer_view()], int_view(IntegerKind::U8)),
        r.get_user_data.name@ == "mco_coro_get_user_data"@,
        r.get_user_data.typ@ == spec_ptr_fn(seq![pointer_view()], pointer_view()),
        r.running.name@ == "mco_coro_running"@,
        r.running.typ@ == spec_ptr_fn(seq![], pointer_view()),
        r.bytes_stored.name@ == "mco_coro_bytes_stored"@,
        r.bytes_stored.typ@ == spec_ptr_fn(seq![pointer_view()], int_view(IntegerKind::Usz)),
        r.transfer.name@ == "mco_coro_transfer"@,
        r.transfer.typ@ == spec_ptr_fn(
            seq![pointer_view(), pointer_view(), int_view(IntegerKind::Usz)],
            int_view(IntegerKind::U8),
        ),
{
    let u8_t = Type::integer(IntegerKind::U8);
    let usize_t = Type::integer(IntegerKind::Usz);
    proof {
        lemma_types_view(Seq::<Type>::empty());
        assert(types_view(Seq::<Type>::empty()) =~= Seq::<TypeView>::empty());
    }
    AminicoroFns {
        init: AminicoroFn { name: "mco_coro_init", typ: ptr_fn(types2(Type::pointer(), Type::pointer()), Type::pointer()) },
        free: AminicoroFn { name: "mco_coro_free", typ: ptr_fn(types1(Type::pointer()), u8_t.clone()) },
        is_suspended: AminicoroFn { name: "mco_coro_is_suspended", typ: ptr_fn(types1(Type::pointer()), Type::bool_type()) },
        push: AminicoroFn {
            name: "mco_coro_push",
            typ: ptr_fn(types3(Type::pointer(), Type::pointer(), usize_t.clone()), u8_t.clone()),
        },
        pop: AminicoroFn {
            name: "mco_coro_pop",
            typ: ptr_fn(types3(Type::pointer(), Type::pointer(), usize_t.clone()), u8_t.clone()),
        },
        suspend: AminicoroFn { name: "mco_coro_suspend", typ: ptr_fn(types1(Type::pointer()), u8_t.clone()) },
        resume: AminicoroFn { name: "mco_coro_resume", typ: ptr_fn(types1(Type::pointer()), u8_t.clone()) },
        get_user_data: AminicoroFn { name: "mco_coro_get_user_data", typ: ptr_fn(types1(Type::pointer()), Type::pointer()) },
        running: AminicoroFn { name: "mco_coro_running", typ: ptr_fn(Vec::new(), Type::pointer()) },
        bytes_stored: AminicoroFn { name: "mco_coro_bytes_stored", typ: ptr_fn(types1(Type::pointer()), usize_t.clone()) },
        transfer: AminicoroFn {
            name: "mco_coro_transfer",
            typ: ptr_fn(types3(Type::pointer(), Type::pointer(), usize_t), u8_t),
        },
    }
}

/// Whether values of the type take no space: unit, no closure environment, and tuples of such.
pub open spec fn spec_is_zero_sized(t: TypeView) -> bool
    decreases t,
{
    match t {
        TypeView::Primitive(PrimitiveType::Unit) | TypeView::Primitive(PrimitiveType::NoClosureEnv) => true,
        TypeView::Tuple(fields) => spec_all_zero_sized(fields),
        _ => false,
    }
}

pub open spec fn spec_all_zero_sized(s: Seq<TypeView>) -> bool
    decreases s,
{
    s.len() == 0 || (spec_is_zero_sized(s[0]) && spec_all_zero_sized(s.subrange(1, s.len() as int)))
}

proof fn lemma_all_zero_sized(s: Seq<TypeView>)
    ensures
        spec_all_zero_sized(s) <==> forall|i: int| 0 <= i < s.len() ==> spec_is_zero_sized(#[trigger] s[i]),
    decreases s.len(),
{
    if s.len() > 0 {
        let rest = s.subrange(1, s.len() as int);
        lemma_all_zero_sized(rest);
        if forall|i: int| 0 <= i < s.len() ==> spec_is_zero_sized(#[trigger] s[i]) {
            assert forall|i: int| 0 <= i < rest.len() implies spec_is_zero_sized(#[trigger] rest[i]) by {
                assert(rest[i] == s[i + 1]);
            }
        }
        if spec_all_zero_sized(s) {
            assert forall|i: int| 0 <= i < s.len() implies spec_is_zero_sized(#[trigger] s[i]) by {
                if i > 0 {
                    assert(rest[i - 1] == s[i]);
                }
            }
        }
    }
}

/// Whether values of the type take no space.
pub fn is_zero_sized(typ: &Type) -> (r: bool)
    ensures
        r == spec_is_zero_sized(typ@),
    decreases typ,
{
    match typ {
        Type::Primitive(PrimitiveType::Unit) | Type::Primitive(PrimitiveType::NoClosureEnv) => true,
        Type::Tuple(fields) => all_zero_sized(fields),
        _ => false,
    }
}

fn all_zero_sized(types: &Vec<Type>) -> (r: bool)
    ensures
        r == spec_all_zero_sized(types_view(types@)),
    decreases types,
{
    proof {
        lemma_types_view(types@);
        lemma_all_zero_sized(types_view(types@));
    }
    let mut i: usize = 0;
    while i < types.len()
        invariant
            0 <= i <= types@.len(),
            types_view(types@).len() == types@.len(),
            forall|j: int| 0 <= j < types@.len() ==> #[trigger] types_view(types@)[j] == types@[j]@,
            forall|j: int| 0 <= j < i ==> spec_is_zero_sized(#[trigger] types_view(types@)[j]),
            spec_all_zero_sized(types_view(types@)) <==> forall|j: int|
                0 <= j < types@.len() ==> spec_is_zero_sized(#[trigger] types_view(types@)[j]),
        decreases types@.len() - i,
    {
        if !is_zero_sized(&types[i]) {
            proof {
                assert(!spec_is_zero_sized(types_view(types@)[i as int]));
            }
            return false;
        }
        i = i + 1;
    }
    true
}

/// Op-shape info extracted from a handler's MIR type.
/// Handlers are typed `fn op_args.., resume -> result`, where resume is
/// `fn r1 [Pointer] -> result`. We extract `op_args` and `r1`.
pub struct CaseShape {
    pub op_arg_types: Vec<Type>,
    /// The op's return type (= resume's parameter type).
    pub op_return_type: Type,
    pub handler_is_closure: bool,
}

/// The handler type has the shape `fn op_args.., resume [env] -> r` with a function `resume`.
pub open spec fn is_handler_type(t: Type) -> bool {
    &&& t is Function
    &&& t->Function_0.parameters@.len() > 0
    &&& t->Function_0.parameters@.last() is Function
}

/// The shape of a handler of type `t`: its operation's argument types, the type resume takes
/// (unit when it takes nothing), and whether the handler is a closure.
pub open spec fn shape_of(t: Type, shape: CaseShape) -> bool {
    let ft = t->Function_0;
    let resume = ft.parameters@.last()->Function_0;
    &&& shape.op_arg_types@ == ft.parameters@.drop_last()
    &&& shape.op_return_type == if resume.parameters@.len() > 0 {
        resume.parameters@[0]
    } else {
        Type::Primitive(PrimitiveType::Unit)
    }
    &&& shape.handler_is_closure == spec_is_closure(ft@)
}

pub fn case_shape_from_handler_type(handler_type: &Type) -> (r: Option<CaseShape>)
    ensures
        is_handler_type(*handler_type) ==> r is Some && shape_of(*handler_type, r->0),
        !is_handler_type(*handler_type) ==> r is None,
{
    let ft = match handler_type {
        Type::Function(ft) => ft,
        _ => return None,
    };
    let n = ft.parameters.len();
    if n == 0 {
        return None;
    }
    let resume_ft = match &ft.parameters[n - 1] {
        Type::Function(resume_ft) => resume_ft,
        _ => return None,
    };
    let op_return_type = if resume_ft.parameters.len() > 0 {
        resume_ft.parameters[0].clone()
    } else {
        Type::unit()
    };
    let mut op_arg_types: Vec<Type> = Vec::new();
    let mut i: usize = 0;
    while i < n - 1
        invariant
            0 <= i <= n - 1,
            n == ft.parameters@.len(),
            op_arg_types@ == ft.parameters@.subrange(0, i as int),
        decreases n - 1 - i,
    {
        op_arg_types.push(ft.parameters[i].clone());
        i = i + 1;
        proof {
            assert(op_arg_types@ =~= ft.parameters@.subrange(0, i as int));
        }
    }
    Some(CaseShape { op_arg_types, op_return_type, handler_is_closure: ft.is_closure() })
}

/// Where following `Id` instructions from `v` leads: the first value that is not the result of
/// an `Id` instruction. `None` where the chain leaves the definition's instructions or is longer
/// than `fuel`.
pub open spec fn follow_ids(v: Value, instructions: Seq<Instruction>, fuel: nat) -> Option<Value>
    decreases fuel,
{
    match v {
        Value::InstructionResult(iid) => if iid.0 >= instructions.len() {
            None
        } else {
            match instructions[iid.0 as int] {
                Instruction::Id(inner) => if fuel == 0 {
                    None
                } else {
                    follow_ids(inner, instructions, (fuel - 1) as nat)
                },
                _ => Some(v),
            }
        },
        _ => Some(v),
    }
}

/// The chain of `Id`s from `v` ends within the definition; it is then at most as long as there
/// are instructions.
pub open spec fn ids_resolve(v: Value, instructions: Seq<Instruction>) -> bool {
    follow_ids(v, instructions, instructions.len()) is Some
}

/// The definition and generic bindings that a value resolves to after following `Id`s: a
/// definition itself, or an `Instantiate` of one.
pub open spec fn spec_resolve_id(v: Value, instructions: Seq<Instruction>) -> Option<
    (DefinitionId, Option<Arc<GenericBindings>>),
> {
    match follow_ids(v, instructions, instructions.len()) {
        Some(Value::Definition(id)) => Some((id, None)),
        Some(Value::InstructionResult(iid)) => match instructions[iid.0 as int] {
            Instruction::Instantiate(id, bindings) => Some((id, Some(bindings))),
            _ => None,
        },
        _ => None,
    }
}

fn follow(value: Value, definition: &Definition, Ghost(fuel): Ghost<nat>) -> (r: Value)
    requires
        follow_ids(value, definition.instructions@, fuel) is Some,
    ensures
        follow_ids(value, definition.instructions@, fuel) == Some(r),
        r matches Value::InstructionResult(iid) ==> iid.0 < definition.instructions@.len(),
    decreases fuel,
{
    match value {
        Value::InstructionResult(iid) => {
            assert(iid.0 < definition.instructions@.len());
            match &definition.instructions[iid.0 as usize] {
                Instruction::Id(inner) => follow(*inner, definition, Ghost((fuel - 1) as nat)),
                _ => value,
            }
        },
        _ => value,
    }
}

/// Follows `value` through `Id` instructions to the definition it names, with the generic
/// bindings of the `Instantiate` that names it, if any. `None` where it leads to anything else.
pub fn resolve_id(value: Value, definition: &Definition) -> (r: Option<(DefinitionId, Option<Arc<GenericBindings>>)>)
    requires
        ids_resolve(value, definition.instructions@),
    ensures
        r == spec_resolve_id(value, definition.instructions@),
{
    let end = follow(value, definition, Ghost(definition.instructions@.len()));
    match end {
        Value::Definition(id) => Some((id, None)),
        Value::InstructionResult(iid) => match &definition.instructions[iid.0 as usize] {
            Instruction::Instantiate(id, bindings) => Some((*id, Some(arc_clone(bindings)))),
            _ => None,
        },
        _ => None,
    }
}

/// The value a handle body or handler is a closure of: the function of a `PackClosure`
/// instruction and its environment, or the value itself with no environment.
pub open spec fn spec_unpack(v: Value, instructions: Seq<Instruction>) -> (Value, Option<Value>) {
    match v {
        Value::InstructionResult(iid) => match instructions[iid.0 as int] {
            Instruction::PackClosure { function, environment } => (function, Some(environment)),
            _ => (v, None),
        },
        _ => (v, None),
    }
}

/// The closure unpacking of `v` can be looked at: a result value names an instruction.
pub open spec fn unpack_in_bounds(v: Value, instructions: Seq<Instruction>) -> bool {
    v is InstructionResult ==> v->InstructionResult_0.0 < instructions.len()
}

/// Resolves a `handle` body Value to its `DefinitionId`, env value, and generic bindings, if any.
/// The body must resolve to a definition or an instantiation of one.
pub fn resolve_body_function(body: Value, definition: &Definition) -> (r: (DefinitionId, Option<Value>, Option<Arc<GenericBindings>>))
    requires
        unpack_in_bounds(body, definition.instructions@),
        ids_resolve(spec_unpack(body, definition.instructions@).0, definition.instructions@),
        spec_resolve_id(spec_unpack(body, definition.instructions@).0, definition.instructions@) is Some,
    ensures
        ({
            let (function, env) = spec_unpack(body, definition.instructions@);
            let (id, bindings) = spec_resolve_id(function, definition.instructions@)->0;
            r == (id, env, bindings)
        }),
{
    let mut function = body;
    let mut env: Option<Value> = None;
    if let Value::InstructionResult(instruction) = body {
        if let Instruction::PackClosure { function: f, environment } = &definition.instructions[instruction.0 as usize] {
            function = *f;
            env = Some(*environment);
        }
    }
    let (id, bindings) = resolve_id(function, definition).unwrap();
    (id, env, bindings)
}

/// Where an [Emitter] puts the instructions it emits: at the end of a block, or on a list of
/// its own that the caller splices in later.
pub enum EmitTarget {
    Block(BlockId),
    Pending,
}

/// Appends new instructions to a definition.
pub struct Emitter {
    pub target: EmitTarget,
    /// The instructions emitted so far when the target is [EmitTarget::Pending].
    pub pending: Vec<InstructionId>,
}

/// The definition can take one more instruction, with an id that fits in a `u32`, and the
/// emitter's target block exists.
pub open spec fn can_emit(e: Emitter, d: Definition) -> bool {
    &&& d.instructions@.len() == d.instruction_result_types@.len()
    &&& d.instructions@.len() < u32::MAX
    &&& e.target matches EmitTarget::Block(b) ==> b.0 < d.blocks@.len()
}

/// `new_d` and `new_e` are `d` and `e` with instruction `id` appended where `e` puts
/// instructions; everything else about the blocks is unchanged.
pub open spec fn appended(e: Emitter, d: Definition, new_e: Emitter, new_d: Definition, id: InstructionId) -> bool {
    &&& new_e.target == e.target
    &&& new_d.blocks@.len() == d.blocks@.len()
    &&& match e.target {
        EmitTarget::Block(b) => {
            &&& new_e.pending@ == e.pending@
            &&& new_d.blocks@[b.0 as int].instructions@ == d.blocks@[b.0 as int].instructions@.push(id)
            &&& new_d.blocks@[b.0 as int].parameter_types == d.blocks@[b.0 as int].parameter_types
            &&& new_d.blocks@[b.0 as int].terminator == d.blocks@[b.0 as int].terminator
            &&& forall|x: int| 0 <= x < d.blocks@.len() && x != b.0 ==> #[trigger] new_d.blocks@[x] == d.blocks@[x]
        },
        EmitTarget::Pending => {
            &&& new_e.pending@ == e.pending@.push(id)
            &&& new_d.blocks == d.blocks
        },
    }
}

/// Appends instruction `id` to the end of block `block`.
pub fn append_to_block(definition: &mut Definition, block: BlockId, id: InstructionId)
    requires
        block.0 < old(definition).blocks@.len(),
    ensures
        final(definition).blocks@.len() == old(definition).blocks@.len(),
        final(definition).blocks@[block.0 as int].instructions@ == old(definition).blocks@[block.0 as int].instructions@.push(id),
        final(definition).blocks@[block.0 as int].parameter_types == old(definition).blocks@[block.0 as int].parameter_types,
        final(definition).blocks@[block.0 as int].terminator == old(definition).blocks@[block.0 as int].terminator,
        forall|x: int| 0 <= x < old(definition).blocks@.len() && x != block.0 ==> #[trigger] final(definition).blocks@[x]
            == old(definition).blocks@[x],
        final(definition).instructions == old(definition).instructions,
        final(definition).instruction_result_types == old(definition).instruction_result_types,
        final(definition).name == old(definition).name,
        final(definition).id == old(definition).id,
        final(definition).typ == old(definition).typ,
        final(definition).generic_count == old(definition).generic_count,
{
    let mut b = Block::new(Vec::new());
    std::mem::swap(&mut b, &mut definition.blocks[block.0 as usize]);
    b.instructions.push(id);
    definition.blocks.set(block.0 as usize, b);
}

/// The type of what a function of type `t` returns.
pub open spec fn return_view(t: TypeView) -> TypeView {
    match t {
        TypeView::Function(f) => f.return_type,
        _ => TypeView::Primitive(PrimitiveType::Unit),
    }
}

pub open spec fn usz_view() -> TypeView {
    TypeView::Primitive(PrimitiveType::Int(IntegerKind::Usz))
}

/// What [Emitter::call_extern] emits when the definition has `n` instructions: the extern
/// function `name` of type `typ`, then a call of it with `arguments`.
pub open spec fn extern_call_code(name: Seq<char>, typ: TypeView, arguments: Seq<Value>, n: nat) -> Seq<(InstructionView, TypeView)> {
    seq![
        (InstructionView::Extern(name), typ),
        (InstructionView::Call { function: Value::InstructionResult(InstructionId(n as u32)), arguments }, return_view(typ)),
    ]
}

/// The emitter can take the instructions of a code of length `len`.
pub open spec fn room_for(e: Emitter, d: Definition, len: nat) -> bool {
    &&& d.instructions@.len() == d.instruction_result_types@.len()
    &&& d.instructions@.len() + len < u32::MAX
    &&& e.target matches EmitTarget::Block(b) ==> b.0 < d.blocks@.len()
}

/// What [Emitter::emit_definition_value] emits when the definition has `n` instructions, and
/// the value it returns: nothing and the definition itself without bindings, else an
/// `Instantiate` of it and that instruction's result.
pub open spec fn definition_value_code(
    id: DefinitionId,
    typ: TypeView,
    bindings: Option<Arc<GenericBindings>>,
    n: nat,
) -> (Seq<(InstructionView, TypeView)>, Value) {
    match bindings {
        Some(b) => (
            seq![(InstructionView::Instantiate(id, types_view(b@)), typ)],
            Value::InstructionResult(InstructionId(n as u32)),
        ),
        None => (seq![], Value::Definition(id)),
    }
}

/// The ids of `len` consecutive instructions starting at `n`.
pub open spec fn id_range(n: nat, len: nat) -> Seq<InstructionId> {
    Seq::new(len, |k: int| InstructionId((n + k) as u32))
}

/// `new_e` and `new_d` are `e` and `d` with the instructions `ids` put, in order, where `e`
/// puts instructions; nothing else about the blocks changes.
pub open spec fn placed(e: Emitter, d: Definition, new_e: Emitter, new_d: Definition, ids: Seq<InstructionId>) -> bool {
    &&& new_e.target == e.target
    &&& new_d.blocks@.len() == d.blocks@.len()
    &&& match e.target {
        EmitTarget::Block(b) => {
            &&& new_e.pending@ == e.pending@
            &&& new_d.blocks@[b.0 as int].instructions@ == d.blocks@[b.0 as int].instructions@ + ids
            &&& new_d.blocks@[b.0 as int].parameter_types == d.blocks@[b.0 as int].parameter_types
            &&& new_d.blocks@[b.0 as int].terminator == d.blocks@[b.0 as int].terminator
            &&& forall|x: int| 0 <= x < d.blocks@.len() && x != b.0 ==> #[trigger] new_d.blocks@[x] == d.blocks@[x]
        },
        EmitTarget::Pending => {
            &&& new_e.pending@ == e.pending@ + ids
            &&& new_d.blocks == d.blocks
        },
    }
}

/// `new_d` is `d` with the instructions of `code`, with their result types, added after its
/// own; nothing else about the definition but its blocks changes.
pub open spec fn code_added(d: Definition, new_d: Definition, code: Seq<(InstructionView, TypeView)>) -> bool {
    let n = d.instructions@.len();
    &&& new_d.instructions@.len() == n + code.len()
    &&& new_d.instruction_result_types@.len() == n + code.len()
    &&& new_d.instructions@.subrange(0, n as int) == d.instructions@
    &&& new_d.instruction_result_types@.subrange(0, n as int) == d.instruction_result_types@
    &&& forall|k: int| 0 <= k < code.len() ==> (#[trigger] new_d.instructions@[n + k])@ == code[k].0
    &&& forall|k: int| 0 <= k < code.len() ==> (#[trigger] new_d.instruction_result_types@[n + k])@ == code[k].1
    &&& new_d.name == d.name
    &&& new_d.id == d.id
    &&& new_d.typ == d.typ
    &&& new_d.generic_count == d.generic_count
}

/// `new_d` is `d` with the instructions of `code` added after its own, and `new_e` has put
/// them where `e` puts instructions.
pub open spec fn emitted(
    e: Emitter,
    d: Definition,
    new_e: Emitter,
    new_d: Definition,
    code: Seq<(InstructionView, TypeView)>,
) -> bool {
    &&& code_added(d, new_d, code)
    &&& placed(e, d, new_e, new_d, id_range(d.instructions@.len(), code.len()))
}

/// Emitting nothing.
pub proof fn lemma_emitted_nothing(e: Emitter, d: Definition)
    requires
        d.instructions@.len() == d.instruction_result_types@.len(),
    ensures
        emitted(e, d, e, d, seq![]),
{
    assert(d.instructions@.subrange(0, d.instructions@.len() as int) =~= d.instructions@);
    assert(d.instruction_result_types@.subrange(0, d.instructions@.len() as int) =~= d.instruction_result_types@);
    assert(id_range(d.instructions@.len(), 0) =~= Seq::<InstructionId>::empty());
    match e.target {
        EmitTarget::Block(b) => {
            assert(d.blocks@[b.0 as int].instructions@ + id_range(d.instructions@.len(), 0) =~= d.blocks@[b.0 as int].instructions@);
        },
        EmitTarget::Pending => {
            assert(e.pending@ + id_range(d.instructions@.len(), 0) =~= e.pending@);
        },
    }
}

/// Emitting `c1` and then `c2` emits `c1 + c2`.
pub proof fn lemma_emitted_then(
    e0: Emitter,
    d0: Definition,
    e1: Emitter,
    d1: Definition,
    e2: Emitter,
    d2: Definition,
    c1: Seq<(InstructionView, TypeView)>,
    c2: Seq<(InstructionView, TypeView)>,
)
    requires
        emitted(e0, d0, e1, d1, c1),
        emitted(e1, d1, e2, d2, c2),
    ensures
        emitted(e0, d0, e2, d2, c1 + c2),
{
    let n = d0.instructions@.len();
    let m = d1.instructions@.len();
    assert(m == n + c1.len());
    assert(d2.instructions@.subrange(0, n as int) =~= d0.instructions@) by {
        assert(d2.instructions@.subrange(0, n as int) =~= d2.instructions@.subrange(0, m as int).subrange(0, n as int));
    }
    assert(d2.instruction_result_types@.subrange(0, n as int) =~= d0.instruction_result_types@) by {
        assert(d2.instruction_result_types@.subrange(0, n as int) =~= d2.instruction_result_types@.subrange(0, m as int).subrange(0, n as int));
    }
    let c = c1 + c2;
    assert forall|k: int| 0 <= k < c.len() implies (#[trigger] d2.instructions@[n + k])@ == c[k].0 by {
        if k < c1.len() {
            assert(d2.instructions@[n + k] == d2.instructions@.subrange(0, m as int)[n + k]);
            assert(d1.instructions@[n + k]@ == c1[k].0);
        } else {
            let j = k - c1.len();
            assert(n + k == m + j);
            assert(d2.instructions@[m + j]@ == c2[j].0);
        }
    }
    assert forall|k: int| 0 <= k < c.len() implies (#[trigger] d2.instruction_result_types@[n + k])@ == c[k].1 by {
        if k < c1.len() {
            assert(d2.instruction_result_types@[n + k] == d2.instruction_result_types@.subrange(0, m as int)[n + k]);
            assert(d1.instruction_result_types@[n + k]@ == c1[k].1);
        } else {
            let j = k - c1.len();
            assert(n + k == m + j);
            assert(d2.instruction_result_types@[m + j]@ == c2[j].1);
        }
    }
    assert(id_range(n, c1.len()) + id_range(m, c2.len()) =~= id_range(n, c.len()));
    match e0.target {
        EmitTarget::Block(b) => {
            assert(d2.blocks@[b.0 as int].instructions@ =~= d0.blocks@[b.0 as int].instructions@ + id_range(n, c.len()));
            assert forall|x: int| 0 <= x < d0.blocks@.len() && x != b.0 implies #[trigger] d2.blocks@[x] == d0.blocks@[x] by {
                assert(d1.blocks@[x] == d0.blocks@[x]);
            }
        },
        EmitTarget::Pending => {
            assert(e2.pending@ =~= e0.pending@ + id_range(n, c.len()));
        },
    }
}

impl Emitter {
    pub fn in_block(block: BlockId) -> (r: Emitter)
        ensures
            r.target == EmitTarget::Block(block),
            r.pending@ == Seq::<InstructionId>::empty(),
    {
        Emitter { target: EmitTarget::Block(block), pending: Vec::new() }
    }

    pub fn pending() -> (r: Emitter)
        ensures
            r.target == EmitTarget::Pending,
            r.pending@ == Seq::<InstructionId>::empty(),
    {
        Emitter { target: EmitTarget::Pending, pending: Vec::new() }
    }

    /// Puts the existing instruction `id` where this emitter puts instructions.
    pub fn append_instruction(&mut self, definition: &mut Definition, id: InstructionId)
        requires
            old(self).target matches EmitTarget::Block(b) ==> b.0 < old(definition).blocks@.len(),
        ensures
            appended(*old(self), *old(definition), *final(self), *final(definition), id),
            final(definition).instructions == old(definition).instructions,
            final(definition).instruction_result_types == old(definition).instruction_result_types,
            final(definition).name == old(definition).name,
            final(definition).id == old(definition).id,
            final(definition).typ == old(definition).typ,
            final(definition).generic_count == old(definition).generic_count,
    {
        match &self.target {
            EmitTarget::Block(block) => append_to_block(definition, *block, id),
            EmitTarget::Pending => self.pending.push(id),
        }
    }

    /// Adds `instruction` with result type `result_type` to the definition, puts it where this
    /// emitter puts instructions, and returns its result.
    pub fn push_instruction(&mut self, definition: &mut Definition, instruction: Instruction, result_type: Type) -> (r: Value)
        requires
            can_emit(*old(self), *old(definition)),
        ensures
            r == Value::InstructionResult(InstructionId(old(definition).instructions@.len() as u32)),
            final(definition).instructions@ == old(definition).instructions@.push(instruction),
            final(definition).instruction_result_types@ == old(definition).instruction_result_types@.push(result_type),
            appended(*old(self), *old(definition), *final(self), *final(definition), InstructionId(old(definition).instructions@.len() as u32)),
            final(definition).name == old(definition).name,
            final(definition).id == old(definition).id,
            final(definition).typ == old(definition).typ,
            final(definition).generic_count == old(definition).generic_count,
            emitted(*old(self), *old(definition), *final(self), *final(definition), seq![(instruction@, result_type@)]),
    {
        let ghost code = seq![(instruction@, result_type@)];
        let id = InstructionId(definition.instructions.len() as u32);
        definition.instructions.push(instruction);
        definition.instruction_result_types.push(result_type);
        self.append_instruction(definition, id);
        proof {
            let n = old(definition).instructions@.len();
            assert(definition.instructions@.subrange(0, n as int) =~= old(definition).instructions@);
            assert(definition.instruction_result_types@.subrange(0, n as int) =~= old(definition).instruction_result_types@);
            assert(id_range(n, 1) =~= seq![id]);
            assert(definition.instructions@[n as int + 0] == instruction);
            assert(definition.instruction_result_types@[n as int + 0] == result_type);
            match old(self).target {
                EmitTarget::Block(b) => {
                    assert(definition.blocks@[b.0 as int].instructions@ =~= old(definition).blocks@[b.0 as int].instructions@
                        + id_range(n, 1));
                },
                EmitTarget::Pending => {
                    assert(self.pending@ =~= old(self).pending@ + id_range(n, 1));
                },
            }
        }
        Value::InstructionResult(id)
    }

    /// Replaces instruction `id` and its result type, and puts it where this emitter puts
    /// instructions.
    pub fn reuse_instruction(
        &mut self,
        definition: &mut Definition,
        id: InstructionId,
        instruction: Instruction,
        result_type: Type,
    ) -> (r: Value)
        requires
            id.0 < old(definition).instructions@.len(),
            id.0 < old(definition).instruction_result_types@.len(),
            old(self).target matches EmitTarget::Block(b) ==> b.0 < old(definition).blocks@.len(),
        ensures
            r == Value::InstructionResult(id),
            final(definition).instructions@ == old(definition).instructions@.update(id.0 as int, instruction),
            final(definition).instruction_result_types@ == old(definition).instruction_result_types@.update(id.0 as int, result_type),
            appended(*old(self), *old(definition), *final(self), *final(definition), id),
            final(definition).name == old(definition).name,
            final(definition).id == old(definition).id,
            final(definition).typ == old(definition).typ,
            final(definition).generic_count == old(definition).generic_count,
    {
        definition.instructions.set(id.0 as usize, instruction);
        definition.instruction_result_types.set(id.0 as usize, result_type);
        self.append_instruction(definition, id);
        Value::InstructionResult(id)
    }

    /// Emits `SizeOf(typ)`, of type `Usz`.
    pub fn emit_size_of(&mut self, definition: &mut Definition, typ: &Type) -> (r: Value)
        requires
            can_emit(*old(self), *old(definition)),
        ensures
            r == Value::InstructionResult(InstructionId(old(definition).instructions@.len() as u32)),
            emitted(*old(self), *old(definition), *final(self), *final(definition), seq![(InstructionView::SizeOf(typ@), usz_view())]),
    {
        self.push_instruction(definition, Instruction::SizeOf(typ.clone()), Type::integer(IntegerKind::Usz))
    }

    /// Returns `Value::Definition(target_id)` when `bindings` is None; otherwise emits
    /// an `Instruction::Instantiate(target_id, bindings)` and returns its result Value.
    pub fn emit_definition_value(
        &mut self,
        definition: &mut Definition,
        target_id: DefinitionId,
        target_typ: Type,
        bindings: Option<Arc<GenericBindings>>,
    ) -> (r: Value)
        requires
            can_emit(*old(self), *old(definition)),
        ensures
            r == definition_value_code(target_id, target_typ@, bindings, old(definition).instructions@.len()).1,
            emitted(
                *old(self),
                *old(definition),
                *final(self),
                *final(definition),
                definition_value_code(target_id, target_typ@, bindings, old(definition).instructions@.len()).0,
            ),
    {
        match bindings {
            Some(bindings) => self.push_instruction(definition, Instruction::Instantiate(target_id, bindings), target_typ),
            None => {
                proof {
                    lemma_emitted_nothing(*self, *definition);
                }
                Value::Definition(target_id)
            },
        }
    }

    /// Emits `Extern(function.name)` of the function's type and a call of it with `arguments`,
    /// of the function's return type; returns the call's result.
    pub fn call_extern(&mut self, definition: &mut Definition, function: &AminicoroFn, arguments: Vec<Value>) -> (r: Value)
        requires
            function.typ is Function,
            can_emit(*old(self), *old(definition)),
            old(definition).instructions@.len() + 1 < u32::MAX,
        ensures
            r == Value::InstructionResult(InstructionId((old(definition).instructions@.len() + 1) as u32)),
            emitted(
                *old(self),
                *old(definition),
                *final(self),
                *final(definition),
                extern_call_code(function.name@, function.typ@, arguments@, old(definition).instructions@.len()),
            ),
    {
        let ghost e0 = *self;
        let ghost d0 = *definition;
        let name = String::from_str(function.name);
        let function_value = self.push_instruction(definition, Instruction::Extern(name), function.typ.clone());
        let ghost e1 = *self;
        let ghost d1 = *definition;
        let return_type = match &function.typ {
            Type::Function(function_type) => function_type.return_type.clone(),
            _ => Type::unit(),
        };
        let call = Instruction::Call { function: function_value, arguments };
        let ghost call_view = call@;
        let r = self.push_instruction(definition, call, return_type);
        proof {
            lemma_emitted_then(
                e0,
                d0,
                e1,
                d1,
                *self,
                *definition,
                seq![(InstructionView::Extern(function.name@), function.typ@)],
                seq![(call_view, return_type@)],
            );
            assert(seq![(InstructionView::Extern(function.name@), function.typ@)] + seq![(call_view, return_type@)]
                =~= extern_call_code(function.name@, function.typ@, arguments@, d0.instructions@.len()));
        }
        r
    }
}


/// Every instruction id that a block lists names an instruction of the definition, and each
/// instruction has a result type.
pub open spec fn sites_well_formed(d: Definition) -> bool {
    &&& d.instructions@.len() == d.instruction_result_types@.len()
    &&& d.blocks@.len() <= u32::MAX
    &&& forall|b: int, k: int|
        0 <= b < d.blocks@.len() && 0 <= k < d.blocks@[b].instructions@.len() ==> (#[trigger] d.blocks@[b].instructions@[k]).0
            < d.instructions@.len()
}

/// The places, as (block, index within the block, instruction), of the instructions from
/// index `lo` up to `hi` of block `b` that satisfy `is_site`, last first.
pub open spec fn sites_in_block(
    d: Definition,
    b: int,
    lo: int,
    hi: int,
    is_site: spec_fn(Instruction) -> bool,
) -> Seq<(BlockId, usize, InstructionId)>
    decreases hi - lo,
{
    if lo >= hi {
        seq![]
    } else {
        let id = d.blocks@[b].instructions@[lo];
        let here: Seq<(BlockId, usize, InstructionId)> = if is_site(d.instructions@[id.0 as int]) {
            seq![(BlockId(b as u32), lo as usize, id)]
        } else {
            seq![]
        };
        sites_in_block(d, b, lo + 1, hi, is_site) + here
    }
}

/// The places of the instructions satisfying `is_site` in the first `nb` blocks: block by
/// block, and within a block from its last instruction to its first, so that rewriting them
/// in this order leaves the indices of the places still to come unchanged.
pub open spec fn sites_in_blocks(d: Definition, nb: int, is_site: spec_fn(Instruction) -> bool) -> Seq<
    (BlockId, usize, InstructionId),
>
    decreases nb,
{
    if nb <= 0 {
        seq![]
    } else {
        sites_in_blocks(d, nb - 1, is_site) + sites_in_block(d, nb - 1, 0, d.blocks@[nb - 1].instructions@.len() as int, is_site)
    }
}

pub open spec fn is_handle(i: Instruction) -> bool {
    i is Handle
}

pub open spec fn is_perform(i: Instruction) -> bool {
    i is Perform
}

/// A `Handle` instruction and where it stands.
pub struct HandleSite {
    pub block: BlockId,
    pub index: usize,
    pub id: InstructionId,
    pub body: Value,
    pub cases: Vec<HandlerCase>,
    pub result_type: Type,
}

/// A `Perform` instruction and where it stands.
pub struct PerformSite {
    pub block: BlockId,
    pub index: usize,
    pub id: InstructionId,
    pub op: DefinitionId,
    pub arguments: Vec<Value>,
}

/// `site` describes the `Handle` instruction at `place` of `d`.
pub open spec fn handle_site_matches(d: Definition, place: (BlockId, usize, InstructionId), site: HandleSite) -> bool {
    &&& site.block == place.0
    &&& site.index == place.1
    &&& site.id == place.2
    &&& d.instructions@[place.2.0 as int] matches Instruction::Handle { body, cases }
    &&& site.body == body
    &&& site.cases@ == cases@
    &&& site.result_type == d.instruction_result_types@[place.2.0 as int]
}

/// `site` describes the `Perform` instruction at `place` of `d`.
pub open spec fn perform_site_matches(d: Definition, place: (BlockId, usize, InstructionId), site: PerformSite) -> bool {
    &&& site.block == place.0
    &&& site.index == place.1
    &&& site.id == place.2
    &&& d.instructions@[place.2.0 as int] matches Instruction::Perform { effect_op, arguments }
    &&& site.op == effect_op
    &&& site.arguments@ == arguments@
}

fn clone_cases(cases: &Vec<HandlerCase>) -> (r: Vec<HandlerCase>)
    ensures
        r@ == cases@,
{
    let mut r: Vec<HandlerCase> = Vec::new();
    let mut i: usize = 0;
    while i < cases.len()
        invariant
            0 <= i <= cases@.len(),
            r@ == cases@.subrange(0, i as int),
        decreases cases@.len() - i,
    {
        r.push(cases[i]);
        i = i + 1;
    }
    assert(r@ =~= cases@);
    r
}

/// Every `Handle` of the definition with where it stands, block by block and, within a block,
/// last first, so that splicing replacements in that order keeps the later indices valid.
pub fn collect_handle_sites(definition: &Definition) -> (r: Vec<HandleSite>)
    requires
        sites_well_formed(*definition),
    ensures
        r@.len() == sites_in_blocks(*definition, definition.blocks@.len() as int, |i: Instruction| is_handle(i)).len(),
        forall|k: int|
            0 <= k < r@.len() ==> handle_site_matches(
                *definition,
                sites_in_blocks(*definition, definition.blocks@.len() as int, |i: Instruction| is_handle(i))[k],
                #[trigger] r@[k],
            ),
{
    let ghost is_site = |i: Instruction| is_handle(i);
    let ghost d = *definition;
    let mut sites: Vec<HandleSite> = Vec::new();
    let mut b: usize = 0;
    while b < definition.blocks.len()
        invariant
            0 <= b <= d.blocks@.len(),
            *definition == d,
            sites_well_formed(d),
            is_site == (|i: Instruction| is_handle(i)),
            sites@.len() == sites_in_blocks(d, b as int, is_site).len(),
            forall|k: int| 0 <= k < sites@.len() ==> handle_site_matches(d, sites_in_blocks(d, b as int, is_site)[k], #[trigger] sites@[k]),
        decreases d.blocks@.len() - b,
    {
        let block = &definition.blocks[b];
        let ghost before = sites@;
        let mut index: usize = block.instructions.len();
        while index > 0
            invariant
                0 <= index <= block.instructions@.len(),
                b < d.blocks@.len(),
                *block == d.blocks@[b as int],
                *definition == d,
                sites_well_formed(d),
                is_site == (|i: Instruction| is_handle(i)),
                before.len() == sites_in_blocks(d, b as int, is_site).len(),
                sites@.len() == before.len() + sites_in_block(d, b as int, index as int, block.instructions@.len() as int, is_site).len(),
                forall|k: int| 0 <= k < before.len() ==> #[trigger] sites@[k] == before[k],
                forall|k: int| 0 <= k < before.len() ==> handle_site_matches(d, sites_in_blocks(d, b as int, is_site)[k], #[trigger] before[k]),
                forall|k: int|
                    before.len() <= k < sites@.len() ==> handle_site_matches(
                        d,
                        sites_in_block(d, b as int, index as int, block.instructions@.len() as int, is_site)[k - before.len()],
                        #[trigger] sites@[k],
                    ),
            decreases index,
        {
            index = index - 1;
            let id = block.instructions[index];
            assert(id.0 < d.instructions@.len());
            if let Instruction::Handle { body, cases } = &definition.instructions[id.0 as usize] {
                sites.push(
                    HandleSite {
                        block: BlockId(b as u32),
                        index,
                        id,
                        body: *body,
                        cases: clone_cases(cases),
                        result_type: definition.instruction_result_types[id.0 as usize].clone(),
                    },
                );
            }
        }
        proof {
            assert(sites_in_blocks(d, b + 1, is_site) == sites_in_blocks(d, b as int, is_site) + sites_in_block(
                d,
                b as int,
                0,
                block.instructions@.len() as int,
                is_site,
            ));
        }
        b = b + 1;
    }
    sites
}

/// Every `Perform` of the definition with where it stands, in the order of
/// [collect_handle_sites].
pub fn collect_perform_sites(definition: &Definition) -> (r: Vec<PerformSite>)
    requires
        sites_well_formed(*definition),
    ensures
        r@.len() == sites_in_blocks(*definition, definition.blocks@.len() as int, |i: Instruction| is_perform(i)).len(),
        forall|k: int|
            0 <= k < r@.len() ==> perform_site_matches(
                *definition,
                sites_in_blocks(*definition, definition.blocks@.len() as int, |i: Instruction| is_perform(i))[k],
                #[trigger] r@[k],
            ),
{
    let ghost is_site = |i: Instruction| is_perform(i);
    let ghost d = *definition;
    let mut sites: Vec<PerformSite> = Vec::new();
    let mut b: usize = 0;
    while b < definition.blocks.len()
        invariant
            0 <= b <= d.blocks@.len(),
            *definition == d,
            sites_well_formed(d),
            is_site == (|i: Instruction| is_perform(i)),
            sites@.len() == sites_in_blocks(d, b as int, is_site).len(),
            forall|k: int| 0 <= k < sites@.len() ==> perform_site_matches(d, sites_in_blocks(d, b as int, is_site)[k], #[trigger] sites@[k]),
        decreases d.blocks@.len() - b,
    {
        let block = &definition.blocks[b];
        let ghost before = sites@;
        let mut index: usize = block.instructions.len();
        while index > 0
            invariant
                0 <= index <= block.instructions@.len(),
                b < d.blocks@.len(),
                *block == d.blocks@[b as int],
                *definition == d,
                sites_well_formed(d),
                is_site == (|i: Instruction| is_perform(i)),
                before.len() == sites_in_blocks(d, b as int, is_site).len(),
                sites@.len() == before.len() + sites_in_block(d, b as int, index as int, block.instructions@.len() as int, is_site).len(),
                forall|k: int| 0 <= k < before.len() ==> #[trigger] sites@[k] == before[k],
                forall|k: int| 0 <= k < before.len() ==> perform_site_matches(d, sites_in_blocks(d, b as int, is_site)[k], #[trigger] before[k]),
                forall|k: int|
                    before.len() <= k < sites@.len() ==> perform_site_matches(
                        d,
                        sites_in_block(d, b as int, index as int, block.instructions@.len() as int, is_site)[k - before.len()],
                        #[trigger] sites@[k],
                    ),
            decreases index,
        {
            index = index - 1;
            let id = block.instructions[index];
            assert(id.0 < d.instructions@.len());
            if let Instruction::Perform { effect_op, arguments } = &definition.instructions[id.0 as usize] {
                sites.push(PerformSite { block: BlockId(b as u32), index, id, op: *effect_op, arguments: clone_values(arguments) });
            }
        }
        proof {
            assert(sites_in_blocks(d, b + 1, is_site) == sites_in_blocks(d, b as int, is_site) + sites_in_block(
                d,
                b as int,
                0,
                block.instructions@.len() as int,
                is_site,
            ));
        }
        b = b + 1;
    }
    sites
}

} // verus!
