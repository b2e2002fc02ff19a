//! Lowering of `Handle`s whose handler cases never call resume into setjmp/longjmp-based code.
//! At each such site a `jmp_buf` and a result slot are stack-allocated, the handlers become
//! wrappers that store their value into the slot and `longjmp` back, and the containing block
//! is split to emit `_setjmp(buf)` and branch into either the body or straight to the merge
//! block, where the slot is loaded.
use crate::fx::{DefinitionMap, fx_map_insert};
use crate::mir::definition::{Block, Definition, same_block, same_terminator};
use crate::mir::effects::lowering::{
    CaseShape, EmitTarget, Emitter, HandleSite, code_added, definition_value_code, emitted, extern_call_code, lemma_emitted_nothing,
    lemma_emitted_then, pointer_view, room_for,
};
use crate::mir::effects::tail_resume::{OriginalEnvLayout, resume_parameter};
use crate::mir::instruction::{GenericBindings, HandlerCase, Instruction, InstructionView, TerminatorInstruction, instruction_values, terminator_values};
use crate::mir::types::{
    FunctionType, FunctionTypeView, IntegerKind, PrimitiveType, Type, TypeView, arc_clone, clone_types, lemma_types_view,
    types_view,
};
use crate::mir::values::{BlockId, DefinitionId, InstructionId, IntConstant, Value};
use std::sync::Arc;
use crate::text::{decimal, push_decimal};
use vstd::prelude::*;
use vstd::string::StringExecFns;

verus! {

/// Some instruction or terminator of `d` uses `v`.
pub open spec fn uses_value(d: Definition, v: Value) -> bool {
    ||| exists|i: int| 0 <= i < d.instructions@.len() && instruction_values(#[trigger] d.instructions@[i]@).contains(v)
    ||| exists|b: int|
        0 <= b < d.blocks@.len() && ((#[trigger] d.blocks@[b]).terminator matches Some(t) && terminator_values(t).contains(v))
}

fn contains(values: &Vec<Value>, v: Value) -> (r: bool)
    ensures
        r == values@.contains(v),
{
    let mut i: usize = 0;
    while i < values.len()
        invariant
            0 <= i <= values@.len(),
            forall|k: int| 0 <= k < i ==> values@[k] != v,
        decreases values@.len() - i,
    {
        if values[i] == v {
            return true;
        }
        i = i + 1;
    }
    false
}

/// True iff the handler's resume parameter is referenced nowhere in its body.
pub fn case_is_abort_only(handler_def: &Definition, shape: &CaseShape) -> (r: bool)
    requires
        shape.op_arg_types@.len() <= u32::MAX,
    ensures
        r == !uses_value(*handler_def, resume_parameter(shape.op_arg_types@.len())),
{
    let resume_param = Value::Parameter(BlockId::entry_block(), shape.op_arg_types.len() as u32);
    let ghost d = *handler_def;
    let ghost resume = resume_parameter(shape.op_arg_types@.len());
    assert(resume_param == resume);
    let mut uses_resume = false;
    let mut i: usize = 0;
    while i < handler_def.instructions.len()
        invariant
            0 <= i <= d.instructions@.len(),
            *handler_def == d,
            resume_param == resume,
            uses_resume <==> exists|k: int| 0 <= k < i && instruction_values(#[trigger] d.instructions@[k]@).contains(resume),
        decreases d.instructions@.len() - i,
    {
        let values = handler_def.instructions[i].for_each_value();
        if contains(&values, resume_param) {
            uses_resume = true;
        }
        i = i + 1;
    }
    let mut b: usize = 0;
    while b < handler_def.blocks.len()
        invariant
            0 <= b <= d.blocks@.len(),
            *handler_def == d,
            resume_param == resume,
            uses_resume <==> (exists|k: int| 0 <= k < d.instructions@.len() && instruction_values(#[trigger] d.instructions@[k]@).contains(resume))
                || exists|k: int|
                0 <= k < b && ((#[trigger] d.blocks@[k]).terminator matches Some(t) && terminator_values(t).contains(resume)),
        decreases d.blocks@.len() - b,
    {
        if let Some(t) = &handler_def.blocks[b].terminator {
            let values = t.for_each_value();
            if contains(&values, resume_param) {
                uses_resume = true;
            }
        }
        b = b + 1;
    }
    !uses_resume
}

/// The type a `jmp_buf` is given: 32 `u64`s, 256 bytes, which covers the common platforms.
pub open spec fn jmp_buf_view() -> TypeView {
    TypeView::Tuple(Seq::new(32, |_i: int| TypeView::Primitive(PrimitiveType::Int(IntegerKind::U64))))
}

/// 256 bytes should hopefully cover all common platforms. Windows seems to be the largest at
/// 256B.
pub fn jmp_buf_type() -> (r: Type)
    ensures
        r@ == jmp_buf_view(),
{
    let mut fields: Vec<Type> = Vec::new();
    let mut i: usize = 0;
    while i < 32
        invariant
            0 <= i <= 32,
            fields@.len() == i,
            forall|k: int| 0 <= k < i ==> (#[trigger] fields@[k])@ == TypeView::Primitive(PrimitiveType::Int(IntegerKind::U64)),
        decreases 32 - i,
    {
        fields.push(Type::integer(IntegerKind::U64));
        i = i + 1;
    }
    proof {
        lemma_types_view(fields@);
        assert(types_view(fields@) =~= jmp_buf_view()->Tuple_0);
    }
    Type::tuple(fields)
}

pub open spec fn i32_view() -> TypeView {
    TypeView::Primitive(PrimitiveType::Int(IntegerKind::I32))
}

/// The function type of `_setjmp`: `fn Ptr -> I32`.
pub open spec fn setjmp_view() -> TypeView {
    TypeView::Function(
        Box::new(
            FunctionTypeView {
                parameters: seq![pointer_view()],
                environment: TypeView::Primitive(PrimitiveType::NoClosureEnv),
                return_type: i32_view(),
            },
        ),
    )
}

/// What [emit_setjmp_test] emits when the definition has `n` instructions: `_setjmp`, its call
/// on `buf_ptr`, and the test of its result against zero.
pub open spec fn setjmp_test_code(buf_ptr: Value, n: nat) -> Seq<(InstructionView, TypeView)> {
    seq![
        (InstructionView::Extern("_setjmp"@), setjmp_view()),
        (InstructionView::Call { function: Value::InstructionResult(InstructionId(n as u32)), arguments: seq![buf_ptr] }, i32_view()),
        (
            InstructionView::EqInt(Value::InstructionResult(InstructionId((n + 1) as u32)), Value::Integer(IntConstant::I32(0))),
            TypeView::Primitive(PrimitiveType::Bool),
        ),
    ]
}

/// `idx = _setjmp(buf); is_zero = idx == 0`. LLVM's TargetLibraryInfo recognizes `_setjmp`
/// by name and applies returns_twice automatically.
pub fn emit_setjmp_test(e: &mut Emitter, definition: &mut Definition, buf_ptr: Value) -> (r: Value)
    requires
        room_for(*old(e), *old(definition), 3),
    ensures
        r == Value::InstructionResult(InstructionId((old(definition).instructions@.len() + 2) as u32)),
        emitted(*old(e), *old(definition), *final(e), *final(definition), setjmp_test_code(buf_ptr, old(definition).instructions@.len())),
{
    let ghost e0 = *e;
    let ghost d0 = *definition;
    let ghost n = definition.instructions@.len();
    let mut parameters: Vec<Type> = Vec::new();
    parameters.push(Type::pointer());
    let environment = Type::no_closure_env();
    let return_type = Type::integer(IntegerKind::I32);
    proof {
        lemma_types_view(parameters@);
        assert(types_view(parameters@) =~= seq![pointer_view()]);
        assert(environment@ == TypeView::Primitive(PrimitiveType::NoClosureEnv));
        assert(return_type@ == i32_view());
    }
    let setjmp_type = Type::Function(Arc::new(FunctionType { parameters, environment, return_type }));
    assert(setjmp_type@ == setjmp_view());
    let setjmp_extern = e.push_instruction(definition, Instruction::Extern(String::from_str("_setjmp")), setjmp_type);
    let ghost e1 = *e;
    let ghost d1 = *definition;
    let mut arguments: Vec<Value> = Vec::new();
    arguments.push(buf_ptr);
    let call = Instruction::Call { function: setjmp_extern, arguments };
    let ghost call_view = call@;
    let setjmp_idx = e.push_instruction(definition, call, Type::integer(IntegerKind::I32));
    let ghost e2 = *e;
    let ghost d2 = *definition;
    let test = Instruction::EqInt(setjmp_idx, Value::Integer(IntConstant::I32(0)));
    let r = e.push_instruction(definition, test, Type::bool_type());
    proof {
        reveal_strlit("_setjmp");
        let c1 = seq![(InstructionView::Extern("_setjmp"@), setjmp_view())];
        let c2 = seq![(call_view, i32_view())];
        let c3 = seq![(InstructionView::EqInt(setjmp_idx, Value::Integer(IntConstant::I32(0))), TypeView::Primitive(PrimitiveType::Bool))];
        lemma_emitted_then(e0, d0, e1, d1, e2, d2, c1, c2);
        lemma_emitted_then(e0, d0, e2, d2, *e, *definition, c1 + c2, c3);
        assert(c1 + c2 + c3 =~= setjmp_test_code(buf_ptr, n));
    }
    r
}

/// The parts of a block split at a `Handle`: the block that keeps what came before it, and what
/// came after it.
pub struct BlockSplit {
    pub original_block: BlockId,
    pub after_handle: Vec<InstructionId>,
    pub original_terminator: Option<TerminatorInstruction>,
}

/// Take instructions `[..handle_index]` + the prologue we built; everything after the Handle
/// (and the original terminator) gets stashed for the merge block.
pub fn split_block_at_handle(definition: &mut Definition, site: &HandleSite, prologue: Vec<InstructionId>) -> (r: BlockSplit)
    requires
        site.block.0 < old(definition).blocks@.len(),
        site.index < old(definition).blocks@[site.block.0 as int].instructions@.len(),
    ensures
        ({
            let b = site.block.0 as int;
            let old_block = old(definition).blocks@[b];
            &&& r.original_block == site.block
            &&& r.after_handle@ == old_block.instructions@.subrange(site.index + 1, old_block.instructions@.len() as int)
            &&& r.original_terminator == old_block.terminator
            &&& final(definition).blocks@.len() == old(definition).blocks@.len()
            &&& final(definition).blocks@[b].instructions@ == old_block.instructions@.subrange(0, site.index as int) + prologue@
            &&& final(definition).blocks@[b].parameter_types == old_block.parameter_types
            &&& final(definition).blocks@[b].terminator is None
            &&& forall|x: int| 0 <= x < old(definition).blocks@.len() && x != b ==> #[trigger] final(definition).blocks@[x] == old(definition).blocks@[x]
        }),
        final(definition).instructions == old(definition).instructions,
        final(definition).instruction_result_types == old(definition).instruction_result_types,
        final(definition).name == old(definition).name,
        final(definition).id == old(definition).id,
        final(definition).typ == old(definition).typ,
        final(definition).generic_count == old(definition).generic_count,
{
    let b = site.block.0 as usize;
    let mut block = Block::new(Vec::new());
    std::mem::swap(&mut block, &mut definition.blocks[b]);
    let ghost old_block = block;
    let mut kept: Vec<InstructionId> = Vec::new();
    let mut after_handle: Vec<InstructionId> = Vec::new();
    let mut i: usize = 0;
    while i < block.instructions.len()
        invariant
            0 <= i <= block.instructions@.len(),
            block == old_block,
            site.index < block.instructions@.len(),
            kept@ == block.instructions@.subrange(0, if i <= site.index { i as int } else { site.index as int }),
            after_handle@ == if i <= site.index + 1 {
                Seq::<InstructionId>::empty()
            } else {
                block.instructions@.subrange(site.index + 1, i as int)
            },
        decreases block.instructions@.len() - i,
    {
        if i < site.index {
            kept.push(block.instructions[i]);
        } else if i > site.index {
            after_handle.push(block.instructions[i]);
        }
        i = i + 1;
        proof {
            if i <= site.index {
                assert(kept@ =~= block.instructions@.subrange(0, i as int));
            }
            if i > site.index + 1 {
                assert(after_handle@ =~= block.instructions@.subrange(site.index + 1, i as int));
            }
        }
    }
    let mut p: usize = 0;
    let ghost kept0 = kept@;
    while p < prologue.len()
        invariant
            0 <= p <= prologue@.len(),
            kept@ == kept0 + prologue@.subrange(0, p as int),
        decreases prologue@.len() - p,
    {
        kept.push(prologue[p]);
        p = p + 1;
        proof {
            assert(kept@ =~= kept0 + prologue@.subrange(0, p as int));
        }
    }
    proof {
        assert(prologue@.subrange(0, p as int) =~= prologue@);
    }
    let original_terminator = block.terminator;
    definition.blocks.set(b, Block { parameter_types: block.parameter_types, instructions: kept, terminator: None });
    BlockSplit { original_block: site.block, after_handle, original_terminator }
}

/// Adds three empty blocks, the then, else and merge blocks of a branch, and gives their ids.
pub fn create_branch_blocks(definition: &mut Definition) -> (r: (BlockId, BlockId, BlockId))
    requires
        old(definition).blocks@.len() + 3 <= u32::MAX,
    ensures
        ({
            let n = old(definition).blocks@.len();
            &&& r == (BlockId(n as u32), BlockId((n + 1) as u32), BlockId((n + 2) as u32))
            &&& final(definition).blocks@.len() == n + 3
            &&& final(definition).blocks@.subrange(0, n as int) == old(definition).blocks@
            &&& forall|k: int| n <= k < n + 3 ==> (#[trigger] final(definition).blocks@[k]).parameter_types@.len() == 0
                && final(definition).blocks@[k].instructions@.len() == 0 && final(definition).blocks@[k].terminator is None
        }),
        final(definition).instructions == old(definition).instructions,
        final(definition).instruction_result_types == old(definition).instruction_result_types,
        final(definition).name == old(definition).name,
        final(definition).id == old(definition).id,
        final(definition).typ == old(definition).typ,
        final(definition).generic_count == old(definition).generic_count,
{
    let n = definition.blocks.len();
    let then_block = BlockId(n as u32);
    definition.blocks.push(Block::new(Vec::new()));
    let else_block = BlockId((n + 1) as u32);
    definition.blocks.push(Block::new(Vec::new()));
    let merge_block = BlockId((n + 2) as u32);
    definition.blocks.push(Block::new(Vec::new()));
    proof {
        assert(definition.blocks@.subrange(0, n as int) =~= old(definition).blocks@);
    }
    (then_block, else_block, merge_block)
}

/// Sets the terminator of block `block`.
pub fn set_terminator(definition: &mut Definition, block: BlockId, terminator: Option<TerminatorInstruction>)
    requires
        block.0 < old(definition).blocks@.len(),
    ensures
        final(definition).blocks@.len() == old(definition).blocks@.len(),
        final(definition).blocks@[block.0 as int].terminator == terminator,
        final(definition).blocks@[block.0 as int].instructions == old(definition).blocks@[block.0 as int].instructions,
        final(definition).blocks@[block.0 as int].parameter_types == old(definition).blocks@[block.0 as int].parameter_types,
        forall|x: int| 0 <= x < old(definition).blocks@.len() && x != block.0 ==> #[trigger] final(definition).blocks@[x] == old(definition).blocks@[x],
        final(definition).instructions == old(definition).instructions,
        final(definition).instruction_result_types == old(definition).instruction_result_types,
        final(definition).name == old(definition).name,
        final(definition).id == old(definition).id,
        final(definition).typ == old(definition).typ,
        final(definition).generic_count == old(definition).generic_count,
{
    let mut b = Block::new(Vec::new());
    std::mem::swap(&mut b, &mut definition.blocks[block.0 as usize]);
    b.terminator = terminator;
    definition.blocks.set(block.0 as usize, b);
}

/// What [fill_then_block] emits when the definition has `n` instructions: the call of the body
/// closure and the store of its result.
pub open spec fn then_block_code(body_closure: Value, result_slot_ptr: Value, result_type: TypeView, n: nat) -> Seq<
    (InstructionView, TypeView),
> {
    seq![
        (InstructionView::CallClosure { closure: body_closure, arguments: seq![Value::Unit] }, result_type),
        (
            InstructionView::Store { pointer: result_slot_ptr, value: Value::InstructionResult(InstructionId(n as u32)) },
            TypeView::Primitive(PrimitiveType::Unit),
        ),
    ]
}

/// then_block: `r = body(()); Store(slot, r); jmp merge_block`.
pub fn fill_then_block(
    definition: &mut Definition,
    then_block: BlockId,
    body_closure: Value,
    result_slot_ptr: Value,
    result_type: &Type,
    merge_block: BlockId,
)
    requires
        then_block.0 < old(definition).blocks@.len(),
        old(definition).instructions@.len() == old(definition).instruction_result_types@.len(),
        old(definition).instructions@.len() + 2 < u32::MAX,
    ensures
        ({
            let n = old(definition).instructions@.len();
            let code = then_block_code(body_closure, result_slot_ptr, result_type@, n);
            let b = then_block.0 as int;
            &&& final(definition).instructions@.len() == n + 2
            &&& final(definition).instructions@.subrange(0, n as int) == old(definition).instructions@
            &&& forall|k: int| 0 <= k < 2 ==> (#[trigger] final(definition).instructions@[n + k])@ == code[k].0
            &&& final(definition).instruction_result_types@ == old(definition).instruction_result_types@.push(*result_type).push(
                Type::Primitive(PrimitiveType::Unit),
            )
            &&& final(definition).blocks@.len() == old(definition).blocks@.len()
            &&& final(definition).blocks@[b].instructions@ == old(definition).blocks@[b].instructions@ + seq![
                InstructionId(n as u32),
                InstructionId((n + 1) as u32),
            ]
            &&& final(definition).blocks@[b].parameter_types == old(definition).blocks@[b].parameter_types
            &&& final(definition).blocks@[b].terminator == Some(TerminatorInstruction::Jmp((merge_block, None)))
            &&& forall|x: int| 0 <= x < old(definition).blocks@.len() && x != b ==> #[trigger] final(definition).blocks@[x] == old(definition).blocks@[x]
        }),
        final(definition).name == old(definition).name,
        final(definition).id == old(definition).id,
        final(definition).typ == old(definition).typ,
        final(definition).generic_count == old(definition).generic_count,
{
    let ghost d0 = *definition;
    let ghost n = definition.instructions@.len();
    let mut e = Emitter::in_block(then_block);
    let ghost e0 = e;
    let mut arguments: Vec<Value> = Vec::new();
    arguments.push(Value::Unit);
    let call = Instruction::CallClosure { closure: body_closure, arguments };
    let ghost call_view = call@;
    let body_call = e.push_instruction(definition, call, result_type.clone());
    let ghost e1 = e;
    let ghost d1 = *definition;
    e.push_instruction(definition, Instruction::Store { pointer: result_slot_ptr, value: body_call }, Type::unit());
    let ghost e2 = e;
    let ghost mid = *definition;
    proof {
        let c1 = seq![(call_view, result_type@)];
        let c2 = seq![(InstructionView::Store { pointer: result_slot_ptr, value: body_call }, TypeView::Primitive(PrimitiveType::Unit))];
        lemma_emitted_then(e0, d0, e1, d1, e2, mid, c1, c2);
        assert(c1 + c2 =~= then_block_code(body_closure, result_slot_ptr, result_type@, n));
        assert(mid.instruction_result_types@ =~= d0.instruction_result_types@.push(*result_type).push(
            Type::Primitive(PrimitiveType::Unit),
        ));
        assert(crate::mir::effects::lowering::id_range(n, 2) =~= seq![InstructionId(n as u32), InstructionId((n + 1) as u32)]);
    }
    set_terminator(definition, then_block, Some(TerminatorInstruction::jmp_no_args(merge_block)));
}

/// merge_block: reuse the original Handle's instruction id for `Deref(slot)`, then append the
/// instructions that lived after the Handle and the original block's terminator.
pub fn finalize_merge_block(
    definition: &mut Definition,
    merge_block: BlockId,
    handle_id: InstructionId,
    result_slot_ptr: Value,
    result_type: Type,
    split: BlockSplit,
)
    requires
        merge_block.0 < old(definition).blocks@.len(),
        handle_id.0 < old(definition).instructions@.len(),
        handle_id.0 < old(definition).instruction_result_types@.len(),
    ensures
        final(definition).instructions@ == old(definition).instructions@.update(handle_id.0 as int, Instruction::Deref(result_slot_ptr)),
        final(definition).instruction_result_types@ == old(definition).instruction_result_types@.update(handle_id.0 as int, result_type),
        final(definition).blocks@.len() == old(definition).blocks@.len(),
        final(definition).blocks@[merge_block.0 as int].instructions@ == old(definition).blocks@[merge_block.0 as int].instructions@.push(
            handle_id,
        ) + split.after_handle@,
        final(definition).blocks@[merge_block.0 as int].parameter_types == old(definition).blocks@[merge_block.0 as int].parameter_types,
        final(definition).blocks@[merge_block.0 as int].terminator == split.original_terminator,
        forall|x: int| 0 <= x < old(definition).blocks@.len() && x != merge_block.0 ==> #[trigger] final(definition).blocks@[x] == old(definition).blocks@[x],
        final(definition).name == old(definition).name,
        final(definition).id == old(definition).id,
        final(definition).typ == old(definition).typ,
        final(definition).generic_count == old(definition).generic_count,
{
    definition.instructions.set(handle_id.0 as usize, Instruction::Deref(result_slot_ptr));
    definition.instruction_result_types.set(handle_id.0 as usize, result_type);
    let mut block = Block::new(Vec::new());
    std::mem::swap(&mut block, &mut definition.blocks[merge_block.0 as usize]);
    let ghost old_ids = block.instructions@;
    let ghost old_params = block.parameter_types;
    block.instructions.push(handle_id);
    let mut i: usize = 0;
    while i < split.after_handle.len()
        invariant
            0 <= i <= split.after_handle@.len(),
            block.parameter_types == old_params,
            block.instructions@ == old_ids.push(handle_id) + split.after_handle@.subrange(0, i as int),
        decreases split.after_handle@.len() - i,
    {
        block.instructions.push(split.after_handle[i]);
        i = i + 1;
        proof {
            assert(block.instructions@ =~= old_ids.push(handle_id) + split.after_handle@.subrange(0, i as int));
        }
    }
    proof {
        assert(split.after_handle@.subrange(0, i as int) =~= split.after_handle@);
    }
    block.terminator = split.original_terminator;
    definition.blocks.set(merge_block.0 as usize, block);
}

/// The block ends in a `return`.
pub open spec fn is_return_block(block: Block) -> bool {
    block.terminator matches Some(TerminatorInstruction::Return(_))
}

/// How many of the first `upto` blocks end in a `return`.
pub open spec fn returns_before(blocks: Seq<Block>, upto: int) -> nat
    decreases upto,
{
    if upto <= 0 {
        0
    } else {
        returns_before(blocks, upto - 1) + if is_return_block(blocks[upto - 1]) {
            1nat
        } else {
            0nat
        }
    }
}

proof fn lemma_returns_before_monotone(blocks: Seq<Block>, a: int, b: int)
    requires
        0 <= a <= b,
    ensures
        returns_before(blocks, a) <= returns_before(blocks, b),
        returns_before(blocks, b) <= returns_before(blocks, a) + (b - a),
    decreases b - a,
{
    if a < b {
        lemma_returns_before_monotone(blocks, a, b - 1);
    }
}

/// The function type of `mco_abort_longjmp`: `fn Ptr, I32 -> Unit`.
pub open spec fn longjmp_view() -> TypeView {
    TypeView::Function(
        Box::new(
            FunctionTypeView {
                parameters: seq![pointer_view(), i32_view()],
                environment: TypeView::Primitive(PrimitiveType::NoClosureEnv),
                return_type: TypeView::Primitive(PrimitiveType::Unit),
            },
        ),
    )
}

/// The instructions of block `b` once its return terminators are rewritten, `n` being the id of the
/// `mco_abort_longjmp` extern: the entry block also gets the extern, and a returning block
/// gets its store and longjmp call.
pub open spec fn longjmp_block_ids(blocks: Seq<Block>, b: int, n: nat) -> Seq<InstructionId> {
    let k = returns_before(blocks, b);
    blocks[b].instructions@ + (if b == 0 {
        seq![InstructionId(n as u32)]
    } else {
        seq![]
    }) + (if is_return_block(blocks[b]) {
        seq![InstructionId((n + 1 + 2 * k) as u32), InstructionId((n + 2 + 2 * k) as u32)]
    } else {
        seq![]
    })
}

/// The longjmp call that replaces a return.
pub open spec fn longjmp_call(n: nat, buf_ptr: Value) -> InstructionView {
    InstructionView::Call {
        function: Value::InstructionResult(InstructionId(n as u32)),
        arguments: seq![buf_ptr, Value::Integer(IntConstant::I32(1))],
    }
}

fn return_blocks(definition: &Definition) -> (r: Vec<(BlockId, Value)>)
    requires
        definition.blocks@.len() <= u32::MAX,
    ensures
        r@.len() == returns_before(definition.blocks@, definition.blocks@.len() as int),
        forall|b: int|
            0 <= b < definition.blocks@.len() && is_return_block(#[trigger] definition.blocks@[b]) ==> r@[returns_before(
                definition.blocks@,
                b,
            ) as int] == (BlockId(b as u32), definition.blocks@[b].terminator->0->Return_0),
        forall|j: int|
            0 <= j < r@.len() ==> {
                let b = (#[trigger] r@[j]).0.0 as int;
                &&& 0 <= b < definition.blocks@.len()
                &&& is_return_block(definition.blocks@[b])
                &&& returns_before(definition.blocks@, b) == j
                &&& r@[j].1 == definition.blocks@[b].terminator->0->Return_0
            },
{
    let ghost blocks = definition.blocks@;
    let mut r: Vec<(BlockId, Value)> = Vec::new();
    let mut i: usize = 0;
    while i < definition.blocks.len()
        invariant
            0 <= i <= blocks.len(),
            blocks == definition.blocks@,
            blocks.len() <= u32::MAX,
            r@.len() == returns_before(blocks, i as int),
            forall|b: int|
                0 <= b < i && is_return_block(#[trigger] blocks[b]) ==> r@[returns_before(blocks, b) as int] == (
                    BlockId(b as u32),
                    blocks[b].terminator->0->Return_0,
                ),
            forall|j: int|
                0 <= j < r@.len() ==> {
                    let b = (#[trigger] r@[j]).0.0 as int;
                    &&& 0 <= b < i
                    &&& is_return_block(blocks[b])
                    &&& returns_before(blocks, b) == j
                    &&& r@[j].1 == blocks[b].terminator->0->Return_0
                },
        decreases blocks.len() - i,
    {
        if let Some(TerminatorInstruction::Return(v)) = &definition.blocks[i].terminator {
            r.push((BlockId(i as u32), *v));
        }
        i = i + 1;
        proof {
            assert forall|b: int| 0 <= b < i && is_return_block(#[trigger] blocks[b]) implies r@[returns_before(blocks, b) as int] == (
                BlockId(b as u32),
                blocks[b].terminator->0->Return_0,
            ) by {
                if b + 1 <= i - 1 {
                    lemma_returns_before_monotone(blocks, b + 1, i - 1);
                }
            }
        }
    }
    r
}

/// Block `current` is block `b` of `blocks` once the first `j` return terminators have been
/// rewritten, `n` being the id of the `mco_abort_longjmp` extern.
pub open spec fn block_rewritten_upto(blocks: Seq<Block>, b: int, n: nat, j: nat, current: Block) -> bool {
    let done = is_return_block(blocks[b]) && returns_before(blocks, b) < j;
    &&& current.instructions@ == blocks[b].instructions@ + (if b == 0 {
        seq![InstructionId(n as u32)]
    } else {
        seq![]
    }) + (if done {
        seq![
            InstructionId((n + 1 + 2 * returns_before(blocks, b)) as u32),
            InstructionId((n + 2 + 2 * returns_before(blocks, b)) as u32),
        ]
    } else {
        seq![]
    })
    &&& current.parameter_types == blocks[b].parameter_types
    &&& current.terminator == if done {
        Some(TerminatorInstruction::Unreachable)
    } else {
        blocks[b].terminator
    }
}

/// Rewriting the return of block `bj`, the `j`-th returning block, takes every block from
/// having its first `j` returns rewritten to having `j + 1`.
proof fn lemma_rewrite_step(blocks: Seq<Block>, before: Seq<Block>, after: Seq<Block>, n: nat, j: nat, bj: int)
    requires
        0 <= bj < blocks.len(),
        is_return_block(blocks[bj]),
        returns_before(blocks, bj) == j,
        before.len() == blocks.len(),
        after.len() == blocks.len(),
        forall|b: int| 0 <= b < blocks.len() ==> block_rewritten_upto(blocks, b, n, j, #[trigger] before[b]),
        after[bj].instructions@ == before[bj].instructions@ + seq![
            InstructionId((n + 1 + 2 * j) as u32),
            InstructionId((n + 2 + 2 * j) as u32),
        ],
        after[bj].parameter_types == before[bj].parameter_types,
        after[bj].terminator == Some(TerminatorInstruction::Unreachable),
        forall|b: int| 0 <= b < blocks.len() && b != bj ==> #[trigger] after[b] == before[b],
    ensures
        forall|b: int| 0 <= b < blocks.len() ==> block_rewritten_upto(blocks, b, n, j + 1, #[trigger] after[b]),
{
    assert forall|b: int| 0 <= b < blocks.len() implies block_rewritten_upto(blocks, b, n, j + 1, #[trigger] after[b]) by {
        if b == bj {
            assert(block_rewritten_upto(blocks, b, n, j, before[b]));
            assert(after[b].instructions@ =~= blocks[b].instructions@ + (if b == 0 {
                seq![InstructionId(n as u32)]
            } else {
                seq![]
            }) + seq![InstructionId((n + 1 + 2 * j) as u32), InstructionId((n + 2 + 2 * j) as u32)]);
        } else {
            assert(block_rewritten_upto(blocks, b, n, j, before[b]));
            if is_return_block(blocks[b]) {
                if b < bj {
                    lemma_returns_before_monotone(blocks, b + 1, bj);
                } else {
                    lemma_returns_before_monotone(blocks, bj + 1, b);
                }
            }
        }
    }
}

/// Stores `ret_val` into `result_slot`, calls `longjmp` with `buf_ptr`, and ends block `block`
/// as unreachable.
fn emit_longjmp_return(definition: &mut Definition, block: BlockId, ret_val: Value, longjmp: Value, buf_ptr: Value, result_slot: Value)
    requires
        block.0 < old(definition).blocks@.len(),
        old(definition).instructions@.len() == old(definition).instruction_result_types@.len(),
        old(definition).instructions@.len() + 2 < u32::MAX,
    ensures
        ({
            let m = old(definition).instructions@.len();
            let b = block.0 as int;
            &&& final(definition).instructions@.len() == m + 2
            &&& final(definition).instructions@.subrange(0, m as int) == old(definition).instructions@
            &&& final(definition).instructions@[m as int] == Instruction::Store { pointer: result_slot, value: ret_val }
            &&& final(definition).instructions@[(m + 1) as int]@ == InstructionView::Call {
                function: longjmp,
                arguments: seq![buf_ptr, Value::Integer(IntConstant::I32(1))],
            }
            &&& final(definition).instruction_result_types@ == old(definition).instruction_result_types@.push(
                Type::Primitive(PrimitiveType::Unit),
            ).push(Type::Primitive(PrimitiveType::Unit))
            &&& final(definition).blocks@.len() == old(definition).blocks@.len()
            &&& final(definition).blocks@[b].instructions@ == old(definition).blocks@[b].instructions@ + seq![
                InstructionId(m as u32),
                InstructionId((m + 1) as u32),
            ]
            &&& final(definition).blocks@[b].parameter_types == old(definition).blocks@[b].parameter_types
            &&& final(definition).blocks@[b].terminator == Some(TerminatorInstruction::Unreachable)
            &&& forall|x: int| 0 <= x < old(definition).blocks@.len() && x != b ==> #[trigger] final(definition).blocks@[x] == old(definition).blocks@[x]
        }),
        final(definition).name == old(definition).name,
        final(definition).id == old(definition).id,
        final(definition).typ == old(definition).typ,
        final(definition).generic_count == old(definition).generic_count,
{
    let ghost d0 = *definition;
    let ghost m = definition.instructions@.len();
    let mut e = Emitter::in_block(block);
    let ghost e0 = e;
    e.push_instruction(definition, Instruction::Store { pointer: result_slot, value: ret_val }, Type::unit());
    let ghost e1 = e;
    let ghost d1 = *definition;
    let mut arguments: Vec<Value> = Vec::new();
    arguments.push(buf_ptr);
    arguments.push(Value::Integer(IntConstant::I32(1)));
    assert(arguments@ =~= seq![buf_ptr, Value::Integer(IntConstant::I32(1))]);
    let call = Instruction::Call { function: longjmp, arguments };
    let ghost call_view = call@;
    e.push_instruction(definition, call, Type::unit());
    proof {
        let c1 = seq![(InstructionView::Store { pointer: result_slot, value: ret_val }, TypeView::Primitive(PrimitiveType::Unit))];
        let c2 = seq![(call_view, TypeView::Primitive(PrimitiveType::Unit))];
        lemma_emitted_then(e0, d0, e1, d1, e, *definition, c1, c2);
        assert(crate::mir::effects::lowering::id_range(m, 2) =~= seq![InstructionId(m as u32), InstructionId((m + 1) as u32)]);
        assert(definition.instruction_result_types@ =~= d0.instruction_result_types@.push(Type::Primitive(PrimitiveType::Unit)).push(
            Type::Primitive(PrimitiveType::Unit),
        ));
        assert(definition.instructions@[m as int] == d1.instructions@[m as int]);
    }
    set_terminator(definition, block, Some(TerminatorInstruction::Unreachable));
}

/// Replace each `Return v` terminator with `Store(slot, v); longjmp(buf, 1); unreachable`. The
/// `mco_abort_longjmp` extern the calls use is added to the entry block, once, where there is
/// any return.
#[verifier::rlimit(40)]
pub fn rewrite_returns_as_longjmp(definition: &mut Definition, buf_ptr: Value, result_slot: Value)
    requires
        old(definition).blocks@.len() > 0,
        old(definition).instructions@.len() == old(definition).instruction_result_types@.len(),
        old(definition).instructions@.len() + 1 + 2 * old(definition).blocks@.len() < u32::MAX,
    ensures
        returns_before(old(definition).blocks@, old(definition).blocks@.len() as int) == 0 ==> *final(definition) == *old(definition),
        returns_before(old(definition).blocks@, old(definition).blocks@.len() as int) > 0 ==> {
            let blocks = old(definition).blocks@;
            let n = old(definition).instructions@.len();
            let total = returns_before(blocks, blocks.len() as int);
            &&& final(definition).instructions@.len() == n + 1 + 2 * total
            &&& final(definition).instruction_result_types@.len() == n + 1 + 2 * total
            &&& final(definition).instructions@.subrange(0, n as int) == old(definition).instructions@
            &&& final(definition).instruction_result_types@.subrange(0, n as int) == old(definition).instruction_result_types@
            &&& final(definition).instructions@[n as int]@ == InstructionView::Extern("mco_abort_longjmp"@)
            &&& final(definition).instruction_result_types@[n as int]@ == longjmp_view()
            &&& final(definition).blocks@.len() == blocks.len()
            &&& forall|b: int| 0 <= b < blocks.len() ==> block_rewritten_upto(blocks, b, n, total, #[trigger] final(definition).blocks@[b])
            &&& forall|b: int| 0 <= b < blocks.len() && is_return_block(#[trigger] blocks[b]) ==> {
                let k = returns_before(blocks, b);
                &&& final(definition).instructions@[(n + 1 + 2 * k) as int] == Instruction::Store {
                    pointer: result_slot,
                    value: blocks[b].terminator->0->Return_0,
                }
                &&& final(definition).instructions@[(n + 2 + 2 * k) as int]@ == longjmp_call(n, buf_ptr)
                &&& final(definition).instruction_result_types@[(n + 1 + 2 * k) as int] == Type::Primitive(PrimitiveType::Unit)
                &&& final(definition).instruction_result_types@[(n + 2 + 2 * k) as int] == Type::Primitive(PrimitiveType::Unit)
            }
        },
        final(definition).name == old(definition).name,
        final(definition).id == old(definition).id,
        final(definition).typ == old(definition).typ,
        final(definition).generic_count == old(definition).generic_count,
{
    let ghost d0 = *definition;
    let ghost blocks = definition.blocks@;
    let ghost n = definition.instructions@.len();
    proof {
        lemma_returns_before_monotone(blocks, 0, blocks.len() as int);
    }
    let found = return_blocks(definition);
    if found.len() == 0 {
        return;
    }
    let mut parameters: Vec<Type> = Vec::new();
    parameters.push(Type::pointer());
    parameters.push(Type::integer(IntegerKind::I32));
    let environment = Type::no_closure_env();
    let return_type = Type::unit();
    proof {
        lemma_types_view(parameters@);
        assert(types_view(parameters@) =~= seq![pointer_view(), i32_view()]);
        assert(environment@ == TypeView::Primitive(PrimitiveType::NoClosureEnv));
        assert(return_type@ == TypeView::Primitive(PrimitiveType::Unit));
    }
    let longjmp_type = Type::Function(Arc::new(FunctionType { parameters, environment, return_type }));
    assert(longjmp_type@ == longjmp_view());
    let mut entry = Emitter::in_block(BlockId::entry_block());
    let longjmp = entry.push_instruction(definition, Instruction::Extern(String::from_str("mco_abort_longjmp")), longjmp_type);
    proof {
        reveal_strlit("mco_abort_longjmp");
        assert forall|b: int| 0 <= b < blocks.len() implies block_rewritten_upto(blocks, b, n, 0, #[trigger] definition.blocks@[b]) by {
            if b == 0 {
                assert(definition.blocks@[0].instructions@ =~= blocks[0].instructions@ + seq![InstructionId(n as u32)]);
            }
        }
    }
    let mut j: usize = 0;
    while j < found.len()
        invariant
            0 <= j <= found@.len(),
            found@.len() == returns_before(blocks, blocks.len() as int),
            found@.len() <= blocks.len(),
            blocks == d0.blocks@,
            n == d0.instructions@.len(),
            n + 1 + 2 * blocks.len() < u32::MAX,
            longjmp == Value::InstructionResult(InstructionId(n as u32)),
            forall|jj: int|
                0 <= jj < found@.len() ==> {
                    let b = (#[trigger] found@[jj]).0.0 as int;
                    &&& 0 <= b < blocks.len()
                    &&& is_return_block(blocks[b])
                    &&& returns_before(blocks, b) == jj
                    &&& found@[jj].1 == blocks[b].terminator->0->Return_0
                },
            definition.instructions@.len() == n + 1 + 2 * j,
            definition.instruction_result_types@.len() == n + 1 + 2 * j,
            definition.instructions@.subrange(0, n as int) == d0.instructions@,
            definition.instruction_result_types@.subrange(0, n as int) == d0.instruction_result_types@,
            definition.instructions@[n as int]@ == InstructionView::Extern("mco_abort_longjmp"@),
            definition.instruction_result_types@[n as int]@ == longjmp_view(),
            forall|jj: int|
                0 <= jj < j ==> {
                    &&& #[trigger] definition.instructions@[n + 1 + 2 * jj] == Instruction::Store {
                        pointer: result_slot,
                        value: found@[jj].1,
                    }
                    &&& definition.instructions@[n + 2 + 2 * jj]@ == longjmp_call(n, buf_ptr)
                    &&& definition.instruction_result_types@[n + 1 + 2 * jj] == Type::Primitive(PrimitiveType::Unit)
                    &&& definition.instruction_result_types@[n + 2 + 2 * jj] == Type::Primitive(PrimitiveType::Unit)
                },
            definition.blocks@.len() == blocks.len(),
            forall|b: int| 0 <= b < blocks.len() ==> block_rewritten_upto(blocks, b, n, j as nat, #[trigger] definition.blocks@[b]),
            definition.name == d0.name,
            definition.id == d0.id,
            definition.typ == d0.typ,
            definition.generic_count == d0.generic_count,
        decreases found@.len() - j,
    {
        let (block, ret_val) = found[j];
        let ghost before = *definition;
        emit_longjmp_return(definition, block, ret_val, longjmp, buf_ptr, result_slot);
        proof {
            lemma_rewrite_step(blocks, before.blocks@, definition.blocks@, n, j as nat, block.0 as int);
            assert(definition.instructions@.subrange(0, n as int) =~= before.instructions@.subrange(0, n as int));
            assert(definition.instruction_result_types@.subrange(0, n as int) =~= before.instruction_result_types@.subrange(0, n as int));
            assert(definition.instructions@[n as int] == before.instructions@.subrange(0, (n + 1 + 2 * j) as int)[n as int]);
            assert(definition.instruction_result_types@[n as int] == before.instruction_result_types@[n as int]);
            assert forall|jj: int| 0 <= jj < j + 1 implies {
                &&& #[trigger] definition.instructions@[n + 1 + 2 * jj] == Instruction::Store {
                    pointer: result_slot,
                    value: found@[jj].1,
                }
                &&& definition.instructions@[n + 2 + 2 * jj]@ == longjmp_call(n, buf_ptr)
                &&& definition.instruction_result_types@[n + 1 + 2 * jj] == Type::Primitive(PrimitiveType::Unit)
                &&& definition.instruction_result_types@[n + 2 + 2 * jj] == Type::Primitive(PrimitiveType::Unit)
            } by {
                if jj < j {
                    assert(definition.instructions@[n + 1 + 2 * jj] == before.instructions@.subrange(0, (n + 1 + 2 * j) as int)[n + 1 + 2 * jj]);
                    assert(definition.instructions@[n + 2 + 2 * jj] == before.instructions@.subrange(0, (n + 1 + 2 * j) as int)[n + 2 + 2 * jj]);
                }
            }
        }
        j = j + 1;
    }
    proof {
        assert forall|b: int| 0 <= b < blocks.len() && is_return_block(#[trigger] blocks[b]) implies {
            let k = returns_before(blocks, b);
            &&& definition.instructions@[(n + 1 + 2 * k) as int] == Instruction::Store {
                pointer: result_slot,
                value: blocks[b].terminator->0->Return_0,
            }
            &&& definition.instructions@[(n + 2 + 2 * k) as int]@ == longjmp_call(n, buf_ptr)
            &&& definition.instruction_result_types@[(n + 1 + 2 * k) as int] == Type::Primitive(PrimitiveType::Unit)
            &&& definition.instruction_result_types@[(n + 2 + 2 * k) as int] == Type::Primitive(PrimitiveType::Unit)
        } by {
            let k = returns_before(blocks, b);
            lemma_returns_before_monotone(blocks, b + 1, blocks.len() as int);
            let jb = (found@[k as int]).0.0 as int;
            if jb != b {
                if jb < b {
                    lemma_returns_before_monotone(blocks, jb + 1, b);
                } else {
                    lemma_returns_before_monotone(blocks, b + 1, jb);
                }
            }
        }
    }
}

/// What [emit_wrapper_prologue] emits when the definition has `n` instructions: the load of the
/// wrapper's environment `(buf, slot, handler_env)` and the fields taken out of it, the third
/// only for a closure.
pub open spec fn wrapper_prologue_code(env_pointer: Value, env_type: TypeView, is_closure: bool, n: nat) -> Seq<
    (InstructionView, TypeView),
> {
    let env = Value::InstructionResult(InstructionId(n as u32));
    seq![
        (InstructionView::Deref(env_pointer), TypeView::Tuple(seq![pointer_view(), pointer_view(), env_type])),
        (InstructionView::IndexTuple { tuple: env, index: 0 }, pointer_view()),
        (InstructionView::IndexTuple { tuple: env, index: 1 }, pointer_view()),
    ] + if is_closure {
        seq![(InstructionView::IndexTuple { tuple: env, index: 2 }, env_type)]
    } else {
        seq![]
    }
}

/// Puts `ids` in front of the instructions of block `block`.
pub fn prepend_to_block(definition: &mut Definition, block: BlockId, ids: &Vec<InstructionId>)
    requires
        block.0 < old(definition).blocks@.len(),
    ensures
        final(definition).blocks@.len() == old(definition).blocks@.len(),
        final(definition).blocks@[block.0 as int].instructions@ == ids@ + old(definition).blocks@[block.0 as int].instructions@,
        final(definition).blocks@[block.0 as int].parameter_types == old(definition).blocks@[block.0 as int].parameter_types,
        final(definition).blocks@[block.0 as int].terminator == old(definition).blocks@[block.0 as int].terminator,
        forall|x: int| 0 <= x < old(definition).blocks@.len() && x != block.0 ==> #[trigger] final(definition).blocks@[x] == old(definition).blocks@[x],
        final(definition).instructions == old(definition).instructions,
        final(definition).instruction_result_types == old(definition).instruction_result_types,
        final(definition).name == old(definition).name,
        final(definition).id == old(definition).id,
        final(definition).typ == old(definition).typ,
        final(definition).generic_count == old(definition).generic_count,
{
    let mut b = Block::new(Vec::new());
    std::mem::swap(&mut b, &mut definition.blocks[block.0 as usize]);
    let mut joined: Vec<InstructionId> = Vec::new();
    let mut i: usize = 0;
    while i < ids.len()
        invariant
            0 <= i <= ids@.len(),
            joined@ == ids@.subrange(0, i as int),
        decreases ids@.len() - i,
    {
        joined.push(ids[i]);
        i = i + 1;
    }
    let mut k: usize = 0;
    while k < b.instructions.len()
        invariant
            0 <= k <= b.instructions@.len(),
            joined@ == ids@ + b.instructions@.subrange(0, k as int),
        decreases b.instructions@.len() - k,
    {
        joined.push(b.instructions[k]);
        k = k + 1;
        proof {
            assert(joined@ =~= ids@ + b.instructions@.subrange(0, k as int));
        }
    }
    proof {
        assert(b.instructions@.subrange(0, k as int) =~= b.instructions@);
    }
    definition.blocks.set(block.0 as usize, Block { parameter_types: b.parameter_types, instructions: joined, terminator: b.terminator });
}

/// Emit `env = *env_pointer; (buf, slot, handler_env) = (env.0, env.1, env.2)` at the start
/// of the wrapper's entry block, returning the three Values.
pub fn emit_wrapper_prologue(
    definition: &mut Definition,
    env_pointer: Value,
    handler_env_type: &Type,
    handler_is_closure: bool,
) -> (r: (Value, Value, Option<Value>))
    requires
        old(definition).blocks@.len() > 0,
        old(definition).instructions@.len() == old(definition).instruction_result_types@.len(),
        old(definition).instructions@.len() + 4 < u32::MAX,
    ensures
        ({
            let n = old(definition).instructions@.len();
            let code = wrapper_prologue_code(env_pointer, handler_env_type@, handler_is_closure, n);
            &&& r.0 == Value::InstructionResult(InstructionId((n + 1) as u32))
            &&& r.1 == Value::InstructionResult(InstructionId((n + 2) as u32))
            &&& r.2 == if handler_is_closure {
                Some(Value::InstructionResult(InstructionId((n + 3) as u32)))
            } else {
                None
            }
            &&& final(definition).instructions@.len() == n + code.len()
            &&& final(definition).instruction_result_types@.len() == n + code.len()
            &&& final(definition).instructions@.subrange(0, n as int) == old(definition).instructions@
            &&& final(definition).instruction_result_types@.subrange(0, n as int) == old(definition).instruction_result_types@
            &&& forall|k: int| 0 <= k < code.len() ==> (#[trigger] final(definition).instructions@[n + k])@ == code[k].0
            &&& forall|k: int| 0 <= k < code.len() ==> (#[trigger] final(definition).instruction_result_types@[n + k])@ == code[k].1
            &&& final(definition).blocks@.len() == old(definition).blocks@.len()
            &&& final(definition).blocks@[0].instructions@ == crate::mir::effects::lowering::id_range(n, code.len())
                + old(definition).blocks@[0].instructions@
            &&& final(definition).blocks@[0].parameter_types == old(definition).blocks@[0].parameter_types
            &&& final(definition).blocks@[0].terminator == old(definition).blocks@[0].terminator
            &&& forall|x: int| 0 < x < old(definition).blocks@.len() ==> #[trigger] final(definition).blocks@[x] == old(definition).blocks@[x]
        }),
        final(definition).name == old(definition).name,
        final(definition).id == old(definition).id,
        final(definition).typ == old(definition).typ,
        final(definition).generic_count == old(definition).generic_count,
{
    let ghost d0 = *definition;
    let ghost n = definition.instructions@.len();
    let mut fields: Vec<Type> = Vec::new();
    fields.push(Type::pointer());
    fields.push(Type::pointer());
    fields.push(handler_env_type.clone());
    proof {
        lemma_types_view(fields@);
        assert(types_view(fields@) =~= seq![pointer_view(), pointer_view(), handler_env_type@]);
    }
    let env_struct_type = Type::tuple(fields);
    let mut e = Emitter::pending();
    let ghost e0 = e;
    let env_struct = e.push_instruction(definition, Instruction::Deref(env_pointer), env_struct_type);
    let ghost e1 = e;
    let ghost d1 = *definition;
    let buf_ptr = e.push_instruction(definition, Instruction::IndexTuple { tuple: env_struct, index: 0 }, Type::pointer());
    let ghost e2 = e;
    let ghost d2 = *definition;
    let result_slot = e.push_instruction(definition, Instruction::IndexTuple { tuple: env_struct, index: 1 }, Type::pointer());
    let ghost e3 = e;
    let ghost d3 = *definition;
    proof {
        let env = Value::InstructionResult(InstructionId(n as u32));
        let c1 = seq![(InstructionView::Deref(env_pointer), TypeView::Tuple(seq![pointer_view(), pointer_view(), handler_env_type@]))];
        let c2 = seq![(InstructionView::IndexTuple { tuple: env, index: 0 }, pointer_view())];
        let c3 = seq![(InstructionView::IndexTuple { tuple: env, index: 1 }, pointer_view())];
        lemma_emitted_then(e0, d0, e1, d1, e2, d2, c1, c2);
        lemma_emitted_then(e0, d0, e2, d2, e3, d3, c1 + c2, c3);
    }
    let handler_env = if handler_is_closure {
        let v = e.push_instruction(definition, Instruction::IndexTuple { tuple: env_struct, index: 2 }, handler_env_type.clone());
        proof {
            let env = Value::InstructionResult(InstructionId(n as u32));
            let c123 = seq![
                (InstructionView::Deref(env_pointer), TypeView::Tuple(seq![pointer_view(), pointer_view(), handler_env_type@])),
                (InstructionView::IndexTuple { tuple: env, index: 0 }, pointer_view()),
                (InstructionView::IndexTuple { tuple: env, index: 1 }, pointer_view()),
            ];
            let c4 = seq![(InstructionView::IndexTuple { tuple: env, index: 2 }, handler_env_type@)];
            assert(seq![(InstructionView::Deref(env_pointer), TypeView::Tuple(seq![pointer_view(), pointer_view(), handler_env_type@]))]
                + seq![(InstructionView::IndexTuple { tuple: env, index: 0 }, pointer_view())]
                + seq![(InstructionView::IndexTuple { tuple: env, index: 1 }, pointer_view())] =~= c123);
            lemma_emitted_then(e0, d0, e3, d3, e, *definition, c123, c4);
            assert(c123 + c4 =~= wrapper_prologue_code(env_pointer, handler_env_type@, handler_is_closure, n));
        }
        Some(v)
    } else {
        proof {
            let env = Value::InstructionResult(InstructionId(n as u32));
            assert(seq![(InstructionView::Deref(env_pointer), TypeView::Tuple(seq![pointer_view(), pointer_view(), handler_env_type@]))]
                + seq![(InstructionView::IndexTuple { tuple: env, index: 0 }, pointer_view())]
                + seq![(InstructionView::IndexTuple { tuple: env, index: 1 }, pointer_view())] =~= wrapper_prologue_code(
                env_pointer,
                handler_env_type@,
                handler_is_closure,
                n,
            ));
        }
        None
    };
    let ghost mid = *definition;
    let prologue = e.pending;
    proof {
        assert(prologue@ =~= crate::mir::effects::lowering::id_range(n, wrapper_prologue_code(env_pointer, handler_env_type@, handler_is_closure, n).len()));
    }
    prepend_to_block(definition, BlockId::entry_block(), &prologue);
    (buf_ptr, result_slot, handler_env)
}

/// What is known of one handler case of an abort-only `Handle`.
pub struct CaseDecision {
    pub handler_def_id: DefinitionId,
    pub handler_env: Option<Value>,
    pub handler_bindings: Option<Arc<GenericBindings>>,
    pub handler_env_type: Type,
    pub handler_is_closure: bool,
    pub shape: CaseShape,
}

/// The body of an abort-only `Handle`, ready to be called: the definition that runs it, the
/// environment and generic bindings it was packed with, and its environment's layout.
pub struct PreparedBody {
    pub fn_id: DefinitionId,
    pub env_value: Option<Value>,
    pub bindings: Option<Arc<GenericBindings>>,
    pub layout: OriginalEnvLayout,
}

/// The handler environment stored in a case's state, unit when it has none.
pub open spec fn env_or_unit(env: Option<Value>) -> Value {
    match env {
        Some(v) => v,
        None => Value::Unit,
    }
}

pub open spec fn result_of(m: nat) -> Value {
    Value::InstructionResult(InstructionId(m as u32))
}

/// The instructions that build the wrapper closures of cases `i` up to `count` when the
/// definition has `m` instructions, and the closures: for each case, its state
/// `(buf, slot, handler_env)` on the stack, and its wrapper packed with a pointer to it.
pub open spec fn cap_closures_code(
    decisions: Seq<CaseDecision>,
    wrapper_ids: Seq<DefinitionId>,
    wrapper_types: Seq<Type>,
    buf_ptr: Value,
    result_slot_ptr: Value,
    i: int,
    count: int,
    m: nat,
) -> (Seq<(InstructionView, TypeView)>, Seq<Value>)
    decreases count - i,
{
    if 0 <= i < count {
        let d = decisions[i];
        let state = seq![
            (
                InstructionView::MakeTuple(seq![buf_ptr, result_slot_ptr, env_or_unit(d.handler_env)]),
                TypeView::Tuple(seq![pointer_view(), pointer_view(), d.handler_env_type@]),
            ),
            (InstructionView::StackAlloc(result_of(m)), pointer_view()),
        ];
        let (fc, f) = definition_value_code(wrapper_ids[i], wrapper_types[i]@, d.handler_bindings, m + 2);
        let here = state + fc + seq![
            (InstructionView::PackClosure { function: f, environment: result_of(m + 1) }, wrapper_types[i]@),
        ];
        let (rest, closures) = cap_closures_code(
            decisions,
            wrapper_ids,
            wrapper_types,
            buf_ptr,
            result_slot_ptr,
            i + 1,
            count,
            m + here.len(),
        );
        (here + rest, seq![result_of((m + here.len() - 1) as nat)] + closures)
    } else {
        (seq![], seq![])
    }
}

pub open spec fn min3(a: int, b: int, c: int) -> int {
    if a <= b && a <= c {
        a
    } else if b <= c {
        b
    } else {
        c
    }
}

/// What [emit_cap_tuple] emits when the definition has `n` instructions: the wrapper closures,
/// then the tuple of them.
pub open spec fn cap_tuple_code(
    decisions: Seq<CaseDecision>,
    wrapper_ids: Seq<DefinitionId>,
    wrapper_types: Seq<Type>,
    buf_ptr: Value,
    result_slot_ptr: Value,
    cap_tuple_type: TypeView,
    n: nat,
) -> Seq<(InstructionView, TypeView)> {
    let count = min3(decisions.len() as int, wrapper_ids.len() as int, wrapper_types.len() as int);
    let (code, closures) = cap_closures_code(decisions, wrapper_ids, wrapper_types, buf_ptr, result_slot_ptr, 0, count, n);
    code + seq![(InstructionView::MakeTuple(closures), cap_tuple_type)]
}

proof fn lemma_cap_closures_len(
    decisions: Seq<CaseDecision>,
    wrapper_ids: Seq<DefinitionId>,
    wrapper_types: Seq<Type>,
    buf_ptr: Value,
    result_slot_ptr: Value,
    i: int,
    count: int,
    m: nat,
)
    requires
        0 <= i <= count,
    ensures
        cap_closures_code(decisions, wrapper_ids, wrapper_types, buf_ptr, result_slot_ptr, i, count, m).0.len() >= 3 * (count - i),
        cap_closures_code(decisions, wrapper_ids, wrapper_types, buf_ptr, result_slot_ptr, i, count, m).1.len() == count - i,
    decreases count - i,
{
    if i < count {
        let d = decisions[i];
        let (fc, f) = definition_value_code(wrapper_ids[i], wrapper_types[i]@, d.handler_bindings, m + 2);
        let here_len = 3 + fc.len();
        lemma_cap_closures_len(decisions, wrapper_ids, wrapper_types, buf_ptr, result_slot_ptr, i + 1, count, m + here_len);
    }
}

/// For each case, build `(buf, slot, handler_env)`, stack-alloc it, and pack the wrapper
/// closure with that pointer. Tuple all wrapper closures into the cap value.
pub fn emit_cap_tuple(
    e: &mut Emitter,
    definition: &mut Definition,
    decisions: Vec<CaseDecision>,
    wrapper_ids: &Vec<DefinitionId>,
    wrapper_closure_types: Vec<Type>,
    buf_ptr: Value,
    result_slot_ptr: Value,
    cap_tuple_type: &Type,
) -> (r: Value)
    requires
        room_for(
            *old(e),
            *old(definition),
            cap_tuple_code(decisions@, wrapper_ids@, wrapper_closure_types@, buf_ptr, result_slot_ptr, cap_tuple_type@, old(definition).instructions@.len()).len(),
        ),
    ensures
        ({
            let code = cap_tuple_code(decisions@, wrapper_ids@, wrapper_closure_types@, buf_ptr, result_slot_ptr, cap_tuple_type@, old(definition).instructions@.len());
            &&& r == result_of((old(definition).instructions@.len() + code.len() - 1) as nat)
            &&& emitted(*old(e), *old(definition), *final(e), *final(definition), code)
        }),
{
    let ghost e0 = *e;
    let ghost d0 = *definition;
    let ghost n = definition.instructions@.len();
    let count = if decisions.len() <= wrapper_ids.len() && decisions.len() <= wrapper_closure_types.len() {
        decisions.len()
    } else if wrapper_ids.len() <= wrapper_closure_types.len() {
        wrapper_ids.len()
    } else {
        wrapper_closure_types.len()
    };
    let ghost total = cap_closures_code(decisions@, wrapper_ids@, wrapper_closure_types@, buf_ptr, result_slot_ptr, 0, count as int, n);
    proof {
        lemma_emitted_nothing(e0, d0);
        lemma_cap_closures_len(decisions@, wrapper_ids@, wrapper_closure_types@, buf_ptr, result_slot_ptr, 0, count as int, n);
        assert(Seq::<(InstructionView, TypeView)>::empty() + total.0 =~= total.0);
        assert(Seq::<Value>::empty() + total.1 =~= total.1);
    }
    let mut closures: Vec<Value> = Vec::new();
    let ghost mut done: Seq<(InstructionView, TypeView)> = seq![];
    let mut i: usize = 0;
    while i < count
        invariant
            0 <= i <= count,
            count == min3(decisions@.len() as int, wrapper_ids@.len() as int, wrapper_closure_types@.len() as int),
            total == cap_closures_code(decisions@, wrapper_ids@, wrapper_closure_types@, buf_ptr, result_slot_ptr, 0, count as int, n),
            n == d0.instructions@.len(),
            emitted(e0, d0, *e, *definition, done),
            done + cap_closures_code(decisions@, wrapper_ids@, wrapper_closure_types@, buf_ptr, result_slot_ptr, i as int, count as int, n + done.len()).0 == total.0,
            closures@ + cap_closures_code(decisions@, wrapper_ids@, wrapper_closure_types@, buf_ptr, result_slot_ptr, i as int, count as int, n + done.len()).1 == total.1,
            room_for(e0, d0, total.0.len() + 1),
            e.target == e0.target,
        decreases count - i,
    {
        let ghost m = n + done.len();
        let ghost old_closures = closures@;
        let d = &decisions[i];
        let ghost e1 = *e;
        let ghost d1 = *definition;
        let mut state_fields: Vec<Type> = Vec::new();
        state_fields.push(Type::pointer());
        state_fields.push(Type::pointer());
        state_fields.push(d.handler_env_type.clone());
        let mut state_values: Vec<Value> = Vec::new();
        state_values.push(buf_ptr);
        state_values.push(result_slot_ptr);
        state_values.push(match d.handler_env {
            Some(v) => v,
            None => Value::Unit,
        });
        proof {
            lemma_types_view(state_fields@);
            assert(types_view(state_fields@) =~= seq![pointer_view(), pointer_view(), d.handler_env_type@]);
            assert(state_values@ =~= seq![buf_ptr, result_slot_ptr, env_or_unit(d.handler_env)]);
            lemma_cap_closures_len(decisions@, wrapper_ids@, wrapper_closure_types@, buf_ptr, result_slot_ptr, i as int, count as int, m);
        }
        let cap_state = e.push_instruction(definition, Instruction::MakeTuple(state_values), Type::tuple(state_fields));
        let ghost e2 = *e;
        let ghost d2 = *definition;
        let cap_state_ptr = e.push_instruction(definition, Instruction::StackAlloc(cap_state), Type::pointer());
        let ghost e3 = *e;
        let ghost d3 = *definition;
        let bindings = match &d.handler_bindings {
            Some(b) => Some(arc_clone(b)),
            None => None,
        };
        let wrapper_value = e.emit_definition_value(definition, wrapper_ids[i], wrapper_closure_types[i].clone(), bindings);
        let ghost e4 = *e;
        let ghost d4 = *definition;
        let closure = e.push_instruction(
            definition,
            Instruction::PackClosure { function: wrapper_value, environment: cap_state_ptr },
            wrapper_closure_types[i].clone(),
        );
        closures.push(closure);
        proof {
            let dd = decisions@[i as int];
            let state = seq![
                (
                    InstructionView::MakeTuple(seq![buf_ptr, result_slot_ptr, env_or_unit(dd.handler_env)]),
                    TypeView::Tuple(seq![pointer_view(), pointer_view(), dd.handler_env_type@]),
                ),
                (InstructionView::StackAlloc(result_of(m)), pointer_view()),
            ];
            let (fc, f) = definition_value_code(wrapper_ids@[i as int], wrapper_closure_types@[i as int]@, dd.handler_bindings, m + 2);
            let pack = seq![(InstructionView::PackClosure { function: f, environment: result_of(m + 1) }, wrapper_closure_types@[i as int]@)];
            let c1 = seq![state[0]];
            let c2 = seq![state[1]];
            lemma_emitted_then(e1, d1, e2, d2, e3, d3, c1, c2);
            assert(c1 + c2 =~= state);
            lemma_emitted_then(e1, d1, e3, d3, e4, d4, state, fc);
            lemma_emitted_then(e1, d1, e4, d4, *e, *definition, state + fc, pack);
            lemma_emitted_then(e0, d0, e1, d1, *e, *definition, done, state + fc + pack);
            let here = state + fc + pack;
            assert(done + here + cap_closures_code(decisions@, wrapper_ids@, wrapper_closure_types@, buf_ptr, result_slot_ptr, i + 1, count as int, m + here.len()).0 =~= done + cap_closures_code(decisions@, wrapper_ids@, wrapper_closure_types@, buf_ptr, result_slot_ptr, i as int, count as int, m).0);
            assert(closure == result_of((m + here.len() - 1) as nat));
            assert(closures@ + cap_closures_code(decisions@, wrapper_ids@, wrapper_closure_types@, buf_ptr, result_slot_ptr, i + 1, count as int, m + here.len()).1 =~= old_closures + cap_closures_code(decisions@, wrapper_ids@, wrapper_closure_types@, buf_ptr, result_slot_ptr, i as int, count as int, m).1);
            done = done + here;
        }
        i = i + 1;
    }
    let ghost e5 = *e;
    let ghost d5 = *definition;
    let tuple = Instruction::MakeTuple(closures);
    let ghost tuple_view = tuple@;
    let r = e.push_instruction(definition, tuple, cap_tuple_type.clone());
    proof {
        assert(done =~= total.0);
        assert(closures@ =~= total.1);
        lemma_emitted_then(e0, d0, e5, d5, *e, *definition, done, seq![(tuple_view, cap_tuple_type@)]);
    }
    r
}

/// The `IndexTuple`s that take each field out of `env`, of the given types, when the definition
/// has `m` instructions.
pub open spec fn env_fields_code(env: Value, types: Seq<Type>) -> Seq<(InstructionView, TypeView)> {
    Seq::new(types.len(), |i: int| (InstructionView::IndexTuple { tuple: env, index: i as u32 }, types[i]@))
}

/// The results of `count` instructions starting at `m`.
pub open spec fn results_from(m: nat, count: nat) -> Seq<Value> {
    Seq::new(count, |i: int| result_of((m + i) as nat))
}

/// What [emit_body_closure] emits when the definition has `m` instructions, and the closure it
/// returns: the body's new environment, its original fields (if it had any) followed by the
/// capability, then the body function packed with it.
pub open spec fn body_closure_code(body: PreparedBody, body_fn_type: TypeView, cap_value: Value, m: nat) -> (Seq<
    (InstructionView, TypeView),
>, Value) {
    let env_type = body_fn_type->Function_0.environment;
    let fields = if body.layout.was_closure {
        env_fields_code(body.env_value->0, body.layout.original_field_types@)
    } else {
        seq![]
    };
    let env_code = fields + seq![
        (InstructionView::MakeTuple(results_from(m, fields.len()).push(cap_value)), env_type),
    ];
    let env_value = result_of(m + fields.len());
    let (fc, f) = definition_value_code(body.fn_id, body_fn_type, body.bindings, m + env_code.len());
    let code = env_code + fc + seq![
        (InstructionView::PackClosure { function: f, environment: env_value }, body_fn_type),
    ];
    (code, result_of((m + code.len() - 1) as nat))
}

/// Build the body's extended env (orig env fields + cap), then PackClosure body_fn with it.
pub fn emit_body_closure(e: &mut Emitter, definition: &mut Definition, body: PreparedBody, body_fn_type: Type, cap_value: Value) -> (r: Value)
    requires
        body_fn_type is Function,
        body.layout.was_closure ==> body.env_value is Some,
        room_for(*old(e), *old(definition), body_closure_code(body, body_fn_type@, cap_value, old(definition).instructions@.len()).0.len()),
    ensures
        r == body_closure_code(body, body_fn_type@, cap_value, old(definition).instructions@.len()).1,
        emitted(*old(e), *old(definition), *final(e), *final(definition), body_closure_code(body, body_fn_type@, cap_value, old(definition).instructions@.len()).0),
{
    let ghost e0 = *e;
    let ghost d0 = *definition;
    let ghost m = definition.instructions@.len();
    let ghost spec_body = body;
    let PreparedBody { fn_id, env_value, bindings, layout } = body;
    let new_env_type = match &body_fn_type {
        Type::Function(ft) => ft.environment.clone(),
        _ => Type::unit(),
    };
    assert(new_env_type@ == body_fn_type@->Function_0.environment);
    proof {
        lemma_emitted_nothing(e0, d0);
    }
    let mut fields: Vec<Value> = Vec::new();
    let ghost mut done: Seq<(InstructionView, TypeView)> = seq![];
    if layout.was_closure {
        let original_env = match env_value {
            Some(v) => v,
            None => Value::Unit,
        };
        let types = &layout.original_field_types;
        let mut i: usize = 0;
        while i < types.len()
            invariant
                0 <= i <= types@.len(),
                spec_body.layout.original_field_types == *types,
                spec_body.env_value == Some(original_env),
                m == d0.instructions@.len(),
                emitted(e0, d0, *e, *definition, done),
                done == env_fields_code(original_env, types@).subrange(0, i as int),
                fields@ == results_from(m, i as nat),
                room_for(e0, d0, types@.len() + 1),
                e.target == e0.target,
            decreases types@.len() - i,
        {
            let ghost e1 = *e;
            let ghost d1 = *definition;
            let v = e.push_instruction(definition, Instruction::IndexTuple { tuple: original_env, index: i as u32 }, types[i].clone());
            fields.push(v);
            proof {
                lemma_emitted_then(e0, d0, e1, d1, *e, *definition, done, seq![(InstructionView::IndexTuple { tuple: original_env, index: i as u32 }, types@[i as int]@)]);
                done = done + seq![(InstructionView::IndexTuple { tuple: original_env, index: i as u32 }, types@[i as int]@)];
                assert(done =~= env_fields_code(original_env, types@).subrange(0, i + 1));
                assert(fields@ =~= results_from(m, (i + 1) as nat));
            }
            i = i + 1;
        }
        proof {
            assert(done =~= env_fields_code(original_env, types@));
        }
    }
    let ghost e2 = *e;
    let ghost d2 = *definition;
    let ghost field_code = if spec_body.layout.was_closure {
        env_fields_code(spec_body.env_value->0, spec_body.layout.original_field_types@)
    } else {
        seq![]
    };
    assert(done == field_code);
    assert(fields@ == results_from(m, field_code.len()));
    fields.push(cap_value);
    let make = Instruction::MakeTuple(fields);
    let ghost make_view = make@;
    let new_env_value = e.push_instruction(definition, make, new_env_type);
    let ghost e3 = *e;
    let ghost d3 = *definition;
    let body_fn_value = e.emit_definition_value(definition, fn_id, body_fn_type.clone(), bindings);
    let ghost e4 = *e;
    let ghost d4 = *definition;
    let pack = Instruction::PackClosure { function: body_fn_value, environment: new_env_value };
    let ghost pack_view = pack@;
    let r = e.push_instruction(definition, pack, body_fn_type);
    proof {
        let env_code = done + seq![(make_view, new_env_type@)];
        lemma_emitted_then(e0, d0, e2, d2, e3, d3, done, seq![(make_view, new_env_type@)]);
        let (fc, f) = definition_value_code(fn_id, body_fn_type@, bindings, m + env_code.len());
        lemma_emitted_then(e0, d0, e3, d3, e4, d4, env_code, fc);
        lemma_emitted_then(e0, d0, e4, d4, *e, *definition, env_code + fc, seq![(pack_view, body_fn_type@)]);
        assert(env_code + fc + seq![(pack_view, body_fn_type@)] =~= body_closure_code(spec_body, body_fn_type@, cap_value, m).0);
    }
    r
}

/// The values [build_setjmp_prologue] leaves for the rest of the rewrite.
pub struct SetjmpPrologue {
    pub result_slot_ptr: Value,
    pub body_closure: Value,
    pub is_zero: Value,
}

/// What [build_setjmp_prologue] emits when the definition has `n` instructions: the `jmp_buf`
/// and result slot on the stack, the capability tuple, the body closure and the setjmp test.
pub open spec fn setjmp_prologue_code(
    result_type: TypeView,
    decisions: Seq<CaseDecision>,
    wrapper_ids: Seq<DefinitionId>,
    wrapper_types: Seq<Type>,
    body: PreparedBody,
    body_fn_type: TypeView,
    cap_tuple_type: TypeView,
    n: nat,
) -> Seq<(InstructionView, TypeView)> {
    let slots = seq![
        (InstructionView::StackAllocUninit(jmp_buf_view()), pointer_view()),
        (InstructionView::StackAllocUninit(result_type), pointer_view()),
    ];
    let cap = cap_tuple_code(decisions, wrapper_ids, wrapper_types, result_of(n), result_of(n + 1), cap_tuple_type, n + 2);
    let cap_value = result_of((n + 2 + cap.len() - 1) as nat);
    let closure = body_closure_code(body, body_fn_type, cap_value, n + 2 + cap.len()).0;
    slots + cap + closure + setjmp_test_code(result_of(n), n + 2 + cap.len() + closure.len())
}

/// Emits, onto `prologue`, the code that sets up an abort-only `Handle`: the `jmp_buf` and result
/// slot, the wrapper closures and the capability tuple of them, the body closure, and the
/// setjmp test.
pub fn build_setjmp_prologue(
    definition: &mut Definition,
    prologue: &mut Vec<InstructionId>,
    result_type: &Type,
    decisions: Vec<CaseDecision>,
    wrapper_ids: &Vec<DefinitionId>,
    wrapper_closure_types: Vec<Type>,
    body: PreparedBody,
    body_fn_type: Type,
    cap_tuple_type: &Type,
) -> (r: SetjmpPrologue)
    requires
        body_fn_type is Function,
        body.layout.was_closure ==> body.env_value is Some,
        old(definition).instructions@.len() == old(definition).instruction_result_types@.len(),
        old(definition).instructions@.len() + setjmp_prologue_code(
            result_type@,
            decisions@,
            wrapper_ids@,
            wrapper_closure_types@,
            body,
            body_fn_type@,
            cap_tuple_type@,
            old(definition).instructions@.len(),
        ).len() < u32::MAX,
    ensures
        ({
            let n = old(definition).instructions@.len();
            let code = setjmp_prologue_code(
                result_type@,
                decisions@,
                wrapper_ids@,
                wrapper_closure_types@,
                body,
                body_fn_type@,
                cap_tuple_type@,
                n,
            );
            let cap = cap_tuple_code(decisions@, wrapper_ids@, wrapper_closure_types@, result_of(n), result_of(n + 1), cap_tuple_type@, n + 2);
            let cap_value = result_of((n + 2 + cap.len() - 1) as nat);
            let closure = body_closure_code(body, body_fn_type@, cap_value, n + 2 + cap.len());
            &&& code_added(*old(definition), *final(definition), code)
            &&& final(definition).blocks == old(definition).blocks
            &&& final(prologue)@ == old(prologue)@ + crate::mir::effects::lowering::id_range(n, code.len())
            &&& r.result_slot_ptr == result_of(n + 1)
            &&& r.body_closure == closure.1
            &&& r.is_zero == result_of((n + code.len() - 1) as nat)
        }),
{
    let ghost d0 = *definition;
    let ghost n = definition.instructions@.len();
    let ghost spec_body = body;
    let ghost spec_decisions = decisions@;
    let ghost spec_types = wrapper_closure_types@;
    let ghost body_fn_view = body_fn_type@;
    let mut e = Emitter::pending();
    let ghost e0 = e;
    let buf_ptr = e.push_instruction(definition, Instruction::StackAllocUninit(jmp_buf_type()), Type::pointer());
    let ghost e1 = e;
    let ghost d1 = *definition;
    let result_slot_ptr = e.push_instruction(definition, Instruction::StackAllocUninit(result_type.clone()), Type::pointer());
    let ghost e2 = e;
    let ghost d2 = *definition;
    proof {
        let c1 = seq![(InstructionView::StackAllocUninit(jmp_buf_view()), pointer_view())];
        let c2 = seq![(InstructionView::StackAllocUninit(result_type@), pointer_view())];
        lemma_emitted_then(e0, d0, e1, d1, e2, d2, c1, c2);
    }
    let cap_value = emit_cap_tuple(&mut e, definition, decisions, wrapper_ids, wrapper_closure_types, buf_ptr, result_slot_ptr, cap_tuple_type);
    let ghost e3 = e;
    let ghost d3 = *definition;
    let body_closure = emit_body_closure(&mut e, definition, body, body_fn_type, cap_value);
    let ghost e4 = e;
    let ghost d4 = *definition;
    let is_zero = emit_setjmp_test(&mut e, definition, buf_ptr);
    proof {
        let slots = seq![
            (InstructionView::StackAllocUninit(jmp_buf_view()), pointer_view()),
            (InstructionView::StackAllocUninit(result_type@), pointer_view()),
        ];
        let cap = cap_tuple_code(spec_decisions, wrapper_ids@, spec_types, result_of(n), result_of(n + 1), cap_tuple_type@, n + 2);
        assert(seq![(InstructionView::StackAllocUninit(jmp_buf_view()), pointer_view())] + seq![(InstructionView::StackAllocUninit(result_type@), pointer_view())] =~= slots);
        lemma_emitted_then(e0, d0, e2, d2, e3, d3, slots, cap);
        let closure = body_closure_code(spec_body, body_fn_view, cap_value, n + 2 + cap.len()).0;
        lemma_emitted_then(e0, d0, e3, d3, e4, d4, slots + cap, closure);
        lemma_emitted_then(e0, d0, e4, d4, e, *definition, slots + cap + closure, setjmp_test_code(buf_ptr, n + 2 + cap.len() + closure.len()));
    }
    let mut k: usize = 0;
    let ghost before = prologue@;
    while k < e.pending.len()
        invariant
            0 <= k <= e.pending@.len(),
            prologue@ == before + e.pending@.subrange(0, k as int),
        decreases e.pending@.len() - k,
    {
        prologue.push(e.pending[k]);
        k = k + 1;
        proof {
            assert(prologue@ =~= before + e.pending@.subrange(0, k as int));
        }
    }
    proof {
        assert(e.pending@.subrange(0, k as int) =~= e.pending@);
        assert(e0.pending@ + crate::mir::effects::lowering::id_range(n, (definition.instructions@.len() - n) as nat) =~= crate::mir::effects::lowering::id_range(n, (definition.instructions@.len() - n) as nat));
    }
    SetjmpPrologue { result_slot_ptr, body_closure, is_zero }
}

/// The type of an abort or tail-resume wrapper of a case of shape `shape`: a function of the
/// operation's arguments, with a pointer environment, returning what the operation returns.
pub open spec fn wrapper_type_view(shape: CaseShape) -> TypeView {
    TypeView::Function(
        Box::new(
            FunctionTypeView {
                parameters: types_view(shape.op_arg_types@),
                environment: pointer_view(),
                return_type: shape.op_return_type@,
            },
        ),
    )
}

/// A copy of `handler_def` as the wrapper of case `case_index`: with id `new_id`, a name that
/// says so, the wrapper's type, and the operation's arguments and a pointer as the parameters of
/// its entry block.
pub fn clone_handler_for_wrapper(handler_def: &Definition, new_id: DefinitionId, shape: &CaseShape, case_index: u32) -> (r: Definition)
    requires
        handler_def.blocks@.len() > 0,
    ensures
        r.id == new_id,
        r.generic_count == handler_def.generic_count,
        r.name@ == handler_def.name@ + "_abort_wrapper_"@ + decimal(case_index as nat),
        r.typ@ == wrapper_type_view(*shape),
        r.blocks@.len() == handler_def.blocks@.len(),
        r.blocks@[0].parameter_types@ == shape.op_arg_types@.push(Type::Primitive(PrimitiveType::Pointer)),
        r.blocks@[0].instructions@ == handler_def.blocks@[0].instructions@,
        match handler_def.blocks@[0].terminator {
            Some(t) => r.blocks@[0].terminator matches Some(u) && same_terminator(t, u),
            None => r.blocks@[0].terminator is None,
        },
        forall|b: int| 0 < b < handler_def.blocks@.len() ==> same_block(handler_def.blocks@[b], #[trigger] r.blocks@[b]),
        r.instructions@.len() == handler_def.instructions@.len(),
        forall|i: int| 0 <= i < handler_def.instructions@.len() ==> (#[trigger] r.instructions@[i])@ == handler_def.instructions@[i]@,
        r.instruction_result_types@ == handler_def.instruction_result_types@,
{
    let mut def = handler_def.clone_with_id(new_id);
    let parameters = clone_types(&shape.op_arg_types);
    let environment = Type::pointer();
    let return_type = shape.op_return_type.clone();
    assert(environment@ == pointer_view());
    def.typ = Type::Function(Arc::new(FunctionType { parameters, environment, return_type }));
    let mut name = (*handler_def.name).clone();
    name.append("_abort_wrapper_");
    push_decimal(&mut name, case_index as u64);
    def.name = Arc::new(name);
    let mut entry_parameters = clone_types(&shape.op_arg_types);
    entry_parameters.push(Type::pointer());
    let mut entry = Block::new(Vec::new());
    std::mem::swap(&mut entry, &mut def.blocks[0]);
    entry.parameter_types = entry_parameters;
    def.blocks.set(0, entry);
    proof {
        reveal_strlit("_abort_wrapper_");
        assert(def.typ@ == wrapper_type_view(*shape));
    }
    def
}

/// The map with each case's effect operation mapped to the case's position, later cases winning.
pub open spec fn with_op_indices(map: Map<DefinitionId, u32>, cases: Seq<HandlerCase>) -> Map<DefinitionId, u32>
    decreases cases.len(),
{
    if cases.len() == 0 {
        map
    } else {
        with_op_indices(map, cases.drop_last()).insert(cases.last().effect_op, (cases.len() - 1) as u32)
    }
}

/// Records the position of each case's effect operation among the cases.
pub fn preserve_op_indices(map: &mut DefinitionMap<u32>, cases: &Vec<HandlerCase>)
    requires
        cases@.len() <= u32::MAX + 1,
    ensures
        final(map)@ == with_op_indices(old(map)@, cases@),
{
    let mut i: usize = 0;
    while i < cases.len()
        invariant
            0 <= i <= cases@.len(),
            cases@.len() <= u32::MAX + 1,
            map@ == with_op_indices(old(map)@, cases@.subrange(0, i as int)),
        decreases cases@.len() - i,
    {
        fx_map_insert(map, cases[i].effect_op, i as u32);
        i = i + 1;
        proof {
            assert(cases@.subrange(0, i as int).drop_last() =~= cases@.subrange(0, i - 1));
        }
    }
    proof {
        assert(cases@.subrange(0, i as int) =~= cases@);
    }
}

} // verus!
