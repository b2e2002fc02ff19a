//! Parts of the lowering of closures to explicit tuple operations: dropping closures that
//! monomorphization left without an environment, and expanding a closure call into taking the
//! function and environment out of the closure tuple and calling the function.
use crate::fx::{DefinitionMap, fx_map_get, fx_set_contains, fx_set_insert, fx_set_new};
use crate::mir::definition::{Block, Definition};
use crate::mir::instruction::Instruction;
use crate::mir::types::{PrimitiveType, Type, TypeView, spec_is_closure};
use crate::mir::values::{BlockId, DefinitionId, InstructionId, Value};
use vstd::prelude::*;

verus! {

pub fn is_no_closure_env(typ: &Type) -> (r: bool)
    ensures
        r == (*typ == Type::Primitive(PrimitiveType::NoClosureEnv)),
{
    match typ {
        Type::Primitive(PrimitiveType::NoClosureEnv) => true,
        _ => false,
    }
}

/// `v` is a parameter of the entry block, whose parameter types are `entry`, of type
/// `NoClosureEnv`.
pub open spec fn is_no_closure_env_parameter(entry: Seq<Type>, v: Value) -> bool {
    v matches Value::Parameter(b, i) && b == BlockId(0) && i < entry.len() && entry[i as int] == Type::Primitive(
        PrimitiveType::NoClosureEnv,
    )
}

/// `arguments` without the references to `NoClosureEnv` parameters of the entry block.
pub open spec fn without_no_closure_env(entry: Seq<Type>, arguments: Seq<Value>) -> Seq<Value>
    decreases arguments.len(),
{
    if arguments.len() == 0 {
        seq![]
    } else {
        let rest = without_no_closure_env(entry, arguments.drop_last());
        if is_no_closure_env_parameter(entry, arguments.last()) {
            rest
        } else {
            rest.push(arguments.last())
        }
    }
}

/// The instruction with references to `NoClosureEnv` entry parameters dropped from the arguments
/// of a call; any other instruction as it is.
pub open spec fn instruction_without_no_closure_env(entry: Seq<Type>, old: Instruction, new: Instruction) -> bool {
    match old {
        Instruction::Call { function, arguments } => new matches Instruction::Call { function: f, arguments: a } && f
            == function && a@ == without_no_closure_env(entry, arguments@),
        Instruction::CallClosure { closure, arguments } => new matches Instruction::CallClosure { closure: c, arguments: a }
            && c == closure && a@ == without_no_closure_env(entry, arguments@),
        _ => new == old,
    }
}

/// The entry parameters among the first `n` whose type is `NoClosureEnv`, in order.
pub open spec fn no_closure_env_parameters(entry: Seq<Type>, n: int) -> Seq<Value>
    decreases n,
{
    if n <= 0 {
        seq![]
    } else {
        let rest = no_closure_env_parameters(entry, n - 1);
        if entry[n - 1] == Type::Primitive(PrimitiveType::NoClosureEnv) {
            rest.push(Value::Parameter(BlockId(0), (n - 1) as u32))
        } else {
            rest
        }
    }
}

proof fn lemma_no_closure_env_parameters(entry: Seq<Type>, n: int)
    requires
        0 <= n <= entry.len() <= u32::MAX,
    ensures
        forall|v: Value|
            no_closure_env_parameters(entry, n).contains(v) <==> (is_no_closure_env_parameter(entry, v) && v->Parameter_1 < n),
    decreases n,
{
    if n > 0 {
        lemma_no_closure_env_parameters(entry, n - 1);
        let rest = no_closure_env_parameters(entry, n - 1);
        let p = Value::Parameter(BlockId(0), (n - 1) as u32);
        assert forall|v: Value|
            no_closure_env_parameters(entry, n).contains(v) <==> (is_no_closure_env_parameter(entry, v) && v->Parameter_1 < n) by {
            if entry[n - 1] == Type::Primitive(PrimitiveType::NoClosureEnv) {
                let s = rest.push(p);
                if s.contains(v) {
                    let x = choose|x: int| 0 <= x < s.len() && s[x] == v;
                    if x < rest.len() {
                        assert(rest.contains(v));
                    }
                }
                if is_no_closure_env_parameter(entry, v) && v->Parameter_1 < n {
                    if v->Parameter_1 < n - 1 {
                        assert(rest.contains(v));
                        let x = choose|x: int| 0 <= x < rest.len() && rest[x] == v;
                        assert(s[x] == v);
                    } else {
                        assert(s[s.len() - 1] == v);
                    }
                }
            }
        }
    }
}

proof fn lemma_nothing_to_drop(entry: Seq<Type>, arguments: Seq<Value>)
    requires
        forall|v: Value| !is_no_closure_env_parameter(entry, v),
    ensures
        without_no_closure_env(entry, arguments) == arguments,
    decreases arguments.len(),
{
    if arguments.len() > 0 {
        lemma_nothing_to_drop(entry, arguments.drop_last());
        assert(arguments.drop_last().push(arguments.last()) =~= arguments);
    }
}

fn retain_live_arguments(arguments: Vec<Value>, to_remove: &Vec<Value>, Ghost(entry): Ghost<Seq<Type>>) -> (r: Vec<Value>)
    requires
        forall|v: Value| to_remove@.contains(v) <==> is_no_closure_env_parameter(entry, v),
    ensures
        r@ == without_no_closure_env(entry, arguments@),
{
    let mut r: Vec<Value> = Vec::new();
    let mut i: usize = 0;
    while i < arguments.len()
        invariant
            0 <= i <= arguments@.len(),
            forall|v: Value| to_remove@.contains(v) <==> is_no_closure_env_parameter(entry, v),
            r@ == without_no_closure_env(entry, arguments@.subrange(0, i as int)),
        decreases arguments@.len() - i,
    {
        let v = arguments[i];
        let mut found = false;
        let mut k: usize = 0;
        while k < to_remove.len()
            invariant
                0 <= k <= to_remove@.len(),
                found <==> exists|x: int| 0 <= x < k && to_remove@[x] == v,
            decreases to_remove@.len() - k,
        {
            if to_remove[k] == v {
                found = true;
            }
            k = k + 1;
        }
        if !found {
            r.push(v);
        }
        proof {
            assert(arguments@.subrange(0, i + 1).drop_last() =~= arguments@.subrange(0, i as int));
            assert(arguments@.subrange(0, i + 1).last() == v);
            assert(without_no_closure_env(entry, arguments@.subrange(0, i + 1)) == if is_no_closure_env_parameter(entry, v) {
                without_no_closure_env(entry, arguments@.subrange(0, i as int))
            } else {
                without_no_closure_env(entry, arguments@.subrange(0, i as int)).push(v)
            });
            if to_remove@.contains(v) {
                let x = choose|x: int| 0 <= x < to_remove@.len() && to_remove@[x] == v;
                assert(exists|x: int| 0 <= x < to_remove@.len() && to_remove@[x] == v);
            }
            assert(found <==> to_remove@.contains(v));
        }
        i = i + 1;
    }
    proof {
        assert(arguments@.subrange(0, i as int) =~= arguments@);
    }
    r
}

/// Remove references to `NoClosureEnv` entry block parameters from argument lists
/// in `Call` / `CallClosure` instructions.
pub fn remove_no_closure_env_parameter_references(definition: &mut Definition)
    requires
        old(definition).blocks@.len() > 0,
        old(definition).blocks@[0].parameter_types@.len() <= u32::MAX,
    ensures
        final(definition).instructions@.len() == old(definition).instructions@.len(),
        forall|k: int|
            0 <= k < old(definition).instructions@.len() ==> instruction_without_no_closure_env(
                old(definition).blocks@[0].parameter_types@,
                old(definition).instructions@[k],
                #[trigger] final(definition).instructions@[k],
            ),
        final(definition).blocks == old(definition).blocks,
        final(definition).instruction_result_types == old(definition).instruction_result_types,
        final(definition).name == old(definition).name,
        final(definition).id == old(definition).id,
        final(definition).typ == old(definition).typ,
        final(definition).generic_count == old(definition).generic_count,
{
    let ghost entry = definition.blocks@[0].parameter_types@;
    let mut to_remove: Vec<Value> = Vec::new();
    let parameters = &definition.blocks[0].parameter_types;
    let mut i: usize = 0;
    while i < parameters.len()
        invariant
            0 <= i <= parameters@.len(),
            parameters@ == entry,
            to_remove@ == no_closure_env_parameters(entry, i as int),
            parameters@.len() <= u32::MAX,
        decreases parameters@.len() - i,
    {
        if is_no_closure_env(&parameters[i]) {
            to_remove.push(Value::Parameter(BlockId(0), i as u32));
        }
        i = i + 1;
    }
    proof {
        lemma_no_closure_env_parameters(entry, i as int);
    }
    if to_remove.len() == 0 {
        proof {
            assert forall|v: Value| !is_no_closure_env_parameter(entry, v) by {
                if is_no_closure_env_parameter(entry, v) {
                    assert(to_remove@.contains(v));
                }
            }
            assert forall|k: int| 0 <= k < definition.instructions@.len() implies instruction_without_no_closure_env(
                entry,
                definition.instructions@[k],
                #[trigger] definition.instructions@[k],
            ) by {
                match definition.instructions@[k] {
                    Instruction::Call { function, arguments } => {
                        lemma_nothing_to_drop(entry, arguments@);
                    },
                    Instruction::CallClosure { closure, arguments } => {
                        lemma_nothing_to_drop(entry, arguments@);
                    },
                    _ => {},
                }
            }
        }
        return;
    }
    let mut k: usize = 0;
    while k < definition.instructions.len()
        invariant
            0 <= k <= definition.instructions@.len(),
            definition.instructions@.len() == old(definition).instructions@.len(),
            forall|v: Value| to_remove@.contains(v) <==> is_no_closure_env_parameter(entry, v),
            entry == old(definition).blocks@[0].parameter_types@,
            forall|x: int|
                0 <= x < k ==> instruction_without_no_closure_env(entry, old(definition).instructions@[x], #[trigger] definition.instructions@[x]),
            forall|x: int| k <= x < definition.instructions@.len() ==> #[trigger] definition.instructions@[x] == old(definition).instructions@[x],
            definition.blocks == old(definition).blocks,
            definition.instruction_result_types == old(definition).instruction_result_types,
            definition.name == old(definition).name,
            definition.id == old(definition).id,
            definition.typ == old(definition).typ,
            definition.generic_count == old(definition).generic_count,
        decreases definition.instructions@.len() - k,
    {
        let mut taken = Instruction::Capability;
        std::mem::swap(&mut taken, &mut definition.instructions[k]);
        let new_instruction = match taken {
            Instruction::Call { function, arguments } => Instruction::Call {
                function,
                arguments: retain_live_arguments(arguments, &to_remove, Ghost(entry)),
            },
            Instruction::CallClosure { closure, arguments } => Instruction::CallClosure {
                closure,
                arguments: retain_live_arguments(arguments, &to_remove, Ghost(entry)),
            },
            other => other,
        };
        definition.instructions.set(k, new_instruction);
        k = k + 1;
    }
}

/// `s` with `inserted` put in front of the first occurrence of `at`.
pub open spec fn inserted_before(s: Seq<InstructionId>, at: InstructionId, inserted: Seq<InstructionId>, new: Seq<InstructionId>) -> bool {
    exists|pos: int|
        0 <= pos < s.len() && s[pos] == at && (forall|j: int| 0 <= j < pos ==> s[j] != at) && new == s.subrange(0, pos)
            + inserted + s.subrange(pos, s.len() as int)
}

/// Expands the closure call `call_id` in block `block_id`: the function and the environment are
/// taken out of the closure tuple by two new instructions, put just before the call, and the
/// call becomes a plain call of the function with the environment as a last argument.
pub fn lower_one_call_closure(
    definition: &mut Definition,
    block_id: BlockId,
    call_id: InstructionId,
    fn_type: Type,
    env_type: Type,
    closure: Value,
    arguments: Vec<Value>,
)
    requires
        block_id.0 < old(definition).blocks@.len(),
        call_id.0 < old(definition).instructions@.len(),
        old(definition).blocks@[block_id.0 as int].instructions@.contains(call_id),
        old(definition).instructions@.len() == old(definition).instruction_result_types@.len(),
        old(definition).instructions@.len() + 2 <= u32::MAX,
    ensures
        ({
            let n = old(definition).instructions@.len();
            let b = block_id.0 as int;
            &&& final(definition).instructions@.len() == n + 2
            &&& forall|k: int| 0 <= k < n && k != call_id.0 ==> #[trigger] final(definition).instructions@[k] == old(definition).instructions@[k]
            &&& final(definition).instructions@[call_id.0 as int]@ == crate::mir::instruction::InstructionView::Call {
                function: Value::InstructionResult(InstructionId(n as u32)),
                arguments: arguments@.push(Value::InstructionResult(InstructionId((n + 1) as u32))),
            }
            &&& final(definition).instructions@[n as int] == Instruction::IndexTuple { tuple: closure, index: 0 }
            &&& final(definition).instructions@[(n + 1) as int] == Instruction::IndexTuple { tuple: closure, index: 1 }
            &&& final(definition).instruction_result_types@ == old(definition).instruction_result_types@.push(fn_type).push(env_type)
            &&& final(definition).blocks@.len() == old(definition).blocks@.len()
            &&& inserted_before(
                old(definition).blocks@[b].instructions@,
                call_id,
                seq![InstructionId(n as u32), InstructionId((n + 1) as u32)],
                final(definition).blocks@[b].instructions@,
            )
            &&& final(definition).blocks@[b].parameter_types == old(definition).blocks@[b].parameter_types
            &&& final(definition).blocks@[b].terminator == old(definition).blocks@[b].terminator
            &&& forall|x: int| 0 <= x < old(definition).blocks@.len() && x != b ==> #[trigger] final(definition).blocks@[x] == old(definition).blocks@[x]
        }),
        final(definition).name == old(definition).name,
        final(definition).id == old(definition).id,
        final(definition).typ == old(definition).typ,
        final(definition).generic_count == old(definition).generic_count,
{
    let ghost n = definition.instructions@.len();
    let extract_fn = InstructionId(definition.instructions.len() as u32);
    definition.instructions.push(Instruction::IndexTuple { tuple: closure, index: 0 });
    definition.instruction_result_types.push(fn_type);
    let extract_env = InstructionId(definition.instructions.len() as u32);
    definition.instructions.push(Instruction::IndexTuple { tuple: closure, index: 1 });
    definition.instruction_result_types.push(env_type);

    let mut new_args = arguments;
    new_args.push(Value::InstructionResult(extract_env));
    definition.instructions.set(
        call_id.0 as usize,
        Instruction::Call { function: Value::InstructionResult(extract_fn), arguments: new_args },
    );

    let b = block_id.0 as usize;
    let mut block = Block::new(Vec::new());
    std::mem::swap(&mut block, &mut definition.blocks[b]);
    let ghost old_ids = block.instructions@;
    let mut pos: usize = 0;
    while pos < block.instructions.len() && block.instructions[pos] != call_id
        invariant
            0 <= pos <= block.instructions@.len(),
            block.instructions@ == old_ids,
            old_ids.contains(call_id),
            forall|j: int| 0 <= j < pos ==> old_ids[j] != call_id,
        decreases block.instructions@.len() - pos,
    {
        pos = pos + 1;
    }
    proof {
        if pos == block.instructions@.len() {
            let x = choose|x: int| 0 <= x < old_ids.len() && old_ids[x] == call_id;
            assert(old_ids[x] != call_id);
        }
        assert(old_ids[pos as int] == call_id);
    }
    let mut ids: Vec<InstructionId> = Vec::new();
    let mut j: usize = 0;
    while j < pos
        invariant
            0 <= j <= pos,
            pos < old_ids.len(),
            block.instructions@ == old_ids,
            ids@ == old_ids.subrange(0, j as int),
        decreases pos - j,
    {
        ids.push(block.instructions[j]);
        j = j + 1;
    }
    ids.push(extract_fn);
    ids.push(extract_env);
    let mut j: usize = pos;
    let ghost prefix = ids@;
    while j < block.instructions.len()
        invariant
            pos <= j <= old_ids.len(),
            block.instructions@ == old_ids,
            ids@ == prefix + old_ids.subrange(pos as int, j as int),
        decreases old_ids.len() - j,
    {
        ids.push(block.instructions[j]);
        j = j + 1;
        proof {
            assert(ids@ =~= prefix + old_ids.subrange(pos as int, j as int));
        }
    }
    proof {
        assert(prefix =~= old_ids.subrange(0, pos as int) + seq![extract_fn, extract_env]);
        assert(ids@ =~= old_ids.subrange(0, pos as int) + seq![extract_fn, extract_env] + old_ids.subrange(pos as int, old_ids.len() as int));
        assert(inserted_before(old_ids, call_id, seq![extract_fn, extract_env], ids@));
    }
    block.instructions = ids;
    definition.blocks.set(b, block);
}

/// Instruction `k` gives a plain function pointer: it instantiates a definition, or passes one,
/// or passes on such a pointer given by an earlier instruction.
pub open spec fn is_fn_ptr_result(instructions: Seq<Instruction>, k: int) -> bool
    decreases k,
{
    if k < 0 || k >= instructions.len() {
        false
    } else {
        match instructions[k] {
            Instruction::Instantiate(_, _) => true,
            Instruction::Id(Value::Definition(_)) => true,
            Instruction::Id(Value::InstructionResult(prev)) => prev.0 < k && is_fn_ptr_result(instructions, prev.0 as int),
            _ => false,
        }
    }
}

/// A closure tuple `(fn, env)` type becomes its function; any other type stays as it is.
pub open spec fn fn_ptr_type(t: Type) -> Type {
    match t {
        Type::Tuple(fields) => if fields@.len() == 2 && fields@[0] is Function && !(fields@[1] is Function) {
            fields@[0]
        } else {
            t
        },
        _ => t,
    }
}

/// The rewrite of closure types into `(fn, env)` tuples also rewrote the result types of the
/// instructions that give a plain function pointer; this gives them back their function type.
pub fn fix_fn_ptr_id_chains(definition: &mut Definition)
    requires
        old(definition).instructions@.len() <= old(definition).instruction_result_types@.len(),
        old(definition).instructions@.len() <= u32::MAX,
    ensures
        final(definition).instruction_result_types@.len() == old(definition).instruction_result_types@.len(),
        forall|k: int|
            0 <= k < old(definition).instruction_result_types@.len() ==> #[trigger] final(definition).instruction_result_types@[k]
                == if is_fn_ptr_result(old(definition).instructions@, k) {
                fn_ptr_type(old(definition).instruction_result_types@[k])
            } else {
                old(definition).instruction_result_types@[k]
            },
        final(definition).instructions == old(definition).instructions,
        final(definition).blocks == old(definition).blocks,
        final(definition).name == old(definition).name,
        final(definition).id == old(definition).id,
        final(definition).typ == old(definition).typ,
        final(definition).generic_count == old(definition).generic_count,
{
    let ghost instructions = definition.instructions@;
    let mut fn_ptr_results = fx_set_new();
    let mut k: usize = 0;
    while k < definition.instructions.len()
        invariant
            0 <= k <= instructions.len(),
            instructions == definition.instructions@,
            instructions.len() <= u32::MAX,
            forall|x: u32| #[trigger] fn_ptr_results@.contains(x) <==> (x < k && is_fn_ptr_result(instructions, x as int)),
        decreases instructions.len() - k,
    {
        let is_fn_ptr = match &definition.instructions[k] {
            Instruction::Instantiate(_, _) => true,
            Instruction::Id(Value::Definition(_)) => true,
            Instruction::Id(Value::InstructionResult(prev)) => fx_set_contains(&fn_ptr_results, prev.0),
            _ => false,
        };
        if is_fn_ptr {
            fx_set_insert(&mut fn_ptr_results, k as u32);
        }
        k = k + 1;
    }
    let ghost types = definition.instruction_result_types@;
    let mut k: usize = 0;
    while k < definition.instructions.len()
        invariant
            0 <= k <= instructions.len(),
            instructions == definition.instructions@,
            definition.instructions == old(definition).instructions,
            instructions.len() <= u32::MAX,
            instructions.len() <= types.len(),
            definition.instruction_result_types@.len() == types.len(),
            forall|x: u32| #[trigger] fn_ptr_results@.contains(x) <==> (x < instructions.len() && is_fn_ptr_result(instructions, x as int)),
            forall|x: int|
                0 <= x < types.len() ==> #[trigger] definition.instruction_result_types@[x] == if x < k && is_fn_ptr_result(instructions, x) {
                    fn_ptr_type(types[x])
                } else {
                    types[x]
                },
            definition.blocks == old(definition).blocks,
            definition.name == old(definition).name,
            definition.id == old(definition).id,
            definition.typ == old(definition).typ,
            definition.generic_count == old(definition).generic_count,
        decreases instructions.len() - k,
    {
        if fx_set_contains(&fn_ptr_results, k as u32) {
            let fixed = match &definition.instruction_result_types[k] {
                Type::Tuple(fields) => {
                    if fields.len() == 2 && matches!(&fields[0], Type::Function(_)) && !matches!(&fields[1], Type::Function(_)) {
                        Some(fields[0].clone())
                    } else {
                        None
                    }
                },
                _ => None,
            };
            if let Some(t) = fixed {
                definition.instruction_result_types.set(k, t);
            }
        }
        k = k + 1;
    }
}

/// The type is a function type with a closure environment.
pub open spec fn type_is_closure(t: Type) -> bool {
    t@ is Function && spec_is_closure(*t@->Function_0)
}

/// The closure value `v` may hold a real closure: its type, where it is known, is a closure
/// type; a value of any other form is taken to be one.
pub open spec fn closure_is_real(d: Definition, definition_types: Map<DefinitionId, Type>, v: Value) -> bool {
    match v {
        Value::InstructionResult(id) => type_is_closure(d.instruction_result_types@[id.0 as int]),
        Value::Parameter(b, i) => type_is_closure(d.blocks@[b.0 as int].parameter_types@[i as int]),
        Value::Definition(id) => type_is_closure(definition_types[id]),
        _ => true,
    }
}

/// The types that decide whether the closures of `d` are real can be looked up.
pub open spec fn closures_resolvable(d: Definition, definition_types: Map<DefinitionId, Type>) -> bool {
    forall|k: int|
        0 <= k < d.instructions@.len() ==> match #[trigger] d.instructions@[k] {
            Instruction::CallClosure { closure, .. } => match closure {
                Value::InstructionResult(id) => id.0 < d.instruction_result_types@.len(),
                Value::Parameter(b, i) => b.0 < d.blocks@.len() && i < d.blocks@[b.0 as int].parameter_types@.len(),
                Value::Definition(id) => definition_types.contains_key(id),
                _ => true,
            },
            Instruction::PackClosure { .. } => k < d.instruction_result_types@.len(),
            _ => true,
        }
}

/// Instruction `new` is `old`, of result type `result`, with references to `NoClosureEnv`
/// entry parameters dropped from call arguments, and closure calls and packs whose closure is not
/// real made a plain call and a plain pass of the function.
pub open spec fn redundant_closure_eliminated(
    d: Definition,
    definition_types: Map<DefinitionId, Type>,
    old: Instruction,
    result: Type,
    new: Instruction,
) -> bool {
    let entry = d.blocks@[0].parameter_types@;
    match old {
        Instruction::CallClosure { closure, arguments } => if closure_is_real(d, definition_types, closure) {
            new matches Instruction::CallClosure { closure: c, arguments: a } && c == closure && a@ == without_no_closure_env(
                entry,
                arguments@,
            )
        } else {
            new matches Instruction::Call { function: f, arguments: a } && f == closure && a@ == without_no_closure_env(
                entry,
                arguments@,
            )
        },
        Instruction::PackClosure { function, environment: _ } => if type_is_closure(result) {
            new == old
        } else {
            new == Instruction::Id(function)
        },
        _ => instruction_without_no_closure_env(entry, old, new),
    }
}

/// Convert `CallClosure` to `Call` and `PackClosure` to `Id` for closures whose env
/// was specialized to `NoClosureEnv` by monomorphization, and drop references
/// to orphan `NoClosureEnv` parameters from instruction argument lists.
pub fn eliminate_redundant_closures(definition: &mut Definition, definition_types: &DefinitionMap<Type>)
    requires
        old(definition).blocks@.len() > 0,
        old(definition).blocks@[0].parameter_types@.len() <= u32::MAX,
        closures_resolvable(*old(definition), definition_types@),
    ensures
        final(definition).instructions@.len() == old(definition).instructions@.len(),
        forall|k: int|
            0 <= k < old(definition).instructions@.len() ==> redundant_closure_eliminated(
                *old(definition),
                definition_types@,
                old(definition).instructions@[k],
                old(definition).instruction_result_types@[k],
                #[trigger] final(definition).instructions@[k],
            ),
        final(definition).blocks == old(definition).blocks,
        final(definition).instruction_result_types == old(definition).instruction_result_types,
        final(definition).name == old(definition).name,
        final(definition).id == old(definition).id,
        final(definition).typ == old(definition).typ,
        final(definition).generic_count == old(definition).generic_count,
{
    let ghost d0 = *definition;
    remove_no_closure_env_parameter_references(definition);
    let ghost d1 = *definition;
    let mut k: usize = 0;
    while k < definition.instructions.len()
        invariant
            0 <= k <= definition.instructions@.len(),
            definition.instructions@.len() == d0.instructions@.len(),
            d1.instructions@.len() == d0.instructions@.len(),
            d0.blocks@.len() > 0,
            closures_resolvable(d0, definition_types@),
            forall|x: int|
                0 <= x < d0.instructions@.len() ==> instruction_without_no_closure_env(
                    d0.blocks@[0].parameter_types@,
                    d0.instructions@[x],
                    #[trigger] d1.instructions@[x],
                ),
            forall|x: int|
                0 <= x < k ==> redundant_closure_eliminated(
                    d0,
                    definition_types@,
                    d0.instructions@[x],
                    d0.instruction_result_types@[x],
                    #[trigger] definition.instructions@[x],
                ),
            forall|x: int| k <= x < definition.instructions@.len() ==> #[trigger] definition.instructions@[x] == d1.instructions@[x],
            definition.blocks == d0.blocks,
            definition.instruction_result_types == d0.instruction_result_types,
            definition.name == d0.name,
            definition.id == d0.id,
            definition.typ == d0.typ,
            definition.generic_count == d0.generic_count,
        decreases definition.instructions@.len() - k,
    {
        proof {
            assert(instruction_without_no_closure_env(d0.blocks@[0].parameter_types@, d0.instructions@[k as int], d1.instructions@[k as int]));
            let _ = d0.instructions@[k as int];
        }
        let rewrite = match &definition.instructions[k] {
            Instruction::CallClosure { closure, arguments: _ } => {
                let closure_is_real = match closure {
                    Value::InstructionResult(id) => definition.instruction_result_types[id.0 as usize].is_closure(),
                    Value::Parameter(block_id, index) => {
                        definition.blocks[block_id.0 as usize].parameter_types[*index as usize].is_closure()
                    },
                    Value::Definition(id) => match fx_map_get(definition_types, *id) {
                        Some(t) => t.is_closure(),
                        None => true,
                    },
                    _ => true,
                };
                !closure_is_real
            },
            Instruction::PackClosure { function: _, environment: _ } => !definition.instruction_result_types[k].is_closure(),
            _ => false,
        };
        if rewrite {
            let mut taken = Instruction::Capability;
            std::mem::swap(&mut taken, &mut definition.instructions[k]);
            let new_instruction = match taken {
                Instruction::CallClosure { closure, arguments } => Instruction::Call { function: closure, arguments },
                Instruction::PackClosure { function, environment: _ } => Instruction::Id(function),
                other => other,
            };
            definition.instructions.set(k, new_instruction);
        }
        k = k + 1;
    }
}


/// Whether the closures of `d` resolve in `definition_types` ([closures_resolvable]).
pub fn closures_resolvable_check(d: &Definition, definition_types: &DefinitionMap<Type>) -> (r: bool)
    ensures
        r == closures_resolvable(*d, definition_types@),
{
    let mut k: usize = 0;
    while k < d.instructions.len()
        invariant
            0 <= k <= d.instructions@.len(),
            forall|j: int| 0 <= j < k ==> match #[trigger] d.instructions@[j] {
                Instruction::CallClosure { closure, .. } => match closure {
                    Value::InstructionResult(id) => id.0 < d.instruction_result_types@.len(),
                    Value::Parameter(b, i) => b.0 < d.blocks@.len() && i < d.blocks@[b.0 as int].parameter_types@.len(),
                    Value::Definition(id) => definition_types@.contains_key(id),
                    _ => true,
                },
                Instruction::PackClosure { .. } => j < d.instruction_result_types@.len(),
                _ => true,
            },
        decreases d.instructions@.len() - k,
    {
        let ok = match &d.instructions[k] {
            Instruction::CallClosure { closure, .. } => match closure {
                Value::InstructionResult(id) => (id.0 as usize) < d.instruction_result_types.len(),
                Value::Parameter(b, i) => (b.0 as usize) < d.blocks.len() && (*i as usize) < d.blocks[b.0 as usize].parameter_types.len(),
                Value::Definition(id) => crate::fx::fx_map_contains_key(definition_types, *id),
                _ => true,
            },
            Instruction::PackClosure { .. } => k < d.instruction_result_types.len(),
            _ => true,
        };
        if !ok {
            return false;
        }
        k = k + 1;
    }
    true
}

} // verus!
