//! Basic blocks and definitions (functions and globals).
use crate::fx::{DefinitionMap, fx_map_get};
use crate::mir::instruction::{
    Instruction, InstructionView, TerminatorInstruction, instruction_values, terminator_values,
};
use crate::mir::types::{Type, TypeView, clone_types};
use crate::mir::values::{BlockId, DefinitionId, InstructionId, Value, spec_int_kind};
use std::sync::Arc;
use vstd::prelude::*;

verus! {

/// An item used by a MIR but defined outside of it.
pub struct Extern {
    pub name: Arc<String>,
    pub typ: Type,
}

/// A basic block with linear control-flow until the terminator instruction which may branch.
pub struct Block {
    pub parameter_types: Vec<Type>,
    pub instructions: Vec<InstructionId>,
    pub terminator: Option<TerminatorInstruction>,
}

/// The `(value, type)` pairs of the parameters of block `block_id` whose parameter types are
/// `types`.
pub open spec fn spec_parameters(block_id: BlockId, types: Seq<Type>) -> Seq<(Value, Type)> {
    Seq::new(types.len(), |i: int| (Value::Parameter(block_id, i as u32), types[i]))
}

impl Block {
    pub fn new(parameter_types: Vec<Type>) -> (r: Block)
        ensures
            r.parameter_types == parameter_types,
            r.instructions@ == Seq::<InstructionId>::empty(),
            r.terminator is None,
    {
        Block { parameter_types, instructions: Vec::new(), terminator: None }
    }

    /// Each parameter of this block, which has id `block_id`, as a value with its type.
    pub fn parameters(&self, block_id: BlockId) -> (r: Vec<(Value, Type)>)
        ensures
            r@ == spec_parameters(block_id, self.parameter_types@),
    {
        let mut r: Vec<(Value, Type)> = Vec::new();
        let mut i: usize = 0;
        while i < self.parameter_types.len()
            invariant
                0 <= i <= self.parameter_types@.len(),
                r@ == spec_parameters(block_id, self.parameter_types@).subrange(0, i as int),
            decreases self.parameter_types@.len() - i,
        {
            r.push((Value::Parameter(block_id, i as u32), self.parameter_types[i].clone()));
            i = i + 1;
            proof {
                assert(r@ =~= spec_parameters(block_id, self.parameter_types@).subrange(0, i as int));
            }
        }
        proof {
            assert(r@ =~= spec_parameters(block_id, self.parameter_types@));
        }
        r
    }
}


/// `a` and `b` are the same terminator, switch cases compared by their contents.
pub open spec fn same_terminator(a: TerminatorInstruction, b: TerminatorInstruction) -> bool {
    match a {
        TerminatorInstruction::Switch { int_value, cases, else_, end } => {
            &&& b is Switch
            &&& b->Switch_int_value == int_value
            &&& b->Switch_cases@ == cases@
            &&& b->Switch_else_ == else_
            &&& b->Switch_end == end
        },
        _ => b == a,
    }
}

/// `a` and `b` are the same block, vectors compared by their contents.
pub open spec fn same_block(a: Block, b: Block) -> bool {
    &&& b.parameter_types@ == a.parameter_types@
    &&& b.instructions@ == a.instructions@
    &&& match a.terminator {
        Some(t) => b.terminator matches Some(u) && same_terminator(t, u),
        None => b.terminator is None,
    }
}

/// `b` holds the same blocks, instructions and result types as `a`.
pub open spec fn same_body(a: Definition, b: Definition) -> bool {
    &&& b.blocks@.len() == a.blocks@.len()
    &&& forall|i: int| 0 <= i < a.blocks@.len() ==> same_block(a.blocks@[i], #[trigger] b.blocks@[i])
    &&& b.instructions@.len() == a.instructions@.len()
    &&& forall|i: int| 0 <= i < a.instructions@.len() ==> (#[trigger] b.instructions@[i])@ == a.instructions@[i]@
    &&& b.instruction_result_types@ == a.instruction_result_types@
}

/// A copy of a terminator.
pub fn clone_terminator(t: &TerminatorInstruction) -> (r: TerminatorInstruction)
    ensures
        same_terminator(*t, r),
{
    match t {
        TerminatorInstruction::Jmp(target) => TerminatorInstruction::Jmp(*target),
        TerminatorInstruction::If { condition, then, else_, end } => TerminatorInstruction::If {
            condition: *condition,
            then: *then,
            else_: *else_,
            end: *end,
        },
        TerminatorInstruction::Switch { int_value, cases, else_, end } => {
            let mut copied: Vec<(u32, (BlockId, Option<Value>))> = Vec::new();
            let mut i: usize = 0;
            while i < cases.len()
                invariant
                    0 <= i <= cases@.len(),
                    copied@ == cases@.subrange(0, i as int),
                decreases cases@.len() - i,
            {
                copied.push(cases[i]);
                i = i + 1;
            }
            assert(copied@ =~= cases@);
            TerminatorInstruction::Switch { int_value: *int_value, cases: copied, else_: *else_, end: *end }
        },
        TerminatorInstruction::Unreachable => TerminatorInstruction::Unreachable,
        TerminatorInstruction::Return(v) => TerminatorInstruction::Return(*v),
        TerminatorInstruction::Result(v) => TerminatorInstruction::Result(*v),
    }
}

fn clone_ids(ids: &Vec<InstructionId>) -> (r: Vec<InstructionId>)
    ensures
        r@ == ids@,
{
    let mut r: Vec<InstructionId> = Vec::new();
    let mut i: usize = 0;
    while i < ids.len()
        invariant
            0 <= i <= ids@.len(),
            r@ == ids@.subrange(0, i as int),
        decreases ids@.len() - i,
    {
        r.push(ids[i]);
        i = i + 1;
    }
    assert(r@ =~= ids@);
    r
}

/// A copy of a block.
pub fn clone_block(b: &Block) -> (r: Block)
    ensures
        same_block(*b, r),
{
    let terminator = match &b.terminator {
        Some(t) => Some(clone_terminator(t)),
        None => None,
    };
    Block { parameter_types: clone_types(&b.parameter_types), instructions: clone_ids(&b.instructions), terminator }
}

/// A Definition may be a function or global. Globals are represented
/// as single blocks with no parameters to account for them needing to
/// construct tuples which are instructions in this IR. Additionally, the
/// terminator of a global's block is always `Result`.
pub struct Definition {
    pub name: Arc<String>,
    /// The unique DefinitionId identifying this function
    pub id: DefinitionId,
    /// The number of generic type arguments of this definition
    pub generic_count: u32,
    /// The type of this Definition.
    pub typ: Type,
    /// A function's blocks are always non-empty, consisting of at least an entry
    /// block with `BlockId(0)`; block `BlockId(i)` is `blocks[i]`.
    pub blocks: Vec<Block>,
    /// Each instruction in the function, in no particular order; instruction
    /// `InstructionId(i)` is `instructions[i]`.
    pub instructions: Vec<Instruction>,
    /// The result type of each instruction in this function
    pub instruction_result_types: Vec<Type>,
}

/// The definitions an instruction refers to, in the order
/// [Definition::for_each_referenced_definition] reports them: first the definitions among its
/// values, then the definition it instantiates or the effect operations it performs or handles.
pub open spec fn instruction_references(i: InstructionView) -> Seq<DefinitionId> {
    definitions_in(instruction_values(i)) + match i {
        InstructionView::Instantiate(id, _) => seq![id],
        InstructionView::Perform { effect_op, .. } => seq![effect_op],
        InstructionView::Handle { cases, .. } => cases.map_values(|c: crate::mir::instruction::HandlerCase| c.effect_op),
        _ => seq![],
    }
}

/// The ids of the `Value::Definition`s among `values`, in order.
pub open spec fn definitions_in(values: Seq<Value>) -> Seq<DefinitionId>
    decreases values.len(),
{
    if values.len() == 0 {
        seq![]
    } else {
        definitions_in(values.drop_last()) + match values.last() {
            Value::Definition(id) => seq![id],
            _ => seq![],
        }
    }
}

/// The definitions referred to by the instructions `instructions`, in order.
pub open spec fn instructions_references(instructions: Seq<Instruction>) -> Seq<DefinitionId>
    decreases instructions.len(),
{
    if instructions.len() == 0 {
        seq![]
    } else {
        instructions_references(instructions.drop_last()) + instruction_references(instructions.last()@)
    }
}

/// The definitions referred to by the terminators of `blocks`, in order.
pub open spec fn terminators_references(blocks: Seq<Block>) -> Seq<DefinitionId>
    decreases blocks.len(),
{
    if blocks.len() == 0 {
        seq![]
    } else {
        terminators_references(blocks.drop_last()) + match blocks.last().terminator {
            Some(t) => definitions_in(terminator_values(t)),
            None => seq![],
        }
    }
}

/// Every definition a definition refers to, in order, once per reference.
pub open spec fn spec_referenced_definitions(d: Definition) -> Seq<DefinitionId> {
    instructions_references(d.instructions@) + terminators_references(d.blocks@)
}

/// The type of `value` as seen from within definition `d`, or `None` where it has none: a
/// definition id that is neither in `definitions` nor in `externals` nor `d` itself.
pub open spec fn spec_type_of_value(
    d: Definition,
    value: Value,
    externals: Map<DefinitionId, Extern>,
    definitions: Map<DefinitionId, Definition>,
) -> Option<TypeView> {
    match value {
        Value::Error => Some(TypeView::Primitive(crate::mir::types::PrimitiveType::Error)),
        Value::Unit => Some(TypeView::Primitive(crate::mir::types::PrimitiveType::Unit)),
        Value::Bool(_) => Some(TypeView::Primitive(crate::mir::types::PrimitiveType::Bool)),
        Value::Char(_) => Some(TypeView::Primitive(crate::mir::types::PrimitiveType::Char)),
        Value::Integer(c) => Some(TypeView::Primitive(crate::mir::types::PrimitiveType::Int(spec_int_kind(c)))),
        Value::Float(c) => Some(
            TypeView::Primitive(
                crate::mir::types::PrimitiveType::Float(
                    match c {
                        crate::mir::values::FloatConstant::F32(_) => crate::mir::types::FloatKind::F32,
                        crate::mir::values::FloatConstant::F64(_) => crate::mir::types::FloatKind::F64,
                    },
                ),
            ),
        ),
        Value::InstructionResult(id) => Some(d.instruction_result_types@[id.0 as int]@),
        Value::Parameter(block, index) => if block.0 < d.blocks@.len() && index
            < d.blocks@[block.0 as int].parameter_types@.len() {
            Some(d.blocks@[block.0 as int].parameter_types@[index as int]@)
        } else {
            Some(TypeView::Primitive(crate::mir::types::PrimitiveType::Error))
        },
        Value::Definition(id) => if definitions.contains_key(id) {
            Some(definitions[id].typ@)
        } else if externals.contains_key(id) {
            Some(externals[id].typ@)
        } else if id == d.id {
            Some(d.typ@)
        } else {
            None
        },
    }
}

/// Every instruction result that a value can name exists: the value does not name an
/// instruction beyond those of the definition.
pub open spec fn value_in_bounds(d: Definition, value: Value) -> bool {
    value is InstructionResult ==> value->InstructionResult_0.0 < d.instruction_result_types@.len()
}

/// Appends the ids of the `Value::Definition`s among `values` to `out`.
fn push_definitions(out: &mut Vec<DefinitionId>, values: &Vec<Value>)
    ensures
        final(out)@ == old(out)@ + definitions_in(values@),
{
    let mut i: usize = 0;
    while i < values.len()
        invariant
            0 <= i <= values@.len(),
            out@ == old(out)@ + definitions_in(values@.subrange(0, i as int)),
        decreases values@.len() - i,
    {
        proof {
            assert(values@.subrange(0, i + 1).drop_last() =~= values@.subrange(0, i as int));
        }
        if let Value::Definition(id) = values[i] {
            out.push(id);
        }
        i = i + 1;
        proof {
            assert(out@ =~= old(out)@ + definitions_in(values@.subrange(0, i as int)));
        }
    }
    proof {
        assert(values@.subrange(0, i as int) =~= values@);
    }
}

impl Definition {
    pub fn new(name: Arc<String>, id: DefinitionId, generic_count: u32, typ: Type) -> (r: Definition)
        ensures
            r.name == name,
            r.id == id,
            r.generic_count == generic_count,
            r.typ == typ,
            r.blocks@.len() == 1,
            r.blocks@[0].parameter_types@ == Seq::<Type>::empty(),
            r.blocks@[0].instructions@ == Seq::<InstructionId>::empty(),
            r.blocks@[0].terminator is None,
            r.instructions@ == Seq::<Instruction>::empty(),
            r.instruction_result_types@ == Seq::<Type>::empty(),
    {
        let mut blocks: Vec<Block> = Vec::new();
        blocks.push(Block::new(Vec::new()));
        Definition {
            name,
            id,
            blocks,
            typ,
            generic_count,
            instructions: Vec::new(),
            instruction_result_types: Vec::new(),
        }
    }

    /// Clone this definition but with a new id
    pub fn clone_with_id(&self, new_id: DefinitionId) -> (r: Definition)
        ensures
            r.id == new_id,
            r.name == self.name,
            r.generic_count == self.generic_count,
            r.typ == self.typ,
            same_body(*self, r),
    {
        let mut blocks: Vec<Block> = Vec::new();
        let mut i: usize = 0;
        while i < self.blocks.len()
            invariant
                0 <= i <= self.blocks@.len(),
                blocks@.len() == i,
                forall|k: int| 0 <= k < i ==> same_block(self.blocks@[k], #[trigger] blocks@[k]),
            decreases self.blocks@.len() - i,
        {
            blocks.push(clone_block(&self.blocks[i]));
            i = i + 1;
        }
        let mut instructions: Vec<Instruction> = Vec::new();
        let mut j: usize = 0;
        while j < self.instructions.len()
            invariant
                0 <= j <= self.instructions@.len(),
                instructions@.len() == j,
                forall|k: int| 0 <= k < j ==> (#[trigger] instructions@[k])@ == self.instructions@[k]@,
            decreases self.instructions@.len() - j,
        {
            instructions.push(self.instructions[j].clone());
            j = j + 1;
        }
        Definition {
            name: crate::mir::types::arc_clone(&self.name),
            id: new_id,
            generic_count: self.generic_count,
            typ: self.typ.clone(),
            blocks,
            instructions,
            instruction_result_types: clone_types(&self.instruction_result_types),
        }
    }

    /// True if this [Definition] is a global value rather than a function.
    /// Note that this includes globals whose types are functions.
    pub fn is_global(&self) -> (r: bool)
        ensures
            r == (self.blocks@.len() == 1 && self.blocks@[0].terminator matches Some(
                TerminatorInstruction::Result(_),
            )),
    {
        if self.blocks.len() != 1 {
            return false;
        }
        match &self.entry_block().terminator {
            Some(TerminatorInstruction::Result(_)) => true,
            _ => false,
        }
    }

    pub fn entry_block(&self) -> (r: &Block)
        requires
            self.blocks@.len() > 0,
        ensures
            *r == self.blocks@[0],
    {
        &self.blocks[0]
    }

    /// The parameters of this definition: those of its entry block, as values with their types.
    pub fn parameters(&self) -> (r: Vec<(Value, Type)>)
        requires
            self.blocks@.len() > 0,
        ensures
            r@ == spec_parameters(BlockId(0), self.blocks@[0].parameter_types@),
    {
        self.entry_block().parameters(BlockId::entry_block())
    }

    pub fn instruction_result_type(&self, id: InstructionId) -> (r: &Type)
        requires
            id.0 < self.instruction_result_types@.len(),
        ensures
            *r == self.instruction_result_types@[id.0 as int],
    {
        &self.instruction_result_types[id.0 as usize]
    }

    /// Each [DefinitionId] this definition references, in order: for each instruction the
    /// definitions among its values followed by any definition it instantiates or effect
    /// operation it performs or handles, then the definitions among the values of each block's
    /// terminator.
    pub fn for_each_referenced_definition(&self) -> (r: Vec<DefinitionId>)
        ensures
            r@ == spec_referenced_definitions(*self),
    {
        let mut out: Vec<DefinitionId> = Vec::new();
        let mut i: usize = 0;
        while i < self.instructions.len()
            invariant
                0 <= i <= self.instructions@.len(),
                out@ == instructions_references(self.instructions@.subrange(0, i as int)),
            decreases self.instructions@.len() - i,
        {
            let instruction = &self.instructions[i];
            let values = instruction.for_each_value();
            let ghost before = out@;
            push_definitions(&mut out, &values);
            match instruction {
                Instruction::Instantiate(id, _) => out.push(*id),
                Instruction::Perform { effect_op, .. } => out.push(*effect_op),
                Instruction::Handle { cases, .. } => {
                    let ghost middle = out@;
                    let mut j: usize = 0;
                    while j < cases.len()
                        invariant
                            0 <= j <= cases@.len(),
                            out@ == middle + cases@.subrange(0, j as int).map_values(
                                |c: crate::mir::instruction::HandlerCase| c.effect_op,
                            ),
                        decreases cases@.len() - j,
                    {
                        out.push(cases[j].effect_op);
                        j = j + 1;
                        proof {
                            assert(cases@.subrange(0, j as int).map_values(
                                |c: crate::mir::instruction::HandlerCase| c.effect_op,
                            ) =~= cases@.subrange(0, j - 1).map_values(
                                |c: crate::mir::instruction::HandlerCase| c.effect_op,
                            ).push(cases@[j - 1].effect_op));
                        }
                    }
                    proof {
                        assert(cases@.subrange(0, j as int) =~= cases@);
                    }
                },
                _ => {},
            }
            proof {
                assert(self.instructions@.subrange(0, i + 1).drop_last() =~= self.instructions@.subrange(
                    0,
                    i as int,
                ));
                assert(out@ =~= before + instruction_references(self.instructions@[i as int]@));
            }
            i = i + 1;
        }
        proof {
            assert(self.instructions@.subrange(0, i as int) =~= self.instructions@);
        }
        let ghost after_instructions = out@;
        let mut b: usize = 0;
        while b < self.blocks.len()
            invariant
                0 <= b <= self.blocks@.len(),
                out@ == after_instructions + terminators_references(self.blocks@.subrange(0, b as int)),
            decreases self.blocks@.len() - b,
        {
            proof {
                assert(self.blocks@.subrange(0, b + 1).drop_last() =~= self.blocks@.subrange(0, b as int));
            }
            let ghost before = out@;
            if let Some(terminator) = &self.blocks[b].terminator {
                let values = terminator.for_each_value();
                push_definitions(&mut out, &values);
            }
            proof {
                assert(out@ =~= after_instructions + terminators_references(
                    self.blocks@.subrange(0, b + 1),
                ));
            }
            b = b + 1;
        }
        proof {
            assert(self.blocks@.subrange(0, b as int) =~= self.blocks@);
        }
        out
    }

    /// The type of `value` within this definition, or `None` for a definition id that is
    /// neither in `definitions` nor in `externals` nor this definition's own.
    /// A parameter of a block or an index that does not exist has the error type.
    pub fn try_type_of_value(
        &self,
        value: &Value,
        externals: &DefinitionMap<Extern>,
        definitions: &DefinitionMap<Definition>,
    ) -> (r: Option<Type>)
        requires
            value_in_bounds(*self, *value),
        ensures
            spec_type_of_value(*self, *value, externals@, definitions@) matches Some(t) ==> r is Some
                && r->0@ == t,
            spec_type_of_value(*self, *value, externals@, definitions@) is None ==> r is None,
    {
        match value {
            Value::Error => Some(Type::error()),
            Value::Unit => Some(Type::unit()),
            Value::Bool(_) => Some(Type::bool_type()),
            Value::Char(_) => Some(Type::char_type()),
            Value::Integer(constant) => Some(Type::integer(constant.kind())),
            Value::Float(constant) => Some(Type::float(constant.kind())),
            Value::InstructionResult(instruction_id) => Some(
                self.instruction_result_types[instruction_id.0 as usize].clone(),
            ),
            Value::Parameter(block_id, parameter_index) => {
                // Return Error for out-of-bounds parameters.
                if (block_id.0 as usize) < self.blocks.len() && (*parameter_index as usize)
                    < self.blocks[block_id.0 as usize].parameter_types.len() {
                    Some(self.blocks[block_id.0 as usize].parameter_types[*parameter_index as usize].clone())
                } else {
                    Some(Type::error())
                }
            },
            Value::Definition(definition_id) => {
                if let Some(definition) = fx_map_get(definitions, *definition_id) {
                    Some(definition.typ.clone())
                } else if let Some(external) = fx_map_get(externals, *definition_id) {
                    Some(external.typ.clone())
                } else if *definition_id == self.id {
                    Some(self.typ.clone())
                } else {
                    None
                }
            },
        }
    }

    /// The type of `value` within this definition. The value must have one (see
    /// [Definition::try_type_of_value]).
    pub fn type_of_value(
        &self,
        value: &Value,
        externals: &DefinitionMap<Extern>,
        definitions: &DefinitionMap<Definition>,
    ) -> (r: Type)
        requires
            value_in_bounds(*self, *value),
            spec_type_of_value(*self, *value, externals@, definitions@) is Some,
        ensures
            r@ == spec_type_of_value(*self, *value, externals@, definitions@)->0,
    {
        match self.try_type_of_value(value, externals, definitions) {
            Some(t) => t,
            None => Type::error(),
        }
    }

    /// True if this function is not generic over any type variables
    pub fn is_monomorphic(&self) -> (r: bool)
        ensures
            r == (self.generic_count == 0),
    {
        self.generic_count == 0
    }
}

} // verus!
