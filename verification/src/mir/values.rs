//! Identifiers and the values that MIR instructions operate on.
use crate::mir::types::{FloatKind, IntegerKind};
use vstd::prelude::*;

verus! {

/// Identifies a basic block within a [crate::mir::definition::Definition]: its index there.
#[derive(PartialEq, Eq, Structural, Clone, Copy, Debug, Hash)]
pub struct BlockId(pub u32);

impl BlockId {
    /// The entry block, `BlockId(0)`, which every definition has.
    pub fn entry_block() -> (r: BlockId)
        ensures
            r == BlockId(0),
    {
        BlockId(0)
    }
}

/// Identifies an instruction within a [crate::mir::definition::Definition]: its index there.
#[derive(PartialEq, Eq, Structural, Clone, Copy, Debug, Hash)]
pub struct InstructionId(pub u32);

/// Identifies a definition (a function or a global).
#[derive(PartialEq, Eq, Structural, Clone, Copy, Debug, Hash)]
pub struct DefinitionId(pub u32);

#[derive(PartialEq, Eq, Structural, Clone, Copy, Debug, Hash)]
pub enum IntConstant {
    U8(u8),
    U16(u16),
    U32(u32),
    U64(u64),
    Usz(usize),
    I8(i8),
    I16(i16),
    I32(i32),
    I64(i64),
    Isz(isize),
}

pub open spec fn spec_int_kind(c: IntConstant) -> IntegerKind {
    match c {
        IntConstant::U8(_) => IntegerKind::U8,
        IntConstant::U16(_) => IntegerKind::U16,
        IntConstant::U32(_) => IntegerKind::U32,
        IntConstant::U64(_) => IntegerKind::U64,
        IntConstant::Usz(_) => IntegerKind::Usz,
        IntConstant::I8(_) => IntegerKind::I8,
        IntConstant::I16(_) => IntegerKind::I16,
        IntConstant::I32(_) => IntegerKind::I32,
        IntConstant::I64(_) => IntegerKind::I64,
        IntConstant::Isz(_) => IntegerKind::Isz,
    }
}

/// The two's-complement bit pattern of an integer constant, widened to 64 bits (signed
/// constants are sign-extended).
pub open spec fn spec_as_u64(c: IntConstant) -> u64 {
    match c {
        IntConstant::U8(x) => x as u64,
        IntConstant::U16(x) => x as u64,
        IntConstant::U32(x) => x as u64,
        IntConstant::U64(x) => x,
        IntConstant::Usz(x) => x as u64,
        IntConstant::I8(x) => x as u64,
        IntConstant::I16(x) => x as u64,
        IntConstant::I32(x) => x as u64,
        IntConstant::I64(x) => x as u64,
        IntConstant::Isz(x) => x as u64,
    }
}

impl IntConstant {
    pub fn kind(self) -> (r: IntegerKind)
        ensures
            r == spec_int_kind(self),
    {
        match self {
            IntConstant::U8(_) => IntegerKind::U8,
            IntConstant::U16(_) => IntegerKind::U16,
            IntConstant::U32(_) => IntegerKind::U32,
            IntConstant::U64(_) => IntegerKind::U64,
            IntConstant::Usz(_) => IntegerKind::Usz,
            IntConstant::I8(_) => IntegerKind::I8,
            IntConstant::I16(_) => IntegerKind::I16,
            IntConstant::I32(_) => IntegerKind::I32,
            IntConstant::I64(_) => IntegerKind::I64,
            IntConstant::Isz(_) => IntegerKind::Isz,
        }
    }

    /// Bitcast this value to a u64
    pub fn as_u64(&self) -> (r: u64)
        ensures
            r == spec_as_u64(*self),
    {
        match self {
            IntConstant::U8(x) => *x as u64,
            IntConstant::U16(x) => *x as u64,
            IntConstant::U32(x) => *x as u64,
            IntConstant::U64(x) => *x,
            IntConstant::Usz(x) => *x as u64,
            IntConstant::I8(x) => *x as u64,
            IntConstant::I16(x) => *x as u64,
            IntConstant::I32(x) => *x as u64,
            IntConstant::I64(x) => *x as u64,
            IntConstant::Isz(x) => *x as u64,
        }
    }
}

/// A floating-point literal, held as the bit pattern of its 64-bit IEEE value.
#[derive(PartialEq, Eq, Structural, Clone, Copy, Debug, Hash)]
pub struct F64(pub u64);

#[derive(PartialEq, Eq, Structural, Clone, Copy, Debug, Hash)]
pub enum FloatConstant {
    F32(F64),
    F64(F64),
}

impl FloatConstant {
    pub fn kind(self) -> (r: FloatKind)
        ensures
            r == (match self {
                FloatConstant::F32(_) => FloatKind::F32,
                FloatConstant::F64(_) => FloatKind::F64,
            }),
    {
        match self {
            FloatConstant::F32(_) => FloatKind::F32,
            FloatConstant::F64(_) => FloatKind::F64,
        }
    }
}

#[derive(PartialEq, Eq, Structural, Clone, Copy, Debug, Hash)]
pub enum Value {
    Error,
    Unit,
    Bool(bool),
    Char(char),
    Integer(IntConstant),
    Float(FloatConstant),
    /// Each Instruction defines exactly 1 Value
    InstructionResult(InstructionId),
    /// The Nth parameter of the given block (starting from 0)
    /// If the block is the entry block, these are the function parameters
    Parameter(BlockId, u32),
    /// A global, often a function
    Definition(DefinitionId),
}

impl Value {
    /// Returns a value representing a union's tag.
    /// This should always be of type [crate::mir::types::Type::tag_type()]
    pub fn tag_value(value: u8) -> (r: Value)
        ensures
            r == Value::Integer(IntConstant::U8(value)),
    {
        Value::Integer(IntConstant::U8(value))
    }
}

} // verus!
