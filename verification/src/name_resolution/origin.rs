//! Where a resolved name was defined.
use crate::name_resolution::builtin::Builtin;
use vstd::prelude::*;

verus! {

/// A name local to one top-level definition: its index there.
#[derive(Copy, Clone, Debug, PartialEq, Eq, Structural, Hash, PartialOrd, Ord)]
pub struct NameId(pub u32);

/// A name within a top-level item: the item's id and the name's id local to that item.
#[derive(Copy, Clone, Debug, PartialEq, Eq, Structural, Hash, PartialOrd, Ord)]
pub struct TopLevelName {
    pub top_level_item: u64,
    pub local_name_id: NameId,
}

/// Where was this variable defined?
#[derive(Copy, Clone, Debug, PartialEq, Eq, Structural, Hash, PartialOrd, Ord)]
pub enum Origin {
    /// This name comes from another top level definition
    /// The `NameId` here is local to the given top-level definition, using it in another context
    /// is always a bug.
    TopLevelDefinition(TopLevelName),
    /// This name comes from a local binding (parameter, let-binding, match-binding, etc)
    Local(NameId),
    /// This name did not resolve, try to perform type based resolution on it during type inference
    TypeResolution,
    /// This name refers to a builtin item such as `Unit`, `Char`, etc.
    Builtin(Builtin),
}

/// Whether a name of this origin may name a type: a top-level or local name, or the builtin
/// `Unit` or `Char`.
pub open spec fn spec_may_be_a_type(o: Origin) -> bool {
    match o {
        Origin::TopLevelDefinition(..) | Origin::Local(_) => true,
        Origin::TypeResolution => false,
        Origin::Builtin(builtin) => builtin == Builtin::Unit || builtin == Builtin::Char,
    }
}

impl Origin {
    /// True if this Origin _may_ be a type. This does not have the proper context to check whether
    /// any internal IDs actually refer to types.
    pub fn may_be_a_type(self) -> (r: bool)
        ensures
            r == spec_may_be_a_type(self),
    {
        match self {
            Origin::TopLevelDefinition(..) | Origin::Local(_) => true,
            Origin::TypeResolution => false,
            Origin::Builtin(builtin) => match builtin {
                Builtin::Unit | Builtin::Char => true,
                _ => false,
            },
        }
    }
}

} // verus!
