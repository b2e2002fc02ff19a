//! The builtin items that can be redefined (are not keywords).
use vstd::prelude::*;
use vstd::string::{StrSliceExecFns, StringExecFns};

verus! {

/// Contains only builtin items which can be redefined (are not keywords).
/// This includes most builtin types except for sized-integer and float types `I8`, `I16`, `U32`, etc.
#[derive(Copy, Clone, Debug, PartialEq, Eq, Structural, Hash, PartialOrd, Ord)]
pub enum Builtin {
    /// The Unit type (not value)
    Unit,
    /// The Char type
    Char,
    /// The Bool type
    Bool,
    /// The Ptr type constructor of kind `* -> *`
    Ptr,
    /// The Array type constructor of kind `U32 -> * -> *`. Applied as `Array n t`,
    /// where `n` is a type-level U32 length and `t` is the element type.
    Array,
    /// The bottom type
    Never,
    /// The core `intrinsic` function used in the stdlib as a placeholder for compiler intrinsics
    Intrinsic,
}

/// The builtin that a module sees under `name` as if the prelude exposed it. `Intrinsic` is not
/// among them: it is not imported into modules outside the stdlib.
pub open spec fn spec_from_name(name: Seq<char>) -> Option<Builtin> {
    if name == "Unit"@ {
        Some(Builtin::Unit)
    } else if name == "Char"@ {
        Some(Builtin::Char)
    } else if name == "Bool"@ {
        Some(Builtin::Bool)
    } else if name == "Ptr"@ {
        Some(Builtin::Ptr)
    } else if name == "Array"@ {
        Some(Builtin::Array)
    } else if name == "Never"@ {
        Some(Builtin::Never)
    } else {
        None
    }
}

/// How a builtin is written.
pub open spec fn spec_name(b: Builtin) -> Seq<char> {
    match b {
        Builtin::Unit => "Unit"@,
        Builtin::Char => "Char"@,
        Builtin::Bool => "Bool"@,
        Builtin::Ptr => "Ptr"@,
        Builtin::Array => "Array"@,
        Builtin::Never => "Never"@,
        Builtin::Intrinsic => "intrinsic"@,
    }
}

/// Whether two strings hold the same characters.
pub fn str_equals(a: &str, b: &str) -> (r: bool)
    ensures
        r == (a@ == b@),
{
    let n = a.unicode_len();
    if n != b.unicode_len() {
        return false;
    }
    let mut i: usize = 0;
    while i < n
        invariant
            0 <= i <= n,
            n == a@.len(),
            n == b@.len(),
            forall|k: int| 0 <= k < i ==> a@[k] == b@[k],
        decreases n - i,
    {
        if a.get_char(i) != b.get_char(i) {
            return false;
        }
        i = i + 1;
    }
    assert(a@ =~= b@);
    true
}

impl Builtin {
    /// Return the builtin of the same name, if there is one.
    ///
    /// This should only be implemented for builtins which should be exposed to each module
    /// automatically as if exposed by the Prelude.
    pub fn from_name(name: &str) -> (r: Option<Builtin>)
        ensures
            r == spec_from_name(name@),
    {
        if str_equals(name, "Unit") {
            Some(Builtin::Unit)
        } else if str_equals(name, "Char") {
            Some(Builtin::Char)
        } else if str_equals(name, "Bool") {
            Some(Builtin::Bool)
        } else if str_equals(name, "Ptr") {
            Some(Builtin::Ptr)
        } else if str_equals(name, "Array") {
            Some(Builtin::Array)
        } else if str_equals(name, "Never") {
            Some(Builtin::Never)
        } else {
            // `Intrinsic` is excluded here since it should not be imported into
            // modules outside the stdlib
            None
        }
    }

    /// How this builtin is written.
    pub fn to_string(&self) -> (r: String)
        ensures
            r@ == spec_name(*self),
    {
        match self {
            Builtin::Unit => String::from_str("Unit"),
            Builtin::Char => String::from_str("Char"),
            Builtin::Bool => String::from_str("Bool"),
            Builtin::Ptr => String::from_str("Ptr"),
            Builtin::Array => String::from_str("Array"),
            Builtin::Never => String::from_str("Never"),
            Builtin::Intrinsic => String::from_str("intrinsic"),
        }
    }
}

/// Each builtin that a name gives is found again under the name it is written with.
pub proof fn lemma_from_name_of_name(b: Builtin)
    requires
        b != Builtin::Intrinsic,
    ensures
        spec_from_name(spec_name(b)) == Some(b),
{
    reveal_strlit("Unit");
    reveal_strlit("Char");
    reveal_strlit("Bool");
    reveal_strlit("Ptr");
    reveal_strlit("Array");
    reveal_strlit("Never");
    // The names differ in their first character.
    assert("Unit"@[0] == 'U' && "Char"@[0] == 'C' && "Bool"@[0] == 'B' && "Ptr"@[0] == 'P' && "Array"@[0] == 'A'
        && "Never"@[0] == 'N');
}

} // verus!
