//! The ids of crates, of the modules within a crate, and of source files.
use vstd::prelude::*;
use vstd::string::StringExecFns;

verus! {

/// A crate's id is a hash of its name and its version.
/// Crate ids are expected to be globally unique.
#[derive(Debug, Copy, Clone, Hash, PartialEq, Eq, Structural, PartialOrd, Ord)]
pub struct CrateId(pub u32);

impl CrateId {
    /// `Std` always has id 0
    pub fn stdlib() -> (r: CrateId)
        ensures
            r == CrateId(0),
    {
        CrateId(0)
    }

    /// The local crate always has id 1.
    /// It is the root of the crate graph currently being compiled.
    pub fn local() -> (r: CrateId)
        ensures
            r == CrateId(1),
    {
        CrateId(1)
    }
}

/// A local module id is a hash of the module path from the crate root.
/// Module ids are expected to be unique only within the same crate.
#[derive(Debug, Copy, Clone, Hash, PartialEq, Eq, Structural, PartialOrd, Ord)]
pub struct LocalModuleId(pub u32);

/// A crate's root module always has ID 0
pub fn crate_root_module() -> (r: LocalModuleId)
    ensures
        r == LocalModuleId(0),
{
    LocalModuleId(0)
}

/// A SourceFileId corresponds to one source file in a project
#[derive(Debug, Copy, Clone, Hash, PartialEq, Eq, Structural, PartialOrd, Ord)]
pub struct SourceFileId {
    pub crate_id: CrateId,
    pub local_module_id: LocalModuleId,
}

/// A namespace that names are looked up in.
#[derive(Copy, Clone, PartialEq, Eq, Structural)]
pub enum Namespace {
    /// A local namespace within an expression with possibly both
    /// locals and globals visible.
    Local,
    /// A module within a crate
    Module(SourceFileId),
}

impl Namespace {
    /// The namespace of the root module of crate `crate_id`.
    pub fn crate_(crate_id: CrateId) -> (r: Self)
        ensures
            r == Namespace::Module(SourceFileId { crate_id, local_module_id: LocalModuleId(0) }),
    {
        Namespace::Module(SourceFileId { crate_id, local_module_id: crate_root_module() })
    }
}


/// What `std::path::Path::strip_prefix` makes of the path `path` and the prefix `prefix`: the
/// rest of `path` after the whole components of `prefix`, or `None` where `path` does not start
/// with them.
pub uninterp spec fn stripped_prefix(path: Seq<char>, prefix: Seq<char>) -> Option<Seq<char>>;

/// `path` with the leading components `prefix` removed, by `std::path::Path::strip_prefix`.
/// Nothing is stated of the result but that it is [stripped_prefix] of the two paths: std
/// compares whole path components, which this library does not model.
#[verifier::external_body]
fn strip_path_prefix(path: &str, prefix: &str) -> (r: Option<String>)
    ensures
        match r {
            Some(s) => stripped_prefix(path@, prefix@) == Some(s@),
            None => stripped_prefix(path@, prefix@) is None,
        },
{
    match std::path::Path::new(path).strip_prefix(prefix) {
        Ok(rest) => match rest.to_str() {
            Some(s) => Some(s.to_string()),
            None => None,
        },
        Err(_) => None,
    }
}

/// `path` with `prefix` stripped where it starts with it, else `path` itself.
pub open spec fn strip_or_keep(path: Seq<char>, prefix: Seq<char>) -> Seq<char> {
    match stripped_prefix(path, prefix) {
        Some(rest) => rest,
        None => path,
    }
}

/// The normal form of `path` under the project root `root`: the root, then a `src` directory,
/// stripped where present.
pub open spec fn normalized_path(root: Seq<char>, path: Seq<char>) -> Seq<char> {
    strip_or_keep(strip_or_keep(path, root), "src"@)
}

/// `stripped`, the result of stripping a prefix from `path`, where there is one; else `path`.
pub fn keep_unless_stripped(path: &str, stripped: Option<String>) -> (r: String)
    ensures
        r@ == match stripped {
            Some(rest) => rest@,
            None => path@,
        },
{
    match stripped {
        Some(rest) => rest,
        None => String::from_str(path),
    }
}

impl SourceFileId {
    /// Normalizes the path so any SourceFileIds created from it are consistent:
    /// - Remove the `root` prefix if present
    /// - Remove a `src` directory prefix
    pub fn normalize_path(root: &str, path: &str) -> (r: String)
        ensures
            r@ == normalized_path(root@, path@),
    {
        let relative = keep_unless_stripped(path, strip_path_prefix(path, root));
        keep_unless_stripped(relative.as_str(), strip_path_prefix(relative.as_str(), "src"))
    }
}

} // verus!
