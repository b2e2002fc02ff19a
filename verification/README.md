# ante_mir

The medium-level intermediate representation (MIR) of the Ante compiler and the passes over it,
written in Verus with their contracts proved.

- `src/mir/`: the MIR itself (types, values, instructions, definitions, programs) and its passes:
  type checking, removal of unreachable definitions, topological block order, largest-variant
  selection, monomorphization, the tail-resume and abort handler optimizations, the lowering of
  effects to coroutines, and the lowering of closures to tuples.
- `src/name_resolution/`: builtin names, the origins of resolved names, and the ids of crates,
  modules and source files.
- `src/fx.rs`: the few operations of `rustc_hash`'s maps and sets the library relies on, with
  what they are trusted to do.
- `tests/`: tests of the library on concrete programs.
- `app/`: serialisable copies of the library's plain id and type enums, for use with serde.
