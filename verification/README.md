# mir_utils

Structure splitting for Rust functions at the MIR level, verified with Verus.

A struct marked with `#[affinity_groups(field = group, ...)]` is split into
child structs, one per group (`S` with groups 1 and 2 gives `S1` and `S2`).
The pass then rewrites each function that uses the struct: locals of the
struct's type (or of arrays, slices and references of it) get child locals,
arguments become tuples of their children, field accesses go to the child
that holds the field, and assignments to split locals are split.

Layout:

- `src/` — the library, verified: the type context and the MIR model
  (`ty`, `mir`, `hir`), the split structs and their registry
  (`split_struct`, `affinity`, `names`), the type rewriters (`walkmut`),
  the MIR passes (`split_arg`, `split_function_def`, `split_function_call`,
  `factor_function_call`, `struct_base_replacer`, `lvalue_splitter`,
  `expand`), the whole pass (`structure_splitting`), and the demo types
  and benchmarks of the splitting (`demo`, `tuple_arg`).
- `tests/` — tests of the library.
- `app/` — the demo program that prints the benchmark's sum, and the table
  of split structs shared between the attribute and the pass.
