# dewasm_backend

Code-emission support for lowering a WebAssembly module, held in a structured intermediate
representation, to Perl, Python and Ruby source. The library holds the whole Perl lowering; for
Python and Ruby it holds the passes, analyses and helpers their lowerings build on, not the
statement emitters themselves. Everything under `src/` is verified with
Verus: each public function carries a `requires`/`ensures` contract over mathematical models
(`Seq`, `Set`, `Map`, spec functions), and the cross-function properties are stated and proved
as public proof functions.

## Layout

- `src/ir.rs` — the intermediate representation the passes read and rewrite.
- `src/masking.rs`, `src/compare.rs`, `src/precedence.rs` — expression-level decisions: which
  masks an operand can skip, how comparisons are spelled, which parentheses Ruby needs.
- `src/liveness.rs`, `src/regions.rs`, `src/varset.rs` — the analyses behind loop-body outlining:
  live variables at loop-body boundaries (a least fixpoint), reads and writes, branch closure,
  region weight.
- `src/outline.rs` — loop-body outlining: a closed span of a hot loop body becomes a function
  called once per iteration.
- `src/licm.rs` — hoisting constant-address loads out of loops behind a run-time store guard.
- `src/fuse.rs` — fusing a byte-at-a-time store loop into one word store.
- `src/flat.rs` — flat dispatch planning for branches that cross many frames.
- `src/switch.rs` — recognising the block tower a C `switch` compiles to.
- `src/bundler.rs`, `src/writer.rs`, `src/text.rs`, `src/support.rs`, `src/chars.rs` — runtime
  unit bundling, the indenting code writer, text building and shared lowering helpers.
- `src/perl.rs`, `src/python.rs`, `src/ruby.rs` — each backend's runtime layout, declared feature
  support and spelling helpers.
- `src/perl_gen.rs` — the Perl lowering: every expression and statement, functions, the
  constructor, the package, and the generated script with its data sidecar, each emitter
  specified by the exact text it writes and the runtime units it references.
- `app/` — the parts that touch the machine or floating point: locating interpreters, reading the
  runtime unit sources from disk, and spelling float constants for the Perl lowering.
- `tests/` — tests on concrete inputs for the library's functions and laws.
