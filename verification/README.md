# sigil_interpreter

A compiler and register-based virtual machine for the Sigil scripting
language, written in Verus: every function of the library carries a contract
that Verus proves.

## Layout

- `src/compiler/` — the lexer (`lexer.rs`, a function on bytes whose contract
  states which token each piece of text is), the single-pass parser and code
  generator (`compile.rs`, `expr.rs`, `stmt.rs`, `emit.rs`) and the trackers it
  uses for registers, labels, loops and variables.
- `src/vm/` — chunks of bytecode and their encoding (`chunk.rs`, `decode.rs`),
  the heap of upvalues and structs (`heap.rs`), and the machine itself
  (`exec.rs`), whose `step` states the effect and the errors of every opcode.
- `src/functions.rs` — the function registry: overload resolution by
  least-cost matching of parameter types, and the standard functions.
- `src/foreign.rs`, `src/vm/heap.rs`, `src/text.rs` — the trusted items: the
  `lasso`, `ahash` and `slab` calls and two `std` formatting calls, each with
  the contract the outside code is believed to meet.
- `src/host.rs` — the `Host` trait through which an embedding program supplies
  floating-point arithmetic, numerals and its own intrinsics; nothing is
  assumed of what it returns.
- `app/` — the command-line program: reading files, the `f64` host, and
  error reports with `ariadne`.
- `tests/` — the test suite.

## Design notes

- The constant pool and the function registry keep their entries in vectors
  searched in order, not in hash maps: their keys are values and lookup keys
  that hold strings, and Verus proves nothing of a hash map's lookups under
  such keys. The global slots and the struct names, keyed by interned symbols
  (integers), stay in `ahash` maps.
- A run is stated step by step: `VM::step_spec` gives the effect of one
  instruction, and `VM::run` ends with the value, or the error, of the step
  that finished it after steps that did not.
  `VM::run_spec` gathers what `run` promises; `VM::lemma_run_load_return`
  and `lemma_literal_runs_to_its_value` derive from it that a literal alone,
  compiled and run, gives its value.
