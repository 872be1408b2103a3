# azurite

Parts of a toolchain for the azurite programming language, written in
Verus: the lexer, the lowering of a checked syntax tree to register code,
the optimizer, bytecode generation and the virtual machine. The parser and
the semantic analysis are not part of it, so the library does not compile
source text end to end. Each
function of the library states what it does in `requires` / `ensures`
clauses over mathematical models (`Seq`, `Map`, `Set`, spec functions), and
Verus proves that the code meets them.

## Layout

- `src/` — the verified library.
  - `lexer` — source text to tokens.
  - `ast`, `ast_to_ir`, `ir` — the syntax tree and its lowering into
    functions made of blocks of register instructions.
  - `optimize`, `register_alloc` — dead blocks, block merging, copy folding,
    block renumbering, and removal of dead stores.
  - `prune` — optimizing the program as a whole: dropping the functions no
    call reaches and renumbering the rest, rounds of per-function
    optimization until nothing changes, renumbering the constants and
    renaming every function's registers densely.
  - `inline_bytecode` — the mnemonics of inline bytecode blocks.
  - `codegen`, `bytecode`, `instruction` — bytecode generation (extern
    file entries, functions block by block, calls linked to their targets),
    the opcode table, and the encoding and decoding of single instructions.
  - `constants` — the constant table a compiled program carries, written as
    the virtual machine reads it back.
  - `archive` — the container that holds a compiled program.
  - `vm`, `runtime`, `heap`, `values` — the interpreter, its values and
    register stack, the object heap with its mark-and-sweep collector, and
    integer arithmetic.
  - `symbol_table`, `types`, `errors`, `source`, `similarity`, `common`,
    `text` — the interning table, types and source ranges, error rendering,
    line lookup, name suggestions, the command line and shared values.
- `tests/` — tests that run the compiled library.
- `app/` — the `azurite` command line (`run` and `disassemble`): reading
  files, the environment, printing and float arithmetic, which the
  interpreter hands back to its caller.

Outside crates are reached only through small trusted wrappers whose doc
comments say what their contracts assume (`colored` for terminal colours).
