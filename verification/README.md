# espresso_logic

Boolean expressions, binary decision diagrams, covers and the PLA text format, as a Rust
library whose behaviour is stated in contracts and proved with Verus.

## Layout

- `src/expression/`: Boolean expressions held as reverse-Polish token programs, their three
  surface syntaxes (lexer and recursive-descent parser, renderer), the reduced ordered BDD engine
  (`manager.rs`) with canonicity, `ite`, `restrict`, `compose` and `compose_map`, the branded
  `BddContext`, conversion to and from sum-of-products covers, algebraic factorisation, and folds
  over an expression.
- `src/cover/`: cubes, symbol tables, the PLA reader and writer, and the proof that what the
  writer writes reads back.
- `src/batch.rs`: the text interface of the minimiser: `name = expression` lines in, JSON out.
- `src/espresso/`, `src/ipc.rs`: the minimiser's configuration, error types and instance and
  cube checks, and the shared memory layout and messages of its worker process.
- `src/lines.rs`, `src/text.rs`, `src/symbol.rs`, `src/index.rs`: lines, words, numbers and names.
- `app/`: the program: reading and writing PLA files, and the serde encoding of the worker
  messages.
- `tests/`: tests run against the compiled library.

The Espresso minimiser itself, a C library, is not part of this crate: nothing here minimises
a cover. The library holds what surrounds it: expressions, diagrams, covers, the PLA format,
the batch interface, and the checks made before the minimiser is called.

Laws of the library are public proof functions named `law_*` (and the canonicity lemma of the
BDD engine); the contracts of the public functions state the rest.
