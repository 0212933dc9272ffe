# pyru

A compiler and stack machine for Pyru, a small indentation-based scripting
language, with its compiler written in Verus and proved against its
contracts.

- `src/` is the verified library: the lexer (`lexer`, `text`, `numtext`,
  `token`), the grammar and its recursive-descent parser (`grammar`,
  `parser`), semantic analysis (`semantics`), control-flow graphs with
  clean-up, predecessors and dominators (`cfg`), the model of how a body
  is lowered into blocks (`lowering`), what a clean-up leaves (`cleanup`),
  liveness and removal of
  dead assignments (`liveliness`), removal of unreachable code from the
  syntax tree (`dce`), bytecode generation from graphs (`codgen`) and from
  the syntax tree (`codegen`), and the whole pipeline (`pipeline`).
- `app/` is the program around it: the HTTP service, the passes that
  compute in floating point (constant propagation and folding), and the
  stack machine that runs the bytecode.
- `tests/` exercises the library.
