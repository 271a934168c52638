# relox

A bytecode interpreter for arithmetic expressions of the Lox language: a
scanner, a Pratt parser that writes bytecode into a chunk, and a stack
machine that runs it. The library under `src/` is verified with
Verus; `app/` holds the command line program (the REPL, running a file, and
the number operations, which are done in `f64` there).

Layout of `src/`:

- `scanner.rs` – the lexical grammar as spec functions, and a scanner proved
  to follow it; laws on how tokens cover the source.
- `grammar.rs` – the parse as spec functions over a parse state;
  `parser.rs` – the parser proved to follow it.
- `chunk.rs` – opcodes, the bytecode encoding, chunks with run-length
  encoded lines, and a decoding walk over a chunk; `program.rs` – the law
  that a written chunk decodes back to what was written.
- `syntax.rs` – the grammar of sums, products and negations, stated
  declaratively; the laws that a source compiles exactly when the grammar
  reads all its tokens, and that its code is the postfix form of that reading.
- `codegen.rs` – laws on compiled code: it never takes more values off the
  stack than it has put there, it meets no fault but a stack overflow, and it
  loads the number literals in order.
- `vm.rs` – one machine step as a function from stack and instruction to
  stack and effect; the number operations are handed to the host.
- `compiler.rs`, `stack.rs`, `value.rs`, `objects.rs`, `errors.rs`,
  `names.rs`, `text.rs`, `span.rs`, `repl.rs` – the rest.
