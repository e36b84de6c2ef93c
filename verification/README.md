# doe — decoder of everything

`doe` parses binary files according to a declarative YAML schema and prints
the result as indented text or JSON.

## Layout

- `src/` — the library, verified with Verus:
  - `parser/cursor.rs` — a byte cursor with typed reads;
  - `parser/semantics.rs` — what parsing a compiled type means, as spec
    functions: the value read, or the error reported;
  - `parser/engine.rs` — the parse engine, proved to compute exactly that;
  - `parser/context.rs` — the scopes of parsed fields;
  - `schema/` — the schema model (`raw.rs`), the compiled form (`ir.rs`),
    the expression language (`lexer.rs`, `expr.rs`) and the compiler
    (`compiler.rs`), which asks for imported schemas step by step;
  - `render/` — the text and JSON renderings;
  - `config.rs` — include paths and the discovery of available types.
- `app/` — the command-line program: argument handling, reading the
  configuration, schema and binary files, and writing the output.
- `tests/` — tests of the library.

## Limits

Parsing follows sub-types at most 256 levels deep (`MAX_NESTING` in
`parser/engine.rs`); a value nested deeper is reported as a schema error
naming the type at which the limit was reached, so that parsing never runs
out of stack.

Public proof functions named `law_*` state properties that hold across
calls: absent fields leave no trace in the text output, the highest-priority
include directory wins, entering and leaving a scope restores it, and so on.
