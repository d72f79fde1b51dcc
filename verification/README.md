# typescript-rs

A small TypeScript type checker whose core is proved correct with Verus.

## Layout

- `src/` is the verified library:
  - `types.rs`: the type store (interned kinds, canonical primitives, flattened
    and sorted unions, arrays, object types) and how types render;
  - `relations.rs`: assignability between types, with its cache;
  - `signatures.rs`: callable signatures of one checker run;
  - `syntax.rs`: the syntax the checker reads, as plain values;
  - `checker.rs`: the checker itself (annotations, expression types,
    structural diagnostics, calls, returns, assignments), with each
    operation's result stated over spec functions of the syntax and store;
  - `diagnostic.rs`: diagnostics, their rendering, and the normalization of
    parser reports at the end of unfinished input;
  - `editor.rs`: UTF-16 editor positions and document versions;
  - `tsgo.rs`: reading TypeScript-Go's output and comparing diagnostics;
  - `playground.rs`: the browser projection of diagnostics;
  - `source.rs`: which files are read as sources, and how the parser's,
    binder's and checker's diagnostics make up a file's result;
  - `text.rs`: character, UTF-8 and UTF-16 helpers.
- `app/` is the program around it: parsing and binding with Oxc, turning the
  syntax tree into the library's syntax values, the command line, the
  language server and the comparison tool.
- `tests/` runs the library on concrete inputs.
