# jlox

A front end for the Lox language with its behaviour proved in Verus.

- `src/scanner.rs` turns source text into tokens. The lexical grammar is
  stated as spec functions over the text (`spec_scan`), and the scanner's
  methods are proved to follow it.
- `src/grammar.rs` states the syntax as spec functions over tokens;
  `src/parser.rs` is the recursive-descent parser proved against them, and
  `src/fresh_ids.rs` proves that every variable use gets an id of its own.
- `src/environment.rs` holds the environments of a running program in one
  store, indexed by number, with the laws of reading, defining and assigning.
- `src/resolver.rs` computes the scope distance of each variable use, proved
  against a spec of resolution.
- `src/interpreter.rs` is the variable state of a running program.
- `app/main.rs` is the `jlox` program: it evaluates statements (numbers are
  floating point, functions are objects) on top of the library.
