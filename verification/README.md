# A backtracking regular-expression matcher, verified

Patterns are parsed into a syntax tree, compiled into a small instruction set
(`Char`, `AnyChar`, `Split`, `Jump`, `PositionHead`, `PositionTail`, `Match`) and run
by a backtracking machine that tries a match from every position of the text.

- `src/ast.rs`: the syntax tree and what a pattern matches (`ast_matches`).
- `src/parser.rs`: the parser, `parse_regex` and `try_parse_regex`, and its grammar as spec functions.
- `src/compiler.rs`: `compile_ast` and the code that each kind of node compiles to (`code`).
- `src/vm.rs`: the machine (`VM`, `do_match`), its step semantics (`run`, `step`), the
  paths through a program (`accepts`), and why a well-formed program keeps it in range.
- `src/printer.rs`: the grammar read the other way (`show`): parsing a written tree gives it back.
- `src/literal.rs`: patterns of plain characters find exactly their occurrences.
- `src/correctness.rs`: a compiled program accepts exactly where its pattern matches.
- `src/termination.rs`: the search ends when no `*` or `+` repeats something that can
  match the empty string.
- `app/main.rs`: the interactive loop that reads a pattern and a text and prints the result.
