# rgrep

A small grep: a regular-expression engine, a line searcher with context,
and the command-line program around them. The library in `src/` is written
in Verus and proved against its contracts; `app/` holds the program's I/O.

## Layout

- `src/text.rs` — characters, UTF-8 byte positions, case and word characters.
- `src/regex_engine/` — patterns:
  - `scanner.rs`, `parser.rs`: the pattern grammar, with the syntax tree
    (`ast.rs`) and its model `Term`;
  - `ast.rs` also says what a term matches (`term_matches`);
  - `nfa.rs`: the automaton, its runs and character ranges;
  - `compiler.rs`, `fragment.rs`: compilation, proved to give an automaton
    that accepts exactly what the pattern matches;
  - `vm.rs`: runs an automaton over a text and finds the match that ends
    first (of those, the one that starts first);
  - `regex.rs`: compiled patterns, stated over what the pattern matches;
  - `prefilter.rs`: literal text that every match must contain.
- `src/search/` — matchers (patterns, fixed strings, several at once), and
  the search of a text line by line with context (`searcher.rs`, whose
  `lemma_context` says exactly which lines are reported).
- `src/cli/` — arguments, output formats, colours, ignore files, and the
  program's decisions (`app.rs`).
- `app/main.rs` — reads the command line, walks directories, reads files,
  runs searches on threads and prints what the library reports.
- `tests/` — the tests, run against the compiled library.
