# rustype

The front end of Rustype, a Python-targeting language with Rust-inspired
types. Its lexer, parser, line index and command-line rules carry
specifications, and every function is proved to meet them.

- `src/ast.rs`: spans, node identifiers, the syntax tree and diagnostics.
- `src/lexer_spec.rs`, `src/lexer.rs`: the token lexer (indentation,
  names and keywords, numbers, strings, operators) as a specification on
  characters and the executable lexer proved equal to it.
- `src/lexer_laws.rs`: what every token stream satisfies (it ends with
  `Eof`, indents and dedents balance, spans are ordered, inside the
  source, on character boundaries and do not overlap, layout tokens that
  start inside the source are outside brackets, an `Indent` or `Dedent`
  follows a line break, no prefix closes more blocks than it opened, a
  lone identifier is one token).
- `src/lexer_tabs.rs`: every tab outside strings and comments is reported
  over its own byte, and every tab report is of such a tab.
- `src/parser_spec.rs`, `src/parser.rs`: the bootstrap parser of top-level
  `newtype` declarations and function headers, read line by line.
- `src/parser_laws.rs`: what every parse satisfies (node identifiers
  increase, items and diagnostics lie inside the source and come in source
  order, items are well formed, each top-level line yields one item or one
  diagnostic, rejected `def` lines and tabs, what a function header uses).
- `src/line_index.rs`: one-based line and column numbers of byte offsets.
- `src/cli.rs`: the argument rules of `rustype check <file.rpy>` and what
  it checks: the lexer's diagnostics, then the parser's.
- `src/report.rs`: the lines `rustype check` prints.
- `app/main.rs`: the command-line program (file reading and printing).
