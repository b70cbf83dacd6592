# alofmt

A deterministic Ruby formatter's core. The crate's library is written in
Verus: every function in `src/` carries a contract that Verus proves.

Scope: the printer, the document builder, comment placement, options and
the command line's decisions are complete. Node layout covers a first set
of node kinds: statement lists with blank-line preservation, assignments to
variables and constants, method calls without blocks (parenthesized or
command arguments, short chains), bracketed arrays, `&&`/`||`/`and`/`or`,
`return`/`break`/`next`, parentheses, `class`, `module` and `def` without parameters, constant paths, integers,
plain strings, and the literals that print as written; with the comments
that trail a node and the own-line comments between statements. A program
holding any other node kind, or a comment placed elsewhere, is refused with
the list of what has no layout.

## Layout

- `src/doc.rs` — the layout document: an arena of nodes (text, source
  spans, lines, groups, indents, aligns, if-break choices, line suffixes)
  and the builder that fills it.
- `src/print.rs` — the printer: measures groups against the line width,
  renders a document to UTF-8 text, and checks a document against a source
  without building the text.
- `src/comments.rs` — comment placement: the syntax tree as placement sees
  it, and where each comment goes (leading, header, trailing, statement
  body, dangling).
- `src/options.rs` — formatting options, their defaults and validation,
  and command-line overrides.
- `src/source.rs` — preparing a source: byte-order mark, size limit,
  encoding, line numbers.
- `src/literals.rs`, `src/words.rs` — spelling decisions: integer
  separators, string delimiters, bare symbols, ignore directives.
- `src/layout.rs` — node layout: the syntax tree as plain offsets and the
  document each supported node kind becomes. A tree that fits its source
  is laid out unless it holds a kind with no layout here or its document
  could outgrow the 2^32-entry arenas.
- `src/cli.rs` — the command line's decisions: run plan, refused flag
  combinations, tallies and exit status; and the diff a check reports.
- `src/unicode.rs` — UTF-8 facts the printer relies on.
- `app/` — the `alofmt` program: argument parsing, configuration files,
  file discovery and replacement, the Ruby parser and the conversion of
  its tree to the library's, and reporting.
- `tests/` — tests of the library.
