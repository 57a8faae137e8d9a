# gml_fmt

An autoformatter for GML (GameMaker Language), written in Verus: the scanner,
the parser and the printer are verified, and a thin command line program
reads and writes the files.

## Layout

- `src/scan_spec.rs` states, over the characters of a source, what tokens it
  scans to, and proves that each token's line is the number of newlines
  before it; `src/scanner.rs` is the scanner, proved to produce exactly those
  tokens.
- `src/keywords.rs` holds the reserved words (in an FNV hash map).
- `src/parser.rs` builds statements from the tokens; every parsing function
  is proved to terminate and to consume tokens. Which statement a leading
  token begins, and what a literal, name, comment or newline token parses to,
  are stated exactly, and an expression made of names, literals and operators
  is proved to hold the tokens it consumed, in their order. For plain
  statements (names, numbers and strings joined by binary operators and
  assignments, and `break`, `exit` and `return` with or without such an
  expression, each ended by a semicolon) parsing is proved to succeed, with
  each operator at its precedence level; a source that ends in such an
  expression cut short after an operator is proved to fail with the
  unexpected-end error. How a declaration list ends (a trailing comma, a
  token that does not continue it) and where the cases of a switch stand are
  stated; the rest of the grammar is not written down as a specification.
- `src/printer.rs` lays the statements out as text. Its list of printed
  pieces ends with the configured number of newline pieces, and before them
  no newline piece ends a second blank line in a row. What comments, flat
  expressions (names, literals, operators, assignments, ternaries, member
  accesses, a parenthesised expression, calls and array literals of plain
  elements) and simple statements print is stated exactly. An opening brace
  goes on the line of the code before it, after one space: for a block, and
  for an `if`, `while`, `with` or `repeat` whose condition is flat, the brace
  stands right after the keyword and the condition. Printing an expression, a
  run of comments, or a statement with no switch or enum in it never takes
  back a word printed before, and every comment of a run is printed. The rest
  of the layout of blocks and other compound statements is not stated.
- `src/lib.rs` ties these together (`run`, `run_snippet`), and decides which
  files ask to be left alone. A source of plain statements is proved to format
  to those statements with one space around each operator, one space between
  statements and the configured newlines at the end.
- `src/error_tokens.rs` holds the scanning errors and the text that reports them.
- `src/config.rs`, `src/lang_config.rs` hold the configuration.
- `app/main.rs` is the command line program: arguments, the configuration
  file, the directory walk, reading and writing files.

## Running

```
gml_fmt [-f] [-l] [-n] [PATH]
```

`-f` formats a single file; otherwise every `.gml` file under the directory is
formatted. A file that holds `// @gml_fmt ignore` is left as it is.
