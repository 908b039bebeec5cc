# m1-fmt

An auto-formatter for the MoTeC M1 script language (`.m1scr`), written in
Verus: the formatting logic is specified with `requires` / `ensures`
contracts and proved.

## Layout

- `src/` — the verified library.
  - `cst.rs` — the syntax tree the formatter reads (node kinds, character
    offsets, lines, text) and the flat, single-line form of an expression.
  - `trivia.rs` — comments: collection in offset order, `//` normalization,
    end-of-line attachment.
  - `printer/` — the printer, each emitter specified as a transformation of
    the printer state: `expressions.rs` (flat-vs-wrap layout), `statements.rs`,
    `control.rs` (blocks, `if` / `else` / `when` / `is` / `expand`),
    `infra.rs` (emitting, columns, comments), `normalize.rs` (whole-output
    passes: blank lines, trailing newline, blank after top-level `when`,
    assignment alignment, comment reflow), and `tokens.rs` / `preserve.rs`:
    the proof that printing moves only whitespace. For a tree of the
    parser's shape, every token is printed, in order, and every comment is
    kept whole; comment reflow adds only the `//` that opens each line it
    splits off (and is taken to drop no line); a byte-order mark stays in
    front. The whole-document statement is `formatting_keeps_the_tokens`
    in `lib.rs`, for documents without format-off regions.
  - `fmt_off.rs` — `// @m1:fmt(off)` / `// @m1:fmt(on)` regions and the splice
    that puts them back verbatim.
  - `range.rs` — where a range format lands.
  - `lib.rs` — the entry points: whole-document formatting and range
    formatting, byte-order mark and CRLF handling, line-too-long warnings.
  - `config.rs`, `config_resolve.rs` — `.m1fmt.toml` parsing and the
    precedence of defaults, configuration files and flags.
  - `cli.rs` — the command line's decisions: argument validation, range
    splicing, what each mode reports, the batch summary and exit status.
- `app/` — the `m1-fmt` program: argument parsing, file and standard-input
  I/O, the M1 parser, diffs, in-place writes and parallel batches.
- `tests/` — tests of the library, driven through a small reader of M1 source.

The parser runs outside the library: formatting takes the source text and
its tree, and when the document holds format-off regions it hands the
formatted text back to be parsed before the regions are spliced in.
