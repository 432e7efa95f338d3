# patcho

A parser for unified diffs (the output of `diff -u` and `git diff`), written in
Verus: every function of the library carries a contract, and Verus proves it, with
one exception: `scan::push_char`, a trusted wrapper of std's `String::push`, whose
contract (the character is appended at the end) Verus takes as given.

`patcho::parse` reads a `&str` into a `UnifiedDiff` (file patches, their hunks and
hunk lines), or returns every problem found as `ParseError`s with byte spans.

## Layout

- `src/grammar.rs` — the grammar, as spec functions over the input's characters.
- `src/scan.rs`, `src/parser.rs` — the parser, one function per grammar element, each
  proved to read what its spec function describes.
- `src/lib.rs` — `parse`, whose contract is `outcome::parse_result`.
- `src/outcome.rs` — the result and the errors of a parse, as spec functions.
- `src/diff.rs` — the parsed values and their models.
- `src/error.rs`, `src/diagnostic.rs`, `src/render.rs` — errors and readable diagnostics.
- `src/offsets.rs` — byte offsets of character positions (UTF-8).
- `src/laws.rs` — properties of every parse.
- `src/concat.rs` — how two diffs written one after the other parse.
- `src/trailing.rs` — a final line ending is optional.
- `src/shape.rs` — what a file patch is in terms of the input's lines.
- `src/header.rs` — how a hunk header written out in full reads.
- `tests/` — tests of the compiled library.
- `app/` — builders (`typed-builder`) and `Display`/`std::error::Error` for copies of
  the library's types.
