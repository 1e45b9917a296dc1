# jsonfix

Repair, extract, and partially parse malformed JSON, with the library's
behaviour stated in `requires` / `ensures` contracts and proved by Verus.

## Layout

- `src/` — the verified library.
  - `chars.rs` — character classes (whitespace, quotes, delimiters, URL
    characters, HTML entities), each an executable function proved equal to
    a spec function.
  - `text.rs` — `str` to `char` sequences and back, byte offsets.
  - `options.rs` — the `Allow` / `Repairs` bit sets and `Options`.
  - `error.rs` — error kinds, positions, and messages.
  - `lexer.rs` — the tolerant tokenizer. Every scanner (strings with their
    restarts and escapes, numbers with supplied digits, bare words and URLs,
    regular expressions, trivia) is specified by a spec function of the
    source text, and `next_token` by the scanner its first character selects.
  - `parser.rs` — the tolerant recursive-descent parser; on canonical and
    compact JSON text it is proved to return the value the text is the text
    of, and it never exceeds the nesting limit.
  - `value.rs` — the value tree, its canonical rendering, and accessors.
  - `extract.rs` — pulling JSON values out of prose, fences, and log lines,
    specified exactly.
  - `stream.rs` — incremental repair with rollback and output deltas.
  - `swar.rs` — eight-bytes-at-a-time lane arithmetic.
  - `lib.rs` — the public entry points (`parse`, `repair`, `validate`, the
    byte API) and the laws that relate them.
- `tests/` — the test suite, including concrete instances of the laws.
- `app/` — serde and `io::Write` integration, outside verification.
