# lexer

A verified lexer for a small dependently typed language: it turns source
text into tokens (identifiers, keywords, numbers, universe literals such as
`Type1*`, punctuation, string literals with `{0x..}` escapes), or reports the
byte span of the first lexical error.

Layout of `src/`:

- `text.rs` – characters, their UTF-8 widths and byte offsets.
- `numeral.rs` – unsigned numerals in a radix (an optional `+`, then digits).
- `token.rs` – `ByteIndex`, the token types and their mathematical models.
- `lexer/model.rs` – the lexer as a state machine over characters; the
  contract of `lex` is stated over it.
- `lexer/mod.rs` – `lex` and the executable lexer.
- `lexer/string_parser.rs` – decoding the text of string literals.
- `lexer/laws.rs`, `lexer/string_laws.rs`, `lexer/composition.rs` – proved
  properties of every run: error spans, token order, identifiers as source
  text, whitespace, escapes, and lexing after a complete prefix.
