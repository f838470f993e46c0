# draft

Draft is a programmable markup language with a companion object notation.
This crate holds its front end, written in Verus. The library's own functions
carry contracts that Verus proves. The calls into outside crates (`taped`,
`linkify`, `simdutf8`, `unindent`) and a few into `std` go through small
trusted wrappers marked `#[verifier::external_body]`, mostly in `src/tape.rs`:
Verus takes their contracts on trust, and each one's doc comment says what it
claims of the function it calls.

## Layout

- `src/object.rs`, `src/object_parse.rs`, `src/number.rs`: object notation
  values, their mathematical model, and the parser (strings, numbers as
  literal text, lists, maps with key scopes).
- `src/format.rs`: the one-line and pretty text forms of objects.
- `src/roundtrip.rs`: how the parser reads back the one-line text of an object.
- `src/chars.rs`, `src/tape.rs`: character classes and the byte cursor
  operations of the `taped` crate that the scanners use.
- `src/lex.rs`, `src/lexer.rs`: markup tokens, the lexer configuration and the
  lexer (scan, plaintext filling, malformed token conversion).
- `src/ast.rs`, `src/grammar.rs`: the syntax tree and the markup grammar.
- `src/visit.rs`: the visitor trait and the HTML and Markdown emitters.
- `src/schema.rs`, `src/editor.rs`: object schemas and the editor's stored
  checkbox state.
- `src/laws.rs`: properties of the library as a whole (map reads after
  writes, key order of written maps, written text read back as the object,
  lexer output covering the input, finance mode, grammar nodes fit for the
  visitors).
- `app/`: the `draft` command-line program, serde support for objects with
  floating-point numbers, and error types with their messages.
