# ivo

The front end of Ivo, a small language: reading tokens from source text,
parsing them into a syntax tree, and reading the command line. The library
is written in Verus. The functions in `src/` carry contracts that Verus
proves, except the few small wrappers around `lasso` and `std` calls
(marked `#[verifier::external_body]`), whose contracts are assumed and
state what those crates document.

- `src/span.rs`: byte ranges in a source file.
- `src/operator.rs`: the arithmetic operators, their text and binding power.
- `src/token.rs`: tokens.
- `src/interner.rs`: the string interner (`lasso::Rodeo`) that holds
  identifier names, seen through the sequence of names it holds.
- `src/lexer.rs`: `tokenize` and its mathematical definition `lex`.
- `src/lex_shift.rs`: a leading blank only moves positions.
- `src/ast.rs`: the syntax tree and its mathematical model.
- `src/parser.rs`: the recursive-descent parser and its definition as
  functions over the token sequence.
- `src/report.rs`: the messages by which errors are shown.
- `src/cli.rs`: the command line.
- `src/text.rs`: small string helpers.
- `app/main.rs`: the `ivo` program: reads the file, prints the tokens or
  shows the error with `codespan-reporting`.
- `tests/`: tests on concrete inputs.

## Behaviours to be aware of

These are what the code does today, and the contracts state them as such:

- A `"` always ends reading with "Unterminated string", spanning to the end
  of the source: string literals are not read yet.
- `--version` is taken as a bundle of short flags and has no effect.
- A parenthesised list without a trailing comma gives its last item:
  `(a, b)` is `b`, and `(A, B)` as a type is `B`.
- In `x : T :: e` the written type `T` is dropped.
- Where the interner refuses a new identifier (its memory limit), reading
  ends with `InternerRefused`; the `ivo` program stops there with a panic.
