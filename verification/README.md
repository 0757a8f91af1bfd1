# numbat parser

A verified tokenizer and recursive-descent parser for the numbat language:
expressions with units and conversions (`1 * (2 + 3)`, `x -> y`), variable
declarations (`let x = 2`), dimension declarations
(`dimension energy = mass * length^2 / time^2`) and commands (`list`, `quit`).

Layout:

- `src/span.rs`: places in the input.
- `src/tokenizer.rs`: the lexical grammar as spec functions over characters,
  and `tokenize`, proved to give exactly the tokens those functions describe.
- `src/ast.rs`: the syntax tree and its mathematical model.
- `src/grammar.rs`: the grammar as spec functions over token sequences.
- `src/parser.rs`: the parser, proved to give exactly what the grammar
  describes, errors and their positions included; `parse` and `try_parse`.
- `src/laws.rs`: precedence, associativity and grouping of the operators, and
  how the tokens relate to the input text.
- `src/agreement.rs`: what a parse depends on (the kinds and texts of the
  tokens, not their places; the tokens after a position, not those before).
- `src/composition.rs`: lines parse one after the other; parentheses around a
  line's expression only group it.
- `app/`: error types that print themselves (through `thiserror`), number
  values as floats, and a `parse` that panics on the forms the grammar does not
  handle yet.
