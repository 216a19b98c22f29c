# rox

A lexer and an expression parser for a small scripting language, built from
parser combinators and verified with Verus.

- `src/combinators.rs`: the parse state, the `Parser` trait and the
  combinators (`next`, `satisfy`, `char`, `chain`, `or`, `many0`, `many1`,
  `map`, `map_with_rest`, `bracket`). Each combinator's contract gives its
  meaning as a function from a state model to a result.
- `src/combinator_laws.rs`: what holds of the combinators: they only consume
  a prefix of the input, `or` gives the first alternative that succeeds, the
  position counts the UTF-8 bytes consumed.
- `src/lexer.rs`: tokens and the lexer (`scan_tokens`); `src/lexer_laws.rs`
  states what each part of the lexer reads, directly, and proves it.
- `src/ast.rs`: the expression tree and the parser of the grammar levels
  (equality, comparison, term, factor, unary, primary); `src/ast_laws.rs`
  proves what holds of every parse.
- `app/main.rs`: reads `./example.rox`, scans it and prints the expression.
- `tests/`: the test suite.
