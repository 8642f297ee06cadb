# lox-rs

A tokenizer, parser and evaluator for a small Lox-like language, verified
with Verus.

- `src/tokenizer.rs`: source text to tokens, specified by `spec_tokenize`.
- `src/parser.rs`: tokens to statements by recursive descent, specified by
  `spec_parse`.
- `src/expr.rs`, `src/stmt.rs`: evaluating expressions and running
  statements, specified by `spec_evaluate` and `spec_interpret`. The
  evaluator is generic over the type of numbers; the caller answers the
  operations on numbers.
- `src/run.rs`: tokenize, parse and run a piece of source text.
- `src/chars.rs`: what the library takes from `std` and `unicode-width`
  about characters, with the contracts it relies on.
- `app/main.rs`: the command (script file or interactive prompt), with
  `f64` numbers and the printing.
