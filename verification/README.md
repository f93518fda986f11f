# expression_parser

A verified parser for the arithmetic expressions that users type into
numeric input fields: numbers (`42`, `.5`, `1.5e+2`), `+ - * / **`, unary
`+` and `-`, postfix `%` ("divide by 100"), and parentheses.

- `src/` is the library, verified with Verus. `parse_expression` turns a
  string into a syntax tree or a `ParseError`; its contract states the exact
  result, and `src/grammar.rs` proves what that result means: every returned
  tree obeys the precedence grammar and writes out to the input's tokens,
  every tree that obeys the grammar is found, and errors name what went
  wrong. `src/lexer.rs` proves that numbers are read by longest match of
  their regular expression. `src/composition.rs`, `src/meaning.rs` and
  `src/parens.rs` prove how results relate across inputs: whitespace
  between tokens changes no meaning, parenthesized operands compose, and
  `x o1 y o2 z` means what the right parenthesization of it means.
- `app/` is the code around it that Verus does not check: evaluation of a
  tree in `f64` arithmetic (`eval_expression_string`), `Display` for the
  error, and egui layout helpers.
- `tests/` runs the library on concrete inputs, including the evaluation
  scenarios (with an `f64` evaluator of its own).
