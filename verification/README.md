# verrost

Semantic-version ranges in the npm style (`1.2.3`, `^1.2`, `~1.2.3`, `1.x`,
`>=1.2.3 <2.0.0 || 3.x`), written in Verus.

- `src/text.rs`: character classes and decimal numerals.
- `src/lexer.rs`: the lexer and the token grammar it follows; lexing is lossless.
- `src/parser.rs`: the data model, the parser, and the grammar as spec functions.
- `src/desugar.rs`: `^`, `~` and partial versions rewritten into plain comparators,
  with what each form accepts.
- `src/satisfies.rs`: precedence and which versions comparators, sets and ranges accept.
- `src/lib.rs`: `satisfies`, `parse_range`, `parse_version`, and `try_` variants that
  answer `None` on the inputs where reading would panic or never return.
- `app/main.rs`: a small program that checks one version against one range.
