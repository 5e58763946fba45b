# mica

The predicate language shared by a build system's configuration resolver and
its build engine, written in Verus: every executable function in `src/`
carries a contract over a mathematical model of its inputs and outputs, and
Verus proves each one.

- `text`: characters, trimming, decimal notation.
- `lexer`: `Token` and `tokenize`, specified byte by byte over the UTF-8 text;
  `blanks_around_keep_tokens` proves that blanks and tabs around a text leave
  its tokens alone.
- `ast`: `Value`, `CmpOp`, `Operand`, `Expr`; `Expr::atoms` and
  `Expr::render`.
- `parser`: `Parser` and `parse_expr`, specified as recursive descent over
  the token sequence (`||` below `&&` below `!` below comparisons).
- `eval`: `eval` over a lookup closure; the result is stated for every
  environment the lookup's answers agree with. `atoms_cover_reads` proves
  that only the names `atoms` collects are read.
- `vercmp`: version order of strings, proved reflexive, antisymmetric and
  transitive, with the rule for a trailing text or number component.
- `roundtrip`: `render_parse_roundtrip` proves that parsing the rendered
  form of an expression gives it back.
