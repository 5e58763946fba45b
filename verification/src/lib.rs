//! mica: the shared predicate language of a build system: values, the
//! tokenizer, the expression syntax tree, a recursive-descent parser,
//! version-order comparison of strings, and an evaluator.
//!
//! Grammar (precedence low to high): `||`, `&&`, `!`, comparison, primary.
//! Atoms are option/key names; a bare atom is a boolean test (`value ==
//! "true"`). Comparisons are `=` (alias `==`), `!=`, `>=`, `<` (with version
//! ordering on strings), and `contains` (comma-list membership).
//!
//! Each module states what its functions do over mathematical models of the
//! values involved; `roundtrip` proves that rendering and parsing undo each
//! other.

pub mod ast;
pub mod eval;
pub mod lexer;
pub mod parser;
pub mod roundtrip;
pub mod text;
pub mod vercmp;

pub use ast::{CmpOp, Expr, Operand, Value};
pub use eval::eval;
pub use lexer::{tokenize, Token};
pub use parser::{parse_expr, Parser};
pub use vercmp::vercmp;
