//! Rendering and parsing undo each other: the source form that
//! `Expr::render` writes for an expression parses back to that expression.

use crate::ast::{
    op_text, operand_text, paren_text, render_text, CmpOp, ExprV, OperandV,
};
use crate::parser::{op_at, p_and, p_and_tail, p_operand, p_or, p_or_tail, p_primary, p_unary, tok_is};
use crate::lexer::{
    digits_end, digits_value, is_digit, is_name_byte, lex, name_end, scan_string, token_at,
    word_value, TokenV,
};
use crate::lexer::{lemma_name_end, tokenize_result};
use crate::parser::parse_result;
use crate::text::{byte_char, byte_chars, digit_char, int_text, nat_text};
use vstd::prelude::*;
use vstd::utf8::{encode_utf8, is_ascii_chars, is_ascii_chars_encode_utf8};

verus! {

pub open spec fn is_name_first(c: char) -> bool {
    ('a' <= c && c <= 'z') || ('A' <= c && c <= 'Z') || c == '_'
}

pub open spec fn is_name_char(c: char) -> bool {
    is_name_first(c) || ('0' <= c && c <= '9')
}

/// A name that the tokenizer reads back as that name: an ASCII letter or
/// `_`, then letters, digits and `_`, and no keyword.
pub open spec fn name_ok(n: Seq<char>) -> bool {
    &&& n.len() > 0
    &&& is_name_first(n[0])
    &&& forall|k: int| 0 <= k < n.len() ==> is_name_char(#[trigger] n[k])
    &&& n != seq!['i', 'f']
    &&& n != seq!['e', 'l', 's', 'e']
    &&& n != seq!['c', 'o', 'n', 't', 'a', 'i', 'n', 's']
}

/// A string literal that reads back as itself between double quotes: ASCII,
/// with no double quote and no backslash.
pub open spec fn literal_ok(s: Seq<char>) -> bool {
    forall|k: int|
        0 <= k < s.len() ==> #[trigger] s[k] <= '\u{7f}' && s[k] != '"' && s[k] != '\\'
}

pub open spec fn operand_ok(o: OperandV) -> bool {
    match o {
        OperandV::Name(n) => name_ok(n),
        OperandV::Str(s) => literal_ok(s),
        OperandV::Int(_) => true,
    }
}

/// Every name in the expression is a plain name and every string literal is
/// a plain literal, so that its source form reads back as it is.
pub open spec fn renderable(e: ExprV) -> bool
    decreases e,
{
    match e {
        ExprV::Atom(n) => name_ok(n),
        ExprV::Not(a) => renderable(*a),
        ExprV::And(a, b) => renderable(*a) && renderable(*b),
        ExprV::Or(a, b) => renderable(*a) && renderable(*b),
        ExprV::Cmp(_, l, r) => operand_ok(l) && operand_ok(r),
    }
}

/// The token an operand is read as.
pub open spec fn operand_token(o: OperandV) -> TokenV {
    match o {
        OperandV::Name(n) => TokenV::Ident(n),
        OperandV::Str(s) => TokenV::Str(s),
        OperandV::Int(n) => TokenV::Int(n),
    }
}

/// The token an operator is read as.
pub open spec fn op_token(op: CmpOp) -> TokenV {
    match op {
        CmpOp::Eq => TokenV::Eq,
        CmpOp::Ne => TokenV::Ne,
        CmpOp::Ge => TokenV::Ge,
        CmpOp::Lt => TokenV::Lt,
        CmpOp::Contains => TokenV::Contains,
    }
}

/// `ts`, the tokens of `e`, in parentheses where `e` is a conjunction or a
/// disjunction.
pub open spec fn paren_tokens(e: ExprV, ts: Seq<TokenV>) -> Seq<TokenV> {
    if e is And || e is Or {
        seq![TokenV::LParen] + ts + seq![TokenV::RParen]
    } else {
        ts
    }
}

/// The tokens of the source form of an expression.
pub open spec fn expr_tokens(e: ExprV) -> Seq<TokenV>
    decreases e,
{
    match e {
        ExprV::Atom(n) => seq![TokenV::Ident(n)],
        ExprV::Not(a) => seq![TokenV::Not] + paren_tokens(*a, expr_tokens(*a)),
        ExprV::And(a, b) => paren_tokens(*a, expr_tokens(*a)) + seq![TokenV::AndAnd]
            + paren_tokens(*b, expr_tokens(*b)),
        ExprV::Or(a, b) => paren_tokens(*a, expr_tokens(*a)) + seq![TokenV::OrOr]
            + paren_tokens(*b, expr_tokens(*b)),
        ExprV::Cmp(op, l, r) => seq![operand_token(l), op_token(op), operand_token(r)],
    }
}

/// The bytes of `b` from `i` on spell `t`, one byte per character.
pub open spec fn has_text(b: Seq<u8>, i: int, t: Seq<char>) -> bool {
    &&& 0 <= i
    &&& i + t.len() <= b.len()
    &&& forall|k: int| 0 <= k < t.len() ==> byte_char(b[i + k]) == #[trigger] t[k]
}

/// A token that ends at `j` ends there: the text ends, or a blank or a
/// closing parenthesis follows.
pub open spec fn delim_at(b: Seq<u8>, j: int) -> bool {
    j == b.len() || (0 <= j < b.len() && (b[j] == 32 || b[j] == 41))
}

proof fn lemma_has_text_split(b: Seq<u8>, i: int, t1: Seq<char>, t2: Seq<char>)
    requires
        has_text(b, i, t1 + t2),
    ensures
        has_text(b, i, t1),
        has_text(b, i + t1.len(), t2),
{
    assert forall|k: int| 0 <= k < t1.len() implies byte_char(b[i + k]) == #[trigger] t1[k] by {
        assert((t1 + t2)[k] == t1[k]);
    }
    assert forall|k: int| 0 <= k < t2.len() implies byte_char(b[i + t1.len() + k])
        == #[trigger] t2[k] by {
        assert((t1 + t2)[t1.len() + k] == t2[k]);
        assert(i + (t1.len() + k) == i + t1.len() + k);
    }
}

proof fn lemma_text_at(b: Seq<u8>, i: int, t: Seq<char>, k: int)
    requires
        has_text(b, i, t),
        0 <= k < t.len(),
    ensures
        byte_char(b[i + k]) == t[k],
{
}

proof fn lemma_name_run(b: Seq<u8>, j: int, e: int)
    requires
        0 <= j <= e <= b.len(),
        forall|k: int| j <= k < e ==> is_name_byte(#[trigger] b[k]),
        e == b.len() || !is_name_byte(b[e]),
    ensures
        name_end(b, j) == e,
    decreases e - j,
{
    if j < e {
        lemma_name_run(b, j + 1, e);
    }
}

proof fn lemma_digit_run(b: Seq<u8>, j: int, e: int)
    requires
        0 <= j <= e <= b.len(),
        forall|k: int| j <= k < e ==> is_digit(#[trigger] b[k]),
        e == b.len() || !is_digit(b[e]),
    ensures
        digits_end(b, j) == e,
    decreases e - j,
{
    if j < e {
        lemma_digit_run(b, j + 1, e);
    }
}

/// A plain name at `i`, followed by the end or by a byte that cannot
/// continue a name, is read as that name.
proof fn lemma_lex_name(b: Seq<u8>, i: int, n: Seq<char>)
    requires
        name_ok(n),
        has_text(b, i, n),
        i + n.len() == b.len() || (i + n.len() < b.len() && !is_name_byte(b[i + n.len()])),
    ensures
        token_at(b, i) == Ok::<(Option<TokenV>, int), Seq<char>>(
            (Some(TokenV::Ident(n)), i + n.len()),
        ),
{
    let e = i + n.len();
    assert forall|k: int| i <= k < e implies is_name_byte(#[trigger] b[k]) by {
        assert(byte_char(b[i + (k - i)]) == n[k - i]);
        assert(is_name_char(n[k - i]));
    }
    lemma_name_run(b, i, e);
    lemma_text_at(b, i, n, 0);
    let w = byte_chars(b.subrange(i, e));
    assert(w =~= n);
}

proof fn lemma_scan_literal(b: Seq<u8>, start: int, s: Seq<char>, k: int, acc: Seq<char>)
    requires
        literal_ok(s),
        has_text(b, start, s),
        start + s.len() < b.len(),
        b[start + s.len()] == 34,
        0 <= k <= s.len(),
    ensures
        scan_string(b, start + k, acc) == Ok::<(Seq<char>, int), Seq<char>>(
            (acc + s.skip(k), start + s.len()),
        ),
    decreases s.len() - k,
{
    if k < s.len() {
        let c = b[start + k];
        assert(byte_char(c) == s[k]);
        assert(c != 34 && c != 92);
        lemma_scan_literal(b, start, s, k + 1, acc.push(s[k]));
        assert(acc.push(s[k]) + s.skip(k + 1) =~= acc + s.skip(k));
    } else {
        assert(acc + s.skip(k) =~= acc);
    }
}

/// A plain string literal at `i` is read as that literal.
proof fn lemma_lex_literal(b: Seq<u8>, i: int, s: Seq<char>)
    requires
        literal_ok(s),
        has_text(b, i, "\""@ + s + "\""@),
    ensures
        token_at(b, i) == Ok::<(Option<TokenV>, int), Seq<char>>(
            (Some(TokenV::Str(s)), i + s.len() + 2),
        ),
{
    reveal_strlit("\"");
    lemma_has_text_split(b, i, "\""@ + s, "\""@);
    lemma_has_text_split(b, i, "\""@, s);
    lemma_text_at(b, i, "\""@, 0);
    lemma_text_at(b, i + 1 + s.len(), "\""@, 0);
    lemma_scan_literal(b, i + 1, s, 0, Seq::empty());
    assert(Seq::<char>::empty() + s.skip(0) =~= s);
}

proof fn lemma_nat_digits(b: Seq<u8>, i: int, m: nat)
    requires
        has_text(b, i, nat_text(m)),
    ensures
        nat_text(m).len() >= 1,
        forall|k: int| i <= k < i + nat_text(m).len() ==> is_digit(#[trigger] b[k]),
        digits_value(b.subrange(i, i + nat_text(m).len())) == m,
    decreases m,
{
    let t = nat_text(m);
    if m < 10 {
        lemma_text_at(b, i, t, 0);
        assert(b[i] == m + 48);
        assert(b.subrange(i, i + 1).drop_last() =~= Seq::<u8>::empty());
        assert(b.subrange(i, i + 1).last() == b[i]);
        assert(digits_value(b.subrange(i, i + 1)) == digits_value(Seq::<u8>::empty()) * 10 + (b[i] - 48) as nat);
        assert(digits_value(b.subrange(i, i + 1)) == m);
    } else {
        let h = nat_text(m / 10);
        assert(t =~= h + seq![digit_char((m % 10) as int)]);
        lemma_has_text_split(b, i, h, seq![digit_char((m % 10) as int)]);
        lemma_nat_digits(b, i, m / 10);
        let last = i + h.len();
        lemma_text_at(b, last, seq![digit_char((m % 10) as int)], 0);
        assert(b[last] == m % 10 + 48);
        assert(b.subrange(i, last + 1).drop_last() =~= b.subrange(i, last));
        assert(b.subrange(i, last + 1).last() == b[last]);
        assert(digits_value(b.subrange(i, last + 1)) == digits_value(b.subrange(i, last)) * 10 + (
        b[last] - 48) as nat);
        assert(t.len() == h.len() + 1);
        assert(digits_value(b.subrange(i, last)) == m / 10);
        assert(digits_value(b.subrange(i, last + 1)) == m);
        assert forall|k: int| i <= k < i + t.len() implies is_digit(#[trigger] b[k]) by {
            if k < last {
            } else {
                assert(k == last);
            }
        }
    }
}

/// An integer literal at `i`, followed by a delimiter, is read as that
/// integer.
proof fn lemma_lex_int(b: Seq<u8>, i: int, n: i64)
    requires
        has_text(b, i, int_text(n as int)),
        delim_at(b, i + int_text(n as int).len()),
    ensures
        token_at(b, i) == Ok::<(Option<TokenV>, int), Seq<char>>(
            (Some(TokenV::Int(n)), i + int_text(n as int).len()),
        ),
{
    let t = int_text(n as int);
    let e = i + t.len();
    if n < 0 {
        let m = (-n) as nat;
        lemma_has_text_split(b, i, seq!['-'], nat_text(m));
        lemma_nat_digits(b, i + 1, m);
        lemma_text_at(b, i, seq!['-'], 0);
        assert(b[i] == 45);
        lemma_digit_run(b, i + 1, e);
        let w = b.subrange(i, e);
        assert(w.drop_first() =~= b.subrange(i + 1, e));
    } else {
        let m = n as nat;
        lemma_nat_digits(b, i, m);
        lemma_digit_run(b, i + 1, e);
        assert(is_digit(b[i]));
    }
}

/// An operator at `i`, followed by a blank, is read as its token.
proof fn lemma_lex_op(b: Seq<u8>, i: int, op: CmpOp)
    requires
        has_text(b, i, op_text(op)),
        i + op_text(op).len() < b.len(),
        b[i + op_text(op).len()] == 32,
    ensures
        token_at(b, i) == Ok::<(Option<TokenV>, int), Seq<char>>(
            (Some(op_token(op)), i + op_text(op).len()),
        ),
{
    reveal_strlit("==");
    reveal_strlit("!=");
    reveal_strlit(">=");
    reveal_strlit("<");
    reveal_strlit("contains");
    let t = op_text(op);
    lemma_text_at(b, i, t, 0);
    match op {
        CmpOp::Lt => {},
        CmpOp::Contains => {
            let n = seq!['c', 'o', 'n', 't', 'a', 'i', 'n', 's'];
            assert(t =~= n);
            assert forall|k: int| 0 <= k < n.len() implies is_name_char(#[trigger] n[k]) by {}
            lemma_lex_name_keyword(b, i, n);
        },
        _ => {
            lemma_text_at(b, i, t, 1);
        },
    }
}

/// The word `contains` at `i`, followed by a blank, is read as the keyword.
proof fn lemma_lex_name_keyword(b: Seq<u8>, i: int, n: Seq<char>)
    requires
        n == seq!['c', 'o', 'n', 't', 'a', 'i', 'n', 's'],
        has_text(b, i, n),
        i + n.len() < b.len(),
        b[i + n.len()] == 32,
    ensures
        token_at(b, i) == Ok::<(Option<TokenV>, int), Seq<char>>(
            (Some(TokenV::Contains), i + n.len()),
        ),
{
    let e = i + n.len();
    assert forall|k: int| i <= k < e implies is_name_byte(#[trigger] b[k]) by {
        lemma_text_at(b, i, n, k - i);
    }
    lemma_name_run(b, i, e);
    lemma_text_at(b, i, n, 0);
    let w = byte_chars(b.subrange(i, e));
    assert forall|k: int| 0 <= k < n.len() implies w[k] == n[k] by {
        lemma_text_at(b, i, n, k);
    }
    assert(w =~= n);
}

proof fn lemma_lex_tok(b: Seq<u8>, i: int, acc: Seq<TokenV>, t: TokenV, j: int)
    requires
        0 <= i < j <= b.len(),
        token_at(b, i) == Ok::<(Option<TokenV>, int), Seq<char>>((Some(t), j)),
    ensures
        lex(b, i, acc) == lex(b, j, acc.push(t)),
{
}

proof fn lemma_lex_blank(b: Seq<u8>, i: int, acc: Seq<TokenV>)
    requires
        0 <= i < b.len(),
        b[i] == 32,
    ensures
        lex(b, i, acc) == lex(b, i + 1, acc),
{
}

/// A plain operand at `i`, followed by a delimiter, is read as its token.
proof fn lemma_lex_operand(b: Seq<u8>, i: int, o: OperandV, acc: Seq<TokenV>)
    requires
        operand_ok(o),
        has_text(b, i, operand_text(o)),
        delim_at(b, i + operand_text(o).len()),
    ensures
        operand_text(o).len() > 0,
        lex(b, i, acc) == lex(b, i + operand_text(o).len(), acc.push(operand_token(o))),
{
    reveal_strlit("\"");
    match o {
        OperandV::Name(n) => {
            lemma_lex_name(b, i, n);
        },
        OperandV::Str(s) => {
            lemma_lex_literal(b, i, s);
        },
        OperandV::Int(n) => {
            lemma_lex_int_text(b, i, n);
        },
    }
    lemma_lex_tok(b, i, acc, operand_token(o), i + operand_text(o).len());
}

proof fn lemma_lex_int_text(b: Seq<u8>, i: int, n: i64)
    requires
        has_text(b, i, operand_text(OperandV::Int(n))),
        delim_at(b, i + operand_text(OperandV::Int(n)).len()),
    ensures
        operand_text(OperandV::Int(n)).len() > 0,
        token_at(b, i) == Ok::<(Option<TokenV>, int), Seq<char>>(
            (Some(TokenV::Int(n)), i + operand_text(OperandV::Int(n)).len()),
        ),
{
    lemma_lex_int(b, i, n);
    lemma_nat_len(n);
}

proof fn lemma_nat_len(n: i64)
    ensures
        int_text(n as int).len() > 0,
{
    lemma_nat_text_nonempty(if n < 0 {
        (-n) as nat
    } else {
        n as nat
    });
}

proof fn lemma_nat_text_nonempty(m: nat)
    ensures
        nat_text(m).len() > 0,
        nat_text(m)[0] != '=',
        nat_text(m)[0] != '(',
    decreases m,
{
    if m >= 10 {
        lemma_nat_text_nonempty(m / 10);
    }
}

proof fn lemma_operand_first(o: OperandV)
    requires
        operand_ok(o),
    ensures
        operand_text(o).len() > 0,
        operand_text(o)[0] != '=',
        operand_text(o)[0] != '(',
{
    reveal_strlit("\"");
    match o {
        OperandV::Int(n) => {
            lemma_int_first(n);
        },
        _ => {},
    }
}

proof fn lemma_int_first(n: i64)
    ensures
        operand_text(OperandV::Int(n)).len() > 0,
        operand_text(OperandV::Int(n))[0] != '=',
        operand_text(OperandV::Int(n))[0] != '(',
{
    lemma_nat_len(n);
    if n >= 0 {
        lemma_nat_text_nonempty(n as nat);
    }
}

/// The source form of a plain expression is not empty and does not start
/// with `=`, so that a `!` before it stays a negation.
proof fn lemma_render_first(e: ExprV)
    requires
        renderable(e),
    ensures
        render_text(e).len() > 0,
        render_text(e)[0] != '=',
        paren_text(e, render_text(e)).len() > 0,
        paren_text(e, render_text(e))[0] != '=',
    decreases e,
{
    reveal_strlit("!");
    reveal_strlit("(");
    match e {
        ExprV::Atom(n) => {},
        ExprV::Not(a) => {},
        ExprV::And(a, b) => {
            lemma_render_first(*a);
        },
        ExprV::Or(a, b) => {
            lemma_render_first(*a);
        },
        ExprV::Cmp(_, l, r) => {
            lemma_operand_first(l);
        },
    }
}

/// The source form of a plain expression at `i`, followed by a delimiter, is
/// read as the expression's tokens.
proof fn lemma_lex_expr(b: Seq<u8>, i: int, e: ExprV, acc: Seq<TokenV>)
    requires
        renderable(e),
        has_text(b, i, render_text(e)),
        delim_at(b, i + render_text(e).len()),
    ensures
        lex(b, i, acc) == lex(b, i + render_text(e).len(), acc + expr_tokens(e)),
    decreases e, 2nat,
{
    match e {
        ExprV::Atom(n) => {
            lemma_lex_name(b, i, n);
            lemma_lex_tok(b, i, acc, TokenV::Ident(n), i + n.len());
            assert(acc.push(TokenV::Ident(n)) =~= acc + expr_tokens(e));
        },
        ExprV::Not(a) => {
            lemma_lex_not(b, i, e, acc);
        },
        ExprV::And(x, y) => {
            lemma_lex_binary(b, i, e, acc);
        },
        ExprV::Or(x, y) => {
            lemma_lex_binary(b, i, e, acc);
        },
        ExprV::Cmp(op, l, r) => {
            lemma_lex_comparison(b, i, op, l, r, acc);
            assert(render_text(e) == operand_text(l) + " "@ + op_text(op) + " "@ + operand_text(r));
        },
    }
}

proof fn lemma_lex_not(b: Seq<u8>, i: int, e: ExprV, acc: Seq<TokenV>)
    requires
        e is Not,
        renderable(e),
        has_text(b, i, render_text(e)),
        delim_at(b, i + render_text(e).len()),
    ensures
        lex(b, i, acc) == lex(b, i + render_text(e).len(), acc + expr_tokens(e)),
    decreases e, 1nat,
{
    reveal_strlit("!");
    let a = e->Not_0;
    let pa = paren_text(*a, render_text(*a));
    assert(render_text(e) == "!"@ + pa);
    lemma_has_text_split(b, i, "!"@, pa);
    lemma_render_first(*a);
    lemma_text_at(b, i, "!"@, 0);
    lemma_text_at(b, i + 1, pa, 0);
    assert(b[i] == 33);
    assert(b[i + 1] != 61);
    lemma_lex_tok(b, i, acc, TokenV::Not, i + 1);
    lemma_lex_paren(b, i + 1, *a, acc.push(TokenV::Not));
    assert(acc.push(TokenV::Not) + paren_tokens(*a, expr_tokens(*a)) =~= acc + expr_tokens(e));
}

proof fn lemma_lex_binary(b: Seq<u8>, i: int, e: ExprV, acc: Seq<TokenV>)
    requires
        e is And || e is Or,
        renderable(e),
        has_text(b, i, render_text(e)),
        delim_at(b, i + render_text(e).len()),
    ensures
        lex(b, i, acc) == lex(b, i + render_text(e).len(), acc + expr_tokens(e)),
    decreases e, 1nat,
{
    reveal_strlit(" && ");
    reveal_strlit(" || ");
    let (x, y, sep, tok) = match e {
        ExprV::And(x, y) => (x, y, " && "@, TokenV::AndAnd),
        ExprV::Or(x, y) => (x, y, " || "@, TokenV::OrOr),
        _ => arbitrary(),
    };
    let px = paren_text(*x, render_text(*x));
    let py = paren_text(*y, render_text(*y));
    assert(render_text(e) == px + sep + py);
    assert(expr_tokens(e) == paren_tokens(*x, expr_tokens(*x)) + seq![tok] + paren_tokens(
        *y,
        expr_tokens(*y),
    ));
    lemma_has_text_split(b, i, px + sep, py);
    lemma_has_text_split(b, i, px, sep);
    let j = i + px.len();
    lemma_text_at(b, j, sep, 0);
    lemma_text_at(b, j, sep, 1);
    lemma_text_at(b, j, sep, 2);
    lemma_text_at(b, j, sep, 3);
    let a1 = acc + paren_tokens(*x, expr_tokens(*x));
    lemma_lex_paren(b, i, *x, acc);
    lemma_lex_blank(b, j, a1);
    lemma_lex_tok(b, j + 1, a1, tok, j + 3);
    lemma_lex_blank(b, j + 3, a1.push(tok));
    lemma_lex_paren(b, j + 4, *y, a1.push(tok));
    assert(a1.push(tok) + paren_tokens(*y, expr_tokens(*y)) =~= acc + expr_tokens(e));
}

proof fn lemma_lex_comparison(
    b: Seq<u8>,
    i: int,
    op: CmpOp,
    l: OperandV,
    r: OperandV,
    acc: Seq<TokenV>,
)
    requires
        operand_ok(l),
        operand_ok(r),
        has_text(b, i, operand_text(l) + " "@ + op_text(op) + " "@ + operand_text(r)),
        delim_at(b, i + (operand_text(l) + " "@ + op_text(op) + " "@ + operand_text(r)).len()),
    ensures
        lex(b, i, acc) == lex(
            b,
            i + (operand_text(l) + " "@ + op_text(op) + " "@ + operand_text(r)).len(),
            acc + seq![operand_token(l), op_token(op), operand_token(r)],
        ),
{
    reveal_strlit(" ");
    let tl = operand_text(l);
    let to = op_text(op);
    let tr = operand_text(r);
    lemma_has_text_split(b, i, tl + " "@ + to + " "@, tr);
    lemma_has_text_split(b, i, tl + " "@ + to, " "@);
    lemma_has_text_split(b, i, tl + " "@, to);
    lemma_has_text_split(b, i, tl, " "@);
    let j1 = i + tl.len();
    let j2 = j1 + 1 + to.len();
    lemma_text_at(b, j1, " "@, 0);
    lemma_text_at(b, j2, " "@, 0);
    lemma_lex_operand(b, i, l, acc);
    let a1 = acc.push(operand_token(l));
    lemma_lex_blank(b, j1, a1);
    lemma_op_len(op);
    lemma_lex_op(b, j1 + 1, op);
    lemma_lex_tok(b, j1 + 1, a1, op_token(op), j2);
    let a2 = a1.push(op_token(op));
    lemma_lex_blank(b, j2, a2);
    lemma_lex_operand(b, j2 + 1, r, a2);
    assert(a2.push(operand_token(r)) =~= acc + seq![
        operand_token(l),
        op_token(op),
        operand_token(r),
    ]);
}

proof fn lemma_op_len(op: CmpOp)
    ensures
        op_text(op).len() > 0,
{
    reveal_strlit("==");
    reveal_strlit("!=");
    reveal_strlit(">=");
    reveal_strlit("<");
    reveal_strlit("contains");
}

/// The same for the form with parentheses around conjunctions and
/// disjunctions.
proof fn lemma_lex_paren(b: Seq<u8>, i: int, e: ExprV, acc: Seq<TokenV>)
    requires
        renderable(e),
        has_text(b, i, paren_text(e, render_text(e))),
        delim_at(b, i + paren_text(e, render_text(e)).len()),
    ensures
        lex(b, i, acc) == lex(
            b,
            i + paren_text(e, render_text(e)).len(),
            acc + paren_tokens(e, expr_tokens(e)),
        ),
    decreases e, 3nat,
{
    reveal_strlit("(");
    reveal_strlit(")");
    if e is And || e is Or {
        let t = render_text(e);
        lemma_has_text_split(b, i, "("@ + t, ")"@);
        lemma_has_text_split(b, i, "("@, t);
        lemma_text_at(b, i, "("@, 0);
        lemma_text_at(b, i + 1 + t.len(), ")"@, 0);
        lemma_render_first(e);
        lemma_lex_tok(b, i, acc, TokenV::LParen, i + 1);
        lemma_lex_expr(b, i + 1, e, acc.push(TokenV::LParen));
        let a1 = acc.push(TokenV::LParen) + expr_tokens(e);
        lemma_lex_tok(b, i + 1 + t.len(), a1, TokenV::RParen, i + 2 + t.len());
        assert(a1.push(TokenV::RParen) =~= acc + paren_tokens(e, expr_tokens(e)));
    } else {
        lemma_lex_expr(b, i, e, acc);
    }
}

/// The tokens of `t` from `p` on begin with `ts`.
pub open spec fn has_tokens(t: Seq<TokenV>, p: int, ts: Seq<TokenV>) -> bool {
    &&& 0 <= p
    &&& p + ts.len() <= t.len()
    &&& forall|k: int| 0 <= k < ts.len() ==> t[p + k] == #[trigger] ts[k]
}

/// What may follow a whole disjunction: the end, or a closing parenthesis.
pub open spec fn after_or(t: Seq<TokenV>, q: int) -> bool {
    q == t.len() || (0 <= q < t.len() && t[q] == TokenV::RParen)
}

/// What may follow a conjunction: that, or `||`.
pub open spec fn after_and(t: Seq<TokenV>, q: int) -> bool {
    after_or(t, q) || (0 <= q < t.len() && t[q] == TokenV::OrOr)
}

/// What may follow a unary term: that, or `&&`.
pub open spec fn after_unary(t: Seq<TokenV>, q: int) -> bool {
    after_and(t, q) || (0 <= q < t.len() && t[q] == TokenV::AndAnd)
}

proof fn lemma_tokens_at(t: Seq<TokenV>, p: int, ts: Seq<TokenV>, k: int)
    requires
        has_tokens(t, p, ts),
        0 <= k < ts.len(),
    ensures
        t[p + k] == ts[k],
{
}

proof fn lemma_tokens_split(t: Seq<TokenV>, p: int, t1: Seq<TokenV>, t2: Seq<TokenV>)
    requires
        has_tokens(t, p, t1 + t2),
    ensures
        has_tokens(t, p, t1),
        has_tokens(t, p + t1.len(), t2),
{
    assert forall|k: int| 0 <= k < t1.len() implies t[p + k] == #[trigger] t1[k] by {
        assert((t1 + t2)[k] == t1[k]);
    }
    assert forall|k: int| 0 <= k < t2.len() implies t[p + t1.len() + k] == #[trigger] t2[k] by {
        assert((t1 + t2)[t1.len() + k] == t2[k]);
        assert(p + (t1.len() + k) == p + t1.len() + k);
    }
}

proof fn lemma_operand_parse(t: Seq<TokenV>, p: int, o: OperandV)
    requires
        0 <= p < t.len(),
        t[p] == operand_token(o),
    ensures
        p_operand(t, p) == (p + 1, Ok::<OperandV, Seq<char>>(o)),
{
}

/// The tokens of an atom, a comparison or a negation, followed by what may
/// follow a unary term, parse back as it.
proof fn lemma_parse_unary_form(t: Seq<TokenV>, p: int, e: ExprV)
    requires
        !(e is And || e is Or),
        renderable(e),
        has_tokens(t, p, expr_tokens(e)),
        after_unary(t, p + expr_tokens(e).len()),
    ensures
        p_unary(t, p) == (p + expr_tokens(e).len(), Ok::<ExprV, Seq<char>>(e)),
    decreases e, 1nat,
{
    let ts = expr_tokens(e);
    lemma_tokens_at(t, p, ts, 0);
    match e {
        ExprV::Atom(n) => {
            lemma_operand_parse(t, p, OperandV::Name(n));
            assert(op_at(t, p + 1) is None);
            assert(!tok_is(t, p, TokenV::Not));
            assert(p_unary(t, p) == p_primary(t, p));
            assert(ts.len() == 1);
        },
        ExprV::Cmp(op, l, r) => {
            lemma_tokens_at(t, p, ts, 1);
            lemma_tokens_at(t, p, ts, 2);
            lemma_operand_parse(t, p, l);
            lemma_operand_parse(t, p + 2, r);
            assert(op_at(t, p + 1) == Some(op));
            assert(!tok_is(t, p, TokenV::Not));
            assert(p_unary(t, p) == p_primary(t, p));
        },
        ExprV::Not(a) => {
            lemma_tokens_split(t, p, seq![TokenV::Not], paren_tokens(*a, expr_tokens(*a)));
            lemma_parse_paren_unary(t, p + 1, *a);
        },
        _ => {},
    }
}

/// The tokens of any expression, in parentheses where it is a conjunction or
/// a disjunction, followed by what may follow a unary term, parse back as it
/// at the level of unary terms.
proof fn lemma_parse_paren_unary(t: Seq<TokenV>, p: int, e: ExprV)
    requires
        renderable(e),
        has_tokens(t, p, paren_tokens(e, expr_tokens(e))),
        after_unary(t, p + paren_tokens(e, expr_tokens(e)).len()),
    ensures
        p_unary(t, p) == (p + paren_tokens(e, expr_tokens(e)).len(), Ok::<ExprV, Seq<char>>(e)),
    decreases e, 4nat,
{
    if e is And || e is Or {
        let ts = expr_tokens(e);
        lemma_tokens_split(t, p, seq![TokenV::LParen] + ts, seq![TokenV::RParen]);
        lemma_tokens_split(t, p, seq![TokenV::LParen], ts);
        lemma_tokens_at(t, p, seq![TokenV::LParen], 0);
        lemma_tokens_at(t, p + 1 + ts.len(), seq![TokenV::RParen], 0);
        lemma_parse_or_form(t, p + 1, e);
        assert(tok_is(t, p + 1 + ts.len(), TokenV::RParen));
        assert(p_unary(t, p) == p_primary(t, p));
    } else {
        lemma_parse_unary_form(t, p, e);
    }
}

/// The tokens of an expression that is no disjunction, followed by what may
/// follow a conjunction, parse back as it at the level of conjunctions.
proof fn lemma_parse_and_form(t: Seq<TokenV>, p: int, e: ExprV)
    requires
        !(e is Or),
        renderable(e),
        has_tokens(t, p, expr_tokens(e)),
        after_and(t, p + expr_tokens(e).len()),
    ensures
        p_and(t, p) == (p + expr_tokens(e).len(), Ok::<ExprV, Seq<char>>(e)),
    decreases e, 2nat,
{
    let ts = expr_tokens(e);
    let q = p + ts.len();
    match e {
        ExprV::And(x, y) => {
            let tx = paren_tokens(*x, expr_tokens(*x));
            let ty = paren_tokens(*y, expr_tokens(*y));
            lemma_tokens_split(t, p, tx + seq![TokenV::AndAnd], ty);
            lemma_tokens_split(t, p, tx, seq![TokenV::AndAnd]);
            let j = p + tx.len();
            lemma_tokens_at(t, j, seq![TokenV::AndAnd], 0);
            lemma_parse_paren_unary(t, p, *x);
            lemma_parse_paren_unary(t, j + 1, *y);
            assert(p_and_tail(t, *x, j) == p_and_tail(
                t,
                ExprV::And(Box::new(*x), Box::new(*y)),
                q,
            ));
            assert(ExprV::And(Box::new(*x), Box::new(*y)) == e);
        },
        _ => {
            lemma_parse_unary_form(t, p, e);
        },
    }
}

/// The same as above for the form with parentheses around conjunctions and
/// disjunctions.
proof fn lemma_parse_paren_and(t: Seq<TokenV>, p: int, e: ExprV)
    requires
        renderable(e),
        has_tokens(t, p, paren_tokens(e, expr_tokens(e))),
        after_and(t, p + paren_tokens(e, expr_tokens(e)).len()),
    ensures
        p_and(t, p) == (p + paren_tokens(e, expr_tokens(e)).len(), Ok::<ExprV, Seq<char>>(e)),
    decreases e, 5nat,
{
    if e is And || e is Or {
        lemma_parse_paren_unary(t, p, e);
    } else {
        lemma_parse_and_form(t, p, e);
    }
}

/// The tokens of any expression, followed by the end or a closing
/// parenthesis, parse back as it.
proof fn lemma_parse_or_form(t: Seq<TokenV>, p: int, e: ExprV)
    requires
        renderable(e),
        has_tokens(t, p, expr_tokens(e)),
        after_or(t, p + expr_tokens(e).len()),
    ensures
        p_or(t, p) == (p + expr_tokens(e).len(), Ok::<ExprV, Seq<char>>(e)),
    decreases e, 3nat,
{
    let ts = expr_tokens(e);
    let q = p + ts.len();
    match e {
        ExprV::Or(x, y) => {
            let tx = paren_tokens(*x, expr_tokens(*x));
            let ty = paren_tokens(*y, expr_tokens(*y));
            lemma_tokens_split(t, p, tx + seq![TokenV::OrOr], ty);
            lemma_tokens_split(t, p, tx, seq![TokenV::OrOr]);
            let j = p + tx.len();
            lemma_tokens_at(t, j, seq![TokenV::OrOr], 0);
            lemma_parse_paren_and(t, p, *x);
            lemma_parse_paren_and(t, j + 1, *y);
            assert(p_or_tail(t, *x, j) == p_or_tail(
                t,
                ExprV::Or(Box::new(*x), Box::new(*y)),
                q,
            ));
            assert(ExprV::Or(Box::new(*x), Box::new(*y)) == e);
        },
        _ => {
            lemma_parse_and_form(t, p, e);
        },
    }
}

proof fn lemma_ascii_concat(a: Seq<char>, b: Seq<char>)
    requires
        is_ascii_chars(a),
        is_ascii_chars(b),
    ensures
        is_ascii_chars(a + b),
{
    assert forall|k: int| 0 <= k < (a + b).len() implies '\0' <= #[trigger] (a + b)[k] <= '\u{7f}' by {
        if k < a.len() {
            assert((a + b)[k] == a[k]);
        } else {
            assert((a + b)[k] == b[k - a.len()]);
        }
    }
}

proof fn lemma_literal_ascii(s: Seq<char>)
    requires
        literal_ok(s),
    ensures
        is_ascii_chars(s),
{
    assert forall|i: int| 0 <= i < s.len() implies '\0' <= #[trigger] s[i] <= '\u{7f}' by {
        assert(s[i] <= '\u{7f}');
        lemma_char_nonneg(s[i]);
    }
}

proof fn lemma_char_nonneg(c: char)
    ensures
        '\0' <= c,
{
}

proof fn lemma_ascii_nat(m: nat)
    ensures
        is_ascii_chars(nat_text(m)),
    decreases m,
{
    if m >= 10 {
        lemma_ascii_nat(m / 10);
        lemma_ascii_concat(nat_text(m / 10), seq![digit_char((m % 10) as int)]);
        assert(nat_text(m) =~= nat_text(m / 10) + seq![digit_char((m % 10) as int)]);
    }
}

proof fn lemma_ascii_int(n: i64)
    ensures
        is_ascii_chars(operand_text(OperandV::Int(n))),
{
    if n < 0 {
        lemma_ascii_nat((-n) as nat);
        lemma_ascii_concat(seq!['-'], nat_text((-n) as nat));
    } else {
        lemma_ascii_nat(n as nat);
    }
}

proof fn lemma_ascii_operand(o: OperandV)
    requires
        operand_ok(o),
    ensures
        is_ascii_chars(operand_text(o)),
{
    reveal_strlit("\"");
    match o {
        OperandV::Name(n) => {
            assert forall|k: int| 0 <= k < n.len() implies '\0' <= #[trigger] n[k] <= '\u{7f}' by {
                assert(is_name_char(n[k]));
            }
        },
        OperandV::Str(s) => {
            lemma_literal_ascii(s);
            lemma_ascii_concat("\""@, s);
            lemma_ascii_concat("\""@ + s, "\""@);
        },
        OperandV::Int(n) => {
            lemma_ascii_int(n);
        },
    }
}

proof fn lemma_ascii_render(e: ExprV)
    requires
        renderable(e),
    ensures
        is_ascii_chars(render_text(e)),
        is_ascii_chars(paren_text(e, render_text(e))),
    decreases e,
{
    reveal_strlit("!");
    reveal_strlit("(");
    reveal_strlit(")");
    reveal_strlit(" ");
    reveal_strlit(" && ");
    reveal_strlit(" || ");
    reveal_strlit("==");
    reveal_strlit("!=");
    reveal_strlit(">=");
    reveal_strlit("<");
    reveal_strlit("contains");
    match e {
        ExprV::Atom(n) => {
            assert forall|k: int| 0 <= k < n.len() implies '\0' <= #[trigger] n[k] <= '\u{7f}' by {
                assert(is_name_char(n[k]));
            }
        },
        ExprV::Not(a) => {
            lemma_ascii_render(*a);
            lemma_ascii_concat("!"@, paren_text(*a, render_text(*a)));
        },
        ExprV::And(x, y) => {
            lemma_ascii_render(*x);
            lemma_ascii_render(*y);
            let px = paren_text(*x, render_text(*x));
            lemma_ascii_concat(px, " && "@);
            lemma_ascii_concat(px + " && "@, paren_text(*y, render_text(*y)));
        },
        ExprV::Or(x, y) => {
            lemma_ascii_render(*x);
            lemma_ascii_render(*y);
            let px = paren_text(*x, render_text(*x));
            lemma_ascii_concat(px, " || "@);
            lemma_ascii_concat(px + " || "@, paren_text(*y, render_text(*y)));
        },
        ExprV::Cmp(op, l, r) => {
            lemma_ascii_operand(l);
            lemma_ascii_operand(r);
            let tl = operand_text(l);
            lemma_ascii_concat(tl, " "@);
            lemma_ascii_concat(tl + " "@, op_text(op));
            lemma_ascii_concat(tl + " "@ + op_text(op), " "@);
            lemma_ascii_concat(tl + " "@ + op_text(op) + " "@, operand_text(r));
        },
    }
    if e is And || e is Or {
        lemma_ascii_concat("("@, render_text(e));
        lemma_ascii_concat("("@ + render_text(e), ")"@);
    }
}

/// An ASCII text's UTF-8 bytes spell it one byte per character.
proof fn lemma_ascii_bytes(t: Seq<char>)
    requires
        is_ascii_chars(t),
    ensures
        encode_utf8(t).len() == t.len(),
        has_text(encode_utf8(t), 0, t),
{
    is_ascii_chars_encode_utf8(t);
    let b = encode_utf8(t);
    assert forall|k: int| 0 <= k < t.len() implies byte_char(b[0 + k]) == #[trigger] t[k] by {
        assert('\0' <= t[k] <= '\u{7f}');
        assert(t[k] as u8 == b[k]);
    }
}

/// Rendering an expression and parsing the text gives the expression back,
/// for every expression whose names are plain names (an ASCII letter or `_`,
/// then letters, digits and `_`, and no keyword) and whose string literals
/// are ASCII without double quotes or backslashes.
pub proof fn render_parse_roundtrip(e: ExprV)
    requires
        renderable(e),
    ensures
        parse_result(render_text(e)) == Ok::<ExprV, Seq<char>>(e),
{
    let t = render_text(e);
    lemma_ascii_render(e);
    lemma_ascii_bytes(t);
    let b = encode_utf8(t);
    let ts = expr_tokens(e);
    lemma_lex_expr(b, 0, e, Seq::empty());
    assert(Seq::<TokenV>::empty() + ts =~= ts);
    assert(tokenize_result(t) == Ok::<Seq<TokenV>, Seq<char>>(ts));
    lemma_parse_or_form(ts, 0, e);
}

/// Every character is an ASCII letter, digit or `_`.
pub open spec fn plain_chars(n: Seq<char>) -> bool {
    forall|j: int| 0 <= j < n.len() ==> is_name_char(#[trigger] n[j])
}

/// Every name token holds only ASCII letters, digits and `_`.
pub open spec fn idents_plain(ts: Seq<TokenV>) -> bool {
    forall|k: int| 0 <= k < ts.len() ==> (#[trigger] ts[k] matches TokenV::Ident(n) ==> plain_chars(n))
}

proof fn lemma_token_plain(b: Seq<u8>, i: int)
    requires
        0 <= i < b.len(),
    ensures
        token_at(b, i) matches Ok((Some(TokenV::Ident(n)), _)) ==> plain_chars(n),
{
    lemma_name_end(b, i);
    let e = name_end(b, i);
    let w = byte_chars(b.subrange(i, e));
    assert forall|j: int| 0 <= j < w.len() implies is_name_char(#[trigger] w[j]) by {
        assert(w[j] == byte_char(b[i + j]));
        assert(is_name_byte(b[i + j]));
    }
}

proof fn lemma_lex_plain(b: Seq<u8>, i: int, acc: Seq<TokenV>)
    requires
        idents_plain(acc),
    ensures
        lex(b, i, acc) matches Ok(ts) ==> idents_plain(ts),
    decreases b.len() - i,
{
    if 0 <= i < b.len() {
        lemma_token_plain(b, i);
        match token_at(b, i) {
            Ok((t, j)) => {
                if i < j <= b.len() {
                    let next = match t {
                        Some(t) => acc.push(t),
                        None => acc,
                    };
                    assert forall|k: int| 0 <= k < next.len() implies (#[trigger] next[k] matches TokenV::Ident(
                        n,
                    ) ==> plain_chars(n)) by {
                        if k < acc.len() {
                            assert(next[k] == acc[k]);
                        }
                    }
                    lemma_lex_plain(b, j, next);
                }
            },
            Err(_) => {},
        }
    }
}

/// Every name that `tokenize` reads is made of ASCII letters, digits and
/// `_` only.
pub proof fn tokenize_names_are_plain(src: Seq<char>)
    ensures
        tokenize_result(src) matches Ok(ts) ==> idents_plain(ts),
{
    lemma_lex_plain(encode_utf8(src), 0, Seq::empty());
}

/// A name ends at `=`: two plain names joined by `=` read as the first name,
/// the equality operator and the second name.
pub proof fn name_stops_at_equals(n: Seq<char>, m: Seq<char>)
    requires
        name_ok(n),
        name_ok(m),
    ensures
        tokenize_result(n + seq!['='] + m) == Ok::<Seq<TokenV>, Seq<char>>(
            seq![TokenV::Ident(n), TokenV::Eq, TokenV::Ident(m)],
        ),
{
    let t = n + seq!['='] + m;
    lemma_ascii_operand(OperandV::Name(n));
    lemma_ascii_operand(OperandV::Name(m));
    lemma_ascii_concat(n, seq!['=']);
    lemma_ascii_concat(n + seq!['='], m);
    lemma_ascii_bytes(t);
    let b = encode_utf8(t);
    lemma_has_text_split(b, 0, n + seq!['='], m);
    lemma_has_text_split(b, 0, n, seq!['=']);
    let j = n.len() as int;
    lemma_text_at(b, j, seq!['='], 0);
    lemma_text_at(b, j + 1, m, 0);
    assert(b[j] == 61);
    assert(is_name_first(m[0]));
    assert(b[j + 1] != 61);
    lemma_lex_name(b, 0, n);
    lemma_lex_tok(b, 0, Seq::empty(), TokenV::Ident(n), j);
    let a1 = Seq::<TokenV>::empty().push(TokenV::Ident(n));
    lemma_lex_tok(b, j, a1, TokenV::Eq, j + 1);
    lemma_lex_name(b, j + 1, m);
    lemma_lex_tok(b, j + 1, a1.push(TokenV::Eq), TokenV::Ident(m), b.len() as int);
    assert(a1.push(TokenV::Eq).push(TokenV::Ident(m)) =~= seq![
        TokenV::Ident(n),
        TokenV::Eq,
        TokenV::Ident(m),
    ]);
}

/// A text that tokenizes to `ts`, where a disjunction read from the start
/// takes all of `ts` and gives `e`, parses to `e`.
proof fn lemma_whole_parse(t: Seq<char>, ts: Seq<TokenV>, e: ExprV)
    requires
        lex_bytes_is(t, ts),
        p_or(ts, 0) == (ts.len() as int, Ok::<ExprV, Seq<char>>(e)),
    ensures
        parse_result(t) == Ok::<ExprV, Seq<char>>(e),
{
}

/// `t` tokenizes to `ts`.
pub open spec fn lex_bytes_is(t: Seq<char>, ts: Seq<TokenV>) -> bool {
    tokenize_result(t) == Ok::<Seq<TokenV>, Seq<char>>(ts)
}

/// `&&` binds tighter than `||` on its right: `a || b && c` reads as
/// `a || (b && c)`, for any plain `a`, `b`, `c` written in their own source
/// form (in parentheses where they are conjunctions or disjunctions).
pub proof fn and_binds_tighter_on_the_right(a: ExprV, b: ExprV, c: ExprV)
    requires
        renderable(a),
        renderable(b),
        renderable(c),
    ensures
        parse_result(
            paren_text(a, render_text(a)) + " || "@ + paren_text(b, render_text(b)) + " && "@
                + paren_text(c, render_text(c)),
        ) == Ok::<ExprV, Seq<char>>(
            ExprV::Or(Box::new(a), Box::new(ExprV::And(Box::new(b), Box::new(c)))),
        ),
{
    reveal_strlit(" || ");
    reveal_strlit(" && ");
    let e2 = ExprV::And(Box::new(b), Box::new(c));
    let pa = paren_text(a, render_text(a));
    let r2 = render_text(e2);
    let t = pa + " || "@ + r2;
    assert(pa + " || "@ + paren_text(b, render_text(b)) + " && "@ + paren_text(c, render_text(c))
        =~= t);
    lemma_ascii_render(a);
    lemma_ascii_render(e2);
    lemma_ascii_concat(pa, " || "@);
    lemma_ascii_concat(pa + " || "@, r2);
    lemma_ascii_bytes(t);
    let bs = encode_utf8(t);
    lemma_has_text_split(bs, 0, pa + " || "@, r2);
    lemma_has_text_split(bs, 0, pa, " || "@);
    let j = pa.len() as int;
    lemma_text_at(bs, j, " || "@, 0);
    lemma_text_at(bs, j, " || "@, 1);
    lemma_text_at(bs, j, " || "@, 2);
    lemma_text_at(bs, j, " || "@, 3);
    let ta = paren_tokens(a, expr_tokens(a));
    lemma_lex_paren(bs, 0, a, Seq::empty());
    let a1 = Seq::<TokenV>::empty() + ta;
    lemma_lex_blank(bs, j, a1);
    lemma_lex_tok(bs, j + 1, a1, TokenV::OrOr, j + 3);
    lemma_lex_blank(bs, j + 3, a1.push(TokenV::OrOr));
    lemma_lex_expr(bs, j + 4, e2, a1.push(TokenV::OrOr));
    let ts = a1.push(TokenV::OrOr) + expr_tokens(e2);
    assert(tokenize_result(t) == Ok::<Seq<TokenV>, Seq<char>>(ts));
    assert(ts =~= ta + seq![TokenV::OrOr] + expr_tokens(e2));
    lemma_tokens_split(ts, 0, ta + seq![TokenV::OrOr], expr_tokens(e2));
    lemma_tokens_split(ts, 0, ta, seq![TokenV::OrOr]);
    let k = ta.len() as int;
    lemma_tokens_at(ts, k, seq![TokenV::OrOr], 0);
    lemma_parse_paren_and(ts, 0, a);
    lemma_parse_and_form(ts, k + 1, e2);
    lemma_whole_parse(t, ts, ExprV::Or(Box::new(a), Box::new(e2)));
}

/// `&&` binds tighter than `||` on its left: `a && b || c` reads as
/// `(a && b) || c`.
pub proof fn and_binds_tighter_on_the_left(a: ExprV, b: ExprV, c: ExprV)
    requires
        renderable(a),
        renderable(b),
        renderable(c),
    ensures
        parse_result(
            paren_text(a, render_text(a)) + " && "@ + paren_text(b, render_text(b)) + " || "@
                + paren_text(c, render_text(c)),
        ) == Ok::<ExprV, Seq<char>>(
            ExprV::Or(Box::new(ExprV::And(Box::new(a), Box::new(b))), Box::new(c)),
        ),
{
    reveal_strlit(" || ");
    reveal_strlit(" && ");
    let e1 = ExprV::And(Box::new(a), Box::new(b));
    let r1 = render_text(e1);
    let pc = paren_text(c, render_text(c));
    let t = r1 + " || "@ + pc;
    assert(paren_text(a, render_text(a)) + " && "@ + paren_text(b, render_text(b)) + " || "@ + pc
        =~= t);
    lemma_ascii_render(e1);
    lemma_ascii_render(c);
    lemma_ascii_concat(r1, " || "@);
    lemma_ascii_concat(r1 + " || "@, pc);
    lemma_ascii_bytes(t);
    let bs = encode_utf8(t);
    lemma_has_text_split(bs, 0, r1 + " || "@, pc);
    lemma_has_text_split(bs, 0, r1, " || "@);
    let j = r1.len() as int;
    lemma_text_at(bs, j, " || "@, 0);
    lemma_text_at(bs, j, " || "@, 1);
    lemma_text_at(bs, j, " || "@, 2);
    lemma_text_at(bs, j, " || "@, 3);
    let t1 = expr_tokens(e1);
    lemma_lex_expr(bs, 0, e1, Seq::empty());
    let a1 = Seq::<TokenV>::empty() + t1;
    lemma_lex_blank(bs, j, a1);
    lemma_lex_tok(bs, j + 1, a1, TokenV::OrOr, j + 3);
    lemma_lex_blank(bs, j + 3, a1.push(TokenV::OrOr));
    lemma_lex_paren(bs, j + 4, c, a1.push(TokenV::OrOr));
    let tc = paren_tokens(c, expr_tokens(c));
    let ts = a1.push(TokenV::OrOr) + tc;
    assert(tokenize_result(t) == Ok::<Seq<TokenV>, Seq<char>>(ts));
    assert(ts =~= t1 + seq![TokenV::OrOr] + tc);
    lemma_tokens_split(ts, 0, t1 + seq![TokenV::OrOr], tc);
    lemma_tokens_split(ts, 0, t1, seq![TokenV::OrOr]);
    let k = t1.len() as int;
    lemma_tokens_at(ts, k, seq![TokenV::OrOr], 0);
    lemma_parse_and_form(ts, 0, e1);
    lemma_parse_paren_and(ts, k + 1, c);
    lemma_whole_parse(t, ts, ExprV::Or(Box::new(e1), Box::new(c)));
}

} // verus!
