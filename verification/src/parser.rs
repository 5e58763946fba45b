//! The recursive-descent parser.
//!
//! Grammar (precedence low to high): `||`, `&&`, `!`, comparison, primary.

use crate::ast::{CmpOp, Expr, ExprV, Operand, OperandV};
use crate::lexer::{err, err_text, tokenize, tokenize_result, tokens_view, Token, TokenV};
use vstd::prelude::*;

verus! {

broadcast use vstd::string::group_string_axioms;

/// What a parsing step leaves: the position after it, and what it read or
/// the message of the error it met.
pub type Step<T> = (int, Result<T, Seq<char>>);

/// The token at `p` is `k`.
pub open spec fn tok_is(t: Seq<TokenV>, p: int, k: TokenV) -> bool {
    0 <= p < t.len() && t[p] == k
}

/// The position after taking the next token, if there is one.
pub open spec fn after_next(t: Seq<TokenV>, p: int) -> int {
    if 0 <= p < t.len() {
        p + 1
    } else {
        p
    }
}

/// Reads one operand: a name, a string literal or an integer literal.
pub open spec fn p_operand(t: Seq<TokenV>, p: int) -> Step<OperandV> {
    if 0 <= p < t.len() {
        match t[p] {
            TokenV::Ident(n) => (p + 1, Ok(OperandV::Name(n))),
            TokenV::Str(s) => (p + 1, Ok(OperandV::Str(s))),
            TokenV::Int(n) => (p + 1, Ok(OperandV::Int(n))),
            _ => (p + 1, Err("expected an option name or literal"@)),
        }
    } else {
        (p, Err("expected an option name or literal"@))
    }
}

/// The comparison operator at `p`, if there is one there.
pub open spec fn op_at(t: Seq<TokenV>, p: int) -> Option<CmpOp> {
    if 0 <= p < t.len() {
        match t[p] {
            TokenV::Eq => Some(CmpOp::Eq),
            TokenV::Ne => Some(CmpOp::Ne),
            TokenV::Ge => Some(CmpOp::Ge),
            TokenV::Lt => Some(CmpOp::Lt),
            TokenV::Contains => Some(CmpOp::Contains),
            _ => None,
        }
    } else {
        None
    }
}

/// A disjunction: conjunctions separated by `||`, grouped to the left.
pub open spec fn p_or(t: Seq<TokenV>, p: int) -> Step<ExprV>
    decreases t.len() - p, 5int,
{
    let (p1, r1) = p_and(t, p);
    match r1 {
        Err(m) => (p1, Err(m)),
        Ok(l) => if p <= p1 <= t.len() {
            p_or_tail(t, l, p1)
        } else {
            (p1, Err(Seq::empty()))
        },
    }
}

/// The rest of a disjunction whose operands so far make up `l`.
pub open spec fn p_or_tail(t: Seq<TokenV>, l: ExprV, p: int) -> Step<ExprV>
    decreases t.len() - p, 4int,
{
    if tok_is(t, p, TokenV::OrOr) {
        let (p2, r2) = p_and(t, p + 1);
        match r2 {
            Err(m) => (p2, Err(m)),
            Ok(r) => if p < p2 <= t.len() {
                p_or_tail(t, ExprV::Or(Box::new(l), Box::new(r)), p2)
            } else {
                (p2, Err(Seq::empty()))
            },
        }
    } else {
        (p, Ok(l))
    }
}

/// A conjunction: unary terms separated by `&&`, grouped to the left.
pub open spec fn p_and(t: Seq<TokenV>, p: int) -> Step<ExprV>
    decreases t.len() - p, 3int,
{
    let (p1, r1) = p_unary(t, p);
    match r1 {
        Err(m) => (p1, Err(m)),
        Ok(l) => if p <= p1 <= t.len() {
            p_and_tail(t, l, p1)
        } else {
            (p1, Err(Seq::empty()))
        },
    }
}

/// The rest of a conjunction whose operands so far make up `l`.
pub open spec fn p_and_tail(t: Seq<TokenV>, l: ExprV, p: int) -> Step<ExprV>
    decreases t.len() - p, 2int,
{
    if tok_is(t, p, TokenV::AndAnd) {
        let (p2, r2) = p_unary(t, p + 1);
        match r2 {
            Err(m) => (p2, Err(m)),
            Ok(r) => if p < p2 <= t.len() {
                p_and_tail(t, ExprV::And(Box::new(l), Box::new(r)), p2)
            } else {
                (p2, Err(Seq::empty()))
            },
        }
    } else {
        (p, Ok(l))
    }
}

/// A unary term: any number of `!` before a primary.
pub open spec fn p_unary(t: Seq<TokenV>, p: int) -> Step<ExprV>
    decreases t.len() - p, 1int,
{
    if tok_is(t, p, TokenV::Not) {
        let (p1, r) = p_unary(t, p + 1);
        match r {
            Err(m) => (p1, Err(m)),
            Ok(e) => (p1, Ok(ExprV::Not(Box::new(e)))),
        }
    } else {
        p_primary(t, p)
    }
}

/// A primary: a parenthesized disjunction, a comparison of two operands, or
/// a bare name.
pub open spec fn p_primary(t: Seq<TokenV>, p: int) -> Step<ExprV>
    decreases t.len() - p, 0int,
{
    if tok_is(t, p, TokenV::LParen) {
        let (p1, r) = p_or(t, p + 1);
        match r {
            Err(m) => (p1, Err(m)),
            Ok(inner) => if tok_is(t, p1, TokenV::RParen) {
                (p1 + 1, Ok(inner))
            } else {
                (after_next(t, p1), Err("expected `)`"@))
            },
        }
    } else {
        let (p1, ro) = p_operand(t, p);
        match ro {
            Err(m) => (p1, Err(m)),
            Ok(lhs) => match op_at(t, p1) {
                Some(op) => {
                    let (p2, rr) = p_operand(t, p1 + 1);
                    match rr {
                        Err(m) => (p2, Err(m)),
                        Ok(rhs) => (p2, Ok(ExprV::Cmp(op, lhs, rhs))),
                    }
                },
                None => match lhs {
                    OperandV::Name(n) => (p1, Ok(ExprV::Atom(n))),
                    _ => (p1, Err("a bare literal is not a boolean expression"@)),
                },
            },
        }
    }
}

/// What `parse_expr` returns for a source text, by its characters.
pub open spec fn parse_result(src: Seq<char>) -> Result<ExprV, Seq<char>> {
    match tokenize_result(src) {
        Err(e) => Err(e),
        Ok(t) => {
            let (p, r) = p_or(t, 0);
            match r {
                Err(m) => Err(err_text(src, m)),
                Ok(e) => if p == t.len() {
                    Ok(e)
                } else {
                    Err(err_text(src, "trailing tokens"@))
                },
            }
        },
    }
}

/// An executable result matches a step's result, errors naming `src`.
pub open spec fn matches_step<T: View>(r: Result<T, String>, s: Result<T::V, Seq<char>>, src: Seq<char>) -> bool {
    match (r, s) {
        (Ok(x), Ok(y)) => x@ == y,
        (Err(e), Err(m)) => e@ == err_text(src, m),
        _ => false,
    }
}

/// A parser over a token sequence, with the source text for its error
/// messages.
pub struct Parser<'a> {
    toks: &'a [Token],
    pos: usize,
    src: &'a str,
}

impl<'a> Parser<'a> {
    /// The tokens the parser reads.
    pub closed spec fn token_seq(&self) -> Seq<Token> {
        self.toks@
    }

    /// The views of the tokens the parser reads.
    pub open spec fn tokens(&self) -> Seq<TokenV> {
        tokens_view(self.token_seq())
    }

    /// The index of the next token to read.
    pub closed spec fn position(&self) -> int {
        self.pos as int
    }

    /// The source text named in error messages.
    pub closed spec fn source(&self) -> Seq<char> {
        self.src@
    }

    /// The position lies within the tokens or at their end.
    pub open spec fn wf(&self) -> bool {
        self.position() <= self.token_seq().len()
    }

    pub fn new(toks: &'a [Token], src: &'a str) -> (p: Self)
        ensures
            p.wf(),
            p.token_seq() == toks@,
            p.tokens() == tokens_view(toks@),
            p.position() == 0,
            p.source() == src@,
    {
        Parser { toks, pos: 0, src }
    }

    /// The next token, without taking it.
    pub fn peek(&self) -> (r: Option<&Token>)
        requires
            self.wf(),
        ensures
            match r {
                Some(t) => self.position() < self.token_seq().len() && *t == self.token_seq()[self.position()],
                None => self.position() == self.token_seq().len(),
            },
    {
        if self.pos < self.toks.len() {
            Some(&self.toks[self.pos])
        } else {
            None
        }
    }

    /// Takes the next token.
    pub fn next(&mut self) -> (r: Option<Token>)
        requires
            old(self).wf(),
        ensures
            final(self).wf(),
            final(self).token_seq() == old(self).token_seq(),
            final(self).source() == old(self).source(),
            final(self).position() == after_next(old(self).tokens(), old(self).position()),
            match r {
                Some(t) => old(self).position() < old(self).token_seq().len() && t == old(self).token_seq()[old(self).position()],
                None => old(self).position() == old(self).token_seq().len(),
            },
    {
        if self.pos < self.toks.len() {
            let t = self.toks[self.pos].duplicate();
            self.pos = self.pos + 1;
            Some(t)
        } else {
            None
        }
    }

    /// `next` is what `self` has become after a parsing step from `self`
    /// that returned `r`, where the step's spec gives `s`.
    pub open spec fn stepped<T: View>(
        &self,
        next: &Self,
        r: Result<T, String>,
        s: Step<T::V>,
    ) -> bool {
        &&& next.wf()
        &&& next.token_seq() == self.token_seq()
        &&& next.source() == self.source()
        &&& next.position() == s.0
        &&& self.position() <= next.position()
        &&& (r is Ok ==> self.position() < next.position())
        &&& matches_step(r, s.1, self.source())
    }

    /// All tokens have been taken.
    pub fn at_end(&self) -> (r: bool)
        requires
            self.wf(),
        ensures
            r == (self.position() == self.tokens().len()),
    {
        self.pos == self.toks.len()
    }
}

impl<'a> Parser<'a> {
    /// Parses a disjunction, the lowest level of the grammar.
    pub fn parse_or(&mut self) -> (r: Result<Expr, String>)
        requires
            old(self).wf(),
        ensures
            old(self).stepped(final(self), r, p_or(old(self).tokens(), old(self).position())),
        decreases old(self).tokens().len() - old(self).position(), 3nat,
    {
        let ghost t = self.tokens();
        let ghost p0 = self.position();
        let mut lhs = match self.parse_and() {
            Ok(e) => e,
            Err(e) => return Err(e),
        };
        loop
            invariant
                self.wf(),
                self.token_seq() == old(self).token_seq(),
                self.source() == old(self).source(),
                t == self.tokens(),
                p0 == old(self).position(),
                p0 < self.position(),
                p_or(t, p0) == p_or_tail(t, lhs@, self.position()),
            decreases self.tokens().len() - self.position(),
        {
            match self.peek() {
                Some(Token::OrOr) => {},
                _ => {
                    return Ok(lhs);
                },
            }
            self.next();
            let rhs = match self.parse_and() {
                Ok(e) => e,
                Err(e) => return Err(e),
            };
            lhs = Expr::Or(Box::new(lhs), Box::new(rhs));
        }
    }

    fn parse_and(&mut self) -> (r: Result<Expr, String>)
        requires
            old(self).wf(),
        ensures
            old(self).stepped(final(self), r, p_and(old(self).tokens(), old(self).position())),
        decreases old(self).tokens().len() - old(self).position(), 2nat,
    {
        let ghost t = self.tokens();
        let ghost p0 = self.position();
        let mut lhs = match self.parse_unary() {
            Ok(e) => e,
            Err(e) => return Err(e),
        };
        loop
            invariant
                self.wf(),
                self.token_seq() == old(self).token_seq(),
                self.source() == old(self).source(),
                t == self.tokens(),
                p0 == old(self).position(),
                p0 < self.position(),
                p_and(t, p0) == p_and_tail(t, lhs@, self.position()),
            decreases self.tokens().len() - self.position(),
        {
            match self.peek() {
                Some(Token::AndAnd) => {},
                _ => {
                    return Ok(lhs);
                },
            }
            self.next();
            let rhs = match self.parse_unary() {
                Ok(e) => e,
                Err(e) => return Err(e),
            };
            lhs = Expr::And(Box::new(lhs), Box::new(rhs));
        }
    }

    fn parse_unary(&mut self) -> (r: Result<Expr, String>)
        requires
            old(self).wf(),
        ensures
            old(self).stepped(final(self), r, p_unary(old(self).tokens(), old(self).position())),
        decreases old(self).tokens().len() - old(self).position(), 1nat,
    {
        if let Some(Token::Not) = self.peek() {
            self.next();
            let inner = match self.parse_unary() {
                Ok(e) => e,
                Err(e) => return Err(e),
            };
            return Ok(Expr::Not(Box::new(inner)));
        }
        self.parse_primary()
    }

    fn comparison(&mut self) -> (r: Option<CmpOp>)
        requires
            old(self).wf(),
        ensures
            final(self).wf(),
            final(self).token_seq() == old(self).token_seq(),
            final(self).source() == old(self).source(),
            r == op_at(old(self).tokens(), old(self).position()),
            final(self).position() == if r is Some {
                old(self).position() + 1
            } else {
                old(self).position()
            },
    {
        let op = match self.peek() {
            Some(Token::Eq) => CmpOp::Eq,
            Some(Token::Ne) => CmpOp::Ne,
            Some(Token::Ge) => CmpOp::Ge,
            Some(Token::Lt) => CmpOp::Lt,
            Some(Token::Contains) => CmpOp::Contains,
            _ => return None,
        };
        self.next();
        Some(op)
    }

    fn parse_operand(&mut self) -> (r: Result<Operand, String>)
        requires
            old(self).wf(),
        ensures
            old(self).stepped(final(self), r, p_operand(old(self).tokens(), old(self).position())),
    {
        match self.next() {
            Some(Token::Ident(name)) => Ok(Operand::Name(name)),
            Some(Token::Str(s)) => Ok(Operand::Str(s)),
            Some(Token::Int(n)) => Ok(Operand::Int(n)),
            _ => Err(err(self.src, "expected an option name or literal")),
        }
    }

    fn parse_primary(&mut self) -> (r: Result<Expr, String>)
        requires
            old(self).wf(),
        ensures
            old(self).stepped(final(self), r, p_primary(old(self).tokens(), old(self).position())),
        decreases old(self).tokens().len() - old(self).position(), 0nat,
    {
        if let Some(Token::LParen) = self.peek() {
            self.next();
            let inner = match self.parse_or() {
                Ok(e) => e,
                Err(e) => return Err(e),
            };
            match self.next() {
                Some(Token::RParen) => {},
                _ => return Err(err(self.src, "expected `)`")),
            }
            return Ok(inner);
        }
        let lhs = match self.parse_operand() {
            Ok(o) => o,
            Err(e) => return Err(e),
        };
        if let Some(op) = self.comparison() {
            let rhs = match self.parse_operand() {
                Ok(o) => o,
                Err(e) => return Err(e),
            };
            return Ok(Expr::Cmp(op, lhs, rhs));
        }
        match lhs {
            Operand::Name(name) => Ok(Expr::Atom(name)),
            _ => Err(err(self.src, "a bare literal is not a boolean expression")),
        }
    }
}

/// Parses a source text into a predicate: tokenizes it, parses a
/// disjunction, and refuses tokens left over after it.
pub fn parse_expr(src: &str) -> (r: Result<Expr, String>)
    ensures
        match (r, parse_result(src@)) {
            (Ok(e), Ok(ev)) => e@ == ev,
            (Err(e), Err(m)) => e@ == m,
            _ => false,
        },
{
    let toks = match tokenize(src) {
        Ok(t) => t,
        Err(e) => return Err(e),
    };
    let mut p = Parser::new(toks.as_slice(), src);
    let expr = match p.parse_or() {
        Ok(e) => e,
        Err(e) => return Err(e),
    };
    if !p.at_end() {
        return Err(err(src, "trailing tokens"));
    }
    Ok(expr)
}

} // verus!
