//! The value model and the expression syntax tree, with rendering back to
//! source form.

use crate::text::{int_text, push_int_text, push_text};
use vstd::prelude::*;

verus! {

broadcast use vstd::string::group_string_axioms;

/// The minimal value an operand resolves to: a boolean, a string or an
/// integer.
#[derive(Debug, Clone, PartialEq, Eq)]
pub enum Value {
    Bool(bool),
    Str(String),
    Int(i64),
}

/// A value with its string taken as a sequence of characters.
pub enum ValueV {
    Bool(bool),
    Str(Seq<char>),
    Int(i64),
}

impl View for Value {
    type V = ValueV;

    open spec fn view(&self) -> ValueV {
        match self {
            Value::Bool(b) => ValueV::Bool(*b),
            Value::Str(s) => ValueV::Str(s@),
            Value::Int(n) => ValueV::Int(*n),
        }
    }
}

/// A comparison operator.
#[derive(Debug, Clone, Copy, PartialEq, Eq)]
pub enum CmpOp {
    Eq,
    Ne,
    Ge,
    Lt,
    /// Comma-list membership: the left value is split on `,`, items are
    /// trimmed, and the right literal must match one exactly.
    Contains,
}

/// One side of a comparison: an option name, a string literal or an integer
/// literal.
#[derive(Debug, Clone, PartialEq, Eq)]
pub enum Operand {
    Name(String),
    Str(String),
    Int(i64),
}

/// An operand with its text taken as a sequence of characters.
pub enum OperandV {
    Name(Seq<char>),
    Str(Seq<char>),
    Int(i64),
}

impl View for Operand {
    type V = OperandV;

    open spec fn view(&self) -> OperandV {
        match self {
            Operand::Name(s) => OperandV::Name(s@),
            Operand::Str(s) => OperandV::Str(s@),
            Operand::Int(n) => OperandV::Int(*n),
        }
    }
}

/// A boolean predicate.
#[derive(Debug, PartialEq, Eq)]
pub enum Expr {
    Atom(String),
    Not(Box<Expr>),
    And(Box<Expr>, Box<Expr>),
    Or(Box<Expr>, Box<Expr>),
    Cmp(CmpOp, Operand, Operand),
}

/// A predicate with its names and literals taken as sequences of characters.
pub enum ExprV {
    Atom(Seq<char>),
    Not(Box<ExprV>),
    And(Box<ExprV>, Box<ExprV>),
    Or(Box<ExprV>, Box<ExprV>),
    Cmp(CmpOp, OperandV, OperandV),
}

/// The view of a predicate.
pub open spec fn expr_view(e: Expr) -> ExprV
    decreases e,
{
    match e {
        Expr::Atom(n) => ExprV::Atom(n@),
        Expr::Not(a) => ExprV::Not(Box::new(expr_view(*a))),
        Expr::And(a, b) => ExprV::And(Box::new(expr_view(*a)), Box::new(expr_view(*b))),
        Expr::Or(a, b) => ExprV::Or(Box::new(expr_view(*a)), Box::new(expr_view(*b))),
        Expr::Cmp(op, a, b) => ExprV::Cmp(op, a@, b@),
    }
}

impl View for Expr {
    type V = ExprV;

    open spec fn view(&self) -> ExprV {
        expr_view(*self)
    }
}

/// The views of a sequence of strings.
pub open spec fn strings_view(v: Seq<String>) -> Seq<Seq<char>> {
    v.map_values(|s: String| s@)
}

/// The names an operand refers to: its own, if it is a name.
pub open spec fn operand_names(o: OperandV) -> Seq<Seq<char>> {
    match o {
        OperandV::Name(n) => seq![n],
        _ => Seq::empty(),
    }
}

/// Every option name a predicate refers to, left to right, repeats kept.
pub open spec fn names_of(e: ExprV) -> Seq<Seq<char>>
    decreases e,
{
    match e {
        ExprV::Atom(n) => seq![n],
        ExprV::Not(a) => names_of(*a),
        ExprV::And(a, b) => names_of(*a) + names_of(*b),
        ExprV::Or(a, b) => names_of(*a) + names_of(*b),
        ExprV::Cmp(_, a, b) => operand_names(a) + operand_names(b),
    }
}

/// The source form of an operator.
pub open spec fn op_text(op: CmpOp) -> Seq<char> {
    match op {
        CmpOp::Eq => "=="@,
        CmpOp::Ne => "!="@,
        CmpOp::Ge => ">="@,
        CmpOp::Lt => "<"@,
        CmpOp::Contains => "contains"@,
    }
}

/// The source form of an operand: a name as it is, a string between double
/// quotes, an integer in decimal.
pub open spec fn operand_text(o: OperandV) -> Seq<char> {
    match o {
        OperandV::Name(n) => n,
        OperandV::Str(s) => "\""@ + s + "\""@,
        OperandV::Int(n) => int_text(n as int),
    }
}

/// `t`, the text of `e`, in parentheses where `e` is a conjunction or a
/// disjunction.
pub open spec fn paren_text(e: ExprV, t: Seq<char>) -> Seq<char> {
    if e is And || e is Or {
        "("@ + t + ")"@
    } else {
        t
    }
}

/// The source form of a predicate, with every conjunction and disjunction
/// that stands under another operator in parentheses.
pub open spec fn render_text(e: ExprV) -> Seq<char>
    decreases e,
{
    match e {
        ExprV::Atom(n) => n,
        ExprV::Not(a) => "!"@ + paren_text(*a, render_text(*a)),
        ExprV::And(a, b) => paren_text(*a, render_text(*a)) + " && "@ + paren_text(
            *b,
            render_text(*b),
        ),
        ExprV::Or(a, b) => paren_text(*a, render_text(*a)) + " || "@ + paren_text(
            *b,
            render_text(*b),
        ),
        ExprV::Cmp(op, a, b) => operand_text(a) + " "@ + op_text(op) + " "@ + operand_text(b),
    }
}

impl Expr {
    /// Collect every option/key name the expression references, in
    /// left-to-right order (duplicates kept). Used to record a complete,
    /// short-circuit-independent projection of the keys an expression reads.
    pub fn atoms(&self, out: &mut Vec<String>)
        ensures
            strings_view(final(out)@) == strings_view(old(out)@) + names_of(self@),
        decreases self,
    {
        let ghost start = strings_view(out@);
        match self {
            Expr::Atom(name) => {
                out.push(name.clone());
                assert(strings_view(out@) =~= start + seq![name@]);
            },
            Expr::Not(inner) => inner.atoms(out),
            Expr::And(a, b) | Expr::Or(a, b) => {
                a.atoms(out);
                b.atoms(out);
                assert(strings_view(out@) =~= start + (names_of(a@) + names_of(b@)));
            },
            Expr::Cmp(_, a, b) => {
                if let Operand::Name(name) = a {
                    out.push(name.clone());
                }
                let ghost mid = strings_view(out@);
                assert(mid =~= start + operand_names(a@));
                if let Operand::Name(name) = b {
                    out.push(name.clone());
                }
                assert(strings_view(out@) =~= start + (operand_names(a@) + operand_names(b@)));
            },
        }
    }

    /// Pretty-print the expression back to source form; binary
    /// sub-expressions are parenthesized to preserve precedence.
    pub fn render(&self) -> (r: String)
        ensures
            r@ == render_text(self@),
        decreases self, 0nat,
    {
        match self {
            Expr::Atom(n) => n.clone(),
            Expr::Not(e) => {
                let mut r = String::from_str("!");
                let inner = e.render_paren();
                push_text(&mut r, inner.as_str());
                r
            },
            Expr::And(a, b) => {
                let mut r = a.render_paren();
                push_text(&mut r, " && ");
                let rb = b.render_paren();
                push_text(&mut r, rb.as_str());
                r
            },
            Expr::Or(a, b) => {
                let mut r = a.render_paren();
                push_text(&mut r, " || ");
                let rb = b.render_paren();
                push_text(&mut r, rb.as_str());
                r
            },
            Expr::Cmp(op, a, b) => {
                let mut r = a.render();
                push_text(&mut r, " ");
                push_text(&mut r, op.render());
                push_text(&mut r, " ");
                let rb = b.render();
                push_text(&mut r, rb.as_str());
                r
            },
        }
    }

    fn render_paren(&self) -> (r: String)
        ensures
            r@ == paren_text(self@, render_text(self@)),
        decreases self, 1nat,
    {
        match self {
            Expr::And(..) | Expr::Or(..) => {
                let mut r = String::from_str("(");
                let inner = self.render();
                push_text(&mut r, inner.as_str());
                push_text(&mut r, ")");
                r
            },
            _ => self.render(),
        }
    }
}

impl Clone for Expr {
    fn clone(&self) -> (r: Self)
        ensures
            r == *self,
        decreases self,
    {
        match self {
            Expr::Atom(n) => Expr::Atom(n.clone()),
            Expr::Not(a) => Expr::Not(Box::new((**a).clone())),
            Expr::And(a, b) => Expr::And(Box::new((**a).clone()), Box::new((**b).clone())),
            Expr::Or(a, b) => Expr::Or(Box::new((**a).clone()), Box::new((**b).clone())),
            Expr::Cmp(op, a, b) => Expr::Cmp(*op, a.duplicate(), b.duplicate()),
        }
    }
}

impl Operand {
    /// A copy of the operand.
    pub(crate) fn duplicate(&self) -> (r: Operand)
        ensures
            r == *self,
    {
        match self {
            Operand::Name(s) => Operand::Name(s.clone()),
            Operand::Str(s) => Operand::Str(s.clone()),
            Operand::Int(n) => Operand::Int(*n),
        }
    }
}

impl CmpOp {
    fn render(self) -> (r: &'static str)
        ensures
            r@ == op_text(self),
    {
        match self {
            CmpOp::Eq => "==",
            CmpOp::Ne => "!=",
            CmpOp::Ge => ">=",
            CmpOp::Lt => "<",
            CmpOp::Contains => "contains",
        }
    }
}

impl Operand {
    fn render(&self) -> (r: String)
        ensures
            r@ == operand_text(self@),
    {
        match self {
            Operand::Name(n) => n.clone(),
            Operand::Str(s) => {
                let mut r = String::from_str("\"");
                push_text(&mut r, s.as_str());
                push_text(&mut r, "\"");
                r
            },
            Operand::Int(n) => {
                let mut r = String::new();
                push_int_text(&mut r, *n);
                r
            },
        }
    }
}

} // verus!
