//! The evaluator, over a lookup that resolves option names to values.

use crate::ast::{names_of, operand_names, CmpOp, Expr, ExprV, Operand, OperandV, Value, ValueV};
use crate::text::{chars_of, int_text, push_int_text, push_text, trim, trim_bounds};
use crate::vercmp::{vercmp, version_order};
use std::cmp::Ordering;
use vstd::prelude::*;

verus! {

broadcast use vstd::string::group_string_axioms;

/// What `{:?}` writes for a string: the text between double quotes, with
/// quotes, backslashes and unprintable characters escaped.
pub uninterp spec fn str_debug(s: Seq<char>) -> Seq<char>;

/// The `Debug` text of a string slice.
///
/// Calls `<str as Debug>::fmt` through `format!("{:?}", s)`. The contract
/// claims only that the text depends on the characters of `s` alone; it does
/// not spell out std's escaping rules.
#[verifier::external_body]
fn debug_str(s: &str) -> (r: String)
    ensures
        r@ == str_debug(s@),
{
    format!("{:?}", s)
}

/// What `{:?}` writes for a value, as `derive(Debug)` shapes it.
pub open spec fn value_debug(v: ValueV) -> Seq<char> {
    match v {
        ValueV::Bool(b) => "Bool("@ + (if b {
            "true"@
        } else {
            "false"@
        }) + ")"@,
        ValueV::Str(s) => "Str("@ + str_debug(s) + ")"@,
        ValueV::Int(n) => "Int("@ + int_text(n as int) + ")"@,
    }
}

impl Value {
    /// The `Debug` text of the value.
    pub(crate) fn debug_text(&self) -> (r: String)
        ensures
            r@ == value_debug(self@),
    {
        match self {
            Value::Bool(b) => {
                let mut r = String::from_str("Bool(");
                if *b {
                    push_text(&mut r, "true");
                } else {
                    push_text(&mut r, "false");
                }
                push_text(&mut r, ")");
                r
            },
            Value::Str(s) => {
                let mut r = String::from_str("Str(");
                let d = debug_str(s.as_str());
                push_text(&mut r, d.as_str());
                push_text(&mut r, ")");
                r
            },
            Value::Int(n) => {
                let mut r = String::from_str("Int(");
                push_int_text(&mut r, *n);
                push_text(&mut r, ")");
                r
            },
        }
    }
}

/// Reading `s` left to right: the comma-separated items completed so far,
/// and the item being read.
pub open spec fn scan_items(s: Seq<char>) -> (Seq<Seq<char>>, Seq<char>)
    decreases s.len(),
{
    if s.len() == 0 {
        (Seq::empty(), Seq::empty())
    } else {
        let (done, cur) = scan_items(s.drop_last());
        if s.last() == ',' {
            (done.push(cur), Seq::empty())
        } else {
            (done, cur.push(s.last()))
        }
    }
}

/// The items of a comma-separated list, empty ones included, as
/// `str::split(',')` gives them.
pub open spec fn items(s: Seq<char>) -> Seq<Seq<char>> {
    let (done, cur) = scan_items(s);
    done.push(cur)
}

/// Some item of the comma-separated list `hay`, once trimmed, is `needle`.
pub open spec fn list_has(hay: Seq<char>, needle: Seq<char>) -> bool {
    exists|k: int| 0 <= k < items(hay).len() && trim(#[trigger] items(hay)[k]) == needle
}

/// The outcome of comparing two values with an operator: `contains` takes
/// two strings; integers compare by value; strings compare for equality as
/// text and for `>=` and `<` in version order; booleans support only `=` and
/// `!=`; other pairs are a type mismatch.
pub open spec fn compare_values(op: CmpOp, l: ValueV, r: ValueV) -> Result<bool, Seq<char>> {
    if op == CmpOp::Contains {
        match (l, r) {
            (ValueV::Str(hay), ValueV::Str(needle)) => Ok(list_has(hay, needle)),
            _ => Err(
                "`contains` needs string operands: "@ + value_debug(l) + " vs "@ + value_debug(r),
            ),
        }
    } else {
        match (l, r) {
            (ValueV::Int(a), ValueV::Int(b)) => Ok(
                match op {
                    CmpOp::Eq => a == b,
                    CmpOp::Ne => a != b,
                    CmpOp::Ge => a >= b,
                    _ => a < b,
                },
            ),
            (ValueV::Str(a), ValueV::Str(b)) => Ok(
                match op {
                    CmpOp::Eq => a == b,
                    CmpOp::Ne => a != b,
                    CmpOp::Ge => version_order(a, b) != Ordering::Less,
                    _ => version_order(a, b) == Ordering::Less,
                },
            ),
            (ValueV::Bool(a), ValueV::Bool(b)) => match op {
                CmpOp::Eq => Ok(a == b),
                CmpOp::Ne => Ok(a != b),
                _ => Err("booleans support only `=` / `!=`"@),
            },
            _ => Err(
                "type mismatch in comparison: "@ + value_debug(l) + " vs "@ + value_debug(r),
            ),
        }
    }
}

/// The value `env` gives a name, or the error for an unknown name.
pub open spec fn lookup_result(env: spec_fn(Seq<char>) -> Option<ValueV>, name: Seq<char>) -> Result<
    ValueV,
    Seq<char>,
> {
    match env(name) {
        Some(v) => Ok(v),
        None => Err("unknown name `"@ + name + "`"@),
    }
}

/// The value of an operand: a name's through `env`, a literal's its own.
pub open spec fn operand_result(env: spec_fn(Seq<char>) -> Option<ValueV>, o: OperandV) -> Result<
    ValueV,
    Seq<char>,
> {
    match o {
        OperandV::Name(n) => lookup_result(env, n),
        OperandV::Str(s) => Ok(ValueV::Str(s)),
        OperandV::Int(n) => Ok(ValueV::Int(n)),
    }
}

/// The truth of a predicate where `env` gives the names their values, or the
/// first error met. A bare name is true when its value is the boolean `true`
/// or the string `"true"`; `&&` and `||` read their right side only when the
/// left does not decide; a comparison reads its left operand first.
pub open spec fn eval_result(e: ExprV, env: spec_fn(Seq<char>) -> Option<ValueV>) -> Result<
    bool,
    Seq<char>,
>
    decreases e,
{
    match e {
        ExprV::Atom(name) => match lookup_result(env, name) {
            Err(m) => Err(m),
            Ok(ValueV::Bool(b)) => Ok(b),
            Ok(ValueV::Str(s)) => Ok(s == "true"@),
            Ok(ValueV::Int(_)) => Err("`"@ + name + "` is an integer, not a boolean atom"@),
        },
        ExprV::Not(a) => match eval_result(*a, env) {
            Err(m) => Err(m),
            Ok(b) => Ok(!b),
        },
        ExprV::And(a, b) => match eval_result(*a, env) {
            Err(m) => Err(m),
            Ok(false) => Ok(false),
            Ok(true) => eval_result(*b, env),
        },
        ExprV::Or(a, b) => match eval_result(*a, env) {
            Err(m) => Err(m),
            Ok(true) => Ok(true),
            Ok(false) => eval_result(*b, env),
        },
        ExprV::Cmp(op, l, r) => match operand_result(env, l) {
            Err(m) => Err(m),
            Ok(lv) => match operand_result(env, r) {
                Err(m) => Err(m),
                Ok(rv) => compare_values(op, lv, rv),
            },
        },
    }
}

/// The views of an optional value.
pub open spec fn opt_value_view(o: Option<Value>) -> Option<ValueV> {
    match o {
        Some(v) => Some(v@),
        None => None,
    }
}

/// Every answer `look` can give for a name is what `env` gives that name.
pub open spec fn answers<F: Fn(&str) -> Option<Value>>(
    look: F,
    env: spec_fn(Seq<char>) -> Option<ValueV>,
) -> bool {
    forall|s: &str, r: Option<Value>| #[trigger] look.ensures((s,), r) ==> opt_value_view(r) == env(
        s@,
    )
}

/// An executable result matches a spec result.
pub open spec fn same_result<T: View>(r: Result<T, String>, s: Result<T::V, Seq<char>>) -> bool {
    match (r, s) {
        (Ok(x), Ok(y)) => x@ == y,
        (Err(e), Err(m)) => e@ == m,
        _ => false,
    }
}

/// `v[lo..hi]` is `w`.
fn range_is(v: &Vec<char>, lo: usize, hi: usize, w: &Vec<char>) -> (r: bool)
    requires
        lo <= hi <= v.len(),
    ensures
        r == (v@.subrange(lo as int, hi as int) == w@),
{
    if hi - lo != w.len() {
        assert(v@.subrange(lo as int, hi as int).len() != w@.len());
        return false;
    }
    let mut k: usize = 0;
    while k < w.len()
        invariant
            lo <= hi <= v.len(),
            hi - lo == w.len(),
            k <= w.len(),
            forall|q: int| 0 <= q < k ==> v@[lo + q] == w@[q],
        decreases w.len() - k,
    {
        if v[lo + k] != w[k] {
            assert(v@.subrange(lo as int, hi as int)[k as int] != w@[k as int]);
            return false;
        }
        k = k + 1;
    }
    assert(v@.subrange(lo as int, hi as int) =~= w@);
    true
}

/// Some item of the comma-separated list `hay`, once trimmed, is `needle`.
fn has_item(hay: &String, needle: &String) -> (r: bool)
    ensures
        r == list_has(hay@, needle@),
{
    let v = chars_of(hay.as_str());
    let w = chars_of(needle.as_str());
    let ghost mut done: Seq<Seq<char>> = Seq::empty();
    let mut found = false;
    let mut start: usize = 0;
    let mut i: usize = 0;
    assert(v@.subrange(0, 0) =~= Seq::<char>::empty());
    while i < v.len()
        invariant
            start <= i <= v.len(),
            w@ == needle@,
            scan_items(v@.subrange(0, i as int)) == (done, v@.subrange(start as int, i as int)),
            found == exists|k: int| 0 <= k < done.len() && trim(#[trigger] done[k]) == w@,
        decreases v.len() - i,
    {
        let c: char = v[i];
        assert(v@.subrange(0, i + 1).drop_last() =~= v@.subrange(0, i as int));
        assert(v@.subrange(0, i + 1).last() == c);
        if c == ',' {
            let (a, b) = trim_bounds(&v, start, i);
            let hit = range_is(&v, a, b, &w);
            let ghost item = v@.subrange(start as int, i as int);
            let ghost old_done = done;
            proof {
                done = done.push(item);
                assert(done[old_done.len() as int] == item);
                if found {
                    let k = choose|k: int| 0 <= k < old_done.len() && trim(#[trigger] old_done[k]) == w@;
                    assert(done[k] == old_done[k]);
                }
                if exists|k: int| 0 <= k < done.len() && trim(#[trigger] done[k]) == w@ {
                    let k = choose|k: int| 0 <= k < done.len() && trim(#[trigger] done[k]) == w@;
                    if k < old_done.len() {
                        assert(old_done[k] == done[k]);
                    }
                }
            }
            found = found || hit;
            start = i + 1;
            assert(v@.subrange(start as int, i + 1) =~= Seq::<char>::empty());
        } else {
            assert(v@.subrange(start as int, i + 1) =~= v@.subrange(start as int, i as int).push(c));
        }
        i = i + 1;
    }
    assert(v@.subrange(0, v@.len() as int) =~= v@);
    let (a, b) = trim_bounds(&v, start, v.len());
    let hit = range_is(&v, a, b, &w);
    let ghost item = v@.subrange(start as int, v@.len() as int);
    let ghost all = done.push(item);
    proof {
        assert(all == items(hay@));
        assert(all[done.len() as int] == item);
        if found {
            let k = choose|k: int| 0 <= k < done.len() && trim(#[trigger] done[k]) == w@;
            assert(all[k] == done[k]);
        }
        if list_has(hay@, needle@) {
            let k = choose|k: int| 0 <= k < all.len() && trim(#[trigger] all[k]) == w@;
            if k < done.len() {
                assert(done[k] == all[k]);
            }
        }
    }
    found || hit
}

fn lookup_req<F: Fn(&str) -> Option<Value>>(name: &String, look: &F) -> (r: Result<Value, String>)
    requires
        forall|s: &str| look.requires((s,)),
    ensures
        forall|env: spec_fn(Seq<char>) -> Option<ValueV>|
            answers(*look, env) ==> same_result(r, lookup_result(env, name@)),
{
    match look(name.as_str()) {
        Some(v) => Ok(v),
        None => {
            let mut m = String::from_str("unknown name `");
            push_text(&mut m, name.as_str());
            push_text(&mut m, "`");
            Err(m)
        },
    }
}

fn operand_value<F: Fn(&str) -> Option<Value>>(op: &Operand, look: &F) -> (r: Result<
    Value,
    String,
>)
    requires
        forall|s: &str| look.requires((s,)),
    ensures
        forall|env: spec_fn(Seq<char>) -> Option<ValueV>|
            answers(*look, env) ==> same_result(r, operand_result(env, op@)),
{
    match op {
        Operand::Name(name) => lookup_req(name, look),
        Operand::Str(s) => Ok(Value::Str(s.clone())),
        Operand::Int(n) => Ok(Value::Int(*n)),
    }
}

/// The message for operands that do not suit an operator.
fn mismatch(what: &str, l: &Value, r: &Value) -> (m: String)
    ensures
        m@ == what@ + value_debug(l@) + " vs "@ + value_debug(r@),
{
    let mut m = String::from_str(what);
    let dl = l.debug_text();
    push_text(&mut m, dl.as_str());
    push_text(&mut m, " vs ");
    let dr = r.debug_text();
    push_text(&mut m, dr.as_str());
    m
}

fn cmp_values(op: CmpOp, l: &Value, r: &Value) -> (res: Result<bool, String>)
    ensures
        same_result(res, compare_values(op, l@, r@)),
{
    if let CmpOp::Contains = op {
        return match (l, r) {
            (Value::Str(hay), Value::Str(needle)) => Ok(has_item(hay, needle)),
            _ => Err(mismatch("`contains` needs string operands: ", l, r)),
        };
    }
    match (l, r) {
        (Value::Int(a), Value::Int(b)) => Ok(
            match op {
                CmpOp::Eq => *a == *b,
                CmpOp::Ne => *a != *b,
                CmpOp::Ge => *a >= *b,
                _ => *a < *b,
            },
        ),
        (Value::Str(a), Value::Str(b)) => Ok(
            match op {
                CmpOp::Eq => *a == *b,
                CmpOp::Ne => !(*a == *b),
                CmpOp::Ge => !matches!(vercmp(a.as_str(), b.as_str()), Ordering::Less),
                _ => matches!(vercmp(a.as_str(), b.as_str()), Ordering::Less),
            },
        ),
        (Value::Bool(a), Value::Bool(b)) => match op {
            CmpOp::Eq => Ok(*a == *b),
            CmpOp::Ne => Ok(*a != *b),
            _ => Err(String::from_str("booleans support only `=` / `!=`")),
        },
        _ => Err(mismatch("type mismatch in comparison: ", l, r)),
    }
}

/// Evaluate a boolean predicate. `look` resolves a name to its current
/// value; a bare atom is true when that value is a `true` bool or the
/// string `"true"`.
///
/// Whatever `look` answers, the result is the predicate's value in every
/// environment that agrees with all of `look`'s possible answers.
pub fn eval<F: Fn(&str) -> Option<Value>>(expr: &Expr, look: &F) -> (r: Result<bool, String>)
    requires
        forall|s: &str| look.requires((s,)),
    ensures
        forall|env: spec_fn(Seq<char>) -> Option<ValueV>|
            answers(*look, env) ==> same_result(r, eval_result(expr@, env)),
    decreases expr,
{
    match expr {
        Expr::Atom(name) => match lookup_req(name, look) {
            Err(e) => Err(e),
            Ok(Value::Bool(b)) => Ok(b),
            Ok(Value::Str(s)) => {
                let t = String::from_str("true");
                Ok(s == t)
            },
            Ok(Value::Int(_)) => {
                let mut m = String::from_str("`");
                push_text(&mut m, name.as_str());
                push_text(&mut m, "` is an integer, not a boolean atom");
                Err(m)
            },
        },
        Expr::Not(inner) => match eval(inner, look) {
            Err(e) => Err(e),
            Ok(b) => Ok(!b),
        },
        Expr::And(a, b) => match eval(a, look) {
            Err(e) => Err(e),
            Ok(false) => Ok(false),
            Ok(true) => eval(b, look),
        },
        Expr::Or(a, b) => match eval(a, look) {
            Err(e) => Err(e),
            Ok(true) => Ok(true),
            Ok(false) => eval(b, look),
        },
        Expr::Cmp(op, lhs, rhs) => {
            let l = match operand_value(lhs, look) {
                Ok(v) => v,
                Err(e) => return Err(e),
            };
            let r = match operand_value(rhs, look) {
                Ok(v) => v,
                Err(e) => return Err(e),
            };
            cmp_values(*op, &l, &r)
        },
    }
}

/// What an expression evaluates to depends only on the values of the names
/// that `Expr::atoms` collects from it: two environments that agree on those
/// names give the same result, error or not.
pub proof fn atoms_cover_reads(
    e: ExprV,
    env1: spec_fn(Seq<char>) -> Option<ValueV>,
    env2: spec_fn(Seq<char>) -> Option<ValueV>,
)
    requires
        forall|n: Seq<char>| names_of(e).contains(n) ==> env1(n) == env2(n),
    ensures
        eval_result(e, env1) == eval_result(e, env2),
    decreases e,
{
    match e {
        ExprV::Atom(n) => {
            assert(names_of(e)[0] == n);
            assert(names_of(e).contains(n));
        },
        ExprV::Not(a) => {
            assert(names_of(e) == names_of(*a));
            atoms_cover_reads(*a, env1, env2);
        },
        ExprV::And(a, b) | ExprV::Or(a, b) => {
            assert forall|n: Seq<char>| names_of(*a).contains(n) implies env1(n) == env2(n) by {
                let k = choose|k: int| 0 <= k < names_of(*a).len() && names_of(*a)[k] == n;
                assert(names_of(e) == names_of(*a) + names_of(*b));
                assert(names_of(e)[k] == n);
                assert(names_of(e).contains(n));
            }
            assert forall|n: Seq<char>| names_of(*b).contains(n) implies env1(n) == env2(n) by {
                let k = choose|k: int| 0 <= k < names_of(*b).len() && names_of(*b)[k] == n;
                assert(names_of(e) == names_of(*a) + names_of(*b));
                assert(names_of(e)[names_of(*a).len() + k] == n);
                assert(names_of(e).contains(n));
            }
            atoms_cover_reads(*a, env1, env2);
            atoms_cover_reads(*b, env1, env2);
        },
        ExprV::Cmp(op, l, r) => {
            assert(names_of(e) == operand_names(l) + operand_names(r));
            if let OperandV::Name(n) = l {
                assert(names_of(e)[0] == n);
                assert(names_of(e).contains(n));
            }
            if let OperandV::Name(n) = r {
                assert(names_of(e).last() == n);
                assert(names_of(e).contains(n));
            }
        },
    }
}

/// On integers and on strings, `>=` holds exactly where `<` does not; on
/// other operands both are refused alike.
pub proof fn ge_is_not_lt(l: ValueV, r: ValueV)
    ensures
        compare_values(CmpOp::Ge, l, r) is Ok <==> compare_values(CmpOp::Lt, l, r) is Ok,
        compare_values(CmpOp::Ge, l, r) is Ok ==> compare_values(CmpOp::Ge, l, r)->Ok_0
            == !compare_values(CmpOp::Lt, l, r)->Ok_0,
{
}

/// `!=` holds exactly where `=` does not, and both are refused on the same
/// operands.
pub proof fn ne_is_not_eq(l: ValueV, r: ValueV)
    ensures
        compare_values(CmpOp::Ne, l, r) is Ok <==> compare_values(CmpOp::Eq, l, r) is Ok,
        compare_values(CmpOp::Ne, l, r) is Ok ==> compare_values(CmpOp::Ne, l, r)->Ok_0
            == !compare_values(CmpOp::Eq, l, r)->Ok_0,
{
}

/// A bare name whose value is a string is true exactly when that string is
/// `true`, so it reads alike with the comparison `name == "true"`; a bare
/// name whose value is a boolean is that boolean.
pub proof fn bare_atom_truth(n: Seq<char>, env: spec_fn(Seq<char>) -> Option<ValueV>)
    ensures
        env(n) matches Some(ValueV::Str(s)) ==> eval_result(ExprV::Atom(n), env) == Ok::<
            bool,
            Seq<char>,
        >(s == seq!['t', 'r', 'u', 'e']),
        env(n) matches Some(ValueV::Str(s)) ==> eval_result(ExprV::Atom(n), env) == eval_result(
            ExprV::Cmp(CmpOp::Eq, OperandV::Name(n), OperandV::Str(seq!['t', 'r', 'u', 'e'])),
            env,
        ),
        env(n) matches Some(ValueV::Bool(b)) ==> eval_result(ExprV::Atom(n), env) == Ok::<
            bool,
            Seq<char>,
        >(b),
{
    reveal_strlit("true");
    assert("true"@ =~= seq!['t', 'r', 'u', 'e']);
}

proof fn lemma_items_plain(x: Seq<char>)
    requires
        !x.contains(','),
    ensures
        scan_items(x) == (Seq::<Seq<char>>::empty(), x),
    decreases x.len(),
{
    if x.len() > 0 {
        assert(!x.drop_last().contains(',')) by {
            if x.drop_last().contains(',') {
                let k = choose|k: int| 0 <= k < x.drop_last().len() && x.drop_last()[k] == ',';
                assert(x[k] == ',');
            }
        }
        assert(x[x.len() - 1] != ',');
        lemma_items_plain(x.drop_last());
        assert(x.drop_last().push(x.last()) =~= x);
    }
}

proof fn lemma_items_join(x: Seq<char>, y: Seq<char>)
    ensures
        scan_items(x + seq![','] + y) == (items(x) + scan_items(y).0, scan_items(y).1),
    decreases y.len(),
{
    let w = x + seq![','];
    if y.len() == 0 {
        assert(w + y =~= w);
        assert(w.drop_last() =~= x);
        assert(items(x) + Seq::<Seq<char>>::empty() =~= items(x));
    } else {
        lemma_items_join(x, y.drop_last());
        assert((w + y).drop_last() =~= w + y.drop_last());
        assert((w + y).last() == y.last());
        let (d, c) = scan_items(y.drop_last());
        assert(items(x) + d.push(c) =~= (items(x) + d).push(c));
    }
}

/// `contains` on a list without commas: true exactly when the list, trimmed,
/// is the needle.
pub proof fn contains_one_item(h: Seq<char>, n: Seq<char>)
    requires
        !h.contains(','),
    ensures
        compare_values(CmpOp::Contains, ValueV::Str(h), ValueV::Str(n)) == Ok::<bool, Seq<char>>(
            trim(h) == n,
        ),
{
    lemma_items_plain(h);
    assert(items(h) =~= seq![h]);
    if trim(h) == n {
        assert(trim(items(h)[0]) == n);
    }
}

/// `contains` on a list joined at a comma: true exactly when it holds of the
/// part before the comma or of the part after it.
pub proof fn contains_splits_at_comma(x: Seq<char>, y: Seq<char>, n: Seq<char>)
    ensures
        compare_values(CmpOp::Contains, ValueV::Str(x + seq![','] + y), ValueV::Str(n)) == Ok::<
            bool,
            Seq<char>,
        >(
            compare_values(CmpOp::Contains, ValueV::Str(x), ValueV::Str(n))->Ok_0
                || compare_values(CmpOp::Contains, ValueV::Str(y), ValueV::Str(n))->Ok_0,
        ),
{
    let h = x + seq![','] + y;
    lemma_items_join(x, y);
    let ix = items(x);
    let iy = items(y);
    assert(items(h) =~= ix + iy);
    if list_has(h, n) {
        let k = choose|k: int| 0 <= k < items(h).len() && trim(#[trigger] items(h)[k]) == n;
        if k < ix.len() {
            assert(items(h)[k] == ix[k]);
        } else {
            assert(items(h)[k] == iy[k - ix.len()]);
        }
    }
    if list_has(x, n) {
        let k = choose|k: int| 0 <= k < ix.len() && trim(#[trigger] ix[k]) == n;
        assert(items(h)[k] == ix[k]);
    }
    if list_has(y, n) {
        let k = choose|k: int| 0 <= k < iy.len() && trim(#[trigger] iy[k]) == n;
        assert(items(h)[ix.len() + k] == iy[k]);
    }
}

} // verus!
