use mica::{eval, parse_expr, tokenize, vercmp, CmpOp, Expr, Operand, Parser, Token, Value};
use std::cmp::Ordering;
use std::collections::BTreeMap;

fn env_of(pairs: &[(&str, Value)]) -> BTreeMap<String, Value> {
    pairs.iter().map(|(k, v)| (k.to_string(), v.clone())).collect()
}

fn run(src: &str, pairs: &[(&str, Value)]) -> Result<bool, String> {
    let map = env_of(pairs);
    let e = parse_expr(src)?;
    eval(&e, &|name: &str| map.get(name).cloned())
}

fn name(s: &str) -> Operand {
    Operand::Name(s.to_string())
}

fn atom(s: &str) -> Expr {
    Expr::Atom(s.to_string())
}

#[test]
fn tokens_of_operators_and_literals() {
    let toks = tokenize("!A && (B || C) = == != >= < contains if else").unwrap();
    assert_eq!(
        toks,
        vec![
            Token::Not,
            Token::Ident("A".to_string()),
            Token::AndAnd,
            Token::LParen,
            Token::Ident("B".to_string()),
            Token::OrOr,
            Token::Ident("C".to_string()),
            Token::RParen,
            Token::Eq,
            Token::Eq,
            Token::Ne,
            Token::Ge,
            Token::Lt,
            Token::Contains,
            Token::If,
            Token::Else,
        ]
    );
    let toks = tokenize("x_1\t\"a\\\"b\\\\c\" -42 7").unwrap();
    assert_eq!(
        toks,
        vec![
            Token::Ident("x_1".to_string()),
            Token::Str("a\"b\\c".to_string()),
            Token::Int(-42),
            Token::Int(7),
        ]
    );
}

#[test]
fn integer_bounds() {
    assert_eq!(tokenize("-9223372036854775808").unwrap(), vec![Token::Int(i64::MIN)]);
    assert_eq!(tokenize("9223372036854775807").unwrap(), vec![Token::Int(i64::MAX)]);
    assert_eq!(tokenize("007").unwrap(), vec![Token::Int(7)]);
    assert_eq!(
        tokenize("9223372036854775808").unwrap_err(),
        "integer out of range: `9223372036854775808` in expression `9223372036854775808`"
    );
    assert_eq!(
        tokenize("A < -99999999999999999999").unwrap_err(),
        "integer out of range: `-99999999999999999999` in expression `A < -99999999999999999999`"
    );
}

#[test]
fn tokenizer_errors() {
    assert_eq!(tokenize("A & B").unwrap_err(), "expected `&&` in expression `A & B`");
    assert_eq!(tokenize("A | B").unwrap_err(), "expected `||` in expression `A | B`");
    assert_eq!(
        tokenize("A > B").unwrap_err(),
        "`>` is not supported; use `>=` or swap to `<` in expression `A > B`"
    );
    assert_eq!(
        tokenize("A <= B").unwrap_err(),
        "`<=` is not supported; use `<` or swap to `>=` in expression `A <= B`"
    );
    assert_eq!(
        tokenize("A = \"open").unwrap_err(),
        "unterminated string literal in expression `A = \"open`"
    );
    assert_eq!(
        tokenize("A = \"a\\nb\"").unwrap_err(),
        "unsupported escape in string in expression `A = \"a\\nb\"`"
    );
    assert_eq!(tokenize("A # B").unwrap_err(), "unexpected character `#` in expression `A # B`");
    assert_eq!(tokenize("- 1").unwrap_err(), "unexpected character `-` in expression `- 1`");
    assert_eq!(tokenize("é").unwrap_err(), "unexpected character `\u{c3}` in expression `é`");
}

#[test]
fn string_literal_bytes_become_characters() {
    assert_eq!(tokenize("\"é\"").unwrap(), vec![Token::Str("\u{c3}\u{a9}".to_string())]);
}

#[test]
fn parser_steps() {
    let toks = tokenize("A B").unwrap();
    let mut p = Parser::new(&toks, "A B");
    assert!(!p.at_end());
    assert_eq!(p.peek(), Some(&Token::Ident("A".to_string())));
    assert_eq!(p.next(), Some(Token::Ident("A".to_string())));
    assert_eq!(p.peek(), Some(&Token::Ident("B".to_string())));
    assert_eq!(p.parse_or(), Ok(atom("B")));
    assert!(p.at_end());
    assert_eq!(p.peek(), None);
    assert_eq!(p.next(), None);
    assert!(p.at_end());
}

#[test]
fn parse_or_stops_at_closing_parenthesis() {
    let toks = tokenize("A || B) && C").unwrap();
    let mut p = Parser::new(&toks, "A || B) && C");
    assert_eq!(p.parse_or(), Ok(Expr::Or(Box::new(atom("A")), Box::new(atom("B")))));
    assert_eq!(p.peek(), Some(&Token::RParen));
}

#[test]
fn parse_shapes() {
    assert_eq!(
        parse_expr("!B && A || B").unwrap(),
        Expr::Or(
            Box::new(Expr::And(
                Box::new(Expr::Not(Box::new(atom("B")))),
                Box::new(atom("A"))
            )),
            Box::new(atom("B"))
        )
    );
    assert_eq!(
        parse_expr("A && B && C").unwrap(),
        Expr::And(
            Box::new(Expr::And(Box::new(atom("A")), Box::new(atom("B")))),
            Box::new(atom("C"))
        )
    );
    assert_eq!(
        parse_expr("N = 3").unwrap(),
        Expr::Cmp(CmpOp::Eq, name("N"), Operand::Int(3))
    );
    assert_eq!(parse_expr("N = 3").unwrap(), parse_expr("N == 3").unwrap());
    assert_eq!(
        parse_expr("\"a\" contains \"b\"").unwrap(),
        Expr::Cmp(
            CmpOp::Contains,
            Operand::Str("a".to_string()),
            Operand::Str("b".to_string())
        )
    );
    assert_eq!(parse_expr("!!A").unwrap(), Expr::Not(Box::new(Expr::Not(Box::new(atom("A"))))));
}

#[test]
fn parse_error_messages() {
    assert_eq!(parse_expr("A &&").unwrap_err(), "expected an option name or literal in expression `A &&`");
    assert_eq!(parse_expr("(A").unwrap_err(), "expected `)` in expression `(A`");
    assert_eq!(parse_expr("(A B").unwrap_err(), "expected `)` in expression `(A B`");
    assert_eq!(
        parse_expr("\"lit\"").unwrap_err(),
        "a bare literal is not a boolean expression in expression `\"lit\"`"
    );
    assert_eq!(parse_expr("5").unwrap_err(), "a bare literal is not a boolean expression in expression `5`");
    assert_eq!(parse_expr("A B").unwrap_err(), "trailing tokens in expression `A B`");
    assert_eq!(parse_expr("").unwrap_err(), "expected an option name or literal in expression ``");
    assert_eq!(parse_expr("if").unwrap_err(), "expected an option name or literal in expression `if`");
    assert_eq!(parse_expr("A > B").unwrap_err(), "`>` is not supported; use `>=` or swap to `<` in expression `A > B`");
}

#[test]
fn render_source_form() {
    let e = parse_expr("A && (B || C = \"x\") && D >= 2").unwrap();
    assert_eq!(e.render(), "(A && (B || C == \"x\")) && D >= 2");
    let e = parse_expr("!(A && B) || N < -5 || L contains \"a,b\"").unwrap();
    assert_eq!(e.render(), "(!(A && B) || N < -5) || L contains \"a,b\"");
    assert_eq!(parse_expr("X != 0").unwrap().render(), "X != 0");
}

#[test]
fn render_then_parse_gives_back_the_expression() {
    let sources = [
        "A && (B || C = \"x\") && D >= 2",
        "!(A && B) || N < -9223372036854775808 || L contains \"a, b\"",
        "!!A && !(B || !C)",
        "_x1 != \"\" || Y >= 9223372036854775807 && Z",
        "V = \"1.2-rc1\" && W < \"2\"",
    ];
    for src in sources {
        let e = parse_expr(src).unwrap();
        let text = e.render();
        assert_eq!(parse_expr(&text).unwrap(), e);
    }
}

#[test]
fn atoms_in_order_with_repeats() {
    let e = parse_expr("A && (A || \"s\" = B) && !C contains \"x\" && 5 < D").unwrap();
    let mut out = vec!["seed".to_string()];
    e.atoms(&mut out);
    assert_eq!(out, vec!["seed", "A", "A", "B", "C", "D"]);
}

#[test]
fn atoms_cover_what_eval_reads() {
    // Two environments that agree on the atoms agree on the result.
    let e = parse_expr("A || B = \"x\"").unwrap();
    let mut names = Vec::new();
    e.atoms(&mut names);
    assert_eq!(names, vec!["A", "B"]);
    let one = env_of(&[("A", Value::Bool(false)), ("B", Value::Str("x".into()))]);
    let two = env_of(&[
        ("A", Value::Bool(false)),
        ("B", Value::Str("x".into())),
        ("Z", Value::Int(1)),
    ]);
    let r1 = eval(&e, &|n: &str| one.get(n).cloned());
    let r2 = eval(&e, &|n: &str| two.get(n).cloned());
    assert_eq!(r1, Ok(true));
    assert_eq!(r1, r2);
}

#[test]
fn evaluation_rules() {
    let env = &[
        ("T", Value::Bool(true)),
        ("F", Value::Bool(false)),
        ("S", Value::Str("true".into())),
        ("U", Value::Str("TRUE".into())),
        ("N", Value::Int(3)),
        ("V", Value::Str("1.10".into())),
    ];
    assert_eq!(run("T", env), Ok(true));
    assert_eq!(run("S", env), Ok(true));
    assert_eq!(run("U", env), Ok(false));
    assert_eq!(run("T || MISSING", env), Ok(true));
    assert_eq!(run("F && MISSING", env), Ok(false));
    assert_eq!(run("T && MISSING", env), Err("unknown name `MISSING`".to_string()));
    assert_eq!(run("N", env), Err("`N` is an integer, not a boolean atom".to_string()));
    assert_eq!(run("N >= 3 && N < 4 && N != 2 && N = 3", env), Ok(true));
    assert_eq!(run("V >= \"1.9\"", env), Ok(true));
    assert_eq!(run("V < \"1.9\"", env), Ok(false));
    assert_eq!(run("V = \"1.10\" && V != \"1.1\"", env), Ok(true));
    assert_eq!(run("T = F", env), Ok(false));
    assert_eq!(run("T != F", env), Ok(true));
    assert_eq!(
        run("T >= F", env),
        Err("booleans support only `=` / `!=`".to_string())
    );
    assert_eq!(
        run("N = \"3\"", env),
        Err("type mismatch in comparison: Int(3) vs Str(\"3\")".to_string())
    );
    assert_eq!(
        run("T contains \"a\\\"b\"", env),
        Err("`contains` needs string operands: Bool(true) vs Str(\"a\\\"b\")".to_string())
    );
    assert_eq!(
        run("N < -7 || MISSING", env),
        Err("unknown name `MISSING`".to_string())
    );
}

#[test]
fn ge_and_lt_are_complements() {
    let env = &[("N", Value::Int(-1)), ("V", Value::Str("2.0-rc1".into()))];
    for (a, b) in [("N >= -1", "N < -1"), ("V >= \"2.0\"", "V < \"2.0\"")] {
        assert_eq!(run(a, env).unwrap(), !run(b, env).unwrap());
    }
    assert!(run("N >= V", env).is_err());
    assert!(run("N < V", env).is_err());
}

#[test]
fn contains_splits_and_trims() {
    let env = &[
        ("L", Value::Str(" a ,b,, c\t".into())),
        ("E", Value::Str("".into())),
    ];
    assert_eq!(run("L contains \"a\"", env), Ok(true));
    assert_eq!(run("L contains \"c\"", env), Ok(true));
    assert_eq!(run("L contains \"\"", env), Ok(true));
    assert_eq!(run("L contains \" a\"", env), Ok(false));
    assert_eq!(run("E contains \"\"", env), Ok(true));
    assert_eq!(run("E contains \"x\"", env), Ok(false));
}

#[test]
fn version_order_examples() {
    assert_eq!(vercmp("1.007", "1.7"), Ordering::Equal);
    assert_eq!(vercmp(" 1.0 ", "1.0"), Ordering::Equal);
    assert_eq!(vercmp("1..0", "1.0"), Ordering::Equal);
    assert_eq!(vercmp("1.10", "1.9"), Ordering::Greater);
    assert_eq!(vercmp("1.0a", "1.0b"), Ordering::Less);
    assert_eq!(vercmp("1.0", "1.a"), Ordering::Greater);
    assert_eq!(vercmp("99999999999999999999", "1"), Ordering::Less);
    assert_eq!(vercmp("", ""), Ordering::Equal);
    assert_eq!(vercmp("", "1"), Ordering::Less);
    assert_eq!(vercmp("", "rc"), Ordering::Greater);
    assert_eq!(vercmp("2.0-rc1", "2.0-rc2"), Ordering::Less);
}

#[test]
fn version_order_laws_on_examples() {
    let vs = ["1.0", "1.0-rc1", "1.0.1", "1", "1.a", "2", "0.9.9", "1.0.0", ""];
    for a in vs {
        assert_eq!(vercmp(a, a), Ordering::Equal);
        for b in vs {
            assert_eq!(vercmp(b, a), vercmp(a, b).reverse());
            for c in vs {
                if vercmp(a, b) == Ordering::Less && vercmp(b, c) == Ordering::Less {
                    assert_eq!(vercmp(a, c), Ordering::Less);
                }
                if vercmp(a, b) == Ordering::Equal {
                    assert_eq!(vercmp(a, c), vercmp(b, c));
                }
            }
        }
    }
}

#[test]
fn blanks_around_leave_tokens_alone() {
    for src in ["A && B", "N >= 3", "X = \"a b\"", "!", "A &", "\"open", "A = \"x\\"] {
        let padded = format!(" \t {}\t ", src);
        match (tokenize(&padded), tokenize(src)) {
            (Ok(a), Ok(b)) => assert_eq!(a, b),
            (Err(a), Err(b)) => {
                let msg = b.strip_suffix(&format!(" in expression `{}`", src)).unwrap();
                assert_eq!(a, format!("{} in expression `{}`", msg, padded));
            }
            _ => panic!("padding changed whether `{}` tokenizes", src),
        }
    }
}

#[test]
fn trailing_component_rule() {
    assert_eq!(vercmp("2.5-beta", "2.5"), Ordering::Less);
    assert_eq!(vercmp("2.5.beta2", "2.5"), Ordering::Less);
    assert_eq!(vercmp("2.5.18446744073709551615", "2.5"), Ordering::Greater);
    assert_eq!(vercmp("2.5-0", "2.5"), Ordering::Greater);
    assert_eq!(vercmp("-rc", ""), Ordering::Less);
    assert_eq!(vercmp(".0", ""), Ordering::Greater);
}

#[test]
fn ne_and_eq_are_complements() {
    let env = &[
        ("N", Value::Int(4)),
        ("S", Value::Str("a".into())),
        ("B", Value::Bool(true)),
    ];
    for (a, b) in [("N != 4", "N = 4"), ("S != \"b\"", "S = \"b\""), ("B != B", "B = B")] {
        assert_eq!(run(a, env).unwrap(), !run(b, env).unwrap());
    }
    assert!(run("N != S", env).is_err());
    assert!(run("N = S", env).is_err());
}
