//! The tokenizer.

use crate::text::{byte_chars, byte_char, push_text, push_char, char_of_byte, string_of_bytes};
use vstd::prelude::*;

verus! {

broadcast use vstd::string::group_string_axioms;

#[derive(Debug, Clone, PartialEq, Eq)]
pub enum Token {
    Ident(String),
    Str(String),
    Int(i64),
    Not,
    AndAnd,
    OrOr,
    LParen,
    RParen,
    Eq,
    Ne,
    Ge,
    Lt,
    Contains,
    If,
    Else,
}

/// A token with its text taken as a sequence of characters.
pub enum TokenV {
    Ident(Seq<char>),
    Str(Seq<char>),
    Int(i64),
    Not,
    AndAnd,
    OrOr,
    LParen,
    RParen,
    Eq,
    Ne,
    Ge,
    Lt,
    Contains,
    If,
    Else,
}

impl View for Token {
    type V = TokenV;

    open spec fn view(&self) -> TokenV {
        match self {
            Token::Ident(s) => TokenV::Ident(s@),
            Token::Str(s) => TokenV::Str(s@),
            Token::Int(n) => TokenV::Int(*n),
            Token::Not => TokenV::Not,
            Token::AndAnd => TokenV::AndAnd,
            Token::OrOr => TokenV::OrOr,
            Token::LParen => TokenV::LParen,
            Token::RParen => TokenV::RParen,
            Token::Eq => TokenV::Eq,
            Token::Ne => TokenV::Ne,
            Token::Ge => TokenV::Ge,
            Token::Lt => TokenV::Lt,
            Token::Contains => TokenV::Contains,
            Token::If => TokenV::If,
            Token::Else => TokenV::Else,
        }
    }
}

impl Token {
    /// A copy of the token.
    pub(crate) fn duplicate(&self) -> (r: Token)
        ensures
            r == *self,
    {
        match self {
            Token::Ident(s) => Token::Ident(s.clone()),
            Token::Str(s) => Token::Str(s.clone()),
            Token::Int(n) => Token::Int(*n),
            Token::Not => Token::Not,
            Token::AndAnd => Token::AndAnd,
            Token::OrOr => Token::OrOr,
            Token::LParen => Token::LParen,
            Token::RParen => Token::RParen,
            Token::Eq => Token::Eq,
            Token::Ne => Token::Ne,
            Token::Ge => Token::Ge,
            Token::Lt => Token::Lt,
            Token::Contains => Token::Contains,
            Token::If => Token::If,
            Token::Else => Token::Else,
        }
    }
}

/// The views of a sequence of tokens.
pub open spec fn tokens_view(v: Seq<Token>) -> Seq<TokenV> {
    v.map_values(|t: Token| t@)
}

/// An error message as every stage reports it: what went wrong, then the
/// whole source text.
pub open spec fn err_text(src: Seq<char>, msg: Seq<char>) -> Seq<char> {
    msg + " in expression `"@ + src + "`"@
}

pub(crate) fn err(src: &str, msg: &str) -> (r: String)
    ensures
        r@ == err_text(src@, msg@),
{
    let mut r = String::new();
    push_text(&mut r, msg);
    push_text(&mut r, " in expression `");
    push_text(&mut r, src);
    push_text(&mut r, "`");
    r
}

pub open spec fn is_digit(b: u8) -> bool {
    48 <= b <= 57
}

pub open spec fn is_alpha(b: u8) -> bool {
    (65 <= b <= 90) || (97 <= b <= 122)
}

/// A byte that may start a name.
pub open spec fn is_name_start(b: u8) -> bool {
    is_alpha(b) || b == 95
}

/// A byte that may continue a name.
pub open spec fn is_name_byte(b: u8) -> bool {
    is_alpha(b) || is_digit(b) || b == 95
}

fn digit_byte(b: u8) -> (r: bool)
    ensures
        r == is_digit(b),
{
    48 <= b && b <= 57
}

fn name_start_byte(b: u8) -> (r: bool)
    ensures
        r == is_name_start(b),
{
    (65 <= b && b <= 90) || (97 <= b && b <= 122) || b == 95
}

fn name_byte(b: u8) -> (r: bool)
    ensures
        r == is_name_byte(b),
{
    (65 <= b && b <= 90) || (97 <= b && b <= 122) || (48 <= b && b <= 57) || b == 95
}

/// The end of the run of digits that starts at `j`.
pub open spec fn digits_end(b: Seq<u8>, j: int) -> int
    decreases b.len() - j,
{
    if 0 <= j < b.len() && is_digit(b[j]) {
        digits_end(b, j + 1)
    } else {
        j
    }
}

/// The end of the run of name bytes that starts at `j`.
pub open spec fn name_end(b: Seq<u8>, j: int) -> int
    decreases b.len() - j,
{
    if 0 <= j < b.len() && is_name_byte(b[j]) {
        name_end(b, j + 1)
    } else {
        j
    }
}

/// The number that a run of decimal digits stands for.
pub open spec fn digits_value(ds: Seq<u8>) -> nat
    decreases ds.len(),
{
    if ds.len() == 0 {
        0
    } else {
        digits_value(ds.drop_last()) * 10 + (ds.last() - 48) as nat
    }
}

/// What `i64::from_str` makes of a word that is an optional `-` followed by
/// decimal digits: its value, where that fits in an `i64`.
pub open spec fn word_value(w: Seq<u8>) -> Option<i64> {
    if w.len() > 0 && w[0] == 45 {
        let m = digits_value(w.drop_first());
        if m <= 0x8000_0000_0000_0000 {
            Some((-m) as i64)
        } else {
            None
        }
    } else {
        let m = digits_value(w);
        if m <= 0x7fff_ffff_ffff_ffff {
            Some(m as i64)
        } else {
            None
        }
    }
}

/// The contents of a string literal whose body starts at `j`, with the
/// characters read so far in `acc`: the contents and the index of the
/// closing quote, or the error.
pub open spec fn scan_string(b: Seq<u8>, j: int, acc: Seq<char>) -> Result<
    (Seq<char>, int),
    Seq<char>,
>
    decreases b.len() - j,
{
    if j < 0 || j >= b.len() {
        Err("unterminated string literal"@)
    } else if b[j] == 34 {
        Ok((acc, j))
    } else if b[j] == 92 {
        if j + 1 < b.len() && b[j + 1] == 34 {
            scan_string(b, j + 2, acc.push('"'))
        } else if j + 1 < b.len() && b[j + 1] == 92 {
            scan_string(b, j + 2, acc.push('\\'))
        } else {
            Err("unsupported escape in string"@)
        }
    } else {
        scan_string(b, j + 1, acc.push(byte_char(b[j])))
    }
}

/// The token, if any, that the bytes at `i` start, and where the next one
/// starts; or the message of the error found there.
pub open spec fn token_at(b: Seq<u8>, i: int) -> Result<(Option<TokenV>, int), Seq<char>> {
    let c = b[i];
    let next_is = |x: u8| i + 1 < b.len() && b[i + 1] == x;
    if c == 32 || c == 9 {
        Ok((None, i + 1))
    } else if c == 40 {
        Ok((Some(TokenV::LParen), i + 1))
    } else if c == 41 {
        Ok((Some(TokenV::RParen), i + 1))
    } else if c == 38 {
        if next_is(38) {
            Ok((Some(TokenV::AndAnd), i + 2))
        } else {
            Err("expected `&&`"@)
        }
    } else if c == 124 {
        if next_is(124) {
            Ok((Some(TokenV::OrOr), i + 2))
        } else {
            Err("expected `||`"@)
        }
    } else if c == 33 {
        if next_is(61) {
            Ok((Some(TokenV::Ne), i + 2))
        } else {
            Ok((Some(TokenV::Not), i + 1))
        }
    } else if c == 61 {
        if next_is(61) {
            Ok((Some(TokenV::Eq), i + 2))
        } else {
            Ok((Some(TokenV::Eq), i + 1))
        }
    } else if c == 62 {
        if next_is(61) {
            Ok((Some(TokenV::Ge), i + 2))
        } else {
            Err("`>` is not supported; use `>=` or swap to `<`"@)
        }
    } else if c == 60 {
        if next_is(61) {
            Err("`<=` is not supported; use `<` or swap to `>=`"@)
        } else {
            Ok((Some(TokenV::Lt), i + 1))
        }
    } else if c == 34 {
        match scan_string(b, i + 1, Seq::empty()) {
            Ok((s, j)) => Ok((Some(TokenV::Str(s)), j + 1)),
            Err(m) => Err(m),
        }
    } else if is_digit(c) || (c == 45 && i + 1 < b.len() && is_digit(b[i + 1])) {
        let e = digits_end(b, i + 1);
        let w = b.subrange(i, e);
        match word_value(w) {
            Some(n) => Ok((Some(TokenV::Int(n)), e)),
            None => Err("integer out of range: `"@ + byte_chars(w) + "`"@),
        }
    } else if is_name_start(c) {
        let e = name_end(b, i);
        let w = byte_chars(b.subrange(i, e));
        if w =~= seq!['i', 'f'] {
            Ok((Some(TokenV::If), e))
        } else if w =~= seq!['e', 'l', 's', 'e'] {
            Ok((Some(TokenV::Else), e))
        } else if w =~= seq!['c', 'o', 'n', 't', 'a', 'i', 'n', 's'] {
            Ok((Some(TokenV::Contains), e))
        } else {
            Ok((Some(TokenV::Ident(w)), e))
        }
    } else {
        Err("unexpected character `"@ + seq![byte_char(c)] + "`"@)
    }
}

/// The tokens from `i` on, after those in `acc`; or the message of the first
/// error.
pub open spec fn lex(b: Seq<u8>, i: int, acc: Seq<TokenV>) -> Result<Seq<TokenV>, Seq<char>>
    decreases b.len() - i,
{
    if i < 0 || i >= b.len() {
        Ok(acc)
    } else {
        match token_at(b, i) {
            Err(m) => Err(m),
            Ok((t, j)) => if i < j <= b.len() {
                lex(
                    b,
                    j,
                    match t {
                        Some(t) => acc.push(t),
                        None => acc,
                    },
                )
            } else {
                Err(Seq::empty())
            },
        }
    }
}

/// The tokens of a source text given by its UTF-8 bytes, or the message of
/// the first error.
pub open spec fn lex_bytes(b: Seq<u8>) -> Result<Seq<TokenV>, Seq<char>> {
    lex(b, 0, Seq::empty())
}

/// What `tokenize` returns for a source text, by its characters.
pub open spec fn tokenize_result(src: Seq<char>) -> Result<Seq<TokenV>, Seq<char>> {
    match lex_bytes(vstd::utf8::encode_utf8(src)) {
        Ok(ts) => Ok(ts),
        Err(m) => Err(err_text(src, m)),
    }
}

proof fn lemma_digits_end(b: Seq<u8>, j: int)
    requires
        0 <= j <= b.len(),
    ensures
        j <= digits_end(b, j) <= b.len(),
        forall|k: int| j <= k < digits_end(b, j) ==> is_digit(#[trigger] b[k]),
        digits_end(b, j) < b.len() ==> !is_digit(b[digits_end(b, j)]),
    decreases b.len() - j,
{
    if j < b.len() && is_digit(b[j]) {
        lemma_digits_end(b, j + 1);
    }
}

pub(crate) proof fn lemma_name_end(b: Seq<u8>, j: int)
    requires
        0 <= j <= b.len(),
    ensures
        j <= name_end(b, j) <= b.len(),
        forall|k: int| j <= k < name_end(b, j) ==> is_name_byte(#[trigger] b[k]),
        name_end(b, j) < b.len() ==> !is_name_byte(b[name_end(b, j)]),
    decreases b.len() - j,
{
    if j < b.len() && is_name_byte(b[j]) {
        lemma_name_end(b, j + 1);
    }
}

/// The value of the word `b[start..end]`, an optional `-` and then digits.
fn word_to_int(b: &[u8], start: usize, end: usize) -> (r: Option<i64>)
    requires
        start < end <= b.len(),
        forall|k: int| start < k < end ==> is_digit(#[trigger] b@[k]),
        is_digit(b@[start as int]) || b@[start as int] == 45,
    ensures
        r == word_value(b@.subrange(start as int, end as int)),
{
    let ghost w = b@.subrange(start as int, end as int);
    let neg = b[start] == 45;
    let k: usize = if neg {
        start + 1
    } else {
        start
    };
    let ghost ds = b@.subrange(k as int, end as int);
    assert(neg ==> ds =~= w.drop_first());
    assert(!neg ==> ds =~= w);
    let cap: u128 = 0x8000_0000_0000_0001;
    let mut acc: u128 = 0;
    let mut j: usize = k;
    while j < end
        invariant
            start <= k <= j <= end <= b.len(),
            start < end,
            neg ==> k == start + 1,
            !neg ==> k == start,
            acc <= cap,
            cap == 0x8000_0000_0000_0001,
            forall|q: int| start < q < end ==> is_digit(#[trigger] b@[q]),
            !neg ==> is_digit(b@[start as int]),
            acc == (if digits_value(b@.subrange(k as int, j as int)) < cap {
                digits_value(b@.subrange(k as int, j as int)) as int
            } else {
                cap as int
            }),
        decreases end - j,
    {
        assert(is_digit(b@[j as int]));
        let d: u8 = b[j] - 48;
        let ghost before = b@.subrange(k as int, j as int);
        assert(b@.subrange(k as int, j + 1).drop_last() =~= before);
        let next: u128 = acc * 10 + d as u128;
        acc = if next < cap {
            next
        } else {
            cap
        };
        j = j + 1;
    }
    if neg {
        if acc <= 0x8000_0000_0000_0000 {
            Some((0i128 - acc as i128) as i64)
        } else {
            None
        }
    } else {
        if acc <= 0x7fff_ffff_ffff_ffff {
            Some(acc as i64)
        } else {
            None
        }
    }
}

/// A message of the form ``<what> `<text>` ``.
fn quoted_msg(what: &str, text: &String) -> (r: String)
    ensures
        r@ == what@ + text@ + "`"@,
{
    let mut r = String::new();
    push_text(&mut r, what);
    push_text(&mut r, text.as_str());
    push_text(&mut r, "`");
    r
}

/// The views of an optional token.
pub open spec fn opt_token_view(t: Option<Token>) -> Option<TokenV> {
    match t {
        Some(t) => Some(t@),
        None => None,
    }
}

/// Reads the string literal whose opening quote is at `i`.
fn string_token(b: &[u8], i: usize) -> (r: Result<(Option<Token>, usize), String>)
    requires
        i < b.len(),
        b@[i as int] == 34,
    ensures
        match (r, token_at(b@, i as int)) {
            (Ok((t, j)), Ok((tv, jv))) => j == jv && opt_token_view(t) == tv,
            (Err(m), Err(mv)) => m@ == mv,
            _ => false,
        },
        r matches Ok((_, j)) ==> i < j <= b.len(),
{
    let mut out = String::new();
    let mut j: usize = i + 1;
    assert(token_at(b@, i as int) == match scan_string(b@, i + 1, Seq::empty()) {
        Ok((s, j)) => Ok((Some(TokenV::Str(s)), j + 1)),
        Err(m) => Err(m),
    });
    loop
        invariant
            i + 1 <= j <= b.len(),
            scan_string(b@, i + 1, Seq::empty()) == scan_string(b@, j as int, out@),
            token_at(b@, i as int) == match scan_string(b@, i + 1, Seq::empty()) {
                Ok((s, j)) => Ok((Some(TokenV::Str(s)), j + 1)),
                Err(m) => Err(m),
            },
        decreases b.len() - j,
    {
        if j >= b.len() {
            return Err(String::from_str("unterminated string literal"));
        }
        let c: u8 = b[j];
        if c == 34 {
            return Ok((Some(Token::Str(out)), j + 1));
        } else if c == 92 {
            if j + 1 < b.len() && b[j + 1] == 34 {
                push_char(&mut out, '"');
                j = j + 2;
            } else if j + 1 < b.len() && b[j + 1] == 92 {
                push_char(&mut out, '\\');
                j = j + 2;
            } else {
                return Err(String::from_str("unsupported escape in string"));
            }
        } else {
            push_char(&mut out, char_of_byte(c));
            j = j + 1;
        }
    }
}

/// Reads the integer literal that starts at `i`.
fn int_token(b: &[u8], i: usize) -> (r: Result<(Option<Token>, usize), String>)
    requires
        i < b.len(),
        is_digit(b@[i as int]) || (b@[i as int] == 45 && i + 1 < b.len() && is_digit(
            b@[i + 1],
        )),
    ensures
        match (r, token_at(b@, i as int)) {
            (Ok((t, j)), Ok((tv, jv))) => j == jv && opt_token_view(t) == tv,
            (Err(m), Err(mv)) => m@ == mv,
            _ => false,
        },
        r matches Ok((_, j)) ==> i < j <= b.len(),
{
    proof {
        lemma_digits_end(b@, i + 1);
    }
    let mut e: usize = i + 1;
    while e < b.len() && digit_byte(b[e])
        invariant
            i + 1 <= e <= b.len(),
            e <= digits_end(b@, i + 1),
            digits_end(b@, e as int) == digits_end(b@, i + 1),
            forall|k: int| i + 1 <= k < e ==> is_digit(#[trigger] b@[k]),
        decreases b.len() - e,
    {
        proof {
            lemma_digits_end(b@, e + 1);
        }
        e = e + 1;
    }
    match word_to_int(b, i, e) {
        Some(n) => Ok((Some(Token::Int(n)), e)),
        None => {
            let w = string_of_bytes(b, i, e);
            Err(quoted_msg("integer out of range: `", &w))
        },
    }
}

/// Reads the name or keyword that starts at `i`.
fn name_token(b: &[u8], i: usize) -> (r: (Option<Token>, usize))
    requires
        i < b.len(),
        is_name_start(b@[i as int]),
        !is_digit(b@[i as int]),
    ensures
        token_at(b@, i as int) == Ok::<(Option<TokenV>, int), Seq<char>>(
            (opt_token_view(r.0), r.1 as int),
        ),
        i < r.1 <= b.len(),
{
    proof {
        lemma_name_end(b@, i as int);
    }
    let mut e: usize = i;
    while e < b.len() && name_byte(b[e])
        invariant
            i <= e <= b.len(),
            e <= name_end(b@, i as int),
            name_end(b@, e as int) == name_end(b@, i as int),
        decreases b.len() - e,
    {
        proof {
            lemma_name_end(b@, e + 1);
        }
        e = e + 1;
    }
    let ghost w = byte_chars(b@.subrange(i as int, e as int));
    assert(w.len() == e - i);
    assert(forall|k: int| 0 <= k < w.len() ==> w[k] == byte_char(b@[i + k]));
    let t = if e - i == 2 && b[i] == 105 && b[i + 1] == 102 {
        assert(w =~= seq!['i', 'f']);
        Token::If
    } else if e - i == 4 && b[i] == 101 && b[i + 1] == 108 && b[i + 2] == 115 && b[i + 3]
        == 101 {
        assert(w =~= seq!['e', 'l', 's', 'e']);
        assert(!(w =~= seq!['i', 'f']));
        Token::Else
    } else if e - i == 8 && b[i] == 99 && b[i + 1] == 111 && b[i + 2] == 110 && b[i + 3] == 116
        && b[i + 4] == 97 && b[i + 5] == 105 && b[i + 6] == 110 && b[i + 7] == 115 {
        assert(w =~= seq!['c', 'o', 'n', 't', 'a', 'i', 'n', 's']);
        assert(!(w =~= seq!['i', 'f']));
        assert(!(w =~= seq!['e', 'l', 's', 'e']));
        Token::Contains
    } else {
        proof {
            if w =~= seq!['i', 'f'] {
                assert(w[0] == 'i' && w[1] == 'f');
            }
            if w =~= seq!['e', 'l', 's', 'e'] {
                assert(w[0] == 'e' && w[1] == 'l' && w[2] == 's' && w[3] == 'e');
            }
            if w =~= seq!['c', 'o', 'n', 't', 'a', 'i', 'n', 's'] {
                assert(w[0] == 'c' && w[1] == 'o' && w[2] == 'n' && w[3] == 't' && w[4] == 'a'
                    && w[5] == 'i' && w[6] == 'n' && w[7] == 's');
            }
        }
        Token::Ident(string_of_bytes(b, i, e))
    };
    (Some(t), e)
}

/// Reads the token, if any, at `i`.
fn token_from(b: &[u8], i: usize) -> (r: Result<(Option<Token>, usize), String>)
    requires
        i < b.len(),
    ensures
        match (r, token_at(b@, i as int)) {
            (Ok((t, j)), Ok((tv, jv))) => j == jv && opt_token_view(t) == tv,
            (Err(m), Err(mv)) => m@ == mv,
            _ => false,
        },
        r matches Ok((_, j)) ==> i < j <= b.len(),
{
    let c: u8 = b[i];
    let next_is_eq = i + 1 < b.len() && b[i + 1] == 61;
    if c == 32 || c == 9 {
        Ok((None, i + 1))
    } else if c == 40 {
        Ok((Some(Token::LParen), i + 1))
    } else if c == 41 {
        Ok((Some(Token::RParen), i + 1))
    } else if c == 38 {
        if i + 1 < b.len() && b[i + 1] == 38 {
            Ok((Some(Token::AndAnd), i + 2))
        } else {
            Err(String::from_str("expected `&&`"))
        }
    } else if c == 124 {
        if i + 1 < b.len() && b[i + 1] == 124 {
            Ok((Some(Token::OrOr), i + 2))
        } else {
            Err(String::from_str("expected `||`"))
        }
    } else if c == 33 {
        if next_is_eq {
            Ok((Some(Token::Ne), i + 2))
        } else {
            Ok((Some(Token::Not), i + 1))
        }
    } else if c == 61 {
        if next_is_eq {
            Ok((Some(Token::Eq), i + 2))
        } else {
            Ok((Some(Token::Eq), i + 1))
        }
    } else if c == 62 {
        if next_is_eq {
            Ok((Some(Token::Ge), i + 2))
        } else {
            Err(String::from_str("`>` is not supported; use `>=` or swap to `<`"))
        }
    } else if c == 60 {
        if next_is_eq {
            Err(String::from_str("`<=` is not supported; use `<` or swap to `>=`"))
        } else {
            Ok((Some(Token::Lt), i + 1))
        }
    } else if c == 34 {
        string_token(b, i)
    } else if digit_byte(c) || (c == 45 && i + 1 < b.len() && digit_byte(b[i + 1])) {
        int_token(b, i)
    } else if name_start_byte(c) {
        let (t, e) = name_token(b, i);
        Ok((t, e))
    } else {
        let mut m = String::new();
        push_text(&mut m, "unexpected character `");
        push_char(&mut m, char_of_byte(c));
        push_text(&mut m, "`");
        assert(m@ =~= "unexpected character `"@ + seq![byte_char(c)] + "`"@);
        Err(m)
    }
}

/// Splits a source text into tokens.
///
/// Blanks and tabs separate tokens. `=` and `==` both give `Token::Eq`; `>` and
/// `<=` are refused. A string literal runs between double quotes, with `\"`
/// and `\\` as its only escapes, and each of its bytes becomes one character.
/// An integer is an optional `-` and decimal digits and must fit in an `i64`.
/// A name starts with an ASCII letter or `_` and goes on with letters, digits
/// and `_`; `if`, `else` and `contains` are keywords. Every error names the
/// source text.
pub fn tokenize(src: &str) -> (r: Result<Vec<Token>, String>)
    ensures
        match (r, tokenize_result(src@)) {
            (Ok(v), Ok(ts)) => tokens_view(v@) == ts,
            (Err(e), Err(m)) => e@ == m,
            _ => false,
        },
{
    let b = src.as_bytes();
    let mut toks: Vec<Token> = Vec::new();
    let mut i: usize = 0;
    assert(tokens_view(toks@) =~= Seq::<TokenV>::empty());
    while i < b.len()
        invariant
            i <= b.len(),
            lex(b@, 0, Seq::empty()) == lex(b@, i as int, tokens_view(toks@)),
            b@ == vstd::utf8::encode_utf8(src@),
        decreases b.len() - i,
    {
        match token_from(b, i) {
            Err(m) => {
                assert(lex(b@, i as int, tokens_view(toks@)) == Err::<Seq<TokenV>, Seq<char>>(m@));
                assert(b@ == vstd::utf8::encode_utf8(src@));
                return Err(err(src, m.as_str()));
            },
            Ok((t, j)) => {
                let ghost before = toks@;
                match t {
                    Some(t) => {
                        toks.push(t);
                        assert(tokens_view(toks@) =~= tokens_view(before).push(t@));
                    },
                    None => {},
                }
                i = j;
            },
        }
    }
    Ok(toks)
}

/// A blank or a tab byte.
pub open spec fn is_blank(x: u8) -> bool {
    x == 32 || x == 9
}

/// `big` is `b` with `n` blank bytes before it and only blank bytes after it.
pub open spec fn padded(big: Seq<u8>, n: int, b: Seq<u8>) -> bool {
    &&& 0 <= n
    &&& n + b.len() <= big.len()
    &&& forall|k: int| 0 <= k < n ==> is_blank(#[trigger] big[k])
    &&& forall|k: int| 0 <= k < b.len() ==> big[n + k] == #[trigger] b[k]
    &&& forall|k: int| n + b.len() <= k < big.len() ==> is_blank(#[trigger] big[k])
}

proof fn lemma_padded_at(big: Seq<u8>, n: int, b: Seq<u8>, k: int)
    requires
        padded(big, n, b),
        0 <= k < b.len(),
    ensures
        big[n + k] == b[k],
{
}

proof fn lemma_digits_end_shift(big: Seq<u8>, n: int, b: Seq<u8>, j: int)
    requires
        padded(big, n, b),
        0 <= j <= b.len(),
    ensures
        digits_end(big, n + j) == n + digits_end(b, j),
    decreases b.len() - j,
{
    if j < b.len() {
        lemma_padded_at(big, n, b, j);
        lemma_digits_end_shift(big, n, b, j + 1);
    } else if n + j < big.len() {
        assert(is_blank(big[n + j]));
    }
}

proof fn lemma_name_end_shift(big: Seq<u8>, n: int, b: Seq<u8>, j: int)
    requires
        padded(big, n, b),
        0 <= j <= b.len(),
    ensures
        name_end(big, n + j) == n + name_end(b, j),
    decreases b.len() - j,
{
    if j < b.len() {
        lemma_padded_at(big, n, b, j);
        lemma_name_end_shift(big, n, b, j + 1);
    } else if n + j < big.len() {
        assert(is_blank(big[n + j]));
    }
}

proof fn lemma_scan_blanks(big: Seq<u8>, k: int, acc: Seq<char>)
    requires
        0 <= k,
        forall|q: int| k <= q < big.len() ==> is_blank(#[trigger] big[q]),
    ensures
        scan_string(big, k, acc) == Err::<(Seq<char>, int), Seq<char>>(
            "unterminated string literal"@,
        ),
    decreases big.len() - k,
{
    if k < big.len() {
        assert(is_blank(big[k]));
        lemma_scan_blanks(big, k + 1, acc.push(byte_char(big[k])));
    }
}

proof fn lemma_scan_shift(big: Seq<u8>, n: int, b: Seq<u8>, j: int, acc: Seq<char>)
    requires
        padded(big, n, b),
        0 <= j <= b.len(),
    ensures
        match scan_string(b, j, acc) {
            Ok((s, k)) => scan_string(big, n + j, acc) == Ok::<(Seq<char>, int), Seq<char>>(
                (s, n + k),
            ),
            Err(m) => scan_string(big, n + j, acc) == Err::<(Seq<char>, int), Seq<char>>(m),
        },
    decreases b.len() - j,
{
    if j == b.len() {
        lemma_scan_blanks(big, n + j, acc);
    } else {
        lemma_padded_at(big, n, b, j);
        if j + 1 < b.len() {
            lemma_padded_at(big, n, b, j + 1);
        } else if n + j + 1 < big.len() {
            assert(is_blank(big[n + j + 1]));
        }
        if b[j] == 92 && j + 1 < b.len() && (b[j + 1] == 34 || b[j + 1] == 92) {
            lemma_scan_shift(big, n, b, j + 2, acc.push(if b[j + 1] == 34 {
                '"'
            } else {
                '\\'
            }));
        } else if b[j] != 34 && b[j] != 92 {
            lemma_scan_shift(big, n, b, j + 1, acc.push(byte_char(b[j])));
        }
    }
}

/// A token read in `b` at `i` is read alike where `b` stands padded in
/// `big`, only further on.
proof fn lemma_token_shift(big: Seq<u8>, n: int, b: Seq<u8>, i: int)
    requires
        padded(big, n, b),
        0 <= i < b.len(),
    ensures
        match token_at(b, i) {
            Ok((t, j)) => token_at(big, n + i) == Ok::<(Option<TokenV>, int), Seq<char>>(
                (t, n + j),
            ),
            Err(m) => token_at(big, n + i) == Err::<(Option<TokenV>, int), Seq<char>>(m),
        },
{
    lemma_padded_at(big, n, b, i);
    if i + 1 < b.len() {
        lemma_padded_at(big, n, b, i + 1);
    } else if n + i + 1 < big.len() {
        assert(is_blank(big[n + i + 1]));
    }
    let c = b[i];
    if c == 34 {
        lemma_scan_shift(big, n, b, i + 1, Seq::empty());
    } else if is_digit(c) || (c == 45 && i + 1 < b.len() && is_digit(b[i + 1])) {
        lemma_digits_end(b, i + 1);
        lemma_digits_end_shift(big, n, b, i + 1);
        assert(big.subrange(n + i, n + digits_end(b, i + 1)) =~= b.subrange(
            i,
            digits_end(b, i + 1),
        ));
    } else if is_name_start(c) {
        lemma_name_end(b, i);
        lemma_name_end_shift(big, n, b, i);
        assert(big.subrange(n + i, n + name_end(b, i)) =~= b.subrange(i, name_end(b, i)));
    }
}

proof fn lemma_scan_range(b: Seq<u8>, j: int, acc: Seq<char>)
    ensures
        scan_string(b, j, acc) matches Ok((_, k)) ==> j <= k < b.len(),
    decreases b.len() - j,
{
    if 0 <= j < b.len() && b[j] != 34 {
        if b[j] == 92 {
            if j + 1 < b.len() && b[j + 1] == 34 {
                lemma_scan_range(b, j + 2, acc.push('"'));
            } else if j + 1 < b.len() && b[j + 1] == 92 {
                lemma_scan_range(b, j + 2, acc.push('\\'));
            }
        } else {
            lemma_scan_range(b, j + 1, acc.push(byte_char(b[j])));
        }
    }
}

/// A token read at `i` ends after `i` and within the text.
proof fn lemma_token_range(b: Seq<u8>, i: int)
    requires
        0 <= i < b.len(),
    ensures
        token_at(b, i) matches Ok((_, j)) ==> i < j <= b.len(),
{
    lemma_scan_range(b, i + 1, Seq::empty());
    lemma_digits_end(b, i + 1);
    lemma_name_end(b, i);
}

proof fn lemma_lex_blanks(big: Seq<u8>, k: int, e: int, acc: Seq<TokenV>)
    requires
        0 <= k <= e <= big.len(),
        forall|q: int| k <= q < e ==> is_blank(#[trigger] big[q]),
    ensures
        lex(big, k, acc) == lex(big, e, acc),
    decreases e - k,
{
    if k < e {
        assert(is_blank(big[k]));
        lemma_lex_blanks(big, k + 1, e, acc);
    }
}

proof fn lemma_lex_shift(big: Seq<u8>, n: int, b: Seq<u8>, i: int, acc: Seq<TokenV>)
    requires
        padded(big, n, b),
        0 <= i <= b.len(),
    ensures
        lex(big, n + i, acc) == lex(b, i, acc),
    decreases b.len() - i,
{
    if i == b.len() {
        lemma_lex_blanks(big, n + i, big.len() as int, acc);
    } else {
        lemma_token_shift(big, n, b, i);
        lemma_token_range(b, i);
        match token_at(b, i) {
            Ok((t, j)) => {
                if i < j <= b.len() {
                    lemma_lex_shift(
                        big,
                        n,
                        b,
                        j,
                        match t {
                            Some(t) => acc.push(t),
                            None => acc,
                        },
                    );
                }
            },
            Err(_) => {},
        }
    }
}

proof fn lemma_encode_concat(a: Seq<char>, b: Seq<char>)
    ensures
        vstd::utf8::encode_utf8(a + b) == vstd::utf8::encode_utf8(a) + vstd::utf8::encode_utf8(
            b,
        ),
    decreases a.len(),
{
    if a.len() > 0 {
        assert((a + b).drop_first() =~= a.drop_first() + b);
        lemma_encode_concat(a.drop_first(), b);
        assert((a + b)[0] == a[0]);
    } else {
        assert(a + b =~= b);
    }
}

/// Blanks and tabs, as characters.
pub open spec fn all_blank(p: Seq<char>) -> bool {
    forall|k: int| 0 <= k < p.len() ==> #[trigger] p[k] == ' ' || p[k] == '\t'
}

proof fn lemma_encode_blanks(p: Seq<char>)
    requires
        all_blank(p),
    ensures
        vstd::utf8::encode_utf8(p).len() == p.len(),
        forall|k: int| 0 <= k < p.len() ==> is_blank(#[trigger] vstd::utf8::encode_utf8(p)[k]),
{
    assert(vstd::utf8::is_ascii_chars(p)) by {
        assert forall|k: int| 0 <= k < p.len() implies '\0' <= #[trigger] p[k] <= '\u{7f}' by {
            assert(p[k] == ' ' || p[k] == '\t');
        }
    }
    vstd::utf8::is_ascii_chars_encode_utf8(p);
    assert forall|k: int| 0 <= k < p.len() implies is_blank(
        #[trigger] vstd::utf8::encode_utf8(p)[k],
    ) by {
        assert(p[k] as u8 == vstd::utf8::encode_utf8(p)[k]);
        assert(p[k] == ' ' || p[k] == '\t');
    }
}

/// Blanks and tabs before and after a text change neither whether it
/// tokenizes nor its tokens, nor the message of its first error; only the
/// source text quoted in that error grows by them.
pub proof fn blanks_around_keep_tokens(p: Seq<char>, s: Seq<char>, q: Seq<char>)
    requires
        all_blank(p),
        all_blank(q),
    ensures
        lex_bytes(vstd::utf8::encode_utf8(p + s + q)) == lex_bytes(vstd::utf8::encode_utf8(s)),
        match (tokenize_result(p + s + q), tokenize_result(s)) {
            (Ok(a), Ok(b)) => a == b,
            (Err(_), Err(_)) => true,
            _ => false,
        },
{
    let bp = vstd::utf8::encode_utf8(p);
    let bs = vstd::utf8::encode_utf8(s);
    let bq = vstd::utf8::encode_utf8(q);
    lemma_encode_concat(p + s, q);
    lemma_encode_concat(p, s);
    lemma_encode_blanks(p);
    lemma_encode_blanks(q);
    let big = bp + bs + bq;
    let n = bp.len() as int;
    assert forall|k: int| 0 <= k < n implies is_blank(#[trigger] big[k]) by {
        assert(big[k] == bp[k]);
    }
    assert forall|k: int| 0 <= k < bs.len() implies big[n + k] == #[trigger] bs[k] by {}
    assert forall|k: int| n + bs.len() <= k < big.len() implies is_blank(#[trigger] big[k]) by {
        assert(big[k] == bq[k - n - bs.len()]);
    }
    assert(padded(big, n, bs));
    lemma_lex_blanks(big, 0, n, Seq::empty());
    lemma_lex_shift(big, n, bs, 0, Seq::empty());
}

} // verus!
