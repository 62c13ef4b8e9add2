//! Evaluation of `+ - * /` expressions over non-negative integers, with the
//! usual precedence and left-to-right association.

use crate::text::{digit_value, is_digit, numeral_value, trim, trimmed};
use vstd::prelude::*;
use vstd::string::*;

verus! {

/// A lexical unit of an expression.
#[derive(Debug, Clone, Copy, PartialEq, Eq, Structural)]
pub enum Token {
    Number(usize),
    Plus,
    Minus,
    Multiply,
    Divide,
}

/// The text with every space removed.
pub open spec fn without_spaces(s: Seq<char>) -> Seq<char>
    decreases s.len(),
{
    if s.len() == 0 {
        Seq::empty()
    } else if s.last() == ' ' {
        without_spaces(s.drop_last())
    } else {
        without_spaces(s.drop_last()).push(s.last())
    }
}

/// `s` without a leading `+`.
pub open spec fn unsigned_part(s: Seq<char>) -> Seq<char> {
    if s.len() > 0 && s[0] == '+' {
        s.drop_first()
    } else {
        s
    }
}

/// Whether every character of `d` is a decimal digit.
pub open spec fn all_digits(d: Seq<char>) -> bool {
    forall|i: int| 0 <= i < d.len() ==> is_digit(#[trigger] d[i])
}

/// The value of `s` read as a plain `usize` literal: an optional `+`, then
/// one or more decimal digits, the value fitting a `usize`.
pub open spec fn plain_number(s: Seq<char>) -> Option<usize> {
    let d = unsigned_part(s);
    if d.len() > 0 && all_digits(d) && numeral_value(d) <= usize::MAX {
        Some(numeral_value(d) as usize)
    } else {
        None
    }
}

pub open spec fn is_operator_char(c: char) -> bool {
    c == '+' || c == '-' || c == '*' || c == '/'
}

pub open spec fn operator_token(c: char) -> Token {
    if c == '+' {
        Token::Plus
    } else if c == '-' {
        Token::Minus
    } else if c == '*' {
        Token::Multiply
    } else {
        Token::Divide
    }
}

/// The tokens read from the first `k` characters and the digits of the
/// number being read; `None` once a character is rejected, a number does
/// not fit, or an operator follows nothing or another operator.
pub open spec fn scan(s: Seq<char>, k: int) -> Option<(Seq<Token>, Seq<char>)>
    decreases k,
{
    if k <= 0 {
        Some((Seq::empty(), Seq::empty()))
    } else {
        match scan(s, k - 1) {
            None => None,
            Some(state) => {
                let toks = state.0;
                let cur = state.1;
                let c = s[k - 1];
                if is_digit(c) {
                    Some((toks, cur.push(c)))
                } else if is_operator_char(c) {
                    if cur.len() > 0 {
                        if numeral_value(cur) > usize::MAX {
                            None
                        } else {
                            Some(
                                (
                                    toks.push(Token::Number(numeral_value(cur) as usize)).push(
                                        operator_token(c),
                                    ),
                                    Seq::empty(),
                                ),
                            )
                        }
                    } else if toks.len() == 0 || !(toks.last() is Number) {
                        None
                    } else {
                        Some((toks.push(operator_token(c)), Seq::empty()))
                    }
                } else {
                    None
                }
            },
        }
    }
}

/// The tokens of `s`, or `None` where it cannot be read.
pub open spec fn tokens_of(s: Seq<char>) -> Option<Seq<Token>> {
    match scan(s, s.len() as int) {
        None => None,
        Some(state) => {
            let toks = state.0;
            let cur = state.1;
            if cur.len() > 0 {
                if numeral_value(cur) > usize::MAX {
                    None
                } else {
                    Some(toks.push(Token::Number(numeral_value(cur) as usize)))
                }
            } else if toks.len() == 0 {
                None
            } else {
                Some(toks)
            }
        },
    }
}

/// A finished term added to or subtracted from the running sum; `None` when
/// the sum would be negative or not fit a `usize`.
pub open spec fn combine(acc: nat, neg: bool, term: nat) -> Option<nat> {
    if neg {
        if acc < term {
            None
        } else {
            Some((acc - term) as nat)
        }
    } else if acc + term > usize::MAX {
        None
    } else {
        Some(acc + term)
    }
}

/// After the first `i` tokens (`i` odd): the sum of the finished terms,
/// whether the current term is subtracted, and the current term's value.
/// `None` on a division by zero, a product that does not fit, a running sum
/// that goes negative or does not fit, or tokens out of place.
pub open spec fn fold_tokens(t: Seq<Token>, i: int) -> Option<(nat, bool, nat)>
    decreases i,
{
    if i <= 1 {
        match t[0] {
            Token::Number(n) => Some((0nat, false, n as nat)),
            _ => None,
        }
    } else {
        match fold_tokens(t, i - 2) {
            None => None,
            Some(state) => {
                let acc = state.0;
                let neg = state.1;
                let term = state.2;
                match t[i - 1] {
                    Token::Number(n) => match t[i - 2] {
                        Token::Number(_) => None,
                        Token::Multiply => if term * n > usize::MAX {
                            None
                        } else {
                            Some((acc, neg, term * (n as nat)))
                        },
                        Token::Divide => if n == 0 {
                            None
                        } else {
                            Some((acc, neg, term / (n as nat)))
                        },
                        Token::Plus => match combine(acc, neg, term) {
                            None => None,
                            Some(a) => Some((a, false, n as nat)),
                        },
                        Token::Minus => match combine(acc, neg, term) {
                            None => None,
                            Some(a) => Some((a, true, n as nat)),
                        },
                    },
                    _ => None,
                }
            },
        }
    }
}

/// The value of a token sequence: numbers and operators alternating,
/// starting and ending with a number.
pub open spec fn token_value(t: Seq<Token>) -> Option<usize> {
    if t.len() % 2 == 0 {
        None
    } else {
        match fold_tokens(t, t.len() as int) {
            None => None,
            Some(state) => match combine(state.0, state.1, state.2) {
                None => None,
                Some(v) => Some(v as usize),
            },
        }
    }
}

/// The value of an expression after trimming: spaces are dropped; a plain
/// literal is read as a number, anything else as an expression.
pub open spec fn trimmed_value(t: Seq<char>) -> Option<usize> {
    let s = without_spaces(t);
    if s.len() == 0 {
        None
    } else if plain_number(s) is Some {
        plain_number(s)
    } else {
        match tokens_of(s) {
            None => None,
            Some(toks) => token_value(toks),
        }
    }
}

/// Once reading fails it stays failed.
proof fn lemma_scan_stays_none(s: Seq<char>, k: int, k2: int)
    requires
        0 <= k <= k2,
        scan(s, k) is None,
    ensures
        scan(s, k2) is None,
    decreases k2 - k,
{
    if k2 > k {
        lemma_scan_stays_none(s, k, k2 - 1);
    }
}

/// Once evaluation fails it stays failed.
proof fn lemma_fold_stays_none(t: Seq<Token>, i: int, j: int)
    requires
        1 <= i <= j,
        (j - i) % 2 == 0,
        fold_tokens(t, i) is None,
    ensures
        fold_tokens(t, j) is None,
    decreases j - i,
{
    if j > i {
        lemma_fold_stays_none(t, i, j - 2);
    }
}

/// Evaluates an expression such as `8*8+16`; leading and trailing white
/// space and all spaces are ignored. Fails on an empty or malformed
/// expression, a division by zero, a negative intermediate sum, or a value
/// that does not fit a `usize`.
pub fn eval_expression(expr: &str) -> (r: Result<usize, String>)
    ensures
        r is Ok <==> trimmed_value(trimmed(expr@)) is Some,
        r matches Ok(v) ==> trimmed_value(trimmed(expr@)) == Some(v),
{
    let t = trim(expr);
    eval_trimmed(t.as_str())
}

/// Evaluates an expression that has already been trimmed.
pub fn eval_trimmed(t: &str) -> (r: Result<usize, String>)
    ensures
        r is Ok <==> trimmed_value(t@) is Some,
        r matches Ok(v) ==> trimmed_value(t@) == Some(v),
{
    let s = strip_spaces(t);
    if s.len() == 0 {
        return Err(String::from_str("Empty expression"));
    }
    match parse_plain(&s) {
        Some(v) => {
            return Ok(v);
        },
        None => {},
    }
    let tokens = match tokenize(&s) {
        Ok(ts) => ts,
        Err(e) => {
            return Err(e);
        },
    };
    evaluate(&tokens)
}

/// The characters of `t` with every space removed.
fn strip_spaces(t: &str) -> (r: Vec<char>)
    ensures
        r@ == without_spaces(t@),
{
    let n = t.unicode_len();
    let mut out: Vec<char> = Vec::new();
    let mut k: usize = 0;
    while k < n
        invariant
            n == t@.len(),
            k <= n,
            out@ == without_spaces(t@.subrange(0, k as int)),
        decreases n - k,
    {
        let c = t.get_char(k);
        assert(t@.subrange(0, k + 1).drop_last() =~= t@.subrange(0, k as int));
        if c != ' ' {
            out.push(c);
        }
        k = k + 1;
    }
    assert(t@.subrange(0, n as int) =~= t@);
    out
}

/// The value of the digits `s[from..to]`, if it fits a `usize`.
fn digits_value(s: &Vec<char>, from: usize, to: usize) -> (r: Option<usize>)
    requires
        from <= to <= s@.len(),
        forall|i: int| from <= i < to ==> is_digit(#[trigger] s@[i]),
    ensures
        r is Some <==> numeral_value(s@.subrange(from as int, to as int)) <= usize::MAX,
        r matches Some(v) ==> v == numeral_value(s@.subrange(from as int, to as int)),
{
    let mut value: usize = 0;
    let mut k: usize = from;
    while k < to
        invariant
            from <= k <= to,
            to <= s@.len(),
            forall|i: int| from <= i < to ==> is_digit(#[trigger] s@[i]),
            value == numeral_value(s@.subrange(from as int, k as int)),
        decreases to - k,
    {
        let c = s[k];
        let d = (c as u32 - 48) as usize;
        assert(s@.subrange(from as int, k + 1).drop_last() =~= s@.subrange(from as int, k as int));
        assert(d == digit_value(c));
        if value > (usize::MAX - d) / 10 {
            proof {
                assert(value * 10 + d > usize::MAX) by (nonlinear_arith)
                    requires
                        value > (usize::MAX - d) / 10,
                        d <= 9,
                ;
                lemma_numeral_grows(s@.subrange(from as int, to as int), (k + 1 - from) as int);
                assert(s@.subrange(from as int, to as int).subrange(0, (k + 1 - from) as int)
                    =~= s@.subrange(from as int, k + 1));
            }
            return None;
        }
        assert(value * 10 + d <= usize::MAX) by (nonlinear_arith)
            requires
                value <= (usize::MAX - d) / 10,
                d <= 9,
        ;
        value = value * 10 + d;
        k = k + 1;
    }
    Some(value)
}

/// A longer run of digits has at least the value of its prefix.
proof fn lemma_numeral_grows(d: Seq<char>, k: int)
    requires
        0 <= k <= d.len(),
    ensures
        numeral_value(d.subrange(0, k)) <= numeral_value(d),
    decreases d.len() - k,
{
    if k < d.len() {
        lemma_numeral_grows(d, k + 1);
        assert(d.subrange(0, k + 1).drop_last() =~= d.subrange(0, k));
        let v = numeral_value(d.subrange(0, k));
        assert(v * 10 + digit_value(d[k]) >= v) by (nonlinear_arith);
    } else {
        assert(d.subrange(0, k) =~= d);
    }
}

/// `s` read as a plain `usize` literal, if it is one.
fn parse_plain(s: &Vec<char>) -> (r: Option<usize>)
    requires
        s@.len() > 0,
    ensures
        r == plain_number(s@),
{
    let from: usize = if s[0] == '+' { 1 } else { 0 };
    let ghost d = unsigned_part(s@);
    assert(d =~= s@.subrange(from as int, s@.len() as int));
    if from == s.len() {
        assert(d.len() == 0);
        return None;
    }
    let mut k: usize = from;
    while k < s.len()
        invariant
            from <= k <= s@.len(),
            from <= 1,
            d == s@.subrange(from as int, s@.len() as int),
            d == unsigned_part(s@),
            forall|i: int| from <= i < k ==> is_digit(#[trigger] s@[i]),
        decreases s@.len() - k,
    {
        let u = s[k] as u32;
        if u < 48 || u > 57 {
            assert(d[k - from] == s@[k as int]);
            assert(!is_digit(d[k - from]));
            return None;
        }
        k = k + 1;
    }
    assert forall|i: int| 0 <= i < d.len() implies is_digit(#[trigger] d[i]) by {
        assert(d[i] == s@[i + from]);
    }
    digits_value(s, from, s.len())
}

/// Splits an expression (spaces already removed) into tokens.
fn tokenize(s: &Vec<char>) -> (r: Result<Vec<Token>, String>)
    ensures
        r is Ok <==> tokens_of(s@) is Some,
        r matches Ok(t) ==> tokens_of(s@) == Some(t@),
{
    let mut tokens: Vec<Token> = Vec::new();
    let mut start: usize = 0;
    let mut k: usize = 0;
    while k < s.len()
        invariant
            start <= k <= s@.len(),
            forall|i: int| start <= i < k ==> is_digit(#[trigger] s@[i]),
            scan(s@, k as int) == Some((tokens@, s@.subrange(start as int, k as int))),
        decreases s@.len() - k,
    {
        let c = s[k];
        let u = c as u32;
        let ghost cur = s@.subrange(start as int, k as int);
        if 48 <= u && u <= 57 {
            assert(s@.subrange(start as int, k + 1) =~= cur.push(c));
        } else if c == '+' || c == '-' || c == '*' || c == '/' {
            let op = if c == '+' {
                Token::Plus
            } else if c == '-' {
                Token::Minus
            } else if c == '*' {
                Token::Multiply
            } else {
                Token::Divide
            };
            if start < k {
                match digits_value(s, start, k) {
                    Some(v) => {
                        tokens.push(Token::Number(v));
                        tokens.push(op);
                    },
                    None => {
                        proof {
                            lemma_scan_stays_none(s@, k + 1, s@.len() as int);
                        }
                        return Err(String::from_str("Invalid number"));
                    },
                }
            } else {
                let bad = match tokens.last() {
                    None => true,
                    Some(Token::Number(_)) => false,
                    Some(_) => true,
                };
                if bad {
                    proof {
                        lemma_scan_stays_none(s@, k + 1, s@.len() as int);
                    }
                    return Err(String::from_str("Invalid operator position"));
                }
                tokens.push(op);
            }
            start = k + 1;
            assert(s@.subrange(start as int, k + 1) =~= Seq::<char>::empty());
        } else {
            proof {
                lemma_scan_stays_none(s@, k + 1, s@.len() as int);
            }
            return Err(String::from_str("Invalid character"));
        }
        k = k + 1;
    }
    if start < k {
        match digits_value(s, start, k) {
            Some(v) => {
                tokens.push(Token::Number(v));
            },
            None => {
                return Err(String::from_str("Invalid number"));
            },
        }
    } else if tokens.len() == 0 {
        return Err(String::from_str("Empty expression"));
    }
    Ok(tokens)
}

/// Evaluates alternating numbers and operators: `*` and `/` first, then
/// `+` and `-`, each left to right.
fn evaluate(tokens: &Vec<Token>) -> (r: Result<usize, String>)
    ensures
        r is Ok <==> token_value(tokens@) is Some,
        r matches Ok(v) ==> token_value(tokens@) == Some(v),
{
    let n = tokens.len();
    if n == 0 {
        return Err(String::from_str("No tokens to evaluate"));
    }
    if n % 2 == 0 {
        return Err(String::from_str("Invalid expression structure"));
    }
    let mut acc: usize = 0;
    let mut neg = false;
    let mut term: usize = match tokens[0] {
        Token::Number(v) => v,
        _ => {
            proof {
                lemma_fold_stays_none(tokens@, 1, n as int);
            }
            return Err(String::from_str("Expected number in expression"));
        },
    };
    let mut i: usize = 1;
    while i < n
        invariant
            n == tokens@.len(),
            n % 2 == 1,
            1 <= i <= n,
            i % 2 == 1,
            fold_tokens(tokens@, i as int) == Some((acc as nat, neg, term as nat)),
        decreases n - i,
    {
        let op = tokens[i];
        let v = match tokens[i + 1] {
            Token::Number(v) => v,
            _ => {
                proof {
                    lemma_fold_stays_none(tokens@, i + 2, n as int);
                }
                return Err(String::from_str("Expected number after operator"));
            },
        };
        assert(fold_tokens(tokens@, i + 2) == match fold_tokens(tokens@, i as int) {
            None => None,
            Some(state) => match tokens@[i + 1] {
                Token::Number(m) => match tokens@[i as int] {
                    Token::Number(_) => None,
                    Token::Multiply => if state.2 * m > usize::MAX {
                        None
                    } else {
                        Some((state.0, state.1, state.2 * (m as nat)))
                    },
                    Token::Divide => if m == 0 {
                        None
                    } else {
                        Some((state.0, state.1, state.2 / (m as nat)))
                    },
                    Token::Plus => match combine(state.0, state.1, state.2) {
                        None => None,
                        Some(a) => Some((a, false, m as nat)),
                    },
                    Token::Minus => match combine(state.0, state.1, state.2) {
                        None => None,
                        Some(a) => Some((a, true, m as nat)),
                    },
                },
                _ => None,
            },
        });
        match op {
            Token::Number(_) => {
                proof {
                    lemma_fold_stays_none(tokens@, i + 2, n as int);
                }
                return Err(String::from_str("Expected an operator"));
            },
            Token::Multiply => {
                if v != 0 && term > usize::MAX / v {
                    assert(term * v > usize::MAX) by (nonlinear_arith)
                        requires
                            term > usize::MAX / v,
                            v > 0,
                    ;
                    proof {
                        lemma_fold_stays_none(tokens@, i + 2, n as int);
                    }
                    return Err(String::from_str("Value too large"));
                }
                assert(term * v <= usize::MAX) by (nonlinear_arith)
                    requires
                        v == 0 || term <= usize::MAX / v,
                ;
                term = term * v;
            },
            Token::Divide => {
                if v == 0 {
                    proof {
                        lemma_fold_stays_none(tokens@, i + 2, n as int);
                    }
                    return Err(String::from_str("Division by zero"));
                }
                term = term / v;
            },
            Token::Plus | Token::Minus => {
                if neg {
                    if acc < term {
                        proof {
                            lemma_fold_stays_none(tokens@, i + 2, n as int);
                        }
                        return Err(String::from_str("Result would be negative (usize cannot be negative)"));
                    }
                    acc = acc - term;
                } else {
                    if term > usize::MAX - acc {
                        proof {
                            lemma_fold_stays_none(tokens@, i + 2, n as int);
                        }
                        return Err(String::from_str("Value too large"));
                    }
                    acc = acc + term;
                }
                neg = match op {
                    Token::Minus => true,
                    _ => false,
                };
                term = v;
            },
        }
        i = i + 2;
    }
    if neg {
        if acc < term {
            return Err(String::from_str("Result would be negative (usize cannot be negative)"));
        }
        Ok(acc - term)
    } else {
        if term > usize::MAX - acc {
            return Err(String::from_str("Value too large"));
        }
        Ok(acc + term)
    }
}

} // verus!
