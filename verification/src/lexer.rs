//! The formula lexer: turns formula text (everything after the leading
//! `=`) into a token stream. Whitespace between tokens is discarded; any
//! byte matching no token production fails the whole formula.

use vstd::prelude::*;
use crate::chars::{
    all_digits, digits_value, is_digit_char, is_letter_char, is_nonzero_digit_char, is_space_char,
    lemma_digits_value_bound, lemma_digits_value_prefix, pow10, str_to_chars,
};
use crate::reference::Reference;

verus! {

/// The formula text did not match the token grammar.
#[derive(Debug, Clone, Copy, PartialEq, Eq, Structural)]
pub struct LexError;

/// One formula token.
#[derive(Debug, Clone, Copy, PartialEq, Eq, Structural)]
pub enum Token {
    /// An integer literal: decimal digits, in the range of `i64`.
    Integer(i64),
    /// A float literal: digits, a dot, digits. The engine stores no
    /// floating-point values, so only the token's presence is recorded;
    /// the parser rejects it.
    Float,
    /// An operator: `+`, `-`, `*` or `/`.
    Op(char),
    /// A control character: `(` or `)`.
    Ctrl(char),
    /// A cell reference.
    Reference(Reference),
}

/// The first position at or after `pos` holding no digit.
pub open spec fn digit_run_end(s: Seq<char>, pos: int) -> int
    decreases s.len() - pos,
{
    if pos < s.len() && is_digit_char(s[pos]) {
        digit_run_end(s, pos + 1)
    } else {
        pos
    }
}

proof fn lemma_digit_run(s: Seq<char>, pos: int)
    requires
        0 <= pos <= s.len(),
    ensures
        pos <= digit_run_end(s, pos) <= s.len(),
        forall|i: int| pos <= i < digit_run_end(s, pos) ==> is_digit_char(#[trigger] s[i]),
        digit_run_end(s, pos) < s.len() ==> !is_digit_char(s[digit_run_end(s, pos)]),
        pos < s.len() && is_digit_char(s[pos]) ==> digit_run_end(s, pos) > pos,
    decreases s.len() - pos,
{
    if pos < s.len() && is_digit_char(s[pos]) {
        lemma_digit_run(s, pos + 1);
    }
}

/// The token starting at `pos`, which must not hold whitespace, and the
/// position right after it. Digit runs are read greedily; a reference
/// takes at most two letters and three digits, the first digit non-zero;
/// an integer literal beyond the range of `i64` fails.
pub open spec fn spec_token_at(s: Seq<char>, pos: int) -> Option<(Token, int)> {
    let c = s[pos];
    if c == '+' || c == '-' || c == '*' || c == '/' {
        Some((Token::Op(c), pos + 1))
    } else if c == '(' || c == ')' {
        Some((Token::Ctrl(c), pos + 1))
    } else if is_digit_char(c) {
        let e = digit_run_end(s, pos);
        if e < s.len() && s[e] == '.' && e + 1 < s.len() && is_digit_char(s[e + 1]) {
            Some((Token::Float, digit_run_end(s, e + 1)))
        } else {
            let v = digits_value(s.subrange(pos, e));
            if v <= i64::MAX {
                Some((Token::Integer(v as i64), e))
            } else {
                None
            }
        }
    } else if is_letter_char(c) {
        let k = if pos + 1 < s.len() && is_letter_char(s[pos + 1]) {
            pos + 2
        } else {
            pos + 1
        };
        if k < s.len() && is_nonzero_digit_char(s[k]) {
            let run = digit_run_end(s, k);
            let e = if run < k + 3 {
                run
            } else {
                k + 3
            };
            Some(
                (
                    Token::Reference(
                        Reference {
                            first: s[pos] as u8,
                            second: if k == pos + 2 {
                                s[pos + 1] as u8
                            } else {
                                0
                            },
                            number: digits_value(s.subrange(k, e)) as u16,
                        },
                    ),
                    e,
                ),
            )
        } else {
            None
        }
    } else {
        None
    }
}

/// Every token production consumes at least one character, and never
/// more than remain: the recursion guard in `spec_lex_tokens` below never
/// rejects an input.
pub proof fn lemma_token_consumes(s: Seq<char>, pos: int)
    requires
        0 <= pos < s.len(),
    ensures
        spec_token_at(s, pos) matches Some((t, e)) ==> pos < e <= s.len(),
{
    lemma_digit_run(s, pos);
    let c = s[pos];
    if is_digit_char(c) {
        let e = digit_run_end(s, pos);
        if e < s.len() && s[e] == '.' && e + 1 < s.len() && is_digit_char(s[e + 1]) {
            lemma_digit_run(s, e + 1);
        }
    } else if is_letter_char(c) {
        let k = if pos + 1 < s.len() && is_letter_char(s[pos + 1]) {
            pos + 2
        } else {
            pos + 1
        };
        if k < s.len() && is_nonzero_digit_char(s[k]) {
            lemma_digit_run(s, k);
        }
    }
}

/// The token stream from `pos` on: whitespace is skipped, then one token
/// is read and the rest lexed after it.
pub open spec fn spec_lex_tokens(s: Seq<char>, pos: int) -> Option<Seq<Token>>
    decreases s.len() - pos,
{
    if pos >= s.len() {
        Some(Seq::empty())
    } else if is_space_char(s[pos]) {
        spec_lex_tokens(s, pos + 1)
    } else {
        match spec_token_at(s, pos) {
            None => None,
            Some((t, e)) => if pos < e <= s.len() {
                match spec_lex_tokens(s, e) {
                    None => None,
                    Some(rest) => Some(seq![t] + rest),
                }
            } else {
                // every token production consumes at least one character;
                // this guard only bounds the recursion
                None
            },
        }
    }
}

/// What a formula text lexes to: it must begin with `=`, and everything
/// after the sigil must consist of tokens and whitespace.
pub open spec fn spec_lex(s: Seq<char>) -> Option<Seq<Token>> {
    if s.len() > 0 && s[0] == '=' {
        spec_lex_tokens(s, 1)
    } else {
        None
    }
}

/// Scans the digit run starting at `pos`.
fn scan_digits(cs: &Vec<char>, pos: usize) -> (e: usize)
    requires
        pos <= cs@.len(),
    ensures
        e == digit_run_end(cs@, pos as int),
        pos <= e <= cs@.len(),
{
    let n = cs.len();
    let mut e = pos;
    while e < n && cs[e] >= '0' && cs[e] <= '9'
        invariant
            pos <= e <= n == cs@.len(),
            digit_run_end(cs@, pos as int) == digit_run_end(cs@, e as int),
        decreases n - e,
    {
        e = e + 1;
    }
    proof {
        lemma_digit_run(cs@, pos as int);
    }
    e
}

/// Reads the decimal value of the digits in `[a, b)`, or nothing if it
/// exceeds the range of `i64`.
fn parse_digits(cs: &Vec<char>, a: usize, b: usize) -> (o: Option<i64>)
    requires
        a <= b <= cs@.len(),
        forall|i: int| a <= i < b ==> is_digit_char(#[trigger] cs@[i]),
    ensures
        (match o {
            Some(v) => v == digits_value(cs@.subrange(a as int, b as int)) && digits_value(
                cs@.subrange(a as int, b as int),
            ) <= i64::MAX,
            None => digits_value(cs@.subrange(a as int, b as int)) > i64::MAX,
        }),
{
    let ghost ds = cs@.subrange(a as int, b as int);
    let mut acc: u64 = 0;
    let mut j: usize = a;
    proof {
        assert(ds.take(0) =~= Seq::<char>::empty());
    }
    while j < b
        invariant
            a <= j <= b <= cs@.len(),
            ds == cs@.subrange(a as int, b as int),
            forall|i: int| a <= i < b ==> is_digit_char(#[trigger] cs@[i]),
            forall|i: int| 0 <= i < ds.len() ==> ds[i] == cs@[i + a],
            all_digits(ds),
            acc == digits_value(ds.take(j - a)),
            acc <= i64::MAX as u64,
        decreases b - j,
    {
        let c = cs[j];
        let d: u64 = (c as u32 - 48) as u64;
        let ghost prefix = ds.take(j + 1 - a);
        proof {
            assert(prefix.drop_last() =~= ds.take(j - a));
            assert(prefix.last() == ds[j - a]);
            assert(digits_value(prefix) == acc * 10 + d);
            assert(all_digits(prefix));
        }
        let grown = match acc.checked_mul(10) {
            Some(t) => t.checked_add(d),
            None => None,
        };
        match grown {
            Some(next) if next <= 9223372036854775807u64 => {
                acc = next;
            },
            _ => {
                proof {
                    assert(digits_value(prefix) > i64::MAX);
                    lemma_digits_value_prefix(ds, j + 1 - a);
                    assert(digits_value(ds) > i64::MAX);
                }
                return None;
            },
        }
        j = j + 1;
    }
    proof {
        assert(ds.take(b - a) =~= ds);
    }
    Some(acc as i64)
}

/// Lexes a formula text. The text must begin with `=`; everything after
/// it must consist of tokens and whitespace, with every integer literal in
/// the range of `i64`.
pub fn lexer(input: &str) -> (r: Result<Vec<Token>, LexError>)
    ensures
        (match r {
            Ok(ts) => spec_lex(input@) == Some(ts@),
            Err(_) => spec_lex(input@) is None,
        }),
{
    let cs = str_to_chars(input);
    let n = cs.len();
    if n == 0 || cs[0] != '=' {
        return Err(LexError);
    }
    let mut tokens: Vec<Token> = Vec::new();
    let mut pos: usize = 1;
    while pos < n
        invariant
            1 <= pos <= n == cs@.len(),
            cs@ == input@,
            cs@.len() > 0 && cs@[0] == '=',
            spec_lex_tokens(cs@, 1) == (match spec_lex_tokens(cs@, pos as int) {
                Some(rest) => Some(tokens@ + rest),
                None => None::<Seq<Token>>,
            }),
        decreases n - pos,
    {
        let c = cs[pos];
        if c == ' ' || c == '\t' || c == '\n' || c == '\r' {
            pos = pos + 1;
            continue ;
        }
        let ghost pos0 = pos as int;
        let token: Token;
        if c == '+' || c == '-' || c == '*' || c == '/' {
            token = Token::Op(c);
            pos = pos + 1;
        } else if c == '(' || c == ')' {
            token = Token::Ctrl(c);
            pos = pos + 1;
        } else if c >= '0' && c <= '9' {
            let e = scan_digits(&cs, pos);
            proof {
                lemma_digit_run(cs@, pos as int);
            }
            if e < n && cs[e] == '.' && e + 1 < n && cs[e + 1] >= '0' && cs[e + 1] <= '9' {
                let e2 = scan_digits(&cs, e + 1);
                proof {
                    lemma_digit_run(cs@, e + 1);
                }
                token = Token::Float;
                pos = e2;
            } else {
                match parse_digits(&cs, pos, e) {
                    Some(v) => {
                        token = Token::Integer(v);
                        pos = e;
                    },
                    None => {
                        return Err(LexError);
                    },
                }
            }
        } else if (c >= 'A' && c <= 'Z') || (c >= 'a' && c <= 'z') {
            let k: usize = if pos + 1 < n && ((cs[pos + 1] >= 'A' && cs[pos + 1] <= 'Z') || (cs[pos
                + 1] >= 'a' && cs[pos + 1] <= 'z')) {
                pos + 2
            } else {
                pos + 1
            };
            if !(k < n && cs[k] >= '1' && cs[k] <= '9') {
                return Err(LexError);
            }
            let run = scan_digits(&cs, k);
            let e = if run - k < 3 {
                run
            } else {
                k + 3
            };
            proof {
                lemma_digit_run(cs@, k as int);
                lemma_digits_value_bound(cs@.subrange(k as int, e as int));
                assert(pow10(0) == 1);
                assert(pow10(1) == 10);
                assert(pow10(2) == 100);
                assert(pow10(3) == 1000);
                assert(cs@.subrange(k as int, e as int).len() <= 3);
            }
            let num = match parse_digits(&cs, k, e) {
                Some(v) => v,
                None => {
                    proof {
                        assert(false);
                    }
                    0
                },
            };
            proof {
                assert(num <= 999);
            }
            token = Token::Reference(
                Reference {
                    first: c as u8,
                    second: if k == pos + 2 {
                        cs[pos + 1] as u8
                    } else {
                        0
                    },
                    number: num as u16,
                },
            );
            pos = e;
        } else {
            return Err(LexError);
        }
        proof {
            assert(spec_token_at(cs@, pos0) == Some((token, pos as int)));
        }
        let ghost tokens0 = tokens@;
        tokens.push(token);
        proof {
            assert(spec_lex_tokens(cs@, pos0) == (match spec_lex_tokens(cs@, pos as int) {
                Some(rest) => Some(seq![token] + rest),
                None => None::<Seq<Token>>,
            }));
            if spec_lex_tokens(cs@, pos as int) is Some {
                let rest = spec_lex_tokens(cs@, pos as int)->Some_0;
                assert(tokens0 + (seq![token] + rest) =~= tokens@ + rest);
            }
        }
    }
    proof {
        assert(spec_lex_tokens(cs@, n as int) == Some(Seq::<Token>::empty()));
        assert(tokens@ + Seq::<Token>::empty() =~= tokens@);
    }
    Ok(tokens)
}

} // verus!
