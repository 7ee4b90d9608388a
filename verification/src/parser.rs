//! The formula parser: a precedence-climbing recursive descent over the
//! token stream. Grammar, precedence low to high:
//!
//! ```text
//! sum     := product (('+'|'-') product)*
//! product := atom (('*'|'/') atom)*
//! atom    := integer | reference | '(' sum ')'
//! ```
//!
//! Operators of equal precedence associate left to right. The parser is
//! stateless and reentrant.

use vstd::prelude::*;
use crate::ast::{Expr, Opcode};
use crate::lexer::{lexer, spec_lex, Token};
use crate::value::EvaluationError;

verus! {

/// The token stream did not match the grammar.
#[derive(Debug, Clone, Copy, PartialEq, Eq, Structural)]
pub struct ParseError;

/// The atom starting at `pos` and the position right after it: an integer
/// literal, a reference, or a parenthesized sum. A float literal is
/// rejected, as the engine stores no floating-point values.
pub open spec fn spec_atom(ts: Seq<Token>, pos: int) -> Option<(Expr, int)>
    decreases ts.len() - pos, 0int,
{
    if 0 <= pos < ts.len() {
        match ts[pos] {
            Token::Integer(n) => Some((Expr::Literal(n), pos + 1)),
            Token::Reference(r) => Some((Expr::Reference(r), pos + 1)),
            Token::Ctrl(c) => if c == '(' {
                match spec_sum(ts, pos + 1) {
                    Some((e, p2)) => if p2 < ts.len() && ts[p2] == Token::Ctrl(')') {
                        Some((e, p2 + 1))
                    } else {
                        None
                    },
                    None => None,
                }
            } else {
                None
            },
            _ => None,
        }
    } else {
        None
    }
}

/// Left-folds `('*'|'/') atom` steps onto `acc`.
pub open spec fn spec_product_rest(acc: Expr, ts: Seq<Token>, pos: int) -> Option<(Expr, int)>
    decreases ts.len() - pos, 1int,
{
    if 0 <= pos < ts.len() && (ts[pos] == Token::Op('*') || ts[pos] == Token::Op('/')) {
        let o = if ts[pos] == Token::Op('*') {
            Opcode::Mul
        } else {
            Opcode::Div
        };
        match spec_atom(ts, pos + 1) {
            Some((e2, p2)) => if pos < p2 <= ts.len() {
                spec_product_rest(Expr::Op(Box::new(acc), o, Box::new(e2)), ts, p2)
            } else {
                // an atom consumes at least one token; this guard only
                // bounds the recursion
                None
            },
            None => None,
        }
    } else {
        Some((acc, pos))
    }
}

pub open spec fn spec_product(ts: Seq<Token>, pos: int) -> Option<(Expr, int)>
    decreases ts.len() - pos, 2int,
{
    match spec_atom(ts, pos) {
        Some((e, p)) => if pos < p <= ts.len() {
            spec_product_rest(e, ts, p)
        } else {
            None
        },
        None => None,
    }
}

/// Left-folds `('+'|'-') product` steps onto `acc`.
pub open spec fn spec_sum_rest(acc: Expr, ts: Seq<Token>, pos: int) -> Option<(Expr, int)>
    decreases ts.len() - pos, 3int,
{
    if 0 <= pos < ts.len() && (ts[pos] == Token::Op('+') || ts[pos] == Token::Op('-')) {
        let o = if ts[pos] == Token::Op('+') {
            Opcode::Add
        } else {
            Opcode::Sub
        };
        match spec_product(ts, pos + 1) {
            Some((e2, p2)) => if pos < p2 <= ts.len() {
                spec_sum_rest(Expr::Op(Box::new(acc), o, Box::new(e2)), ts, p2)
            } else {
                None
            },
            None => None,
        }
    } else {
        Some((acc, pos))
    }
}

pub open spec fn spec_sum(ts: Seq<Token>, pos: int) -> Option<(Expr, int)>
    decreases ts.len() - pos, 4int,
{
    match spec_product(ts, pos) {
        Some((e, p)) => if pos < p <= ts.len() {
            spec_sum_rest(e, ts, p)
        } else {
            None
        },
        None => None,
    }
}

/// What a token stream parses to: a sum that consumes every token.
pub open spec fn spec_parse(ts: Seq<Token>) -> Option<Expr> {
    match spec_sum(ts, 0) {
        Some((e, p)) => if p == ts.len() {
            Some(e)
        } else {
            None
        },
        None => None,
    }
}

/// What a formula text parses to: its token stream, parsed in full.
pub open spec fn spec_parse_formula(s: Seq<char>) -> Option<Expr> {
    match spec_lex(s) {
        Some(ts) => spec_parse(ts),
        None => None,
    }
}

fn parse_atom(tokens: &Vec<Token>, pos: usize) -> (r: Option<(Expr, usize)>)
    requires
        pos <= tokens@.len(),
    ensures
        (match r {
            Some((e, p)) => spec_atom(tokens@, pos as int) == Some((e, p as int)) && pos < p
                <= tokens@.len(),
            None => spec_atom(tokens@, pos as int) is None,
        }),
    decreases tokens@.len() - pos, 0int,
{
    if pos >= tokens.len() {
        return None;
    }
    let t = tokens[pos];
    match t {
        Token::Integer(n) => Some((Expr::Literal(n), pos + 1)),
        Token::Reference(r) => Some((Expr::Reference(r), pos + 1)),
        Token::Ctrl(c) => {
            if c == '(' {
                match parse_sum(tokens, pos + 1) {
                    Some((e, p2)) => {
                        if p2 < tokens.len() && tokens[p2] == Token::Ctrl(')') {
                            Some((e, p2 + 1))
                        } else {
                            None
                        }
                    },
                    None => None,
                }
            } else {
                None
            }
        },
        _ => None,
    }
}

fn parse_product(tokens: &Vec<Token>, pos: usize) -> (r: Option<(Expr, usize)>)
    requires
        pos <= tokens@.len(),
    ensures
        (match r {
            Some((e, p)) => spec_product(tokens@, pos as int) == Some((e, p as int)) && pos < p
                <= tokens@.len(),
            None => spec_product(tokens@, pos as int) is None,
        }),
    decreases tokens@.len() - pos, 2int,
{
    let (first, p1) = match parse_atom(tokens, pos) {
        Some(x) => x,
        None => {
            return None;
        },
    };
    let mut acc = first;
    let mut p = p1;
    while p < tokens.len() && (tokens[p] == Token::Op('*') || tokens[p] == Token::Op('/'))
        invariant
            pos < p <= tokens@.len(),
            spec_product(tokens@, pos as int) == spec_product_rest(acc, tokens@, p as int),
        decreases tokens@.len() - p,
    {
        let o = if tokens[p] == Token::Op('*') {
            Opcode::Mul
        } else {
            Opcode::Div
        };
        match parse_atom(tokens, p + 1) {
            Some((e2, p2)) => {
                acc = Expr::Op(Box::new(acc), o, Box::new(e2));
                p = p2;
            },
            None => {
                return None;
            },
        }
    }
    Some((acc, p))
}

fn parse_sum(tokens: &Vec<Token>, pos: usize) -> (r: Option<(Expr, usize)>)
    requires
        pos <= tokens@.len(),
    ensures
        (match r {
            Some((e, p)) => spec_sum(tokens@, pos as int) == Some((e, p as int)) && pos < p
                <= tokens@.len(),
            None => spec_sum(tokens@, pos as int) is None,
        }),
    decreases tokens@.len() - pos, 4int,
{
    let (first, p1) = match parse_product(tokens, pos) {
        Some(x) => x,
        None => {
            return None;
        },
    };
    let mut acc = first;
    let mut p = p1;
    while p < tokens.len() && (tokens[p] == Token::Op('+') || tokens[p] == Token::Op('-'))
        invariant
            pos < p <= tokens@.len(),
            spec_sum(tokens@, pos as int) == spec_sum_rest(acc, tokens@, p as int),
        decreases tokens@.len() - p,
    {
        let o = if tokens[p] == Token::Op('+') {
            Opcode::Add
        } else {
            Opcode::Sub
        };
        match parse_product(tokens, p + 1) {
            Some((e2, p2)) => {
                acc = Expr::Op(Box::new(acc), o, Box::new(e2));
                p = p2;
            },
            None => {
                return None;
            },
        }
    }
    Some((acc, p))
}

/// Parses a full token stream into an expression tree. A trailing token
/// after the parse, or an atom that is none of integer, reference or `(`,
/// fails.
pub fn parse(tokens: &Vec<Token>) -> (r: Result<Expr, ParseError>)
    ensures
        (match r {
            Ok(e) => spec_parse(tokens@) == Some(e),
            Err(_) => spec_parse(tokens@) is None,
        }),
{
    match parse_sum(tokens, 0) {
        Some((e, p)) => {
            if p == tokens.len() {
                Ok(e)
            } else {
                Err(ParseError)
            }
        },
        None => Err(ParseError),
    }
}


/// Every atom consumes at least one token, and never more than remain:
/// with the lemmas below this shows that the recursion guards in the
/// grammar definitions never reject a parse.
pub proof fn lemma_atom_consumes(ts: Seq<Token>, pos: int)
    ensures
        spec_atom(ts, pos) matches Some((e, p)) ==> pos < p <= ts.len(),
    decreases ts.len() - pos, 0int,
{
    if 0 <= pos < ts.len() {
        match ts[pos] {
            Token::Ctrl(c) => {
                if c == '(' {
                    lemma_sum_consumes(ts, pos + 1);
                }
            },
            _ => {},
        }
    }
}

pub proof fn lemma_product_rest_consumes(acc: Expr, ts: Seq<Token>, pos: int)
    ensures
        spec_product_rest(acc, ts, pos) matches Some((e, p)) ==> pos <= p <= ts.len() || !(0 <= pos
            <= ts.len()),
    decreases ts.len() - pos, 1int,
{
    if 0 <= pos < ts.len() && (ts[pos] == Token::Op('*') || ts[pos] == Token::Op('/')) {
        let o = if ts[pos] == Token::Op('*') {
            Opcode::Mul
        } else {
            Opcode::Div
        };
        lemma_atom_consumes(ts, pos + 1);
        match spec_atom(ts, pos + 1) {
            Some((e2, p2)) => {
                if pos < p2 <= ts.len() {
                    lemma_product_rest_consumes(Expr::Op(Box::new(acc), o, Box::new(e2)), ts, p2);
                }
            },
            None => {},
        }
    }
}

pub proof fn lemma_product_consumes(ts: Seq<Token>, pos: int)
    ensures
        spec_product(ts, pos) matches Some((e, p)) ==> pos < p <= ts.len(),
    decreases ts.len() - pos, 2int,
{
    lemma_atom_consumes(ts, pos);
    match spec_atom(ts, pos) {
        Some((e, p)) => {
            if pos < p <= ts.len() {
                lemma_product_rest_consumes(e, ts, p);
            }
        },
        None => {},
    }
}

pub proof fn lemma_sum_rest_consumes(acc: Expr, ts: Seq<Token>, pos: int)
    ensures
        spec_sum_rest(acc, ts, pos) matches Some((e, p)) ==> pos <= p <= ts.len() || !(0 <= pos
            <= ts.len()),
    decreases ts.len() - pos, 3int,
{
    if 0 <= pos < ts.len() && (ts[pos] == Token::Op('+') || ts[pos] == Token::Op('-')) {
        let o = if ts[pos] == Token::Op('+') {
            Opcode::Add
        } else {
            Opcode::Sub
        };
        lemma_product_consumes(ts, pos + 1);
        match spec_product(ts, pos + 1) {
            Some((e2, p2)) => {
                if pos < p2 <= ts.len() {
                    lemma_sum_rest_consumes(Expr::Op(Box::new(acc), o, Box::new(e2)), ts, p2);
                }
            },
            None => {},
        }
    }
}

pub proof fn lemma_sum_consumes(ts: Seq<Token>, pos: int)
    ensures
        spec_sum(ts, pos) matches Some((e, p)) ==> pos < p <= ts.len(),
    decreases ts.len() - pos, 4int,
{
    lemma_product_consumes(ts, pos);
    match spec_product(ts, pos) {
        Some((e, p)) => {
            if pos < p <= ts.len() {
                lemma_sum_rest_consumes(e, ts, p);
            }
        },
        None => {},
    }
}

/// Any two successful parses of the same text yield structurally equal
/// trees: `parse_formula` always returns `spec_parse_formula` of its
/// input, a function of the text alone.
pub proof fn lemma_parse_deterministic(s: Seq<char>, e1: Expr, e2: Expr)
    requires
        spec_parse_formula(s) == Some(e1),
        spec_parse_formula(s) == Some(e2),
    ensures
        e1 == e2,
{
}

/// Lexes and parses a formula text in one step, as entered into a cell.
pub fn parse_formula(input: &str) -> (r: Result<Expr, EvaluationError>)
    ensures
        (match r {
            Ok(e) => spec_parse_formula(input@) == Some(e),
            Err(err) => spec_parse_formula(input@) is None && err == EvaluationError::ParseError,
        }),
{
    let tokens = match lexer(input) {
        Ok(ts) => ts,
        Err(_) => {
            return Err(EvaluationError::ParseError);
        },
    };
    match parse(&tokens) {
        Ok(e) => Ok(e),
        Err(_) => Err(EvaluationError::ParseError),
    }
}

} // verus!
