use spready::ast::{Expr, Opcode};
use spready::lexer::{lexer, Token};
use spready::parser::parse_formula;
use spready::reference::Reference;
use spready::value::{EvaluationError, Value};

fn r(text: &str) -> Reference {
    Reference::from_str(text).unwrap()
}

#[test]
fn reference_grammar_accepts_valid_addresses() {
    let a1 = r("A1");
    assert_eq!(a1.first, b'A');
    assert_eq!(a1.second, 0);
    assert_eq!(a1.number, 1);
    let ab123 = r("AB123");
    assert_eq!(ab123.first, b'A');
    assert_eq!(ab123.second, b'B');
    assert_eq!(ab123.number, 123);
    assert_eq!(r("z9"), r("z9"));
    assert_eq!(r("Zz999").number, 999);
}

#[test]
fn reference_grammar_is_case_sensitive() {
    assert_ne!(r("A1"), r("a1"));
}

#[test]
fn reference_grammar_rejects_malformed_addresses() {
    for bad in ["", "A", "1A", "A0", "A01", "A1000", "ABC1", "A12345", "A 1", "=A1", "Ä1"] {
        assert!(Reference::from_str(bad).is_err(), "{bad:?} should be rejected");
    }
}

#[test]
fn literal_parser_never_fails() {
    assert_eq!(Value::from_str("12"), Value::Integer(12));
    assert_eq!(Value::from_str("+5"), Value::Integer(5));
    assert_eq!(Value::from_str("-7"), Value::Integer(-7));
    assert_eq!(Value::from_str(""), Value::Empty);
    assert_eq!(Value::from_str(" \t "), Value::Empty);
    assert_eq!(Value::from_str("hello"), Value::Text("hello".to_string()));
    assert_eq!(Value::from_str(" 12 "), Value::Text(" 12 ".to_string()));
    assert_eq!(Value::from_str("1.5"), Value::Text("1.5".to_string()));
}

#[test]
fn literal_parser_covers_the_integer_range() {
    assert_eq!(
        Value::from_str("9223372036854775807"),
        Value::Integer(i64::MAX)
    );
    assert_eq!(
        Value::from_str("-9223372036854775808"),
        Value::Integer(i64::MIN)
    );
    assert_eq!(
        Value::from_str("9223372036854775808"),
        Value::Text("9223372036854775808".to_string())
    );
    assert_eq!(
        Value::from_str("-9223372036854775809"),
        Value::Text("-9223372036854775809".to_string())
    );
}

#[test]
fn lexer_splits_tokens_and_skips_whitespace() {
    assert_eq!(
        lexer("= 1 +2"),
        Ok(vec![Token::Integer(1), Token::Op('+'), Token::Integer(2)])
    );
    assert_eq!(
        lexer("=A1 * 20"),
        Ok(vec![
            Token::Reference(r("A1")),
            Token::Op('*'),
            Token::Integer(20)
        ])
    );
    assert_eq!(
        lexer("=(1)"),
        Ok(vec![
            Token::Ctrl('('),
            Token::Integer(1),
            Token::Ctrl(')')
        ])
    );
    assert_eq!(lexer("=1.5"), Ok(vec![Token::Float]));
    assert_eq!(lexer("="), Ok(vec![]));
}

#[test]
fn lexer_reads_at_most_three_reference_digits() {
    // four digits after the letters: three go to the reference, the rest
    // lex as a separate integer, which the parser then rejects
    assert_eq!(
        lexer("=AB6001"),
        Ok(vec![Token::Reference(r("AB600")), Token::Integer(1)])
    );
    assert!(parse_formula("=AB6001").is_err());
}

#[test]
fn lexer_rejects_unrecognized_input() {
    assert!(lexer("1+2").is_err(), "missing sigil");
    assert!(lexer("=@").is_err());
    assert!(lexer("=1 & 2").is_err());
    assert!(lexer("=A0").is_err(), "reference digits start non-zero");
    assert!(lexer("=9223372036854775808").is_err(), "integer overflow");
}

#[test]
fn parser_builds_trees_by_precedence() {
    assert_eq!(
        parse_formula("=1+2*3"),
        Ok(Expr::Op(
            Box::new(Expr::Literal(1)),
            Opcode::Add,
            Box::new(Expr::Op(
                Box::new(Expr::Literal(2)),
                Opcode::Mul,
                Box::new(Expr::Literal(3))
            ))
        ))
    );
}

#[test]
fn parser_associates_left_to_right() {
    assert_eq!(
        parse_formula("=1-2-3"),
        Ok(Expr::Op(
            Box::new(Expr::Op(
                Box::new(Expr::Literal(1)),
                Opcode::Sub,
                Box::new(Expr::Literal(2))
            )),
            Opcode::Sub,
            Box::new(Expr::Literal(3))
        ))
    );
}

#[test]
fn parser_honours_parentheses() {
    assert_eq!(
        parse_formula("=(1+2)*3"),
        Ok(Expr::Op(
            Box::new(Expr::Op(
                Box::new(Expr::Literal(1)),
                Opcode::Add,
                Box::new(Expr::Literal(2))
            )),
            Opcode::Mul,
            Box::new(Expr::Literal(3))
        ))
    );
}

#[test]
fn parser_accepts_references_as_atoms() {
    assert_eq!(
        parse_formula("=A1/B2"),
        Ok(Expr::Op(
            Box::new(Expr::Reference(r("A1"))),
            Opcode::Div,
            Box::new(Expr::Reference(r("B2")))
        ))
    );
}

#[test]
fn parser_rejects_malformed_formulas() {
    for bad in ["=", "=1+", "=()", "=1 2", "=-5", "=*3", "=(1+2", "=1)", "=1.5"] {
        assert_eq!(
            parse_formula(bad),
            Err(EvaluationError::ParseError),
            "{bad:?} should be rejected"
        );
    }
}

#[test]
fn reparsing_the_same_text_gives_equal_trees() {
    let once = parse_formula("=A1+2*(B2-1)").unwrap();
    let twice = parse_formula("=A1+2*(B2-1)").unwrap();
    assert_eq!(once, twice);
}

#[test]
fn find_references_collapses_duplicates() {
    let expr = parse_formula("=A1+A2*A1").unwrap();
    let refs = expr.find_references();
    assert_eq!(refs.len(), 2);
    assert!(refs.contains(&r("A1")));
    assert!(refs.contains(&r("A2")));
    let none = parse_formula("=1+2").unwrap().find_references();
    assert!(none.is_empty());
}
