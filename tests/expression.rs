use i18n_puzzles::expression::{
    parse, tokenize, Direction, Expression, Operator, ParseError, Token, TokenizeError, LRI, PDI, RLI,
};

fn parse_str(input: &str) -> Expression {
    parse(&tokenize(input).unwrap()).unwrap()
}

#[test]
fn test_tokenize() {
    assert_eq!(
        tokenize(&format!("1+2*(3/4) - {LRI} 567 {RLI} {PDI}")).unwrap(),
        vec![
            Token::Number(1),
            Token::Operator(Operator::Plus),
            Token::Number(2),
            Token::Operator(Operator::Star),
            Token::Paren { open: true },
            Token::Number(3),
            Token::Operator(Operator::Slash),
            Token::Number(4),
            Token::Paren { open: false },
            Token::Operator(Operator::Minus),
            Token::Direction(Some(Direction::Lri)),
            Token::Number(567),
            Token::Direction(Some(Direction::Rli)),
            Token::Direction(None),
        ]
    );
}

#[test]
fn test_parse_base_number() {
    assert_eq!(Expression::Value(123), parse_str("123"));
    assert_eq!(Expression::Value(123), parse_str("\t123"));
    assert_eq!(Expression::Value(123), parse_str("123 "));
    assert_eq!(Expression::Value(123), parse_str("\t 123     "));
    assert_eq!(Expression::Value(123), parse_str("  \t   123   \t  "));
}

#[test]
fn test_parse_group() {
    assert_eq!(Expression::Value(1), parse_str("(1)"));
    assert_eq!(Expression::Value(1), parse_str(" ( 1 ) "));
    assert_eq!(Expression::Value(1), parse_str(" ( ( ( 1 ) ) ) "));
}

#[test]
fn test_parse_operation() {
    assert_eq!(
        Expression::Operation {
            operator: Operator::Plus,
            left: Box::new(Expression::Value(1)),
            right: Box::new(Expression::Value(2)),
        },
        parse_str("1 + 2")
    );
}

#[test]
fn tokenize_reports_byte_offset_of_bad_character() {
    // offsets count bytes: "é" starts no token, and it takes two bytes
    assert_eq!(tokenize("1 é"), Err(TokenizeError { index: 2 }));
    assert_eq!(tokenize("1é x"), Err(TokenizeError { index: 1 }));
    assert_eq!(tokenize("12 + x"), Err(TokenizeError { index: 5 }));
}

#[test]
fn tokenize_empty_and_blank_input() {
    assert_eq!(tokenize(""), Ok(vec![]));
    assert_eq!(tokenize(" \t "), Ok(vec![]));
}

#[test]
fn additive_operators_bind_tighter_than_multiplicative() {
    let expected = Expression::Operation {
        operator: Operator::Star,
        left: Box::new(Expression::Operation {
            operator: Operator::Plus,
            left: Box::new(Expression::Value(1)),
            right: Box::new(Expression::Value(2)),
        }),
        right: Box::new(Expression::Value(3)),
    };
    assert_eq!(parse_str("1 + 2 * 3"), expected);
}

#[test]
fn parse_errors() {
    assert_eq!(parse(&tokenize("").unwrap()), Err(ParseError::ExpectedValue));
    assert_eq!(parse(&tokenize("(1").unwrap()), Err(ParseError::ExpectedClosingParen));
    assert_eq!(parse(&tokenize(&format!("{PDI}1")).unwrap()), Err(ParseError::ExpectedDirection));
    assert_eq!(parse(&tokenize(&format!("{LRI}1)")).unwrap()), Err(ParseError::ExpectedIsolateEnd));
}

#[test]
fn isolate_without_end_runs_to_end_of_input() {
    let expected = Expression::Direction {
        direction: Direction::Rli,
        inner: Box::new(Expression::Value(7)),
    };
    assert_eq!(parse_str(&format!("{RLI}7")), expected);
}

#[test]
fn factoring_swaps_operands_inside_right_to_left_isolates() {
    let e = parse_str(&format!("{RLI}1 - 2{PDI}"));
    let expected = Expression::Operation {
        operator: Operator::Minus,
        left: Box::new(Expression::Value(2)),
        right: Box::new(Expression::Value(1)),
    };
    assert_eq!(e.factor_direction_changes(), expected);

    let nested = parse_str(&format!("{RLI}1 - {LRI}2 - 3{PDI}{PDI}"));
    let expected = Expression::Operation {
        operator: Operator::Minus,
        left: Box::new(Expression::Operation {
            operator: Operator::Minus,
            left: Box::new(Expression::Value(2)),
            right: Box::new(Expression::Value(3)),
        }),
        right: Box::new(Expression::Value(1)),
    };
    assert_eq!(nested.factor_direction_changes(), expected);

    let plain = parse_str("4 / 5");
    assert_eq!(plain.factor_direction_changes(), parse_str("4 / 5"));
}
