use rox::ast::{
    comparison, equality, factor, primary, term, unary, ASTExpression, ASTParser, InfixOperation,
    InfixOperator, PrefixOperation, PrefixOperator, Value,
};
use rox::lexer::{Token, TokenKind};

/// A number literal, held as the shortest text of `value`.
fn number(value: f64) -> ASTExpression {
    let text = format!("{}", value);
    assert_eq!(text.parse::<f64>().unwrap(), value);
    ASTExpression::Primary(Value::Number(text))
}

#[test]
fn test_primary_for_nil() {
    let input = vec![Token::new(TokenKind::Nil, "nil".to_string())];
    let (expr, state) = primary().parse(input).unwrap();
    let expected_expr = ASTExpression::Primary(Value::Nil);
    let expected_state = vec![];

    assert_eq!(expr, expected_expr);
    assert_eq!(state, expected_state);
}

#[test]
fn test_primary_for_bool_true() {
    let input = vec![Token::new(TokenKind::True, "true".to_string())];
    let (expr, state) = primary().parse(input).unwrap();
    let expected_expr = ASTExpression::Primary(Value::Bool(true));
    let expected_state = vec![];

    assert_eq!(expr, expected_expr);
    assert_eq!(state, expected_state);
}

#[test]
fn test_primary_for_bool_false() {
    let input = vec![Token::new(TokenKind::False, "false".to_string())];
    let (expr, state) = primary().parse(input).unwrap();
    let expected_expr = ASTExpression::Primary(Value::Bool(false));
    let expected_state = vec![];

    assert_eq!(expr, expected_expr);
    assert_eq!(state, expected_state);
}

#[test]
fn test_primary_for_string() {
    let input = vec![Token::new(TokenKind::Str, "hello world".to_string())];
    let (expr, state) = primary().parse(input).unwrap();
    let expected_expr = ASTExpression::Primary(Value::Str("hello world".to_string()));
    let expected_state = vec![];

    assert_eq!(expr, expected_expr);
    assert_eq!(state, expected_state);
}

#[test]
fn test_primary_for_number() {
    let input = vec![Token::new(TokenKind::Number, "10".to_string())];
    let (expr, state) = primary().parse(input).unwrap();
    let expected_expr = number(10.0);
    let expected_state = vec![];

    assert_eq!(expr, expected_expr);
    assert_eq!(state, expected_state);
}

#[test]
fn test_unary_for_negate_number() {
    let input = vec![
        Token::new(TokenKind::Minus, "-".to_string()),
        Token::new(TokenKind::Number, "5.5".to_string()),
    ];
    let (expr, state) = unary().parse(input).unwrap();
    let expected_expr = ASTExpression::Unary(PrefixOperation {
        op: PrefixOperator::NumberNegate,
        value: Box::new(number(5.5)),
    });
    let expected_state = vec![];

    assert_eq!(expr, expected_expr);
    assert_eq!(state, expected_state);
}

#[test]
fn test_unary_for_nested_negate_numbers() {
    let input = vec![
        Token::new(TokenKind::Minus, "-".to_string()),
        Token::new(TokenKind::Minus, "-".to_string()),
        Token::new(TokenKind::Number, "10".to_string()),
    ];
    let (expr, state) = unary().parse(input).unwrap();
    let expected_expr = ASTExpression::Unary(PrefixOperation {
        op: PrefixOperator::NumberNegate,
        value: Box::new(ASTExpression::Unary(PrefixOperation {
            op: PrefixOperator::NumberNegate,
            value: Box::new(number(10.0)),
        })),
    });
    let expected_state = vec![];

    assert_eq!(expr, expected_expr);
    assert_eq!(state, expected_state);
}

#[test]
fn test_unary_for_negate_boolean() {
    let input = vec![
        Token::new(TokenKind::Bang, "!".to_string()),
        Token::new(TokenKind::True, "true".to_string()),
    ];
    let (expr, state) = unary().parse(input).unwrap();
    let expected_expr = ASTExpression::Unary(PrefixOperation {
        op: PrefixOperator::BoolNegate,
        value: Box::new(ASTExpression::Primary(Value::Bool(true))),
    });
    let expected_state = vec![];

    assert_eq!(expr, expected_expr);
    assert_eq!(state, expected_state);
}

#[test]
fn test_unary_for_nested_negate_booleans() {
    let input = vec![
        Token::new(TokenKind::Bang, "!".to_string()),
        Token::new(TokenKind::Bang, "!".to_string()),
        Token::new(TokenKind::Bang, "!".to_string()),
        Token::new(TokenKind::True, "true".to_string()),
    ];
    let (expr, state) = unary().parse(input).unwrap();
    let expected_expr = ASTExpression::Unary(PrefixOperation {
        op: PrefixOperator::BoolNegate,
        value: Box::new(ASTExpression::Unary(PrefixOperation {
            op: PrefixOperator::BoolNegate,
            value: Box::new(ASTExpression::Unary(PrefixOperation {
                op: PrefixOperator::BoolNegate,
                value: Box::new(ASTExpression::Primary(Value::Bool(true))),
            })),
        })),
    });
    let expected_state = vec![];

    assert_eq!(expr, expected_expr);
    assert_eq!(state, expected_state);
}

#[test]
fn test_factor() {
    let input = vec![
        Token::new(TokenKind::Number, "10".to_string()),
        Token::new(TokenKind::Slash, "/".to_string()),
        Token::new(TokenKind::Number, "2".to_string()),
    ];
    let (expr, state) = factor().parse(input).unwrap();
    let expected_expr = ASTExpression::Factor(InfixOperation {
        lhs: Box::new(number(10.0)),
        op: InfixOperator::Divide,
        rhs: Box::new(number(2.0)),
    });
    let expected_state = vec![];

    assert_eq!(expr, expected_expr);
    assert_eq!(state, expected_state);
}

#[test]
fn test_nested_factors() {
    let input = vec![
        Token::new(TokenKind::Number, "10".to_string()),
        Token::new(TokenKind::Slash, "/".to_string()),
        Token::new(TokenKind::Number, "2".to_string()),
        Token::new(TokenKind::Star, "*".to_string()),
        Token::new(TokenKind::Number, "7".to_string()),
    ];
    let (expr, state) = factor().parse(input).unwrap();
    let expected_expr = ASTExpression::Factor(InfixOperation {
        lhs: Box::new(number(10.0)),
        op: InfixOperator::Divide,
        rhs: Box::new(ASTExpression::Factor(InfixOperation {
            lhs: Box::new(number(2.0)),
            op: InfixOperator::Multiply,
            rhs: Box::new(number(7.0)),
        })),
    });
    let expected_state = vec![];

    assert_eq!(expr, expected_expr);
    assert_eq!(state, expected_state);
}

#[test]
fn test_term() {
    let input = vec![
        Token::new(TokenKind::Number, "8".to_string()),
        Token::new(TokenKind::Plus, "+".to_string()),
        Token::new(TokenKind::Number, "4".to_string()),
    ];
    let (expr, state) = term().parse(input).unwrap();
    let expected_expr = ASTExpression::Term(InfixOperation {
        lhs: Box::new(number(8.0)),
        op: InfixOperator::Add,
        rhs: Box::new(number(4.0)),
    });
    let expected_state = vec![];

    assert_eq!(expr, expected_expr);
    assert_eq!(state, expected_state);
}

#[test]
fn test_nested_terms() {
    let input = vec![
        Token::new(TokenKind::Number, "2".to_string()),
        Token::new(TokenKind::Minus, "-".to_string()),
        Token::new(TokenKind::Number, "5".to_string()),
        Token::new(TokenKind::Minus, "-".to_string()),
        Token::new(TokenKind::Number, "9".to_string()),
    ];
    let (expr, state) = term().parse(input).unwrap();
    let expected_expr = ASTExpression::Term(InfixOperation {
        lhs: Box::new(number(2.0)),
        op: InfixOperator::Substract,
        rhs: Box::new(ASTExpression::Term(InfixOperation {
            lhs: Box::new(number(5.0)),
            op: InfixOperator::Substract,
            rhs: Box::new(number(9.0)),
        })),
    });
    let expected_state = vec![];

    assert_eq!(expr, expected_expr);
    assert_eq!(state, expected_state);
}

#[test]
fn test_comparison() {
    let input = vec![
        Token::new(TokenKind::Number, "8".to_string()),
        Token::new(TokenKind::Greater, ">".to_string()),
        Token::new(TokenKind::Number, "4".to_string()),
    ];
    let (expr, state) = comparison().parse(input).unwrap();
    let expected_expr = ASTExpression::Comparison(InfixOperation {
        lhs: Box::new(number(8.0)),
        op: InfixOperator::GT,
        rhs: Box::new(number(4.0)),
    });
    let expected_state = vec![];

    assert_eq!(expr, expected_expr);
    assert_eq!(state, expected_state);
}

#[test]
fn test_nested_comparisons() {
    let input = vec![
        Token::new(TokenKind::Number, "10".to_string()),
        Token::new(TokenKind::Greater, ">".to_string()),
        Token::new(TokenKind::Number, "5".to_string()),
        Token::new(TokenKind::GreaterEqual, ">=".to_string()),
        Token::new(TokenKind::Number, "15".to_string()),
        Token::new(TokenKind::Less, "<".to_string()),
        Token::new(TokenKind::Number, "8".to_string()),
        Token::new(TokenKind::LessEqual, "<=".to_string()),
        Token::new(TokenKind::Number, "1.05".to_string()),
    ];
    let (expr, state) = comparison().parse(input).unwrap();
    let expected_expr = ASTExpression::Comparison(InfixOperation {
        lhs: Box::new(number(10.0)),
        op: InfixOperator::GT,
        rhs: Box::new(ASTExpression::Comparison(InfixOperation {
            lhs: Box::new(number(5.0)),
            op: InfixOperator::GTE,
            rhs: Box::new(ASTExpression::Comparison(InfixOperation {
                lhs: Box::new(number(15.0)),
                op: InfixOperator::LT,
                rhs: Box::new(ASTExpression::Comparison(InfixOperation {
                    lhs: Box::new(number(8.0)),
                    op: InfixOperator::LTE,
                    rhs: Box::new(number(1.05)),
                })),
            })),
        })),
    });
    let expected_state = vec![];

    assert_eq!(expr, expected_expr);
    assert_eq!(state, expected_state);
}

#[test]
fn test_equality() {
    let input = vec![
        Token::new(TokenKind::Number, "5".to_string()),
        Token::new(TokenKind::DoubleEqual, "==".to_string()),
        Token::new(TokenKind::Number, "2".to_string()),
    ];
    let (expr, state) = equality().parse(input).unwrap();
    let expected_expr = ASTExpression::Equality(InfixOperation {
        lhs: Box::new(number(5.0)),
        op: InfixOperator::EQ,
        rhs: Box::new(number(2.0)),
    });
    let expected_state = vec![];

    assert_eq!(expr, expected_expr);
    assert_eq!(state, expected_state);
}

#[test]
fn test_nested_equalities() {
    let input = vec![
        Token::new(TokenKind::Number, "3".to_string()),
        Token::new(TokenKind::BangEqual, "!=".to_string()),
        Token::new(TokenKind::Number, "5".to_string()),
        Token::new(TokenKind::DoubleEqual, "==".to_string()),
        Token::new(TokenKind::Number, "8".to_string()),
    ];
    let (expr, state) = equality().parse(input).unwrap();
    let expected_expr = ASTExpression::Equality(InfixOperation {
        lhs: Box::new(number(3.0)),
        op: InfixOperator::NEQ,
        rhs: Box::new(ASTExpression::Equality(InfixOperation {
            lhs: Box::new(number(5.0)),
            op: InfixOperator::EQ,
            rhs: Box::new(number(8.0)),
        })),
    });
    let expected_state = vec![];

    assert_eq!(expr, expected_expr);
    assert_eq!(state, expected_state);
}
