use rox::ast::{
    expression, parse_from, parse_level, primary, term, ASTExpression, ASTParseError, ASTParser,
    InfixOperation, InfixOperator, Level, Value,
};
use rox::combinators::{
    bracket, char, many0, many1, next, or, ParseError, ParseState, ParseStateBuilder, Parser,
};
use rox::lexer::{identifier_or_keyword, number, scan_tokens, string, Token, TokenKind};

fn state_parts(s: &ParseState) -> (String, usize, usize) {
    (s.source.iter().collect::<String>(), s.line, s.position)
}

fn tok(kind: TokenKind, lexeme: &str) -> Token {
    Token::new(kind, lexeme.to_string())
}

fn num(text: &str) -> ASTExpression {
    ASTExpression::Primary(Value::Number(text.to_string()))
}

#[test]
fn test_parse_error_messages() {
    assert_eq!(ParseError::CannotGetNext.message(), "cannot get next character");
    assert_eq!(ParseError::PredicateFailed.message(), "predicate failed");
    assert_eq!(ParseError::NoneParserMatched.message(), "none of parsers matched");
    assert_eq!(
        ParseError::ChainFailed(Box::new(ParseError::ChainFailed(Box::new(
            ParseError::PredicateFailed
        ))))
        .message(),
        "chain failed by: chain failed by: predicate failed"
    );
}

#[test]
fn test_ast_parse_error_messages() {
    let cases = vec![
        (ASTParseError::NoTokensLeft, "No more tokens left"),
        (ASTParseError::PredicateFailed, "Predicate failed"),
        (ASTParseError::NoneParserMatched, "None parser matched"),
        (ASTParseError::UnrecognizedUnaryOperator, "Unrecognized unary operator"),
        (ASTParseError::UnrecognizedFactorInfixOperator, "Unrecognized factor infix operator"),
        (ASTParseError::UnrecognizedTermInfixOperator, "Unrecognized term infix operator"),
        (
            ASTParseError::UnrecognizedComparisonInfixOperator,
            "Unrecognized comparison infix operator",
        ),
        (
            ASTParseError::UnrecognizedEqualityInfixOperator,
            "Unrecognized equality infix operator",
        ),
    ];
    for (err, text) in cases {
        assert_eq!(err.message(), text);
    }
}

#[test]
fn test_or_takes_first_match() {
    let input = ParseStateBuilder::default().source("bcd").build();
    let (parsed, state) = or(vec![char('a'), char('b'), next()]).parse(input).unwrap();
    assert_eq!(parsed, 'b');
    assert_eq!(state_parts(&state), ("cd".to_string(), 1, 1));
}

#[test]
fn test_or_fails_when_none_matches() {
    let input = ParseStateBuilder::default().source("xyz").build();
    let result = or(vec![char('a'), char('b')]).parse(input);
    assert_eq!(result.err(), Some(ParseError::NoneParserMatched));
}

#[test]
fn test_many0_accepts_nothing() {
    let input = ParseStateBuilder::default().source("bbb").line(3).position(7).build();
    let (parsed, state) = many0(char('a')).parse(input).unwrap();
    assert!(parsed.is_empty());
    assert_eq!(state_parts(&state), ("bbb".to_string(), 3, 7));
}

#[test]
fn test_many1_fails_with_error_of_first_attempt() {
    let input = ParseStateBuilder::default().source("b").build();
    assert_eq!(many1(char('a')).parse(input).err(), Some(ParseError::PredicateFailed));
    let input = ParseStateBuilder::default().source("").build();
    assert_eq!(many1(char('a')).parse(input).err(), Some(ParseError::CannotGetNext));
}

#[test]
fn test_many1_stops_at_first_failure() {
    let input = ParseStateBuilder::default().source("aaab").build();
    let (parsed, state) = many1(char('a')).parse(input).unwrap();
    assert_eq!(parsed, vec!['a', 'a', 'a']);
    assert_eq!(state_parts(&state), ("b".to_string(), 1, 3));
}

#[test]
fn test_bracket() {
    let input = ParseStateBuilder::default().source("(x)!").build();
    let (parsed, state) = bracket(char('('), next(), char(')')).parse(input).unwrap();
    assert_eq!(parsed, 'x');
    assert_eq!(state_parts(&state), ("!".to_string(), 1, 3));

    let input = ParseStateBuilder::default().source("(x").build();
    let result = bracket(char('('), next(), char(')')).parse(input);
    assert_eq!(result.err(), Some(ParseError::CannotGetNext));

    let input = ParseStateBuilder::default().source("[x]").build();
    let result = bracket(char('('), next(), char(')')).parse(input);
    assert_eq!(result.err(), Some(ParseError::PredicateFailed));
}

#[test]
fn test_position_counts_bytes() {
    let input = ParseStateBuilder::default().source("aé€😀z").build();
    let (parsed, state) = many1(next()).parse(input).unwrap();
    assert_eq!(parsed, vec!['a', 'é', '€', '😀', 'z']);
    assert_eq!(state_parts(&state), (String::new(), 1, 1 + 2 + 3 + 4 + 1));
}

#[test]
fn test_string_without_closing_quote() {
    let input = ParseStateBuilder::default().source("\"abc").build();
    assert_eq!(string().parse(input).err(), Some(ParseError::CannotGetNext));
}

#[test]
fn test_number_with_leading_zero() {
    let input = ParseStateBuilder::default().source("0123").build();
    let (parsed, state) = number().parse(input).unwrap();
    assert_eq!(
        parsed,
        Token { kind: TokenKind::Number, lexeme: "0".to_string(), line: 1, position: 1 }
    );
    assert_eq!(state_parts(&state), ("123".to_string(), 1, 1));
}

#[test]
fn test_number_single_digit_before_dot() {
    let input = ParseStateBuilder::default().source("5.5").build();
    let (parsed, state) = number().parse(input).unwrap();
    assert_eq!(parsed.lexeme, "5");
    assert_eq!(state_parts(&state), (".5".to_string(), 1, 1));
}

#[test]
fn test_keyword_prefix_makes_identifier() {
    let input = ParseStateBuilder::default().source("whiles or").build();
    let (parsed, state) = identifier_or_keyword().parse(input).unwrap();
    assert_eq!(parsed.kind, TokenKind::Identifier);
    assert_eq!(parsed.lexeme, "whiles");
    assert_eq!(state_parts(&state), (" or".to_string(), 1, 6));
}

#[test]
fn test_scan_tokens_program() {
    let input = ParseStateBuilder::default().source("var x = 10;\nprint x;").build();
    let (tokens, state) = scan_tokens().parse(input).unwrap();
    let expected = vec![
        Token { kind: TokenKind::Var, lexeme: "var".to_string(), line: 1, position: 4 },
        Token { kind: TokenKind::Identifier, lexeme: "x".to_string(), line: 1, position: 3 },
        Token { kind: TokenKind::Equal, lexeme: "=".to_string(), line: 1, position: 3 },
        // Words are tried before numbers, and a word may hold digits.
        Token { kind: TokenKind::Identifier, lexeme: "10".to_string(), line: 1, position: 4 },
        Token { kind: TokenKind::Semicolon, lexeme: ";".to_string(), line: 1, position: 2 },
        Token { kind: TokenKind::Print, lexeme: "print".to_string(), line: 2, position: 6 },
        Token { kind: TokenKind::Identifier, lexeme: "x".to_string(), line: 2, position: 3 },
        Token { kind: TokenKind::Semicolon, lexeme: ";".to_string(), line: 2, position: 2 },
    ];
    assert_eq!(tokens, expected);
    assert_eq!(state_parts(&state), (String::new(), 2, 2));
}

#[test]
fn test_scan_tokens_of_nothing() {
    let input = ParseStateBuilder::default().source("").build();
    assert_eq!(scan_tokens().parse(input).err(), Some(ParseError::NoneParserMatched));
}

#[test]
fn test_empty_tokens() {
    assert_eq!(primary().parse(vec![]).err(), Some(ASTParseError::NoTokensLeft));
    assert_eq!(expression().parse(vec![]).err(), Some(ASTParseError::NoneParserMatched));
}

#[test]
fn test_terms_nest_to_the_right() {
    let input = vec![
        tok(TokenKind::Number, "1"),
        tok(TokenKind::Minus, "-"),
        tok(TokenKind::Number, "2"),
        tok(TokenKind::Minus, "-"),
        tok(TokenKind::Number, "3"),
    ];
    let (expr, rest) = term().parse(input).unwrap();
    let expected = ASTExpression::Term(InfixOperation {
        lhs: Box::new(num("1")),
        op: InfixOperator::Substract,
        rhs: Box::new(ASTExpression::Term(InfixOperation {
            lhs: Box::new(num("2")),
            op: InfixOperator::Substract,
            rhs: Box::new(num("3")),
        })),
    });
    assert_eq!(expr, expected);
    assert!(rest.is_empty());
}

#[test]
fn test_expression_leaves_the_rest() {
    let input = vec![
        tok(TokenKind::Number, "1"),
        tok(TokenKind::Plus, "+"),
        tok(TokenKind::Number, "2"),
        tok(TokenKind::RightParen, ")"),
    ];
    let (expr, rest) = expression().parse(input).unwrap();
    let expected = ASTExpression::Term(InfixOperation {
        lhs: Box::new(num("1")),
        op: InfixOperator::Add,
        rhs: Box::new(num("2")),
    });
    assert_eq!(expr, expected);
    assert_eq!(rest, vec![tok(TokenKind::RightParen, ")")]);
}

#[test]
fn test_misused_negation_stops() {
    let input = vec![tok(TokenKind::Minus, "-"), tok(TokenKind::Str, "a")];
    assert!(parse_from(Level::Unary, &input).is_none());
    assert!(parse_from(Level::Equality, &input).is_none());
    let input = vec![tok(TokenKind::Bang, "!"), tok(TokenKind::Number, "1")];
    assert!(parse_level(Level::Unary, input).is_none());
}

#[test]
fn test_level_alone_and_levels_in_turn() {
    let input = vec![tok(TokenKind::Number, "5")];
    assert_eq!(
        parse_level(Level::Factor, vec![tok(TokenKind::Number, "5")]),
        Some(Err(ASTParseError::NoTokensLeft))
    );
    assert_eq!(parse_from(Level::Factor, &input), Some(Ok((num("5"), vec![]))));
}
