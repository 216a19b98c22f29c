use rox::combinators::{many1, ParseState, ParseStateBuilder, Parser};
use rox::lexer::{
    identifier_or_keyword, lexeme_to_token_kind, linebreaks, number, paired_chars, single_char,
    string, whitespaces, Token, TokenKind,
};

fn compare_states(s1: ParseState, s2: ParseState) -> bool {
    s1.source.iter().collect::<String>() == s2.source.iter().collect::<String>()
        && s1.line == s2.line
        && s1.position == s2.position
}

#[test]
fn test_single_char() {
    let source = "(){},.-+;/*.";
    let input = ParseStateBuilder::default().source(source).build();
    let result = many1(single_char()).parse(input);
    let expected_parsed = source
        .char_indices()
        .map(|(i, ch)| Token {
            kind: lexeme_to_token_kind(ch.to_string().as_str()).unwrap(),
            lexeme: ch.to_string(),
            position: i + 1,
            line: 1,
        })
        .collect::<Vec<Token>>();
    let expected_state = ParseStateBuilder::default()
        .source("")
        .position(source.len())
        .build();

    assert!(result.is_ok_and(
        |(parsed, state)| parsed == expected_parsed && compare_states(state, expected_state)
    ))
}

#[test]
fn test_two_or_single_char() {
    let source = "!><!===>=<==";
    let input = ParseStateBuilder::default().source(source).build();
    let result = many1(paired_chars()).parse(input);
    let expected_parsed = vec![
        Token {
            kind: TokenKind::Bang,
            lexeme: "!".to_string(),
            position: 1,
            line: 1,
        },
        Token {
            kind: TokenKind::Greater,
            lexeme: ">".to_string(),
            position: 2,
            line: 1,
        },
        Token {
            kind: TokenKind::Less,
            lexeme: "<".to_string(),
            position: 3,
            line: 1,
        },
        Token {
            kind: TokenKind::BangEqual,
            lexeme: "!=".to_string(),
            position: 5,
            line: 1,
        },
        Token {
            kind: TokenKind::DoubleEqual,
            lexeme: "==".to_string(),
            position: 7,
            line: 1,
        },
        Token {
            kind: TokenKind::GreaterEqual,
            lexeme: ">=".to_string(),
            position: 9,
            line: 1,
        },
        Token {
            kind: TokenKind::LessEqual,
            lexeme: "<=".to_string(),
            position: 11,
            line: 1,
        },
        Token {
            kind: TokenKind::Equal,
            lexeme: "=".to_string(),
            position: 12,
            line: 1,
        },
    ];
    let expected_state = ParseStateBuilder::default()
        .source("")
        .position(source.len())
        .build();

    assert!(result.is_ok_and(|(parsed, state)| {
        parsed == expected_parsed && compare_states(state, expected_state)
    }))
}

#[test]
fn test_whitespaces() {
    let source = " \r\t ";
    let input = ParseStateBuilder::default().source(source).build();
    let result = whitespaces().parse(input);
    let expected_parsed = ();
    let expected_state = ParseStateBuilder::default()
        .source("")
        .position(source.len())
        .build();

    assert!(result.is_ok_and(|(parsed, state)| {
        parsed == expected_parsed && compare_states(state, expected_state)
    }))
}

#[test]
fn test_linebreaks() {
    let source = "\n\n\n";
    let input = ParseStateBuilder::default().source(source).build();
    let (parsed, state) = linebreaks().parse(input).unwrap();
    let expected_parsed = ();
    let expected_state = ParseStateBuilder::default()
        .source("")
        .position(1)
        .line(4)
        .build();

    assert_eq!(parsed, expected_parsed);
    assert!(compare_states(state, expected_state))
}

#[test]
fn test_string() {
    let source = "\"Hello world\"";
    let input = ParseStateBuilder::default().source(source).build();
    let (parsed, state) = string().parse(input).unwrap();
    let expected_parsed = Token {
        kind: TokenKind::Str,
        lexeme: "Hello world".to_string(),
        position: source.len(),
        line: 1,
    };
    let expected_state = ParseStateBuilder::default()
        .source("")
        .position(source.len())
        .build();

    assert_eq!(parsed, expected_parsed);
    assert!(compare_states(state, expected_state))
}

#[test]
fn test_number_zero() {
    let source = "0";
    let input = ParseStateBuilder::default().source(source).build();
    let (parsed, state) = number().parse(input).unwrap();
    let expected_parsed = Token {
        kind: TokenKind::Number,
        lexeme: "0".to_string(),
        position: source.len(),
        line: 1,
    };
    let expected_state = ParseStateBuilder::default()
        .source("")
        .position(source.len())
        .build();

    assert_eq!(parsed, expected_parsed);
    assert!(compare_states(state, expected_state))
}

#[test]
fn test_number_digit() {
    let source = "5";
    let input = ParseStateBuilder::default().source(source).build();
    let (parsed, state) = number().parse(input).unwrap();
    let expected_parsed = Token {
        kind: TokenKind::Number,
        lexeme: "5".to_string(),
        position: source.len(),
        line: 1,
    };
    let expected_state = ParseStateBuilder::default()
        .source("")
        .position(source.len())
        .build();

    assert_eq!(parsed, expected_parsed);
    assert!(compare_states(state, expected_state))
}

#[test]
fn test_number_integer() {
    let source = "5259";
    let input = ParseStateBuilder::default().source(source).build();
    let (parsed, state) = number().parse(input).unwrap();
    let expected_parsed = Token {
        kind: TokenKind::Number,
        lexeme: "5259".to_string(),
        position: source.len(),
        line: 1,
    };
    let expected_state = ParseStateBuilder::default()
        .source("")
        .position(source.len())
        .build();

    assert_eq!(parsed, expected_parsed);
    assert!(compare_states(state, expected_state))
}

#[test]
fn test_number_float() {
    let source = "5259.07";
    let input = ParseStateBuilder::default().source(source).build();
    let (parsed, state) = number().parse(input).unwrap();
    let expected_parsed = Token {
        kind: TokenKind::Number,
        lexeme: "5259.07".to_string(),
        position: source.len(),
        line: 1,
    };
    let expected_state = ParseStateBuilder::default()
        .source("")
        .position(source.len())
        .build();

    assert_eq!(parsed, expected_parsed);
    assert!(compare_states(state, expected_state))
}

#[test]
fn test_number_integer_with_incomplete_float() {
    let source = "5259.";
    let input = ParseStateBuilder::default().source(source).build();
    let (parsed, state) = number().parse(input).unwrap();
    let expected_number = "5259".to_string();
    let expected_parsed = Token {
        kind: TokenKind::Number,
        position: expected_number.len(),
        lexeme: expected_number,
        line: 1,
    };
    let expected_state = ParseStateBuilder::default()
        .source(".")
        .position(expected_parsed.lexeme.len())
        .build();

    assert_eq!(parsed, expected_parsed);
    assert!(compare_states(state, expected_state))
}

#[test]
fn test_identifier_or_keyword_for_keyword() {
    let source = "while";
    let input = ParseStateBuilder::default().source(source).build();
    let (parsed, state) = identifier_or_keyword().parse(input).unwrap();
    let expected_keyword = Token {
        kind: TokenKind::While,
        lexeme: source.to_string(),
        position: source.len(),
        line: 1,
    };
    let expected_state = ParseStateBuilder::default()
        .source("")
        .position(source.len())
        .build();

    assert_eq!(parsed, expected_keyword);
    assert!(compare_states(state, expected_state));
}

#[test]
fn test_identifier_or_keyword_for_identifier() {
    let source = "my_var1";
    let input = ParseStateBuilder::default().source(source).build();
    let (parsed, state) = identifier_or_keyword().parse(input).unwrap();
    let expected_identifier = Token {
        kind: TokenKind::Identifier,
        lexeme: source.to_string(),
        position: source.len(),
        line: 1,
    };
    let expected_state = ParseStateBuilder::default()
        .source("")
        .position(source.len())
        .build();

    assert_eq!(parsed, expected_identifier);
    assert!(compare_states(state, expected_state));
}
