use rox::combinators::{
    chain, next, satisfy, CharPredicate, ParseError, ParseState, ParseStateBuilder, Parser,
};

struct Uppercase;

impl CharPredicate for Uppercase {
    fn spec_test(&self, c: char) -> bool {
        c.is_uppercase()
    }

    fn test(&self, c: char) -> bool {
        c.is_uppercase()
    }
}

struct Lowercase;

impl CharPredicate for Lowercase {
    fn spec_test(&self, c: char) -> bool {
        c.is_lowercase()
    }

    fn test(&self, c: char) -> bool {
        c.is_lowercase()
    }
}

fn compare_states(s1: ParseState, s2: ParseState) -> bool {
    s1.source.iter().collect::<String>() == s2.source.iter().collect::<String>()
        && s1.line == s2.line
        && s1.position == s2.position
}

#[test]
fn test_next() {
    let input = ParseStateBuilder::default().source("Hello").build();
    let result = next().parse(input);
    let expected_ch = 'H';
    let expected_state = ParseStateBuilder::default()
        .source("ello")
        .position(expected_ch.len_utf8())
        .build();

    assert!(result.is_ok_and(|(ch, state)| {
        ch == expected_ch && compare_states(state, expected_state)
    }))
}

#[test]
fn test_next_fails_by_cannot_get_next() {
    let input = ParseStateBuilder::default().build();
    let result = next().parse(input);

    assert!(result.is_err_and(|err| err == ParseError::CannotGetNext))
}

#[test]
fn test_satisfy() {
    let input = ParseStateBuilder::default().source("Hello").build();
    let result = satisfy(Uppercase).parse(input);
    let expected_ch = 'H';
    let expected_state = ParseStateBuilder::default()
        .source("ello")
        .position(expected_ch.len_utf8())
        .build();

    assert!(result.is_ok_and(|(ch, state)| {
        ch == expected_ch && compare_states(state, expected_state)
    }))
}

#[test]
fn test_satisfy_fails_by_cannot_get_next() {
    let input = ParseStateBuilder::default().build();
    let result = satisfy(Uppercase).parse(input);

    assert!(result.is_err_and(|err| err == ParseError::CannotGetNext))
}

#[test]
fn test_satisfy_fails_by_failed_predicate() {
    let input = ParseStateBuilder::default().source("hello").build();
    let result = satisfy(Uppercase).parse(input);

    assert!(result.is_err_and(|err| err == ParseError::PredicateFailed))
}

#[test]
fn test_chain() {
    let input = ParseStateBuilder::default().source("Hello").build();
    let result = chain(next(), satisfy(Lowercase)).parse(input);
    let expected_parsed = ('H', 'e');
    let expected_state = ParseStateBuilder::default()
        .source("llo")
        .position(expected_parsed.0.len_utf8() + expected_parsed.1.len_utf8())
        .build();

    assert!(result.is_ok_and(|((parsed1, parsed2), state)| {
        parsed1 == expected_parsed.0
            && parsed2 == expected_parsed.1
            && compare_states(state, expected_state)
    }))
}

#[test]
fn test_chain_fails_by_first_parser() {
    let input = ParseStateBuilder::default().build();
    let result = chain(next(), satisfy(Lowercase)).parse(input);

    assert!(
        result.is_err_and(|err| err == ParseError::ChainFailed(Box::new(ParseError::CannotGetNext)))
    );
}

#[test]
fn test_chain_fails_by_second_parser() {
    let input = ParseStateBuilder::default().source("HE").build();
    let result = chain(next(), satisfy(Lowercase)).parse(input);

    assert!(result
        .is_err_and(|err| err == ParseError::ChainFailed(Box::new(ParseError::PredicateFailed))))
}
