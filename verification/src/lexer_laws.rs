use vstd::prelude::*;

use crate::combinator_laws::{
    consumed, lemma_advance, lemma_first_match, lemma_repeat_satisfy, lemma_span, lemma_utf8_len_concat,
    skip_chars, span,
};
use crate::combinators::{
    char_sem, first_match, or_sem, repeat, satisfy_sem, utf8_len, ParseError, StateModel,
};
use crate::lexer::{
    digit_sem, digits_sem, float_sem, identifier_or_keyword_sem, integer_sem, is_blank,
    is_ident_char, is_nonzero_digit, keyword_kind, linebreaks_sem, number_sem, operator_sem,
    lemma_linebreaks, lemma_symbol_kinds, operator_starts, operators_sem, paired_chars_sem, punctuation, scan_token_sem, single_char_sem, string_sem,
    token_alternatives, token_at, whitespaces_sem, word_kind, zero_or_digit_sem, zero_sem, TokenKind, TokenModel,
};

verus! {

/// A decimal digit.
pub open spec fn is_digit(c: char) -> bool {
    '0' <= c && c <= '9'
}

/// Consuming `a` characters and then `b` more is consuming `a + b`.
pub proof fn lemma_skip_chars_add(s: StateModel, a: nat, b: nat)
    requires
        s.wf(),
        a + b <= s.rest.len(),
    ensures
        skip_chars(skip_chars(s, a), b) == skip_chars(s, a + b),
        skip_chars(s, a + b).wf(),
{
    let r = s.rest;
    assert(r =~= r.take(a as int) + r.skip(a as int));
    lemma_utf8_len_concat(r.take(a as int), r.skip(a as int));
    let r2 = r.skip(a as int);
    assert(r2 =~= r2.take(b as int) + r2.skip(b as int));
    lemma_utf8_len_concat(r2.take(b as int), r2.skip(b as int));
    assert(r.take((a + b) as int) =~= r.take(a as int) + r2.take(b as int));
    lemma_utf8_len_concat(r.take(a as int), r2.take(b as int));
    assert(r2.skip(b as int) =~= r.skip((a + b) as int));
    assert(r =~= r.take((a + b) as int) + r.skip((a + b) as int));
    lemma_utf8_len_concat(r.take((a + b) as int), r.skip((a + b) as int));
}

/// Consuming one character is `advance`.
pub proof fn lemma_skip_one(s: StateModel)
    requires
        s.wf(),
        s.rest.len() > 0,
    ensures
        skip_chars(s, 1) == s.advance(s.rest[0]),
{
    assert(s.rest.take(1) =~= seq![s.rest[0]]);
    crate::combinator_laws::lemma_utf8_len_single(s.rest[0]);
    assert(s.rest.skip(1) =~= s.rest.drop_first());
}

/// Law: `zero_or_digit` consumes one decimal digit and yields it as a
/// string.
pub proof fn lemma_zero_or_digit(s: StateModel)
    ensures
        zero_or_digit_sem()(s) == (if s.rest.len() > 0 && is_digit(s.rest[0]) {
            Ok::<_, ParseError>((seq![s.rest[0]], s.advance(s.rest[0])))
        } else {
            Err(ParseError::NoneParserMatched)
        }),
{
    let fs = seq![zero_sem(), digit_sem()];
    lemma_first_match(fs, s);
    assert(fs[0] == zero_sem());
    assert(fs[1] == digit_sem());
    if s.rest.len() > 0 && is_digit(s.rest[0]) {
        if s.rest[0] == '0' {
            assert(fs[0](s) is Ok);
        } else {
            assert(fs[1](s) is Ok);
        }
    }
}

/// Repeating `zero_or_digit` consumes the longest run of decimal digits.
pub proof fn lemma_repeat_digits(s: StateModel)
    requires
        s.wf(),
    ensures
        ({
            let n = span(|c: char| is_digit(c), s.rest);
            repeat(zero_or_digit_sem(), s) == (
                s.rest.take(n as int).map_values(|c: char| seq![c]),
                skip_chars(s, n),
            )
        }),
    decreases s.rest.len(),
{
    let pred = |c: char| is_digit(c);
    let n = span(pred, s.rest);
    lemma_zero_or_digit(s);
    if s.rest.len() > 0 && is_digit(s.rest[0]) {
        let c = s.rest[0];
        let s1 = s.advance(c);
        lemma_advance(s);
        lemma_repeat_digits(s1);
        let m = span(pred, s1.rest);
        assert(n == m + 1);
        lemma_span(pred, s1.rest);
        let f = |c: char| seq![c];
        assert(seq![f(c)] + s1.rest.take(m as int).map_values(f) =~= s.rest.take(n as int).map_values(f));
        lemma_skip_one(s);
        lemma_skip_chars_add(s, 1, m);
    } else {
        assert(s.rest.take(0).map_values(|c: char| seq![c]) =~= Seq::<Seq<char>>::empty());
        assert(s.rest.skip(0) =~= s.rest);
        assert(s.rest.take(0) =~= Seq::<char>::empty());
    }
}

/// Strings of one character each, one after the other, are those
/// characters.
pub proof fn lemma_flatten_singletons(cs: Seq<char>)
    ensures
        cs.map_values(|c: char| seq![c]).flatten_alt() == cs,
    decreases cs.len(),
{
    let f = |c: char| seq![c];
    if cs.len() > 0 {
        lemma_flatten_singletons(cs.drop_last());
        assert(cs.map_values(f).drop_last() =~= cs.drop_last().map_values(f));
        assert(cs.drop_last() + seq![cs.last()] =~= cs);
    } else {
        assert(cs.map_values(f) =~= Seq::<Seq<char>>::empty());
    }
}

/// Law: many digits are the longest run of decimal digits, and at least
/// one.
pub proof fn lemma_digits(s: StateModel)
    requires
        s.wf(),
    ensures
        ({
            let n = span(|c: char| is_digit(c), s.rest);
            digits_sem()(s) == (if n == 0 {
                Err(ParseError::NoneParserMatched)
            } else {
                Ok::<_, ParseError>((s.rest.take(n as int), skip_chars(s, n)))
            })
        }),
{
    let n = span(|c: char| is_digit(c), s.rest);
    lemma_zero_or_digit(s);
    lemma_repeat_digits(s);
    lemma_flatten_singletons(s.rest.take(n as int));
}


/// What `integer` gives, stated directly: a digit other than zero followed
/// by at least one more digit, as many as there are.
pub open spec fn integer_direct(s: StateModel) -> Result<(Seq<char>, StateModel), ParseError> {
    let d = span(|c: char| is_digit(c), s.rest);
    if s.rest.len() == 0 {
        Err(ParseError::CannotGetNext)
    } else if !is_nonzero_digit(s.rest[0]) {
        Err(ParseError::PredicateFailed)
    } else if d < 2 {
        Err(ParseError::NoneParserMatched)
    } else {
        Ok((s.rest.take(d as int), skip_chars(s, d)))
    }
}

/// Law: `integer` reads a digit other than zero and then the longest run of
/// digits, which must not be empty.
pub proof fn lemma_integer(s: StateModel)
    requires
        s.wf(),
    ensures
        integer_sem()(s) == integer_direct(s),
{
    let pred = |c: char| is_digit(c);
    if s.rest.len() > 0 && is_nonzero_digit(s.rest[0]) {
        let c = s.rest[0];
        let s1 = s.advance(c);
        lemma_advance(s);
        lemma_digits(s1);
        let m = span(pred, s1.rest);
        let d = span(pred, s.rest);
        assert(d == m + 1);
        lemma_span(pred, s.rest);
        if m > 0 {
            assert(seq![c] + s1.rest.take(m as int) =~= s.rest.take(d as int));
            lemma_skip_one(s);
            lemma_skip_chars_add(s, 1, m);
        }
    }
}

/// What `float` gives, stated directly: an integer, a dot, and at least one
/// digit, as many as there are.
pub open spec fn float_direct(s: StateModel) -> Result<(Seq<char>, StateModel), ParseError> {
    match integer_direct(s) {
        Err(e) => Err(e),
        Ok((int_part, _)) => {
            let d = int_part.len();
            let f = span(|c: char| is_digit(c), s.rest.skip(d as int + 1));
            if d == s.rest.len() {
                Err(ParseError::CannotGetNext)
            } else if s.rest[d as int] != '.' {
                Err(ParseError::PredicateFailed)
            } else if f == 0 {
                Err(ParseError::NoneParserMatched)
            } else {
                Ok((s.rest.take((d + 1 + f) as int), skip_chars(s, d + 1 + f)))
            }
        },
    }
}

/// Law: `float` reads an integer, a dot and the longest run of digits, which
/// must not be empty.
pub proof fn lemma_float(s: StateModel)
    requires
        s.wf(),
    ensures
        float_sem()(s) == float_direct(s),
{
    lemma_integer(s);
    let pred = |c: char| is_digit(c);
    if integer_direct(s) is Ok {
        let d = span(pred, s.rest);
        lemma_span(pred, s.rest);
        let s1 = skip_chars(s, d);
        lemma_skip_chars_add(s, d, 0);
        assert(s.rest.take(d as int + 0) =~= s.rest.take(d as int));
        assert(s1.rest =~= s.rest.skip(d as int));
        if d < s.rest.len() && s.rest[d as int] == '.' {
            assert(s1.rest[0] == '.');
            let s2 = s1.advance('.');
            lemma_advance(s1);
            lemma_skip_one(s1);
            lemma_skip_chars_add(s, d, 1);
            assert(s2.rest =~= s.rest.skip(d as int + 1));
            lemma_digits(s2);
            let f = span(pred, s2.rest);
            lemma_span(pred, s2.rest);
            if f > 0 {
                lemma_skip_chars_add(s, d + 1, f);
                assert(s.rest.take(d as int) + seq!['.'] + s2.rest.take(f as int) =~= s.rest.take(
                    (d + 1 + f) as int,
                ));
            }
        } else if d < s.rest.len() {
            assert(s1.rest[0] != '.');
        }
    }
}


/// How many characters at the start of `cs` make a number: a float, else an
/// integer of two digits or more that does not start with zero, else one
/// digit; 0 when `cs` does not start with a digit.
pub open spec fn number_length(cs: Seq<char>) -> nat {
    let d = span(|c: char| is_digit(c), cs);
    if d == 0 {
        0
    } else if is_nonzero_digit(cs[0]) && d >= 2 {
        let f = span(|c: char| is_digit(c), cs.skip(d as int + 1));
        if d < cs.len() && cs[d as int] == '.' && f > 0 {
            d + 1 + f
        } else {
            d
        }
    } else {
        1
    }
}

/// What `number` gives, stated directly.
pub open spec fn number_direct(s: StateModel) -> Result<(TokenModel, StateModel), ParseError> {
    let n = number_length(s.rest);
    if n == 0 {
        Err(ParseError::NoneParserMatched)
    } else {
        Ok(token_at(TokenKind::Number, s.rest.take(n as int), skip_chars(s, n)))
    }
}

/// Law: `number` reads a float if there is one, else an integer of two
/// digits or more that does not start with zero, else one digit; its token
/// holds what it read, at the position after it.
pub proof fn lemma_number(s: StateModel)
    requires
        s.wf(),
    ensures
        number_sem()(s) == number_direct(s),
{
    let fs = seq![float_sem(), integer_sem(), zero_or_digit_sem()];
    lemma_first_match(fs, s);
    assert(fs[0] == float_sem());
    assert(fs[1] == integer_sem());
    assert(fs[2] == zero_or_digit_sem());
    lemma_float(s);
    lemma_integer(s);
    lemma_zero_or_digit(s);
    let pred = |c: char| is_digit(c);
    lemma_span(pred, s.rest);
    let d = span(pred, s.rest);
    if d > 0 {
        assert(is_digit(s.rest[0]));
        if is_nonzero_digit(s.rest[0]) && d >= 2 {
            assert(fs[1](s) is Ok);
        } else {
            assert(fs[0](s) is Err);
            assert(fs[1](s) is Err);
            assert(fs[2](s) is Ok);
            lemma_skip_one(s);
            assert(s.rest.take(1) =~= seq![s.rest[0]]);
        }
    }
}


/// What `identifier_or_keyword` gives, stated directly: the longest run of
/// ASCII letters, digits and underscores, at least one, as a keyword token
/// if it is a keyword, else as an identifier.
pub open spec fn word_direct(s: StateModel) -> Result<(TokenModel, StateModel), ParseError> {
    let n = span(|c: char| is_ident_char(c), s.rest);
    if s.rest.len() == 0 {
        Err(ParseError::CannotGetNext)
    } else if n == 0 {
        Err(ParseError::PredicateFailed)
    } else {
        let w = s.rest.take(n as int);
        Ok(token_at(word_kind(w), w, skip_chars(s, n)))
    }
}

/// Law: `identifier_or_keyword` reads the longest run of word characters.
pub proof fn lemma_identifier_or_keyword(s: StateModel)
    requires
        s.wf(),
    ensures
        identifier_or_keyword_sem()(s) == word_direct(s),
{
    lemma_repeat_satisfy(|c: char| is_ident_char(c), s);
}

/// What `whitespaces` gives, stated directly: the longest run of tabs,
/// carriage returns and spaces is skipped.
pub open spec fn blanks_direct(s: StateModel) -> Result<((), StateModel), ParseError> {
    Ok(((), skip_chars(s, span(|c: char| is_blank(c), s.rest))))
}

/// Law: `whitespaces` skips the longest run of blanks and never fails.
pub proof fn lemma_whitespaces(s: StateModel)
    requires
        s.wf(),
    ensures
        whitespaces_sem()(s) == blanks_direct(s),
{
    lemma_repeat_satisfy(|c: char| is_blank(c), s);
}

/// What `linebreaks` gives, stated directly: the longest run of line breaks
/// is skipped, the line moves on by their number, and the position is 1.
pub open spec fn breaks_direct(s: StateModel) -> Result<((), StateModel), ParseError> {
    let n = span(crate::combinators::is_char('\n'), s.rest);
    Ok(((), StateModel { rest: s.rest.skip(n as int), line: (s.line + n) as usize, position: 1 }))
}

/// What `string` gives, stated directly: a double quote, the characters up
/// to the next double quote, and that double quote; the token holds the
/// characters between the quotes.
pub open spec fn string_direct(s: StateModel) -> Result<(TokenModel, StateModel), ParseError> {
    if s.rest.len() == 0 {
        Err(ParseError::CannotGetNext)
    } else if s.rest[0] != '"' {
        Err(ParseError::PredicateFailed)
    } else {
        let n = span(|c: char| c != '"', s.rest.drop_first());
        if n + 1 == s.rest.len() {
            Err(ParseError::CannotGetNext)
        } else {
            Ok(
                token_at(
                    TokenKind::Str,
                    s.rest.subrange(1, n as int + 1),
                    skip_chars(s, n + 2),
                ),
            )
        }
    }
}

/// Law: `string` reads a quoted string; it fails when the closing quote is
/// missing.
pub proof fn lemma_string(s: StateModel)
    requires
        s.wf(),
    ensures
        string_sem()(s) == string_direct(s),
{
    if s.rest.len() > 0 && s.rest[0] == '"' {
        let pred = |c: char| c != '"';
        let s1 = s.advance('"');
        lemma_advance(s);
        lemma_skip_one(s);
        lemma_repeat_satisfy(pred, s1);
        let n = span(pred, s1.rest);
        lemma_span(pred, s1.rest);
        lemma_skip_chars_add(s, 1, n);
        let s2 = skip_chars(s1, n);
        assert(s2.rest =~= s.rest.skip(n as int + 1));
        assert(s1.rest.take(n as int) =~= s.rest.subrange(1, n as int + 1));
        if n + 1 < s.rest.len() {
            assert(s2.rest[0] == s1.rest[n as int]);
            lemma_skip_chars_add(s, n + 1, 1);
            lemma_skip_one(s2);
        }
    }
}

/// Law: `a`, or `a` followed by `=`, is read as two characters when it can
/// be.
pub proof fn lemma_operator(a: char, s: StateModel)
    requires
        s.wf(),
    ensures
        operator_sem(a)(s) == (if s.rest.len() > 0 && s.rest[0] == a {
            let n: nat = if s.rest.len() > 1 && s.rest[1] == '=' {
                2
            } else {
                1
            };
            Ok::<_, ParseError>((s.rest.take(n as int), skip_chars(s, n)))
        } else {
            Err(ParseError::NoneParserMatched)
        }),
{
    let f2 = |p: (char, char)| seq![p.0, p.1];
    let f1 = |c: char| seq![c];
    let fs = seq![
        crate::combinators::map_sem(
            crate::combinators::chain_sem(char_sem(a), char_sem('=')),
            f2,
        ),
        crate::combinators::map_sem(char_sem(a), f1),
    ];
    lemma_first_match(fs, s);
    assert(fs[0] == crate::combinators::map_sem(
        crate::combinators::chain_sem(char_sem(a), char_sem('=')),
        f2,
    ));
    assert(fs[1] == crate::combinators::map_sem(char_sem(a), f1));
    if s.rest.len() > 0 && s.rest[0] == a {
        lemma_advance(s);
        lemma_skip_one(s);
        let s1 = s.advance(a);
        if s.rest.len() > 1 && s.rest[1] == '=' {
            assert(s1.rest[0] == '=');
            lemma_skip_one(s1);
            lemma_skip_chars_add(s, 1, 1);
            assert(s.rest.take(2) =~= seq![a, '=']);
            assert(fs[0](s) is Ok);
        } else {
            assert(fs[0](s) is Err);
            assert(s.rest.take(1) =~= seq![a]);
            assert(fs[1](s) is Ok);
        }
    }
}

/// What `paired_chars` gives, stated directly: `!`, `=`, `>` or `<`, with the
/// `=` after it if there is one, as an operator token.
pub open spec fn operator_direct(s: StateModel) -> Result<(TokenModel, StateModel), ParseError> {
    if s.rest.len() > 0 && operator_starts().contains(s.rest[0]) {
        let n: nat = if s.rest.len() > 1 && s.rest[1] == '=' {
            2
        } else {
            1
        };
        let w = s.rest.take(n as int);
        Ok(token_at(keyword_kind(w)->Some_0, w, skip_chars(s, n)))
    } else {
        Err(ParseError::NoneParserMatched)
    }
}

/// Law: `paired_chars` reads an operator of one or two characters, the
/// longest there is.
pub proof fn lemma_paired_chars(s: StateModel)
    requires
        s.wf(),
    ensures
        paired_chars_sem()(s) == operator_direct(s),
{
    let fs = operator_starts().map_values(|a: char| operator_sem(a));
    lemma_first_match(fs, s);
    assert forall|k: int| 0 <= k < fs.len() implies #[trigger] fs[k] == operator_sem(
        operator_starts()[k],
    ) by {}
    assert forall|k: int| 0 <= k < fs.len() implies (#[trigger] fs[k])(s) is Ok <==> (
    s.rest.len() > 0 && s.rest[0] == operator_starts()[k]) by {
        lemma_operator(operator_starts()[k], s);
    }
    if operators_sem()(s) is Ok {
        let k = choose|k: int|
            0 <= k < fs.len() && (#[trigger] fs[k])(s) == first_match(fs, s) && forall|j: int|
                0 <= j < k ==> (#[trigger] fs[j])(s) is Err;
        lemma_operator(operator_starts()[k], s);
        assert(operator_starts().contains(s.rest[0]));
    } else if s.rest.len() > 0 && operator_starts().contains(s.rest[0]) {
        let k = choose|k: int| 0 <= k < operator_starts().len() && operator_starts()[k] == s.rest[0];
        assert(fs[k](s) is Ok);
    }
}

/// What `single_char` gives, stated directly: a punctuation mark, as its
/// token.
pub open spec fn punctuation_direct(s: StateModel) -> Result<(TokenModel, StateModel), ParseError> {
    if s.rest.len() > 0 && punctuation().contains(s.rest[0]) {
        let c = s.rest[0];
        Ok(token_at(keyword_kind(seq![c])->Some_0, seq![c], s.advance(c)))
    } else {
        Err(ParseError::NoneParserMatched)
    }
}

/// Law: `single_char` reads one punctuation mark.
pub proof fn lemma_single_char(s: StateModel)
    requires
        s.wf(),
    ensures
        single_char_sem()(s) == punctuation_direct(s),
{
    let fs = punctuation().map_values(|c: char| char_sem(c));
    lemma_first_match(fs, s);
    assert forall|k: int| 0 <= k < fs.len() implies (#[trigger] fs[k])(s) is Ok <==> (s.rest.len()
        > 0 && s.rest[0] == punctuation()[k]) by {
        assert(fs[k] == char_sem(punctuation()[k]));
    }
    if or_sem(fs)(s) is Ok {
        let k = choose|k: int|
            0 <= k < fs.len() && (#[trigger] fs[k])(s) == first_match(fs, s) && forall|j: int|
                0 <= j < k ==> (#[trigger] fs[j])(s) is Err;
        assert(fs[k] == char_sem(punctuation()[k]));
        assert(punctuation().contains(s.rest[0]));
    } else if s.rest.len() > 0 && punctuation().contains(s.rest[0]) {
        let k = choose|k: int| 0 <= k < punctuation().len() && punctuation()[k] == s.rest[0];
        assert(fs[k](s) is Ok);
    }
}

/// What a token read from `s`, leaving `s2`, stands for: the characters it
/// consumed are its lexeme (within double quotes, for a string), and it
/// records the line and the position of `s2`, right after it.
pub open spec fn token_read(t: TokenModel, s: StateModel, s2: StateModel) -> bool {
    &&& t.line == s2.line
    &&& t.position == s2.position
    &&& consumed(s, s2) == (if t.kind == TokenKind::Str {
        seq!['"'] + t.lexeme + seq!['"']
    } else {
        t.lexeme
    })
}

/// Skipping `n` characters consumes the first `n` of them.
proof fn lemma_consumed_skip(s: StateModel, n: nat)
    requires
        n <= s.rest.len(),
    ensures
        consumed(s, skip_chars(s, n)) == s.rest.take(n as int),
{
}

/// A number is no longer than the characters it is read from.
proof fn lemma_number_length(cs: Seq<char>)
    ensures
        number_length(cs) <= cs.len(),
{
    let pred = |c: char| is_digit(c);
    let d = span(pred, cs);
    lemma_span(pred, cs);
    if d > 0 && is_nonzero_digit(cs[0]) && d >= 2 && d < cs.len() {
        lemma_span(pred, cs.skip(d as int + 1));
    }
}

/// No keyword or symbol is a string.
proof fn lemma_keyword_kind_not_str(w: Seq<char>)
    ensures
        keyword_kind(w) != Some(TokenKind::Str),
{
}

/// Each way to read a token makes a token that stands for what it read.
proof fn lemma_alternative_reads_token(i: int, s: StateModel)
    requires
        s.wf(),
        0 <= i < token_alternatives().len(),
        (token_alternatives()[i])(s) is Ok,
    ensures
        ({
            let (t, s2) = (token_alternatives()[i])(s)->Ok_0;
            token_read(t, s, s2)
        }),
{
    let fs = token_alternatives();
    if i == 0 {
        assert(fs[0] == identifier_or_keyword_sem());
        lemma_identifier_or_keyword(s);
        let n = span(|c: char| is_ident_char(c), s.rest);
        lemma_span(|c: char| is_ident_char(c), s.rest);
        lemma_consumed_skip(s, n);
        assert(word_kind(s.rest.take(n as int)) != TokenKind::Str) by {
            let w = s.rest.take(n as int);
            if keyword_kind(w) is Some {
                lemma_keyword_kind_not_str(w);
            }
        }
    } else if i == 1 {
        assert(fs[1] == number_sem());
        lemma_number(s);
        lemma_number_length(s.rest);
        lemma_consumed_skip(s, number_length(s.rest));
    } else if i == 2 {
        assert(fs[2] == string_sem());
        lemma_string(s);
        let pred = |c: char| c != '"';
        let n = span(pred, s.rest.drop_first());
        lemma_span(pred, s.rest.drop_first());
        lemma_consumed_skip(s, n + 2);
        assert(s.rest.drop_first()[n as int] == s.rest[n as int + 1]);
        assert(s.rest.take(n as int + 2) =~= seq!['"'] + s.rest.subrange(1, n as int + 1) + seq!['"']);
    } else if i == 3 {
        assert(fs[3] == paired_chars_sem());
        lemma_paired_chars(s);
        let n: nat = if s.rest.len() > 1 && s.rest[1] == '=' {
            2
        } else {
            1
        };
        lemma_consumed_skip(s, n);
        lemma_symbol_kinds();
    } else {
        assert(fs[4] == single_char_sem());
        lemma_single_char(s);
        lemma_skip_one(s);
        lemma_consumed_skip(s, 1);
        assert(s.rest.take(1) =~= seq![s.rest[0]]);
        lemma_symbol_kinds();
    }
}

/// Law: a token that `scan_token` reads stands for what it read once line
/// breaks and blanks were skipped: its lexeme is the characters it consumed
/// (within double quotes, for a string), and it records the line and the
/// position right after it.
pub proof fn lemma_scan_token_reads(s: StateModel)
    requires
        s.wf(),
        scan_token_sem()(s) is Ok,
    ensures
        ({
            let s1 = breaks_direct(s)->Ok_0.1;
            let s2 = blanks_direct(s1)->Ok_0.1;
            let (t, s3) = scan_token_sem()(s)->Ok_0;
            token_read(t, s2, s3)
        }),
{
    lemma_linebreaks(s);
    let s1 = breaks_direct(s)->Ok_0.1;
    lemma_whitespaces(s1);
    let s2 = blanks_direct(s1)->Ok_0.1;
    let pred = |c: char| is_blank(c);
    lemma_span(pred, s1.rest);
    lemma_skip_chars_add(s1, span(pred, s1.rest), 0);
    assert(s1.rest.take(span(pred, s1.rest) as int + 0) =~= s1.rest.take(span(pred, s1.rest) as int));
    let fs = token_alternatives();
    lemma_first_match(fs, s2);
    let k = choose|k: int|
        0 <= k < fs.len() && (#[trigger] fs[k])(s2) == first_match(fs, s2) && forall|j: int|
            0 <= j < k ==> (#[trigger] fs[j])(s2) is Err;
    lemma_alternative_reads_token(k, s2);
}

/// The text of each keyword, operator and punctuation mark; empty for the
/// kinds that have none of their own.
pub open spec fn kind_text(k: TokenKind) -> Seq<char> {
    match k {
        TokenKind::And => "and"@,
        TokenKind::Class => "class"@,
        TokenKind::Else => "else"@,
        TokenKind::False => "false"@,
        TokenKind::For => "for"@,
        TokenKind::Fun => "fun"@,
        TokenKind::If => "if"@,
        TokenKind::Nil => "nil"@,
        TokenKind::Or => "or"@,
        TokenKind::Print => "print"@,
        TokenKind::Return => "return"@,
        TokenKind::Super => "super"@,
        TokenKind::This => "this"@,
        TokenKind::True => "true"@,
        TokenKind::Var => "var"@,
        TokenKind::While => "while"@,
        TokenKind::DoubleEqual => "=="@,
        TokenKind::BangEqual => "!="@,
        TokenKind::GreaterEqual => ">="@,
        TokenKind::LessEqual => "<="@,
        TokenKind::Bang => "!"@,
        TokenKind::Equal => "="@,
        TokenKind::Greater => ">"@,
        TokenKind::Less => "<"@,
        TokenKind::LeftParen => "("@,
        TokenKind::RightParen => ")"@,
        TokenKind::LeftBrace => "{"@,
        TokenKind::RightBrace => "}"@,
        TokenKind::Comma => ","@,
        TokenKind::Dot => "."@,
        TokenKind::Minus => "-"@,
        TokenKind::Plus => "+"@,
        TokenKind::Semicolon => ";"@,
        TokenKind::Slash => "/"@,
        TokenKind::Star => "*"@,
        _ => Seq::empty(),
    }
}

/// Law: each keyword, operator and punctuation mark has its own kind.
pub proof fn lemma_keyword_kinds()
    ensures
        keyword_kind("and"@) == Some(TokenKind::And),
        keyword_kind("class"@) == Some(TokenKind::Class),
        keyword_kind("else"@) == Some(TokenKind::Else),
        keyword_kind("false"@) == Some(TokenKind::False),
        keyword_kind("for"@) == Some(TokenKind::For),
        keyword_kind("fun"@) == Some(TokenKind::Fun),
        keyword_kind("if"@) == Some(TokenKind::If),
        keyword_kind("nil"@) == Some(TokenKind::Nil),
        keyword_kind("or"@) == Some(TokenKind::Or),
        keyword_kind("print"@) == Some(TokenKind::Print),
        keyword_kind("return"@) == Some(TokenKind::Return),
        keyword_kind("super"@) == Some(TokenKind::Super),
        keyword_kind("this"@) == Some(TokenKind::This),
        keyword_kind("true"@) == Some(TokenKind::True),
        keyword_kind("var"@) == Some(TokenKind::Var),
        keyword_kind("while"@) == Some(TokenKind::While),
        keyword_kind("=="@) == Some(TokenKind::DoubleEqual),
        keyword_kind("!="@) == Some(TokenKind::BangEqual),
        keyword_kind(">="@) == Some(TokenKind::GreaterEqual),
        keyword_kind("<="@) == Some(TokenKind::LessEqual),
        keyword_kind("!"@) == Some(TokenKind::Bang),
        keyword_kind("="@) == Some(TokenKind::Equal),
        keyword_kind(">"@) == Some(TokenKind::Greater),
        keyword_kind("<"@) == Some(TokenKind::Less),
        keyword_kind("("@) == Some(TokenKind::LeftParen),
        keyword_kind(")"@) == Some(TokenKind::RightParen),
        keyword_kind("{"@) == Some(TokenKind::LeftBrace),
        keyword_kind("}"@) == Some(TokenKind::RightBrace),
        keyword_kind(","@) == Some(TokenKind::Comma),
        keyword_kind("."@) == Some(TokenKind::Dot),
        keyword_kind("-"@) == Some(TokenKind::Minus),
        keyword_kind("+"@) == Some(TokenKind::Plus),
        keyword_kind(";"@) == Some(TokenKind::Semicolon),
        keyword_kind("/"@) == Some(TokenKind::Slash),
        keyword_kind("*"@) == Some(TokenKind::Star),
{
    reveal_strlit("and");
    reveal_strlit("class");
    reveal_strlit("else");
    reveal_strlit("false");
    reveal_strlit("for");
    reveal_strlit("fun");
    reveal_strlit("if");
    reveal_strlit("nil");
    reveal_strlit("or");
    reveal_strlit("print");
    reveal_strlit("return");
    reveal_strlit("super");
    reveal_strlit("this");
    reveal_strlit("true");
    reveal_strlit("var");
    reveal_strlit("while");
    reveal_strlit("==");
    reveal_strlit("!=");
    reveal_strlit(">=");
    reveal_strlit("<=");
    reveal_strlit("!");
    reveal_strlit("=");
    reveal_strlit(">");
    reveal_strlit("<");
    reveal_strlit("(");
    reveal_strlit(")");
    reveal_strlit("{");
    reveal_strlit("}");
    reveal_strlit(",");
    reveal_strlit(".");
    reveal_strlit("-");
    reveal_strlit("+");
    reveal_strlit(";");
    reveal_strlit("/");
    reveal_strlit("*");
}

/// Law: a text has a kind only if it is the text of that kind, so no other
/// word is taken for a keyword.
pub proof fn lemma_keyword_kind_exact(w: Seq<char>)
    ensures
        keyword_kind(w) matches Some(k) ==> w == kind_text(k),
{
    reveal_strlit("and");
    reveal_strlit("class");
    reveal_strlit("else");
    reveal_strlit("false");
    reveal_strlit("for");
    reveal_strlit("fun");
    reveal_strlit("if");
    reveal_strlit("nil");
    reveal_strlit("or");
    reveal_strlit("print");
    reveal_strlit("return");
    reveal_strlit("super");
    reveal_strlit("this");
    reveal_strlit("true");
    reveal_strlit("var");
    reveal_strlit("while");
    reveal_strlit("==");
    reveal_strlit("!=");
    reveal_strlit(">=");
    reveal_strlit("<=");
    reveal_strlit("!");
    reveal_strlit("=");
    reveal_strlit(">");
    reveal_strlit("<");
    reveal_strlit("(");
    reveal_strlit(")");
    reveal_strlit("{");
    reveal_strlit("}");
    reveal_strlit(",");
    reveal_strlit(".");
    reveal_strlit("-");
    reveal_strlit("+");
    reveal_strlit(";");
    reveal_strlit("/");
    reveal_strlit("*");
    if let Some(k) = keyword_kind(w) {
        assert(w =~= kind_text(k));
    }
}

/// The state once the line breaks and then the blanks at the start of `s`
/// are skipped.
pub open spec fn after_blanks(s: StateModel) -> StateModel {
    blanks_direct(breaks_direct(s)->Ok_0.1)->Ok_0.1
}

/// The token at the start of `s`, by the first of the readers that
/// succeeds, tried in this order: a word, a number, a string, an operator, a
/// punctuation mark.
pub open spec fn first_token(s: StateModel) -> Result<(TokenModel, StateModel), ParseError> {
    if word_direct(s) is Ok {
        word_direct(s)
    } else if number_direct(s) is Ok {
        number_direct(s)
    } else if string_direct(s) is Ok {
        string_direct(s)
    } else if operator_direct(s) is Ok {
        operator_direct(s)
    } else if punctuation_direct(s) is Ok {
        punctuation_direct(s)
    } else {
        Err(ParseError::NoneParserMatched)
    }
}

/// Law: `scan_token` skips line breaks and blanks and reads there a word, a
/// number, a string, an operator or a punctuation mark, whichever reader
/// succeeds first in that order; it fails with `NoneParserMatched` when none
/// does.
pub proof fn lemma_scan_token(s: StateModel)
    requires
        s.wf(),
    ensures
        scan_token_sem()(s) == first_token(after_blanks(s)),
{
    lemma_linebreaks(s);
    let s1 = breaks_direct(s)->Ok_0.1;
    lemma_whitespaces(s1);
    let s2 = after_blanks(s);
    let pred = |c: char| is_blank(c);
    lemma_span(pred, s1.rest);
    lemma_skip_chars_add(s1, span(pred, s1.rest), 0);
    assert(s1.rest.take(span(pred, s1.rest) as int + 0) =~= s1.rest.take(span(pred, s1.rest) as int));
    assert(s2.wf());
    let fs = token_alternatives();
    assert(fs[0] == identifier_or_keyword_sem());
    assert(fs[1] == number_sem());
    assert(fs[2] == string_sem());
    assert(fs[3] == paired_chars_sem());
    assert(fs[4] == single_char_sem());
    lemma_identifier_or_keyword(s2);
    lemma_number(s2);
    lemma_string(s2);
    lemma_paired_chars(s2);
    lemma_single_char(s2);
    lemma_first_match(fs, s2);
    assert(scan_token_sem()(s) == first_match(fs, s2));
    if first_match(fs, s2) is Ok {
        let k = choose|k: int|
            0 <= k < fs.len() && (#[trigger] fs[k])(s2) == first_match(fs, s2) && forall|j: int|
                0 <= j < k ==> (#[trigger] fs[j])(s2) is Err;
        if k >= 1 {
            assert(fs[0](s2) is Err);
        }
        if k >= 2 {
            assert(fs[1](s2) is Err);
        }
        if k >= 3 {
            assert(fs[2](s2) is Err);
        }
        if k >= 4 {
            assert(fs[3](s2) is Err);
        }
    } else {
        assert(fs[0](s2) is Err);
        assert(fs[1](s2) is Err);
        assert(fs[2](s2) is Err);
        assert(fs[3](s2) is Err);
        assert(fs[4](s2) is Err);
    }
}

/// Law: where the input after line breaks and blanks starts with a double
/// quote and holds another one, `scan_token` reads a string: its token holds
/// the characters between the two quotes.
pub proof fn lemma_scan_token_string(s: StateModel)
    requires
        s.wf(),
        after_blanks(s).rest.len() > 0,
        after_blanks(s).rest[0] == '"',
        after_blanks(s).rest.drop_first().contains('"'),
    ensures
        ({
            let cs = after_blanks(s).rest;
            let n = span(|c: char| c != '"', cs.drop_first());
            &&& scan_token_sem()(s) is Ok
            &&& scan_token_sem()(s)->Ok_0.0.kind == TokenKind::Str
            &&& scan_token_sem()(s)->Ok_0.0.lexeme == cs.subrange(1, n as int + 1)
            &&& n + 1 < cs.len()
            &&& !cs.subrange(1, n as int + 1).contains('"')
        }),
{
    lemma_scan_token(s);
    let s2 = after_blanks(s);
    let cs = s2.rest;
    let pred = |c: char| c != '"';
    let n = span(pred, cs.drop_first());
    lemma_span(pred, cs.drop_first());
    let j = choose|j: int| 0 <= j < cs.drop_first().len() && cs.drop_first()[j] == '"';
    assert(!pred(cs.drop_first()[j]));
    assert(n < cs.drop_first().len());
    assert(!is_ident_char(cs[0]));
    lemma_span(|c: char| is_ident_char(c), cs);
    assert(word_direct(s2) is Err);
    lemma_span(|c: char| is_digit(c), cs);
    assert(number_length(cs) == 0);
    assert(number_direct(s2) is Err);
    assert forall|i: int| 0 <= i < n implies #[trigger] cs.subrange(1, n as int + 1)[i] != '"' by {
        assert(cs.subrange(1, n as int + 1)[i] == cs.drop_first()[i]);
    }
}

} // verus!
