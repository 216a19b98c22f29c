use vstd::prelude::*;

use crate::combinator_laws::{
    lemma_first_match, lemma_many0_behaves, lemma_many0_satisfy, lemma_many1_behaves,
    lemma_map_behaves, lemma_map_with_rest_behaves, lemma_or_behaves, lemma_satisfy_behaves,
    lemma_suffix_refl, lemma_suffix_trans, lemma_span, skip_chars, span,
};
use crate::combinators::{
    push_char,
    chain, chain_sem, char, char_sem, chars_of, is_char, many0, many0_sem, many1, many1_sem, map_fn_sem, map_rest_fn_sem,
    map_sem, map_with_rest, map_with_rest_sem, or, or_sem, pred_sem, productive, satisfy,
    satisfy_sem, sem, sems, transform_fits, well_behaved, BoxedParser, CharPredicate, MapFn,
    MapWithRestFn, ParseError, ParseFn, ParseState, Parser, StateModel,
};

use crate::lexer_laws::{
    blanks_direct, breaks_direct, float_direct, integer_direct, lemma_float, lemma_identifier_or_keyword,
    lemma_integer, lemma_number, lemma_paired_chars, lemma_single_char, lemma_string,
    lemma_whitespaces, number_direct, operator_direct, punctuation_direct, string_direct,
    word_direct,
};

verus! {

/// What a token is: a symbol, a literal, an identifier or a keyword.
#[derive(Debug, PartialEq, Eq, Clone, Copy)]
pub enum TokenKind {
    LeftParen,
    RightParen,
    LeftBrace,
    RightBrace,
    Comma,
    Dot,
    Minus,
    Plus,
    Semicolon,
    Slash,
    Star,
    Bang,
    BangEqual,
    Equal,
    DoubleEqual,
    Greater,
    GreaterEqual,
    Less,
    LessEqual,
    Str,
    Number,
    Identifier,
    And,
    Class,
    Else,
    False,
    For,
    Fun,
    If,
    Nil,
    Or,
    Print,
    Return,
    Super,
    This,
    True,
    Var,
    While,
}

impl DeepView for TokenKind {
    type V = TokenKind;

    open spec fn deep_view(&self) -> TokenKind {
        *self
    }
}

/// A token: its kind, its text, and the line and byte position where the
/// lexer stood right after reading it.
#[derive(Debug, PartialEq)]
pub struct Token {
    pub kind: TokenKind,
    pub lexeme: String,
    pub line: usize,
    pub position: usize,
}

/// What a `Token` holds.
pub struct TokenModel {
    pub kind: TokenKind,
    pub lexeme: Seq<char>,
    pub line: usize,
    pub position: usize,
}

impl DeepView for Token {
    type V = TokenModel;

    open spec fn deep_view(&self) -> TokenModel {
        TokenModel {
            kind: self.kind,
            lexeme: self.lexeme@,
            line: self.line,
            position: self.position,
        }
    }
}

impl Token {
    /// A token at line 0 and position 0.
    pub fn new(kind: TokenKind, lexeme: String) -> (r: Self)
        ensures
            r.deep_view() == (TokenModel { kind, lexeme: lexeme@, line: 0, position: 0 }),
    {
        Token { kind, lexeme, line: 0, position: 0 }
    }
}

// ---------------------------------------------------------------------------
// Keywords and operators
// ---------------------------------------------------------------------------

/// The kind of token that a keyword, an operator or a punctuation mark is.
pub open spec fn keyword_kind(w: Seq<char>) -> Option<TokenKind> {
    if w.len() == 3 && w[0] == 'a' && w[1] == 'n' && w[2] == 'd' {
        Some(TokenKind::And)
    } else if w.len() == 5 && w[0] == 'c' && w[1] == 'l' && w[2] == 'a' && w[3] == 's' && w[4] == 's' {
        Some(TokenKind::Class)
    } else if w.len() == 4 && w[0] == 'e' && w[1] == 'l' && w[2] == 's' && w[3] == 'e' {
        Some(TokenKind::Else)
    } else if w.len() == 5 && w[0] == 'f' && w[1] == 'a' && w[2] == 'l' && w[3] == 's' && w[4] == 'e' {
        Some(TokenKind::False)
    } else if w.len() == 3 && w[0] == 'f' && w[1] == 'o' && w[2] == 'r' {
        Some(TokenKind::For)
    } else if w.len() == 3 && w[0] == 'f' && w[1] == 'u' && w[2] == 'n' {
        Some(TokenKind::Fun)
    } else if w.len() == 2 && w[0] == 'i' && w[1] == 'f' {
        Some(TokenKind::If)
    } else if w.len() == 3 && w[0] == 'n' && w[1] == 'i' && w[2] == 'l' {
        Some(TokenKind::Nil)
    } else if w.len() == 2 && w[0] == 'o' && w[1] == 'r' {
        Some(TokenKind::Or)
    } else if w.len() == 5 && w[0] == 'p' && w[1] == 'r' && w[2] == 'i' && w[3] == 'n' && w[4] == 't' {
        Some(TokenKind::Print)
    } else if w.len() == 6 && w[0] == 'r' && w[1] == 'e' && w[2] == 't' && w[3] == 'u' && w[4] == 'r' && w[5] == 'n' {
        Some(TokenKind::Return)
    } else if w.len() == 5 && w[0] == 's' && w[1] == 'u' && w[2] == 'p' && w[3] == 'e' && w[4] == 'r' {
        Some(TokenKind::Super)
    } else if w.len() == 4 && w[0] == 't' && w[1] == 'h' && w[2] == 'i' && w[3] == 's' {
        Some(TokenKind::This)
    } else if w.len() == 4 && w[0] == 't' && w[1] == 'r' && w[2] == 'u' && w[3] == 'e' {
        Some(TokenKind::True)
    } else if w.len() == 3 && w[0] == 'v' && w[1] == 'a' && w[2] == 'r' {
        Some(TokenKind::Var)
    } else if w.len() == 5 && w[0] == 'w' && w[1] == 'h' && w[2] == 'i' && w[3] == 'l' && w[4] == 'e' {
        Some(TokenKind::While)
    } else if w.len() == 2 && w[0] == '=' && w[1] == '=' {
        Some(TokenKind::DoubleEqual)
    } else if w.len() == 2 && w[0] == '!' && w[1] == '=' {
        Some(TokenKind::BangEqual)
    } else if w.len() == 2 && w[0] == '>' && w[1] == '=' {
        Some(TokenKind::GreaterEqual)
    } else if w.len() == 2 && w[0] == '<' && w[1] == '=' {
        Some(TokenKind::LessEqual)
    } else if w.len() == 1 && w[0] == '!' {
        Some(TokenKind::Bang)
    } else if w.len() == 1 && w[0] == '=' {
        Some(TokenKind::Equal)
    } else if w.len() == 1 && w[0] == '>' {
        Some(TokenKind::Greater)
    } else if w.len() == 1 && w[0] == '<' {
        Some(TokenKind::Less)
    } else if w.len() == 1 && w[0] == '(' {
        Some(TokenKind::LeftParen)
    } else if w.len() == 1 && w[0] == ')' {
        Some(TokenKind::RightParen)
    } else if w.len() == 1 && w[0] == '{' {
        Some(TokenKind::LeftBrace)
    } else if w.len() == 1 && w[0] == '}' {
        Some(TokenKind::RightBrace)
    } else if w.len() == 1 && w[0] == ',' {
        Some(TokenKind::Comma)
    } else if w.len() == 1 && w[0] == '.' {
        Some(TokenKind::Dot)
    } else if w.len() == 1 && w[0] == '-' {
        Some(TokenKind::Minus)
    } else if w.len() == 1 && w[0] == '+' {
        Some(TokenKind::Plus)
    } else if w.len() == 1 && w[0] == ';' {
        Some(TokenKind::Semicolon)
    } else if w.len() == 1 && w[0] == '/' {
        Some(TokenKind::Slash)
    } else if w.len() == 1 && w[0] == '*' {
        Some(TokenKind::Star)
    } else {
        None
    }
}

/// The kind of token that `lexeme` is, if it is a keyword, an operator or a
/// punctuation mark.
pub fn lexeme_to_token_kind(lexeme: &str) -> (r: Option<TokenKind>)
    ensures
        r == keyword_kind(lexeme@),
{
    let w = chars_of(lexeme);
    if w.len() == 3 && w[0] == 'a' && w[1] == 'n' && w[2] == 'd' {
        return Some(TokenKind::And);
    }
    if w.len() == 5 && w[0] == 'c' && w[1] == 'l' && w[2] == 'a' && w[3] == 's' && w[4] == 's' {
        return Some(TokenKind::Class);
    }
    if w.len() == 4 && w[0] == 'e' && w[1] == 'l' && w[2] == 's' && w[3] == 'e' {
        return Some(TokenKind::Else);
    }
    if w.len() == 5 && w[0] == 'f' && w[1] == 'a' && w[2] == 'l' && w[3] == 's' && w[4] == 'e' {
        return Some(TokenKind::False);
    }
    if w.len() == 3 && w[0] == 'f' && w[1] == 'o' && w[2] == 'r' {
        return Some(TokenKind::For);
    }
    if w.len() == 3 && w[0] == 'f' && w[1] == 'u' && w[2] == 'n' {
        return Some(TokenKind::Fun);
    }
    if w.len() == 2 && w[0] == 'i' && w[1] == 'f' {
        return Some(TokenKind::If);
    }
    if w.len() == 3 && w[0] == 'n' && w[1] == 'i' && w[2] == 'l' {
        return Some(TokenKind::Nil);
    }
    if w.len() == 2 && w[0] == 'o' && w[1] == 'r' {
        return Some(TokenKind::Or);
    }
    if w.len() == 5 && w[0] == 'p' && w[1] == 'r' && w[2] == 'i' && w[3] == 'n' && w[4] == 't' {
        return Some(TokenKind::Print);
    }
    if w.len() == 6 && w[0] == 'r' && w[1] == 'e' && w[2] == 't' && w[3] == 'u' && w[4] == 'r' && w[5] == 'n' {
        return Some(TokenKind::Return);
    }
    if w.len() == 5 && w[0] == 's' && w[1] == 'u' && w[2] == 'p' && w[3] == 'e' && w[4] == 'r' {
        return Some(TokenKind::Super);
    }
    if w.len() == 4 && w[0] == 't' && w[1] == 'h' && w[2] == 'i' && w[3] == 's' {
        return Some(TokenKind::This);
    }
    if w.len() == 4 && w[0] == 't' && w[1] == 'r' && w[2] == 'u' && w[3] == 'e' {
        return Some(TokenKind::True);
    }
    if w.len() == 3 && w[0] == 'v' && w[1] == 'a' && w[2] == 'r' {
        return Some(TokenKind::Var);
    }
    if w.len() == 5 && w[0] == 'w' && w[1] == 'h' && w[2] == 'i' && w[3] == 'l' && w[4] == 'e' {
        return Some(TokenKind::While);
    }
    if w.len() == 2 && w[0] == '=' && w[1] == '=' {
        return Some(TokenKind::DoubleEqual);
    }
    if w.len() == 2 && w[0] == '!' && w[1] == '=' {
        return Some(TokenKind::BangEqual);
    }
    if w.len() == 2 && w[0] == '>' && w[1] == '=' {
        return Some(TokenKind::GreaterEqual);
    }
    if w.len() == 2 && w[0] == '<' && w[1] == '=' {
        return Some(TokenKind::LessEqual);
    }
    if w.len() == 1 && w[0] == '!' {
        return Some(TokenKind::Bang);
    }
    if w.len() == 1 && w[0] == '=' {
        return Some(TokenKind::Equal);
    }
    if w.len() == 1 && w[0] == '>' {
        return Some(TokenKind::Greater);
    }
    if w.len() == 1 && w[0] == '<' {
        return Some(TokenKind::Less);
    }
    if w.len() == 1 && w[0] == '(' {
        return Some(TokenKind::LeftParen);
    }
    if w.len() == 1 && w[0] == ')' {
        return Some(TokenKind::RightParen);
    }
    if w.len() == 1 && w[0] == '{' {
        return Some(TokenKind::LeftBrace);
    }
    if w.len() == 1 && w[0] == '}' {
        return Some(TokenKind::RightBrace);
    }
    if w.len() == 1 && w[0] == ',' {
        return Some(TokenKind::Comma);
    }
    if w.len() == 1 && w[0] == '.' {
        return Some(TokenKind::Dot);
    }
    if w.len() == 1 && w[0] == '-' {
        return Some(TokenKind::Minus);
    }
    if w.len() == 1 && w[0] == '+' {
        return Some(TokenKind::Plus);
    }
    if w.len() == 1 && w[0] == ';' {
        return Some(TokenKind::Semicolon);
    }
    if w.len() == 1 && w[0] == '/' {
        return Some(TokenKind::Slash);
    }
    if w.len() == 1 && w[0] == '*' {
        return Some(TokenKind::Star);
    }
    None
}


// ---------------------------------------------------------------------------
// Classes of characters
// ---------------------------------------------------------------------------

/// An ASCII letter or digit, or an underscore.
pub open spec fn is_ident_char(c: char) -> bool {
    ('a' <= c && c <= 'z') || ('A' <= c && c <= 'Z') || ('0' <= c && c <= '9') || c == '_'
}

/// A digit other than zero.
pub open spec fn is_nonzero_digit(c: char) -> bool {
    '1' <= c && c <= '9'
}

/// A tab, a carriage return or a space.
pub open spec fn is_blank(c: char) -> bool {
    c == '\t' || c == '\r' || c == ' '
}

/// Accepts the characters of a word.
pub struct IdentChar;

impl CharPredicate for IdentChar {
    open spec fn spec_test(&self, c: char) -> bool {
        is_ident_char(c)
    }

    fn test(&self, c: char) -> (b: bool) {
        (c >= 'a' && c <= 'z') || (c >= 'A' && c <= 'Z') || (c >= '0' && c <= '9') || c == '_'
    }
}

/// Accepts the digits 1 to 9.
pub struct NonZeroDigit;

impl CharPredicate for NonZeroDigit {
    open spec fn spec_test(&self, c: char) -> bool {
        is_nonzero_digit(c)
    }

    fn test(&self, c: char) -> (b: bool) {
        c >= '1' && c <= '9'
    }
}

/// Accepts every character but the double quote.
pub struct NotQuote;

impl CharPredicate for NotQuote {
    open spec fn spec_test(&self, c: char) -> bool {
        c != '"'
    }

    fn test(&self, c: char) -> (b: bool) {
        c != '"'
    }
}

/// Accepts tabs, carriage returns and spaces.
pub struct Blank;

impl CharPredicate for Blank {
    open spec fn spec_test(&self, c: char) -> bool {
        is_blank(c)
    }

    fn test(&self, c: char) -> (b: bool) {
        c == '\t' || c == '\r' || c == ' '
    }
}

// ---------------------------------------------------------------------------
// Transformations
// ---------------------------------------------------------------------------

/// The string of one character.
fn char_to_string(c: char) -> (r: String)
    ensures
        r@ == seq![c],
{
    let mut r = String::new();
    push_char(&mut r, c);
    r
}

/// The string of the characters `chars`.
pub struct CollectChars;

impl MapFn<Vec<char>, String> for CollectChars {
    open spec fn spec_apply(&self, x: Seq<char>) -> Seq<char> {
        x
    }

    fn apply(&self, x: Vec<char>) -> (r: String) {
        let mut r = String::new();
        let mut i: usize = 0;
        while i < x.len()
            invariant
                i <= x@.len(),
                r@ == x@.take(i as int),
            decreases x@.len() - i,
        {
            push_char(&mut r, x[i]);
            i = i + 1;
            assert(r@ =~= x@.take(i as int));
        }
        assert(x@.take(x@.len() as int) =~= x@);
        proof {
            assert(x.deep_view() =~= x@);
        }
        r
    }
}

/// The string of one character.
pub struct CharToString;

impl MapFn<char, String> for CharToString {
    open spec fn spec_apply(&self, x: char) -> Seq<char> {
        seq![x]
    }

    fn apply(&self, x: char) -> (r: String) {
        char_to_string(x)
    }
}

/// The string of two characters.
pub struct ConcatPair;

impl MapFn<(char, char), String> for ConcatPair {
    open spec fn spec_apply(&self, x: (char, char)) -> Seq<char> {
        seq![x.0, x.1]
    }

    fn apply(&self, x: (char, char)) -> (r: String) {
        let mut r = String::new();
        push_char(&mut r, x.0);
        push_char(&mut r, x.1);
        assert(r@ =~= seq![x.0, x.1]);
        r
    }
}

/// The strings `x`, one after the other.
pub struct ConcatStrings;

impl MapFn<Vec<String>, String> for ConcatStrings {
    open spec fn spec_apply(&self, x: Seq<Seq<char>>) -> Seq<char> {
        x.flatten_alt()
    }

    fn apply(&self, x: Vec<String>) -> (r: String) {
        let ghost xs = x.deep_view();
        let mut r = String::new();
        let mut i: usize = 0;
        while i < x.len()
            invariant
                i <= x@.len(),
                xs == x.deep_view(),
                r@ == xs.take(i as int).flatten_alt(),
            decreases x@.len() - i,
        {
            assert(xs.take(i + 1).drop_last() =~= xs.take(i as int));
            r.append(x[i].as_str());
            i = i + 1;
        }
        assert(xs.take(x@.len() as int) =~= xs);
        r
    }
}

/// Drops what was parsed.
pub struct Discard;

impl MapFn<Vec<char>, ()> for Discard {
    open spec fn spec_apply(&self, x: Seq<char>) -> () {
        ()
    }

    fn apply(&self, x: Vec<char>) -> (r: ()) {
        ()
    }
}

/// A token of kind `kind` and lexeme `lexeme`, at the line and position of
/// `s`, with `s` unchanged.
pub open spec fn token_at(kind: TokenKind, lexeme: Seq<char>, s: StateModel) -> (
    TokenModel,
    StateModel,
) {
    (TokenModel { kind, lexeme, line: s.line, position: s.position }, s)
}

/// The kind of a word: its keyword, if it is one, else `Identifier`.
pub open spec fn word_kind(w: Seq<char>) -> TokenKind {
    match keyword_kind(w) {
        Some(k) => k,
        None => TokenKind::Identifier,
    }
}

/// Makes an identifier or a keyword of a word.
pub struct WordToken;

impl MapWithRestFn<String, Token> for WordToken {
    open spec fn accepts(&self, x: Seq<char>, rest: StateModel) -> bool {
        true
    }

    open spec fn spec_apply(&self, x: Seq<char>, rest: StateModel) -> (TokenModel, StateModel) {
        token_at(word_kind(x), x, rest)
    }

    fn apply(&self, x: String, rest: ParseState) -> (r: (Token, ParseState)) {
        let kind = match lexeme_to_token_kind(x.as_str()) {
            Some(k) => k,
            None => TokenKind::Identifier,
        };
        (Token { kind, lexeme: x, line: rest.line, position: rest.position }, rest)
    }
}

/// Makes a token of a fixed kind.
pub struct KindToken {
    pub kind: TokenKind,
}

impl MapWithRestFn<String, Token> for KindToken {
    open spec fn accepts(&self, x: Seq<char>, rest: StateModel) -> bool {
        true
    }

    open spec fn spec_apply(&self, x: Seq<char>, rest: StateModel) -> (TokenModel, StateModel) {
        token_at(self.kind, x, rest)
    }

    fn apply(&self, x: String, rest: ParseState) -> (r: (Token, ParseState)) {
        (Token { kind: self.kind, lexeme: x, line: rest.line, position: rest.position }, rest)
    }
}

/// Makes a token of an operator.
pub struct LexemeToken;

impl MapWithRestFn<String, Token> for LexemeToken {
    open spec fn accepts(&self, x: Seq<char>, rest: StateModel) -> bool {
        keyword_kind(x) is Some
    }

    open spec fn spec_apply(&self, x: Seq<char>, rest: StateModel) -> (TokenModel, StateModel) {
        token_at(keyword_kind(x)->Some_0, x, rest)
    }

    fn apply(&self, x: String, rest: ParseState) -> (r: (Token, ParseState)) {
        let kind = lexeme_to_token_kind(x.as_str()).unwrap();
        (Token { kind, lexeme: x, line: rest.line, position: rest.position }, rest)
    }
}

/// Makes a token of a punctuation mark.
pub struct CharToken;

impl MapWithRestFn<char, Token> for CharToken {
    open spec fn accepts(&self, x: char, rest: StateModel) -> bool {
        keyword_kind(seq![x]) is Some
    }

    open spec fn spec_apply(&self, x: char, rest: StateModel) -> (TokenModel, StateModel) {
        token_at(keyword_kind(seq![x])->Some_0, seq![x], rest)
    }

    fn apply(&self, x: char, rest: ParseState) -> (r: (Token, ParseState)) {
        let lexeme = char_to_string(x);
        let kind = lexeme_to_token_kind(lexeme.as_str()).unwrap();
        (Token { kind, lexeme, line: rest.line, position: rest.position }, rest)
    }
}

/// The state after the line breaks `breaks`: the line moves on by their
/// number and the position goes back to 1.
pub open spec fn after_breaks(breaks: Seq<char>, s: StateModel) -> StateModel {
    StateModel { rest: s.rest, line: (s.line + breaks.len()) as usize, position: 1 }
}

/// Counts line breaks.
pub struct CountLines;

impl MapWithRestFn<Vec<char>, ()> for CountLines {
    open spec fn accepts(&self, x: Seq<char>, rest: StateModel) -> bool {
        rest.line + x.len() <= usize::MAX
    }

    open spec fn spec_apply(&self, x: Seq<char>, rest: StateModel) -> ((), StateModel) {
        ((), after_breaks(x, rest))
    }

    fn apply(&self, x: Vec<char>, rest: ParseState) -> (r: ((), ParseState)) {
        let mut rest = rest;
        rest.line = rest.line + x.len();
        rest.position = 1;
        ((), rest)
    }
}

// ---------------------------------------------------------------------------
// Meanings of the lexer's parsers
// ---------------------------------------------------------------------------

/// The meaning of `zero`.
pub open spec fn zero_sem() -> ParseFn<char> {
    char_sem('0')
}

/// The meaning of `digit`.
pub open spec fn digit_sem() -> ParseFn<char> {
    satisfy_sem(|c: char| is_nonzero_digit(c))
}

/// The meaning of `zero_or_digit`.
pub open spec fn zero_or_digit_sem() -> ParseFn<Seq<char>> {
    map_sem(or_sem(seq![zero_sem(), digit_sem()]), |c: char| seq![c])
}

/// The meaning of `whitespaces`.
pub open spec fn whitespaces_sem() -> ParseFn<()> {
    map_sem(many0_sem(satisfy_sem(|c: char| is_blank(c))), |x: Seq<char>| ())
}

/// The meaning of `linebreaks`.
pub open spec fn linebreaks_sem() -> ParseFn<()> {
    map_with_rest_sem(
        many0_sem(char_sem('\n')),
        |x: Seq<char>, s: StateModel| ((), after_breaks(x, s)),
    )
}

/// The meaning of `identifier_or_keyword`.
pub open spec fn identifier_or_keyword_sem() -> ParseFn<TokenModel> {
    map_with_rest_sem(
        map_sem(many1_sem(satisfy_sem(|c: char| is_ident_char(c))), |x: Seq<char>| x),
        |x: Seq<char>, s: StateModel| token_at(word_kind(x), x, s),
    )
}

/// The meaning of `string`.
pub open spec fn string_sem() -> ParseFn<TokenModel> {
    map_with_rest_sem(
        crate::combinators::bracket_sem(
            char_sem('"'),
            map_sem(many0_sem(satisfy_sem(|c: char| c != '"')), |x: Seq<char>| x),
            char_sem('"'),
        ),
        |x: Seq<char>, s: StateModel| token_at(TokenKind::Str, x, s),
    )
}

// ---------------------------------------------------------------------------
// The lexer's parsers
// ---------------------------------------------------------------------------

/// Consumes the digit 0.
pub fn zero() -> (r: BoxedParser<char>)
    ensures
        r.well_formed(),
        sem(&r) == zero_sem(),
        well_behaved(sem(&r)),
        productive(sem(&r)),
{
    proof {
        lemma_satisfy_behaves(is_char('0'));
    }
    char('0')
}

/// Consumes one of the digits 1 to 9.
pub fn digit() -> (r: BoxedParser<char>)
    ensures
        r.well_formed(),
        sem(&r) == digit_sem(),
        well_behaved(sem(&r)),
        productive(sem(&r)),
{
    let r = satisfy(NonZeroDigit);
    proof {
        assert(pred_sem(&NonZeroDigit) =~= (|c: char| is_nonzero_digit(c)));
        lemma_satisfy_behaves(|c: char| is_nonzero_digit(c));
    }
    r
}

/// Consumes one decimal digit and yields it as a string.
pub fn zero_or_digit() -> (r: BoxedParser<String>)
    ensures
        r.well_formed(),
        sem(&r) == zero_or_digit_sem(),
        well_behaved(sem(&r)),
        productive(sem(&r)),
{
    let z = zero();
    let d = digit();
    let mut ps: Vec<BoxedParser<char>> = Vec::new();
    ps.push(z);
    ps.push(d);
    let ghost fs = seq![zero_sem(), digit_sem()];
    proof {
        assert(sems(ps@) =~= fs);
        assert forall|i: int| 0 <= i < fs.len() implies well_behaved(#[trigger] fs[i]) && productive(fs[i]) by {
            if i == 0 {
                assert(fs[i] == zero_sem());
            } else {
                assert(fs[i] == digit_sem());
            }
        }
        lemma_or_behaves(fs);
        lemma_map_behaves(or_sem(fs), |c: char| seq![c]);
        assert(map_fn_sem(&CharToString) =~= (|c: char| seq![c]));
    }
    let o = or(ps);
    crate::combinators::map(o, CharToString)
}

/// Skips tabs, carriage returns and spaces; never fails.
pub fn whitespaces() -> (r: BoxedParser<()>)
    ensures
        r.well_formed(),
        sem(&r) == whitespaces_sem(),
        forall|s: StateModel| s.wf() ==> (#[trigger] sem(&r)(s)) == blanks_direct(s),
        well_behaved(sem(&r)),
{
    proof {
        assert forall|s: StateModel| s.wf() implies (#[trigger] whitespaces_sem()(s)) == blanks_direct(s) by {
            lemma_whitespaces(s);
        }
    }
    let b = satisfy(Blank);
    proof {
        assert(pred_sem(&Blank) =~= (|c: char| is_blank(c)));
        lemma_satisfy_behaves(|c: char| is_blank(c));
        lemma_many0_behaves(satisfy_sem(|c: char| is_blank(c)));
        lemma_map_behaves(many0_sem(satisfy_sem(|c: char| is_blank(c))), |x: Seq<char>| ());
        assert(map_fn_sem(&Discard) =~= (|x: Seq<char>| ()));
    }
    crate::combinators::map(many0(b), Discard)
}


/// From a state that cannot overflow, the line breaks at the start of the
/// input are consumed and counted, and the position goes back to 1.
pub proof fn lemma_linebreaks(s: StateModel)
    requires
        s.wf(),
    ensures
        ({
            let n = span(is_char('\n'), s.rest);
            let s2 = StateModel { rest: s.rest.skip(n as int), line: (s.line + n) as usize, position: 1 };
            &&& linebreaks_sem()(s) == Ok::<_, ParseError>(((), s2))
            &&& n <= s.rest.len()
            &&& s2.wf()
            &&& s2.rest.is_suffix_of(s.rest)
        }),
{
    let pred = is_char('\n');
    let n = span(pred, s.rest);
    lemma_many0_satisfy(pred, s);
    lemma_span(pred, s.rest);
    lemma_satisfy_behaves(pred);
    lemma_many0_behaves(satisfy_sem(pred));
    assert(many0_sem(char_sem('\n'))(s) is Ok);
}

/// Skips line breaks, moves the line on by their number and sets the
/// position to 1; never fails.
pub fn linebreaks() -> (r: BoxedParser<()>)
    ensures
        r.well_formed(),
        sem(&r) == linebreaks_sem(),
        forall|s: StateModel| s.wf() ==> (#[trigger] sem(&r)(s)) == breaks_direct(s),
        well_behaved(sem(&r)),
{
    proof {
        assert forall|s: StateModel| s.wf() implies (#[trigger] linebreaks_sem()(s)) == breaks_direct(s) by {
            lemma_linebreaks(s);
        }
    }
    let m = many0(char('\n'));
    let ghost pred = is_char('\n');
    proof {
        lemma_satisfy_behaves(pred);
        assert forall|s: StateModel| s.wf() && (#[trigger] sem(&m)(s)) is Ok implies {
            let (x, s2) = sem(&m)(s)->Ok_0;
            let s3 = CountLines.spec_apply(x, s2).1;
            s2.wf() ==> CountLines.accepts(x, s2) && s3.wf() && s3.rest.is_suffix_of(s2.rest)
        } by {
            lemma_many0_satisfy(pred, s);
            lemma_span(pred, s.rest);
            let (x, s2) = sem(&m)(s)->Ok_0;
            lemma_suffix_refl(s2.rest);
        }
        assert(map_rest_fn_sem(&CountLines) =~= (|x: Seq<char>, s: StateModel| ((), after_breaks(x, s))));
        assert forall|s: StateModel| s.wf() && (#[trigger] linebreaks_sem()(s)) is Ok implies {
            let s2 = linebreaks_sem()(s)->Ok_0.1;
            s2.wf() && s2.rest.is_suffix_of(s.rest)
        } by {
            lemma_linebreaks(s);
        }
    }
    map_with_rest(m, CountLines)
}

/// Reads a word: a keyword token if it is a keyword, else an identifier.
pub fn identifier_or_keyword() -> (r: BoxedParser<Token>)
    ensures
        r.well_formed(),
        sem(&r) == identifier_or_keyword_sem(),
        forall|s: StateModel| s.wf() ==> (#[trigger] sem(&r)(s)) == word_direct(s),
        well_behaved(sem(&r)),
        productive(sem(&r)),
{
    proof {
        assert forall|s: StateModel| s.wf() implies (#[trigger] identifier_or_keyword_sem()(s)) == word_direct(s) by {
            lemma_identifier_or_keyword(s);
        }
    }
    let letters = many1(satisfy(IdentChar));
    let ghost pred = |c: char| is_ident_char(c);
    proof {
        assert(pred_sem(&IdentChar) =~= pred);
        lemma_satisfy_behaves(pred);
        lemma_many1_behaves(satisfy_sem(pred));
        lemma_map_behaves(many1_sem(satisfy_sem(pred)), |x: Seq<char>| x);
        assert(map_fn_sem(&CollectChars) =~= (|x: Seq<char>| x));
    }
    let word = crate::combinators::map(letters, CollectChars);
    proof {
        assert forall|s: StateModel| s.wf() && (#[trigger] sem(&word)(s)) is Ok implies {
            let (x, s2) = sem(&word)(s)->Ok_0;
            let s3 = WordToken.spec_apply(x, s2).1;
            s2.wf() ==> WordToken.accepts(x, s2) && s3.wf() && s3.rest.is_suffix_of(s2.rest)
        } by {
            let (x, s2) = sem(&word)(s)->Ok_0;
            lemma_suffix_refl(s2.rest);
        }
        let f = |x: Seq<char>, s: StateModel| token_at(word_kind(x), x, s);
        assert(map_rest_fn_sem(&WordToken) =~= f);
        assert forall|x: Seq<char>, s: StateModel| s.wf() implies (#[trigger] f(x, s)).1.wf() && f(x, s).1.rest.is_suffix_of(s.rest) by {
            lemma_suffix_refl(s.rest);
        }
        lemma_map_with_rest_behaves(sem(&word), f);
    }
    map_with_rest(word, WordToken)
}

/// Reads a string between double quotes; the token holds what is between
/// them.
pub fn string() -> (r: BoxedParser<Token>)
    ensures
        r.well_formed(),
        sem(&r) == string_sem(),
        forall|s: StateModel| s.wf() ==> (#[trigger] sem(&r)(s)) == string_direct(s),
        well_behaved(sem(&r)),
        productive(sem(&r)),
{
    proof {
        assert forall|s: StateModel| s.wf() implies (#[trigger] string_sem()(s)) == string_direct(s) by {
            lemma_string(s);
        }
    }
    let ghost pred = |c: char| c != '"';
    let body = many0(satisfy(NotQuote));
    proof {
        assert(pred_sem(&NotQuote) =~= pred);
        lemma_satisfy_behaves(pred);
        lemma_satisfy_behaves(is_char('"'));
        lemma_many0_behaves(satisfy_sem(pred));
        lemma_map_behaves(many0_sem(satisfy_sem(pred)), |x: Seq<char>| x);
        assert(map_fn_sem(&CollectChars) =~= (|x: Seq<char>| x));
    }
    let body = crate::combinators::map(body, CollectChars);
    let quoted = crate::combinators::bracket(char('"'), body, char('"'));
    proof {
        crate::combinator_laws::lemma_bracket_behaves(char_sem('"'), sem(&body), char_sem('"'));
        assert forall|s: StateModel| s.wf() && (#[trigger] sem(&quoted)(s)) is Ok implies {
            let (x, s2) = sem(&quoted)(s)->Ok_0;
            let s3 = (KindToken { kind: TokenKind::Str }).spec_apply(x, s2).1;
            s2.wf() ==> (KindToken { kind: TokenKind::Str }).accepts(x, s2) && s3.wf()
                && s3.rest.is_suffix_of(s2.rest)
        } by {
            let (x, s2) = sem(&quoted)(s)->Ok_0;
            lemma_suffix_refl(s2.rest);
        }
        let f = |x: Seq<char>, s: StateModel| token_at(TokenKind::Str, x, s);
        assert(map_rest_fn_sem(&KindToken { kind: TokenKind::Str }) =~= f);
        assert forall|x: Seq<char>, s: StateModel| s.wf() implies (#[trigger] f(x, s)).1.wf() && f(x, s).1.rest.is_suffix_of(s.rest) by {
            lemma_suffix_refl(s.rest);
        }
        lemma_map_with_rest_behaves(sem(&quoted), f);
    }
    map_with_rest(quoted, KindToken { kind: TokenKind::Str })
}


/// The meaning of one or more `zero_or_digit`, joined.
pub open spec fn digits_sem() -> ParseFn<Seq<char>> {
    map_sem(many1_sem(zero_or_digit_sem()), |ds: Seq<Seq<char>>| ds.flatten_alt())
}

/// The meaning of `integer`.
pub open spec fn integer_sem() -> ParseFn<Seq<char>> {
    |s: StateModel|
        match map_sem(digit_sem(), |c: char| seq![c])(s) {
            Err(e) => Err(e),
            Ok((start, s1)) => match digits_sem()(s1) {
                Err(e) => Err(e),
                Ok((following, s2)) => Ok((start + following, s2)),
            },
        }
}

/// The meaning of `float`.
pub open spec fn float_sem() -> ParseFn<Seq<char>> {
    |s: StateModel|
        match integer_sem()(s) {
            Err(e) => Err(e),
            Ok((int_part, s1)) => match char_sem('.')(s1) {
                Err(e) => Err(e),
                Ok((_, s2)) => match digits_sem()(s2) {
                    Err(e) => Err(e),
                    Ok((float_part, s3)) => Ok((int_part + seq!['.'] + float_part, s3)),
                },
            },
        }
}

/// The meaning of `number`.
pub open spec fn number_sem() -> ParseFn<TokenModel> {
    map_with_rest_sem(
        or_sem(seq![float_sem(), integer_sem(), zero_or_digit_sem()]),
        |x: Seq<char>, s: StateModel| token_at(TokenKind::Number, x, s),
    )
}

proof fn lemma_digits_behave()
    ensures
        well_behaved(digits_sem()),
        productive(digits_sem()),
        well_behaved(map_sem(digit_sem(), |c: char| seq![c])),
        productive(map_sem(digit_sem(), |c: char| seq![c])),
{
    let ghost fs = seq![zero_sem(), digit_sem()];
    lemma_satisfy_behaves(is_char('0'));
    lemma_satisfy_behaves(|c: char| is_nonzero_digit(c));
    assert forall|i: int| 0 <= i < fs.len() implies well_behaved(#[trigger] fs[i]) && productive(fs[i]) by {
        if i == 0 {
            assert(fs[i] == zero_sem());
        } else {
            assert(fs[i] == digit_sem());
        }
    }
    lemma_or_behaves(fs);
    lemma_map_behaves(or_sem(fs), |c: char| seq![c]);
    lemma_many1_behaves(zero_or_digit_sem());
    lemma_map_behaves(many1_sem(zero_or_digit_sem()), |ds: Seq<Seq<char>>| ds.flatten_alt());
    lemma_map_behaves(digit_sem(), |c: char| seq![c]);
}

proof fn lemma_integer_behaves()
    ensures
        well_behaved(integer_sem()),
        productive(integer_sem()),
{
    lemma_digits_behave();
    let first = map_sem(digit_sem(), |c: char| seq![c]);
    assert forall|s: StateModel| s.wf() && (#[trigger] integer_sem()(s)) is Ok implies {
        let s2 = integer_sem()(s)->Ok_0.1;
        s2.wf() && s2.rest.is_suffix_of(s.rest) && s2.rest.len() < s.rest.len()
    } by {
        assert(first(s) is Ok);
        let s1 = first(s)->Ok_0.1;
        assert(digits_sem()(s1) is Ok);
        let s2 = digits_sem()(s1)->Ok_0.1;
        lemma_suffix_trans(s2.rest, s1.rest, s.rest);
    }
}

proof fn lemma_float_behaves()
    ensures
        well_behaved(float_sem()),
        productive(float_sem()),
{
    lemma_digits_behave();
    lemma_integer_behaves();
    lemma_satisfy_behaves(is_char('.'));
    assert forall|s: StateModel| s.wf() && (#[trigger] float_sem()(s)) is Ok implies {
        let s3 = float_sem()(s)->Ok_0.1;
        s3.wf() && s3.rest.is_suffix_of(s.rest) && s3.rest.len() < s.rest.len()
    } by {
        assert(integer_sem()(s) is Ok);
        let s1 = integer_sem()(s)->Ok_0.1;
        assert(char_sem('.')(s1) is Ok);
        let s2 = char_sem('.')(s1)->Ok_0.1;
        assert(digits_sem()(s2) is Ok);
        let s3 = digits_sem()(s2)->Ok_0.1;
        lemma_suffix_trans(s3.rest, s2.rest, s1.rest);
        lemma_suffix_trans(s3.rest, s1.rest, s.rest);
    }
}

/// Runs `digit` and gives it as a string, then many digits; the
/// characters of both.
pub struct IntegerParser;

impl Parser<String> for IntegerParser {
    open spec fn spec_parse(&self, s: StateModel) -> Result<(Seq<char>, StateModel), ParseError> {
        integer_sem()(s)
    }

    open spec fn well_formed(&self) -> bool {
        true
    }

    fn parse(&self, input: ParseState) -> (res: Result<(String, ParseState), ParseError>) {
        proof {
            lemma_digits_behave();
            assert(map_fn_sem(&CharToString) =~= (|c: char| seq![c]));
            assert(map_fn_sem(&ConcatStrings) =~= (|ds: Seq<Seq<char>>| ds.flatten_alt()));
        }
        let first = crate::combinators::map(digit(), CharToString);
        let (start, rest) = match first.parse(input) {
            Ok(r) => r,
            Err(e) => {
                return Err(e);
            },
        };
        let following = crate::combinators::map(many1(zero_or_digit()), ConcatStrings);
        let (following, rest) = match following.parse(rest) {
            Ok(r) => r,
            Err(e) => {
                return Err(e);
            },
        };
        let mut lexeme = start;
        lexeme.append(following.as_str());
        Ok((lexeme, rest))
    }
}

/// Reads a digit from 1 to 9 followed by one or more digits.
pub fn integer() -> (r: BoxedParser<String>)
    ensures
        r.well_formed(),
        sem(&r) == integer_sem(),
        forall|s: StateModel| s.wf() ==> (#[trigger] sem(&r)(s)) == integer_direct(s),
        well_behaved(sem(&r)),
        productive(sem(&r)),
{
    proof {
        assert forall|s: StateModel| s.wf() implies (#[trigger] integer_sem()(s)) == integer_direct(s) by {
            lemma_integer(s);
        }
    }
    proof {
        lemma_integer_behaves();
    }
    let r = BoxedParser { inner: Box::new(IntegerParser) };
    assert(sem(&r) =~= integer_sem());
    r
}

/// An integer, a dot and many digits.
pub struct FloatParser;

impl Parser<String> for FloatParser {
    open spec fn spec_parse(&self, s: StateModel) -> Result<(Seq<char>, StateModel), ParseError> {
        float_sem()(s)
    }

    open spec fn well_formed(&self) -> bool {
        true
    }

    fn parse(&self, input: ParseState) -> (res: Result<(String, ParseState), ParseError>) {
        proof {
            lemma_digits_behave();
            assert(map_fn_sem(&ConcatStrings) =~= (|ds: Seq<Seq<char>>| ds.flatten_alt()));
        }
        let (int_part, rest) = match integer().parse(input) {
            Ok(r) => r,
            Err(e) => {
                return Err(e);
            },
        };
        let rest = match char('.').parse(rest) {
            Ok((_, rest)) => rest,
            Err(e) => {
                return Err(e);
            },
        };
        let digits = crate::combinators::map(many1(zero_or_digit()), ConcatStrings);
        let (float_part, rest) = match digits.parse(rest) {
            Ok(r) => r,
            Err(e) => {
                return Err(e);
            },
        };
        let ghost ip = int_part@;
        let mut lexeme = int_part;
        push_char(&mut lexeme, '.');
        lexeme.append(float_part.as_str());
        assert(lexeme@ =~= ip + seq!['.'] + float_part@);
        Ok((lexeme, rest))
    }
}

/// Reads an integer, a dot and one or more digits.
pub fn float() -> (r: BoxedParser<String>)
    ensures
        r.well_formed(),
        sem(&r) == float_sem(),
        forall|s: StateModel| s.wf() ==> (#[trigger] sem(&r)(s)) == float_direct(s),
        well_behaved(sem(&r)),
        productive(sem(&r)),
{
    proof {
        assert forall|s: StateModel| s.wf() implies (#[trigger] float_sem()(s)) == float_direct(s) by {
            lemma_float(s);
        }
    }
    proof {
        lemma_float_behaves();
    }
    let r = BoxedParser { inner: Box::new(FloatParser) };
    assert(sem(&r) =~= float_sem());
    r
}

/// Reads a float, else an integer, else one digit, as a number token.
pub fn number() -> (r: BoxedParser<Token>)
    ensures
        r.well_formed(),
        sem(&r) == number_sem(),
        forall|s: StateModel| s.wf() ==> (#[trigger] sem(&r)(s)) == number_direct(s),
        well_behaved(sem(&r)),
        productive(sem(&r)),
{
    proof {
        assert forall|s: StateModel| s.wf() implies (#[trigger] number_sem()(s)) == number_direct(s) by {
            lemma_number(s);
        }
    }
    let f = float();
    let i = integer();
    let z = zero_or_digit();
    let mut ps: Vec<BoxedParser<String>> = Vec::new();
    ps.push(f);
    ps.push(i);
    ps.push(z);
    let ghost fs = seq![float_sem(), integer_sem(), zero_or_digit_sem()];
    proof {
        assert(sems(ps@) =~= fs);
        assert forall|i: int| 0 <= i < fs.len() implies well_behaved(#[trigger] fs[i]) && productive(fs[i]) by {
            if i == 0 {
                assert(fs[i] == float_sem());
            } else if i == 1 {
                assert(fs[i] == integer_sem());
            } else {
                assert(fs[i] == zero_or_digit_sem());
            }
        }
        lemma_or_behaves(fs);
    }
    let alternatives = or(ps);
    proof {
        assert forall|s: StateModel| s.wf() && (#[trigger] sem(&alternatives)(s)) is Ok implies {
            let (x, s2) = sem(&alternatives)(s)->Ok_0;
            let s3 = (KindToken { kind: TokenKind::Number }).spec_apply(x, s2).1;
            s2.wf() ==> (KindToken { kind: TokenKind::Number }).accepts(x, s2) && s3.wf()
                && s3.rest.is_suffix_of(s2.rest)
        } by {
            let (x, s2) = sem(&alternatives)(s)->Ok_0;
            lemma_suffix_refl(s2.rest);
        }
        let g = |x: Seq<char>, s: StateModel| token_at(TokenKind::Number, x, s);
        assert(map_rest_fn_sem(&KindToken { kind: TokenKind::Number }) =~= g);
        assert forall|x: Seq<char>, s: StateModel| s.wf() implies (#[trigger] g(x, s)).1.wf() && g(x, s).1.rest.is_suffix_of(s.rest) by {
            lemma_suffix_refl(s.rest);
        }
        lemma_map_with_rest_behaves(or_sem(fs), g);
    }
    map_with_rest(alternatives, KindToken { kind: TokenKind::Number })
}


/// `a`, or `a` followed by `=`.
pub open spec fn operator_sem(a: char) -> ParseFn<Seq<char>> {
    or_sem(
        seq![
            map_sem(chain_sem(char_sem(a), char_sem('=')), |p: (char, char)| seq![p.0, p.1]),
            map_sem(char_sem(a), |c: char| seq![c]),
        ],
    )
}

/// The first characters of the operators.
pub open spec fn operator_starts() -> Seq<char> {
    seq!['!', '=', '>', '<']
}

/// The meaning of the operators tried in turn.
pub open spec fn operators_sem() -> ParseFn<Seq<char>> {
    or_sem(operator_starts().map_values(|a: char| operator_sem(a)))
}

/// The meaning of `paired_chars`.
pub open spec fn paired_chars_sem() -> ParseFn<TokenModel> {
    map_with_rest_sem(
        operators_sem(),
        |x: Seq<char>, s: StateModel| token_at(keyword_kind(x)->Some_0, x, s),
    )
}

/// The punctuation marks.
pub open spec fn punctuation() -> Seq<char> {
    seq!['(', ')', '{', '}', ',', '.', '-', '+', ';', '/', '*']
}

/// The meaning of `single_char`.
pub open spec fn single_char_sem() -> ParseFn<TokenModel> {
    map_with_rest_sem(
        or_sem(punctuation().map_values(|c: char| char_sem(c))),
        |c: char, s: StateModel| token_at(keyword_kind(seq![c])->Some_0, seq![c], s),
    )
}

/// The kinds of the operators and punctuation marks.
pub proof fn lemma_symbol_kinds()
    ensures
        keyword_kind(seq!['!', '=']) == Some(TokenKind::BangEqual),
        keyword_kind(seq!['=', '=']) == Some(TokenKind::DoubleEqual),
        keyword_kind(seq!['>', '=']) == Some(TokenKind::GreaterEqual),
        keyword_kind(seq!['<', '=']) == Some(TokenKind::LessEqual),
        keyword_kind(seq!['!']) == Some(TokenKind::Bang),
        keyword_kind(seq!['=']) == Some(TokenKind::Equal),
        keyword_kind(seq!['>']) == Some(TokenKind::Greater),
        keyword_kind(seq!['<']) == Some(TokenKind::Less),
        keyword_kind(seq!['(']) == Some(TokenKind::LeftParen),
        keyword_kind(seq![')']) == Some(TokenKind::RightParen),
        keyword_kind(seq!['{']) == Some(TokenKind::LeftBrace),
        keyword_kind(seq!['}']) == Some(TokenKind::RightBrace),
        keyword_kind(seq![',']) == Some(TokenKind::Comma),
        keyword_kind(seq!['.']) == Some(TokenKind::Dot),
        keyword_kind(seq!['-']) == Some(TokenKind::Minus),
        keyword_kind(seq!['+']) == Some(TokenKind::Plus),
        keyword_kind(seq![';']) == Some(TokenKind::Semicolon),
        keyword_kind(seq!['/']) == Some(TokenKind::Slash),
        keyword_kind(seq!['*']) == Some(TokenKind::Star),
{
}

proof fn lemma_operator_behaves(a: char)
    ensures
        well_behaved(operator_sem(a)),
        productive(operator_sem(a)),
{
    let f2 = |p: (char, char)| seq![p.0, p.1];
    let f1 = |c: char| seq![c];
    let fs = seq![map_sem(chain_sem(char_sem(a), char_sem('=')), f2), map_sem(char_sem(a), f1)];
    lemma_satisfy_behaves(is_char(a));
    lemma_satisfy_behaves(is_char('='));
    crate::combinator_laws::lemma_chain_behaves(char_sem(a), char_sem('='));
    lemma_map_behaves(chain_sem(char_sem(a), char_sem('=')), f2);
    lemma_map_behaves(char_sem(a), f1);
    assert forall|i: int| 0 <= i < fs.len() implies well_behaved(#[trigger] fs[i]) && productive(fs[i]) by {
        if i == 0 {
            assert(fs[i] == map_sem(chain_sem(char_sem(a), char_sem('=')), f2));
        } else {
            assert(fs[i] == map_sem(char_sem(a), f1));
        }
    }
    lemma_or_behaves(fs);
}

/// `a`, or `a` followed by `=`.
fn operator(a: char) -> (r: BoxedParser<String>)
    ensures
        r.well_formed(),
        sem(&r) == operator_sem(a),
        well_behaved(sem(&r)),
        productive(sem(&r)),
{
    let two = crate::combinators::map(chain(char(a), char('=')), ConcatPair);
    let one = crate::combinators::map(char(a), CharToString);
    let mut ps: Vec<BoxedParser<String>> = Vec::new();
    ps.push(two);
    ps.push(one);
    let ghost f2 = |p: (char, char)| seq![p.0, p.1];
    let ghost f1 = |c: char| seq![c];
    let ghost fs = seq![
        map_sem(chain_sem(char_sem(a), char_sem('=')), f2),
        map_sem(char_sem(a), f1),
    ];
    proof {
        assert(map_fn_sem(&ConcatPair) =~= f2);
        assert(map_fn_sem(&CharToString) =~= f1);
        assert(sems(ps@) =~= fs);
        lemma_operator_behaves(a);
    }
    or(ps)
}

/// What an operator parser yields: its first character, alone or followed
/// by `=`.
proof fn lemma_operator_output(a: char, s: StateModel)
    ensures
        operator_sem(a)(s) matches Ok((x, _)) ==> x == seq![a, '='] || x == seq![a],
{
    let f2 = |p: (char, char)| seq![p.0, p.1];
    let f1 = |c: char| seq![c];
    let fs = seq![map_sem(chain_sem(char_sem(a), char_sem('=')), f2), map_sem(char_sem(a), f1)];
    lemma_first_match(fs, s);
    if operator_sem(a)(s) is Ok {
        let i = choose|i: int|
            0 <= i < fs.len() && (#[trigger] fs[i])(s) == crate::combinators::first_match(fs, s) && forall|j: int|
                0 <= j < i ==> (#[trigger] fs[j])(s) is Err;
        if i == 0 {
            assert(fs[0] == map_sem(chain_sem(char_sem(a), char_sem('=')), f2));
        } else {
            assert(fs[1] == map_sem(char_sem(a), f1));
        }
    }
}

/// Reads `!`, `=`, `>` or `<`, with an `=` after it if there is one.
pub fn paired_chars() -> (r: BoxedParser<Token>)
    ensures
        r.well_formed(),
        sem(&r) == paired_chars_sem(),
        forall|s: StateModel| s.wf() ==> (#[trigger] sem(&r)(s)) == operator_direct(s),
        well_behaved(sem(&r)),
        productive(sem(&r)),
{
    proof {
        assert forall|s: StateModel| s.wf() implies (#[trigger] paired_chars_sem()(s)) == operator_direct(s) by {
            lemma_paired_chars(s);
        }
    }
    let starts: [char; 4] = ['!', '=', '>', '<'];
    let mut ps: Vec<BoxedParser<String>> = Vec::new();
    let mut i: usize = 0;
    while i < 4
        invariant
            i <= 4,
            starts@ == operator_starts(),
            ps@.len() == i,
            sems(ps@) == operator_starts().take(i as int).map_values(|a: char| operator_sem(a)),
            forall|j: int| 0 <= j < i ==> #[trigger] ps@[j].well_formed(),
        decreases 4 - i,
    {
        let p = operator(starts[i]);
        let ghost before = ps@;
        ps.push(p);
        proof {
            let f = |a: char| operator_sem(a);
            assert forall|j: int| 0 <= j < i + 1 implies #[trigger] sems(ps@)[j]
                == operator_starts().take(i + 1).map_values(f)[j] by {
                if j < i {
                    assert(ps@[j] == before[j]);
                    assert(sems(before)[j] == operator_starts().take(i as int).map_values(f)[j]);
                }
            }
            assert(sems(ps@) =~= operator_starts().take(i + 1).map_values(f));
        }
        i = i + 1;
    }
    let ghost fs = operator_starts().map_values(|a: char| operator_sem(a));
    proof {
        assert(operator_starts().take(4) =~= operator_starts());
        assert forall|k: int| 0 <= k < fs.len() implies well_behaved(#[trigger] fs[k]) && productive(fs[k]) by {
            lemma_operator_behaves(operator_starts()[k]);
        }
        lemma_or_behaves(fs);
    }
    let alternatives = or(ps);
    let ghost g = |x: Seq<char>, s: StateModel| token_at(keyword_kind(x)->Some_0, x, s);
    proof {
        assert(map_rest_fn_sem(&LexemeToken) =~= g);
        assert forall|s: StateModel| s.wf() && (#[trigger] sem(&alternatives)(s)) is Ok implies {
            let (x, s2) = sem(&alternatives)(s)->Ok_0;
            let s3 = LexemeToken.spec_apply(x, s2).1;
            s2.wf() ==> LexemeToken.accepts(x, s2) && s3.wf() && s3.rest.is_suffix_of(s2.rest)
        } by {
            let (x, s2) = sem(&alternatives)(s)->Ok_0;
            lemma_suffix_refl(s2.rest);
            lemma_first_match(fs, s);
            let k = choose|k: int|
                0 <= k < fs.len() && (#[trigger] fs[k])(s) == crate::combinators::first_match(fs, s) && forall|j: int|
                    0 <= j < k ==> (#[trigger] fs[j])(s) is Err;
            let a = operator_starts()[k];
            lemma_operator_output(a, s);
            lemma_symbol_kinds();
        }
        assert forall|x: Seq<char>, s: StateModel| s.wf() implies (#[trigger] g(x, s)).1.wf() && g(x, s).1.rest.is_suffix_of(s.rest) by {
            lemma_suffix_refl(s.rest);
        }
        lemma_map_with_rest_behaves(or_sem(fs), g);
    }
    map_with_rest(alternatives, LexemeToken)
}

/// Reads one punctuation mark or one of `-`, `+`, `/` and `*`.
pub fn single_char() -> (r: BoxedParser<Token>)
    ensures
        r.well_formed(),
        sem(&r) == single_char_sem(),
        forall|s: StateModel| s.wf() ==> (#[trigger] sem(&r)(s)) == punctuation_direct(s),
        well_behaved(sem(&r)),
        productive(sem(&r)),
{
    proof {
        assert forall|s: StateModel| s.wf() implies (#[trigger] single_char_sem()(s)) == punctuation_direct(s) by {
            lemma_single_char(s);
        }
    }
    let marks: [char; 11] = ['(', ')', '{', '}', ',', '.', '-', '+', ';', '/', '*'];
    let mut ps: Vec<BoxedParser<char>> = Vec::new();
    let mut i: usize = 0;
    while i < 11
        invariant
            i <= 11,
            marks@ == punctuation(),
            ps@.len() == i,
            sems(ps@) == punctuation().take(i as int).map_values(|c: char| char_sem(c)),
            forall|j: int| 0 <= j < i ==> #[trigger] ps@[j].well_formed(),
        decreases 11 - i,
    {
        let p = char(marks[i]);
        let ghost before = ps@;
        ps.push(p);
        proof {
            let f = |c: char| char_sem(c);
            assert forall|j: int| 0 <= j < i + 1 implies #[trigger] sems(ps@)[j]
                == punctuation().take(i + 1).map_values(f)[j] by {
                if j < i {
                    assert(ps@[j] == before[j]);
                    assert(sems(before)[j] == punctuation().take(i as int).map_values(f)[j]);
                }
            }
            assert(sems(ps@) =~= punctuation().take(i + 1).map_values(f));
        }
        i = i + 1;
    }
    let ghost fs = punctuation().map_values(|c: char| char_sem(c));
    proof {
        assert(punctuation().take(11) =~= punctuation());
        assert forall|k: int| 0 <= k < fs.len() implies well_behaved(#[trigger] fs[k]) && productive(fs[k]) by {
            lemma_satisfy_behaves(is_char(punctuation()[k]));
        }
        lemma_or_behaves(fs);
    }
    let alternatives = or(ps);
    let ghost g = |c: char, s: StateModel| token_at(keyword_kind(seq![c])->Some_0, seq![c], s);
    proof {
        assert(map_rest_fn_sem(&CharToken) =~= g);
        assert forall|s: StateModel| s.wf() && (#[trigger] sem(&alternatives)(s)) is Ok implies {
            let (x, s2) = sem(&alternatives)(s)->Ok_0;
            let s3 = CharToken.spec_apply(x, s2).1;
            s2.wf() ==> CharToken.accepts(x, s2) && s3.wf() && s3.rest.is_suffix_of(s2.rest)
        } by {
            let (x, s2) = sem(&alternatives)(s)->Ok_0;
            lemma_suffix_refl(s2.rest);
            lemma_first_match(fs, s);
            let k = choose|k: int|
                0 <= k < fs.len() && (#[trigger] fs[k])(s) == crate::combinators::first_match(fs, s) && forall|j: int|
                    0 <= j < k ==> (#[trigger] fs[j])(s) is Err;
            assert(x == punctuation()[k]);
            lemma_symbol_kinds();
        }
        assert forall|x: char, s: StateModel| s.wf() implies (#[trigger] g(x, s)).1.wf() && g(x, s).1.rest.is_suffix_of(s.rest) by {
            lemma_suffix_refl(s.rest);
        }
        lemma_map_with_rest_behaves(or_sem(fs), g);
    }
    map_with_rest(alternatives, CharToken)
}


/// The ways to read a token, in the order they are tried.
pub open spec fn token_alternatives() -> Seq<ParseFn<TokenModel>> {
    seq![
        identifier_or_keyword_sem(),
        number_sem(),
        string_sem(),
        paired_chars_sem(),
        single_char_sem(),
    ]
}

/// The meaning of `scan_token`.
pub open spec fn scan_token_sem() -> ParseFn<TokenModel> {
    |s: StateModel|
        match linebreaks_sem()(s) {
            Err(e) => Err(e),
            Ok((_, s1)) => match whitespaces_sem()(s1) {
                Err(e) => Err(e),
                Ok((_, s2)) => or_sem(token_alternatives())(s2),
            },
        }
}

/// The meaning of `scan_tokens`.
pub open spec fn scan_tokens_sem() -> ParseFn<Seq<TokenModel>> {
    many1_sem(scan_token_sem())
}

/// Skips line breaks and blanks, then reads one token.
pub struct ScanTokenParser;

impl Parser<Token> for ScanTokenParser {
    open spec fn spec_parse(&self, s: StateModel) -> Result<(TokenModel, StateModel), ParseError> {
        scan_token_sem()(s)
    }

    open spec fn well_formed(&self) -> bool {
        true
    }

    fn parse(&self, input: ParseState) -> (res: Result<(Token, ParseState), ParseError>) {
        let rest = match linebreaks().parse(input) {
            Ok((_, rest)) => rest,
            Err(e) => {
                return Err(e);
            },
        };
        let rest = match whitespaces().parse(rest) {
            Ok((_, rest)) => rest,
            Err(e) => {
                return Err(e);
            },
        };
        let mut ps: Vec<BoxedParser<Token>> = Vec::new();
        ps.push(identifier_or_keyword());
        ps.push(number());
        ps.push(string());
        ps.push(paired_chars());
        ps.push(single_char());
        proof {
            assert(sems(ps@) =~= token_alternatives());
        }
        or(ps).parse(rest)
    }
}

proof fn lemma_scan_token_behaves()
    ensures
        well_behaved(scan_token_sem()),
        productive(scan_token_sem()),
{
    let ghost fs = token_alternatives();
    assert forall|i: int| 0 <= i < fs.len() implies well_behaved(#[trigger] fs[i]) && productive(fs[i]) by {
        lemma_alternatives_behave(i);
    }
    lemma_or_behaves(fs);
    lemma_whitespaces_behave();
    assert forall|s: StateModel| s.wf() && (#[trigger] scan_token_sem()(s)) is Ok implies {
        let s3 = scan_token_sem()(s)->Ok_0.1;
        s3.wf() && s3.rest.is_suffix_of(s.rest) && s3.rest.len() < s.rest.len()
    } by {
        lemma_linebreaks(s);
        let s1 = linebreaks_sem()(s)->Ok_0.1;
        assert(whitespaces_sem()(s1) is Ok);
        let s2 = whitespaces_sem()(s1)->Ok_0.1;
        assert(or_sem(fs)(s2) is Ok);
        let s3 = or_sem(fs)(s2)->Ok_0.1;
        lemma_suffix_trans(s2.rest, s1.rest, s.rest);
        lemma_suffix_trans(s3.rest, s2.rest, s.rest);
    }
}

proof fn lemma_whitespaces_behave()
    ensures
        well_behaved(whitespaces_sem()),
{
    lemma_satisfy_behaves(|c: char| is_blank(c));
    lemma_many0_behaves(satisfy_sem(|c: char| is_blank(c)));
    lemma_map_behaves(many0_sem(satisfy_sem(|c: char| is_blank(c))), |x: Seq<char>| ());
}

proof fn lemma_alternatives_behave(i: int)
    requires
        0 <= i < token_alternatives().len(),
    ensures
        well_behaved(token_alternatives()[i]),
        productive(token_alternatives()[i]),
{
    let ghost fs = token_alternatives();
    if i == 0 {
        assert(fs[i] == identifier_or_keyword_sem());
        lemma_identifier_or_keyword_behaves();
    } else if i == 1 {
        assert(fs[i] == number_sem());
        lemma_number_behaves();
    } else if i == 2 {
        assert(fs[i] == string_sem());
        lemma_string_behaves();
    } else if i == 3 {
        assert(fs[i] == paired_chars_sem());
        lemma_paired_chars_behaves();
    } else {
        assert(fs[i] == single_char_sem());
        lemma_single_char_behaves();
    }
}

/// Skips line breaks and blanks, then reads one token.
pub fn scan_token() -> (r: BoxedParser<Token>)
    ensures
        r.well_formed(),
        sem(&r) == scan_token_sem(),
        well_behaved(sem(&r)),
        productive(sem(&r)),
{
    proof {
        lemma_scan_token_behaves();
    }
    let r = BoxedParser { inner: Box::new(ScanTokenParser) };
    assert(sem(&r) =~= scan_token_sem());
    r
}

/// Reads tokens as long as there are some.
pub fn scan_tokens() -> (r: BoxedParser<Vec<Token>>)
    ensures
        r.well_formed(),
        sem(&r) == scan_tokens_sem(),
        well_behaved(sem(&r)),
        productive(sem(&r)),
{
    proof {
        lemma_scan_token_behaves();
        lemma_many1_behaves(scan_token_sem());
    }
    many1(scan_token())
}


proof fn lemma_keeps_state<A>(f: spec_fn(A, StateModel) -> (TokenModel, StateModel))
    requires
        forall|x: A, s: StateModel| (#[trigger] f(x, s)).1 == s,
    ensures
        forall|x: A, s: StateModel|
            s.wf() ==> (#[trigger] f(x, s)).1.wf() && f(x, s).1.rest.is_suffix_of(s.rest),
{
    assert forall|x: A, s: StateModel| s.wf() implies (#[trigger] f(x, s)).1.wf() && f(
        x,
        s,
    ).1.rest.is_suffix_of(s.rest) by {
        lemma_suffix_refl(s.rest);
    }
}

proof fn lemma_identifier_or_keyword_behaves()
    ensures
        well_behaved(identifier_or_keyword_sem()),
        productive(identifier_or_keyword_sem()),
{
    let pred = |c: char| is_ident_char(c);
    lemma_satisfy_behaves(pred);
    lemma_many1_behaves(satisfy_sem(pred));
    lemma_map_behaves(many1_sem(satisfy_sem(pred)), |x: Seq<char>| x);
    let f = |x: Seq<char>, s: StateModel| token_at(word_kind(x), x, s);
    lemma_keeps_state(f);
    lemma_map_with_rest_behaves(map_sem(many1_sem(satisfy_sem(pred)), |x: Seq<char>| x), f);
}

proof fn lemma_string_behaves()
    ensures
        well_behaved(string_sem()),
        productive(string_sem()),
{
    let pred = |c: char| c != '"';
    lemma_satisfy_behaves(pred);
    lemma_satisfy_behaves(is_char('"'));
    lemma_many0_behaves(satisfy_sem(pred));
    let body = map_sem(many0_sem(satisfy_sem(pred)), |x: Seq<char>| x);
    lemma_map_behaves(many0_sem(satisfy_sem(pred)), |x: Seq<char>| x);
    crate::combinator_laws::lemma_bracket_behaves(char_sem('"'), body, char_sem('"'));
    let f = |x: Seq<char>, s: StateModel| token_at(TokenKind::Str, x, s);
    lemma_keeps_state(f);
    lemma_map_with_rest_behaves(crate::combinators::bracket_sem(char_sem('"'), body, char_sem('"')), f);
}

proof fn lemma_number_behaves()
    ensures
        well_behaved(number_sem()),
        productive(number_sem()),
{
    let fs = seq![float_sem(), integer_sem(), zero_or_digit_sem()];
    lemma_float_behaves();
    lemma_integer_behaves();
    lemma_digits_behave();
    lemma_zero_or_digit_behaves();
    assert forall|i: int| 0 <= i < fs.len() implies well_behaved(#[trigger] fs[i]) && productive(fs[i]) by {
        if i == 0 {
            assert(fs[i] == float_sem());
        } else if i == 1 {
            assert(fs[i] == integer_sem());
        } else {
            assert(fs[i] == zero_or_digit_sem());
        }
    }
    lemma_or_behaves(fs);
    let f = |x: Seq<char>, s: StateModel| token_at(TokenKind::Number, x, s);
    lemma_keeps_state(f);
    lemma_map_with_rest_behaves(or_sem(fs), f);
}

proof fn lemma_zero_or_digit_behaves()
    ensures
        well_behaved(zero_or_digit_sem()),
        productive(zero_or_digit_sem()),
{
    let fs = seq![zero_sem(), digit_sem()];
    lemma_satisfy_behaves(is_char('0'));
    lemma_satisfy_behaves(|c: char| is_nonzero_digit(c));
    assert forall|i: int| 0 <= i < fs.len() implies well_behaved(#[trigger] fs[i]) && productive(fs[i]) by {
        if i == 0 {
            assert(fs[i] == zero_sem());
        } else {
            assert(fs[i] == digit_sem());
        }
    }
    lemma_or_behaves(fs);
    lemma_map_behaves(or_sem(fs), |c: char| seq![c]);
}

proof fn lemma_paired_chars_behaves()
    ensures
        well_behaved(paired_chars_sem()),
        productive(paired_chars_sem()),
{
    let fs = operator_starts().map_values(|a: char| operator_sem(a));
    assert forall|k: int| 0 <= k < fs.len() implies well_behaved(#[trigger] fs[k]) && productive(fs[k]) by {
        lemma_operator_behaves(operator_starts()[k]);
    }
    lemma_or_behaves(fs);
    let f = |x: Seq<char>, s: StateModel| token_at(keyword_kind(x)->Some_0, x, s);
    lemma_keeps_state(f);
    lemma_map_with_rest_behaves(or_sem(fs), f);
}

proof fn lemma_single_char_behaves()
    ensures
        well_behaved(single_char_sem()),
        productive(single_char_sem()),
{
    let fs = punctuation().map_values(|c: char| char_sem(c));
    assert forall|k: int| 0 <= k < fs.len() implies well_behaved(#[trigger] fs[k]) && productive(fs[k]) by {
        lemma_satisfy_behaves(is_char(punctuation()[k]));
    }
    lemma_or_behaves(fs);
    let f = |c: char, s: StateModel| token_at(keyword_kind(seq![c])->Some_0, seq![c], s);
    lemma_keeps_state(f);
    lemma_map_with_rest_behaves(or_sem(fs), f);
}

} // verus!
