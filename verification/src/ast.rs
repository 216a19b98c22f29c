use vstd::prelude::*;

use crate::lexer::{Token, TokenKind};

verus! {

/// A literal. A number is held as the text of its token.
#[derive(Debug, PartialEq)]
pub enum Value {
    Nil,
    Bool(bool),
    Str(String),
    Number(String),
    Group(Box<ASTExpression>),
}

/// A negation: `!` of a boolean, `-` of a number.
#[derive(Debug, PartialEq, Eq, Clone, Copy)]
pub enum PrefixOperator {
    BoolNegate,
    NumberNegate,
}

/// A negation applied to an operand.
#[derive(Debug, PartialEq)]
pub struct PrefixOperation {
    pub op: PrefixOperator,
    pub value: Box<ASTExpression>,
}

/// An operator between two operands.
#[derive(Debug, PartialEq, Eq, Clone, Copy)]
pub enum InfixOperator {
    Add,
    Substract,
    Multiply,
    Divide,
    GT,
    GTE,
    LT,
    LTE,
    EQ,
    NEQ,
}

/// An operator with its two operands.
#[derive(Debug, PartialEq)]
pub struct InfixOperation {
    pub lhs: Box<ASTExpression>,
    pub op: InfixOperator,
    pub rhs: Box<ASTExpression>,
}

/// An expression, by the level of the grammar that made it.
#[derive(Debug, PartialEq)]
pub enum ASTExpression {
    Equality(InfixOperation),
    Comparison(InfixOperation),
    Term(InfixOperation),
    Factor(InfixOperation),
    Unary(PrefixOperation),
    Primary(Value),
}

/// Why an expression could not be parsed.
#[derive(Debug, PartialEq, Eq)]
pub enum ASTParseError {
    NoTokensLeft,
    PredicateFailed,
    NoneParserMatched,
    UnrecognizedUnaryOperator,
    UnrecognizedFactorInfixOperator,
    UnrecognizedTermInfixOperator,
    UnrecognizedComparisonInfixOperator,
    UnrecognizedEqualityInfixOperator,
}

/// What an `ASTParseError` says, in words.
pub open spec fn ast_error_text(e: ASTParseError) -> Seq<char> {
    match e {
        ASTParseError::NoTokensLeft => "No more tokens left"@,
        ASTParseError::PredicateFailed => "Predicate failed"@,
        ASTParseError::NoneParserMatched => "None parser matched"@,
        ASTParseError::UnrecognizedUnaryOperator => "Unrecognized unary operator"@,
        ASTParseError::UnrecognizedFactorInfixOperator => "Unrecognized factor infix operator"@,
        ASTParseError::UnrecognizedTermInfixOperator => "Unrecognized term infix operator"@,
        ASTParseError::UnrecognizedComparisonInfixOperator => "Unrecognized comparison infix operator"@,
        ASTParseError::UnrecognizedEqualityInfixOperator => "Unrecognized equality infix operator"@,
    }
}

impl ASTParseError {
    /// The error in words.
    pub fn message(&self) -> (r: String)
        ensures
            r@ == ast_error_text(*self),
    {
        match self {
            ASTParseError::NoTokensLeft => "No more tokens left".to_owned(),
            ASTParseError::PredicateFailed => "Predicate failed".to_owned(),
            ASTParseError::NoneParserMatched => "None parser matched".to_owned(),
            ASTParseError::UnrecognizedUnaryOperator => "Unrecognized unary operator".to_owned(),
            ASTParseError::UnrecognizedFactorInfixOperator => "Unrecognized factor infix operator".to_owned(),
            ASTParseError::UnrecognizedTermInfixOperator => "Unrecognized term infix operator".to_owned(),
            ASTParseError::UnrecognizedComparisonInfixOperator => "Unrecognized comparison infix operator".to_owned(),
            ASTParseError::UnrecognizedEqualityInfixOperator => "Unrecognized equality infix operator".to_owned(),
        }
    }
}

/// The levels of the grammar, from the loosest to the tightest.
#[derive(Debug, PartialEq, Eq, Clone, Copy)]
pub enum Level {
    Equality,
    Comparison,
    Term,
    Factor,
    Unary,
    Primary,
}

/// What parsing a list of tokens comes to: an expression and the tokens
/// left, an error, or a panic.
pub enum ParseOutcome {
    Parsed(ASTExpression, Seq<Token>),
    Failed(ASTParseError),
    Panicked,
}

/// How far a level is from `Primary`.
pub open spec fn rank(l: Level) -> nat {
    match l {
        Level::Equality => 5,
        Level::Comparison => 4,
        Level::Term => 3,
        Level::Factor => 2,
        Level::Unary => 1,
        Level::Primary => 0,
    }
}

/// The next tighter level; `Primary` has none and gives itself.
pub open spec fn spec_below(l: Level) -> Level {
    match l {
        Level::Equality => Level::Comparison,
        Level::Comparison => Level::Term,
        Level::Term => Level::Factor,
        Level::Factor => Level::Unary,
        Level::Unary => Level::Primary,
        Level::Primary => Level::Primary,
    }
}

/// The operator of an infix level that a token kind stands for.
pub open spec fn infix_operator(l: Level, kind: TokenKind) -> Option<InfixOperator> {
    match (l, kind) {
        (Level::Equality, TokenKind::DoubleEqual) => Some(InfixOperator::EQ),
        (Level::Equality, TokenKind::BangEqual) => Some(InfixOperator::NEQ),
        (Level::Comparison, TokenKind::Greater) => Some(InfixOperator::GT),
        (Level::Comparison, TokenKind::GreaterEqual) => Some(InfixOperator::GTE),
        (Level::Comparison, TokenKind::Less) => Some(InfixOperator::LT),
        (Level::Comparison, TokenKind::LessEqual) => Some(InfixOperator::LTE),
        (Level::Term, TokenKind::Plus) => Some(InfixOperator::Add),
        (Level::Term, TokenKind::Minus) => Some(InfixOperator::Substract),
        (Level::Factor, TokenKind::Star) => Some(InfixOperator::Multiply),
        (Level::Factor, TokenKind::Slash) => Some(InfixOperator::Divide),
        _ => None,
    }
}

/// The error of an infix level whose operator is missing.
pub open spec fn unrecognized_operator(l: Level) -> ASTParseError {
    match l {
        Level::Equality => ASTParseError::UnrecognizedEqualityInfixOperator,
        Level::Comparison => ASTParseError::UnrecognizedComparisonInfixOperator,
        Level::Term => ASTParseError::UnrecognizedTermInfixOperator,
        _ => ASTParseError::UnrecognizedFactorInfixOperator,
    }
}

/// The expression of an infix level.
pub open spec fn infix_expression(l: Level, operation: InfixOperation) -> ASTExpression {
    match l {
        Level::Equality => ASTExpression::Equality(operation),
        Level::Comparison => ASTExpression::Comparison(operation),
        Level::Term => ASTExpression::Term(operation),
        _ => ASTExpression::Factor(operation),
    }
}

/// What `primary` gives: a literal of the first token.
pub open spec fn spec_primary(ts: Seq<Token>) -> ParseOutcome {
    if ts.len() == 0 {
        ParseOutcome::Failed(ASTParseError::NoTokensLeft)
    } else {
        let rest = ts.drop_first();
        match ts[0].kind {
            TokenKind::Nil => ParseOutcome::Parsed(ASTExpression::Primary(Value::Nil), rest),
            TokenKind::True => ParseOutcome::Parsed(ASTExpression::Primary(Value::Bool(true)), rest),
            TokenKind::False => ParseOutcome::Parsed(
                ASTExpression::Primary(Value::Bool(false)),
                rest,
            ),
            TokenKind::Str => ParseOutcome::Parsed(
                ASTExpression::Primary(Value::Str(ts[0].lexeme)),
                rest,
            ),
            TokenKind::Number => ParseOutcome::Parsed(
                ASTExpression::Primary(Value::Number(ts[0].lexeme)),
                rest,
            ),
            _ => ParseOutcome::Failed(ASTParseError::PredicateFailed),
        }
    }
}

/// Whether a negation with `op` may apply to `value`.
pub open spec fn negatable(op: PrefixOperator, value: ASTExpression) -> bool {
    match value {
        ASTExpression::Unary(_) => true,
        ASTExpression::Primary(Value::Number(_)) => op == PrefixOperator::NumberNegate,
        ASTExpression::Primary(Value::Bool(_)) => op == PrefixOperator::BoolNegate,
        _ => false,
    }
}

/// What parsing exactly the level `l` gives. (The branch where an operand
/// left more tokens than it was given is never taken: see
/// `lemma_level_reads_from_front`; it bounds the recursion.)
pub open spec fn spec_parse_level(l: Level, ts: Seq<Token>) -> ParseOutcome
    decreases ts.len(), 2 * rank(l) + 1,
{
    match l {
        Level::Primary => spec_primary(ts),
        Level::Unary => {
            if ts.len() == 0 {
                ParseOutcome::Failed(ASTParseError::NoTokensLeft)
            } else {
                let op = match ts[0].kind {
                    TokenKind::Minus => Some(PrefixOperator::NumberNegate),
                    TokenKind::Bang => Some(PrefixOperator::BoolNegate),
                    _ => None,
                };
                match op {
                    None => ParseOutcome::Failed(ASTParseError::UnrecognizedUnaryOperator),
                    Some(op) => match spec_parse_from(Level::Unary, ts.drop_first()) {
                        ParseOutcome::Parsed(value, rest) => if negatable(op, value) {
                            ParseOutcome::Parsed(
                                ASTExpression::Unary(PrefixOperation { op, value: Box::new(value) }),
                                rest,
                            )
                        } else {
                            ParseOutcome::Panicked
                        },
                        other => other,
                    },
                }
            }
        },
        _ => match spec_parse_from(spec_below(l), ts) {
            ParseOutcome::Parsed(lhs, rest) => {
                if rest.len() == 0 {
                    ParseOutcome::Failed(ASTParseError::NoTokensLeft)
                } else if rest.len() > ts.len() {
                    ParseOutcome::Panicked
                } else {
                    match infix_operator(l, rest[0].kind) {
                        None => ParseOutcome::Failed(unrecognized_operator(l)),
                        Some(op) => match spec_parse_from(l, rest.drop_first()) {
                            ParseOutcome::Parsed(rhs, rest2) => ParseOutcome::Parsed(
                                infix_expression(
                                    l,
                                    InfixOperation { lhs: Box::new(lhs), op, rhs: Box::new(rhs) },
                                ),
                                rest2,
                            ),
                            other => other,
                        },
                    }
                }
            },
            other => other,
        },
    }
}

/// What trying the levels from `top` down to `Primary` in turn gives: the
/// first that parses, `NoneParserMatched` when none does.
pub open spec fn spec_parse_from(top: Level, ts: Seq<Token>) -> ParseOutcome
    decreases ts.len(), 2 * rank(top) + 2,
{
    match spec_parse_level(top, ts) {
        ParseOutcome::Failed(_) => if top == Level::Primary {
            ParseOutcome::Failed(ASTParseError::NoneParserMatched)
        } else {
            spec_parse_from(spec_below(top), ts)
        },
        other => other,
    }
}


/// What a parse result comes to.
pub open spec fn outcome_of(r: Result<(ASTExpression, Vec<Token>), ASTParseError>) -> ParseOutcome {
    match r {
        Ok((e, rest)) => ParseOutcome::Parsed(e, rest@),
        Err(err) => ParseOutcome::Failed(err),
    }
}

/// A copy of the tokens `ts`.
fn copy_tokens(ts: &Vec<Token>) -> (r: Vec<Token>)
    ensures
        r@ == ts@,
{
    let mut r: Vec<Token> = Vec::new();
    let mut i: usize = 0;
    while i < ts.len()
        invariant
            i <= ts@.len(),
            r@ == ts@.take(i as int),
        decreases ts@.len() - i,
    {
        let t = &ts[i];
        r.push(Token { kind: t.kind, lexeme: t.lexeme.clone(), line: t.line, position: t.position });
        i = i + 1;
        assert(r@ =~= ts@.take(i as int));
    }
    assert(ts@.take(ts@.len() as int) =~= ts@);
    r
}

fn below(l: Level) -> (r: Level)
    ensures
        r == spec_below(l),
{
    match l {
        Level::Equality => Level::Comparison,
        Level::Comparison => Level::Term,
        Level::Term => Level::Factor,
        Level::Factor => Level::Unary,
        Level::Unary => Level::Primary,
        Level::Primary => Level::Primary,
    }
}

fn find_infix_operator(l: Level, kind: TokenKind) -> (r: Option<InfixOperator>)
    ensures
        r == infix_operator(l, kind),
{
    match (l, kind) {
        (Level::Equality, TokenKind::DoubleEqual) => Some(InfixOperator::EQ),
        (Level::Equality, TokenKind::BangEqual) => Some(InfixOperator::NEQ),
        (Level::Comparison, TokenKind::Greater) => Some(InfixOperator::GT),
        (Level::Comparison, TokenKind::GreaterEqual) => Some(InfixOperator::GTE),
        (Level::Comparison, TokenKind::Less) => Some(InfixOperator::LT),
        (Level::Comparison, TokenKind::LessEqual) => Some(InfixOperator::LTE),
        (Level::Term, TokenKind::Plus) => Some(InfixOperator::Add),
        (Level::Term, TokenKind::Minus) => Some(InfixOperator::Substract),
        (Level::Factor, TokenKind::Star) => Some(InfixOperator::Multiply),
        (Level::Factor, TokenKind::Slash) => Some(InfixOperator::Divide),
        _ => None,
    }
}

fn missing_operator(l: Level) -> (r: ASTParseError)
    ensures
        r == unrecognized_operator(l),
{
    match l {
        Level::Equality => ASTParseError::UnrecognizedEqualityInfixOperator,
        Level::Comparison => ASTParseError::UnrecognizedComparisonInfixOperator,
        Level::Term => ASTParseError::UnrecognizedTermInfixOperator,
        _ => ASTParseError::UnrecognizedFactorInfixOperator,
    }
}

fn make_infix(l: Level, operation: InfixOperation) -> (r: ASTExpression)
    ensures
        r == infix_expression(l, operation),
{
    match l {
        Level::Equality => ASTExpression::Equality(operation),
        Level::Comparison => ASTExpression::Comparison(operation),
        Level::Term => ASTExpression::Term(operation),
        _ => ASTExpression::Factor(operation),
    }
}

fn parse_primary(ts: Vec<Token>) -> (r: Result<(ASTExpression, Vec<Token>), ASTParseError>)
    ensures
        outcome_of(r) == spec_primary(ts@),
{
    if ts.len() == 0 {
        return Err(ASTParseError::NoTokensLeft);
    }
    let ghost before = ts@;
    let mut rest = ts;
    let next = rest.remove(0);
    assert(rest@ =~= before.drop_first());
    match next.kind {
        TokenKind::Nil => Ok((ASTExpression::Primary(Value::Nil), rest)),
        TokenKind::True => Ok((ASTExpression::Primary(Value::Bool(true)), rest)),
        TokenKind::False => Ok((ASTExpression::Primary(Value::Bool(false)), rest)),
        TokenKind::Str => Ok((ASTExpression::Primary(Value::Str(next.lexeme)), rest)),
        TokenKind::Number => Ok((ASTExpression::Primary(Value::Number(next.lexeme)), rest)),
        _ => Err(ASTParseError::PredicateFailed),
    }
}

/// What a parse that may stop where a negation is misused comes to: `None`
/// where it stops.
pub open spec fn checked_outcome_of(
    r: Option<Result<(ASTExpression, Vec<Token>), ASTParseError>>,
) -> ParseOutcome {
    match r {
        None => ParseOutcome::Panicked,
        Some(r) => outcome_of(r),
    }
}

fn parse_unary(ts: Vec<Token>) -> (r: Option<Result<(ASTExpression, Vec<Token>), ASTParseError>>)
    ensures
        checked_outcome_of(r) == spec_parse_level(Level::Unary, ts@),
        r matches Some(Ok((_, rest))) ==> rest@.len() < ts@.len(),
    decreases ts@.len(), 3nat,
{
    if ts.len() == 0 {
        return Some(Err(ASTParseError::NoTokensLeft));
    }
    let ghost before = ts@;
    let mut rest = ts;
    let next = rest.remove(0);
    assert(rest@ =~= before.drop_first());
    let op = match next.kind {
        TokenKind::Minus => PrefixOperator::NumberNegate,
        TokenKind::Bang => PrefixOperator::BoolNegate,
        _ => {
            return Some(Err(ASTParseError::UnrecognizedUnaryOperator));
        },
    };
    let (value, rest) = match parse_from(Level::Unary, &rest) {
        Some(Ok(r)) => r,
        other => {
            return other;
        },
    };
    let accepted = match &value {
        ASTExpression::Unary(_) => true,
        ASTExpression::Primary(Value::Number(_)) => match op {
            PrefixOperator::NumberNegate => true,
            PrefixOperator::BoolNegate => false,
        },
        ASTExpression::Primary(Value::Bool(_)) => match op {
            PrefixOperator::NumberNegate => false,
            PrefixOperator::BoolNegate => true,
        },
        _ => false,
    };
    if !accepted {
        return None;
    }
    Some(Ok((ASTExpression::Unary(PrefixOperation { op, value: Box::new(value) }), rest)))
}

fn parse_infix(l: Level, ts: Vec<Token>) -> (r: Option<
    Result<(ASTExpression, Vec<Token>), ASTParseError>,
>)
    requires
        l != Level::Unary,
        l != Level::Primary,
    ensures
        checked_outcome_of(r) == spec_parse_level(l, ts@),
        r matches Some(Ok((_, rest))) ==> rest@.len() < ts@.len(),
    decreases ts@.len(), 2 * rank(l) + 1,
{
    let (lhs, rest) = match parse_from(below(l), &ts) {
        Some(Ok(r)) => r,
        other => {
            return other;
        },
    };
    if rest.len() == 0 {
        return Some(Err(ASTParseError::NoTokensLeft));
    }
    let ghost before = rest@;
    let mut rest = rest;
    let next = rest.remove(0);
    assert(rest@ =~= before.drop_first());
    let op = match find_infix_operator(l, next.kind) {
        Some(op) => op,
        None => {
            return Some(Err(missing_operator(l)));
        },
    };
    let (rhs, rest) = match parse_from(l, &rest) {
        Some(Ok(r)) => r,
        other => {
            return other;
        },
    };
    Some(Ok((make_infix(l, InfixOperation { lhs: Box::new(lhs), op, rhs: Box::new(rhs) }), rest)))
}

/// Parses exactly the level `l`; `None` where a negation is applied to an
/// operand of the wrong kind.
pub fn parse_level(l: Level, ts: Vec<Token>) -> (r: Option<
    Result<(ASTExpression, Vec<Token>), ASTParseError>,
>)
    ensures
        checked_outcome_of(r) == spec_parse_level(l, ts@),
        r matches Some(Ok((_, rest))) ==> rest@.len() < ts@.len(),
{
    match l {
        Level::Primary => Some(parse_primary(ts)),
        Level::Unary => parse_unary(ts),
        _ => parse_infix(l, ts),
    }
}

/// Tries the levels from `top` down to `Primary` in turn; `None` where a
/// negation is applied to an operand of the wrong kind.
pub fn parse_from(top: Level, ts: &Vec<Token>) -> (r: Option<
    Result<(ASTExpression, Vec<Token>), ASTParseError>,
>)
    ensures
        checked_outcome_of(r) == spec_parse_from(top, ts@),
        r matches Some(Ok((_, rest))) ==> rest@.len() < ts@.len(),
    decreases ts@.len(), 2 * rank(top) + 2,
{
    let attempt = match top {
        Level::Primary => Some(parse_primary(copy_tokens(ts))),
        Level::Unary => parse_unary(copy_tokens(ts)),
        _ => parse_infix(top, copy_tokens(ts)),
    };
    match attempt {
        Some(Err(_)) => match top {
            Level::Primary => Some(Err(ASTParseError::NoneParserMatched)),
            _ => parse_from(below(top), ts),
        },
        other => other,
    }
}

/// The result of a parse that does not stop.
fn settled(r: Option<Result<(ASTExpression, Vec<Token>), ASTParseError>>) -> (res: Result<
    (ASTExpression, Vec<Token>),
    ASTParseError,
>)
    requires
        r is Some,
    ensures
        r == Some(res),
{
    match r {
        Some(res) => res,
        None => Err(ASTParseError::NoneParserMatched),
    }
}

/// A parser of expressions from tokens.
pub trait ASTParser {
    /// What parsing the tokens `ts` comes to.
    spec fn spec_parse(&self, ts: Seq<Token>) -> ParseOutcome;

    fn parse(&self, input: Vec<Token>) -> (r: Result<(ASTExpression, Vec<Token>), ASTParseError>)
        requires
            self.spec_parse(input@) != ParseOutcome::Panicked,
        ensures
            outcome_of(r) == self.spec_parse(input@),
    ;
}

/// Parses exactly one level of the grammar.
pub struct LevelParser {
    pub level: Level,
}

impl ASTParser for LevelParser {
    open spec fn spec_parse(&self, ts: Seq<Token>) -> ParseOutcome {
        spec_parse_level(self.level, ts)
    }

    fn parse(&self, input: Vec<Token>) -> (r: Result<(ASTExpression, Vec<Token>), ASTParseError>) {
        settled(parse_level(self.level, input))
    }
}

/// Tries the levels of the grammar from `top` down to `Primary`, in turn.
pub struct FromLevelParser {
    pub top: Level,
}

impl ASTParser for FromLevelParser {
    open spec fn spec_parse(&self, ts: Seq<Token>) -> ParseOutcome {
        spec_parse_from(self.top, ts)
    }

    fn parse(&self, input: Vec<Token>) -> (r: Result<(ASTExpression, Vec<Token>), ASTParseError>) {
        settled(parse_from(self.top, &input))
    }
}

/// An equality: an operand of a tighter level, `==` or `!=`, and an operand
/// of this level or a tighter one.
pub fn equality() -> (r: LevelParser)
    ensures
        r.level == Level::Equality,
{
    LevelParser { level: Level::Equality }
}

/// A comparison: an operand of a tighter level, `>`, `>=`, `<` or `<=`, and
/// an operand of this level or a tighter one.
pub fn comparison() -> (r: LevelParser)
    ensures
        r.level == Level::Comparison,
{
    LevelParser { level: Level::Comparison }
}

/// A term: an operand of a tighter level, `+` or `-`, and an operand of this
/// level or a tighter one.
pub fn term() -> (r: LevelParser)
    ensures
        r.level == Level::Term,
{
    LevelParser { level: Level::Term }
}

/// A factor: an operand of a tighter level, `*` or `/`, and an operand of
/// this level or a tighter one.
pub fn factor() -> (r: LevelParser)
    ensures
        r.level == Level::Factor,
{
    LevelParser { level: Level::Factor }
}

/// A negation: `-` or `!`, then a negation or a literal.
pub fn unary() -> (r: LevelParser)
    ensures
        r.level == Level::Unary,
{
    LevelParser { level: Level::Unary }
}

/// A literal: `nil`, `true`, `false`, a string or a number.
pub fn primary() -> (r: LevelParser)
    ensures
        r.level == Level::Primary,
{
    LevelParser { level: Level::Primary }
}

/// An expression of any level: the first of them that parses.
pub fn expression() -> (r: FromLevelParser)
    ensures
        r.top == Level::Equality,
{
    FromLevelParser { top: Level::Equality }
}

} // verus!
