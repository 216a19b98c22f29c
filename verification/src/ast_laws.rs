use vstd::prelude::*;

use crate::ast::{
    rank, spec_below, spec_parse_from, spec_parse_level, ASTExpression, ASTParseError,
    InfixOperation, InfixOperator, Level, ParseOutcome, PrefixOperation, PrefixOperator, Value,
};
use crate::combinator_laws::lemma_suffix_trans;
use crate::lexer::{Token, TokenKind};

verus! {

/// `rest` is what is left of `ts` once one token or more has been read from
/// its front.
pub open spec fn read_from_front(rest: Seq<Token>, ts: Seq<Token>) -> bool {
    rest.len() < ts.len() && rest.is_suffix_of(ts)
}

/// Dropping the first token leaves a suffix.
proof fn lemma_drop_first_suffix(ts: Seq<Token>)
    requires
        ts.len() > 0,
    ensures
        read_from_front(ts.drop_first(), ts),
{
    assert(ts.drop_first() =~= ts.subrange(1, ts.len() as int));
}

/// Law: when a level parses, it has read one token or more from the front
/// of its input, and the tokens left are the rest of the input as it was.
pub proof fn lemma_level_reads_from_front(l: Level, ts: Seq<Token>)
    ensures
        spec_parse_level(l, ts) matches ParseOutcome::Parsed(_, rest) ==> read_from_front(rest, ts),
    decreases ts.len(), 2 * rank(l) + 1,
{
    match l {
        Level::Primary => {
            if ts.len() > 0 {
                lemma_drop_first_suffix(ts);
            }
        },
        Level::Unary => {
            if ts.len() > 0 {
                lemma_drop_first_suffix(ts);
                lemma_from_reads_from_front(Level::Unary, ts.drop_first());
                if let ParseOutcome::Parsed(_, rest) = spec_parse_from(Level::Unary, ts.drop_first()) {
                    lemma_suffix_trans(rest, ts.drop_first(), ts);
                }
            }
        },
        _ => {
            lemma_from_reads_from_front(spec_below(l), ts);
            if let ParseOutcome::Parsed(_, rest) = spec_parse_from(spec_below(l), ts) {
                if rest.len() > 0 {
                    lemma_drop_first_suffix(rest);
                    lemma_suffix_trans(rest.drop_first(), rest, ts);
                    lemma_from_reads_from_front(l, rest.drop_first());
                    if let ParseOutcome::Parsed(_, rest2) = spec_parse_from(l, rest.drop_first()) {
                        lemma_suffix_trans(rest2, rest.drop_first(), ts);
                    }
                }
            }
        },
    }
}

/// Law: when trying the levels from `top` down parses, it has read one token
/// or more from the front of its input, and the tokens left are the rest of
/// the input as it was.
pub proof fn lemma_from_reads_from_front(top: Level, ts: Seq<Token>)
    ensures
        spec_parse_from(top, ts) matches ParseOutcome::Parsed(_, rest) ==> read_from_front(rest, ts),
    decreases ts.len(), 2 * rank(top) + 2,
{
    lemma_level_reads_from_front(top, ts);
    if top != Level::Primary {
        lemma_from_reads_from_front(spec_below(top), ts);
    }
}

/// Law: trying the levels from `top` down fails with `NoneParserMatched`
/// alone; the error of a single level never comes out of it.
pub proof fn lemma_from_fails_unmatched(top: Level, ts: Seq<Token>)
    ensures
        spec_parse_from(top, ts) matches ParseOutcome::Failed(e) ==> e
            == ASTParseError::NoneParserMatched,
    decreases rank(top),
{
    if top != Level::Primary {
        lemma_from_fails_unmatched(spec_below(top), ts);
    }
}

// ---------------------------------------------------------------------------
// The grammar, level by level
// ---------------------------------------------------------------------------

/// The level whose expressions are the operands of the level `l`: equality
/// compares comparisons, a comparison compares terms, a term adds factors, a
/// factor multiplies negations and literals, a negation applies to a
/// literal.
pub open spec fn operand_level(l: Level) -> Level {
    match l {
        Level::Equality => Level::Comparison,
        Level::Comparison => Level::Term,
        Level::Term => Level::Factor,
        Level::Factor => Level::Unary,
        Level::Unary => Level::Primary,
        Level::Primary => Level::Primary,
    }
}

/// The operators of each infix level, by the kind of their token.
pub open spec fn level_operator(l: Level, kind: TokenKind) -> Option<InfixOperator> {
    match l {
        Level::Equality => match kind {
            TokenKind::DoubleEqual => Some(InfixOperator::EQ),
            TokenKind::BangEqual => Some(InfixOperator::NEQ),
            _ => None,
        },
        Level::Comparison => match kind {
            TokenKind::Greater => Some(InfixOperator::GT),
            TokenKind::GreaterEqual => Some(InfixOperator::GTE),
            TokenKind::Less => Some(InfixOperator::LT),
            TokenKind::LessEqual => Some(InfixOperator::LTE),
            _ => None,
        },
        Level::Term => match kind {
            TokenKind::Plus => Some(InfixOperator::Add),
            TokenKind::Minus => Some(InfixOperator::Substract),
            _ => None,
        },
        Level::Factor => match kind {
            TokenKind::Star => Some(InfixOperator::Multiply),
            TokenKind::Slash => Some(InfixOperator::Divide),
            _ => None,
        },
        _ => None,
    }
}

/// The literal that a token stands for, if it is one.
pub open spec fn literal_of(t: Token) -> Option<Value> {
    match t.kind {
        TokenKind::Nil => Some(Value::Nil),
        TokenKind::True => Some(Value::Bool(true)),
        TokenKind::False => Some(Value::Bool(false)),
        TokenKind::Str => Some(Value::Str(t.lexeme)),
        TokenKind::Number => Some(Value::Number(t.lexeme)),
        _ => None,
    }
}

/// Law: trying the levels from `top` gives what the level `top` gives when
/// it does not fail; when it fails, it goes on with the level just below
/// `top`, and after `Primary` it fails with `NoneParserMatched`.
pub proof fn lemma_levels_in_turn(top: Level, ts: Seq<Token>)
    ensures
        !(spec_parse_level(top, ts) is Failed) ==> spec_parse_from(top, ts) == spec_parse_level(
            top,
            ts,
        ),
        spec_parse_level(top, ts) is Failed ==> spec_parse_from(top, ts) == match top {
            Level::Equality => spec_parse_from(Level::Comparison, ts),
            Level::Comparison => spec_parse_from(Level::Term, ts),
            Level::Term => spec_parse_from(Level::Factor, ts),
            Level::Factor => spec_parse_from(Level::Unary, ts),
            Level::Unary => spec_parse_from(Level::Primary, ts),
            Level::Primary => ParseOutcome::Failed(ASTParseError::NoneParserMatched),
        },
{
}

/// Law: an infix level reads its left operand by trying the levels below it
/// in turn, then one of its operators, then its right operand by trying the
/// levels from itself down; the expression holds the three.
pub proof fn lemma_infix_level(
    l: Level,
    ts: Seq<Token>,
    lhs: ASTExpression,
    rest: Seq<Token>,
    op: InfixOperator,
    rhs: ASTExpression,
    rest2: Seq<Token>,
)
    requires
        l == Level::Equality || l == Level::Comparison || l == Level::Term || l == Level::Factor,
        spec_parse_from(operand_level(l), ts) == ParseOutcome::Parsed(lhs, rest),
        rest.len() > 0,
        level_operator(l, rest[0].kind) == Some(op),
        spec_parse_from(l, rest.drop_first()) == ParseOutcome::Parsed(rhs, rest2),
    ensures
        ({
            let operation = InfixOperation { lhs: Box::new(lhs), op, rhs: Box::new(rhs) };
            spec_parse_level(l, ts) == ParseOutcome::Parsed(
                match l {
                    Level::Equality => ASTExpression::Equality(operation),
                    Level::Comparison => ASTExpression::Comparison(operation),
                    Level::Term => ASTExpression::Term(operation),
                    _ => ASTExpression::Factor(operation),
                },
                rest2,
            )
        }),
{
    lemma_from_reads_from_front(operand_level(l), ts);
}

/// Law: a negation of a literal: `!` accepts a boolean, `-` a number, and
/// either one stops on any other literal.
pub proof fn lemma_negated_literal(ts: Seq<Token>)
    requires
        ts.len() >= 2,
        ts[0].kind == TokenKind::Bang || ts[0].kind == TokenKind::Minus,
        literal_of(ts[1]) is Some,
    ensures
        ({
            let v = literal_of(ts[1])->Some_0;
            let op = if ts[0].kind == TokenKind::Bang {
                PrefixOperator::BoolNegate
            } else {
                PrefixOperator::NumberNegate
            };
            let accepted = if ts[0].kind == TokenKind::Bang {
                v is Bool
            } else {
                v is Number
            };
            spec_parse_level(Level::Unary, ts) == if accepted {
                ParseOutcome::Parsed(
                    ASTExpression::Unary(
                        PrefixOperation { op, value: Box::new(ASTExpression::Primary(v)) },
                    ),
                    ts.skip(2),
                )
            } else {
                ParseOutcome::Panicked
            }
        }),
{
    let t1 = ts.drop_first();
    let v = literal_of(ts[1])->Some_0;
    assert(t1[0] == ts[1]);
    assert(t1.drop_first() =~= ts.skip(2));
    assert(spec_parse_level(Level::Unary, t1) is Failed);
    assert(spec_parse_level(Level::Primary, t1) == ParseOutcome::Parsed(
        ASTExpression::Primary(v),
        t1.drop_first(),
    ));
    assert(spec_parse_from(Level::Primary, t1) == spec_parse_level(Level::Primary, t1));
    assert(spec_parse_from(Level::Unary, t1) == spec_parse_from(Level::Primary, t1));
}

/// Whether none of the infix levels from `top` down has an operator of the
/// kind `k`.
pub open spec fn no_operator_from(top: Level, k: TokenKind) -> bool {
    forall|l: Level| rank(l) <= rank(top) ==> #[trigger] level_operator(l, k) is None
}

/// A literal that is not followed by an operator of the levels from `top`
/// down is read by them as that literal alone.
proof fn lemma_lone_literal(top: Level, ts: Seq<Token>)
    requires
        ts.len() > 0,
        literal_of(ts[0]) is Some,
        ts.len() == 1 || no_operator_from(top, ts[1].kind),
    ensures
        spec_parse_from(top, ts) == ParseOutcome::Parsed(
            ASTExpression::Primary(literal_of(ts[0])->Some_0),
            ts.drop_first(),
        ),
    decreases rank(top),
{
    let v = literal_of(ts[0])->Some_0;
    let lit = ParseOutcome::Parsed(ASTExpression::Primary(v), ts.drop_first());
    if top == Level::Primary {
        assert(spec_parse_level(Level::Primary, ts) == lit);
    } else if top == Level::Unary {
        lemma_lone_literal(Level::Primary, ts);
        assert(spec_parse_level(Level::Unary, ts) is Failed);
    } else {
        lemma_lone_literal(spec_below(top), ts);
        assert(spec_parse_from(spec_below(top), ts) == lit);
        if ts.len() > 1 {
            assert(level_operator(top, ts[1].kind) is None);
            assert(ts.drop_first()[0] == ts[1]);
        }
        assert(spec_parse_level(top, ts) is Failed);
    }
}

/// The operator of a comparison, by the kind of its token.
pub open spec fn comparison_operator(k: TokenKind) -> Option<InfixOperator> {
    match k {
        TokenKind::Greater => Some(InfixOperator::GT),
        TokenKind::GreaterEqual => Some(InfixOperator::GTE),
        TokenKind::Less => Some(InfixOperator::LT),
        TokenKind::LessEqual => Some(InfixOperator::LTE),
        _ => None,
    }
}

/// Law: a literal, a comparison operator and a literal make a whole
/// expression: a comparison of the two literals, with nothing left.
pub proof fn lemma_comparison_of_literals(ts: Seq<Token>)
    requires
        ts.len() == 3,
        literal_of(ts[0]) is Some,
        comparison_operator(ts[1].kind) is Some,
        literal_of(ts[2]) is Some,
    ensures
        spec_parse_from(Level::Equality, ts) == ParseOutcome::Parsed(
            ASTExpression::Comparison(
                InfixOperation {
                    lhs: Box::new(ASTExpression::Primary(literal_of(ts[0])->Some_0)),
                    op: comparison_operator(ts[1].kind)->Some_0,
                    rhs: Box::new(ASTExpression::Primary(literal_of(ts[2])->Some_0)),
                },
            ),
            Seq::empty(),
        ),
{
    let rest = ts.drop_first();
    let last = rest.drop_first();
    assert(rest[0] == ts[1]);
    assert(last[0] == ts[2]);
    assert(last.len() == 1);
    assert(last.drop_first() =~= Seq::<Token>::empty());
    assert forall|l: Level| rank(l) <= rank(Level::Term) implies #[trigger] level_operator(
        l,
        ts[1].kind,
    ) is None by {}
    lemma_lone_literal(Level::Term, ts);
    lemma_lone_literal(Level::Comparison, last);
    let c = ASTExpression::Comparison(
        InfixOperation {
            lhs: Box::new(ASTExpression::Primary(literal_of(ts[0])->Some_0)),
            op: comparison_operator(ts[1].kind)->Some_0,
            rhs: Box::new(ASTExpression::Primary(literal_of(ts[2])->Some_0)),
        },
    );
    assert(spec_parse_level(Level::Comparison, ts) == ParseOutcome::Parsed(c, last.drop_first()));
    assert(spec_parse_from(Level::Comparison, ts) == spec_parse_level(Level::Comparison, ts));
    assert(spec_parse_level(Level::Equality, ts) is Failed);
    assert(spec_parse_from(Level::Equality, ts) == spec_parse_from(Level::Comparison, ts));
}

} // verus!
