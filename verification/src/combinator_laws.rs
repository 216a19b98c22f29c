use vstd::prelude::*;

use crate::combinators::{
    bracket_sem, chain_sem, char_width, first_match, many0_sem, many1_sem, map_sem,
    map_with_rest_sem, next_sem, or_sem, productive, repeat, satisfy_sem, utf8_len, well_behaved,
    ParseError, ParseFn, StateModel,
};

verus! {

/// A suffix of a suffix is a suffix.
pub proof fn lemma_suffix_trans<A>(a: Seq<A>, b: Seq<A>, c: Seq<A>)
    requires
        a.is_suffix_of(b),
        b.is_suffix_of(c),
    ensures
        a.is_suffix_of(c),
{
    assert forall|i: int| 0 <= i < a.len() implies a[i] == c[(c.len() - a.len()) + i] by {
        assert(a[i] == b[(b.len() - a.len()) + i]);
        assert(b[(b.len() - a.len()) + i] == c[(c.len() - b.len()) + (b.len() - a.len()) + i]);
    }
}

/// Consuming the first character of a state that cannot overflow gives a
/// state that cannot overflow, whose input is a suffix of the old one.
pub proof fn lemma_advance(s: StateModel)
    requires
        s.wf(),
        s.rest.len() > 0,
    ensures
        s.advance(s.rest[0]).wf(),
        s.advance(s.rest[0]).rest.is_suffix_of(s.rest),
        s.advance(s.rest[0]).position == s.position + char_width(s.rest[0]),
        utf8_len(s.rest) == char_width(s.rest[0]) + utf8_len(s.rest.drop_first()),
{
    assert(s.rest.drop_first() =~= s.rest.subrange(1, s.rest.len() as int));
}

/// Law: `next` only consumes a prefix of its input, and always one character
/// when it succeeds.
pub proof fn lemma_next_behaves()
    ensures
        well_behaved(next_sem()),
        productive(next_sem()),
{
    assert forall|s: StateModel| s.wf() && (#[trigger] next_sem()(s)) is Ok implies {
        let s2 = next_sem()(s)->Ok_0.1;
        s2.wf() && s2.rest.is_suffix_of(s.rest) && s2.rest.len() < s.rest.len()
    } by {
        lemma_advance(s);
    }
}

/// Law: `satisfy` only consumes a prefix of its input, and always one
/// character when it succeeds.
pub proof fn lemma_satisfy_behaves(pred: spec_fn(char) -> bool)
    ensures
        well_behaved(satisfy_sem(pred)),
        productive(satisfy_sem(pred)),
{
    assert forall|s: StateModel| s.wf() && (#[trigger] satisfy_sem(pred)(s)) is Ok implies {
        let s2 = satisfy_sem(pred)(s)->Ok_0.1;
        s2.wf() && s2.rest.is_suffix_of(s.rest) && s2.rest.len() < s.rest.len()
    } by {
        lemma_advance(s);
    }
}

/// Law: `chain` of parsers that consume a prefix consumes a prefix, and
/// consumes input when either of them does.
pub proof fn lemma_chain_behaves<A, B>(p1: ParseFn<A>, p2: ParseFn<B>)
    requires
        well_behaved(p1),
        well_behaved(p2),
    ensures
        well_behaved(chain_sem(p1, p2)),
        productive(p1) || productive(p2) ==> productive(chain_sem(p1, p2)),
{
    assert forall|s: StateModel| s.wf() && (#[trigger] chain_sem(p1, p2)(s)) is Ok implies {
        let s3 = chain_sem(p1, p2)(s)->Ok_0.1;
        &&& s3.wf()
        &&& s3.rest.is_suffix_of(s.rest)
        &&& (productive(p1) || productive(p2) ==> s3.rest.len() < s.rest.len())
    } by {
        assert(p1(s) is Ok);
        let s1 = p1(s)->Ok_0.1;
        assert(p2(s1) is Ok);
        let s3 = p2(s1)->Ok_0.1;
        lemma_suffix_trans(s3.rest, s1.rest, s.rest);
    }
}

/// Law: `or` of parsers that consume a prefix consumes a prefix, and consumes
/// input when all alternatives do.
pub proof fn lemma_or_behaves<A>(ps: Seq<ParseFn<A>>)
    requires
        forall|i: int| 0 <= i < ps.len() ==> well_behaved(#[trigger] ps[i]),
    ensures
        well_behaved(or_sem(ps)),
        (forall|i: int| 0 <= i < ps.len() ==> productive(#[trigger] ps[i])) ==> productive(
            or_sem(ps),
        ),
{
    assert forall|s: StateModel| s.wf() && (#[trigger] or_sem(ps)(s)) is Ok implies {
        let s2 = or_sem(ps)(s)->Ok_0.1;
        &&& s2.wf()
        &&& s2.rest.is_suffix_of(s.rest)
        &&& ((forall|i: int| 0 <= i < ps.len() ==> productive(#[trigger] ps[i])) ==> s2.rest.len()
            < s.rest.len())
    } by {
        lemma_first_match_behaves(ps, s);
    }
}

proof fn lemma_first_match_behaves<A>(ps: Seq<ParseFn<A>>, s: StateModel)
    requires
        forall|i: int| 0 <= i < ps.len() ==> well_behaved(#[trigger] ps[i]),
        s.wf(),
    ensures
        first_match(ps, s) matches Ok((_, s2)) ==> {
            &&& s2.wf()
            &&& s2.rest.is_suffix_of(s.rest)
            &&& ((forall|i: int| 0 <= i < ps.len() ==> productive(#[trigger] ps[i]))
                ==> s2.rest.len() < s.rest.len())
        },
    decreases ps.len(),
{
    if ps.len() > 0 {
        assert(well_behaved(ps[0]));
        if (ps[0])(s) is Ok {
            if forall|i: int| 0 <= i < ps.len() ==> productive(#[trigger] ps[i]) {
                assert(productive(ps[0]));
            }
        } else {
            let tail = ps.drop_first();
            assert forall|i: int| 0 <= i < tail.len() implies well_behaved(#[trigger] tail[i]) by {
                assert(tail[i] == ps[i + 1]);
            }
            lemma_first_match_behaves(tail, s);
            if forall|i: int| 0 <= i < ps.len() ==> productive(#[trigger] ps[i]) {
                assert forall|i: int| 0 <= i < tail.len() implies productive(#[trigger] tail[i]) by {
                    assert(tail[i] == ps[i + 1]);
                }
            }
        }
    }
}

/// Repeating a parser that consumes a prefix consumes a prefix.
pub proof fn lemma_repeat_behaves<A>(p: ParseFn<A>, s: StateModel)
    requires
        well_behaved(p),
        s.wf(),
    ensures
        repeat(p, s).1.wf(),
        repeat(p, s).1.rest.is_suffix_of(s.rest),
    decreases s.rest.len(),
{
    match p(s) {
        Ok((x, s2)) => {
            if s2.rest.len() < s.rest.len() {
                lemma_repeat_behaves(p, s2);
                lemma_suffix_trans(repeat(p, s2).1.rest, s2.rest, s.rest);
            }
        },
        Err(_) => {},
    }
    assert(s.rest.is_suffix_of(s.rest)) by {
        assert(s.rest =~= s.rest.subrange(0, s.rest.len() as int));
    }
}

/// Law: `many0` of a parser that consumes a prefix consumes a prefix.
pub proof fn lemma_many0_behaves<A>(p: ParseFn<A>)
    requires
        well_behaved(p),
    ensures
        well_behaved(many0_sem(p)),
{
    assert forall|s: StateModel| s.wf() && (#[trigger] many0_sem(p)(s)) is Ok implies {
        let s2 = many0_sem(p)(s)->Ok_0.1;
        s2.wf() && s2.rest.is_suffix_of(s.rest)
    } by {
        lemma_repeat_behaves(p, s);
    }
}

/// Law: `many1` of a parser that consumes a prefix consumes a prefix, and
/// consumes input when the parser does.
pub proof fn lemma_many1_behaves<A>(p: ParseFn<A>)
    requires
        well_behaved(p),
    ensures
        well_behaved(many1_sem(p)),
        productive(p) ==> productive(many1_sem(p)),
{
    assert forall|s: StateModel| s.wf() && (#[trigger] many1_sem(p)(s)) is Ok implies {
        let s2 = many1_sem(p)(s)->Ok_0.1;
        &&& s2.wf()
        &&& s2.rest.is_suffix_of(s.rest)
        &&& (productive(p) ==> s2.rest.len() < s.rest.len())
    } by {
        lemma_repeat_behaves(p, s);
        assert(p(s) is Ok);
        let s1 = p(s)->Ok_0.1;
        if productive(p) {
            assert(s1.rest.len() < s.rest.len());
            lemma_repeat_behaves(p, s1);
        }
    }
}

/// Law: `map` consumes what its parser consumes.
pub proof fn lemma_map_behaves<A, B>(p: ParseFn<A>, f: spec_fn(A) -> B)
    requires
        well_behaved(p),
    ensures
        well_behaved(map_sem(p, f)),
        productive(p) ==> productive(map_sem(p, f)),
{
    assert forall|s: StateModel| s.wf() && (#[trigger] map_sem(p, f)(s)) is Ok implies {
        let s2 = map_sem(p, f)(s)->Ok_0.1;
        &&& s2.wf()
        &&& s2.rest.is_suffix_of(s.rest)
        &&& (productive(p) ==> s2.rest.len() < s.rest.len())
    } by {
        assert(p(s) is Ok);
    }
}

/// Law: `map_with_rest` with a transformation that keeps a state from
/// overflowing and from growing its input consumes a prefix, and consumes
/// input when its parser does.
pub proof fn lemma_map_with_rest_behaves<A, B>(
    p: ParseFn<A>,
    f: spec_fn(A, StateModel) -> (B, StateModel),
)
    requires
        well_behaved(p),
        forall|x: A, s: StateModel|
            s.wf() ==> (#[trigger] f(x, s)).1.wf() && f(x, s).1.rest.is_suffix_of(s.rest),
    ensures
        well_behaved(map_with_rest_sem(p, f)),
        productive(p) ==> productive(map_with_rest_sem(p, f)),
{
    assert forall|s: StateModel| s.wf() && (#[trigger] map_with_rest_sem(p, f)(s)) is Ok implies {
        let s3 = map_with_rest_sem(p, f)(s)->Ok_0.1;
        &&& s3.wf()
        &&& s3.rest.is_suffix_of(s.rest)
        &&& (productive(p) ==> s3.rest.len() < s.rest.len())
    } by {
        assert(p(s) is Ok);
        let (x, s2) = p(s)->Ok_0;
        let s3 = f(x, s2).1;
        lemma_suffix_trans(s3.rest, s2.rest, s.rest);
    }
}

/// Law: `bracket` of parsers that consume a prefix consumes a prefix, and
/// consumes input when any of them does.
pub proof fn lemma_bracket_behaves<A, B, C>(open: ParseFn<A>, p: ParseFn<B>, close: ParseFn<C>)
    requires
        well_behaved(open),
        well_behaved(p),
        well_behaved(close),
    ensures
        well_behaved(bracket_sem(open, p, close)),
        productive(open) || productive(p) || productive(close) ==> productive(
            bracket_sem(open, p, close),
        ),
{
    assert forall|s: StateModel|
        s.wf() && (#[trigger] bracket_sem(open, p, close)(s)) is Ok implies {
        let s3 = bracket_sem(open, p, close)(s)->Ok_0.1;
        &&& s3.wf()
        &&& s3.rest.is_suffix_of(s.rest)
        &&& (productive(open) || productive(p) || productive(close) ==> s3.rest.len()
            < s.rest.len())
    } by {
        assert(open(s) is Ok);
        let s1 = open(s)->Ok_0.1;
        assert(p(s1) is Ok);
        let s2 = p(s1)->Ok_0.1;
        assert(close(s2) is Ok);
        let s3 = close(s2)->Ok_0.1;
        lemma_suffix_trans(s3.rest, s2.rest, s1.rest);
        lemma_suffix_trans(s3.rest, s1.rest, s.rest);
    }
}


/// Length of the longest prefix of `cs` whose characters all satisfy `pred`.
pub open spec fn span(pred: spec_fn(char) -> bool, cs: Seq<char>) -> nat
    decreases cs.len(),
{
    if cs.len() > 0 && pred(cs[0]) {
        1 + span(pred, cs.drop_first())
    } else {
        0
    }
}

/// The state after the first `n` characters of the input were consumed, on
/// the same line.
pub open spec fn skip_chars(s: StateModel, n: nat) -> StateModel {
    StateModel {
        rest: s.rest.skip(n as int),
        line: s.line,
        position: (s.position + utf8_len(s.rest.take(n as int))) as usize,
    }
}

/// What `span` counts: the characters before it satisfy `pred`, the one at
/// it, if any, does not.
pub proof fn lemma_span(pred: spec_fn(char) -> bool, cs: Seq<char>)
    ensures
        span(pred, cs) <= cs.len(),
        forall|i: int| 0 <= i < span(pred, cs) ==> pred(#[trigger] cs[i]),
        span(pred, cs) < cs.len() ==> !pred(cs[span(pred, cs) as int]),
    decreases cs.len(),
{
    if cs.len() > 0 && pred(cs[0]) {
        lemma_span(pred, cs.drop_first());
        assert forall|i: int| 0 <= i < span(pred, cs) implies pred(#[trigger] cs[i]) by {
            if i > 0 {
                assert(cs[i] == cs.drop_first()[i - 1]);
            }
        }
    }
}

/// Law: repeating `satisfy(pred)` consumes exactly the longest prefix of the
/// input whose characters satisfy `pred`, and yields it.
pub proof fn lemma_repeat_satisfy(pred: spec_fn(char) -> bool, s: StateModel)
    requires
        s.wf(),
    ensures
        repeat(satisfy_sem(pred), s) == (
            s.rest.take(span(pred, s.rest) as int),
            skip_chars(s, span(pred, s.rest)),
        ),
    decreases s.rest.len(),
{
    let n = span(pred, s.rest);
    if s.rest.len() > 0 && pred(s.rest[0]) {
        let c = s.rest[0];
        let s1 = s.advance(c);
        lemma_advance(s);
        lemma_repeat_satisfy(pred, s1);
        let m = span(pred, s1.rest);
        assert(n == m + 1);
        lemma_span(pred, s1.rest);
        assert(seq![c] + s1.rest.take(m as int) =~= s.rest.take(n as int));
        assert(s1.rest.skip(m as int) =~= s.rest.skip(n as int));
        assert(s.rest.take(n as int).drop_first() =~= s1.rest.take(m as int));
    } else {
        assert(s.rest.take(0) =~= Seq::<char>::empty());
        assert(s.rest.skip(0) =~= s.rest);
    }
}

/// Law: `many0(satisfy(pred))` consumes exactly the longest prefix of the
/// input whose characters satisfy `pred`, and yields it.
pub proof fn lemma_many0_satisfy(pred: spec_fn(char) -> bool, s: StateModel)
    requires
        s.wf(),
    ensures
        many0_sem(satisfy_sem(pred))(s) == Ok::<_, ParseError>(
            (s.rest.take(span(pred, s.rest) as int), skip_chars(s, span(pred, s.rest))),
        ),
{
    lemma_repeat_satisfy(pred, s);
}


/// A sequence is a suffix of itself.
pub proof fn lemma_suffix_refl<A>(a: Seq<A>)
    ensures
        a.is_suffix_of(a),
{
    assert(a =~= a.subrange(0, a.len() as int));
}

/// Law: `or` gives the result of the first alternative that succeeds, and
/// `NoneParserMatched` when none does.
pub proof fn lemma_first_match<A>(ps: Seq<ParseFn<A>>, s: StateModel)
    ensures
        first_match(ps, s) is Ok ==> exists|i: int|
            0 <= i < ps.len() && (#[trigger] ps[i])(s) == first_match(ps, s) && forall|j: int|
                0 <= j < i ==> (#[trigger] ps[j])(s) is Err,
        first_match(ps, s) is Err ==> first_match(ps, s) == Err::<(A, StateModel), _>(
            ParseError::NoneParserMatched,
        ) && forall|i: int| 0 <= i < ps.len() ==> (#[trigger] ps[i])(s) is Err,
    decreases ps.len(),
{
    if ps.len() > 0 {
        let tail = ps.drop_first();
        lemma_first_match(tail, s);
        if (ps[0])(s) is Ok {
            assert(ps[0](s) == first_match(ps, s));
        } else {
            if first_match(tail, s) is Ok {
                let i = choose|i: int|
                    0 <= i < tail.len() && (#[trigger] tail[i])(s) == first_match(tail, s)
                        && forall|j: int| 0 <= j < i ==> (#[trigger] tail[j])(s) is Err;
                assert(ps[i + 1] == tail[i]);
                assert forall|j: int| 0 <= j < i + 1 implies (#[trigger] ps[j])(s) is Err by {
                    if j > 0 {
                        assert(ps[j] == tail[j - 1]);
                    }
                }
            } else {
                assert forall|i: int| 0 <= i < ps.len() implies (#[trigger] ps[i])(s) is Err by {
                    if i > 0 {
                        assert(ps[i] == tail[i - 1]);
                    }
                }
            }
        }
    }
}


/// The bytes of two runs of characters add up.
pub proof fn lemma_utf8_len_concat(a: Seq<char>, b: Seq<char>)
    ensures
        utf8_len(a + b) == utf8_len(a) + utf8_len(b),
    decreases a.len(),
{
    if a.len() == 0 {
        assert(a + b =~= b);
    } else {
        lemma_utf8_len_concat(a.drop_first(), b);
        assert((a + b).drop_first() =~= a.drop_first() + b);
    }
}

/// The characters consumed from `s` on the way to `s2`.
pub open spec fn consumed(s: StateModel, s2: StateModel) -> Seq<char> {
    s.rest.take(s.rest.len() - s2.rest.len())
}

/// From a state that cannot overflow, `p` consumes a prefix of the input,
/// stays on the same line, and moves the position on by the number of bytes
/// it consumed.
pub open spec fn counts_bytes<V>(p: ParseFn<V>) -> bool {
    forall|s: StateModel|
        s.wf() && (#[trigger] p(s)) is Ok ==> {
            let s2 = p(s)->Ok_0.1;
            &&& s2.wf()
            &&& s2.rest.is_suffix_of(s.rest)
            &&& s2.line == s.line
            &&& s2.position == s.position + utf8_len(consumed(s, s2))
        }
}

/// Consuming first up to `s1` and then up to `s2` consumes the bytes of both.
pub proof fn lemma_consumed_trans(s: StateModel, s1: StateModel, s2: StateModel)
    requires
        s1.rest.is_suffix_of(s.rest),
        s2.rest.is_suffix_of(s1.rest),
    ensures
        s2.rest.is_suffix_of(s.rest),
        utf8_len(consumed(s, s2)) == utf8_len(consumed(s, s1)) + utf8_len(consumed(s1, s2)),
{
    lemma_suffix_trans(s2.rest, s1.rest, s.rest);
    let k1 = s.rest.len() - s1.rest.len();
    let k2 = s1.rest.len() - s2.rest.len();
    assert(consumed(s, s2) =~= consumed(s, s1) + consumed(s1, s2)) by {
        assert forall|i: int| k1 <= i < k1 + k2 implies #[trigger] s.rest[i] == s1.rest[i - k1] by {
            assert(s1.rest[i - k1] == s.rest.subrange(k1, s.rest.len() as int)[i - k1]);
        }
    }
    lemma_utf8_len_concat(consumed(s, s1), consumed(s1, s2));
}

/// Consuming nothing consumes no bytes.
pub proof fn lemma_consumed_none(s: StateModel)
    ensures
        consumed(s, s) =~= Seq::<char>::empty(),
        utf8_len(consumed(s, s)) == 0,
        s.rest.is_suffix_of(s.rest),
{
    assert(consumed(s, s) =~= Seq::<char>::empty());
    lemma_suffix_refl(s.rest);
}

/// One character takes its width in bytes.
pub proof fn lemma_utf8_len_single(c: char)
    ensures
        utf8_len(seq![c]) == char_width(c),
{
    assert(seq![c].drop_first() =~= Seq::<char>::empty());
    assert(utf8_len(Seq::<char>::empty()) == 0);
}

/// Law: `next` and `satisfy` move the position on by the bytes of the
/// character they consume.
pub proof fn lemma_satisfy_counts_bytes(pred: spec_fn(char) -> bool)
    ensures
        counts_bytes(satisfy_sem(pred)),
        counts_bytes(next_sem()),
{
    assert forall|s: StateModel| s.wf() && (#[trigger] satisfy_sem(pred)(s)) is Ok implies {
        let s2 = satisfy_sem(pred)(s)->Ok_0.1;
        &&& s2.wf()
        &&& s2.rest.is_suffix_of(s.rest)
        &&& s2.line == s.line
        &&& s2.position == s.position + utf8_len(consumed(s, s2))
    } by {
        lemma_advance(s);
        let s2 = s.advance(s.rest[0]);
        assert(consumed(s, s2) =~= seq![s.rest[0]]);
        lemma_utf8_len_single(s.rest[0]);
    }
    assert forall|s: StateModel| s.wf() && (#[trigger] next_sem()(s)) is Ok implies {
        let s2 = next_sem()(s)->Ok_0.1;
        &&& s2.wf()
        &&& s2.rest.is_suffix_of(s.rest)
        &&& s2.line == s.line
        &&& s2.position == s.position + utf8_len(consumed(s, s2))
    } by {
        lemma_advance(s);
        let s2 = s.advance(s.rest[0]);
        assert(consumed(s, s2) =~= seq![s.rest[0]]);
        lemma_utf8_len_single(s.rest[0]);
    }
}

/// Law: `chain` of parsers that count bytes counts bytes.
pub proof fn lemma_chain_counts_bytes<A, B>(p1: ParseFn<A>, p2: ParseFn<B>)
    requires
        counts_bytes(p1),
        counts_bytes(p2),
    ensures
        counts_bytes(chain_sem(p1, p2)),
{
    assert forall|s: StateModel| s.wf() && (#[trigger] chain_sem(p1, p2)(s)) is Ok implies {
        let s2 = chain_sem(p1, p2)(s)->Ok_0.1;
        &&& s2.wf()
        &&& s2.rest.is_suffix_of(s.rest)
        &&& s2.line == s.line
        &&& s2.position == s.position + utf8_len(consumed(s, s2))
    } by {
        assert(p1(s) is Ok);
        let s1 = p1(s)->Ok_0.1;
        assert(p2(s1) is Ok);
        let s2 = p2(s1)->Ok_0.1;
        lemma_consumed_trans(s, s1, s2);
    }
}

/// Law: `or` of parsers that count bytes counts bytes.
pub proof fn lemma_or_counts_bytes<A>(ps: Seq<ParseFn<A>>)
    requires
        forall|i: int| 0 <= i < ps.len() ==> counts_bytes(#[trigger] ps[i]),
    ensures
        counts_bytes(or_sem(ps)),
{
    assert forall|s: StateModel| s.wf() && (#[trigger] or_sem(ps)(s)) is Ok implies {
        let s2 = or_sem(ps)(s)->Ok_0.1;
        &&& s2.wf()
        &&& s2.rest.is_suffix_of(s.rest)
        &&& s2.line == s.line
        &&& s2.position == s.position + utf8_len(consumed(s, s2))
    } by {
        lemma_first_match(ps, s);
        let i = choose|i: int|
            0 <= i < ps.len() && (#[trigger] ps[i])(s) == first_match(ps, s) && forall|j: int|
                0 <= j < i ==> (#[trigger] ps[j])(s) is Err;
        assert(counts_bytes(ps[i]));
    }
}

/// Law: `map` counts the bytes that its parser counts.
pub proof fn lemma_map_counts_bytes<A, B>(p: ParseFn<A>, f: spec_fn(A) -> B)
    requires
        counts_bytes(p),
    ensures
        counts_bytes(map_sem(p, f)),
{
    assert forall|s: StateModel| s.wf() && (#[trigger] map_sem(p, f)(s)) is Ok implies {
        let s2 = map_sem(p, f)(s)->Ok_0.1;
        &&& s2.wf()
        &&& s2.rest.is_suffix_of(s.rest)
        &&& s2.line == s.line
        &&& s2.position == s.position + utf8_len(consumed(s, s2))
    } by {
        assert(p(s) is Ok);
    }
}

proof fn lemma_repeat_counts_bytes<A>(p: ParseFn<A>, s: StateModel)
    requires
        counts_bytes(p),
        s.wf(),
    ensures
        ({
            let s2 = repeat(p, s).1;
            &&& s2.wf()
            &&& s2.rest.is_suffix_of(s.rest)
            &&& s2.line == s.line
            &&& s2.position == s.position + utf8_len(consumed(s, s2))
        }),
    decreases s.rest.len(),
{
    match p(s) {
        Ok((x, s1)) => {
            if s1.rest.len() < s.rest.len() {
                lemma_repeat_counts_bytes(p, s1);
                lemma_consumed_trans(s, s1, repeat(p, s1).1);
            } else {
                lemma_consumed_none(s);
            }
        },
        Err(_) => {
            lemma_consumed_none(s);
        },
    }
}

/// Law: `many0` and `many1` of a parser that counts bytes count bytes.
pub proof fn lemma_many_counts_bytes<A>(p: ParseFn<A>)
    requires
        counts_bytes(p),
    ensures
        counts_bytes(many0_sem(p)),
        counts_bytes(many1_sem(p)),
{
    assert forall|s: StateModel| s.wf() && (#[trigger] many0_sem(p)(s)) is Ok implies {
        let s2 = many0_sem(p)(s)->Ok_0.1;
        &&& s2.wf()
        &&& s2.rest.is_suffix_of(s.rest)
        &&& s2.line == s.line
        &&& s2.position == s.position + utf8_len(consumed(s, s2))
    } by {
        lemma_repeat_counts_bytes(p, s);
    }
    assert forall|s: StateModel| s.wf() && (#[trigger] many1_sem(p)(s)) is Ok implies {
        let s2 = many1_sem(p)(s)->Ok_0.1;
        &&& s2.wf()
        &&& s2.rest.is_suffix_of(s.rest)
        &&& s2.line == s.line
        &&& s2.position == s.position + utf8_len(consumed(s, s2))
    } by {
        lemma_repeat_counts_bytes(p, s);
    }
}

/// Law: `bracket` of parsers that count bytes counts bytes.
pub proof fn lemma_bracket_counts_bytes<A, B, C>(
    open: ParseFn<A>,
    p: ParseFn<B>,
    close: ParseFn<C>,
)
    requires
        counts_bytes(open),
        counts_bytes(p),
        counts_bytes(close),
    ensures
        counts_bytes(bracket_sem(open, p, close)),
{
    assert forall|s: StateModel| s.wf() && (#[trigger] bracket_sem(open, p, close)(s)) is Ok implies {
        let s3 = bracket_sem(open, p, close)(s)->Ok_0.1;
        &&& s3.wf()
        &&& s3.rest.is_suffix_of(s.rest)
        &&& s3.line == s.line
        &&& s3.position == s.position + utf8_len(consumed(s, s3))
    } by {
        assert(open(s) is Ok);
        let s1 = open(s)->Ok_0.1;
        assert(p(s1) is Ok);
        let s2 = p(s1)->Ok_0.1;
        assert(close(s2) is Ok);
        let s3 = close(s2)->Ok_0.1;
        lemma_consumed_trans(s, s1, s2);
        lemma_consumed_trans(s, s2, s3);
    }
}

} // verus!
