use vstd::prelude::*;

verus! {

// ---------------------------------------------------------------------------
// The model of the input
// ---------------------------------------------------------------------------

/// Number of bytes that `c` takes in UTF-8.
pub open spec fn char_width(c: char) -> nat {
    if (c as u32) < 0x80 {
        1
    } else if (c as u32) < 0x800 {
        2
    } else if (c as u32) < 0x10000 {
        3
    } else {
        4
    }
}

/// Number of bytes that the characters `cs` take in UTF-8.
pub open spec fn utf8_len(cs: Seq<char>) -> nat
    decreases cs.len(),
{
    if cs.len() == 0 {
        0
    } else {
        char_width(cs[0]) + utf8_len(cs.drop_first())
    }
}

/// What a `ParseState` means: the characters not read yet, the line, and the
/// byte position.
pub struct StateModel {
    pub rest: Seq<char>,
    pub line: usize,
    pub position: usize,
}

impl StateModel {
    /// The counters of the state cannot overflow while its input is consumed.
    pub open spec fn wf(self) -> bool {
        &&& utf8_len(self.rest) < usize::MAX
        &&& self.position + utf8_len(self.rest) <= usize::MAX
        &&& self.line + self.rest.len() <= usize::MAX
    }

    /// The state after the first character `c` of the input was consumed.
    pub open spec fn advance(self, c: char) -> StateModel {
        StateModel {
            rest: self.rest.drop_first(),
            line: self.line,
            position: (self.position + char_width(c)) as usize,
        }
    }
}

/// Why a parser failed.
#[derive(Debug, PartialEq, Eq)]
pub enum ParseError {
    CannotGetNext,
    PredicateFailed,
    ChainFailed(Box<ParseError>),
    NoneParserMatched,
}

/// What a `ParseError` says, in words.
pub open spec fn error_text(e: ParseError) -> Seq<char>
    decreases e,
{
    match e {
        ParseError::CannotGetNext => "cannot get next character"@,
        ParseError::PredicateFailed => "predicate failed"@,
        ParseError::ChainFailed(inner) => "chain failed by: "@ + error_text(*inner),
        ParseError::NoneParserMatched => "none of parsers matched"@,
    }
}

impl ParseError {
    /// The error in words; an error of a chain names the error inside it.
    pub fn message(&self) -> (r: String)
        ensures
            r@ == error_text(*self),
        decreases self,
    {
        match self {
            ParseError::CannotGetNext => "cannot get next character".to_owned(),
            ParseError::PredicateFailed => "predicate failed".to_owned(),
            ParseError::ChainFailed(inner) => {
                let mut r = "chain failed by: ".to_owned();
                let m = inner.message();
                push_str(&mut r, m.as_str());
                r
            },
            ParseError::NoneParserMatched => "none of parsers matched".to_owned(),
        }
    }
}

/// `String::push`: appends `c` to the end of `s`.
#[verifier::external_body]
pub(crate) fn push_char(s: &mut String, c: char)
    ensures
        final(s)@ == old(s)@.push(c),
{
    s.push(c);
}

/// Appends the characters of `t` to the end of `s`.
pub(crate) fn push_str(s: &mut String, t: &str)
    ensures
        final(s)@ == old(s)@ + t@,
{
    let n = t.unicode_len();
    let ghost start = s@;
    let mut i: usize = 0;
    while i < n
        invariant
            n == t@.len(),
            i <= n,
            s@ == start + t@.take(i as int),
        decreases n - i,
    {
        let c = t.get_char(i);
        push_char(s, c);
        i = i + 1;
        proof {
            assert(s@ =~= start + t@.take(i as int));
        }
    }
    proof {
        assert(t@.take(n as int) =~= t@);
    }
}

/// The input of a parser: the characters not read yet, the current line and
/// the current byte position.
#[derive(Debug, Clone)]
pub struct ParseState {
    pub source: Vec<char>,
    pub line: usize,
    pub position: usize,
}

impl View for ParseState {
    type V = StateModel;

    open spec fn view(&self) -> StateModel {
        StateModel { rest: self.source@, line: self.line, position: self.position }
    }
}

/// Number of bytes that `c` takes in UTF-8.
pub fn utf8_width(c: char) -> (w: usize)
    ensures
        w == char_width(c),
{
    let code = c as u32;
    if code < 0x80 {
        1
    } else if code < 0x800 {
        2
    } else if code < 0x10000 {
        3
    } else {
        4
    }
}

impl ParseState {
    /// A copy of this state.
    pub fn duplicate(&self) -> (r: ParseState)
        ensures
            r@ == self@,
    {
        let source = self.source.clone();
        proof {
            assert(source@ =~= self.source@);
        }
        ParseState { source, line: self.line, position: self.position }
    }
}

// ---------------------------------------------------------------------------
// The builder of a state
// ---------------------------------------------------------------------------

/// What a `ParseStateBuilder` holds.
pub struct BuilderModel {
    pub source: Option<Seq<char>>,
    pub line: Option<usize>,
    pub position: Option<usize>,
}

/// Builds a `ParseState`; what is not set defaults to an empty input, line 1
/// and position 0.
pub struct ParseStateBuilder {
    source: Option<Vec<char>>,
    line: Option<usize>,
    position: Option<usize>,
}

impl View for ParseStateBuilder {
    type V = BuilderModel;

    closed spec fn view(&self) -> BuilderModel {
        BuilderModel {
            source: match self.source {
                Some(v) => Some(v@),
                None => None,
            },
            line: self.line,
            position: self.position,
        }
    }
}

impl Default for ParseStateBuilder {
    fn default() -> (r: Self)
        ensures
            r@ == (BuilderModel { source: None, line: None, position: None }),
    {
        ParseStateBuilder { source: None, line: None, position: None }
    }
}

/// The characters of `s`, in order.
pub(crate) fn chars_of(s: &str) -> (v: Vec<char>)
    ensures
        v@ == s@,
{
    let n = s.unicode_len();
    let mut v: Vec<char> = Vec::new();
    let mut i: usize = 0;
    while i < n
        invariant
            n == s@.len(),
            i <= n,
            v@ == s@.take(i as int),
        decreases n - i,
    {
        let c = s.get_char(i);
        v.push(c);
        i = i + 1;
        proof {
            assert(v@ =~= s@.take(i as int));
        }
    }
    proof {
        assert(s@.take(n as int) =~= s@);
    }
    v
}

impl ParseStateBuilder {
    /// Sets the input to the characters of `source`.
    pub fn source(self, source: &str) -> (r: Self)
        ensures
            r@ == (BuilderModel { source: Some(source@), ..self@ }),
    {
        ParseStateBuilder { source: Some(chars_of(source)), line: self.line, position: self.position }
    }

    /// Sets the line.
    pub fn line(self, line: usize) -> (r: Self)
        ensures
            r@ == (BuilderModel { line: Some(line), ..self@ }),
    {
        ParseStateBuilder { source: self.source, line: Some(line), position: self.position }
    }

    /// Sets the byte position.
    pub fn position(self, position: usize) -> (r: Self)
        ensures
            r@ == (BuilderModel { position: Some(position), ..self@ }),
    {
        ParseStateBuilder { source: self.source, line: self.line, position: Some(position) }
    }

    /// The state, with the defaults for what was not set.
    pub fn build(self) -> (r: ParseState)
        ensures
            r@ == (StateModel {
                rest: match self@.source {
                    Some(s) => s,
                    None => Seq::empty(),
                },
                line: match self@.line {
                    Some(l) => l,
                    None => 1,
                },
                position: match self@.position {
                    Some(p) => p,
                    None => 0,
                },
            }),
    {
        let source = match self.source {
            Some(v) => v,
            None => Vec::new(),
        };
        let line = match self.line {
            Some(l) => l,
            None => 1,
        };
        let position = match self.position {
            Some(p) => p,
            None => 0,
        };
        ParseState { source, line, position }
    }
}

// ---------------------------------------------------------------------------
// The meaning of parsers
// ---------------------------------------------------------------------------

/// The meaning of a parser: from a state to what was parsed and the state
/// after it, or to an error.
pub type ParseFn<V> = spec_fn(StateModel) -> Result<(V, StateModel), ParseError>;

/// The outcome of a parse, by views.
pub open spec fn result_view<O: DeepView>(r: Result<(O, ParseState), ParseError>) -> Result<
    (O::V, StateModel),
    ParseError,
> {
    match r {
        Ok((o, s)) => Ok((o.deep_view(), s@)),
        Err(e) => Err(e),
    }
}

/// From a state that cannot overflow, `p` only consumes a prefix of the input
/// and ends in a state that cannot overflow.
pub open spec fn well_behaved<V>(p: ParseFn<V>) -> bool {
    forall|s: StateModel|
        s.wf() && (#[trigger] p(s)) is Ok ==> {
            let s2 = p(s)->Ok_0.1;
            s2.wf() && s2.rest.is_suffix_of(s.rest)
        }
}

/// Whenever `p` succeeds it consumes at least one character.
pub open spec fn productive<V>(p: ParseFn<V>) -> bool {
    forall|s: StateModel|
        s.wf() && (#[trigger] p(s)) is Ok ==> p(s)->Ok_0.1.rest.len() < s.rest.len()
}

/// The meaning of `next`: the first character, if there is one.
pub open spec fn next_sem() -> ParseFn<char> {
    |s: StateModel|
        if s.rest.len() == 0 {
            Err(ParseError::CannotGetNext)
        } else {
            Ok((s.rest[0], s.advance(s.rest[0])))
        }
}

/// The meaning of `satisfy(pred)`: the first character, if there is one and
/// `pred` accepts it.
pub open spec fn satisfy_sem(pred: spec_fn(char) -> bool) -> ParseFn<char> {
    |s: StateModel|
        if s.rest.len() == 0 {
            Err(ParseError::CannotGetNext)
        } else if !pred(s.rest[0]) {
            Err(ParseError::PredicateFailed)
        } else {
            Ok((s.rest[0], s.advance(s.rest[0])))
        }
}

/// Accepts exactly `target`.
pub open spec fn is_char(target: char) -> spec_fn(char) -> bool {
    |c: char| c == target
}

/// The meaning of `char(target)`.
pub open spec fn char_sem(target: char) -> ParseFn<char> {
    satisfy_sem(is_char(target))
}

/// The meaning of `chain(p1, p2)`.
pub open spec fn chain_sem<A, B>(p1: ParseFn<A>, p2: ParseFn<B>) -> ParseFn<(A, B)> {
    |s: StateModel|
        match p1(s) {
            Err(e) => Err(ParseError::ChainFailed(Box::new(e))),
            Ok((x1, s1)) => match p2(s1) {
                Err(e) => Err(ParseError::ChainFailed(Box::new(e))),
                Ok((x2, s2)) => Ok(((x1, x2), s2)),
            },
        }
}

/// The first alternative of `ps` that succeeds on `s`.
pub open spec fn first_match<A>(ps: Seq<ParseFn<A>>, s: StateModel) -> Result<
    (A, StateModel),
    ParseError,
>
    decreases ps.len(),
{
    if ps.len() == 0 {
        Err(ParseError::NoneParserMatched)
    } else {
        match (ps[0])(s) {
            Ok(r) => Ok(r),
            Err(_) => first_match(ps.drop_first(), s),
        }
    }
}

/// The meaning of `or(ps)`.
pub open spec fn or_sem<A>(ps: Seq<ParseFn<A>>) -> ParseFn<A> {
    |s: StateModel| first_match(ps, s)
}

/// Applies `p` as long as it succeeds and consumes input.
pub open spec fn repeat<A>(p: ParseFn<A>, s: StateModel) -> (Seq<A>, StateModel)
    decreases s.rest.len(),
{
    match p(s) {
        Ok((x, s2)) => if s2.rest.len() < s.rest.len() {
            let (xs, s3) = repeat(p, s2);
            (seq![x] + xs, s3)
        } else {
            (seq![], s)
        },
        Err(_) => (seq![], s),
    }
}

/// The meaning of `many0(p)`: it never fails.
pub open spec fn many0_sem<A>(p: ParseFn<A>) -> ParseFn<Seq<A>> {
    |s: StateModel| Ok(repeat(p, s))
}

/// The meaning of `many1(p)`: it fails as `p` does when `p` fails at once.
pub open spec fn many1_sem<A>(p: ParseFn<A>) -> ParseFn<Seq<A>> {
    |s: StateModel|
        match p(s) {
            Err(e) => Err(e),
            Ok(_) => Ok(repeat(p, s)),
        }
}

/// The meaning of `map(p, f)`.
pub open spec fn map_sem<A, B>(p: ParseFn<A>, f: spec_fn(A) -> B) -> ParseFn<B> {
    |s: StateModel|
        match p(s) {
            Err(e) => Err(e),
            Ok((x, s2)) => Ok((f(x), s2)),
        }
}

/// The meaning of `map_with_rest(p, f)`.
pub open spec fn map_with_rest_sem<A, B>(
    p: ParseFn<A>,
    f: spec_fn(A, StateModel) -> (B, StateModel),
) -> ParseFn<B> {
    |s: StateModel|
        match p(s) {
            Err(e) => Err(e),
            Ok((x, s2)) => Ok(f(x, s2)),
        }
}

/// The meaning of `bracket(open, p, close)`: what `p` yields between the two.
pub open spec fn bracket_sem<A, B, C>(
    open: ParseFn<A>,
    p: ParseFn<B>,
    close: ParseFn<C>,
) -> ParseFn<B> {
    |s: StateModel|
        match open(s) {
            Err(e) => Err(e),
            Ok((_, s1)) => match p(s1) {
                Err(e) => Err(e),
                Ok((x, s2)) => match close(s2) {
                    Err(e) => Err(e),
                    Ok((_, s3)) => Ok((x, s3)),
                },
            },
        }
}

// ---------------------------------------------------------------------------
// Parsers
// ---------------------------------------------------------------------------

/// A parser that yields an `Output`.
pub trait Parser<Output: DeepView> {
    /// What parsing from the state `s` gives.
    spec fn spec_parse(&self, s: StateModel) -> Result<(Output::V, StateModel), ParseError>;

    /// The parser may be run.
    spec fn well_formed(&self) -> bool;

    fn parse(&self, input: ParseState) -> (res: Result<(Output, ParseState), ParseError>)
        requires
            self.well_formed(),
            input@.wf(),
        ensures
            result_view(res) == self.spec_parse(input@),
            res matches Ok((_, rest)) ==> rest@.wf(),
    ;
}

/// A parser of any kind, behind a pointer.
#[verifier::reject_recursive_types(T)]
pub struct BoxedParser<T> {
    pub inner: Box<dyn Parser<T>>,
}

impl<T: DeepView> Parser<T> for BoxedParser<T> {
    open spec fn spec_parse(&self, s: StateModel) -> Result<(T::V, StateModel), ParseError> {
        self.inner.spec_parse(s)
    }

    open spec fn well_formed(&self) -> bool {
        self.inner.well_formed()
    }

    fn parse(&self, input: ParseState) -> (res: Result<(T, ParseState), ParseError>) {
        self.inner.parse(input)
    }
}

/// The meaning of a boxed parser.
pub open spec fn sem<T: DeepView>(p: &BoxedParser<T>) -> ParseFn<T::V> {
    |s: StateModel| p.spec_parse(s)
}

/// Decides for a character whether it is accepted.
pub trait CharPredicate {
    spec fn spec_test(&self, c: char) -> bool;

    fn test(&self, c: char) -> (b: bool)
        ensures
            b == self.spec_test(c),
    ;
}

/// Turns what a parser yields into something else.
pub trait MapFn<In: DeepView, Out: DeepView> {
    spec fn spec_apply(&self, x: In::V) -> Out::V;

    fn apply(&self, x: In) -> (r: Out)
        ensures
            r.deep_view() == self.spec_apply(x.deep_view()),
    ;
}

/// Turns what a parser yields, with the state after it, into something else
/// and a new state.
pub trait MapWithRestFn<In: DeepView, Out: DeepView> {
    /// The inputs on which the transformation is defined.
    spec fn accepts(&self, x: In::V, rest: StateModel) -> bool;

    spec fn spec_apply(&self, x: In::V, rest: StateModel) -> (Out::V, StateModel);

    fn apply(&self, x: In, rest: ParseState) -> (r: (Out, ParseState))
        requires
            rest@.wf(),
            self.accepts(x.deep_view(), rest@),
        ensures
            (r.0.deep_view(), r.1@) == self.spec_apply(x.deep_view(), rest@),
    ;
}

/// The meaning of a predicate.
pub open spec fn pred_sem<F: CharPredicate>(f: &F) -> spec_fn(char) -> bool {
    |c: char| f.spec_test(c)
}

/// The meaning of a transformation.
pub open spec fn map_fn_sem<In: DeepView, Out: DeepView, F: MapFn<In, Out>>(f: &F) -> spec_fn(
    In::V,
) -> Out::V {
    |x: In::V| f.spec_apply(x)
}

/// The meaning of a transformation that sees the state.
pub open spec fn map_rest_fn_sem<In: DeepView, Out: DeepView, F: MapWithRestFn<In, Out>>(
    f: &F,
) -> spec_fn(In::V, StateModel) -> (Out::V, StateModel) {
    |x: In::V, s: StateModel| f.spec_apply(x, s)
}

/// The parser that `next` makes.
pub struct NextParser;

impl Parser<char> for NextParser {
    open spec fn spec_parse(&self, s: StateModel) -> Result<(char, StateModel), ParseError> {
        next_sem()(s)
    }

    open spec fn well_formed(&self) -> bool {
        true
    }

    fn parse(&self, input: ParseState) -> (res: Result<(char, ParseState), ParseError>) {
        let mut state = input;
        if state.source.len() == 0 {
            return Err(ParseError::CannotGetNext);
        }
        let ghost s = state@;
        let ch = state.source.remove(0);
        let w = utf8_width(ch);
        state.position = state.position + w;
        proof {
            assert(state.source@ =~= s.rest.drop_first());
        }
        Ok((ch, state))
    }
}

/// Consumes one character, whatever it is.
pub fn next() -> (r: BoxedParser<char>)
    ensures
        r.well_formed(),
        sem(&r) == next_sem(),
{
    let r = BoxedParser { inner: Box::new(NextParser) };
    assert(sem(&r) =~= next_sem());
    r
}


/// The parser that `satisfy` makes.
pub struct SatisfyParser<F> {
    pub predicate: F,
}

impl<F: CharPredicate> Parser<char> for SatisfyParser<F> {
    open spec fn spec_parse(&self, s: StateModel) -> Result<(char, StateModel), ParseError> {
        satisfy_sem(pred_sem(&self.predicate))(s)
    }

    open spec fn well_formed(&self) -> bool {
        true
    }

    fn parse(&self, input: ParseState) -> (res: Result<(char, ParseState), ParseError>) {
        let mut state = input;
        if state.source.len() == 0 {
            return Err(ParseError::CannotGetNext);
        }
        let ch = state.source[0];
        if !self.predicate.test(ch) {
            return Err(ParseError::PredicateFailed);
        }
        let ghost s = state@;
        state.source.remove(0);
        let w = utf8_width(ch);
        state.position = state.position + w;
        proof {
            assert(state.source@ =~= s.rest.drop_first());
        }
        Ok((ch, state))
    }
}

/// Consumes one character if `predicate` accepts it.
pub fn satisfy<F: CharPredicate + 'static>(predicate: F) -> (r: BoxedParser<char>)
    ensures
        r.well_formed(),
        sem(&r) == satisfy_sem(pred_sem(&predicate)),
{
    let ghost pf = pred_sem(&predicate);
    let r = BoxedParser { inner: Box::new(SatisfyParser { predicate }) };
    assert(sem(&r) =~= satisfy_sem(pf));
    r
}

/// Accepts exactly one character.
pub struct IsChar {
    pub target: char,
}

impl CharPredicate for IsChar {
    open spec fn spec_test(&self, c: char) -> bool {
        c == self.target
    }

    fn test(&self, c: char) -> (b: bool) {
        c == self.target
    }
}

/// Consumes the character `target`.
pub fn char(target: char) -> (r: BoxedParser<char>)
    ensures
        r.well_formed(),
        sem(&r) == char_sem(target),
{
    let r = satisfy(IsChar { target });
    assert(pred_sem(&IsChar { target }) =~= is_char(target));
    r
}

#[verifier::reject_recursive_types(T)]
#[verifier::reject_recursive_types(K)]
pub struct ChainParser<T, K> {
    pub first: BoxedParser<T>,
    pub second: BoxedParser<K>,
}

impl<T: DeepView, K: DeepView> Parser<(T, K)> for ChainParser<T, K> {
    open spec fn spec_parse(&self, s: StateModel) -> Result<((T::V, K::V), StateModel), ParseError> {
        chain_sem(sem(&self.first), sem(&self.second))(s)
    }

    open spec fn well_formed(&self) -> bool {
        self.first.well_formed() && self.second.well_formed()
    }

    fn parse(&self, input: ParseState) -> (res: Result<((T, K), ParseState), ParseError>) {
        let (x1, rest) = match self.first.parse(input) {
            Ok(r) => r,
            Err(e) => {
                return Err(ParseError::ChainFailed(Box::new(e)));
            },
        };
        let (x2, rest) = match self.second.parse(rest) {
            Ok(r) => r,
            Err(e) => {
                return Err(ParseError::ChainFailed(Box::new(e)));
            },
        };
        Ok(((x1, x2), rest))
    }
}

/// Runs `p1` and then `p2` on what `p1` left; a failure of either is wrapped
/// in `ChainFailed`.
pub fn chain<T: DeepView + 'static, K: DeepView + 'static>(
    p1: BoxedParser<T>,
    p2: BoxedParser<K>,
) -> (r: BoxedParser<(T, K)>)
    ensures
        r.well_formed() == (p1.well_formed() && p2.well_formed()),
        sem(&r) == chain_sem(sem(&p1), sem(&p2)),
{
    let ghost f1 = sem(&p1);
    let ghost f2 = sem(&p2);
    let r = BoxedParser { inner: Box::new(ChainParser { first: p1, second: p2 }) };
    assert(sem(&r) =~= chain_sem(f1, f2));
    r
}

/// The meanings of a list of boxed parsers.
pub open spec fn sems<T: DeepView>(ps: Seq<BoxedParser<T>>) -> Seq<ParseFn<T::V>> {
    ps.map_values(|p: BoxedParser<T>| sem(&p))
}

#[verifier::reject_recursive_types(T)]
pub struct OrParser<T> {
    pub alternatives: Vec<BoxedParser<T>>,
}

impl<T: DeepView> Parser<T> for OrParser<T> {
    open spec fn spec_parse(&self, s: StateModel) -> Result<(T::V, StateModel), ParseError> {
        or_sem(sems(self.alternatives@))(s)
    }

    open spec fn well_formed(&self) -> bool {
        forall|i: int| 0 <= i < self.alternatives@.len() ==> #[trigger] self.alternatives@[i].well_formed()
    }

    fn parse(&self, input: ParseState) -> (res: Result<(T, ParseState), ParseError>) {
        let ghost fs = sems(self.alternatives@);
        let mut i: usize = 0;
        assert(fs.skip(0) =~= fs);
        while i < self.alternatives.len()
            invariant
                self.well_formed(),
                input@.wf(),
                fs == sems(self.alternatives@),
                0 <= i <= self.alternatives@.len(),
                first_match(fs, input@) == first_match(fs.skip(i as int), input@),
            decreases self.alternatives@.len() - i,
        {
            let ghost rest_fs = fs.skip(i as int);
            assert(rest_fs[0] == sem(&self.alternatives@[i as int]));
            assert(rest_fs.drop_first() =~= fs.skip(i + 1));
            let result = self.alternatives[i].parse(input.duplicate());
            if result.is_ok() {
                return result;
            }
            i = i + 1;
        }
        Err(ParseError::NoneParserMatched)
    }
}

/// Tries the parsers of `ps` in turn on the same input and gives the result
/// of the first that succeeds.
pub fn or<T: DeepView + 'static>(ps: Vec<BoxedParser<T>>) -> (r: BoxedParser<T>)
    ensures
        r.well_formed() == (forall|i: int| 0 <= i < ps@.len() ==> #[trigger] ps@[i].well_formed()),
        sem(&r) == or_sem(sems(ps@)),
{
    let ghost fs = sems(ps@);
    let ghost ps0 = ps@;
    let op = OrParser { alternatives: ps };
    assert(op.alternatives@ == ps0);
    let r = BoxedParser { inner: Box::new(op) };
    assert(sem(&r) =~= or_sem(fs));
    r
}


/// Runs `p` from `input` as long as it succeeds, after `results`.
fn repeat_exec<T: DeepView>(p: &BoxedParser<T>, init: Vec<T>, input: ParseState) -> (r: (
    Vec<T>,
    ParseState,
))
    requires
        p.well_formed(),
        productive(sem(p)),
        input@.wf(),
    ensures
        r.0.deep_view() == init.deep_view() + repeat(sem(p), input@).0,
        r.1@ == repeat(sem(p), input@).1,
        r.1@.wf(),
{
    let ghost f = sem(p);
    let ghost start = init.deep_view();
    let mut results = init;
    let mut state = input;
    loop
        invariant
            p.well_formed(),
            productive(f),
            f == sem(p),
            start == init.deep_view(),
            state@.wf(),
            results.deep_view() + repeat(f, state@).0 == start + repeat(f, input@).0,
            repeat(f, state@).1 == repeat(f, input@).1,
        decreases state@.rest.len(),
    {
        match p.parse(state.duplicate()) {
            Ok((x, rest)) => {
                let ghost before = results.deep_view();
                let ghost s = state@;
                assert(f(s) == Ok::<_, ParseError>((x.deep_view(), rest@)));
                assert(rest@.rest.len() < s.rest.len());
                results.push(x);
                state = rest;
                assert(results.deep_view() =~= before.push(x.deep_view()));
                assert(before + repeat(f, s).0 =~= results.deep_view() + repeat(f, state@).0);
            },
            Err(_) => {
                assert(repeat(f, state@) == (Seq::<T::V>::empty(), state@));
                assert(results.deep_view() + repeat(f, state@).0 =~= results.deep_view());
                return (results, state);
            },
        }
    }
}

#[verifier::reject_recursive_types(T)]
pub struct Many0Parser<T> {
    pub item: BoxedParser<T>,
}

impl<T: DeepView> Parser<Vec<T>> for Many0Parser<T> {
    open spec fn spec_parse(&self, s: StateModel) -> Result<(Seq<T::V>, StateModel), ParseError> {
        many0_sem(sem(&self.item))(s)
    }

    open spec fn well_formed(&self) -> bool {
        self.item.well_formed() && productive(sem(&self.item))
    }

    fn parse(&self, input: ParseState) -> (res: Result<(Vec<T>, ParseState), ParseError>) {
        let results: Vec<T> = Vec::new();
        let (results, rest) = repeat_exec(&self.item, results, input);
        proof {
            assert(results.deep_view() =~= repeat(sem(&self.item), input@).0);
        }
        Ok((results, rest))
    }
}

/// Applies `p` as long as it succeeds; never fails.
pub fn many0<T: DeepView + 'static>(p: BoxedParser<T>) -> (r: BoxedParser<Vec<T>>)
    ensures
        r.well_formed() == (p.well_formed() && productive(sem(&p))),
        sem(&r) == many0_sem(sem(&p)),
{
    let ghost f = sem(&p);
    let r = BoxedParser { inner: Box::new(Many0Parser { item: p }) };
    assert(sem(&r) =~= many0_sem(f));
    r
}

#[verifier::reject_recursive_types(T)]
pub struct Many1Parser<T> {
    pub item: BoxedParser<T>,
}

impl<T: DeepView> Parser<Vec<T>> for Many1Parser<T> {
    open spec fn spec_parse(&self, s: StateModel) -> Result<(Seq<T::V>, StateModel), ParseError> {
        many1_sem(sem(&self.item))(s)
    }

    open spec fn well_formed(&self) -> bool {
        self.item.well_formed() && productive(sem(&self.item))
    }

    fn parse(&self, input: ParseState) -> (res: Result<(Vec<T>, ParseState), ParseError>) {
        let ghost f = sem(&self.item);
        match self.item.parse(input.duplicate()) {
            Err(e) => Err(e),
            Ok((x, rest)) => {
                assert(f(input@) == Ok::<_, ParseError>((x.deep_view(), rest@)));
                let mut results: Vec<T> = Vec::new();
                results.push(x);
                let ghost first = results.deep_view();
                assert(first =~= seq![x.deep_view()]);
                let (results, rest) = repeat_exec(&self.item, results, rest);
                Ok((results, rest))
            },
        }
    }
}

/// Applies `p` as long as it succeeds; fails as `p` does when `p` fails at
/// once.
pub fn many1<T: DeepView + 'static>(p: BoxedParser<T>) -> (r: BoxedParser<Vec<T>>)
    ensures
        r.well_formed() == (p.well_formed() && productive(sem(&p))),
        sem(&r) == many1_sem(sem(&p)),
{
    let ghost f = sem(&p);
    let r = BoxedParser { inner: Box::new(Many1Parser { item: p }) };
    assert(sem(&r) =~= many1_sem(f));
    r
}

#[verifier::reject_recursive_types(T)]
#[verifier::reject_recursive_types(U)]
pub struct MapParser<T, U, F> {
    pub parser: BoxedParser<T>,
    pub transform: F,
    pub output: core::marker::PhantomData<U>,
}

impl<T: DeepView, U: DeepView, F: MapFn<T, U>> Parser<U> for MapParser<T, U, F> {
    open spec fn spec_parse(&self, s: StateModel) -> Result<(U::V, StateModel), ParseError> {
        map_sem(sem(&self.parser), map_fn_sem(&self.transform))(s)
    }

    open spec fn well_formed(&self) -> bool {
        self.parser.well_formed()
    }

    fn parse(&self, input: ParseState) -> (res: Result<(U, ParseState), ParseError>) {
        match self.parser.parse(input) {
            Err(e) => Err(e),
            Ok((x, rest)) => Ok((self.transform.apply(x), rest)),
        }
    }
}

/// Runs `parser` and turns what it yields with `transform`.
pub fn map<T: DeepView + 'static, U: DeepView + 'static, F: MapFn<T, U> + 'static>(
    parser: BoxedParser<T>,
    transform: F,
) -> (r: BoxedParser<U>)
    ensures
        r.well_formed() == parser.well_formed(),
        sem(&r) == map_sem(sem(&parser), map_fn_sem(&transform)),
{
    let ghost f = sem(&parser);
    let ghost g = map_fn_sem(&transform);
    let r = BoxedParser {
        inner: Box::new(MapParser { parser, transform, output: core::marker::PhantomData }),
    };
    assert(sem(&r) =~= map_sem(f, g));
    r
}

/// `f` is defined on what `p` yields from any state that cannot overflow, and
/// keeps such a state from overflowing.
pub open spec fn transform_fits<T: DeepView, U: DeepView, F: MapWithRestFn<T, U>>(
    p: ParseFn<T::V>,
    f: &F,
) -> bool {
    forall|s: StateModel|
        s.wf() && (#[trigger] p(s)) is Ok ==> {
            let (x, s2) = p(s)->Ok_0;
            s2.wf() ==> f.accepts(x, s2) && f.spec_apply(x, s2).1.wf()
        }
}

#[verifier::reject_recursive_types(T)]
#[verifier::reject_recursive_types(U)]
pub struct MapWithRestParser<T, U, F> {
    pub parser: BoxedParser<T>,
    pub transform: F,
    pub output: core::marker::PhantomData<U>,
}

impl<T: DeepView, U: DeepView, F: MapWithRestFn<T, U>> Parser<U> for MapWithRestParser<T, U, F> {
    open spec fn spec_parse(&self, s: StateModel) -> Result<(U::V, StateModel), ParseError> {
        map_with_rest_sem(sem(&self.parser), map_rest_fn_sem(&self.transform))(s)
    }

    open spec fn well_formed(&self) -> bool {
        self.parser.well_formed() && transform_fits(sem(&self.parser), &self.transform)
    }

    fn parse(&self, input: ParseState) -> (res: Result<(U, ParseState), ParseError>) {
        let ghost f = sem(&self.parser);
        match self.parser.parse(input) {
            Err(e) => Err(e),
            Ok((x, rest)) => {
                assert(f(input@) == Ok::<_, ParseError>((x.deep_view(), rest@)));
                Ok(self.transform.apply(x, rest))
            },
        }
    }
}

/// Runs `parser` and turns what it yields, together with the state after it,
/// with `transform`.
pub fn map_with_rest<T: DeepView + 'static, U: DeepView + 'static, F: MapWithRestFn<T, U> + 'static>(
    parser: BoxedParser<T>,
    transform: F,
) -> (r: BoxedParser<U>)
    ensures
        r.well_formed() == (parser.well_formed() && transform_fits(sem(&parser), &transform)),
        sem(&r) == map_with_rest_sem(sem(&parser), map_rest_fn_sem(&transform)),
{
    let ghost f = sem(&parser);
    let ghost g = map_rest_fn_sem(&transform);
    let r = BoxedParser {
        inner: Box::new(MapWithRestParser { parser, transform, output: core::marker::PhantomData }),
    };
    assert(sem(&r) =~= map_with_rest_sem(f, g));
    r
}

#[verifier::reject_recursive_types(A)]
#[verifier::reject_recursive_types(B)]
#[verifier::reject_recursive_types(C)]
pub struct BracketParser<A, B, C> {
    pub open: BoxedParser<A>,
    pub inner: BoxedParser<B>,
    pub close: BoxedParser<C>,
}

impl<A: DeepView, B: DeepView, C: DeepView> Parser<B> for BracketParser<A, B, C> {
    open spec fn spec_parse(&self, s: StateModel) -> Result<(B::V, StateModel), ParseError> {
        bracket_sem(sem(&self.open), sem(&self.inner), sem(&self.close))(s)
    }

    open spec fn well_formed(&self) -> bool {
        self.open.well_formed() && self.inner.well_formed() && self.close.well_formed()
    }

    fn parse(&self, input: ParseState) -> (res: Result<(B, ParseState), ParseError>) {
        let rest = match self.open.parse(input) {
            Err(e) => {
                return Err(e);
            },
            Ok((_, rest)) => rest,
        };
        let (x, rest) = match self.inner.parse(rest) {
            Err(e) => {
                return Err(e);
            },
            Ok(r) => r,
        };
        match self.close.parse(rest) {
            Err(e) => Err(e),
            Ok((_, rest)) => Ok((x, rest)),
        }
    }
}

/// Runs `open`, `p` and `close` in turn and gives what `p` yields; a failure
/// of any of them is passed on as it is.
pub fn bracket<A: DeepView + 'static, B: DeepView + 'static, C: DeepView + 'static>(
    open: BoxedParser<A>,
    p: BoxedParser<B>,
    close: BoxedParser<C>,
) -> (r: BoxedParser<B>)
    ensures
        r.well_formed() == (open.well_formed() && p.well_formed() && close.well_formed()),
        sem(&r) == bracket_sem(sem(&open), sem(&p), sem(&close)),
{
    let ghost f1 = sem(&open);
    let ghost f2 = sem(&p);
    let ghost f3 = sem(&close);
    let r = BoxedParser { inner: Box::new(BracketParser { open, inner: p, close }) };
    assert(sem(&r) =~= bracket_sem(f1, f2, f3));
    r
}

} // verus!
