use vstd::prelude::*;

use crate::numeric::{
    digit_run_len, digits_val, is_digit, lemma_digit_run, lemma_digits_val_push,
    lemma_digits_val_take_le,
};
use crate::token::{lemma_tokens_model_push, tokens_model, Token, TokenModel};

verus! {

/// A cursor: the remaining input, a suffix of the original text.
pub type State<'a> = &'a str;

/// What applying a combinator yields: on success a token and the
/// advanced cursor, on failure the cursor the combinator was given.
pub type ParseResult<'a> = Result<(Token, State<'a>), State<'a>>;

/// The model of a result: on success the token's model and the
/// remaining characters; on failure nothing, since the cursor is the
/// one the combinator was given.
pub type SpecResult = Option<(TokenModel, Seq<char>)>;

/// A grammar combinator.
///
/// A combinator is a value; applying it to a cursor (see [`Parser`])
/// either produces a token and an advanced cursor or fails and hands
/// the cursor back unchanged. Composite combinators own their children,
/// so a value of this type is a whole grammar tree.
pub enum Combinator<P> {
    /// Matches an exact piece of text.
    Literal(String),
    /// Applies each child in order, each to the cursor the previous one
    /// produced.
    Sequence(Vec<Combinator<P>>),
    /// Applies one child greedily and demands at least the given number
    /// of successes.
    Repeat(Box<Combinator<P>>, usize),
    /// Tries each child in order against the same cursor; the first
    /// success wins.
    Alternatively(Vec<Combinator<P>>),
    /// Matches an optionally signed run of decimal digits as an `i64`.
    Number,
    /// Matches one character that satisfies the predicate.
    Predicate(P),
}

/// What the engine asks of a predicate: it can be called on any
/// character, and it answers every character consistently, as a pure
/// function does.
pub open spec fn pred_wf<P: Fn(char) -> bool>(p: P) -> bool {
    &&& forall|c: char| #[trigger] call_requires(p, (c,))
    &&& forall|c: char, b1: bool, b2: bool|
        #![trigger call_ensures(p, (c,), b1), call_ensures(p, (c,), b2)]
        call_ensures(p, (c,), b1) && call_ensures(p, (c,), b2) ==> b1 == b2
}

/// Every predicate in the tree is a pure, total function.
pub open spec fn wf<P: Fn(char) -> bool>(c: Combinator<P>) -> bool
    decreases c,
{
    match c {
        Combinator::Literal(_) => true,
        Combinator::Sequence(cs) => forall|i: int| 0 <= i < cs@.len() ==> wf(#[trigger] cs@[i]),
        Combinator::Repeat(child, _) => wf(*child),
        Combinator::Alternatively(cs) => forall|i: int|
            0 <= i < cs@.len() ==> wf(#[trigger] cs@[i]),
        Combinator::Number => true,
        Combinator::Predicate(p) => pred_wf(p),
    }
}

/// The literal matcher: succeed exactly when the input starts with the
/// literal, consume that many characters, and yield the literal itself.
pub open spec fn spec_literal(lit: Seq<char>, input: Seq<char>) -> SpecResult {
    if lit.len() <= input.len() && input.take(lit.len() as int) == lit {
        Some((TokenModel::Str(lit), input.skip(lit.len() as int)))
    } else {
        None
    }
}

/// The predicate matcher: succeed exactly when the input is non-empty
/// and the predicate accepts its first character; consume that one
/// character.
pub open spec fn spec_predicate<P: Fn(char) -> bool>(p: P, input: Seq<char>) -> SpecResult {
    if input.len() > 0 && call_ensures(p, (input[0],), true) {
        Some((TokenModel::Predicate(input[0]), input.drop_first()))
    } else {
        None
    }
}

/// The integer matcher: an optional minus sign, then the maximal run of
/// decimal digits; succeed when the run is non-empty and the value fits
/// a signed 64-bit integer, and consume sign and digits.
pub open spec fn spec_number(input: Seq<char>) -> SpecResult {
    let start: int = if input.len() > 0 && input[0] == '-' {
        1
    } else {
        0
    };
    let run_len = digit_run_len(input.skip(start));
    let v = digits_val(input.skip(start).take(run_len as int));
    if run_len == 0 {
        None
    } else if start == 1 {
        if v <= 0x8000_0000_0000_0000 {
            Some((TokenModel::Number((-(v as int)) as i64), input.skip(start + run_len)))
        } else {
            None
        }
    } else {
        if v <= 0x7fff_ffff_ffff_ffff {
            Some((TokenModel::Number(v as i64), input.skip(start + run_len)))
        } else {
            None
        }
    }
}

/// What applying a combinator to a cursor yields.
///
/// This is the meaning of every combinator in one place: the contract
/// of [`Parser::parse`] says that the executable engine returns exactly
/// this (and hands the cursor back unchanged on `None`).
pub open spec fn spec_parse<P: Fn(char) -> bool>(c: Combinator<P>, input: Seq<char>) -> SpecResult
    decreases c, 0nat, 0nat,
{
    match c {
        Combinator::Literal(lit) => spec_literal(lit@, input),
        Combinator::Sequence(cs) => match spec_parse_seq(cs@, input) {
            Some((ts, rest)) => Some((TokenModel::Sequence(ts), rest)),
            None => None,
        },
        Combinator::Repeat(child, at_least) => {
            let (ts, rest) = spec_rep(*child, input);
            if ts.len() >= at_least {
                Some((TokenModel::Repeat(ts), rest))
            } else {
                None
            }
        },
        Combinator::Alternatively(cs) => spec_parse_alt(cs@, input),
        Combinator::Number => spec_number(input),
        Combinator::Predicate(p) => spec_predicate(p, input),
    }
}

/// The sequence combinator over a list of children: apply each in
/// order, each to the cursor the previous one produced; fail if any
/// child fails.
pub open spec fn spec_parse_seq<P: Fn(char) -> bool>(
    cs: Seq<Combinator<P>>,
    input: Seq<char>,
) -> Option<(Seq<TokenModel>, Seq<char>)>
    decreases cs, 0nat, 0nat,
{
    if cs.len() == 0 {
        Some((Seq::empty(), input))
    } else {
        match spec_parse(cs[0], input) {
            Some((t, rest)) => match spec_parse_seq(cs.drop_first(), rest) {
                Some((ts, fin)) => Some((seq![t] + ts, fin)),
                None => None,
            },
            None => None,
        }
    }
}

/// The alternation combinator over a list of children: the result of
/// the first child that succeeds on the given cursor, unwrapped; `None`
/// when every child fails.
pub open spec fn spec_parse_alt<P: Fn(char) -> bool>(
    cs: Seq<Combinator<P>>,
    input: Seq<char>,
) -> SpecResult
    decreases cs, 0nat, 0nat,
{
    if cs.len() == 0 {
        None
    } else {
        match spec_parse(cs[0], input) {
            Some(r) => Some(r),
            None => spec_parse_alt(cs.drop_first(), input),
        }
    }
}

/// The greedy run of one combinator: apply it again and again, each
/// time to the cursor the previous success produced, and collect the
/// tokens. The run ends when the combinator fails, or when a success
/// consumes nothing — a guard that keeps a zero-width match such as an
/// empty literal from repeating forever.
pub open spec fn spec_rep<P: Fn(char) -> bool>(c: Combinator<P>, input: Seq<char>) -> (
    Seq<TokenModel>,
    Seq<char>,
)
    decreases c, input.len(), 1nat,
{
    match spec_parse(c, input) {
        Some((t, rest)) => {
            if rest.len() < input.len() {
                let (ts, fin) = spec_rep(c, rest);
                (seq![t] + ts, fin)
            } else {
                (Seq::empty(), input)
            }
        },
        None => (Seq::empty(), input),
    }
}

/// Anything that can be applied to a cursor.
///
/// `parse` never touches the text it is given: on success it returns a
/// token and the remaining suffix, on failure it returns the very
/// cursor it received, so a caller can simply try something else.
pub trait Parser {
    /// Every predicate this value holds is a pure, total function.
    spec fn wf(&self) -> bool;

    /// The result this value yields on the given characters.
    spec fn spec_parse(&self, input: Seq<char>) -> SpecResult;

    /// Apply to a cursor: `Ok` with the token and the advanced cursor
    /// exactly when the model succeeds, `Err` with the cursor unchanged
    /// exactly when it fails.
    fn parse<'a>(&self, state: State<'a>) -> (res: ParseResult<'a>)
        requires
            self.wf(),
        ensures
            (match res {
                Ok((t, rest)) => self.spec_parse(state@) == Some((t@, rest@)),
                Err(rest) => rest@ == state@ && self.spec_parse(state@) is None,
            }),
    ;
}

impl<P: Fn(char) -> bool> Parser for Combinator<P> {
    #[verifier::inline]
    open spec fn wf(&self) -> bool {
        wf(*self)
    }

    #[verifier::inline]
    open spec fn spec_parse(&self, input: Seq<char>) -> SpecResult {
        spec_parse(*self, input)
    }

    fn parse<'a>(&self, state: State<'a>) -> (res: ParseResult<'a>) {
        self.apply(state)
    }
}

/// Appending one child to a sequence's children applies it after all
/// the others, to the cursor they left behind.
pub proof fn lemma_parse_seq_snoc<P: Fn(char) -> bool>(
    cs: Seq<Combinator<P>>,
    c: Combinator<P>,
    input: Seq<char>,
)
    ensures
        spec_parse_seq(cs.push(c), input) == (match spec_parse_seq(cs, input) {
            Some((ts, cur)) => match spec_parse(c, cur) {
                Some((t, rest)) => Some((ts.push(t), rest)),
                None => None,
            },
            None => None,
        }),
    decreases cs.len(),
{
    if cs.len() == 0 {
        assert(cs =~= Seq::<Combinator<P>>::empty());
        assert(cs.push(c)[0] == c);
        assert(cs.push(c).drop_first() =~= Seq::<Combinator<P>>::empty());
        match spec_parse(c, input) {
            Some((t, rest)) => {
                assert(spec_parse_seq(Seq::<Combinator<P>>::empty(), rest) == Some(
                    (Seq::<TokenModel>::empty(), rest),
                ));
                assert(seq![t] + Seq::<TokenModel>::empty() =~= Seq::<TokenModel>::empty().push(t));
            },
            None => {},
        }
    } else {
        assert(cs.push(c)[0] == cs[0]);
        assert(cs.push(c).drop_first() =~= cs.drop_first().push(c));
        match spec_parse(cs[0], input) {
            Some((t0, r0)) => {
                lemma_parse_seq_snoc(cs.drop_first(), c, r0);
                match spec_parse_seq(cs.drop_first(), r0) {
                    Some((ts1, cur1)) => {
                        match spec_parse(c, cur1) {
                            Some((t, rest)) => {
                                assert(seq![t0] + ts1.push(t) =~= (seq![t0] + ts1).push(t));
                            },
                            None => {},
                        }
                    },
                    None => {},
                }
            },
            None => {},
        }
    }
}

/// If the children before position `i` succeed and the child at `i`
/// fails on the cursor they produced, the whole sequence fails.
pub proof fn lemma_parse_seq_prefix_fail<P: Fn(char) -> bool>(
    cs: Seq<Combinator<P>>,
    input: Seq<char>,
    i: int,
)
    requires
        0 <= i < cs.len(),
        spec_parse_seq(cs.take(i), input) is Some,
        spec_parse(cs[i], spec_parse_seq(cs.take(i), input)->Some_0.1) is None,
    ensures
        spec_parse_seq(cs, input) is None,
    decreases i,
{
    if i == 0 {
        assert(cs.take(0) =~= Seq::<Combinator<P>>::empty());
    } else {
        assert(cs.take(i)[0] == cs[0]);
        match spec_parse(cs[0], input) {
            Some((t0, r0)) => {
                assert(cs.take(i).drop_first() =~= cs.drop_first().take(i - 1));
                assert(cs.drop_first()[i - 1] == cs[i]);
                lemma_parse_seq_prefix_fail(cs.drop_first(), r0, i - 1);
            },
            None => {},
        }
    }
}

/// The literal matcher, on a cursor.
#[verifier::loop_isolation(false)]
fn apply_literal<'a>(lit: &String, state: State<'a>) -> (res: ParseResult<'a>)
    ensures
        (match res {
            Ok((t, rest)) => spec_literal(lit@, state@) == Some((t@, rest@)),
            Err(rest) => rest@ == state@ && spec_literal(lit@, state@) is None,
        }),
{
    let lit_str: &str = lit.as_str();
    let n = lit_str.unicode_len();
    let m = state.unicode_len();
    if n > m {
        return Err(state);
    }
    let mut i: usize = 0;
    while i < n
        invariant
            i <= n,
            forall|j: int| 0 <= j < i ==> lit@[j] == state@[j],
        decreases n - i,
    {
        let a = lit_str.get_char(i);
        let b = state.get_char(i);
        if a != b {
            proof {
                assert(state@.take(n as int)[i as int] == state@[i as int]);
            }
            return Err(state);
        }
        i += 1;
    }
    proof {
        assert(state@.take(n as int) =~= lit@);
        assert(state@.skip(n as int) =~= state@.subrange(n as int, m as int));
    }
    let rest = state.substring_char(n, m);
    Ok((Token::String(lit.clone()), rest))
}

/// The integer matcher, on a cursor.
#[verifier::loop_isolation(false)]
fn apply_number<'a>(state: State<'a>) -> (res: ParseResult<'a>)
    ensures
        (match res {
            Ok((t, rest)) => spec_number(state@) == Some((t@, rest@)),
            Err(rest) => rest@ == state@ && spec_number(state@) is None,
        }),
{
    let m = state.unicode_len();
    let neg = m > 0 && state.get_char(0) == '-';
    let start: usize = if neg {
        1
    } else {
        0
    };
    let ghost tail = state@.skip(start as int);
    let mut end: usize = start;
    #[verifier::loop_isolation(true)]
    loop
        invariant
            m == state@.len(),
            start <= end <= m,
            forall|j: int| start <= j < end ==> is_digit(#[trigger] state@[j]),
        ensures
            start <= end <= m,
            forall|j: int| start <= j < end ==> is_digit(#[trigger] state@[j]),
            end == m || !is_digit(state@[end as int]),
        decreases m - end,
    {
        if end >= m {
            break ;
        }
        let c = state.get_char(end);
        let u = c as u32;
        if !(48 <= u && u <= 57) {
            break ;
        }
        end += 1;
    }
    proof {
        lemma_digit_run(tail);
        assert forall|j: int| 0 <= j < tail.len() implies tail[j] == state@[j + start] by {}
        let r = digit_run_len(tail) as int;
        let e = end - start;
        if r < e {
            assert(is_digit(state@[start + r]));
            assert(!is_digit(tail[r]));
            assert(false);
        }
        if r > e {
            assert(is_digit(tail[e]));
            assert(false);
        }
        assert(digit_run_len(tail) == end - start);
    }
    if end == start {
        return Err(state);
    }
    let ghost run = tail.take((end - start) as int);
    let bound: u128 = if neg {
        0x8000_0000_0000_0000
    } else {
        0x7fff_ffff_ffff_ffff
    };
    let mut v: u128 = 0;
    let mut j: usize = start;
    proof {
        assert(run.take(0int) =~= Seq::<char>::empty());
    }
    while j < end
        invariant
            start <= j <= end,
            v == digits_val(run.take(j - start)),
            v <= bound,
        decreases end - j,
    {
        let c = state.get_char(j);
        let u = c as u32;
        proof {
            assert(run[j - start] == state@[j as int]);
            assert(is_digit(state@[j as int]));
            assert(run.take(j + 1 - start) =~= run.take(j - start).push(state@[j as int]));
            lemma_digits_val_push(run.take(j - start), state@[j as int]);
        }
        let d = (u - 48) as u128;
        let v2 = v * 10 + d;
        if v2 > bound {
            proof {
                lemma_digits_val_take_le(run, j + 1 - start);
            }
            return Err(state);
        }
        v = v2;
        j += 1;
    }
    proof {
        assert(run.take(end - start) =~= run);
        assert(state@.skip(start + (end - start)) =~= state@.subrange(end as int, m as int));
    }
    let rest = state.substring_char(end, m);
    if neg {
        let val: i64 = if v == 0x8000_0000_0000_0000 {
            i64::MIN
        } else {
            -(v as i64)
        };
        proof {
            assert(val == (-(v as int)) as i64);
        }
        Ok((Token::Number(val), rest))
    } else {
        Ok((Token::Number(v as i64), rest))
    }
}

impl<P: Fn(char) -> bool> Combinator<P> {
    /// Apply this combinator to a cursor: the engine behind
    /// [`Parser::parse`], with the same contract stated over the free
    /// functions [`wf`] and [`spec_parse`].
    ///
    /// [`Parser::parse`] delegates here. Verified callers whose
    /// predicate is a closure should call this method directly: the
    /// trait method's contract goes through the trait's specification
    /// functions, which the verifier does not unfold at a closure type.
    #[verifier::loop_isolation(false)]
    pub fn apply<'a>(&self, state: State<'a>) -> (res: ParseResult<'a>)
        requires
            wf(*self),
        ensures
            (match res {
                Ok((t, rest)) => spec_parse(*self, state@) == Some((t@, rest@)),
                Err(rest) => rest@ == state@ && spec_parse(*self, state@) is None,
            }),
        decreases *self,
    {
        match self {
            Combinator::Literal(lit) => apply_literal(lit, state),
            Combinator::Sequence(cs) => {
                let mut toks: Vec<Token> = Vec::new();
                let mut cur: State<'a> = state;
                let mut i: usize = 0;
                proof {
                    assert(cs@.take(0int) =~= Seq::<Combinator<P>>::empty());
                }
                while i < cs.len()
                    invariant
                        i <= cs.len(),
                        spec_parse_seq(cs@.take(i as int), state@) == Some(
                            (tokens_model(toks@), cur@),
                        ),
                    decreases cs.len() - i,
                {
                    let r = cs[i].apply(cur);
                    match r {
                        Ok((t, c2)) => {
                            proof {
                                assert(cs@.take(i + 1) =~= cs@.take(i as int).push(cs@[i as int]));
                                lemma_parse_seq_snoc(cs@.take(i as int), cs@[i as int], state@);
                                lemma_tokens_model_push(toks@, t);
                            }
                            toks.push(t);
                            cur = c2;
                            i += 1;
                        },
                        Err(_) => {
                            proof {
                                lemma_parse_seq_prefix_fail(cs@, state@, i as int);
                            }
                            return Err(state);
                        },
                    }
                }
                proof {
                    assert(cs@.take(i as int) =~= cs@);
                }
                Ok((Token::Sequence(toks), cur))
            },
            Combinator::Repeat(child, at_least) => {
                let mut toks: Vec<Token> = Vec::new();
                let mut cur: State<'a> = state;
                let mut cur_len = state.unicode_len();
                proof {
                    assert(tokens_model(toks@) + spec_rep(**child, cur@).0 =~= spec_rep(
                        **child,
                        cur@,
                    ).0);
                }
                #[verifier::loop_isolation(true)]
                loop
                    invariant
                        *self == Combinator::Repeat(*child, *at_least),
                        wf(*self),
                        cur_len == cur@.len(),
                        spec_rep(**child, state@).0 == tokens_model(toks@) + spec_rep(
                            **child,
                            cur@,
                        ).0,
                        spec_rep(**child, state@).1 == spec_rep(**child, cur@).1,
                    ensures
                        spec_rep(**child, state@).0 == tokens_model(toks@),
                        spec_rep(**child, state@).1 == cur@,
                    decreases cur@.len(),
                {
                    let r = child.apply(cur);
                    match r {
                        Ok((t, c2)) => {
                            let c2_len = c2.unicode_len();
                            if c2_len < cur_len {
                                proof {
                                    lemma_tokens_model_push(toks@, t);
                                    assert(tokens_model(toks@) + (seq![t@] + spec_rep(
                                        **child,
                                        c2@,
                                    ).0) =~= tokens_model(toks@).push(t@) + spec_rep(
                                        **child,
                                        c2@,
                                    ).0);
                                }
                                toks.push(t);
                                cur = c2;
                                cur_len = c2_len;
                            } else {
                                proof {
                                    assert(spec_rep(**child, cur@).0 =~= Seq::<TokenModel>::empty());
                                    assert(tokens_model(toks@) + Seq::<TokenModel>::empty()
                                        =~= tokens_model(toks@));
                                }
                                break ;
                            }
                        },
                        Err(_) => {
                            proof {
                                assert(spec_rep(**child, cur@).0 =~= Seq::<TokenModel>::empty());
                                assert(tokens_model(toks@) + Seq::<TokenModel>::empty()
                                    =~= tokens_model(toks@));
                            }
                            break ;
                        },
                    }
                }
                proof {
                    crate::token::lemma_tokens_model(toks@);
                }
                if toks.len() >= *at_least {
                    Ok((Token::Repeat(toks), cur))
                } else {
                    Err(state)
                }
            },
            Combinator::Alternatively(cs) => {
                let mut i: usize = 0;
                proof {
                    assert(cs@.skip(0int) =~= cs@);
                }
                while i < cs.len()
                    invariant
                        i <= cs.len(),
                        spec_parse_alt(cs@, state@) == spec_parse_alt(cs@.skip(i as int), state@),
                    decreases cs.len() - i,
                {
                    let r = cs[i].apply(state);
                    match r {
                        Ok(ret) => {
                            proof {
                                assert(cs@.skip(i as int)[0] == cs@[i as int]);
                            }
                            return Ok(ret);
                        },
                        Err(_) => {
                            proof {
                                assert(cs@.skip(i as int)[0] == cs@[i as int]);
                                assert(cs@.skip(i as int).drop_first() =~= cs@.skip(i + 1));
                            }
                            i += 1;
                        },
                    }
                }
                proof {
                    assert(cs@.skip(i as int).len() == 0);
                }
                Err(state)
            },
            Combinator::Number => apply_number(state),
            Combinator::Predicate(p) => {
                let m = state.unicode_len();
                if m == 0 {
                    return Err(state);
                }
                let c0 = state.get_char(0);
                let b = p(c0);
                if b {
                    proof {
                        assert(state@.skip(1int) =~= state@.drop_first());
                    }
                    let rest = state.substring_char(1, m);
                    Ok((Token::Predicate(c0), rest))
                } else {
                    proof {
                        assert(!call_ensures(*p, (state@[0int],), true));
                    }
                    Err(state)
                }
            },
        }
    }
}

/// A combinator matching exactly `text`.
///
/// Matching an empty `text` always succeeds and consumes nothing.
pub fn string<P: Fn(char) -> bool>(text: &str) -> (c: Combinator<P>)
    ensures
        c matches Combinator::Literal(l) && l@ == text@,
        wf(c),
{
    Combinator::Literal(String::from_str(text))
}

/// A combinator requiring every one of `parsers`, in order.
pub fn sequence<P: Fn(char) -> bool>(parsers: Vec<Combinator<P>>) -> (c: Combinator<P>)
    ensures
        c == Combinator::Sequence(parsers),
        wf(c) <==> (forall|i: int| 0 <= i < parsers@.len() ==> wf(#[trigger] parsers@[i])),
{
    let c = Combinator::Sequence(parsers);
    proof {
        if forall|i: int| 0 <= i < parsers@.len() ==> wf(#[trigger] parsers@[i]) {
            assert forall|i: int| 0 <= i < parsers@.len() implies wf(#[trigger] c->Sequence_0@[i]) by {
                assert(wf(parsers@[i]));
            }
        }
        if wf(c) {
            assert forall|i: int| 0 <= i < parsers@.len() implies wf(#[trigger] parsers@[i]) by {
                assert(wf(c->Sequence_0@[i]));
            }
        }
    }
    c
}

/// A combinator applying `parser` greedily and requiring at least
/// `at_least` successes.
///
/// A success that consumes nothing ends the greedy run, so a child
/// that can match zero characters — an empty literal, say — stops the
/// repetition instead of looping forever.
pub fn repeat<P: Fn(char) -> bool>(parser: Combinator<P>, at_least: usize) -> (c: Combinator<P>)
    ensures
        c == Combinator::Repeat(Box::new(parser), at_least),
        wf(c) <==> wf(parser),
{
    Combinator::Repeat(Box::new(parser), at_least)
}

/// A combinator trying each of `parsers` in order; the first success
/// wins and its result is returned as it is.
pub fn alternatively<P: Fn(char) -> bool>(parsers: Vec<Combinator<P>>) -> (c: Combinator<P>)
    ensures
        c == Combinator::Alternatively(parsers),
        wf(c) <==> (forall|i: int| 0 <= i < parsers@.len() ==> wf(#[trigger] parsers@[i])),
{
    let c = Combinator::Alternatively(parsers);
    proof {
        if forall|i: int| 0 <= i < parsers@.len() ==> wf(#[trigger] parsers@[i]) {
            assert forall|i: int| 0 <= i < parsers@.len() implies wf(#[trigger] c->Alternatively_0@[i]) by {
                assert(wf(parsers@[i]));
            }
        }
        if wf(c) {
            assert forall|i: int| 0 <= i < parsers@.len() implies wf(#[trigger] parsers@[i]) by {
                assert(wf(c->Alternatively_0@[i]));
            }
        }
    }
    c
}

/// A combinator matching an optionally signed run of decimal digits as
/// a signed 64-bit integer.
pub fn number<P: Fn(char) -> bool>() -> (c: Combinator<P>)
    ensures
        c == Combinator::<P>::Number,
        wf(c),
{
    Combinator::Number
}

/// A combinator matching one character that satisfies `predicate`.
pub fn char_predicate<P: Fn(char) -> bool>(predicate: P) -> (c: Combinator<P>)
    ensures
        c == Combinator::Predicate(predicate),
        wf(c) <==> pred_wf(predicate),
{
    Combinator::Predicate(predicate)
}

} // verus!
