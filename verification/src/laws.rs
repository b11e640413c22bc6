use vstd::prelude::*;

use crate::combinator::{
    lemma_parse_seq_prefix_fail, spec_parse, spec_parse_alt, spec_parse_seq, spec_rep, Combinator,
};
use crate::token::TokenModel;

verus! {

/// The literal matcher succeeds exactly when the cursor starts with the
/// literal; on success it consumes exactly the literal's characters and
/// yields the literal itself. On failure [`crate::Parser::parse`] hands
/// the cursor back unchanged, as its contract states of every failure.
pub proof fn lemma_literal_matches<P: Fn(char) -> bool>(
    c: Combinator<P>,
    lit: Seq<char>,
    input: Seq<char>,
)
    requires
        c matches Combinator::Literal(l) && l@ == lit,
    ensures
        spec_parse(c, input) is Some <==> (lit.len() <= input.len() && input.take(
            lit.len() as int,
        ) == lit),
        lit.len() <= input.len() && input.take(lit.len() as int) == lit ==> spec_parse(c, input)
            == Some((TokenModel::Str(lit), input.skip(lit.len() as int))),
{
}

/// An empty literal always succeeds and consumes nothing, whatever the
/// input — the empty input included.
pub proof fn lemma_empty_literal<P: Fn(char) -> bool>(c: Combinator<P>, input: Seq<char>)
    requires
        c matches Combinator::Literal(l) && l@.len() == 0,
    ensures
        spec_parse(c, input) == Some((TokenModel::Str(Seq::<char>::empty()), input)),
{
    let l = c->Literal_0;
    assert(l@ =~= Seq::<char>::empty());
    assert(input.take(0) =~= l@);
    assert(input.skip(0) =~= input);
}

/// Sequence rollback: when the children before position `i` succeed and
/// the child at position `i` fails on the cursor they reached, the
/// whole sequence fails — so by the contract of
/// [`crate::Parser::parse`] the caller gets the sequence's original
/// cursor back, never an intermediate one.
pub proof fn lemma_sequence_rollback<P: Fn(char) -> bool>(
    c: Combinator<P>,
    input: Seq<char>,
    i: int,
)
    requires
        c is Sequence,
        0 <= i < c->Sequence_0@.len(),
        spec_parse_seq(c->Sequence_0@.take(i), input) is Some,
        spec_parse(
            c->Sequence_0@[i],
            spec_parse_seq(c->Sequence_0@.take(i), input)->Some_0.1,
        ) is None,
    ensures
        spec_parse(c, input) is None,
{
    lemma_parse_seq_prefix_fail(c->Sequence_0@, input, i);
}

/// Repetition minimum: a repetition succeeds exactly when its greedy
/// run collects at least the demanded number of tokens; on success it
/// returns all the collected tokens and the cursor after the last one.
pub proof fn lemma_repeat_minimum<P: Fn(char) -> bool>(c: Combinator<P>, input: Seq<char>)
    requires
        c is Repeat,
    ensures
        spec_parse(c, input) is Some <==> spec_rep(*c->Repeat_0, input).0.len() >= c->Repeat_1,
        spec_rep(*c->Repeat_0, input).0.len() >= c->Repeat_1 ==> spec_parse(c, input) == Some(
            (TokenModel::Repeat(spec_rep(*c->Repeat_0, input).0), spec_rep(*c->Repeat_0, input).1),
        ),
{
}

/// Children that all fail on a cursor contribute nothing: the
/// alternation of a list behaves as the alternation of the part after
/// them.
pub proof fn lemma_alt_skip<P: Fn(char) -> bool>(cs: Seq<Combinator<P>>, input: Seq<char>, i: int)
    requires
        0 <= i <= cs.len(),
        forall|j: int| 0 <= j < i ==> spec_parse(#[trigger] cs[j], input) is None,
    ensures
        spec_parse_alt(cs, input) == spec_parse_alt(cs.skip(i), input),
    decreases i,
{
    if i == 0 {
        assert(cs.skip(0) =~= cs);
    } else {
        lemma_alt_skip(cs, input, i - 1);
        assert(cs.skip(i - 1)[0] == cs[i - 1]);
        assert(cs.skip(i - 1).drop_first() =~= cs.skip(i));
    }
}

/// Alternation order: the first child that succeeds decides the result,
/// which is handed through unwrapped, whether or not a later child
/// could also have matched; every child is tried against the original
/// cursor, not against another child's leftovers.
pub proof fn lemma_alternation_first_wins<P: Fn(char) -> bool>(
    c: Combinator<P>,
    input: Seq<char>,
    i: int,
)
    requires
        c is Alternatively,
        0 <= i < c->Alternatively_0@.len(),
        forall|j: int| 0 <= j < i ==> spec_parse(#[trigger] c->Alternatively_0@[j], input) is None,
        spec_parse(c->Alternatively_0@[i], input) is Some,
    ensures
        spec_parse(c, input) == spec_parse(c->Alternatively_0@[i], input),
{
    let cs = c->Alternatively_0@;
    lemma_alt_skip(cs, input, i);
    assert(cs.skip(i)[0] == cs[i]);
}

/// When every child of an alternation fails, the alternation fails.
pub proof fn lemma_alternation_all_fail<P: Fn(char) -> bool>(c: Combinator<P>, input: Seq<char>)
    requires
        c is Alternatively,
        forall|j: int|
            0 <= j < c->Alternatively_0@.len() ==> spec_parse(
                #[trigger] c->Alternatively_0@[j],
                input,
            ) is None,
    ensures
        spec_parse(c, input) is None,
{
    let cs = c->Alternatively_0@;
    lemma_alt_skip(cs, input, cs.len() as int);
}

/// `rest` is what remains of `input` after consuming characters only
/// from the front.
pub open spec fn is_suffix_of(rest: Seq<char>, input: Seq<char>) -> bool {
    rest.len() <= input.len() && rest == input.skip(input.len() - rest.len())
}

/// A suffix of a suffix is a suffix.
proof fn lemma_suffix_trans(a: Seq<char>, b: Seq<char>, c: Seq<char>)
    requires
        is_suffix_of(a, b),
        is_suffix_of(b, c),
    ensures
        is_suffix_of(a, c),
{
    assert(c.skip(c.len() - a.len()) =~= b.skip(b.len() - a.len()));
}

/// A successful parse only ever advances: the cursor it returns is a
/// suffix of the cursor it was given, so the rest of the input is
/// intact and no characters reappear.
pub proof fn lemma_parse_suffix<P: Fn(char) -> bool>(c: Combinator<P>, input: Seq<char>)
    ensures
        spec_parse(c, input) matches Some((t, rest)) ==> is_suffix_of(rest, input),
    decreases c, 0nat, 0nat,
{
    assert(input.skip(0) =~= input);
    match c {
        Combinator::Literal(_) => {},
        Combinator::Sequence(cs) => {
            lemma_parse_seq_suffix(cs@, input);
        },
        Combinator::Repeat(child, _) => {
            lemma_rep_suffix(*child, input);
        },
        Combinator::Alternatively(cs) => {
            lemma_parse_alt_suffix(cs@, input);
        },
        Combinator::Number => {
            let start: int = if input.len() > 0 && input[0] == '-' {
                1
            } else {
                0
            };
            crate::numeric::lemma_digit_run(input.skip(start));
        },
        Combinator::Predicate(_) => {
            if input.len() > 0 {
                assert(input.drop_first() =~= input.skip(input.len() - input.drop_first().len()));
            }
        },
    }
}

/// The cursor a sequence of children leaves behind is a suffix of the
/// cursor it started from.
proof fn lemma_parse_seq_suffix<P: Fn(char) -> bool>(cs: Seq<Combinator<P>>, input: Seq<char>)
    ensures
        spec_parse_seq(cs, input) matches Some((ts, rest)) ==> is_suffix_of(rest, input),
    decreases cs, 0nat, 0nat,
{
    assert(input.skip(0) =~= input);
    if cs.len() > 0 {
        lemma_parse_suffix(cs[0], input);
        match spec_parse(cs[0], input) {
            Some((t, mid)) => {
                lemma_parse_seq_suffix(cs.drop_first(), mid);
                match spec_parse_seq(cs.drop_first(), mid) {
                    Some((ts, rest)) => {
                        lemma_suffix_trans(rest, mid, input);
                    },
                    None => {},
                }
            },
            None => {},
        }
    }
}

/// The cursor an alternation leaves behind is a suffix of the cursor it
/// started from.
proof fn lemma_parse_alt_suffix<P: Fn(char) -> bool>(cs: Seq<Combinator<P>>, input: Seq<char>)
    ensures
        spec_parse_alt(cs, input) matches Some((t, rest)) ==> is_suffix_of(rest, input),
    decreases cs, 0nat, 0nat,
{
    if cs.len() > 0 {
        lemma_parse_suffix(cs[0], input);
        if spec_parse(cs[0], input) is None {
            lemma_parse_alt_suffix(cs.drop_first(), input);
        }
    }
}

/// The cursor a greedy run leaves behind is a suffix of the cursor it
/// started from.
proof fn lemma_rep_suffix<P: Fn(char) -> bool>(c: Combinator<P>, input: Seq<char>)
    ensures
        is_suffix_of(spec_rep(c, input).1, input),
    decreases c, input.len(), 1nat,
{
    assert(input.skip(0) =~= input);
    match spec_parse(c, input) {
        Some((t, mid)) => {
            if mid.len() < input.len() {
                lemma_parse_suffix(c, input);
                lemma_rep_suffix(c, mid);
                lemma_suffix_trans(spec_rep(c, mid).1, mid, input);
            }
        },
        None => {},
    }
}

/// Re-running a combinator on the cursor a failed attempt handed back
/// repeats the original attempt: a failed attempt returns its cursor
/// unchanged, so the outcome is the same as before.
pub proof fn lemma_failed_attempt_rerun<P: Fn(char) -> bool>(
    c: Combinator<P>,
    input: Seq<char>,
    returned: Seq<char>,
)
    requires
        spec_parse(c, input) is None,
        returned == input,
    ensures
        spec_parse(c, returned) == spec_parse(c, input),
{
}

} // verus!
