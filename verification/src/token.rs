use vstd::prelude::*;

verus! {

/// The structured value a successful match produces.
///
/// The shape of a token tells which combinator produced it: a literal
/// match yields `String`, a sequence yields `Sequence`, a repetition
/// yields `Repeat`, the integer matcher yields `Number` and a character
/// predicate yields `Predicate`. `Alternatively` is part of the closed
/// set of shapes but the alternation combinator hands its branch's
/// result through unwrapped, so no combinator here ever builds it.
#[derive(Debug, PartialEq)]
pub enum Token {
    String(String),
    Sequence(Vec<Token>),
    Repeat(Vec<Token>),
    Alternatively(Box<Token>),
    Number(i64),
    Predicate(char),
}

/// The mathematical shape of a [`Token`]: text becomes a sequence of
/// characters, token lists become sequences of token models.
pub enum TokenModel {
    Str(Seq<char>),
    Sequence(Seq<TokenModel>),
    Repeat(Seq<TokenModel>),
    Alternatively(Box<TokenModel>),
    Number(i64),
    Predicate(char),
}

/// The model of a token: the same tree with every string viewed as a
/// sequence of characters.
pub open spec fn token_model(t: Token) -> TokenModel
    decreases t,
{
    match t {
        Token::String(s) => TokenModel::Str(s@),
        Token::Sequence(ts) => TokenModel::Sequence(tokens_model(ts@)),
        Token::Repeat(ts) => TokenModel::Repeat(tokens_model(ts@)),
        Token::Alternatively(b) => TokenModel::Alternatively(Box::new(token_model(*b))),
        Token::Number(n) => TokenModel::Number(n),
        Token::Predicate(c) => TokenModel::Predicate(c),
    }
}

/// The model of a list of tokens, element by element.
pub open spec fn tokens_model(ts: Seq<Token>) -> Seq<TokenModel>
    decreases ts,
{
    if ts.len() == 0 {
        Seq::empty()
    } else {
        seq![token_model(ts[0])] + tokens_model(ts.drop_first())
    }
}

impl View for Token {
    type V = TokenModel;

    open spec fn view(&self) -> TokenModel {
        token_model(*self)
    }
}

/// A token list is modelled element by element.
pub proof fn lemma_tokens_model(ts: Seq<Token>)
    ensures
        tokens_model(ts).len() == ts.len(),
        forall|i: int| 0 <= i < ts.len() ==> tokens_model(ts)[i] == token_model(#[trigger] ts[i]),
    decreases ts.len(),
{
    if ts.len() > 0 {
        lemma_tokens_model(ts.drop_first());
        assert forall|i: int| 0 <= i < ts.len() implies tokens_model(ts)[i] == token_model(
            #[trigger] ts[i],
        ) by {
            if i > 0 {
                assert(tokens_model(ts)[i] == tokens_model(ts.drop_first())[i - 1]);
                assert(ts.drop_first()[i - 1] == ts[i]);
            }
        }
    }
}

/// Appending a token to a list appends its model to the list's model.
pub proof fn lemma_tokens_model_push(ts: Seq<Token>, t: Token)
    ensures
        tokens_model(ts.push(t)) == tokens_model(ts).push(token_model(t)),
    decreases ts.len(),
{
    if ts.len() == 0 {
        assert(ts =~= Seq::<Token>::empty());
        assert(ts.push(t).drop_first() =~= Seq::<Token>::empty());
        assert(tokens_model(Seq::<Token>::empty()) == Seq::<TokenModel>::empty());
        assert(tokens_model(ts.push(t)) == seq![token_model(t)] + Seq::<TokenModel>::empty());
        assert(tokens_model(ts.push(t)) =~= tokens_model(ts).push(token_model(t)));
    } else {
        lemma_tokens_model_push(ts.drop_first(), t);
        assert(ts.push(t).drop_first() =~= ts.drop_first().push(t));
        assert(ts.push(t)[0] == ts[0]);
        assert(tokens_model(ts.push(t)) == seq![token_model(ts[0])] + tokens_model(
            ts.drop_first(),
        ).push(token_model(t)));
        assert(seq![token_model(ts[0])] + tokens_model(ts.drop_first()).push(token_model(t)) =~= (
        seq![token_model(ts[0])] + tokens_model(ts.drop_first())).push(token_model(t)));
    }
}

} // verus!
