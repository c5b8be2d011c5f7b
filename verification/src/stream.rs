//! Token streams: what a sequence of tokens encodes to, and what it
//! expands to when it is replayed.

use vstd::prelude::*;
use crate::format::{lemma_copy_back_extends, Token, MAX_LITERAL_RUN};

verus! {

/// The compressed block that stands for `tokens`: their encodings, one
/// after the other.
pub open spec fn encoding(tokens: Seq<Token>) -> Seq<u8>
    decreases tokens.len(),
{
    if tokens.len() == 0 {
        Seq::empty()
    } else {
        tokens[0].encoding() + encoding(tokens.drop_first())
    }
}

/// What `produced` becomes when `tokens` are replayed after it, in order.
pub open spec fn expand(produced: Seq<u8>, tokens: Seq<Token>) -> Seq<u8>
    decreases tokens.len(),
{
    if tokens.len() == 0 {
        produced
    } else {
        expand(tokens[0].apply(produced), tokens.drop_first())
    }
}

/// Every token of `tokens` is well formed, and can be replayed after
/// `produced` and the tokens before it.
pub open spec fn replayable(produced: Seq<u8>, tokens: Seq<Token>) -> bool
    decreases tokens.len(),
{
    tokens.len() == 0 || {
        &&& tokens[0].well_formed()
        &&& tokens[0].applies_to(produced)
        &&& replayable(tokens[0].apply(produced), tokens.drop_first())
    }
}

/// The literal runs that carry `bytes`: each of them full, but for the last.
pub open spec fn literal_runs(bytes: Seq<u8>) -> Seq<Token>
    decreases bytes.len(),
{
    if bytes.len() == 0 {
        Seq::empty()
    } else {
        let run = if bytes.len() <= MAX_LITERAL_RUN {
            bytes.len() as int
        } else {
            MAX_LITERAL_RUN as int
        };
        seq![Token::Literals(bytes.take(run))] + literal_runs(bytes.skip(run))
    }
}

/// Number of bytes that the literal runs for `count` bytes take: the bytes,
/// and one more for each run.
pub open spec fn literal_cost(count: int) -> int {
    count + (count + 31) / 32
}

/// A stream that starts with `first` encodes to the encoding of `first`,
/// then that of the rest; it replays as `first`, then the rest.
pub proof fn lemma_stream_front(produced: Seq<u8>, first: Token, rest: Seq<Token>)
    ensures
        encoding(seq![first] + rest) == first.encoding() + encoding(rest),
        expand(produced, seq![first] + rest) == expand(first.apply(produced), rest),
        replayable(produced, seq![first] + rest) <==> {
            &&& first.well_formed()
            &&& first.applies_to(produced)
            &&& replayable(first.apply(produced), rest)
        },
{
    let all = seq![first] + rest;
    assert(all[0] == first);
    assert(all.drop_first() =~= rest);
}

/// The encoding of two streams joined is the two encodings joined.
pub proof fn lemma_encoding_concat(front: Seq<Token>, back: Seq<Token>)
    ensures
        encoding(front + back) == encoding(front) + encoding(back),
    decreases front.len(),
{
    if front.len() == 0 {
        assert(front + back =~= back);
        assert(encoding(front) + encoding(back) =~= encoding(back));
    } else {
        let rest = front.drop_first();
        lemma_encoding_concat(rest, back);
        assert(front + back =~= seq![front[0]] + (rest + back));
        lemma_stream_front(Seq::empty(), front[0], rest + back);
        assert(front[0].encoding() + (encoding(rest) + encoding(back)) =~= (front[0].encoding()
            + encoding(rest)) + encoding(back));
    }
}

/// Two streams joined replay as the first, then the second.
pub proof fn lemma_expand_concat(produced: Seq<u8>, front: Seq<Token>, back: Seq<Token>)
    ensures
        expand(produced, front + back) == expand(expand(produced, front), back),
        replayable(produced, front + back) <==> {
            &&& replayable(produced, front)
            &&& replayable(expand(produced, front), back)
        },
    decreases front.len(),
{
    if front.len() == 0 {
        assert(front + back =~= back);
    } else {
        let rest = front.drop_first();
        lemma_expand_concat(front[0].apply(produced), rest, back);
        assert(front + back =~= seq![front[0]] + (rest + back));
        lemma_stream_front(produced, front[0], rest + back);
    }
}

/// Replaying well-formed tokens keeps what was produced before them and
/// only adds to it.
pub proof fn lemma_expand_extends(produced: Seq<u8>, tokens: Seq<Token>)
    requires
        replayable(produced, tokens),
    ensures
        produced.len() <= expand(produced, tokens).len(),
        expand(produced, tokens).take(produced.len() as int) == produced,
    decreases tokens.len(),
{
    if tokens.len() == 0 {
        assert(produced.take(produced.len() as int) =~= produced);
    } else {
        let next = tokens[0].apply(produced);
        lemma_apply_extends(produced, tokens[0]);
        lemma_expand_extends(next, tokens.drop_first());
        assert(expand(produced, tokens).take(produced.len() as int) =~= expand(
            produced,
            tokens,
        ).take(next.len() as int).take(produced.len() as int));
    }
}

/// Replaying one well-formed token keeps what was produced and adds as
/// many bytes as its span says.
pub proof fn lemma_apply_extends(produced: Seq<u8>, token: Token)
    requires
        token.well_formed(),
    ensures
        token.apply(produced).len() == produced.len() + token.span(),
        token.apply(produced).take(produced.len() as int) == produced,
{
    match token {
        Token::Literals(run) => {
            assert((produced + run).take(produced.len() as int) =~= produced);
        },
        Token::Reference { distance, length } => {
            lemma_copy_back_extends(produced, distance, length);
        },
    }
}

/// The literal runs for `bytes` are well formed, replay to `bytes`, and
/// take `literal_cost` bytes.
pub proof fn lemma_literal_runs(produced: Seq<u8>, bytes: Seq<u8>)
    ensures
        replayable(produced, literal_runs(bytes)),
        expand(produced, literal_runs(bytes)) == produced + bytes,
        encoding(literal_runs(bytes)).len() == literal_cost(bytes.len() as int),
    decreases bytes.len(),
{
    if bytes.len() == 0 {
        assert(produced + bytes =~= produced);
    } else {
        let run = if bytes.len() <= MAX_LITERAL_RUN {
            bytes.len() as int
        } else {
            MAX_LITERAL_RUN as int
        };
        let first = Token::Literals(bytes.take(run));
        let rest = literal_runs(bytes.skip(run));
        lemma_literal_runs(first.apply(produced), bytes.skip(run));
        lemma_stream_front(produced, first, rest);
        assert((produced + bytes.take(run)) + bytes.skip(run) =~= produced + bytes);
    }
}

} // verus!
