//! What holds of compression and decompression together.

use vstd::prelude::*;
use crate::buffer::{lemma_splice, splice};
use crate::decode::{lemma_replay_through, replay, replay_from, Replay};
use crate::encode::{compressed, refusal, safety_margin, MIN_INPUT_LEN, MIN_OUTPUT_LEN};
use crate::error::{CompressError, DecompressError};
use crate::finder::{lemma_scan, lemma_scan_tail, tokens};
use crate::format::{lemma_read_token_of_encoding, read_token, Token, MAX_MATCH_LEN, MIN_MATCH_LEN};
use crate::stream::{
    encoding, expand, lemma_encoding_concat, lemma_expand_concat, lemma_expand_extends,
    lemma_stream_front, literal_runs, replayable,
};

verus! {

/// Round trip: the compressed block for any input replays to that input,
/// without a fault, in every buffer that holds the input.
pub proof fn round_trip(input: Seq<u8>, capacity: int)
    requires
        input.len() <= capacity,
    ensures
        replay(compressed(input), capacity) == (Replay { produced: input, fault: None }),
{
    lemma_scan(input, 0, 0);
    assert(input.take(0) =~= Seq::<u8>::empty());
    replay_inverts_encoding(tokens(input), capacity);
}

/// The decoder inverts the encoder: the encoding of any stream of tokens
/// that can be replayed replays, in a buffer with room for it, to what the
/// tokens expand to. A block cut between two tokens is such an encoding, of
/// the tokens before the cut.
pub proof fn replay_inverts_encoding(stream: Seq<Token>, capacity: int)
    requires
        replayable(Seq::empty(), stream),
        expand(Seq::empty(), stream).len() <= capacity,
    ensures
        replay(encoding(stream), capacity) == (Replay {
            produced: expand(Seq::empty(), stream),
            fault: None,
        }),
{
    lemma_replay_through(Seq::empty(), stream, Seq::empty(), Seq::empty(), capacity);
    assert(Seq::<u8>::empty() + encoding(stream) + Seq::<u8>::empty() =~= encoding(stream));
}

/// Size bound: the compressed block for any input takes at most the
/// input's length and its safety margin, a twentieth of the length rounded
/// up.
pub proof fn size_bound(input: Seq<u8>)
    ensures
        compressed(input).len() <= input.len() + safety_margin(input.len() as int),
{
    lemma_scan(input, 0, 0);
}

/// Determinism: the block that a compression writes depends on the input
/// alone. Two compressions of one input, into buffers that both have room,
/// write the same bytes, whatever the buffers held before.
pub proof fn compression_is_deterministic(input: Seq<u8>, one: Seq<u8>, other: Seq<u8>)
    requires
        refusal(input.len() as int, one.len() as int) is None,
        refusal(input.len() as int, other.len() as int) is None,
    ensures
        splice(one, 0, compressed(input)).take(compressed(input).len() as int) == splice(
            other,
            0,
            compressed(input),
        ).take(compressed(input).len() as int),
{
    size_bound(input);
    lemma_splice(one, 0, compressed(input));
    lemma_splice(other, 0, compressed(input));
    assert(one.take(0) + compressed(input) =~= compressed(input));
    assert(other.take(0) + compressed(input) =~= compressed(input));
}

/// Minimum buffer: an output buffer below the minimum is refused as too
/// small, whatever the input.
pub proof fn small_buffer_is_refused(input_len: int, capacity: int)
    requires
        capacity < MIN_OUTPUT_LEN,
    ensures
        refusal(input_len, capacity) == Some(CompressError::BufferTooSmall),
{
}

/// A buffer is refused as too small exactly where it is below the minimum or
/// below the input's length and safety margin; an input is refused as too
/// small exactly where it is below the minimum and the buffer is not.
pub proof fn refusals(input_len: int, capacity: int)
    requires
        0 <= input_len,
    ensures
        refusal(input_len, capacity) == Some(CompressError::BufferTooSmall) <==> capacity
            < MIN_OUTPUT_LEN || capacity < input_len + safety_margin(input_len),
        refusal(input_len, capacity) == Some(CompressError::InputTooSmall) <==> capacity
            >= MIN_OUTPUT_LEN && input_len < MIN_INPUT_LEN,
{
}

/// A reference costs less than the bytes it stands for exactly where it has
/// the shortest length that the format encodes, or more: the finder's rule
/// for taking a match.
pub proof fn reference_pays(distance: int, length: int)
    requires
        0 <= length <= MAX_MATCH_LEN,
    ensures
        (Token::Reference { distance, length }).cost() < length <==> length >= MIN_MATCH_LEN,
{
}

/// Every token that can be read from a block is one that the format can
/// represent, and the bytes read are its encoding. In particular no block
/// holds a reference with a distance of zero, or one longer than the window.
pub proof fn tokens_read_are_well_formed(stream: Seq<u8>, pos: int)
    requires
        0 <= pos < stream.len(),
        read_token(stream, pos) is Some,
    ensures
        ({
            let (token, next) = read_token(stream, pos).unwrap();
            &&& token.well_formed()
            &&& next == pos + token.cost()
            &&& next <= stream.len()
            &&& stream.subrange(pos, next) == token.encoding()
        }),
{
    let (token, next) = read_token(stream, pos).unwrap();
    assert(stream.subrange(pos, next) =~= token.encoding());
}

/// An input shorter than the shortest reference is all literal: its token
/// stream is the literal runs for its bytes.
pub proof fn short_input_is_all_literal(input: Seq<u8>)
    requires
        input.len() < MIN_MATCH_LEN,
    ensures
        tokens(input) == literal_runs(input),
{
    lemma_scan_tail(input, 0, 0);
    assert(input.subrange(0, input.len() as int) =~= input);
}

/// A larger buffer changes nothing for a block that did not run out of
/// room: it replays to the same bytes and ends in the same way.
pub proof fn room_to_spare(stream: Seq<u8>, capacity: int, larger: int)
    requires
        capacity <= larger,
        replay(stream, capacity).fault != Some(DecompressError::OutputTooSmall),
    ensures
        replay(stream, larger) == replay(stream, capacity),
{
    lemma_room_to_spare(stream, 0, Seq::empty(), capacity, larger);
}

proof fn lemma_room_to_spare(
    stream: Seq<u8>,
    pos: int,
    produced: Seq<u8>,
    capacity: int,
    larger: int,
)
    requires
        capacity <= larger,
        replay_from(stream, pos, produced, capacity).fault != Some(DecompressError::OutputTooSmall),
    ensures
        replay_from(stream, pos, produced, larger) == replay_from(stream, pos, produced, capacity),
    decreases stream.len() - pos,
{
    if 0 <= pos < stream.len() {
        match read_token(stream, pos) {
            None => {},
            Some((token, next)) => {
                if token.applies_to(produced) && produced.len() + token.span() <= capacity {
                    lemma_room_to_spare(stream, next, token.apply(produced), capacity, larger);
                }
            },
        }
    }
}

/// Truncation: a block that ends inside a token is corrupt. Replaying what
/// is left stops at the cut token, with what the tokens before it produced.
pub proof fn cut_token_is_corrupt(front: Seq<Token>, last: Token, cut: int, capacity: int)
    requires
        replayable(Seq::empty(), front),
        last.well_formed(),
        expand(Seq::empty(), front).len() <= capacity,
        0 < cut < last.cost(),
    ensures
        replay(encoding(front) + last.encoding().take(cut), capacity) == (Replay {
            produced: expand(Seq::empty(), front),
            fault: Some(DecompressError::CorruptStream),
        }),
{
    let stump = last.encoding().take(cut);
    let block = encoding(front) + stump;
    let pos = encoding(front).len() as int;
    lemma_replay_through(Seq::empty(), front, stump, Seq::empty(), capacity);
    assert(Seq::<u8>::empty() + encoding(front) + stump =~= block);
    assert(block[pos] == last.encoding()[0]);
    assert(read_token(block, pos) is None);
}

/// A reference that reaches back beyond the first byte produced is
/// corrupt, whatever follows it. Replaying stops there, with what the tokens
/// before it produced.
pub proof fn far_reference_is_corrupt(
    front: Seq<Token>,
    distance: int,
    length: int,
    after: Seq<u8>,
    capacity: int,
)
    requires
        replayable(Seq::empty(), front),
        (Token::Reference { distance, length }).well_formed(),
        expand(Seq::empty(), front).len() <= capacity,
        distance > expand(Seq::empty(), front).len(),
    ensures
        replay(
            encoding(front) + (Token::Reference { distance, length }).encoding() + after,
            capacity,
        ) == (Replay {
            produced: expand(Seq::empty(), front),
            fault: Some(DecompressError::CorruptStream),
        }),
{
    let far = Token::Reference { distance, length };
    let block = encoding(front) + far.encoding() + after;
    lemma_replay_through(Seq::empty(), front, far.encoding() + after, Seq::empty(), capacity);
    assert(Seq::<u8>::empty() + encoding(front) + (far.encoding() + after) =~= block);
    lemma_read_token_of_encoding(encoding(front), far, after);
}

/// Truncating a compressed block inside one of its tokens makes it corrupt:
/// with the token stream of `input` split into `front`, `last` and `back`,
/// the block cut `cut` bytes into the encoding of `last` replays, in a buffer
/// that holds the input, to what `front` produced and the fault.
pub proof fn truncated_block_is_corrupt(
    input: Seq<u8>,
    front: Seq<Token>,
    last: Token,
    back: Seq<Token>,
    cut: int,
    capacity: int,
)
    requires
        tokens(input) == front + seq![last] + back,
        0 < cut < last.cost(),
        input.len() <= capacity,
    ensures
        compressed(input).take(encoding(front).len() + cut) == encoding(front)
            + last.encoding().take(cut),
        replay(compressed(input).take(encoding(front).len() + cut), capacity) == (Replay {
            produced: expand(Seq::empty(), front),
            fault: Some(DecompressError::CorruptStream),
        }),
{
    let empty = Seq::<u8>::empty();
    lemma_scan(input, 0, 0);
    assert(input.take(0) =~= empty);
    assert(front + seq![last] + back =~= front + (seq![last] + back));
    lemma_expand_concat(empty, front, seq![last] + back);
    lemma_stream_front(expand(empty, front), last, back);
    lemma_encoding_concat(front, seq![last] + back);
    lemma_expand_extends(expand(empty, front), seq![last] + back);
    assert(compressed(input).take(encoding(front).len() + cut) =~= encoding(front)
        + last.encoding().take(cut));
    cut_token_is_corrupt(front, last, cut, capacity);
}

} // verus!
