//! Decoding: one pass over a compressed block that copies literal runs
//! through and replays references against the bytes already produced.

use vstd::prelude::*;
use crate::buffer::{copy_literals, lemma_splice, lemma_written_front, splice};
use crate::error::DecompressError;
use crate::format::{
    copy_back, lemma_copy_back_extends, lemma_read_token_of_encoding, read_token, Token,
};
use crate::stream::{encoding, expand, lemma_apply_extends, lemma_expand_extends, replayable};

verus! {

/// How a replay ended: the bytes produced until then, and the fault that
/// stopped it, if one did.
pub ghost struct Replay {
    pub produced: Seq<u8>,
    pub fault: Option<DecompressError>,
}

/// Replays `stream` from `pos` on, after `produced`, into a buffer of
/// `capacity` bytes. The pass stops at the first token that is cut short or
/// reaches back too far (the stream is corrupt), or that does not fit in
/// the buffer.
pub open spec fn replay_from(stream: Seq<u8>, pos: int, produced: Seq<u8>, capacity: int) -> Replay
    decreases stream.len() - pos,
{
    if pos < 0 || pos >= stream.len() {
        Replay { produced, fault: None }
    } else {
        match read_token(stream, pos) {
            None => Replay { produced, fault: Some(DecompressError::CorruptStream) },
            Some((token, next)) => {
                if !token.applies_to(produced) {
                    Replay { produced, fault: Some(DecompressError::CorruptStream) }
                } else if produced.len() + token.span() > capacity {
                    Replay { produced, fault: Some(DecompressError::OutputTooSmall) }
                } else {
                    replay_from(stream, next, token.apply(produced), capacity)
                }
            },
        }
    }
}

/// Replays the whole of `stream` into an empty buffer of `capacity` bytes.
pub open spec fn replay(stream: Seq<u8>, capacity: int) -> Replay {
    replay_from(stream, 0, Seq::empty(), capacity)
}

/// Replaying a block goes through the encoding of a replayable stream of
/// tokens that fits in the buffer, whatever stands before and behind it,
/// and goes on behind it with what the tokens expand to.
pub proof fn lemma_replay_through(
    before: Seq<u8>,
    tokens: Seq<Token>,
    after: Seq<u8>,
    produced: Seq<u8>,
    capacity: int,
)
    requires
        replayable(produced, tokens),
        expand(produced, tokens).len() <= capacity,
    ensures
        replay_from(
            before + encoding(tokens) + after,
            before.len() as int,
            produced,
            capacity,
        ) == replay_from(
            before + encoding(tokens) + after,
            (before.len() + encoding(tokens).len()) as int,
            expand(produced, tokens),
            capacity,
        ),
    decreases tokens.len(),
{
    if tokens.len() > 0 {
        let first = tokens[0];
        let rest = tokens.drop_first();
        let block = before + encoding(tokens) + after;
        let reached = before + first.encoding();
        lemma_read_token_of_encoding(before, first, encoding(rest) + after);
        assert(block =~= before + first.encoding() + (encoding(rest) + after));
        assert(block =~= reached + encoding(rest) + after);
        lemma_apply_extends(produced, first);
        lemma_expand_extends(first.apply(produced), rest);
        lemma_replay_through(reached, rest, after, first.apply(produced), capacity);
    } else {
        assert(encoding(tokens).len() == 0);
    }
}

/// Replays a reference: appends `length` bytes at `at`, each a copy of the
/// byte `distance` places before it. The bytes go one by one, in rising
/// order, so that a copy which overlaps itself repeats what it has written.
pub fn copy_reference(output: &mut [u8], at: usize, distance: usize, length: usize)
    requires
        1 <= distance <= at,
        at + length <= old(output).len(),
    ensures
        final(output)@ == copy_back(old(output)@.take(at as int), distance as int, length as int)
            + old(output)@.skip(at + length),
{
    let mut done: usize = 0;
    while done < length
        invariant
            done <= length,
            1 <= distance <= at,
            at + length <= output.len(),
            output.len() == old(output).len(),
            output@.skip(at + done) == old(output)@.skip(at + done),
            copy_back(output@.take(at + done), distance as int, length - done) == copy_back(
                old(output)@.take(at as int),
                distance as int,
                length as int,
            ),
        decreases length - done,
    {
        let ghost before = output@;
        output[at + done] = output[at + done - distance];
        proof {
            assert(output@.take(at + done + 1) =~= before.take(at + done).push(
                before.take(at + done)[at + done - distance],
            ));
            assert(output@.skip(at + done + 1) =~= before.skip(at + done).skip(1));
            assert(old(output)@.skip(at + done + 1) =~= old(output)@.skip(at + done).skip(1));
        }
        done += 1;
    }
    proof {
        assert(output@ =~= output@.take(at + length) + output@.skip(at + length));
    }
}

/// What a reference writes joins what was produced before it to what the
/// reference expands to, and leaves the rest of the buffer alone.
proof fn lemma_reference_written(
    before: Seq<u8>,
    after: Seq<u8>,
    at: int,
    distance: int,
    length: int,
)
    requires
        0 <= at,
        0 <= length,
        at + length <= before.len(),
        after == copy_back(before.take(at), distance, length) + before.skip(at + length),
    ensures
        after.len() == before.len(),
        after.take(at + length) == copy_back(before.take(at), distance, length),
        after.skip(at + length) == before.skip(at + length),
{
    lemma_copy_back_extends(before.take(at), distance, length);
    assert(after.take(at + length) =~= copy_back(before.take(at), distance, length));
    assert(after.skip(at + length) =~= before.skip(at + length));
}

/// Decompresses the block `input` into `output` and returns the number of
/// bytes produced, which stand at the start of `output`; the bytes behind
/// them are left as they were.
///
/// Fails with `CorruptStream` at the first token that is cut short by the end
/// of the block or that reaches back beyond the first byte produced, and with
/// `OutputTooSmall` at the first token that would write beyond the end of
/// `output`. After a failure `output` holds what the tokens before that one
/// produced.
///
/// The two buffers cannot overlap: the borrows that the call takes rule it
/// out.
pub fn decompress(input: &[u8], output: &mut [u8]) -> (result: Result<usize, DecompressError>)
    ensures
        ({
            let outcome = replay(input@, old(output).len() as int);
            &&& outcome.produced.len() <= old(output).len()
            &&& final(output)@ == splice(old(output)@, 0, outcome.produced)
            &&& result == match outcome.fault {
                None => Ok::<usize, DecompressError>(outcome.produced.len() as usize),
                Some(fault) => Err(fault),
            }
        }),
{
    let size = input.len();
    let capacity = output.len();
    let mut pos: usize = 0;
    let mut at: usize = 0;
    proof {
        assert(output@.take(0) =~= Seq::<u8>::empty());
    }
    while pos < size
        invariant
            pos <= size == input.len(),
            at <= capacity == output.len(),
            output.len() == old(output).len(),
            output@.skip(at as int) == old(output)@.skip(at as int),
            replay_from(input@, pos as int, output@.take(at as int), capacity as int) == replay(
                input@,
                capacity as int,
            ),
        decreases size - pos,
    {
        let ghost before = output@;
        proof {
            lemma_written_front(before, old(output)@, at as int, at as int);
        }
        let tag = input[pos];
        if tag < 32 {
            let run: usize = tag as usize + 1;
            if run > size - pos - 1 {
                return Err(DecompressError::CorruptStream);
            }
            if run > capacity - at {
                return Err(DecompressError::OutputTooSmall);
            }
            copy_literals(input, pos + 1, run, output, at);
            proof {
                lemma_splice(before, at as int, input@.subrange(pos + 1, pos + 1 + run));
                lemma_written_front(before, old(output)@, at as int, at + run);
            }
            pos += 1 + run;
            at += run;
        } else {
            let long = tag >= 224;
            let width: usize = if long { 3 } else { 2 };
            if width > size - pos {
                return Err(DecompressError::CorruptStream);
            }
            let length: usize = if long {
                input[pos + 1] as usize + 9
            } else {
                (tag / 32) as usize + 2
            };
            let distance: usize = (tag % 32) as usize * 256 + input[pos + width - 1] as usize + 1;
            if distance > at {
                return Err(DecompressError::CorruptStream);
            }
            if length > capacity - at {
                return Err(DecompressError::OutputTooSmall);
            }
            copy_reference(output, at, distance, length);
            proof {
                lemma_reference_written(
                    before,
                    output@,
                    at as int,
                    distance as int,
                    length as int,
                );
                lemma_written_front(before, old(output)@, at as int, at + length);
            }
            pos += width;
            at += length;
        }
    }
    proof {
        lemma_written_front(output@, old(output)@, at as int, at as int);
    }
    Ok(at)
}

} // verus!
