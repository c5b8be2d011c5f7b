//! Encoding: the tokens of the match finder, written into a buffer that the
//! caller supplies.

use vstd::prelude::*;
use crate::buffer::{copy_literals, lemma_splice_nothing, lemma_splice_twice, splice};
use crate::decode::{replay, Replay};
use crate::error::CompressError;
use crate::finder::{
    enter, enter_range, find_match, index_at, lemma_index_advances, lemma_scan_encoding, scan,
    tokens, Match,
};
use crate::format::{Token, MAX_LITERAL_RUN, MAX_SHORT_MATCH_LEN};
use crate::index::HashIndex;
use crate::laws::{round_trip, size_bound};
use crate::stream::{encoding, lemma_literal_runs, lemma_stream_front, literal_cost, literal_runs};

verus! {

/// Shortest input that is compressed.
pub const MIN_INPUT_LEN: usize = 16;

/// Smallest output buffer that is accepted.
pub const MIN_OUTPUT_LEN: usize = 66;

/// The room that the output buffer must have beyond the length of the input:
/// a twentieth of that length, rounded up.
pub open spec fn safety_margin(input_len: int) -> int {
    (input_len + 19) / 20
}

/// The compressed block for `input`: the encoding of its token stream.
pub open spec fn compressed(input: Seq<u8>) -> Seq<u8> {
    encoding(tokens(input))
}

/// Why a compression of `input_len` bytes into a buffer of `capacity` bytes
/// is refused, or `None` where it is carried out. The smallest buffer is
/// asked for first, whatever the input; then the shortest input; then room
/// for the input and its safety margin.
pub open spec fn refusal(input_len: int, capacity: int) -> Option<CompressError> {
    if capacity < MIN_OUTPUT_LEN {
        Some(CompressError::BufferTooSmall)
    } else if input_len < MIN_INPUT_LEN {
        Some(CompressError::InputTooSmall)
    } else if capacity < input_len + safety_margin(input_len) {
        Some(CompressError::BufferTooSmall)
    } else {
        None
    }
}

/// Computes the safety margin for an input of `input_len` bytes.
pub fn margin_for(input_len: usize) -> (margin: usize)
    ensures
        margin == safety_margin(input_len as int),
{
    if input_len % 20 == 0 {
        input_len / 20
    } else {
        input_len / 20 + 1
    }
}

/// Writes `count` bytes of `input`, from `from` on, as one literal run into
/// `output` at `at`.
pub fn emit_run(input: &[u8], from: usize, count: usize, output: &mut [u8], at: usize)
    requires
        1 <= count <= MAX_LITERAL_RUN,
        from + count <= input.len(),
        at + 1 + count <= old(output).len(),
    ensures
        final(output)@ == splice(
            old(output)@,
            at as int,
            Token::Literals(input@.subrange(from as int, from + count)).encoding(),
        ),
{
    let ghost run = input@.subrange(from as int, from + count);
    let tag = (count - 1) as u8;
    output[at] = tag;
    proof {
        assert(output@ =~= splice(old(output)@, at as int, seq![tag]));
    }
    copy_literals(input, from, count, output, at + 1);
    proof {
        lemma_splice_twice(old(output)@, at as int, seq![tag], run);
    }
}

/// Writes the bytes of `input` from `from` up to `to` as literal runs into
/// `output` at `at`, and returns the position behind them.
pub fn emit_literals(input: &[u8], from: usize, to: usize, output: &mut [u8], at: usize) -> (next:
    usize)
    requires
        from <= to <= input.len(),
        at + literal_cost(to - from) <= old(output).len(),
    ensures
        next == at + literal_cost(to - from),
        final(output)@ == splice(
            old(output)@,
            at as int,
            encoding(literal_runs(input@.subrange(from as int, to as int))),
        ),
{
    let ghost whole = encoding(literal_runs(input@.subrange(from as int, to as int)));
    let ghost mut written = Seq::<u8>::empty();
    let mut pos = from;
    let mut next = at;
    proof {
        lemma_literal_runs(Seq::empty(), input@.subrange(from as int, to as int));
        lemma_splice_nothing(output@, at as int);
        assert(written + whole =~= whole);
    }
    while pos < to
        invariant
            from <= pos <= to <= input.len(),
            output.len() == old(output).len(),
            next == at + written.len(),
            next + literal_cost(to - pos) == at + literal_cost(to - from),
            at + literal_cost(to - from) <= output.len(),
            output@ == splice(old(output)@, at as int, written),
            written + encoding(literal_runs(input@.subrange(pos as int, to as int))) == whole,
        decreases to - pos,
    {
        let ghost waiting = input@.subrange(pos as int, to as int);
        let run: usize = if to - pos <= MAX_LITERAL_RUN {
            to - pos
        } else {
            MAX_LITERAL_RUN
        };
        emit_run(input, pos, run, output, next);
        proof {
            let first = Token::Literals(waiting.take(run as int));
            let rest = literal_runs(waiting.skip(run as int));
            lemma_stream_front(Seq::empty(), first, rest);
            assert(waiting.take(run as int) =~= input@.subrange(pos as int, pos + run));
            assert(waiting.skip(run as int) =~= input@.subrange(pos + run, to as int));
            lemma_splice_twice(old(output)@, at as int, written, first.encoding());
            assert(written + (first.encoding() + encoding(rest)) =~= (written + first.encoding())
                + encoding(rest));
            written = written + first.encoding();
        }
        pos += run;
        next += 1 + run;
    }
    proof {
        assert(literal_runs(input@.subrange(pos as int, to as int)) =~= Seq::<Token>::empty());
        assert(written + Seq::<u8>::empty() =~= written);
    }
    next
}

/// Writes the reference `found` into `output` at `at`, and returns the
/// position behind it.
pub fn emit_reference(found: Match, output: &mut [u8], at: usize) -> (next: usize)
    requires
        found@.well_formed(),
        at + found@.cost() <= old(output).len(),
    ensures
        next == at + found@.cost(),
        final(output)@ == splice(old(output)@, at as int, found@.encoding()),
{
    let high: usize = (found.distance - 1) / 256;
    let low: usize = (found.distance - 1) % 256;
    if found.length <= MAX_SHORT_MATCH_LEN {
        output[at] = ((found.length - 2) * 32 + high) as u8;
        output[at + 1] = low as u8;
        proof {
            assert(output@ =~= splice(old(output)@, at as int, found@.encoding()));
        }
        at + 2
    } else {
        output[at] = (224 + high) as u8;
        output[at + 1] = (found.length - 9) as u8;
        output[at + 2] = low as u8;
        proof {
            assert(output@ =~= splice(old(output)@, at as int, found@.encoding()));
        }
        at + 3
    }
}

/// Compresses `input` into `output` and returns the number of bytes written,
/// which stand at the start of `output`; the bytes behind them are left as
/// they were. The block written is `compressed(input)`: it depends on the
/// input alone, takes at most the input's length and its safety margin, and
/// decompresses to the input in every buffer that holds the input.
///
/// Fails as `refusal` says: with `BufferTooSmall` where `output` has fewer
/// than `MIN_OUTPUT_LEN` bytes, whatever the input; else with
/// `InputTooSmall` where `input` has fewer than `MIN_INPUT_LEN` bytes; else
/// with `BufferTooSmall` where `output` is shorter than the input and its
/// safety margin. A call that fails writes nothing.
///
/// The two buffers cannot overlap: the borrows that the call takes rule it
/// out.
pub fn compress(input: &[u8], output: &mut [u8]) -> (result: Result<usize, CompressError>)
    ensures
        match refusal(input.len() as int, old(output).len() as int) {
            Some(reason) => {
                &&& result == Err::<usize, CompressError>(reason)
                &&& final(output)@ == old(output)@
            },
            None => {
                &&& result is Ok
                &&& result.unwrap() == compressed(input@).len()
                &&& result.unwrap() <= input.len() + safety_margin(input.len() as int)
                &&& final(output)@ == splice(old(output)@, 0, compressed(input@))
                &&& forall|capacity: int|
                    input.len() <= capacity ==> #[trigger] replay(compressed(input@), capacity) == (
                    Replay { produced: input@, fault: None })
            },
        },
{
    let size = input.len();
    let capacity = output.len();
    if capacity < MIN_OUTPUT_LEN {
        return Err(CompressError::BufferTooSmall);
    }
    if size < MIN_INPUT_LEN {
        return Err(CompressError::InputTooSmall);
    }
    if capacity < size || capacity - size < margin_for(size) {
        return Err(CompressError::BufferTooSmall);
    }
    let ghost whole = compressed(input@);
    let ghost mut written = Seq::<u8>::empty();
    let mut index = HashIndex::new();
    let mut anchor: usize = 0;
    let mut cursor: usize = 0;
    let mut at: usize = 0;
    proof {
        size_bound(input@);
        assert forall|capacity: int| input.len() <= capacity implies #[trigger] replay(
            compressed(input@),
            capacity,
        ) == (Replay { produced: input@, fault: None }) by {
            round_trip(input@, capacity);
        }
        lemma_splice_nothing(output@, 0);
        lemma_index_advances(input@, 0, 0);
        assert(written + whole =~= whole);
    }
    while cursor < size
        invariant
            anchor <= cursor <= size == input.len(),
            output.len() == old(output).len(),
            whole.len() <= output.len(),
            at == written.len(),
            output@ == splice(old(output)@, 0, written),
            index@ == index_at(input@, cursor as int),
            written + encoding(scan(input@, anchor as int, cursor as int)) == whole,
        decreases size - cursor,
    {
        match find_match(input, &index, cursor) {
            Some(found) => {
                let ghost waiting = encoding(
                    literal_runs(input@.subrange(anchor as int, cursor as int)),
                );
                proof {
                    lemma_scan_encoding(input@, anchor as int, cursor as int);
                    lemma_index_advances(input@, cursor as int, cursor + found.length);
                    lemma_literal_runs(Seq::empty(), input@.subrange(anchor as int, cursor as int));
                }
                at = emit_literals(input, anchor, cursor, output, at);
                proof {
                    lemma_splice_twice(old(output)@, 0, written, waiting);
                }
                at = emit_reference(found, output, at);
                proof {
                    lemma_splice_twice(old(output)@, 0, written + waiting, found@.encoding());
                    assert(written + (waiting + found@.encoding() + encoding(
                        scan(input@, cursor + found.length, cursor + found.length),
                    )) =~= (written + waiting + found@.encoding()) + encoding(
                        scan(input@, cursor + found.length, cursor + found.length),
                    ));
                    written = written + waiting + found@.encoding();
                }
                enter_range(input, &mut index, cursor, cursor + found.length);
                cursor += found.length;
                anchor = cursor;
            },
            None => {
                proof {
                    lemma_index_advances(input@, cursor as int, cursor as int);
                }
                enter(input, &mut index, cursor);
                cursor += 1;
            },
        }
    }
    proof {
        lemma_literal_runs(Seq::empty(), input@.subrange(anchor as int, size as int));
    }
    at = emit_literals(input, anchor, size, output, at);
    proof {
        lemma_splice_twice(
            old(output)@,
            0,
            written,
            encoding(literal_runs(input@.subrange(anchor as int, size as int))),
        );
    }
    Ok(at)
}

} // verus!
