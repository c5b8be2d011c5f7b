//! The match finder: at each position of the input it decides between a
//! literal byte and a reference to an earlier occurrence of the bytes ahead.

use vstd::prelude::*;
use crate::format::{lemma_copy_back_repeats, Token, MAX_DISTANCE, MAX_MATCH_LEN, MIN_MATCH_LEN};
use crate::index::{blank_index, signature, signature_of, HashIndex, INDEX_SLOTS};
use crate::stream::{
    encoding, expand, lemma_encoding_concat, lemma_expand_concat, lemma_literal_runs,
    lemma_stream_front, literal_runs, replayable,
};

verus! {

/// A reference that the finder proposes: `length` bytes that repeat what
/// stands `distance` bytes earlier.
#[derive(Clone, Copy, Debug, PartialEq, Eq, Structural)]
pub struct Match {
    pub distance: usize,
    pub length: usize,
}

impl View for Match {
    type V = Token;

    /// The token that the match is written as.
    open spec fn view(&self) -> Token {
        Token::Reference { distance: self.distance as int, length: self.length as int }
    }
}

/// Signature of the three bytes of `input` that start at `pos`.
pub open spec fn signature_at(input: Seq<u8>, pos: int) -> int
    recommends
        0 <= pos,
        pos + 3 <= input.len(),
{
    signature(input[pos], input[pos + 1], input[pos + 2])
}

/// Number of leading bytes, `limit` at most, on which the input from
/// `earlier` on agrees with the input from `later` on.
pub open spec fn agreement(input: Seq<u8>, earlier: int, later: int, limit: int) -> int
    recommends
        0 <= earlier <= later,
    decreases limit,
{
    if limit <= 0 || later >= input.len() || input[earlier] != input[later] {
        0
    } else {
        1 + agreement(input, earlier + 1, later + 1, limit - 1)
    }
}

/// The index after the position `pos` has been entered under the signature
/// of its three bytes; positions too close to the end have none and leave
/// the index as it is.
pub open spec fn note(input: Seq<u8>, index: Seq<nat>, pos: int) -> Seq<nat> {
    if 0 <= pos && pos + MIN_MATCH_LEN <= input.len() {
        index.update(signature_at(input, pos), pos as nat)
    } else {
        index
    }
}

/// The index after the positions from `from` up to `to` have been entered,
/// in rising order.
pub open spec fn note_range(input: Seq<u8>, index: Seq<nat>, from: int, to: int) -> Seq<nat>
    decreases to - from,
{
    if from >= to {
        index
    } else {
        note_range(input, note(input, index, from), from + 1, to)
    }
}

/// The last position before `cursor` whose three bytes have the signature
/// `slot`, or 0 where there is none.
pub open spec fn latest(input: Seq<u8>, slot: int, cursor: int) -> int
    decreases cursor,
{
    if cursor <= 0 {
        0
    } else if cursor + 2 <= input.len() && signature_at(input, cursor - 1) == slot {
        cursor - 1
    } else {
        latest(input, slot, cursor - 1)
    }
}

/// The index when the finder stands at `cursor`: every position before the
/// cursor has been entered, so that each slot holds the last of them with
/// its signature.
pub open spec fn index_at(input: Seq<u8>, cursor: int) -> Seq<nat> {
    Seq::new(INDEX_SLOTS as nat, |slot: int| latest(input, slot, cursor) as nat)
}

/// The reference that the finder proposes at `cursor` with the index as it
/// is given, as distance and length, or `None` where it proposes a literal
/// byte. The one candidate is the position that the index holds for the
/// signature at `cursor`; it is taken where it lies before the cursor,
/// within the window, and the input agrees on at least the shortest length
/// that a reference encodes.
pub open spec fn proposal(input: Seq<u8>, index: Seq<nat>, cursor: int) -> Option<(int, int)> {
    if 0 <= cursor && cursor + MIN_MATCH_LEN <= input.len() {
        let earlier = index[signature_at(input, cursor)] as int;
        if earlier < cursor && cursor - earlier <= MAX_DISTANCE {
            let length = agreement(input, earlier, cursor, MAX_MATCH_LEN as int);
            if length >= MIN_MATCH_LEN {
                Some((cursor - earlier, length))
            } else {
                None
            }
        } else {
            None
        }
    } else {
        None
    }
}

/// The tokens that the finder emits from `cursor` on, with the bytes from
/// `anchor` up to `cursor` waiting to be emitted as literals. Where it
/// proposes a reference, the waiting bytes go out as literal runs, then
/// the reference, and the scan goes on behind the bytes that the reference
/// covers. Where it proposes none, the byte at `cursor` joins the waiting
/// ones. At each cursor the candidate is the last earlier position with the
/// same signature.
pub open spec fn scan(input: Seq<u8>, anchor: int, cursor: int) -> Seq<Token>
    recommends
        0 <= anchor <= cursor <= input.len(),
    decreases input.len() - cursor,
    via scan_advances
{
    if cursor >= input.len() {
        literal_runs(input.subrange(anchor, input.len() as int))
    } else {
        match proposal(input, index_at(input, cursor), cursor) {
            Some((distance, length)) => literal_runs(input.subrange(anchor, cursor)) + seq![
                Token::Reference { distance, length },
            ] + scan(input, cursor + length, cursor + length),
            None => scan(input, anchor, cursor + 1),
        }
    }
}

#[via_fn]
proof fn scan_advances(input: Seq<u8>, anchor: int, cursor: int) {
    if proposal(input, index_at(input, cursor), cursor) is Some {
        lemma_proposal_sound(input, index_at(input, cursor), cursor);
    }
}

/// The token stream of `input`: the scan from its first byte.
pub open spec fn tokens(input: Seq<u8>) -> Seq<Token> {
    scan(input, 0, 0)
}

/// What `latest` gives is 0 or a position before the cursor that has the
/// signature, and no position behind it and before the cursor has it.
pub proof fn lemma_latest(input: Seq<u8>, slot: int, cursor: int)
    ensures
        0 <= latest(input, slot, cursor),
        latest(input, slot, cursor) < cursor || latest(input, slot, cursor) == 0,
        latest(input, slot, cursor) > 0 ==> {
            &&& latest(input, slot, cursor) + MIN_MATCH_LEN <= input.len()
            &&& signature_at(input, latest(input, slot, cursor)) == slot
        },
        forall|pos: int|
            latest(input, slot, cursor) < pos < cursor && pos + MIN_MATCH_LEN <= input.len()
                ==> #[trigger] signature_at(input, pos) != slot,
    decreases cursor,
{
    if cursor > 0 {
        lemma_latest(input, slot, cursor - 1);
    }
}

/// Before any position is entered the index is blank; entering the
/// position `from` takes the index at `from` to the index at the next
/// position; and entering the positions from `from` up to `to` takes it to
/// the index at `to`.
pub proof fn lemma_index_advances(input: Seq<u8>, from: int, to: int)
    requires
        0 <= from <= to,
    ensures
        index_at(input, 0) == blank_index(),
        note(input, index_at(input, from), from) == index_at(input, from + 1),
        note_range(input, index_at(input, from), from, to) == index_at(input, to),
    decreases to - from,
{
    assert(index_at(input, 0) =~= blank_index());
    assert(0 <= signature_at(input, from) < INDEX_SLOTS);
    assert(note(input, index_at(input, from), from) =~= index_at(input, from + 1));
    if from < to {
        lemma_index_advances(input, from + 1, to);
    }
}

/// The agreement is between 0 and the limit, stays inside the input, and
/// the bytes that it counts are equal; and it is as long as can be: where
/// it stops short of the limit and of the end of the input, the next two
/// bytes differ.
pub proof fn lemma_agreement(input: Seq<u8>, earlier: int, later: int, limit: int)
    requires
        0 <= earlier <= later,
        0 <= limit,
    ensures
        0 <= agreement(input, earlier, later, limit) <= limit,
        later <= input.len() ==> later + agreement(input, earlier, later, limit) <= input.len(),
        forall|i: int|
            later <= i < later + agreement(input, earlier, later, limit) ==> input[i - (later
                - earlier)] == #[trigger] input[i],
        ({
            let length = agreement(input, earlier, later, limit);
            length < limit && later + length < input.len() ==> input[earlier + length] != input[later
                + length]
        }),
    decreases limit,
{
    if limit <= 0 || later >= input.len() || input[earlier] != input[later] {
    } else {
        lemma_agreement(input, earlier + 1, later + 1, limit - 1);
    }
}

/// What the finder proposes is a reference that the format can represent,
/// that reaches back no further than the start of the input, that stays
/// inside the input, and that repeats the bytes it points at.
pub proof fn lemma_proposal_sound(input: Seq<u8>, index: Seq<nat>, cursor: int)
    requires
        proposal(input, index, cursor) is Some,
    ensures
        ({
            let (distance, length) = proposal(input, index, cursor).unwrap();
            &&& 1 <= distance <= cursor
            &&& distance <= MAX_DISTANCE
            &&& MIN_MATCH_LEN <= length <= MAX_MATCH_LEN
            &&& cursor + length <= input.len()
            &&& forall|i: int|
                cursor <= i < cursor + length ==> input[i - distance] == #[trigger] input[i]
        }),
{
    let earlier = index[signature_at(input, cursor)] as int;
    lemma_agreement(input, earlier, cursor, MAX_MATCH_LEN as int);
}

/// The tokens of a scan replay, after the input up to the anchor, to the
/// whole input; and their encoding takes, for every 32 bytes of input from
/// the anchor on, 33 bytes at most, and one more for a last run.
pub proof fn lemma_scan(input: Seq<u8>, anchor: int, cursor: int)
    requires
        0 <= anchor <= cursor <= input.len(),
    ensures
        replayable(input.take(anchor), scan(input, anchor, cursor)),
        expand(input.take(anchor), scan(input, anchor, cursor)) == input,
        32 * encoding(scan(input, anchor, cursor)).len() <= 33 * (input.len() - anchor) + 31,
    decreases input.len() - cursor,
{
    let size = input.len() as int;
    if cursor >= input.len() {
        lemma_literal_runs(input.take(anchor), input.subrange(anchor, size));
        assert(input.take(anchor) + input.subrange(anchor, size) =~= input);
    } else {
        match proposal(input, index_at(input, cursor), cursor) {
            Some((distance, length)) => {
                let waiting = literal_runs(input.subrange(anchor, cursor));
                let reference = Token::Reference { distance, length };
                let behind = cursor + length;
                let rest = scan(input, behind, behind);
                lemma_proposal_sound(input, index_at(input, cursor), cursor);
                lemma_scan(input, behind, behind);
                lemma_literal_runs(input.take(anchor), input.subrange(anchor, cursor));
                assert(input.take(anchor) + input.subrange(anchor, cursor) =~= input.take(cursor));
                lemma_copy_back_repeats(input, cursor, distance, length);
                lemma_stream_front(input.take(cursor), reference, rest);
                assert(waiting + seq![reference] + rest =~= waiting + (seq![reference] + rest));
                lemma_expand_concat(input.take(anchor), waiting, seq![reference] + rest);
                lemma_encoding_concat(waiting, seq![reference] + rest);
            },
            None => {
                lemma_scan(input, anchor, cursor + 1);
            },
        }
    }
}

/// Too close to the end of the input for a reference, the finder emits
/// literals only.
pub proof fn lemma_scan_tail(input: Seq<u8>, anchor: int, cursor: int)
    requires
        0 <= anchor <= cursor,
        cursor + MIN_MATCH_LEN > input.len(),
    ensures
        scan(input, anchor, cursor) == literal_runs(input.subrange(anchor, input.len() as int)),
    decreases input.len() - cursor,
{
    if cursor < input.len() {
        lemma_scan_tail(input, anchor, cursor + 1);
    }
}

/// Where the finder proposes a reference, the encoding of the scan is that
/// of the literal runs for the waiting bytes, then that of the reference,
/// then that of the scan behind the bytes that the reference covers.
pub proof fn lemma_scan_encoding(input: Seq<u8>, anchor: int, cursor: int)
    requires
        0 <= anchor <= cursor < input.len(),
        proposal(input, index_at(input, cursor), cursor) is Some,
    ensures
        ({
            let (distance, length) = proposal(input, index_at(input, cursor), cursor).unwrap();
            encoding(scan(input, anchor, cursor)) == encoding(
                literal_runs(input.subrange(anchor, cursor)),
            ) + (Token::Reference { distance, length }).encoding() + encoding(
                scan(input, cursor + length, cursor + length),
            )
        }),
{
    let (distance, length) = proposal(input, index_at(input, cursor), cursor).unwrap();
    let waiting = literal_runs(input.subrange(anchor, cursor));
    let reference = Token::Reference { distance, length };
    let rest = scan(input, cursor + length, cursor + length);
    lemma_stream_front(Seq::empty(), reference, rest);
    assert(waiting + seq![reference] + rest =~= waiting + (seq![reference] + rest));
    lemma_encoding_concat(waiting, seq![reference] + rest);
    assert(encoding(waiting) + (reference.encoding() + encoding(rest)) =~= encoding(waiting)
        + reference.encoding() + encoding(rest));
}

/// Counts the leading bytes, `limit` at most, on which the input from
/// `earlier` on agrees with the input from `later` on.
pub fn match_length(input: &[u8], earlier: usize, later: usize, limit: usize) -> (length: usize)
    requires
        earlier < later <= input.len(),
    ensures
        length == agreement(input@, earlier as int, later as int, limit as int),
{
    let size = input.len();
    let mut length: usize = 0;
    while length < limit && later + length < size && input[earlier + length] == input[later
        + length]
        invariant
            earlier < later <= size == input.len(),
            length <= limit,
            later + length <= size,
            agreement(input@, earlier as int, later as int, limit as int) == length + agreement(
                input@,
                earlier + length,
                later + length,
                limit - length,
            ),
        decreases limit - length,
    {
        length += 1;
    }
    length
}

/// Enters `pos` in the index under the signature of the three bytes that
/// start there, where the input has three bytes from `pos` on.
pub fn enter(input: &[u8], index: &mut HashIndex, pos: usize)
    ensures
        final(index)@ == note(input@, old(index)@, pos as int),
{
    let size = input.len();
    if size >= MIN_MATCH_LEN && pos <= size - MIN_MATCH_LEN {
        let slot = signature_of(input[pos], input[pos + 1], input[pos + 2]);
        index.record(slot, pos);
    }
}

/// Enters the positions from `from` up to `to` in the index, in rising
/// order.
pub fn enter_range(input: &[u8], index: &mut HashIndex, from: usize, to: usize)
    ensures
        final(index)@ == note_range(input@, old(index)@, from as int, to as int),
{
    let mut pos = from;
    while pos < to
        invariant
            note_range(input@, index@, pos as int, to as int) == note_range(
                input@,
                old(index)@,
                from as int,
                to as int,
            ),
        decreases to - pos,
    {
        enter(input, index, pos);
        pos += 1;
    }
}

/// Decides what to emit at `cursor`: `Some` reference, or `None` for a
/// literal byte. The index is read and left as it is. A reference that is
/// proposed lies within the window and within the input, and has at least
/// the shortest length that the format encodes.
pub fn find_match(input: &[u8], index: &HashIndex, cursor: usize) -> (found: Option<Match>)
    ensures
        match proposal(input@, index@, cursor as int) {
            Some((distance, length)) => {
                &&& found == Some((Match { distance: distance as usize, length: length as usize }))
                &&& found.unwrap()@ == (Token::Reference { distance, length })
                &&& found.unwrap()@.well_formed()
                &&& distance <= cursor
                &&& cursor + length <= input.len()
            },
            None => found.is_none(),
        },
{
    let size = input.len();
    if size < MIN_MATCH_LEN || cursor > size - MIN_MATCH_LEN {
        return None;
    }
    let slot = signature_of(input[cursor], input[cursor + 1], input[cursor + 2]);
    let earlier = index.lookup(slot);
    if earlier >= cursor || cursor - earlier > MAX_DISTANCE {
        return None;
    }
    let length = match_length(input, earlier, cursor, MAX_MATCH_LEN);
    proof {
        lemma_agreement(input@, earlier as int, cursor as int, MAX_MATCH_LEN as int);
    }
    if length >= MIN_MATCH_LEN {
        Some(Match { distance: cursor - earlier, length })
    } else {
        None
    }
}

} // verus!
