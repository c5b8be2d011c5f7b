//! The block format: a compressed block is a sequence of tokens, each a run
//! of literal bytes or a reference back into the bytes already produced.
//!
//! A literal run of `n` bytes (1 to 32) is the byte `n - 1` followed by the
//! bytes themselves. A reference stores its distance less one in thirteen
//! bits, five in the first byte and eight in the last. A short reference
//! (length 3 to 8) has `length - 2` in the upper three bits of its first
//! byte; a long one (length 9 to 264) has 7 there and `length - 9` in a byte
//! of its own between the two others.

use vstd::prelude::*;

verus! {

/// Most bytes that one literal run holds.
pub const MAX_LITERAL_RUN: usize = 32;

/// Shortest length that a reference encodes.
pub const MIN_MATCH_LEN: usize = 3;

/// Longest length that a reference of two bytes encodes.
pub const MAX_SHORT_MATCH_LEN: usize = 8;

/// Longest length that a reference encodes.
pub const MAX_MATCH_LEN: usize = 264;

/// The window: the longest distance that a reference encodes.
pub const MAX_DISTANCE: usize = 8192;

/// One element of the token stream.
pub ghost enum Token {
    /// A run of bytes carried verbatim.
    Literals(Seq<u8>),
    /// Copy `length` bytes, starting `distance` bytes before the end of what
    /// has been produced.
    Reference { distance: int, length: int },
}

/// What `produced` becomes when `length` bytes are appended one at a time,
/// each a copy of the byte `distance` places before the end. With
/// `distance < length` the copy reads bytes that it wrote itself.
pub open spec fn copy_back(produced: Seq<u8>, distance: int, length: int) -> Seq<u8>
    decreases length,
{
    if length <= 0 {
        produced
    } else {
        copy_back(produced.push(produced[produced.len() - distance]), distance, length - 1)
    }
}

/// A copy of `length` bytes keeps what was produced and adds `length` bytes.
pub proof fn lemma_copy_back_extends(produced: Seq<u8>, distance: int, length: int)
    requires
        0 <= length,
    ensures
        copy_back(produced, distance, length).len() == produced.len() + length,
        copy_back(produced, distance, length).take(produced.len() as int) == produced,
    decreases length,
{
    if length > 0 {
        let next = produced.push(produced[produced.len() - distance]);
        lemma_copy_back_extends(next, distance, length - 1);
        assert(copy_back(next, distance, length - 1).take(next.len() as int).take(
            produced.len() as int,
        ) =~= copy_back(next, distance, length - 1).take(produced.len() as int));
        assert(next.take(produced.len() as int) =~= produced);
    } else {
        assert(produced.take(produced.len() as int) =~= produced);
    }
}

/// Each byte that a copy appends equals the byte `distance` places before
/// it in the result.
pub proof fn lemma_copy_back_bytes(produced: Seq<u8>, distance: int, length: int)
    requires
        1 <= distance <= produced.len(),
        0 <= length,
    ensures
        forall|i: int|
            produced.len() <= i < produced.len() + length ==> copy_back(
                produced,
                distance,
                length,
            )[i - distance] == #[trigger] copy_back(produced, distance, length)[i],
    decreases length,
{
    if length > 0 {
        let next = produced.push(produced[produced.len() - distance]);
        let whole = copy_back(produced, distance, length);
        lemma_copy_back_bytes(next, distance, length - 1);
        lemma_copy_back_extends(next, distance, length - 1);
        assert forall|i: int| produced.len() <= i < produced.len() + length implies whole[i
            - distance] == #[trigger] whole[i] by {
            if i == produced.len() {
                assert(whole[i] == whole.take(next.len() as int)[i]);
                assert(whole[i - distance] == whole.take(next.len() as int)[i - distance]);
            }
        }
    }
}

/// Where a stretch of `input` repeats what stands `distance` bytes before
/// it, copying back after the bytes up to the stretch gives the bytes up to
/// its end.
pub proof fn lemma_copy_back_repeats(input: Seq<u8>, cursor: int, distance: int, length: int)
    requires
        1 <= distance <= cursor,
        0 <= length,
        cursor + length <= input.len(),
        forall|i: int| cursor <= i < cursor + length ==> input[i - distance] == #[trigger] input[i],
    ensures
        copy_back(input.take(cursor), distance, length) == input.take(cursor + length),
    decreases length,
{
    if length > 0 {
        let produced = input.take(cursor);
        assert(produced.push(produced[produced.len() - distance]) =~= input.take(cursor + 1)) by {
            assert(input[cursor - distance] == input[cursor]);
        }
        lemma_copy_back_repeats(input, cursor + 1, distance, length - 1);
    }
}

impl Token {
    /// The token is one that the format can represent.
    pub open spec fn well_formed(self) -> bool {
        match self {
            Token::Literals(run) => 1 <= run.len() <= MAX_LITERAL_RUN,
            Token::Reference { distance, length } => {
                &&& 1 <= distance <= MAX_DISTANCE
                &&& MIN_MATCH_LEN <= length <= MAX_MATCH_LEN
            },
        }
    }

    /// Number of bytes that the token produces.
    pub open spec fn span(self) -> int {
        match self {
            Token::Literals(run) => run.len() as int,
            Token::Reference { distance, length } => length,
        }
    }

    /// Number of bytes that the token's encoding takes.
    pub open spec fn cost(self) -> int {
        match self {
            Token::Literals(run) => 1 + run.len() as int,
            Token::Reference { distance, length } => if length <= MAX_SHORT_MATCH_LEN {
                2
            } else {
                3
            },
        }
    }

    /// The bytes that stand for the token in a compressed block.
    pub open spec fn encoding(self) -> Seq<u8> {
        match self {
            Token::Literals(run) => seq![(run.len() - 1) as u8] + run,
            Token::Reference { distance, length } => if length <= MAX_SHORT_MATCH_LEN {
                seq![((length - 2) * 32 + (distance - 1) / 256) as u8, ((distance - 1) % 256) as u8]
            } else {
                seq![
                    (224 + (distance - 1) / 256) as u8,
                    (length - 9) as u8,
                    ((distance - 1) % 256) as u8,
                ]
            },
        }
    }

    /// The token can be replayed after `produced`: a reference does not
    /// reach back beyond the first byte.
    pub open spec fn applies_to(self, produced: Seq<u8>) -> bool {
        match self {
            Token::Literals(run) => true,
            Token::Reference { distance, length } => distance <= produced.len(),
        }
    }

    /// What `produced` becomes when the token is replayed after it.
    pub open spec fn apply(self, produced: Seq<u8>) -> Seq<u8> {
        match self {
            Token::Literals(run) => produced + run,
            Token::Reference { distance, length } => copy_back(produced, distance, length),
        }
    }
}

/// The token whose encoding starts at `pos` of `stream`, with the position
/// just behind it; `None` where the stream ends before the token does.
pub open spec fn read_token(stream: Seq<u8>, pos: int) -> Option<(Token, int)>
    recommends
        0 <= pos < stream.len(),
{
    let tag = stream[pos] as int;
    if tag < 32 {
        let next = pos + 2 + tag;
        if next <= stream.len() {
            Some((Token::Literals(stream.subrange(pos + 1, next)), next))
        } else {
            None
        }
    } else if tag < 224 {
        if pos + 2 <= stream.len() {
            Some(
                (
                    Token::Reference {
                        distance: (tag % 32) * 256 + stream[pos + 1] + 1,
                        length: tag / 32 + 2,
                    },
                    pos + 2,
                ),
            )
        } else {
            None
        }
    } else {
        if pos + 3 <= stream.len() {
            Some(
                (
                    Token::Reference {
                        distance: (tag % 32) * 256 + stream[pos + 2] + 1,
                        length: stream[pos + 1] + 9,
                    },
                    pos + 3,
                ),
            )
        } else {
            None
        }
    }
}

/// Reading where the encoding of a well-formed token starts gives that
/// token back, whatever stands before and behind it.
pub proof fn lemma_read_token_of_encoding(before: Seq<u8>, token: Token, after: Seq<u8>)
    requires
        token.well_formed(),
    ensures
        read_token(before + token.encoding() + after, before.len() as int) == Some(
            (token, before.len() + token.cost()),
        ),
{
    let stream = before + token.encoding() + after;
    let pos = before.len() as int;
    match token {
        Token::Literals(run) => {
            assert(stream[pos] == (run.len() - 1) as u8);
            assert(stream.subrange(pos + 1, pos + 1 + run.len()) =~= run);
        },
        Token::Reference { distance, length } => {
            if length <= MAX_SHORT_MATCH_LEN {
                assert(stream[pos] == token.encoding()[0]);
                assert(stream[pos + 1] == token.encoding()[1]);
            } else {
                assert(stream[pos] == token.encoding()[0]);
                assert(stream[pos + 1] == token.encoding()[1]);
                assert(stream[pos + 2] == token.encoding()[2]);
            }
        },
    }
}

} // verus!
