//! Writing into a buffer that the caller supplies: what a write changes,
//! and what it leaves alone.

use vstd::prelude::*;

verus! {

/// The buffer `base` with `piece` written over it from `at` on: the bytes
/// before `at` and those behind the piece are the ones of `base`.
pub open spec fn splice(base: Seq<u8>, at: int, piece: Seq<u8>) -> Seq<u8>
    recommends
        0 <= at,
        at + piece.len() <= base.len(),
{
    base.take(at) + piece + base.skip(at + piece.len())
}

/// A write inside a buffer keeps its length, puts the piece where it was
/// asked to, and changes nothing else.
pub proof fn lemma_splice(base: Seq<u8>, at: int, piece: Seq<u8>)
    requires
        0 <= at,
        at + piece.len() <= base.len(),
    ensures
        splice(base, at, piece).len() == base.len(),
        splice(base, at, piece).take(at) == base.take(at),
        splice(base, at, piece).subrange(at, at + piece.len()) == piece,
        splice(base, at, piece).take(at + piece.len()) == base.take(at) + piece,
        splice(base, at, piece).skip(at + piece.len()) == base.skip(at + piece.len()),
{
    let after = splice(base, at, piece);
    assert(after.take(at) =~= base.take(at));
    assert(after.subrange(at, at + piece.len()) =~= piece);
    assert(after.take(at + piece.len()) =~= base.take(at) + piece);
    assert(after.skip(at + piece.len()) =~= base.skip(at + piece.len()));
}

/// Two writes, the second just behind the first, are one write of the two
/// pieces joined.
pub proof fn lemma_splice_twice(base: Seq<u8>, at: int, first: Seq<u8>, second: Seq<u8>)
    requires
        0 <= at,
        at + first.len() + second.len() <= base.len(),
    ensures
        splice(splice(base, at, first), at + first.len(), second) == splice(
            base,
            at,
            first + second,
        ),
{
    assert(splice(splice(base, at, first), at + first.len(), second) =~= splice(
        base,
        at,
        first + second,
    ));
}

/// Writing nothing changes nothing.
pub proof fn lemma_splice_nothing(base: Seq<u8>, at: int)
    requires
        0 <= at <= base.len(),
    ensures
        splice(base, at, Seq::empty()) == base,
{
    assert(splice(base, at, Seq::empty()) =~= base);
}

/// A buffer of which only the first `at` bytes were written is the old
/// buffer with those bytes written over its start; and what lies further
/// back is unchanged too.
pub proof fn lemma_written_front(current: Seq<u8>, base: Seq<u8>, at: int, further: int)
    requires
        current.len() == base.len(),
        0 <= at <= further <= base.len(),
        current.skip(at) == base.skip(at),
    ensures
        current == splice(base, 0, current.take(at)),
        current.skip(further) == base.skip(further),
{
    assert(current.skip(further) =~= current.skip(at).skip(further - at));
    assert(base.skip(further) =~= base.skip(at).skip(further - at));
    assert(current =~= current.take(at) + current.skip(at));
    assert(current =~= splice(base, 0, current.take(at)));
}

/// Copies `count` bytes of `input`, from `from` on, to `output` at `at`.
pub fn copy_literals(input: &[u8], from: usize, count: usize, output: &mut [u8], at: usize)
    requires
        from + count <= input.len(),
        at + count <= old(output).len(),
    ensures
        final(output)@ == splice(
            old(output)@,
            at as int,
            input@.subrange(from as int, from + count),
        ),
{
    let mut done: usize = 0;
    proof {
        lemma_splice_nothing(output@, at as int);
        assert(input@.subrange(from as int, from + 0) =~= Seq::<u8>::empty());
    }
    while done < count
        invariant
            done <= count,
            from + count <= input.len(),
            at + count <= output.len(),
            output.len() == old(output).len(),
            output@ == splice(old(output)@, at as int, input@.subrange(from as int, from + done)),
        decreases count - done,
    {
        output[at + done] = input[from + done];
        proof {
            assert(output@ =~= splice(
                old(output)@,
                at as int,
                input@.subrange(from as int, from + done + 1),
            ));
        }
        done += 1;
    }
}

} // verus!
