//! The hash index of the match finder: a fixed table that remembers, for each
//! signature of three bytes, the most recent position that carried it. Two
//! runs of three bytes may share a signature; the finder compares the bytes
//! before it trusts a position.

use vstd::prelude::*;

verus! {

/// Number of slots of the hash index.
pub const INDEX_SLOTS: usize = 8192;

/// Signature of the three bytes `a`, `b`, `c`: a slot of the hash index.
/// The bytes, read as one number with `a` lowest, are multiplied by a
/// constant that spreads them, and thirteen bits of the product are kept.
pub open spec fn signature(a: u8, b: u8, c: u8) -> int {
    (((a as int + 256 * (b as int) + 65536 * (c as int)) * 2654435769) / 524288) % (
        INDEX_SLOTS as int)
}

/// Computes the signature of three bytes.
pub fn signature_of(a: u8, b: u8, c: u8) -> (slot: usize)
    ensures
        slot == signature(a, b, c),
        slot < INDEX_SLOTS,
{
    let word: u64 = a as u64 + 256 * (b as u64) + 65536 * (c as u64);
    let mixed: u64 = word * 2654435769;
    ((mixed / 524288) % (INDEX_SLOTS as u64)) as usize
}

/// Fixed-capacity table from signatures to positions; a later position
/// replaces an earlier one with the same signature.
pub struct HashIndex {
    slots: [usize; INDEX_SLOTS],
}

impl View for HashIndex {
    type V = Seq<nat>;

    closed spec fn view(&self) -> Seq<nat> {
        Seq::new(INDEX_SLOTS as nat, |slot: int| self.slots@[slot] as nat)
    }
}

impl HashIndex {
    /// An index in which every slot holds position 0.
    pub fn new() -> (index: HashIndex)
        ensures
            index@ == blank_index(),
    {
        let index = HashIndex { slots: [0usize; INDEX_SLOTS] };
        assert(index@ =~= blank_index());
        index
    }

    /// The position held in `slot`.
    pub fn lookup(&self, slot: usize) -> (position: usize)
        requires
            slot < INDEX_SLOTS,
        ensures
            position == self@[slot as int],
    {
        self.slots[slot]
    }

    /// Stores `position` in `slot`.
    pub fn record(&mut self, slot: usize, position: usize)
        requires
            slot < INDEX_SLOTS,
        ensures
            final(self)@ == old(self)@.update(slot as int, position as nat),
    {
        self.slots[slot] = position;
        assert(self@ =~= old(self)@.update(slot as int, position as nat));
    }
}

/// The index at the start of a compression: every slot holds position 0.
pub open spec fn blank_index() -> Seq<nat> {
    Seq::new(INDEX_SLOTS as nat, |slot: int| 0nat)
}

} // verus!
