//! The set of occupied grid cells, held in a `bitvec` bit-array.
//!
//! Everything the rest of the library knows about a bit-array it knows through
//! the contracts in this file. They are stated over [`cells`], the set of the
//! indices at which a bit is set, and are taken on trust from `bitvec`.

use bitvec::array::BitArray;
use bitvec::order::Lsb0;
use vstd::prelude::*;

verus! {

/// Number of bits in the bit-array behind a [`PuzzArray`].
pub const VOLUME_BITS: usize = 64;

/// The occupied cells of the whole grid: one bit per cell, in one 64-bit word.
///
/// The word is a `bitvec` bit-array. The verifier does not look inside it: what
/// a value holds is given by [`cells`], and what the operations below do to it
/// is stated on trust.
#[verifier::external_body]
#[derive(Debug)]
pub struct PuzzArray {
    bits: BitArray<[u64; 1], Lsb0>,
}

/// The indices of the bits that are set in the bit-array of `volume`.
pub uninterp spec fn cells(volume: PuzzArray) -> Set<int>;

impl Clone for PuzzArray {
    fn clone(&self) -> (copy: PuzzArray)
        ensures
            copy == *self,
    {
        *self
    }
}

impl Copy for PuzzArray {

}

impl PuzzArray {
    /// Whether the bit of the cell with index `cell` is set. No bit has an
    /// index of `VOLUME_BITS` or more.
    pub fn contains(&self, cell: usize) -> (filled: bool)
        ensures
            filled == (cell < VOLUME_BITS && cells(*self).contains(cell as int)),
    {
        cell < VOLUME_BITS && self.bit(cell)
    }

    /// `BitArray::ZERO`: the bit-array in which no bit is set.
    #[verifier::external_body]
    pub(crate) fn zero() -> (volume: PuzzArray)
        ensures
            cells(volume) == Set::<int>::empty(),
    {
        PuzzArray { bits: BitArray::ZERO }
    }

    /// `BitSlice::set` with the value `true`: the bit at `index` is set, every
    /// other bit stays as it was. `set` panics on an index that is not below
    /// the array's length, so such an index is excluded.
    #[verifier::external_body]
    pub(crate) fn set_bit(&mut self, index: usize)
        requires
            index < VOLUME_BITS,
        ensures
            cells(*final(self)) == cells(*old(self)).insert(index as int),
    {
        self.bits.set(index, true);
    }

    /// `BitSlice`'s `Index<usize>`: whether the bit at `index` is set. Indexing
    /// panics on an index that is not below the array's length.
    #[verifier::external_body]
    pub(crate) fn bit(&self, index: usize) -> (set: bool)
        requires
            index < VOLUME_BITS,
        ensures
            set == cells(*self).contains(index as int),
    {
        self.bits[index]
    }

    /// `BitArray`'s `&`: a bit of the result is set where it is set in both
    /// operands.
    #[verifier::external_body]
    pub(crate) fn and(&self, other: &PuzzArray) -> (volume: PuzzArray)
        ensures
            cells(volume) == cells(*self).intersect(cells(*other)),
    {
        PuzzArray { bits: self.bits & other.bits }
    }

    /// `BitArray`'s `|`: a bit of the result is set where it is set in at least
    /// one operand.
    #[verifier::external_body]
    pub(crate) fn or(&self, other: &PuzzArray) -> (volume: PuzzArray)
        ensures
            cells(volume) == cells(*self).union(cells(*other)),
    {
        PuzzArray { bits: self.bits | other.bits }
    }

    /// `BitArray`'s `^`: a bit of the result is set where it is set in exactly
    /// one operand.
    #[verifier::external_body]
    pub(crate) fn xor(&self, other: &PuzzArray) -> (volume: PuzzArray)
        ensures
            cells(volume) == cells(*self).difference(cells(*other)).union(
                cells(*other).difference(cells(*self)),
            ),
    {
        PuzzArray { bits: self.bits ^ other.bits }
    }

    /// `BitSlice::any`: whether at least one bit is set.
    #[verifier::external_body]
    pub(crate) fn any(&self) -> (some: bool)
        ensures
            some == exists|index: int| cells(*self).contains(index),
    {
        self.bits.any()
    }

    /// `BitSlice::not_any`: whether no bit is set.
    #[verifier::external_body]
    pub(crate) fn not_any(&self) -> (none: bool)
        ensures
            none == forall|index: int| !cells(*self).contains(index),
    {
        self.bits.not_any()
    }

    /// `BitArray`'s `==`: whether the two arrays agree in every bit.
    #[verifier::external_body]
    pub(crate) fn same(&self, other: &PuzzArray) -> (equal: bool)
        ensures
            equal == (cells(*self) == cells(*other)),
    {
        self.bits == other.bits
    }
}

} // verus!
