//! The block of 128 presence flags that a bitmap decodes to. The flags are
//! kept in a `bit_array::BitArray`; what this module states of it is taken on
//! trust from that crate.

use vstd::prelude::*;
use bit_array::BitArray;
use typenum::U128;

verus! {

/// A block of 128 flags, kept in a `bit_array::BitArray<u64, U128>`.
#[verifier::external_body]
pub struct BitBlock {
    bits: BitArray<u64, U128>,
}

/// The flags that a block holds, flag 0 first.
pub uninterp spec fn block_bits(block: BitBlock) -> Seq<bool>;

/// One for a flag that is set, zero for one that is clear.
pub open spec fn flag_value(b: bool) -> nat {
    if b {
        1
    } else {
        0
    }
}

/// The byte made of the eight flags from `o` on, the first of them as its
/// most significant bit.
#[verifier::opaque]
pub open spec fn byte_of_flags(bits: Seq<bool>, o: int) -> nat {
    128 * flag_value(bits[o]) + 64 * flag_value(bits[o + 1]) + 32 * flag_value(bits[o + 2]) + 16
        * flag_value(bits[o + 3]) + 8 * flag_value(bits[o + 4]) + 4 * flag_value(bits[o + 5]) + 2
        * flag_value(bits[o + 6]) + flag_value(bits[o + 7])
}

impl BitBlock {
    /// `BitArray::from_elem(false)`: a block of 128 flags, all of them clear.
    #[verifier::external_body]
    pub(crate) fn cleared() -> (block: BitBlock)
        ensures
            block_bits(block) == Seq::new(128, |k: int| false),
    {
        BitBlock { bits: BitArray::<u64, U128>::from_elem(false) }
    }

    /// `BitArray::set`: flag `i` takes the value `x` and the others stay. The
    /// outside function panics from index 128 on.
    #[verifier::external_body]
    pub(crate) fn set(&mut self, i: usize, x: bool)
        requires
            i < 128,
        ensures
            block_bits(*final(self)) == block_bits(*old(self)).update(i as int, x),
    {
        self.bits.set(i, x)
    }

    /// `BitArray::get`: flag `i`, and nothing from index 128 on.
    #[verifier::external_body]
    pub(crate) fn get(&self, i: usize) -> (r: Option<bool>)
        ensures
            r == (if i < 128 {
                Some(block_bits(*self)[i as int])
            } else {
                None
            }),
    {
        self.bits.get(i)
    }

    /// `BitArray::to_bytes`: sixteen bytes, each made of eight flags in
    /// order, the first flag of each as the most significant bit.
    #[verifier::external_body]
    pub(crate) fn to_bytes(&self) -> (bytes: Vec<u8>)
        ensures
            bytes@.len() == 16,
            forall|j: int|
                0 <= j < 16 ==> #[trigger] bytes@[j] as nat == byte_of_flags(
                    block_bits(*self),
                    8 * j,
                ),
    {
        self.bits.to_bytes()
    }

    /// Whether flag `i` is set; no flag is set from index 128 on.
    pub fn is_set(&self, i: usize) -> (b: bool)
        ensures
            b == (i < 128 && block_bits(*self)[i as int]),
    {
        match self.get(i) {
            Some(b) => b,
            None => false,
        }
    }
}

} // verus!
