//! An eight-slot bit array, used to record which cells of a candidate path
//! have been reached.

use vstd::prelude::*;

verus! {

/// A bit array of length 8.
#[derive(Copy, Clone, Debug, PartialEq, Eq, Structural)]
pub struct Bitset(u8);

/// The raw byte has bit `index` set.
pub closed spec fn byte_bit(byte: u8, index: int) -> bool {
    0 <= index < 8 && byte & (1u8 << (index as u8)) != 0
}

proof fn lemma_bit_of_zero(i: u8)
    by (bit_vector)
    requires
        i < 8,
    ensures
        0u8 & (1u8 << i) == 0,
{
}

proof fn lemma_bit_after_or(b: u8, i: u8, j: u8)
    by (bit_vector)
    requires
        i < 8,
        j < 8,
    ensures
        ((b | (1u8 << i)) & (1u8 << j) != 0) == (i == j || b & (1u8 << j) != 0),
{
}

proof fn lemma_bit_after_clear(b: u8, i: u8, j: u8)
    by (bit_vector)
    requires
        i < 8,
        j < 8,
    ensures
        ((b & !(1u8 << i)) & (1u8 << j) != 0) == (i != j && b & (1u8 << j) != 0),
{
}

proof fn lemma_bit_of_tail_mask(n: u8, j: u8)
    by (bit_vector)
    requires
        n <= 8,
        j < 8,
    ensures
        (((0xffu16 << n) as u8) & (1u8 << j) != 0) == (j >= n),
{
}

proof fn lemma_byte_from_bits(a: u8, b: u8)
    by (bit_vector)
    requires
        (a & 1 != 0) == (b & 1 != 0),
        (a & 2 != 0) == (b & 2 != 0),
        (a & 4 != 0) == (b & 4 != 0),
        (a & 8 != 0) == (b & 8 != 0),
        (a & 16 != 0) == (b & 16 != 0),
        (a & 32 != 0) == (b & 32 != 0),
        (a & 64 != 0) == (b & 64 != 0),
        (a & 128 != 0) == (b & 128 != 0),
    ensures
        a == b,
{
}

proof fn lemma_single_bit_masks()
    by (bit_vector)
    ensures
        1u8 << 0u8 == 1,
        1u8 << 1u8 == 2,
        1u8 << 2u8 == 4,
        1u8 << 3u8 == 8,
        1u8 << 4u8 == 16,
        1u8 << 5u8 == 32,
        1u8 << 6u8 == 64,
        1u8 << 7u8 == 128,
{
}

impl Bitset {
    /// Whether slot `index` holds `true`. Slots outside `0..8` hold `false`.
    pub closed spec fn bit(self, index: int) -> bool {
        byte_bit(self.0, index)
    }

    /// Two bitsets with the same eight slots are the same bitset.
    pub proof fn lemma_ext_equal(self, other: Bitset)
        requires
            forall|i: int| 0 <= i < 8 ==> self.bit(i) == other.bit(i),
        ensures
            self == other,
    {
        lemma_single_bit_masks();
        assert(self.bit(0) == other.bit(0));
        assert(self.bit(1) == other.bit(1));
        assert(self.bit(2) == other.bit(2));
        assert(self.bit(3) == other.bit(3));
        assert(self.bit(4) == other.bit(4));
        assert(self.bit(5) == other.bit(5));
        assert(self.bit(6) == other.bit(6));
        assert(self.bit(7) == other.bit(7));
        lemma_byte_from_bits(self.0, other.0);
    }

    /// The bitset with every slot `false`.
    pub fn new() -> (r: Bitset)
        ensures
            forall|i: int| !r.bit(i),
    {
        proof {
            assert forall|i: int| !byte_bit(0u8, i) by {
                if 0 <= i < 8 {
                    lemma_bit_of_zero(i as u8);
                }
            }
        }
        Bitset(0)
    }

    /// Reads slot `index`.
    pub fn get(&self, index: usize) -> (r: bool)
        requires
            index <= 7,
        ensures
            r == self.bit(index as int),
    {
        let mask: u8 = 1u8 << index;
        assert(mask == 1u8 << (index as u8)) by (bit_vector)
            requires
                index <= 7,
                mask == 1u8 << index,
        ;
        self.0 & mask > 0
    }

    /// Writes `val` to slot `index` and leaves the other slots as they were.
    pub fn set(&mut self, index: usize, val: bool)
        requires
            index <= 7,
        ensures
            forall|i: int|
                final(self).bit(i) == (if i == index {
                    val
                } else {
                    old(self).bit(i)
                }),
    {
        let mask: u8 = 1u8 << index;
        assert(mask == 1u8 << (index as u8)) by (bit_vector)
            requires
                index <= 7,
                mask == 1u8 << index,
        ;
        let ghost before = self.0;
        if val {
            self.0 |= mask;
        } else {
            self.0 &= !mask;
        }
        proof {
            assert forall|i: int|
                self.bit(i) == (if i == index {
                    val
                } else {
                    old(self).bit(i)
                }) by {
                if 0 <= i < 8 {
                    lemma_bit_after_or(before, index as u8, i as u8);
                    lemma_bit_after_clear(before, index as u8, i as u8);
                }
            }
        }
    }

    /// The bitset whose first `n` slots are `false` and whose remaining slots
    /// are `true`.
    pub fn first_n(n: usize) -> (r: Bitset)
        requires
            n <= 8,
        ensures
            forall|i: int| 0 <= i < 8 ==> r.bit(i) == (i >= n),
    {
        let byte: u8 = match n {
            0 => 0b11111111,
            1 => 0b11111110,
            2 => 0b11111100,
            3 => 0b11111000,
            4 => 0b11110000,
            5 => 0b11100000,
            6 => 0b11000000,
            7 => 0b10000000,
            _ => 0b00000000,
        };
        proof {
            let m = n as u8;
            assert(byte == (0xffu16 << m) as u8) by (bit_vector)
                requires
                    m <= 8,
                    byte == (if m == 0 {
                        0xffu8
                    } else if m == 1 {
                        0xfeu8
                    } else if m == 2 {
                        0xfcu8
                    } else if m == 3 {
                        0xf8u8
                    } else if m == 4 {
                        0xf0u8
                    } else if m == 5 {
                        0xe0u8
                    } else if m == 6 {
                        0xc0u8
                    } else if m == 7 {
                        0x80u8
                    } else {
                        0u8
                    }),
            ;
            assert forall|i: int| 0 <= i < 8 implies byte_bit(byte, i) == (i >= n) by {
                lemma_bit_of_tail_mask(m, i as u8);
            }
        }
        Bitset(byte)
    }

    /// Whether some slot is `true`.
    pub fn any(self) -> (r: bool)
        ensures
            r == exists|i: int| 0 <= i < 8 && self.bit(i),
    {
        proof {
            self.lemma_zero_iff_no_bit();
        }
        self.0 != 0
    }

    /// Whether every slot is `false`.
    pub fn is_empty(self) -> (r: bool)
        ensures
            r == forall|i: int| 0 <= i < 8 ==> !self.bit(i),
    {
        proof {
            self.lemma_zero_iff_no_bit();
        }
        self.0 == 0
    }

    /// Whether every slot is `true`.
    pub fn is_full(self) -> (r: bool)
        ensures
            r == forall|i: int| 0 <= i < 8 ==> self.bit(i),
    {
        proof {
            let full = Bitset(0xff);
            assert forall|i: int| 0 <= i < 8 implies full.bit(i) by {
                lemma_bit_of_tail_mask(0, i as u8);
                assert((0xffu16 << 0u8) as u8 == 0xffu8) by (bit_vector);
            }
            if forall|i: int| 0 <= i < 8 ==> self.bit(i) {
                self.lemma_ext_equal(full);
            }
        }
        self.0 == 0xff
    }

    proof fn lemma_zero_iff_no_bit(self)
        ensures
            (self.0 == 0) == forall|i: int| 0 <= i < 8 ==> !self.bit(i),
    {
        let zero = Bitset(0);
        assert forall|i: int| 0 <= i < 8 implies !zero.bit(i) by {
            lemma_bit_of_zero(i as u8);
        }
        if forall|i: int| 0 <= i < 8 ==> !self.bit(i) {
            self.lemma_ext_equal(zero);
        }
    }
}

} // verus!
