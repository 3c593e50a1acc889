use vstd::prelude::*;

verus! {

/// The bit of `byte` at `place`, counted from the least significant bit.
pub open spec fn bit_of(byte: u8, place: u8) -> bool {
    byte & (1u8 << place) != 0
}

proof fn lemma_set_bit(byte: u8, place: u8, other: u8)
    by (bit_vector)
    requires
        place < 8,
        other < 8,
    ensures
        bit_of(byte | (1u8 << place), place),
        other != place ==> bit_of(byte | (1u8 << place), other) == bit_of(byte, other),
{
}

proof fn lemma_unset_bit(byte: u8, place: u8, other: u8)
    by (bit_vector)
    requires
        place < 8,
        other < 8,
    ensures
        !bit_of(byte & (0b11111111u8 ^ (1u8 << place)), place),
        other != place ==> bit_of(byte & (0b11111111u8 ^ (1u8 << place)), other) == bit_of(
            byte,
            other,
        ),
{
}

proof fn lemma_zero_bit(place: u8)
    by (bit_vector)
    requires
        place < 8,
    ensures
        !bit_of(0u8, place),
{
}

/// A row of bits, packed eight to a byte. It is made for a number of bits and holds whole
/// bytes, so it has room for that number rounded up to a multiple of eight.
pub struct Bitfield {
    len: usize,
    bytes: Vec<u8>,
}

impl View for Bitfield {
    type V = Seq<bool>;

    /// The bits in order, those beyond `len()` that the last byte has room for included.
    closed spec fn view(&self) -> Seq<bool> {
        Seq::new(
            (self.bytes.len() * 8) as nat,
            |i: int| bit_of(self.bytes[i / 8], (i % 8) as u8),
        )
    }
}

impl Bitfield {
    /// The number of bits that the row was made for.
    pub closed spec fn len(&self) -> nat {
        self.len as nat
    }

    /// The number of bits that the row has room for: `len()` rounded up to a multiple of eight.
    pub open spec fn capacity(&self) -> nat {
        self@.len()
    }

    /// The row for `bit_size` bits, all of them unset.
    pub fn create(bit_size: usize) -> (field: Bitfield)
        ensures
            field.len() == bit_size,
            field.capacity() == (bit_size + 7) / 8 * 8,
            forall|i: int| 0 <= i < field.capacity() ==> !field@[i],
    {
        let byte_size = (bit_size / 8) + (if bit_size % 8 != 0 {
            1
        } else {
            0
        });
        let mut bytes: Vec<u8> = Vec::new();
        let mut n: usize = 0;
        while n < byte_size
            invariant
                0 <= n <= byte_size,
                bytes.len() == n,
                forall|k: int| 0 <= k < n ==> bytes[k] == 0,
            decreases byte_size - n,
        {
            bytes.push(0);
            n = n + 1;
        }
        let field = Bitfield { len: bit_size, bytes };
        proof {
            assert forall|i: int| 0 <= i < field.capacity() implies !field@[i] by {
                lemma_zero_bit((i % 8) as u8);
            }
        }
        field
    }

    /// Sets the bit at `index`.
    pub fn set_value(&mut self, index: usize)
        requires
            index < old(self).capacity(),
        ensures
            final(self)@ == old(self)@.update(index as int, true),
            final(self).len() == old(self).len(),
    {
        let byte_index = index / 8;
        let bit_index: u8 = (index % 8) as u8;
        let bit_twiddle: u8 = 0 | (1u8 << bit_index);
        assert(0u8 | (1u8 << bit_index) == 1u8 << bit_index) by (bit_vector);
        let byte = self.bytes[byte_index];
        self.bytes[byte_index] = byte | bit_twiddle;
        proof {
            assert forall|i: int| 0 <= i < final(self)@.len() implies final(self)@[i] == old(
                self,
            )@.update(index as int, true)[i] by {
                if i / 8 == byte_index as int {
                    lemma_set_bit(byte, bit_index, (i % 8) as u8);
                }
            }
            assert(final(self)@ =~= old(self)@.update(index as int, true));
        }
    }

    /// Unsets the bit at `index`.
    pub fn unset_value(&mut self, index: usize)
        requires
            index < old(self).capacity(),
        ensures
            final(self)@ == old(self)@.update(index as int, false),
            final(self).len() == old(self).len(),
    {
        let byte_index = index / 8;
        let bit_index: u8 = (index % 8) as u8;
        let bit_twiddle: u8 = 0b11111111 ^ (1u8 << bit_index);
        let byte = self.bytes[byte_index];
        self.bytes[byte_index] = byte & bit_twiddle;
        proof {
            assert forall|i: int| 0 <= i < final(self)@.len() implies final(self)@[i] == old(
                self,
            )@.update(index as int, false)[i] by {
                if i / 8 == byte_index as int {
                    lemma_unset_bit(byte, bit_index, (i % 8) as u8);
                }
            }
            assert(final(self)@ =~= old(self)@.update(index as int, false));
        }
    }

    /// Whether the bit at `index` is set.
    pub fn get_value(&self, index: usize) -> (set: bool)
        requires
            index < self.capacity(),
        ensures
            set == self@[index as int],
    {
        let byte_index = index / 8;
        let bit_index: u8 = (index % 8) as u8;
        let mask: u8 = 1u8 << bit_index;
        (self.bytes[byte_index] & mask) != 0
    }
}

} // verus!
