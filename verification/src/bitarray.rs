use vstd::prelude::*;

verus! {

/// Whether bit `k` of the byte `b` is set.
pub open spec fn nth_bit(b: u8, k: u8) -> bool {
    (b >> k) & 1u8 == 1u8
}

/// A packed array of bits: bit `i` lives in byte `i / 8` at position `i % 8`.
/// Bits are only ever set, never cleared, so the stored information can only
/// grow.
pub struct BitArray {
    data: Vec<u8>,
}

impl View for BitArray {
    type V = Seq<bool>;

    /// The bits held, in index order.
    closed spec fn view(&self) -> Seq<bool> {
        Seq::new(
            self.data@.len() * 8,
            |i: int| nth_bit(self.data@[i / 8], (i % 8) as u8),
        )
    }
}

/// Setting bit `k` of a byte by or-ing in a one-bit mask leaves every other
/// bit as it was and makes bit `k` one.
proof fn lemma_or_bit(b: u8, k: u8, j: u8)
    by (bit_vector)
    requires
        k < 8,
        j < 8,
    ensures
        nth_bit(b | (1u8 << k), j) == (j == k || nth_bit(b, j)),
{
}

/// Reading bit `k` of a byte through a one-bit mask agrees with `nth_bit`.
proof fn lemma_and_bit(b: u8, k: u8)
    by (bit_vector)
    requires
        k < 8,
    ensures
        ((b & (1u8 << k)) != 0) == nth_bit(b, k),
{
}

/// Shift and mask decompose a bit index into its byte index and the bit's
/// position inside that byte.
proof fn lemma_index_split(index: usize)
    by (bit_vector)
    ensures
        index >> 3 == index / 8,
        index & 7 == index % 8,
{
}

impl BitArray {
    /// A fresh array of `num_bits` zero bits, packed into `num_bits / 8`
    /// bytes.
    pub fn new(num_bits: usize) -> (r: BitArray)
        requires
            num_bits % 8 == 0,
        ensures
            r@.len() == num_bits,
            forall|i: int| 0 <= i < num_bits ==> !r@[i],
    {
        let num_bytes = num_bits / 8;
        let mut data: Vec<u8> = Vec::new();
        while data.len() < num_bytes
            invariant
                data@.len() <= num_bytes,
                forall|i: int| 0 <= i < data@.len() ==> data@[i] == 0u8,
            decreases num_bytes - data@.len(),
        {
            data.push(0u8);
        }
        proof {
            assert forall|j: u8| j < 8 implies !nth_bit(0u8, j) by {
                assert((0u8 >> j) & 1u8 == 0u8) by (bit_vector);
            }
        }
        BitArray { data }
    }

    /// How many bits the array holds.
    pub fn num_bits(&self) -> (r: usize)
        requires
            self@.len() <= usize::MAX,
        ensures
            r == self@.len(),
    {
        self.data.len() * 8
    }

    /// Set bit `index` to one; every other bit keeps its value.
    pub fn set(&mut self, index: usize)
        requires
            index < old(self)@.len(),
        ensures
            final(self)@ == old(self)@.update(index as int, true),
    {
        proof {
            lemma_index_split(index);
        }
        let byte_index = index >> 3;
        let bit_pos = index & 7;
        let b = self.data[byte_index];
        self.data.set(byte_index, b | (1u8 << bit_pos));
        proof {
            assert forall|i: int| 0 <= i < self@.len() implies self@[i] == old(self)@.update(
                index as int,
                true,
            )[i] by {
                lemma_or_bit(b, bit_pos as u8, (i % 8) as u8);
                if i != index && i / 8 == index / 8 {
                    assert(i % 8 != index % 8) by {
                        vstd::arithmetic::div_mod::lemma_fundamental_div_mod(i, 8);
                        vstd::arithmetic::div_mod::lemma_fundamental_div_mod(index as int, 8);
                    }
                }
            }
            assert(self@ =~= old(self)@.update(index as int, true));
        }
    }

    /// Whether bit `index` is one.
    pub fn get(&self, index: usize) -> (r: bool)
        requires
            index < self@.len(),
        ensures
            r == self@[index as int],
    {
        proof {
            lemma_index_split(index);
        }
        let byte_index = index >> 3;
        let bit_pos = index & 7;
        let r = (self.data[byte_index] & (1u8 << bit_pos)) != 0;
        proof {
            lemma_and_bit(self.data@[byte_index as int], bit_pos as u8);
        }
        r
    }
}

} // verus!
