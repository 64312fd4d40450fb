use vstd::prelude::*;
use vstd::arithmetic::power2::pow2;

use super::model::{bytes_value, lemma_bytes_value_bound, lemma_pow2_8};

verus! {

/// Little-endian value of `n <= 8` bytes of `bytes` starting at `start`.
pub fn le_value(bytes: &[u8], start: usize, n: usize) -> (r: u64)
    requires
        start + n <= bytes@.len(),
        n <= 8,
    ensures
        r as nat == bytes_value(bytes@.subrange(start as int, (start + n) as int)),
{
    let mut v: u64 = 0;
    let mut j: usize = n;
    let len = bytes.len();
    proof {
        assert(bytes@.subrange((start + n) as int, (start + n) as int) =~= Seq::<u8>::empty());
        vstd::arithmetic::power2::lemma2_to64();
    }
    while j > 0
        invariant
            j <= n,
            n <= 8,
            start + n <= bytes@.len(),
            len == bytes@.len(),
            v as nat == bytes_value(bytes@.subrange((start + j) as int, (start + n) as int)),
        decreases j,
    {
        let ghost tail = bytes@.subrange((start + j) as int, (start + n) as int);
        j = j - 1;
        let b = bytes[start + j];
        proof {
            let s = bytes@.subrange((start + j) as int, (start + n) as int);
            assert(s.drop_first() =~= tail);
            assert(s[0] == b);
            lemma_bytes_value_bound(tail);
            vstd::arithmetic::power2::lemma2_to64();
            assert(tail.len() <= 7);
            assert(pow2(8 * tail.len()) <= pow2(56)) by {
                if tail.len() < 7 {
                    vstd::arithmetic::power2::lemma_pow2_strictly_increases(8 * tail.len(), 56);
                }
            }
            vstd::arithmetic::power2::lemma2_to64_rest();
            assert(v * 256 + b <= u64::MAX);
            assert(v << 8 == v * 256) by (bit_vector)
                requires v < 0x100_0000_0000_0000u64;
            assert((v << 8) | (b as u64) == (v << 8) + (b as u64)) by (bit_vector)
                requires v < 0x100_0000_0000_0000u64;
        }
        v = (v << 8) | (b as u64);
    }
    v
}

/// Bit reader source over a byte slice, consumed from the end towards the start.
#[derive(Clone, Copy)]
pub struct ByteBits<'a> {
    bytes: &'a [u8],
    index: usize,
}

impl<'a> ByteBits<'a> {
    /// The underlying bytes.
    pub closed spec fn src(&self) -> Seq<u8> {
        self.bytes@
    }

    /// Number of bytes not yet consumed, at the start of the slice.
    pub closed spec fn index(&self) -> nat {
        self.index as nat
    }

    /// Internal consistency.
    pub open spec fn inv(&self) -> bool {
        &&& self.index() <= self.src().len()
        &&& self.src().len() >= 8
    }

    /// A source over `bytes`, which holds at least 8 bytes.
    pub fn new(bytes: &'a [u8]) -> (r: Self)
        requires
            bytes@.len() >= 8,
        ensures
            r.inv(),
            r.src() == bytes@,
            r.index() == 0,
    {
        Self { bytes, index: 0 }
    }

    /// Sets the index `8 - n` bytes before the end and returns the value of those last bytes.
    fn init_n(&mut self, n: usize) -> (r: u64)
        requires
            n <= 1,
            old(self).inv(),
        ensures
            final(self).inv(),
            final(self).src() == old(self).src(),
            final(self).index() == old(self).src().len() - (8 - n),
            r as nat == bytes_value(
                old(self).src().subrange(
                    old(self).src().len() - (8 - n),
                    old(self).src().len() as int,
                ),
            ),
    {
        let len = self.bytes.len();
        self.index = len - (8 - n);
        le_value(self.bytes, len - (8 - n), 8 - n)
    }

    /// Initializes and pops the last 7 bytes, returning their value.
    pub fn init_1(&mut self) -> (r: u64)
        requires
            old(self).inv(),
        ensures
            final(self).inv(),
            final(self).src() == old(self).src(),
            final(self).index() == old(self).src().len() - 7,
            r as nat == bytes_value(
                old(self).src().subrange(old(self).src().len() - 7, old(self).src().len() as int),
            ),
    {
        self.init_n(1)
    }

    /// Initializes and pops the last 8 bytes, returning their value.
    pub fn init_0(&mut self) -> (r: u64)
        requires
            old(self).inv(),
        ensures
            final(self).inv(),
            final(self).src() == old(self).src(),
            final(self).index() == old(self).src().len() - 8,
            r as nat == bytes_value(
                old(self).src().subrange(old(self).src().len() - 8, old(self).src().len() as int),
            ),
    {
        self.init_n(0)
    }

    /// Pops the `n_bytes` bytes below the index and returns their value; when fewer are left the
    /// index drops to zero and zero is returned.
    pub fn pop_bytes(&mut self, n_bytes: usize) -> (r: u64)
        requires
            old(self).inv(),
            n_bytes < 8,
        ensures
            final(self).inv(),
            final(self).src() == old(self).src(),
            n_bytes <= old(self).index() ==> final(self).index() == old(self).index() - n_bytes
                && r as nat == bytes_value(
                old(self).src().subrange(
                    old(self).index() - n_bytes,
                    old(self).index() as int,
                ),
            ),
            n_bytes > old(self).index() ==> final(self).index() == 0 && r == 0,
    {
        if n_bytes == 0 {
            proof {
                assert(self.bytes@.subrange(self.index as int, self.index as int)
                    =~= Seq::<u8>::empty());
            }
            0
        } else if n_bytes <= self.index {
            self.index = self.index - n_bytes;
            le_value(self.bytes, self.index, n_bytes)
        } else {
            self.index = 0;
            0
        }
    }

    /// Number of bytes not yet consumed.
    pub fn len(&self) -> (r: usize)
        ensures
            r == self.index(),
    {
        self.index
    }
}

} // verus!
