use vstd::prelude::*;
use vstd::arithmetic::power2::pow2;

verus! {

/// The maximum number of bits an accumulator holds between flushes.
pub const ACCUM_MAX: i64 = 63;

/// Bit accumulator: `bits` bits held in the low end of `u`.
#[derive(Copy, Clone)]
pub struct Accum {
    pub u: u64,
    pub bits: i64,
}

/// The mask of the low `i` bits of a word, `0 <= i <= 64`.
pub fn accum_mask(i: usize) -> (r: u64)
    requires
        i <= 64,
    ensures
        r as nat == pow2(i as nat) - 1,
{
    proof {
        vstd::arithmetic::power2::lemma2_to64();
        vstd::arithmetic::power2::lemma2_to64_rest();
    }
    if i == 64 {
        u64::MAX
    } else {
        crate::kit::mask_u64(i as u32)
    }
}

impl Accum {
    /// An accumulator holding `bits` bits of `u`.
    pub fn new(u: u64, bits: i64) -> (r: Self)
        ensures
            r.u == u,
            r.bits == bits,
    {
        Self { u, bits }
    }

    /// Clears every bit of `u` above the low `bits` bits.
    pub fn mask(&mut self)
        requires
            0 <= old(self).bits <= 64,
        ensures
            final(self).bits == old(self).bits,
            final(self).u as nat == old(self).u as nat % pow2(old(self).bits as nat),
    {
        let m = accum_mask(self.bits as usize);
        let u = self.u;
        let r = u & m;
        proof {
            vstd::arithmetic::power2::lemma2_to64_rest();
            vstd::arithmetic::power2::lemma_pow2_pos(self.bits as nat);
            if self.bits < 64 {
                vstd::bits::lemma_u64_low_bits_mask_is_mod(u, self.bits as nat);
                vstd::bits::lemma_u64_pow2_no_overflow(self.bits as nat);
                assert(m == (vstd::bits::low_bits_mask(self.bits as nat) as u64));
                assert(r == u % (pow2(self.bits as nat) as u64));
            } else {
                assert(m == 0xffff_ffff_ffff_ffffu64);
                assert(u & 0xffff_ffff_ffff_ffffu64 == u) by (bit_vector);
                vstd::arithmetic::div_mod::lemma_small_mod(u as nat, pow2(64));
            }
        }
        self.u = r;
    }
}

impl Default for Accum {
    fn default() -> (r: Self)
        ensures
            r.u == 0,
            r.bits == 0,
    {
        Self { u: 0, bits: 0 }
    }
}

} // verus!
