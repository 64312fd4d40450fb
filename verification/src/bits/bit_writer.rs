use vstd::prelude::*;
use vstd::arithmetic::power2::{pow2, lemma_pow2_adds, lemma_pow2_pos};

use super::accum::{Accum, ACCUM_MAX};
use super::model::{bytes_value, lemma_bytes_value_push, lemma_pow2_8};

verus! {

/// Bit stream writer. Bits are pushed at the top of the stream; whole bytes are flushed out,
/// least significant first, into a byte vector.
///
/// Abstractly the stream is the number `value()` of `bit_len()` bits; pushing `v` of width `n`
/// makes it `value() + v * 2^bit_len()` of width `bit_len() + n`.
pub struct BitWriter {
    accum: Accum,
    mark: Ghost<int>,
    nbytes: Ghost<nat>,
    flushed: Ghost<nat>,
    val: Ghost<nat>,
    len: Ghost<nat>,
}

/// Low byte and remaining high bits of a word.
proof fn lemma_byte_split(u: u64)
    ensures
        (u as u8) as nat == u as nat % 256,
        (u >> 8) as nat == u as nat / 256,
        u as nat == (u as u8) as nat + 256 * (u >> 8) as nat,
{
    assert((u as u8) as u64 == u % 256) by (bit_vector);
    assert(u >> 8 == u / 256) by (bit_vector);
}

impl BitWriter {
    /// The value of the stream pushed so far.
    pub closed spec fn value(&self) -> nat {
        self.val@
    }

    /// The width in bits of the stream pushed so far.
    pub closed spec fn bit_len(&self) -> nat {
        self.len@
    }

    /// Position in the destination vector where this stream starts.
    pub closed spec fn mark(&self) -> int {
        self.mark@
    }

    /// Bits pending in the accumulator.
    pub closed spec fn pending(&self) -> int {
        self.accum.bits as int
    }

    /// Number of bytes flushed so far.
    pub closed spec fn nbytes(&self) -> nat {
        self.nbytes@
    }

    /// Value of the bytes flushed so far.
    pub closed spec fn flushed(&self) -> nat {
        self.flushed@
    }

    /// Internal consistency of the writer.
    pub closed spec fn inv(&self) -> bool {
        &&& 0 <= self.accum.bits <= ACCUM_MAX
        &&& (self.accum.u as nat) < pow2(self.accum.bits as nat)
        &&& self.val@ == self.flushed@ + pow2(8 * self.nbytes@) * self.accum.u
        &&& self.len@ == 8 * self.nbytes@ + self.accum.bits
        &&& self.mark@ >= 0
        &&& self.val@ < pow2(self.len@)
    }

    /// `dst` holds the bytes flushed by this writer from `mark()` on.
    pub open spec fn matches(&self, dst: Seq<u8>) -> bool {
        &&& 0 <= self.mark() <= dst.len()
        &&& dst.len() == self.mark() + self.nbytes()
        &&& bytes_value(dst.subrange(self.mark(), dst.len() as int)) == self.flushed()
    }

    /// A writer over `dst` with an empty stream starting at the current end of `dst`.
    pub fn new(dst: &Vec<u8>) -> (r: Self)
        ensures
            r.inv(),
            r.matches(dst@),
            r.mark() == dst@.len(),
            r.value() == 0,
            r.bit_len() == 0,
            r.pending() == 0,
    {
        let r = Self {
            accum: Accum::default(),
            mark: Ghost(dst.len() as int),
            nbytes: Ghost(0),
            flushed: Ghost(0),
            val: Ghost(0),
            len: Ghost(0),
        };
        proof {
            vstd::arithmetic::power2::lemma2_to64();
            assert(dst@.subrange(dst@.len() as int, dst@.len() as int) =~= Seq::<u8>::empty());
        }
        r
    }

    /// The stream's value fits its width.
    pub proof fn lemma_value_bound(&self)
        requires
            self.inv(),
        ensures
            self.value() < pow2(self.bit_len()),
    {
    }

    /// Pushes the low `n_bits` bits `bits` on top of the stream.
    pub fn push(&mut self, bits: u64, n_bits: u64)
        requires
            old(self).inv(),
            old(self).pending() + n_bits <= ACCUM_MAX,
            (bits as nat) < pow2(n_bits as nat),
        ensures
            final(self).inv(),
            final(self).value() == old(self).value() + bits * pow2(old(self).bit_len()),
            final(self).bit_len() == old(self).bit_len() + n_bits,
            final(self).pending() == old(self).pending() + n_bits,
            final(self).mark() == old(self).mark(),
            final(self).nbytes() == old(self).nbytes(),
            final(self).flushed() == old(self).flushed(),
    {
        let b = self.accum.bits as u64;
        let u = self.accum.u;
        proof {
            let pb = pow2(b as nat);
            let pn = pow2(n_bits as nat);
            lemma_pow2_adds(b as nat, n_bits as nat);
            lemma_pow2_pos(b as nat);
            lemma_pow2_pos(n_bits as nat);
            vstd::bits::lemma_u64_pow2_no_overflow((b + n_bits) as nat);
            assert(bits * pb < pn * pb) by (nonlinear_arith)
                requires bits < pn, pb > 0;
            assert(bits * pb <= u64::MAX);
            vstd::bits::lemma_u64_shl_is_mul(bits, b);
            vstd::bits::lemma_u64_pow2_no_overflow(b as nat);
            vstd::bits::lemma_u64_shl_is_mul(1u64, b);
            assert(u < (1u64 << b));
            let v = bits << b;
            assert((v >> b) << b == v) by {
                vstd::bits::lemma_u64_shr_is_div(v, b);
                vstd::arithmetic::div_mod::lemma_div_multiples_vanish(bits as int, pb as int);
                assert(pb * bits == bits * pb) by (nonlinear_arith);
                vstd::bits::lemma_u64_shl_is_mul((v >> b), b);
            }
            assert((u | v) == u + v) by (bit_vector)
                requires
                    b < 64,
                    u < (1u64 << b),
                    (v >> b) << b == v,
            ;
            assert(u + bits * pb < pn * pb) by (nonlinear_arith)
                requires u < pb, bits < pn, pb > 0;
            let pbytes = pow2(8 * self.nbytes@);
            assert(pbytes * (u + bits * pb) == pbytes * u + bits * (pbytes * pb))
                by (nonlinear_arith);
            lemma_pow2_adds(8 * self.nbytes@, b as nat);
        }
        proof {
            let pl = pow2(self.len@);
            let pn = pow2(n_bits as nat);
            lemma_pow2_adds(self.len@, n_bits as nat);
            assert(self.val@ + bits * pl < pl * pn) by (nonlinear_arith)
                requires self.val@ < pl, bits < pn, pl > 0;
            lemma_pow2_pos(self.len@);
        }
        self.accum.u = u | (bits << b);
        self.accum.bits = self.accum.bits + n_bits as i64;
        proof {
            self.val@ = (self.val@ + bits * pow2(self.len@)) as nat;
            self.len@ = (self.len@ + n_bits) as nat;
        }
    }

    /// Moves the lowest pending byte out to `dst`. Requires at least one pending bit; the
    /// pending count may drop below zero, with the missing top bits taken as zero.
    fn emit_byte(&mut self, dst: &mut Vec<u8>)
        requires
            old(self).accum.bits >= 1,
            -7 <= old(self).accum.bits - 8,
            old(self).accum.bits <= ACCUM_MAX,
            (old(self).accum.u as nat) < pow2(old(self).accum.bits as nat),
            old(self).val@ == old(self).flushed@ + pow2(8 * old(self).nbytes@) * old(self).accum.u,
            old(self).len@ == 8 * old(self).nbytes@ + old(self).accum.bits,
            old(self).matches(old(dst)@),
        ensures
            final(self).accum.bits == old(self).accum.bits - 8,
            final(self).accum.bits > 0 ==> (final(self).accum.u as nat) < pow2(
                final(self).accum.bits as nat,
            ),
            final(self).accum.bits <= 0 ==> final(self).accum.u == 0,
            final(self).val@ == final(self).flushed@ + pow2(8 * final(self).nbytes@)
                * final(self).accum.u,
            final(self).len@ == 8 * final(self).nbytes@ + final(self).accum.bits,
            final(self).matches(final(dst)@),
            final(self).val@ == old(self).val@,
            final(self).len@ == old(self).len@,
            final(self).mark@ == old(self).mark@,
            final(dst)@ == old(dst)@.push(final(dst)@.last()),
    {
        let u = self.accum.u;
        let byte = u as u8;
        let ghost old_dst = dst@;
        dst.push(byte);
        self.accum.u = u >> 8;
        self.accum.bits = self.accum.bits - 8;
        proof {
            lemma_byte_split(u);
            let m = self.mark@;
            let nb = self.nbytes@;
            assert(dst@.subrange(m, dst@.len() as int) =~= old_dst.subrange(
                m,
                old_dst.len() as int,
            ).push(byte));
            lemma_bytes_value_push(old_dst.subrange(m, old_dst.len() as int), byte);
            let p = pow2(8 * nb);
            lemma_pow2_8(nb);
            assert(8 * (nb + 1) == 8 * nb + 8);
            let hi = (u >> 8) as nat;
            assert(p * (u as nat) == p * (byte as nat) + (256 * p) * hi) by (nonlinear_arith)
                requires u as nat == byte as nat + 256 * hi;
            let b = old(self).accum.bits;
            if b - 8 > 0 {
                lemma_pow2_adds((b - 8) as nat, 8);
                vstd::arithmetic::power2::lemma2_to64();
                assert(hi < pow2((b - 8) as nat)) by (nonlinear_arith)
                    requires
                        u < pow2(b as nat),
                        pow2(b as nat) == pow2((b - 8) as nat) * 256,
                        u as nat == byte as nat + 256 * hi,
                ;
            } else {
                lemma_pow2_pos(b as nat);
                vstd::bits::lemma_u64_pow2_no_overflow(b as nat);
                vstd::bits::lemma_u64_shl_is_mul(1u64, b as u64);
                assert(u >> 8 == 0) by (bit_vector)
                    requires 1 <= b <= 8, u < (1u64 << (b as u64));
            }
            self.flushed@ = (self.flushed@ + p * byte) as nat;
            self.nbytes@ = nb + 1;
        }
    }

    /// Moves every whole pending byte out to `dst`.
    pub fn flush(&mut self, dst: &mut Vec<u8>)
        requires
            old(self).inv(),
            old(self).matches(old(dst)@),
        ensures
            final(self).inv(),
            final(self).matches(final(dst)@),
            final(self).value() == old(self).value(),
            final(self).bit_len() == old(self).bit_len(),
            final(self).mark() == old(self).mark(),
            0 <= final(self).pending() <= 7,
            final(dst)@.len() >= old(dst)@.len(),
            final(dst)@.subrange(0, old(dst)@.len() as int) == old(dst)@,
    {
        let ghost d0 = dst@;
        while self.accum.bits >= 8
            invariant
                self.inv(),
                self.matches(dst@),
                self.value() == old(self).value(),
                self.bit_len() == old(self).bit_len(),
                self.mark() == old(self).mark(),
                dst@.len() >= d0.len(),
                dst@.subrange(0, d0.len() as int) == d0,
            decreases self.accum.bits,
        {
            let ghost d1 = dst@;
            self.emit_byte(dst);
            proof {
                vstd::arithmetic::power2::lemma2_to64();
                assert(dst@.subrange(0, d0.len() as int) =~= d1.subrange(0, d0.len() as int));
            }
        }
    }

    /// Flushes every pending bit, padding the last byte with zero bits at the top, and returns
    /// the number of padding bits.
    pub fn finalize(self, dst: &mut Vec<u8>) -> (r: usize)
        requires
            self.inv(),
            self.matches(old(dst)@),
        ensures
            r < 8,
            final(dst)@.len() >= self.mark(),
            final(dst)@.len() >= old(dst)@.len(),
            final(dst)@.subrange(0, old(dst)@.len() as int) == old(dst)@,
            bytes_value(final(dst)@.subrange(self.mark(), final(dst)@.len() as int)) == self.value(),
            8 * (final(dst)@.len() - self.mark()) == self.bit_len() + r,
    {
        let mut w = self;
        let ghost d0 = dst@;
        proof {
            vstd::arithmetic::power2::lemma2_to64();
        }
        while w.accum.bits > 0
            invariant
                -7 <= w.accum.bits <= ACCUM_MAX,
                w.accum.bits > 0 ==> (w.accum.u as nat) < pow2(w.accum.bits as nat),
                w.accum.bits <= 0 ==> w.accum.u == 0,
                w.val@ == w.flushed@ + pow2(8 * w.nbytes@) * w.accum.u,
                w.len@ == 8 * w.nbytes@ + w.accum.bits,
                w.matches(dst@),
                w.val@ == self.val@,
                w.len@ == self.len@,
                w.mark@ == self.mark@,
                dst@.len() >= d0.len(),
                dst@.subrange(0, d0.len() as int) == d0,
            decreases w.accum.bits + 8,
        {
            let ghost d1 = dst@;
            w.emit_byte(dst);
            proof {
                assert(dst@.subrange(0, d0.len() as int) =~= d1.subrange(0, d0.len() as int));
            }
        }
        proof {
            assert(w.accum.u == 0);
            assert(pow2(8 * w.nbytes@) * w.accum.u == 0) by (nonlinear_arith)
                requires w.accum.u == 0;
        }
        (0 - w.accum.bits) as usize
    }
}

} // verus!
