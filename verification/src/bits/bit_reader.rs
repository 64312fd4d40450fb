use vstd::prelude::*;
use vstd::arithmetic::power2::{pow2, lemma_pow2_adds, lemma_pow2_pos};

use crate::error::Error;

use super::accum::{Accum, ACCUM_MAX};
use super::byte_bits::ByteBits;
use super::model::{bytes_value, lemma_bytes_value_append, lemma_bytes_value_bound, lemma_div_mod_split};

verus! {

/// Bit stream reader. Bits are pulled from the top of the stream, which is the end of the
/// source bytes.
///
/// Abstractly the unread stream is the number `rem_value()` of `rem_len()` bits; pulling `n` bits
/// returns the top `n` bits and leaves the rest. This holds while `exact()`: reading past the
/// start of the source clears it, and `finalize` then fails.
pub struct BitReader<'a> {
    accum: Accum,
    inner: ByteBits<'a>,
    exact: Ghost<bool>,
}

/// `bits` fit below `2^b` exactly when the word shifted right by `b` is zero.
proof fn lemma_shr_zero_iff_lt(u: u64, b: u64)
    requires
        b < 64,
    ensures
        (u >> b == 0) <==> (u as nat) < pow2(b as nat),
{
    vstd::bits::lemma_u64_shr_is_div(u, b);
    lemma_pow2_pos(b as nat);
    if (u as nat) < pow2(b as nat) {
        vstd::arithmetic::div_mod::lemma_basic_div(u as int, pow2(b as nat) as int);
    } else {
        vstd::arithmetic::div_mod::lemma_div_non_zero(u as int, pow2(b as nat) as int);
    }
}

/// A bit stream read back: the bytes `out` that `BitWriter::finalize` wrote for a stream of
/// value `v` and width `n`, followed by `pad` zero bits of padding, pass the check of
/// `BitReader::new` with `pad` padding bits, and the reader's stream is `v` of width `n`.
pub proof fn lemma_bit_round_trip(out: Seq<u8>, v: nat, n: nat, pad: nat)
    requires
        bytes_value(out) == v,
        8 * out.len() == n + pad,
        v < pow2(n),
    ensures
        bytes_value(out) < pow2((8 * out.len() - pad) as nat),
        8 * out.len() - pad == n,
{
}

/// The stream that pushing the values `xs`, each `(x, n)` of `n` bits, in order onto an empty
/// bit writer makes: its value and its width.
pub open spec fn pushed(xs: Seq<(nat, nat)>) -> (nat, nat)
    decreases xs.len(),
{
    if xs.len() == 0 {
        (0, 0)
    } else {
        let (v, l) = pushed(xs.drop_last());
        let (x, n) = xs.last();
        (v + x * pow2(l), l + n)
    }
}

/// Each pushed value fits its width.
pub open spec fn fits_widths(xs: Seq<(nat, nat)>) -> bool {
    forall|i: int| 0 <= i < xs.len() ==> (#[trigger] xs[i]).0 < pow2(xs[i].1)
}

/// A pushed stream's value fits its width.
pub proof fn lemma_pushed_bound(xs: Seq<(nat, nat)>)
    requires
        fits_widths(xs),
    ensures
        pushed(xs).0 < pow2(pushed(xs).1),
    decreases xs.len(),
{
    if xs.len() > 0 {
        let ys = xs.drop_last();
        assert(fits_widths(ys)) by {
            assert forall|i: int| 0 <= i < ys.len() implies (#[trigger] ys[i]).0 < pow2(ys[i].1) by {
                assert(ys[i] == xs[i]);
            }
        }
        lemma_pushed_bound(ys);
        let (v, l) = pushed(ys);
        let (x, n) = xs.last();
        assert(xs.last() == xs[xs.len() - 1]);
        let pl = pow2(l);
        let pn = pow2(n);
        lemma_pow2_adds(l, n);
        lemma_pow2_pos(l);
        assert(xs[xs.len() - 1].0 < pow2(xs[xs.len() - 1].1));
        assert(v + x * pl < pn * pl) by (nonlinear_arith)
            requires v < pl, x < pn, pl > 0;
    } else {
        lemma_pow2_pos(0);
        vstd::arithmetic::power2::lemma2_to64();
    }
}

/// Bits come back last in, first out: pulling the width of the last value pushed from the top
/// of a pushed stream, as `BitReader::pull` does, gives that value and leaves the stream of
/// the values before it.
pub proof fn lemma_bits_lifo(xs: Seq<(nat, nat)>)
    requires
        xs.len() > 0,
        fits_widths(xs),
    ensures
        ({
            let (v, l) = pushed(xs);
            let (x, n) = xs.last();
            let k = (l - n) as nat;
            &&& l >= n
            &&& v / pow2(k) == x
            &&& v % pow2(k) == pushed(xs.drop_last()).0
            &&& k == pushed(xs.drop_last()).1
        }),
{
    let ys = xs.drop_last();
    assert(fits_widths(ys)) by {
        assert forall|i: int| 0 <= i < ys.len() implies (#[trigger] ys[i]).0 < pow2(ys[i].1) by {
            assert(ys[i] == xs[i]);
        }
    }
    lemma_pushed_bound(ys);
    let (v0, l0) = pushed(ys);
    let (x, n) = xs.last();
    let p = pow2(l0);
    lemma_pow2_pos(l0);
    vstd::arithmetic::div_mod::lemma_fundamental_div_mod_converse(
        (v0 + x * p) as int,
        p as int,
        x as int,
        v0 as int,
    );
}

impl<'a> BitReader<'a> {
    /// The source bytes.
    pub closed spec fn src(&self) -> Seq<u8> {
        self.inner.src()
    }

    /// The value of the unread stream.
    pub closed spec fn rem_value(&self) -> nat {
        bytes_value(self.inner.src().subrange(0, self.inner.index() as int)) + pow2(
            8 * self.inner.index(),
        ) * (self.accum.u as nat)
    }

    /// The width in bits of the unread stream.
    pub closed spec fn rem_len(&self) -> int {
        8 * self.inner.index() + self.accum.bits
    }

    /// The source.
    pub closed spec fn byte_src(&self) -> ByteBits<'a> {
        self.inner
    }

    /// The accumulator.
    pub closed spec fn accum_view(&self) -> Accum {
        self.accum
    }

    /// Number of unread source bytes.
    pub closed spec fn idx(&self) -> nat {
        self.inner.index()
    }

    /// Bits held in the accumulator.
    pub closed spec fn pending(&self) -> int {
        self.accum.bits as int
    }

    /// No read went past the start of the source.
    pub closed spec fn exact(&self) -> bool {
        self.exact@
    }

    /// Internal consistency.
    pub closed spec fn inv(&self) -> bool {
        &&& self.inner.inv()
        &&& 0 <= self.accum.bits <= ACCUM_MAX
        &&& (self.accum.u as nat) < pow2(self.accum.bits as nat)
        &&& !self.exact@ ==> self.inner.index() == 0
    }

    /// Starts reading the stream held in `inner`, whose top `off` bits are padding that must be
    /// zero.
    pub fn new(inner: ByteBits<'a>, off: usize) -> (r: crate::Result<Self>)
        requires
            inner.inv(),
            off <= 7,
        ensures
            r is Ok <==> bytes_value(inner.src()) < pow2((8 * inner.src().len() - off) as nat),
            r matches Err(e) ==> e == Error::BadBitStream,
            r matches Ok(rd) ==> {
                &&& rd.inv()
                &&& rd.exact()
                &&& rd.src() == inner.src()
                &&& rd.rem_value() == bytes_value(inner.src())
                &&& rd.rem_len() == 8 * inner.src().len() - off
                &&& rd.pending() >= 56
            },
            r matches Ok(rd) ==> {
                let n = inner.src().len();
                let top: int = if off == 0 {
                    7
                } else {
                    8
                };
                &&& rd.byte_src().src() == inner.src()
                &&& rd.idx() == n - top
                &&& rd.accum_view().bits == 8 * top - off
                &&& rd.accum_view().u as nat == bytes_value(inner.src().subrange(n - top, n as int))
            },
    {
        let mut inner = inner;
        let ghost src = inner.src();
        let accum: u64;
        let accum_bits: i64;
        if off == 0 {
            accum = inner.init_1();
            accum_bits = 56;
        } else {
            accum = inner.init_0();
            accum_bits = 64 - off as i64;
        }
        let ghost idx = inner.index();
        proof {
            let pre = src.subrange(0, idx as int);
            let top = src.subrange(idx as int, src.len() as int);
            assert(src =~= pre + top);
            lemma_bytes_value_append(pre, top);
            lemma_bytes_value_bound(pre);
            lemma_bytes_value_bound(top);
            lemma_shr_zero_iff_lt(accum, accum_bits as u64);
            let p = pow2(8 * idx);
            let q = pow2(accum_bits as nat);
            lemma_pow2_adds(8 * idx, accum_bits as nat);
            assert(8 * idx + accum_bits == 8 * src.len() - off);
            let lo = bytes_value(pre);
            if (accum as nat) < q {
                assert(lo + p * accum < p * q) by (nonlinear_arith)
                    requires lo < p, accum < q;
            } else {
                assert(lo + p * accum >= p * q) by (nonlinear_arith)
                    requires accum >= q, p > 0;
            }
            if off == 0 {
                vstd::arithmetic::power2::lemma2_to64();
                vstd::arithmetic::power2::lemma2_to64_rest();
                assert(8 * top.len() == 56);
            }
        }
        if accum >> accum_bits as u64 != 0 {
            Err(Error::BadBitStream)
        } else {
            let accum = Accum::new(accum, accum_bits);
            Ok(Self { inner, accum, exact: Ghost(true) })
        }
    }

    /// Splits the reader into its source and accumulator.
    pub fn into_inner(self) -> (r: (ByteBits<'a>, Accum))
        ensures
            r.0 == self.byte_src(),
            r.0.index() == self.idx(),
            r.0.src() == self.byte_src().src(),
            r.1 == self.accum_view(),
    {
        (self.inner, self.accum)
    }

    /// Refills the accumulator from the source with as many whole bytes as fit.
    pub fn flush(&mut self)
        requires
            old(self).inv(),
        ensures
            final(self).inv(),
            final(self).src() == old(self).src(),
            final(self).pending() >= 56,
            final(self).exact() ==> old(self).exact(),
            old(self).exact() && old(self).rem_len() >= 56 ==> final(self).exact(),
            final(self).exact() ==> final(self).rem_value() == old(self).rem_value()
                && final(self).rem_len() == old(self).rem_len(),
            !final(self).exact() ==> final(self).idx() == 0,
    {
        let bits = self.accum.bits;
        let n_bytes = ((ACCUM_MAX - bits) / 8) as usize;
        let u = self.accum.u;
        let ghost idx = self.inner.index();
        let ghost src = self.inner.src();
        let w = self.inner.pop_bytes(n_bytes);
        let sh = (n_bytes * 8) as u64;
        proof {
            lemma_pow2_adds(bits as nat, sh as nat);
            vstd::bits::lemma_u64_pow2_no_overflow((bits + sh) as nat);
            lemma_pow2_pos(sh as nat);
            assert(u * pow2(sh as nat) < pow2(bits as nat) * pow2(sh as nat)) by (nonlinear_arith)
                requires u < pow2(bits as nat), pow2(sh as nat) > 0;
            vstd::bits::lemma_u64_shl_is_mul(u, sh);
        }
        let hi = u << sh;
        proof {
            if n_bytes <= idx {
                let pre = src.subrange(0, (idx - n_bytes) as int);
                let mid = src.subrange((idx - n_bytes) as int, idx as int);
                assert(src.subrange(0, idx as int) =~= pre + mid);
                lemma_bytes_value_append(pre, mid);
                lemma_bytes_value_bound(mid);
            }
            assert((w as nat) < pow2(sh as nat)) by {
                if n_bytes > idx {
                    lemma_pow2_pos(sh as nat);
                }
            }
            vstd::bits::lemma_u64_pow2_no_overflow(sh as nat);
            vstd::bits::lemma_u64_shl_is_mul(1u64, sh);
            vstd::bits::lemma_u64_shl_is_mul(u, sh);
            assert((hi >> sh) << sh == hi) by {
                vstd::bits::lemma_u64_shr_is_div(hi, sh);
                vstd::arithmetic::div_mod::lemma_div_multiples_vanish(u as int, pow2(sh as nat) as int);
                assert(pow2(sh as nat) * u == u * pow2(sh as nat)) by (nonlinear_arith);
            }
            assert((hi | w) == hi + w) by (bit_vector)
                requires
                    sh < 64,
                    w < (1u64 << sh),
                    (hi >> sh) << sh == hi,
            ;
        }
        self.accum.u = hi | w;
        self.accum.bits = bits + (n_bytes * 8) as i64;
        proof {
            let nb = self.accum.bits;
            assert(hi + w < pow2(nb as nat)) by (nonlinear_arith)
                requires
                    hi == u * pow2(sh as nat),
                    u < pow2(bits as nat),
                    w < pow2(sh as nat),
                    pow2(nb as nat) == pow2(bits as nat) * pow2(sh as nat),
            ;
            if n_bytes <= idx {
                let pi = pow2(8 * (idx - n_bytes) as nat);
                let ps = pow2(sh as nat);
                lemma_pow2_adds(8 * (idx - n_bytes) as nat, sh as nat);
                assert(8 * (idx - n_bytes) + sh == 8 * idx);
                assert(pi * (hi + w) == pi * w + (pi * ps) * u) by (nonlinear_arith)
                    requires hi == u * ps;
            } else {
                self.exact@ = false;
            }
        }
    }

    /// Pulls the top `n_bits` bits of the stream.
    pub fn pull(&mut self, n_bits: usize) -> (r: u64)
        requires
            old(self).inv(),
            n_bits <= old(self).pending(),
            n_bits <= 32,
        ensures
            final(self).inv(),
            final(self).src() == old(self).src(),
            final(self).exact() == old(self).exact(),
            final(self).pending() == old(self).pending() - n_bits,
            final(self).rem_len() == old(self).rem_len() - n_bits,
            (r as nat) < pow2(n_bits as nat),
            final(self).exact() ==> r == old(self).rem_value() / pow2(
                (old(self).rem_len() - n_bits) as nat,
            ) && final(self).rem_value() == old(self).rem_value() % pow2(
                (old(self).rem_len() - n_bits) as nat,
            ),
            !final(self).exact() ==> final(self).idx() == 0,
    {
        let ghost u = self.accum.u;
        let ghost b0 = self.accum.bits;
        self.accum.bits = self.accum.bits - n_bits as i64;
        let nb = self.accum.bits;
        let result = self.accum.u >> (nb as u64);
        self.accum.mask();
        proof {
            let pb = pow2(nb as nat);
            let pn = pow2(n_bits as nat);
            lemma_pow2_adds(nb as nat, n_bits as nat);
            lemma_pow2_pos(nb as nat);
            vstd::bits::lemma_u64_shr_is_div(u, nb as u64);
            let lo = self.accum.u as nat;
            assert(lo == (u as nat) % pb);
            vstd::arithmetic::div_mod::lemma_fundamental_div_mod(u as int, pb as int);
            assert(u == pb * result + lo);
            vstd::arithmetic::div_mod::lemma_mod_bound(u as int, pb as int);
            assert(lo < pb);
            assert(result < pn) by (nonlinear_arith)
                requires u == pb * result + lo, u < pb * pn, pb > 0, lo >= 0;
            let idx = self.inner.index();
            let pre = self.inner.src().subrange(0, idx as int);
            let bl = bytes_value(pre);
            lemma_bytes_value_bound(pre);
            let p = pow2(8 * idx);
            lemma_pow2_adds(8 * idx, nb as nat);
            lemma_pow2_pos(8 * idx);
            let d = pow2((8 * idx + nb) as nat);
            assert(d == p * pb);
            assert(bl + p * lo < p * pb) by (nonlinear_arith)
                requires bl < p, lo < pb;
            assert(bl + p * u == (bl + p * lo) + d * result) by (nonlinear_arith)
                requires u == pb * result + lo, d == p * pb;
            lemma_div_mod_split((bl + p * lo) as nat, d, result as nat);
            assert(old(self).rem_len() - n_bits == 8 * idx + nb);
        }
        result
    }

    /// Checks that the stream was read exactly down to the 8 byte pad at the start of the
    /// source.
    pub fn finalize(self) -> (r: crate::Result<()>)
        requires
            self.inv(),
        ensures
            r is Ok <==> self.exact() && self.rem_len() >= 64,
            r matches Err(e) ==> e == Error::PayloadUnderflow,
    {
        let mut rd = self;
        rd.flush();
        let len = rd.inner.len();
        let nb = (rd.accum.bits / 8) as usize;
        if len <= 7 - nb {
            Err(Error::PayloadUnderflow)
        } else {
            Ok(())
        }
    }

    /// Number of unread source bytes.
    pub fn inner_len(&self) -> (r: usize)
        ensures
            r == self.idx(),
    {
        self.inner.len()
    }

    /// Number of bits held in the accumulator.
    pub fn accum_bits(&self) -> (r: i64)
        ensures
            r == self.pending(),
    {
        self.accum.bits
    }
}

} // verus!
