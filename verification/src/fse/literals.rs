use vstd::prelude::*;
use vstd::arithmetic::power2::{pow2, lemma_pow2_pos, lemma_pow2_adds};

use crate::bits::accum::ACCUM_MAX;
use crate::bits::bit_reader::BitReader;
use crate::bits::bit_writer::BitWriter;
use crate::bits::byte_bits::ByteBits;
use crate::bits::model::bytes_value;
use crate::error::{Error, FseErrorKind};

use super::block::{LiteralParam, literal_limit, literal_param_error};
use super::constants::{LITERALS_PER_BLOCK, U_STATES};
use super::decoder::{Decoder, dec_step};
use super::encoder::{Encoder, enc_step};
use super::weights::u_part;

verus! {

/// Literal buffer capacity: a full block and room for padding.
pub const BUF_LEN: usize = 40004;

/// Decoding one literal: the literal, the next state, and the unread stream `(value, width)`.
pub open spec fn dec_one(w: Seq<u16>, st: nat, rv: nat, rl: int) -> (nat, nat, nat, int) {
    let (sym, nb, delta) = dec_step(w, U_STATES, st);
    let l1 = rl - nb;
    (sym, delta + rv / pow2(l1 as nat), rv % pow2(l1 as nat), l1)
}

/// Decoding `k` groups of four literals from states `st` and the unread stream `(rv, rl)`: the
/// literals, the states, and the unread stream after them.
pub open spec fn lit_dec(w: Seq<u16>, st: Seq<nat>, rv: nat, rl: int, k: nat) -> (
    Seq<u8>,
    Seq<nat>,
    nat,
    int,
)
    decreases k,
{
    if k == 0 {
        (Seq::empty(), st, rv, rl)
    } else {
        let (out, s, v, l) = lit_dec(w, st, rv, rl, (k - 1) as nat);
        let (a, s0, v0, l0) = dec_one(w, s[0], v, l);
        let (b, s1, v1, l1) = dec_one(w, s[1], v0, l0);
        let (c, s2, v2, l2) = dec_one(w, s[2], v1, l1);
        let (d, s3, v3, l3) = dec_one(w, s[3], v2, l2);
        (out + seq![a as u8, b as u8, c as u8, d as u8], seq![s0, s1, s2, s3], v3, l3)
    }
}

/// The unread width never grows while decoding.
pub proof fn lemma_lit_dec_mono(w: Seq<u16>, st: Seq<nat>, rv: nat, rl: int, j: nat, k: nat)
    requires
        j <= k,
    ensures
        lit_dec(w, st, rv, rl, j).3 >= lit_dec(w, st, rv, rl, k).3,
        lit_dec(w, st, rv, rl, k).0.len() == 4 * k,
    decreases k,
{
    if k > 0 {
        if j < k {
            lemma_lit_dec_mono(w, st, rv, rl, j, (k - 1) as nat);
        } else {
            lemma_lit_dec_mono(w, st, rv, rl, (k - 1) as nat, (k - 1) as nat);
        }
    }
}

/// Pushing `nb` bits `b` on top of the stream `(v, l)`.
pub open spec fn push_bits(v: nat, l: nat, b: nat, nb: nat) -> (nat, nat) {
    (v + b * pow2(l), l + nb)
}

/// Encoding the last `k` groups of four of `lits`, last literal first: the four states and
/// the bit stream `(value, width)`.
pub open spec fn lit_enc(w: Seq<u16>, lits: Seq<u8>, k: nat) -> (Seq<nat>, nat, nat)
    decreases k,
{
    if k == 0 {
        (seq![U_STATES as nat, U_STATES as nat, U_STATES as nat, U_STATES as nat], 0, 0)
    } else {
        let (st, v, l) = lit_enc(w, lits, (k - 1) as nat);
        let i = lits.len() - 4 * (k - 1);
        let (s3, b3, n3) = enc_step(w, U_STATES, lits[i - 1] as nat, st[3]);
        let (s2, b2, n2) = enc_step(w, U_STATES, lits[i - 2] as nat, st[2]);
        let (s1, b1, n1) = enc_step(w, U_STATES, lits[i - 3] as nat, st[1]);
        let (s0, b0, n0) = enc_step(w, U_STATES, lits[i - 4] as nat, st[0]);
        let (v3, l3) = push_bits(v, l, b3, n3);
        let (v2, l2) = push_bits(v3, l3, b2, n2);
        let (v1, l1) = push_bits(v2, l2, b1, n1);
        let (v0, l0) = push_bits(v1, l1, b0, n0);
        (seq![s0, s1, s2, s3], v0, l0)
    }
}

/// The literal count rounded up to a multiple of four.
pub open spec fn round4(n: nat) -> nat {
    ((n + 3) / 4 * 4) as nat
}

/// Literal block buffer.
pub struct Literals {
    bytes: Vec<u8>,
    n: usize,
}

impl View for Literals {
    type V = Seq<u8>;

    /// The literals held.
    closed spec fn view(&self) -> Seq<u8> {
        self.bytes@.subrange(0, self.n as int)
    }
}

impl Literals {
    /// Internal consistency: a full-size buffer holding at most a block of literals.
    pub closed spec fn wf(&self) -> bool {
        &&& self.bytes@.len() == BUF_LEN
        &&& self.n <= LITERALS_PER_BLOCK
    }

    /// The buffer, padding included.
    pub closed spec fn buffer(&self) -> Seq<u8> {
        self.bytes@
    }

    /// The literals held, with the padding up to a multiple of four.
    pub open spec fn padded(&self) -> Seq<u8> {
        self.buffer().subrange(0, round4(self@.len()) as int)
    }

    /// Appends `literals`.
    pub fn push(&mut self, literals: &[u8])
        requires
            old(self).wf(),
            old(self)@.len() + literals@.len() <= LITERALS_PER_BLOCK,
        ensures
            final(self).wf(),
            final(self)@ == old(self)@ + literals@,
    {
        let mut i: usize = 0;
        let ghost b0 = self.bytes@;
        let ghost n0 = self.n;
        while i < literals.len()
            invariant
                i <= literals@.len(),
                self.bytes@.len() == BUF_LEN,
                n0 + literals@.len() <= LITERALS_PER_BLOCK,
                self.n == n0,
                self.bytes@.subrange(0, n0 + i) == b0.subrange(0, n0 as int) + literals@.subrange(0, i as int),
            decreases literals@.len() - i,
        {
            let ghost pre = self.bytes@;
            self.bytes.set(self.n + i, literals[i]);
            proof {
                assert(self.bytes@.subrange(0, n0 + i + 1) =~= pre.subrange(0, n0 + i).push(literals@[i as int]));
                assert(literals@.subrange(0, i + 1) =~= literals@.subrange(0, i as int).push(literals@[i as int]));
            }
            i = i + 1;
        }
        self.n = self.n + literals.len();
        proof {
            assert(literals@.subrange(0, literals@.len() as int) =~= literals@);
        }
    }

    /// Pads the literals up to a multiple of four with the first buffer byte.
    pub fn pad(&mut self)
        requires
            old(self).wf(),
        ensures
            final(self).wf(),
            final(self)@ == old(self)@,
            final(self).padded() == old(self)@ + Seq::new(
                (round4(old(self)@.len()) - old(self)@.len()) as nat,
                |i: int| old(self).buffer()[0],
            ),
            old(self)@.len() > 0 ==> final(self).padded() == old(self)@ + Seq::new(
                (round4(old(self)@.len()) - old(self)@.len()) as nat,
                |i: int| old(self)@[0],
            ),
            old(self)@.len() == 0 ==> final(self).padded() == Seq::<u8>::empty(),
    {
        let u = self.bytes[0];
        self.pad_u(u);
        proof {
            if old(self)@.len() > 0 {
                assert(old(self)@[0] == old(self).buffer()[0]);
            } else {
                assert(round4(0) == 0);
            }
        }
    }

    /// Pads the literals up to a multiple of four with `u`.
    pub fn pad_u(&mut self, u: u8)
        requires
            old(self).wf(),
        ensures
            final(self).wf(),
            final(self)@ == old(self)@,
            final(self).padded() == old(self)@ + Seq::new(
                (round4(old(self)@.len()) - old(self)@.len()) as nat,
                |i: int| u,
            ),
    {
        let n = self.n;
        self.bytes.set(n, u);
        self.bytes.set(n + 1, u);
        self.bytes.set(n + 2, u);
        self.bytes.set(n + 3, u);
        proof {
            let r = round4(n as nat);
            assert(n <= r <= n + 3);
            assert(self@ =~= old(self)@);
            assert(self.padded() =~= old(self)@ + Seq::new((r - n) as nat, |i: int| u));
        }
    }

    /// Number of literals held.
    pub fn len(&self) -> (r: usize)
        requires
            self.wf(),
        ensures
            r == self@.len(),
            r <= LITERALS_PER_BLOCK,
    {
        self.n
    }

    /// Drops every literal.
    pub fn reset(&mut self)
        requires
            old(self).wf(),
        ensures
            final(self).wf(),
            final(self)@ == Seq::<u8>::empty(),
    {
        self.n = 0;
        proof {
            assert(self@ =~= Seq::<u8>::empty());
        }
    }

    /// The literals held.
    pub fn as_slice(&self) -> (r: &[u8])
        requires
            self.wf(),
        ensures
            r@ == self@,
            r@.len() <= LITERALS_PER_BLOCK,
    {
        vstd::slice::slice_subrange(self.bytes.as_slice(), 0, self.n)
    }
}

impl Default for Literals {
    fn default() -> (r: Self)
        ensures
            r.wf(),
            r@ == Seq::<u8>::empty(),
            r.buffer() == Seq::new(BUF_LEN as nat, |i: int| 0u8),
    {
        let r = Self { bytes: vec![0u8; BUF_LEN], n: 0 };
        proof {
            assert(r@ =~= Seq::<u8>::empty());
            assert(r.buffer() =~= Seq::new(BUF_LEN as nat, |i: int| 0u8));
        }
        r
    }
}


/// Final encoder states less the state count.
pub open spec fn lit_states(st: Seq<nat>) -> Seq<u16> {
    seq![
        (st[0] - U_STATES) as u16,
        (st[1] - U_STATES) as u16,
        (st[2] - U_STATES) as u16,
        (st[3] - U_STATES) as u16,
    ]
}

/// Encoder states stay in `[1024, 2048)` and the stream grows by at most 10 bits a literal.
proof fn lemma_lit_enc_bounds(w: Seq<u16>, lits: Seq<u8>, k: nat)
    requires
        4 * k <= lits.len(),
    ensures
        lit_enc(w, lits, k).0.len() == 4,
    decreases k,
{
    if k > 0 {
        lemma_lit_enc_bounds(w, lits, (k - 1) as nat);
    }
}

impl Literals {
    /// Encodes the literals, padded to a multiple of four, as four interleaved FSE streams
    /// appended to `dst`, and returns the literal block parameters.
    #[verifier::rlimit(60)]
    pub fn store(&self, dst: &mut Vec<u8>, encoder: &Encoder) -> (r: LiteralParam)
        requires
            self.wf(),
            encoder.wf(),
        ensures
            ({
                let n4 = round4(self@.len());
                let (st, v, l) = lit_enc(u_part(encoder.weights()), self.padded(), n4 / 4);
                let m = old(dst)@.len();
                &&& r@.0 == n4
                &&& r@.1 == final(dst)@.len() - m
                &&& r@.3 == lit_states(st)
                &&& final(dst)@.len() >= m
                &&& final(dst)@.subrange(0, m as int) == old(dst)@
                &&& bytes_value(final(dst)@.subrange(m as int, final(dst)@.len() as int)) == v
                &&& 8 * r@.1 == l + r@.2
            }),
    {
        let ghost w = u_part(encoder.weights());
        let ghost lits = self.padded();
        let ghost m = dst@.len();
        let n = self.n;
        let n4 = (n + 3) / 4 * 4;
        proof {
            assert(n4 == round4(n as nat));
            assert(lits.len() == n4);
            super::decoder::lemma_state_counts();
        }
        let mark = dst.len();
        let mut writer = BitWriter::new(dst);
        let mut s0: u32 = U_STATES;
        let mut s1: u32 = U_STATES;
        let mut s2: u32 = U_STATES;
        let mut s3: u32 = U_STATES;
        let mut i: usize = n4;
        while i != 0
            invariant
                self.wf(),
                encoder.wf(),
                w == u_part(encoder.weights()),
                lits == self.padded(),
                lits.len() == n4,
                n4 <= LITERALS_PER_BLOCK,
                i <= n4,
                i % 4 == 0,
                n4 % 4 == 0,
                writer.inv(),
                writer.matches(dst@),
                writer.mark() == m,
                dst@.len() >= m,
                dst@.subrange(0, m as int) == old(dst)@,
                0 <= writer.pending() <= 7,
                writer.bit_len() <= 10 * (n4 - i),
                ({
                    let (st, v, l) = lit_enc(w, lits, ((n4 - i) / 4) as nat);
                    &&& st.len() == 4
                    &&& s0 == st[0]
                    &&& s1 == st[1]
                    &&& s2 == st[2]
                    &&& s3 == st[3]
                    &&& writer.value() == v
                    &&& writer.bit_len() == l
                }),
                U_STATES <= s0 < 2 * U_STATES,
                U_STATES <= s1 < 2 * U_STATES,
                U_STATES <= s2 < 2 * U_STATES,
                U_STATES <= s3 < 2 * U_STATES,
            decreases i,
        {
            let ghost k = ((n4 - i) / 4) as nat;
            let ghost d0 = dst@;
            proof {
                assert(((n4 - (i - 4)) / 4) as nat == k + 1);
                assert(lits.len() - 4 * k == i);
                assert(self.buffer()[i - 1] == lits[i - 1]);
                assert(self.buffer()[i - 4] == lits[i - 4]);
                assert(self.buffer()[i - 2] == lits[i - 2]);
                assert(self.buffer()[i - 3] == lits[i - 3]);
                super::decoder::lemma_state_counts();
            }
            encoder.u(&mut writer, &mut s3, self.bytes[i - 1]);
            encoder.u(&mut writer, &mut s2, self.bytes[i - 2]);
            encoder.u(&mut writer, &mut s1, self.bytes[i - 3]);
            encoder.u(&mut writer, &mut s0, self.bytes[i - 4]);
            proof {
                vstd::arithmetic::power2::lemma2_to64();
                assert(0 * pow2(0) == 0);
            }
            writer.flush(dst);
            proof {
                assert(dst@.subrange(0, m as int) =~= d0.subrange(0, m as int));
            }
            i = i - 4;
        }
        proof {
            assert((n4 - i) / 4 == n4 / 4);
        }
        let ghost wv = writer.value();
        let ghost wl = writer.bit_len();
        let ghost mk = writer.mark();
        let ghost d1 = dst@;
        let bits = writer.finalize(dst);
        proof {
            assert(dst@.subrange(0, m as int) =~= dst@.subrange(0, d1.len() as int).subrange(0, m as int));
            assert(d1.subrange(0, m as int) == old(dst)@);
        }
        let npb = dst.len() - mark;
        proof {
            assert(8 * npb == wl + bits);
            assert(wl <= 10 * n4);
            assert(npb <= literal_limit(n4 as nat));
        }
        let state = [
            (s0 - U_STATES) as u16,
            (s1 - U_STATES) as u16,
            (s2 - U_STATES) as u16,
            (s3 - U_STATES) as u16,
        ];
        proof {
            let (st, v, l) = lit_enc(w, lits, (n4 / 4) as nat);
            assert(state@ =~= lit_states(st));
            assert(literal_param_error((n4 as u32, npb as u32, bits as u32, state@)) is None);
            assert(dst@.subrange(0, m as int) =~= old(dst)@);
            assert(bytes_value(dst@.subrange(m as int, dst@.len() as int)) == v);
            assert(8 * npb == l + bits);
            assert(npb == dst@.len() - m);
        }
        match LiteralParam::new(n4 as u32, npb as u32, bits as u32, state) {
            Ok(p) => p,
            Err(_) => {
                proof {
                    assert(false);
                }
                LiteralParam::default()
            },
        }
    }
}


/// Decoder start states of a literal block.
pub open spec fn lit_start(state: Seq<u16>) -> Seq<nat> {
    seq![state[0] as nat, state[1] as nat, state[2] as nat, state[3] as nat]
}

/// The literals, states and unread stream after decoding the literal block `param` from `src`.
pub open spec fn lit_run(w: Seq<u16>, src: Seq<u8>, param: (u32, u32, u32, Seq<u16>)) -> (
    Seq<u8>,
    Seq<nat>,
    nat,
    int,
) {
    lit_dec(
        w,
        lit_start(param.3),
        bytes_value(src),
        8 * src.len() - param.2,
        (param.0 / 4) as nat,
    )
}

/// The outcome of decoding the literal block `param` from `src`.
pub open spec fn lit_load_result(w: Seq<u16>, src: Seq<u8>, param: (u32, u32, u32, Seq<u16>)) -> Result<
    (),
    Error,
> {
    let (out, st, rv, rl) = lit_run(w, src, param);
    if bytes_value(src) >= pow2((8 * src.len() - param.2) as nat) {
        Err(Error::BadBitStream)
    } else if rl < 64 {
        Err(Error::PayloadUnderflow)
    } else if st != seq![0nat, 0nat, 0nat, 0nat] {
        Err(Error::Fse(FseErrorKind::BadLmdPayload))
    } else {
        Ok(())
    }
}

impl Literals {
    /// Decodes the literal block `param` from `src`: the payload with at least 8 bytes before
    /// it, as four interleaved FSE streams.
    #[verifier::rlimit(60)]
    pub fn load(&mut self, src: &[u8], decoder: &Decoder, param: &LiteralParam) -> (r:
        crate::Result<()>)
        requires
            old(self).wf(),
            decoder.wf(),
            src@.len() >= 8,
        ensures
            final(self).wf(),
            r == lit_load_result(u_part(decoder.weights()), src@, param@),
            r is Ok ==> final(self)@ == lit_run(u_part(decoder.weights()), src@, param@).0,
            r is Err ==> final(self)@.len() == old(self)@.len(),
    {
        let ghost w = u_part(decoder.weights());
        let ghost run = lit_run(w, src@, param@);
        let ghost rv0 = bytes_value(src@);
        let ghost rl0 = 8 * src@.len() - param@.2;
        let mut reader = BitReader::new(ByteBits::new(src), param.bits() as usize)?;
        let state = param.state();
        let mut s0: u32 = state[0] as u32;
        let mut s1: u32 = state[1] as u32;
        let mut s2: u32 = state[2] as u32;
        let mut s3: u32 = state[3] as u32;
        let n_literals = param.num() as usize;
        let ghost k_end = (n_literals / 4) as nat;
        let mut i: usize = 0;
        proof {
            assert(lit_start(param@.3) =~= seq![s0 as nat, s1 as nat, s2 as nat, s3 as nat]);
            assert(self.bytes@.subrange(0, 0) =~= Seq::<u8>::empty());
        }
        while i != n_literals
            invariant
                self.wf(),
                self.n == old(self).n,
                decoder.wf(),
                w == u_part(decoder.weights()),
                run == lit_dec(w, lit_start(param@.3), rv0, rl0, k_end),
                n_literals == param@.0,
                n_literals <= LITERALS_PER_BLOCK,
                n_literals % 4 == 0,
                k_end == n_literals / 4,
                i <= n_literals,
                i % 4 == 0,
                reader.inv(),
                reader.src() == src@,
                reader.pending() >= 56,
                s0 < U_STATES,
                s1 < U_STATES,
                s2 < U_STATES,
                s3 < U_STATES,
                ({
                    let (out, st, rv, rl) = lit_dec(
                        w,
                        lit_start(param@.3),
                        rv0,
                        rl0,
                        (i / 4) as nat,
                    );
                    &&& reader.exact() ==> {
                        &&& reader.rem_value() == rv
                        &&& reader.rem_len() == rl
                        &&& st == seq![s0 as nat, s1 as nat, s2 as nat, s3 as nat]
                        &&& self.bytes@.subrange(0, i as int) == out
                    }
                    &&& run.3 >= 64 ==> reader.exact()
                }),
            decreases n_literals - i,
        {
            let ghost k = (i / 4) as nat;
            let ghost b0 = self.bytes@;
            let a = decoder.u(&mut reader, &mut s0);
            let b = decoder.u(&mut reader, &mut s1);
            let c = decoder.u(&mut reader, &mut s2);
            let d = decoder.u(&mut reader, &mut s3);
            self.bytes.set(i, a);
            self.bytes.set(i + 1, b);
            self.bytes.set(i + 2, c);
            self.bytes.set(i + 3, d);
            proof {
                assert((i + 4) / 4 == k + 1);
                lemma_lit_dec_mono(w, lit_start(param@.3), rv0, rl0, k + 1, k_end);
                lemma_lit_dec_mono(w, lit_start(param@.3), rv0, rl0, k, k);
                let (out, st, rv, rl) = lit_dec(w, lit_start(param@.3), rv0, rl0, k);
                if reader.exact() {
                    assert(self.bytes@.subrange(0, i + 4) =~= out + seq![a, b, c, d]);
                }
            }
            reader.flush();
            i = i + 4;
        }
        reader.finalize()?;
        proof {
            assert(i / 4 == k_end);
        }
        if s0 != 0 || s1 != 0 || s2 != 0 || s3 != 0 {
            proof {
                assert(run.1 != seq![0nat, 0nat, 0nat, 0nat]) by {
                    if run.1 == seq![0nat, 0nat, 0nat, 0nat] {
                        assert(run.1[0] == 0 && run.1[1] == 0 && run.1[2] == 0 && run.1[3] == 0);
                    }
                }
            }
            return Err(Error::Fse(FseErrorKind::BadLmdPayload));
        }
        self.n = n_literals;
        proof {
            assert(run.1 =~= seq![0nat, 0nat, 0nat, 0nat]);
        }
        Ok(())
    }
}


impl Literals {
    /// Buffer bytes `[a, b)`.
    pub fn buffer_range(&self, a: usize, b: usize) -> (r: &[u8])
        requires
            self.wf(),
            a <= b <= BUF_LEN,
        ensures
            r@ == self.buffer().subrange(a as int, b as int),
    {
        vstd::slice::slice_subrange(self.bytes.as_slice(), a, b)
    }

    /// A well-formed buffer is full size.
    pub proof fn lemma_buffer_len(&self)
        requires
            self.wf(),
        ensures
            self.buffer().len() == BUF_LEN,
            self@.len() <= LITERALS_PER_BLOCK,
            self@.len() <= self.buffer().len(),
            self.buffer().subrange(0, self@.len() as int) == self@,
    {
    }
}

} // verus!
