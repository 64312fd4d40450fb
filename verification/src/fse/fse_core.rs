use vstd::prelude::*;

use crate::base::{BM_VX1, BM_VX2};
use crate::bits::bit_reader::BitReader;
use crate::bits::byte_bits::ByteBits;
use crate::bits::model::bytes_value;
use crate::error::{Error, FseErrorKind};
use crate::le::le_u32;
use crate::lz::{lz_match, LzWriter};

use super::block::{FseBlock, v1_result, v1_view, v2_result, v2_view};
use super::constants::{
    D_STATES, LITERALS_PER_BLOCK, L_STATES, M_STATES, V1_HEADER_SIZE, V1_WEIGHT_PAYLOAD_BYTES,
    V2_HEADER_SIZE,
};
use super::decoder::Decoder;
use super::literals::Literals;
use super::lmds::{lmd_dec, lmd_run, lmd_start, lemma_lmd_dec_mono, Lmds};
use super::weights::{v1_load_result, v1_weights, v2_load_result, v2_weights, valid_totals, Weights};

verus! {

/// State of LZ decoding: the output, the literal index, the match distance in effect and the
/// match bytes written.
pub type LzState = (Seq<u8>, nat, nat, nat);

/// One LZ step: the literals `(l, m, pd)` carries from the literal buffer `lits`, then its match
/// at the packed distance `pd`, zero repeating the last distance.
pub open spec fn lz_step(s: LzState, lits: Seq<u8>, t: (nat, nat, nat)) -> Result<LzState, Error> {
    let (o, li, d, mb) = s;
    let (l, m, pd) = t;
    let li2 = li + l;
    let d2 = if pd != 0 {
        pd
    } else {
        d
    };
    if li2 > LITERALS_PER_BLOCK {
        Err(Error::Fse(FseErrorKind::BadLmdPayload))
    } else {
        let o2 = o + lits.subrange(li as int, li2 as int);
        if m == 0 {
            Ok((o2, li2, d2, mb))
        } else if d2 == 0 || d2 > o2.len() {
            Err(Error::BadDValue)
        } else {
            Ok((lz_match(o2, m, d2), li2, d2, mb + m))
        }
    }
}

/// LZ decoding of the triples `t` from state `s`: the state after them, or the first error.
pub open spec fn lz_run(s: LzState, lits: Seq<u8>, t: Seq<(nat, nat, nat)>) -> Result<LzState, Error>
    decreases t.len(),
{
    if t.len() == 0 {
        Ok(s)
    } else {
        match lz_run(s, lits, t.drop_last()) {
            Ok(s1) => lz_step(s1, lits, t.last()),
            Err(e) => Err(e),
        }
    }
}

/// LZ decoding only appends to its output.
pub proof fn lemma_lz_run_prefix(s: LzState, lits: Seq<u8>, t: Seq<(nat, nat, nat)>)
    requires
        lz_run(s, lits, t) is Ok,
    ensures
        lz_run(s, lits, t)->Ok_0.0.len() >= s.0.len(),
        lz_run(s, lits, t)->Ok_0.0.subrange(0, s.0.len() as int) == s.0,
    decreases t.len(),
{
    if t.len() > 0 {
        lemma_lz_run_prefix(s, lits, t.drop_last());
        let s1 = lz_run(s, lits, t.drop_last())->Ok_0;
        let (o, li, d, mb) = s1;
        let (l, m, pd) = t.last();
        let li2 = li + l;
        let d2 = if pd != 0 { pd } else { d };
        let o2 = o + lits.subrange(li as int, li2 as int);
        assert(o2.subrange(0, s.0.len() as int) =~= o.subrange(0, s.0.len() as int));
        if m != 0 {
            crate::lz::lemma_lz_match_len(o2, m, d2);
            assert(lz_match(o2, m, d2).subrange(0, s.0.len() as int) =~= lz_match(o2, m, d2).subrange(0, o2.len() as int).subrange(0, s.0.len() as int));
        }
    }
}

/// An error part way through stays the error of the whole run.
pub proof fn lemma_lz_run_err(s: LzState, lits: Seq<u8>, t: Seq<(nat, nat, nat)>, j: int)
    requires
        0 <= j <= t.len(),
        lz_run(s, lits, t.subrange(0, j)) is Err,
    ensures
        lz_run(s, lits, t) == lz_run(s, lits, t.subrange(0, j)),
    decreases t.len(),
{
    if j < t.len() {
        assert(t.drop_last().subrange(0, j) =~= t.subrange(0, j));
        lemma_lz_run_err(s, lits, t.drop_last(), j);
    } else {
        assert(t.subrange(0, j) =~= t);
    }
}

/// Decoding fewer triples gives a prefix.
pub proof fn lemma_lmd_dec_prefix(
    w: Seq<u16>,
    st: Seq<nat>,
    rv: nat,
    rl: int,
    j: nat,
    k: nat,
)
    requires
        j <= k,
    ensures
        lmd_dec(w, st, rv, rl, k).0.subrange(0, j as int) == lmd_dec(w, st, rv, rl, j).0,
    decreases k,
{
    lemma_lmd_dec_mono(w, st, rv, rl, j, k);
    if j < k {
        lemma_lmd_dec_prefix(w, st, rv, rl, j, (k - 1) as nat);
        lemma_lmd_dec_mono(w, st, rv, rl, j, (k - 1) as nat);
        let a = lmd_dec(w, st, rv, rl, k).0;
        let b = lmd_dec(w, st, rv, rl, (k - 1) as nat).0;
        assert(a.subrange(0, j as int) =~= b.subrange(0, j as int));
    } else {
        assert(lmd_dec(w, st, rv, rl, k).0.subrange(0, j as int) =~= lmd_dec(w, st, rv, rl, k).0);
    }
}

/// Cuts `n` bytes off the front of `src`, failing on a short input.
fn take(src: &[u8], n: usize) -> (r: crate::Result<&[u8]>)
    ensures
        src@.len() < n ==> r == Err::<&[u8], Error>(Error::PayloadUnderflow),
        src@.len() >= n ==> (r matches Ok(p) && p@ == src@.subrange(0, n as int)),
{
    if src.len() < n {
        Err(Error::PayloadUnderflow)
    } else {
        Ok(vstd::slice::slice_subrange(src, 0, n))
    }
}

/// FSE block decoder.
pub struct FseCore {
    decoder: Decoder,
    literals: Literals,
    lmds: Lmds,
    block: FseBlock,
    weights: Weights,
    literal_index: u32,
    lmd_index: u32,
    mark: u64,
    match_distance: u32,
}

impl FseCore {
    /// Internal consistency.
    pub closed spec fn wf(&self) -> bool {
        &&& self.decoder.wf()
        &&& self.literals.wf()
        &&& self.lmds.wf()
        &&& self.weights.wf()
    }

    /// The weights the decoder tables were built from.
    pub closed spec fn decoder_weights(&self) -> Seq<u16> {
        self.decoder.weights()
    }

    /// The block parameters loaded.
    pub closed spec fn block(&self) -> super::block::BlockView {
        self.block@
    }

    /// The weights loaded.
    pub closed spec fn weights(&self) -> Seq<u16> {
        self.weights@
    }

    /// The literal buffer.
    pub closed spec fn literal_buffer(&self) -> Seq<u8> {
        self.literals.buffer()
    }

    /// The literals loaded.
    pub closed spec fn literals(&self) -> Seq<u8> {
        self.literals@
    }

    /// The literal buffer has its full size, whatever was loaded.
    pub proof fn lemma_literal_buffer_len(&self)
        requires
            self.wf(),
        ensures
            self.literal_buffer().len() == super::literals::BUF_LEN,
    {
        self.literals.lemma_buffer_len();
    }

    /// The literals loaded start the literal buffer.
    pub proof fn lemma_literals_prefix(&self)
        requires
            self.wf(),
        ensures
            self.literals().len() <= self.literal_buffer().len(),
            self.literal_buffer() == self.literals() + self.literal_buffer().subrange(
                self.literals().len() as int,
                self.literal_buffer().len() as int,
            ),
    {
        self.literals.lemma_buffer_len();
        assert(self.literal_buffer() =~= self.literals() + self.literal_buffer().subrange(
            self.literals().len() as int,
            self.literal_buffer().len() as int,
        ));
    }

    /// Loads a V1 block header and its weights from `src`, which starts with the V1 magic bytes:
    /// returns the bytes consumed, up to 8 bytes before the literal payload.
    pub fn load_v1(&mut self, src: &[u8]) -> (r: crate::Result<u32>)
        requires
            old(self).wf(),
            src@.len() >= 4,
            le_u32(src@, 0) == BM_VX1,
        ensures
            final(self).wf(),
            src@.len() < V1_HEADER_SIZE ==> r == Err::<u32, Error>(Error::PayloadUnderflow),
            src@.len() >= V1_HEADER_SIZE ==> {
                let h = src@.subrange(0, V1_HEADER_SIZE as int);
                let p = src@.subrange(V1_HEADER_SIZE as int, (V1_HEADER_SIZE + V1_WEIGHT_PAYLOAD_BYTES) as int);
                &&& v1_result(h) matches Err(e) ==> r == Err::<u32, Error>(e)
                &&& v1_result(h) is Ok && src@.len() < V1_HEADER_SIZE + V1_WEIGHT_PAYLOAD_BYTES
                    ==> r == Err::<u32, Error>(Error::PayloadUnderflow)
                &&& v1_result(h) is Ok && src@.len() >= V1_HEADER_SIZE + V1_WEIGHT_PAYLOAD_BYTES
                    ==> {
                    &&& v1_load_result(p) matches Err(e) ==> r == Err::<u32, Error>(e)
                    &&& v1_load_result(p) is Ok ==> r == Ok::<u32, Error>(
                        764u32,
                    ) && final(self).block() == v1_view(h) && final(self).weights() == v1_weights(p)
                        && final(self).decoder_weights() == v1_weights(p)
                }
            },
    {
        let h = take(src, V1_HEADER_SIZE as usize)?;
        let (nh, nw) = self.block.load_v1(h)?;
        let rest = vstd::slice::slice_subrange(src, V1_HEADER_SIZE as usize, src.len());
        let p = take(rest, V1_WEIGHT_PAYLOAD_BYTES as usize)?;
        proof {
            assert(p@ == src@.subrange(V1_HEADER_SIZE as int, (V1_HEADER_SIZE + V1_WEIGHT_PAYLOAD_BYTES) as int));
        }
        self.weights.load_v1(p)?;
        self.decoder.init(&self.weights);
        Ok(nh + nw - 8)
    }

    /// Loads a V2 block header and its weights from `src`, which starts with the V2 magic bytes:
    /// returns the bytes consumed, up to 8 bytes before the literal payload.
    pub fn load_v2(&mut self, src: &[u8]) -> (r: crate::Result<u32>)
        requires
            old(self).wf(),
            src@.len() >= 4,
            le_u32(src@, 0) == BM_VX2,
        ensures
            final(self).wf(),
            src@.len() < V2_HEADER_SIZE ==> r == Err::<u32, Error>(Error::PayloadUnderflow),
            src@.len() >= V2_HEADER_SIZE ==> {
                let h = src@.subrange(0, V2_HEADER_SIZE as int);
                &&& v2_result(h) matches Err(e) ==> r == Err::<u32, Error>(e)
                &&& v2_result(h) matches Ok((nh, nw)) ==> {
                    let p = src@.subrange(V2_HEADER_SIZE as int, (V2_HEADER_SIZE + nw) as int);
                    &&& src@.len() < V2_HEADER_SIZE + nw ==> r == Err::<u32, Error>(
                        Error::PayloadUnderflow,
                    )
                    &&& src@.len() >= V2_HEADER_SIZE + nw ==> {
                        &&& v2_load_result(p) matches Err(e) ==> r == Err::<u32, Error>(e)
                        &&& v2_load_result(p) is Ok ==> r == Ok::<u32, Error>(
                            (V2_HEADER_SIZE + nw - 8) as u32,
                        ) && final(self).block() == v2_view(h) && final(self).weights()
                            == v2_weights(p).0 && final(self).decoder_weights() == v2_weights(p).0
                    }
                }
            },
    {
        let h = take(src, V2_HEADER_SIZE as usize)?;
        let (nh, nw) = self.block.load_v2(h)?;
        let rest = vstd::slice::slice_subrange(src, V2_HEADER_SIZE as usize, src.len());
        let p = take(rest, nw as usize)?;
        proof {
            assert(p@ == src@.subrange(V2_HEADER_SIZE as int, (V2_HEADER_SIZE + nw) as int));
        }
        self.weights.load_v2(p)?;
        self.decoder.init(&self.weights);
        Ok(nh + nw - 8)
    }
}


/// The outcome of decoding a block's triples: the LZ run's error, or the block checks on the
/// literal count, the raw byte count and the final states.
/// The errors decoding an LMD payload can end in: a bit stream whose top bits are not clear,
/// a payload read past its start, a triple that overruns the literals or the block, or a
/// match distance that reaches before the output.
pub open spec fn lmd_error(e: Error) -> bool {
    ||| e == Error::BadBitStream
    ||| e == Error::PayloadUnderflow
    ||| e == Error::Fse(FseErrorKind::BadLmdPayload)
    ||| e == Error::BadDValue
}

pub open spec fn decode_outcome(
    lz: Result<LzState, Error>,
    st: Seq<nat>,
    b: super::block::BlockView,
) -> Result<(), Error> {
    match lz {
        Err(e) => Err(e),
        Ok((o, li, d, mb)) => if li <= b.0.0 && mb + li == b.2 && st == seq![0nat, 0nat, 0nat] {
            Ok(())
        } else {
            Err(Error::Fse(FseErrorKind::BadLmdPayload))
        },
    }
}

impl FseCore {
    /// Decodes the literal payload, with the 8 bytes before it, from the front of `src`:
    /// returns the bytes consumed.
    pub fn load_literals(&mut self, src: &[u8]) -> (r: crate::Result<u32>)
        requires
            old(self).wf(),
        ensures
            final(self).wf(),
            final(self).block() == old(self).block(),
            final(self).decoder_weights() == old(self).decoder_weights(),
            r matches Ok(k) ==> k == old(self).block().0.1 + 8,
            ({
                let n = old(self).block().0.1 + 8;
                let p = src@.subrange(0, n as int);
                let w = super::weights::u_part(old(self).decoder_weights());
                &&& src@.len() < n ==> r == Err::<u32, Error>(Error::PayloadUnderflow)
                &&& src@.len() >= n ==> {
                    &&& super::literals::lit_load_result(w, p, old(self).block().0) matches Err(e)
                        ==> r == Err::<u32, Error>(e)
                    &&& super::literals::lit_load_result(w, p, old(self).block().0) is Ok ==> r
                        == Ok::<u32, Error>(n as u32) && final(self).literals()
                        == super::literals::lit_run(w, p, old(self).block().0).0
                }
            }),
    {
        let num = self.block.literal().num();
        let npb = self.block.literal().n_payload_bytes();
        proof {
            assert(npb <= 1024 + (40000 * 10 + 7) / 8) by (nonlinear_arith)
                requires npb <= 1024 + (num * 10 + 7) / 8, num <= 40000;
        }
        let n = npb + 8;
        let p = take(src, n as usize)?;
        self.literals.load(p, &self.decoder, self.block.literal())?;
        Ok(n)
    }

    /// Decodes the LMD payload from the front of `src` into the triple buffer: returns the bytes
    /// consumed.
    pub fn load_lmds(&mut self, src: &[u8]) -> (r: crate::Result<u32>)
        requires
            old(self).wf(),
            old(self).block().1.1 >= 8,
        ensures
            final(self).wf(),
            final(self).block() == old(self).block(),
            final(self).decoder_weights() == old(self).decoder_weights(),
            final(self).literals() == old(self).literals(),
            final(self).literal_buffer() == old(self).literal_buffer(),
            ({
                let n = old(self).block().1.1;
                let p = src@.subrange(0, n as int);
                let w = old(self).decoder_weights();
                &&& src@.len() < n ==> r == Err::<u32, Error>(Error::PayloadUnderflow)
                &&& src@.len() >= n ==> {
                    &&& super::lmds::lmd_load_result(w, p, old(self).block().1) matches Err(e)
                        ==> r == Err::<u32, Error>(e)
                    &&& super::lmds::lmd_load_result(w, p, old(self).block().1) is Ok ==> r
                        == Ok::<u32, Error>(n) && final(self).triples() == lmd_run(
                        w,
                        p,
                        old(self).block().1,
                    ).0
                }
            }),
    {
        let n = self.block.lmd().n_payload_bytes();
        let p = take(src, n as usize)?;
        self.lmds.load(p, &self.decoder, self.block.lmd())?;
        Ok(n)
    }
}


/// What one LZ step leaves: the new LZ state, or the error.
pub open spec fn lz_step_post(
    r: Result<(), Error>,
    s: LzState,
    lits: Seq<u8>,
    t: (nat, nat, nat),
    o: Seq<u8>,
    li: nat,
    d: nat,
    mb: nat,
) -> bool {
    match lz_step(s, lits, t) {
        Ok(s2) => r is Ok && s2 == (o, li, d, mb),
        Err(e) => r == Err::<(), Error>(e),
    }
}

impl FseCore {
    /// Decodes one triple from `reader` and writes its literals and match to `dst`.
    #[verifier::rlimit(40)]
    fn decode_one<O: LzWriter>(
        &self,
        dst: &mut O,
        reader: &mut BitReader,
        sl: &mut u32,
        sm: &mut u32,
        sd: &mut u32,
        literal_index: &mut u32,
        match_distance: &mut u32,
        n_match_bytes: &mut u32,
    ) -> (r: crate::Result<()>)
        requires
            self.wf(),
            old(reader).inv(),
            old(reader).pending() >= 56,
            *old(sl) < L_STATES,
            *old(sm) < M_STATES,
            *old(sd) < D_STATES,
            *old(literal_index) <= LITERALS_PER_BLOCK,
            *old(n_match_bytes) <= 10000 * 2359,
        ensures
            final(reader).inv(),
            final(reader).src() == old(reader).src(),
            final(reader).pending() >= 56,
            *final(sl) < L_STATES,
            *final(sm) < M_STATES,
            *final(sd) < D_STATES,
            r matches Err(e) ==> e == Error::Fse(FseErrorKind::BadLmdPayload) || e == Error::BadDValue,
            r is Ok ==> *final(literal_index) <= LITERALS_PER_BLOCK,
            r is Ok ==> *final(n_match_bytes) <= *old(n_match_bytes) + 2359,
            final(reader).exact() ==> old(reader).exact(),
            ({
                let one = super::lmds::lmd_dec_one(
                    self.decoder_weights(),
                    seq![*old(sl) as nat, *old(sm) as nat, *old(sd) as nat],
                    old(reader).rem_value(),
                    old(reader).rem_len(),
                );
                &&& old(reader).exact() && one.3 >= 56 ==> final(reader).exact()
                &&& final(reader).exact() ==> {
                    &&& final(reader).rem_value() == one.2
                    &&& final(reader).rem_len() == one.3
                    &&& seq![*final(sl) as nat, *final(sm) as nat, *final(sd) as nat] == one.1
                    &&& lz_step_post(
                        r,
                        (
                            old(dst).written(),
                            *old(literal_index) as nat,
                            *old(match_distance) as nat,
                            *old(n_match_bytes) as nat,
                        ),
                        self.literal_buffer(),
                        one.0,
                        final(dst).written(),
                        *final(literal_index) as nat,
                        *final(match_distance) as nat,
                        *final(n_match_bytes) as nat,
                    )
                }
            }),
    {
        proof {
            super::decoder::lemma_state_counts();
            self.literals.lemma_buffer_len();
        }
        let l = self.decoder.l(reader, sl);
        let m = self.decoder.m(reader, sm);
        let d = self.decoder.d(reader, sd);
        reader.flush();
        if d != 0 {
            *match_distance = d;
        }
        let li2 = *literal_index + l;
        if li2 <= LITERALS_PER_BLOCK {
            let bytes = self.literals.buffer_range(*literal_index as usize, li2 as usize);
            let _ = dst.write_bytes(bytes);
            *literal_index = li2;
            if m != 0 {
                let res = dst.write_match(m, *match_distance);
                if res.is_err() {
                    return Err(Error::BadDValue);
                }
                *n_match_bytes = *n_match_bytes + m;
            }
            Ok(())
        } else {
            Err(Error::Fse(FseErrorKind::BadLmdPayload))
        }
    }
}


impl FseCore {
    /// Decodes the LMD payload `src` and writes the block it describes to `dst`: the literals
    /// from the literal buffer and the matches.
    #[verifier::rlimit(60)]
    fn decode_internal<O: LzWriter>(&self, dst: &mut O, src: &[u8]) -> (r: crate::Result<()>)
        requires
            self.wf(),
            src@.len() >= 8,
        ensures
            ({
                let w = self.decoder_weights();
                let run = lmd_run(w, src@, self.block().1);
                let lz = lz_run((old(dst).written(), 0, 0, 0), self.literal_buffer(), run.0);
                &&& bytes_value(src@) >= vstd::arithmetic::power2::pow2(
                    (8 * src@.len() - self.block().1.2) as nat,
                ) ==> r == Err::<(), Error>(Error::BadBitStream)
                &&& bytes_value(src@) < vstd::arithmetic::power2::pow2(
                    (8 * src@.len() - self.block().1.2) as nat,
                ) && run.3 >= 64 ==> {
                    &&& r == decode_outcome(lz, run.1, self.block())
                    &&& r is Ok ==> final(dst).written() == lz->Ok_0.0
                }
                &&& run.3 < 64 ==> (r matches Err(e) && lmd_error(e))
            }),
            r matches Err(e) ==> lmd_error(e),
    {
        let ghost w = self.decoder.weights();
        let ghost lits = self.literals.buffer();
        let ghost st0 = lmd_start(self.block@.1.3);
        let ghost rv0 = bytes_value(src@);
        let ghost rl0 = 8 * src@.len() - self.block@.1.2;
        let ghost run = lmd_run(w, src@, self.block@.1);
        let ghost s0: LzState = (dst.written(), 0nat, 0nat, 0nat);
        let lmd = self.block.lmd();
        let mut reader = BitReader::new(ByteBits::new(src), lmd.bits() as usize)?;
        let state = lmd.state();
        let mut sl: u32 = state[0] as u32;
        let mut sm: u32 = state[1] as u32;
        let mut sd: u32 = state[2] as u32;
        let n_lmds = lmd.num();
        let mut literal_index: u32 = 0;
        let mut n_match_bytes: u32 = 0;
        let mut match_distance: u32 = 0;
        let mut i: u32 = 0;
        proof {
            assert(st0 =~= seq![sl as nat, sm as nat, sd as nat]);
            lemma_lmd_dec_mono(w, st0, rv0, rl0, n_lmds as nat, n_lmds as nat);
        }
        while i != n_lmds
            invariant
                self.wf(),
                w == self.decoder_weights(),
                lits == self.literal_buffer(),
                run == lmd_dec(w, st0, rv0, rl0, n_lmds as nat),
                run == lmd_run(w, src@, self.block@.1),
                rv0 == bytes_value(src@),
                rv0 < vstd::arithmetic::power2::pow2((8 * src@.len() - self.block@.1.2) as nat),
                run.0.len() == n_lmds,
                n_lmds <= super::constants::LMDS_PER_BLOCK,
                i <= n_lmds,
                literal_index <= LITERALS_PER_BLOCK,
                n_match_bytes <= i * 2359,
                reader.inv(),
                reader.src() == src@,
                reader.pending() >= 56,
                sl < L_STATES,
                sm < M_STATES,
                sd < D_STATES,
                s0 == (old(dst).written(), 0nat, 0nat, 0nat),
                ({
                    let (out, st, rv, rl) = lmd_dec(w, st0, rv0, rl0, i as nat);
                    &&& reader.exact() ==> {
                        &&& reader.rem_value() == rv
                        &&& reader.rem_len() == rl
                        &&& st == seq![sl as nat, sm as nat, sd as nat]
                        &&& lz_run(s0, lits, out) == Ok::<LzState, Error>(
                            (
                                dst.written(),
                                literal_index as nat,
                                match_distance as nat,
                                n_match_bytes as nat,
                            ),
                        )
                    }
                    &&& run.3 >= 64 ==> reader.exact()
                }),
            decreases n_lmds - i,
        {
            let ghost prev = lmd_dec(w, st0, rv0, rl0, i as nat);
            let ghost next = lmd_dec(w, st0, rv0, rl0, (i + 1) as nat);
            proof {
                lemma_lmd_dec_mono(w, st0, rv0, rl0, (i + 1) as nat, n_lmds as nat);
                lemma_lmd_dec_mono(w, st0, rv0, rl0, i as nat, i as nat);
                lemma_lmd_dec_prefix(w, st0, rv0, rl0, (i + 1) as nat, n_lmds as nat);
                assert(next.0.drop_last() =~= prev.0);
                assert(n_match_bytes <= 10000 * 2359) by (nonlinear_arith)
                    requires n_match_bytes <= i * 2359, i <= 10000;
            }
            let ghost o_old = dst.written();
            let ghost li_old = literal_index as nat;
            let ghost d_old = match_distance as nat;
            let ghost mb_old = n_match_bytes as nat;
            let ghost one = super::lmds::lmd_dec_one(w, prev.1, prev.2, prev.3);
            proof {
                assert(next.0 == prev.0.push(one.0));
                assert(next.0.drop_last() =~= prev.0);
                assert(next.0.last() == one.0);
            }
            let res = self.decode_one(
                dst,
                &mut reader,
                &mut sl,
                &mut sm,
                &mut sd,
                &mut literal_index,
                &mut match_distance,
                &mut n_match_bytes,
            );
            if res.is_err() {
                proof {
                    if run.3 >= 64 {
                        assert(lz_run(s0, lits, prev.0) == Ok::<LzState, Error>((o_old, li_old, d_old, mb_old)));
                        assert(lz_run(s0, lits, next.0) == lz_step((o_old, li_old, d_old, mb_old), lits, one.0));
                        assert(lz_run(s0, lits, next.0) == Err::<LzState, Error>(res->Err_0));
                        assert(run.0.subrange(0, i + 1) == next.0);
                        lemma_lz_run_err(s0, lits, run.0, (i + 1) as int);
                        assert(lz_run(s0, lits, run.0) == Err::<LzState, Error>(res->Err_0));
                        assert(decode_outcome(lz_run(s0, lits, run.0), run.1, self.block@) == res);
                    }
                }
                return res;
            }
            proof {
                assert((i + 1) * 2359 == i * 2359 + 2359) by (nonlinear_arith);
            }
            i = i + 1;
        }
        reader.finalize()?;
        proof {
            assert(run.0.subrange(0, n_lmds as int) =~= run.0);
        }
        if literal_index <= self.block.literal().num() && n_match_bytes + literal_index
            == self.block.n_raw_bytes() && sl == 0 && sm == 0 && sd == 0 {
            proof {
                assert(run.1 =~= seq![0nat, 0nat, 0nat]);
            }
            Ok(())
        } else {
            proof {
                if run.1 == seq![0nat, 0nat, 0nat] {
                    assert(run.1[0] == 0 && run.1[1] == 0 && run.1[2] == 0);
                }
            }
            Err(Error::Fse(FseErrorKind::BadLmdPayload))
        }
    }

    /// Decodes the LMD payload from the front of `src` and writes the block to `dst`: returns
    /// the bytes consumed.
    pub fn decode<O: LzWriter>(&mut self, dst: &mut O, src: &[u8]) -> (r: crate::Result<u32>)
        requires
            old(self).wf(),
            old(self).block().1.1 >= 8,
        ensures
            *final(self) == *old(self),
            ({
                let n = old(self).block().1.1;
                let p = src@.subrange(0, n as int);
                let w = old(self).decoder_weights();
                let run = lmd_run(w, p, old(self).block().1);
                let lz = lz_run((old(dst).written(), 0, 0, 0), old(self).literal_buffer(), run.0);
                &&& src@.len() < n ==> r == Err::<u32, Error>(Error::PayloadUnderflow)
                &&& src@.len() >= n && bytes_value(p) >= vstd::arithmetic::power2::pow2(
                    (8 * p.len() - old(self).block().1.2) as nat,
                ) ==> r == Err::<u32, Error>(Error::BadBitStream)
                &&& src@.len() >= n && bytes_value(p) < vstd::arithmetic::power2::pow2(
                    (8 * p.len() - old(self).block().1.2) as nat,
                ) && run.3 >= 64 ==> {
                    &&& decode_outcome(lz, run.1, old(self).block()) matches Err(e) ==> r == Err::<
                        u32,
                        Error,
                    >(e)
                    &&& decode_outcome(lz, run.1, old(self).block()) is Ok ==> r == Ok::<u32, Error>(
                        n,
                    ) && final(dst).written() == lz->Ok_0.0
                }
                &&& src@.len() >= n && run.3 < 64 ==> (r matches Err(e) && lmd_error(e))
            }),
    {
        let n = self.block.lmd().n_payload_bytes();
        let p = take(src, n as usize)?;
        self.decode_internal(dst, p)?;
        Ok(n)
    }
}


/// Incremental LZ decoding of the triples `t` from triple `idx` and state `s`, stopping once
/// the output passes `dst_mark` bytes: the state and triple index reached, or the first error.
/// At the last triple the block checks on the literal count and the raw byte count since
/// `mark` apply.
pub open spec fn lz_stream(
    s: LzState,
    lits: Seq<u8>,
    t: Seq<(nat, nat, nat)>,
    idx: nat,
    dst_mark: nat,
    lit_num: nat,
    n_raw: nat,
    mark: nat,
) -> Result<(LzState, nat), Error>
    decreases t.len() - idx,
{
    if s.0.len() > dst_mark {
        Ok((s, idx))
    } else if idx >= t.len() {
        if s.1 <= lit_num && (s.0.len() - mark) % 0x1_0000_0000 == n_raw {
            Ok((s, idx))
        } else {
            Err(Error::Fse(FseErrorKind::BadLmdPayload))
        }
    } else {
        match lz_step(s, lits, t[idx as int]) {
            Ok(s2) => lz_stream(s2, lits, t, idx + 1, dst_mark, lit_num, n_raw, mark),
            Err(e) => Err(e),
        }
    }
}

impl FseCore {
    /// The triples loaded.
    pub closed spec fn triples(&self) -> Seq<(nat, nat, nat)> {
        self.lmds.triples()
    }

    /// Position of incremental decoding: literal index, triple index, match distance, and the
    /// output length when it started.
    pub closed spec fn position(&self) -> (nat, nat, nat, nat) {
        (self.literal_index as nat, self.lmd_index as nat, self.match_distance as nat, self.mark as nat)
    }

    /// Starts incremental decoding of the loaded triples into `dst`.
    pub fn decode_n_init<O: LzWriter>(&mut self, dst: &O)
        requires
            old(self).wf(),
        ensures
            final(self).wf(),
            final(self).block() == old(self).block(),
            final(self).triples() == old(self).triples(),
            final(self).literal_buffer() == old(self).literal_buffer(),
            final(self).position() == (0nat, 0nat, 0nat, dst.written().len()),
    {
        self.literal_index = 0;
        self.lmd_index = 0;
        self.mark = dst.n_raw_bytes();
        self.match_distance = 0;
    }

    /// Decodes loaded triples into `dst` until it passes `dst_mark` bytes or the block ends.
    #[verifier::rlimit(40)]
    fn decode_n_internal<O: LzWriter>(&mut self, dst: &mut O, dst_mark: u64) -> (r: crate::Result<()>)
        requires
            old(self).wf(),
            old(self).position().1 <= old(self).triples().len(),
            old(self).position().0 <= LITERALS_PER_BLOCK,
            old(self).position().3 <= old(dst).written().len(),
        ensures
            final(self).wf(),
            final(self).block() == old(self).block(),
            final(self).triples() == old(self).triples(),
            final(self).literal_buffer() == old(self).literal_buffer(),
            ({
                let (li, k, d, mark) = old(self).position();
                let res = lz_stream(
                    (old(dst).written(), li, d, 0),
                    old(self).literal_buffer(),
                    old(self).triples(),
                    k,
                    dst_mark as nat,
                    old(self).block().0.0 as nat,
                    old(self).block().2 as nat,
                    mark,
                );
                &&& res matches Err(e) ==> r == Err::<(), Error>(e)
                &&& res matches Ok((s2, k2)) ==> {
                    &&& r is Ok
                    &&& final(dst).written() == s2.0
                    &&& final(self).position() == (s2.1, k2, s2.2, mark)
                }
            }),
            r is Ok ==> final(self).position().1 <= final(self).triples().len()
                && final(self).position().0 <= LITERALS_PER_BLOCK && final(self).position().3
                <= final(dst).written().len(),
    {
        let ghost lits = self.literals.buffer();
        let ghost t = self.lmds.triples();
        let ghost mark = self.mark as nat;
        let ghost lit_num = self.block@.0.0 as nat;
        let ghost n_raw = self.block@.2 as nat;
        let ghost target = lz_stream(
            (dst.written(), self.literal_index as nat, self.match_distance as nat, 0),
            lits,
            t,
            self.lmd_index as nat,
            dst_mark as nat,
            lit_num,
            n_raw,
            mark,
        );
        let mut literal_index = self.literal_index;
        let mut lmd_index = self.lmd_index;
        let mut match_distance = self.match_distance;
        let ghost mut mb: nat = 0;
        let n_lmds = self.lmds.len();
        proof {
            self.literals.lemma_buffer_len();
        }
        while dst.n_raw_bytes() <= dst_mark
            invariant
                *self == *old(self),
                self.wf(),
                lits == self.literals.buffer(),
                lits.len() == super::literals::BUF_LEN,
                t == self.lmds.triples(),
                n_lmds == t.len(),
                t.len() <= super::constants::LMDS_PER_BLOCK,
                lmd_index <= n_lmds,
                literal_index <= LITERALS_PER_BLOCK,
                mark == self.mark,
                mark <= dst.written().len(),
                lit_num == self.block@.0.0,
                n_raw == self.block@.2,
                target == lz_stream(
                    (old(dst).written(), old(self).position().0, old(self).position().2, 0),
                    old(self).literal_buffer(),
                    old(self).triples(),
                    old(self).position().1,
                    dst_mark as nat,
                    old(self).block().0.0 as nat,
                    old(self).block().2 as nat,
                    old(self).position().3,
                ),
                target == lz_stream(
                    (dst.written(), literal_index as nat, match_distance as nat, mb),
                    lits,
                    t,
                    lmd_index as nat,
                    dst_mark as nat,
                    lit_num,
                    n_raw,
                    mark,
                ),
            ensures
                dst.written().len() > dst_mark || (lmd_index == n_lmds && literal_index <= lit_num
                    && (dst.written().len() - mark) % 0x1_0000_0000 == n_raw),
            decreases n_lmds - lmd_index,
        {
            let ghost cur: LzState = (dst.written(), literal_index as nat, match_distance as nat, mb);
            if lmd_index as usize == n_lmds {
                let n = dst.n_raw_bytes() - self.mark;
                let n32 = (n % 0x1_0000_0000) as u32;
                if literal_index <= self.block.literal().num() && n32 == self.block.n_raw_bytes() {
                    break;
                } else {
                    return Err(Error::Fse(FseErrorKind::BadLmdPayload));
                }
            }
            let p = self.lmds.get(lmd_index as usize);
            let l = p.0.get() as u32;
            let m = p.1.get() as u32;
            let d = p.2.get();
            if d != 0 {
                match_distance = d;
            }
            let li2 = literal_index + l;
            if li2 <= LITERALS_PER_BLOCK {
                let bytes = self.literals.buffer_range(literal_index as usize, li2 as usize);
                let _ = dst.write_bytes(bytes);
                literal_index = li2;
                if m != 0 {
                    let res = dst.write_match(m, match_distance);
                    if res.is_err() {
                        proof {
                            assert(dst.written() == cur.0 + bytes@);
                            assert(lz_step(cur, lits, t[lmd_index as int]) == Err::<LzState, Error>(Error::BadDValue));
                        }
                        return Err(Error::BadDValue);
                    }
                    proof {
                        mb = mb + m as nat;
                        crate::lz::lemma_lz_match_len(cur.0 + bytes@, m as nat, match_distance as nat);
                    }
                }
            } else {
                return Err(Error::Fse(FseErrorKind::BadLmdPayload));
            }
            lmd_index = lmd_index + 1;
        }
        self.literal_index = literal_index;
        self.lmd_index = lmd_index;
        self.match_distance = match_distance;
        Ok(())
    }
}


impl FseCore {
    /// Decodes loaded triples into `dst` until it grows by more than `n` bytes or the block
    /// ends: returns whether triples remain.
    pub fn decode_n<O: LzWriter>(&mut self, dst: &mut O, n: u32) -> (r: crate::Result<bool>)
        requires
            old(self).wf(),
            old(self).position().1 <= old(self).triples().len(),
            old(self).position().0 <= LITERALS_PER_BLOCK,
            old(self).position().3 <= old(dst).written().len(),
            old(dst).written().len() + n <= u64::MAX,
        ensures
            final(self).wf(),
            final(self).block() == old(self).block(),
            final(self).triples() == old(self).triples(),
            final(self).literal_buffer() == old(self).literal_buffer(),
            ({
                let (li, k, d, mark) = old(self).position();
                let res = lz_stream(
                    (old(dst).written(), li, d, 0),
                    old(self).literal_buffer(),
                    old(self).triples(),
                    k,
                    (old(dst).written().len() + n) as nat,
                    old(self).block().0.0 as nat,
                    old(self).block().2 as nat,
                    mark,
                );
                &&& res matches Err(e) ==> r == Err::<bool, Error>(e)
                &&& res matches Ok((s2, k2)) ==> {
                    &&& r == Ok::<bool, Error>(k2 != old(self).block().1.0)
                    &&& final(dst).written() == s2.0
                    &&& final(self).position() == (s2.1, k2, s2.2, mark)
                }
            }),
            r is Ok ==> final(self).position().1 <= final(self).triples().len()
                && final(self).position().0 <= LITERALS_PER_BLOCK && final(self).position().3
                <= final(dst).written().len(),
    {
        let dst_mark = dst.n_raw_bytes() + n as u64;
        self.decode_n_internal(dst, dst_mark)?;
        Ok(self.lmd_index != self.block.lmd().num())
    }
}


impl Default for FseCore {
    fn default() -> (r: Self)
        ensures
            r.wf(),
    {
        FseCore {
            decoder: Decoder::default(),
            literals: Literals::default(),
            lmds: Lmds::default(),
            block: FseBlock::default(),
            weights: Weights::default(),
            literal_index: 0,
            lmd_index: 0,
            mark: 0,
            match_distance: 0,
        }
    }
}

} // verus!
