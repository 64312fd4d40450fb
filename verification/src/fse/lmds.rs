use vstd::prelude::*;
use vstd::arithmetic::power2::pow2;

use crate::bits::bit_reader::BitReader;
use crate::bits::bit_writer::BitWriter;
use crate::bits::byte_bits::ByteBits;
use crate::bits::model::bytes_value;
use crate::error::{Error, FseErrorKind};
use crate::lmd::LmdPack;

use super::block::{LmdParam, lmd_limit, lmd_param_error};
use super::constants::{D_STATES, LMDS_PER_BLOCK, L_STATES, M_STATES};
use super::decoder::{Decoder, dec_step, sym_base, sym_extra, KIND_D, KIND_L, KIND_M};
use super::encoder::{Encoder, enc_step};
use super::literals::push_bits;
use super::tables::{d_base, d_extra, d_sym, l_base, l_extra, l_sym, m_base, m_extra, m_sym};
use super::weights::{d_part, l_part, m_part};

verus! {

/// The values of a packed triple.
pub open spec fn triple(p: LmdPack) -> (nat, nat, nat) {
    (p.0.value() as nat, p.1.value() as nat, p.2.value() as nat)
}

/// The values of packed triples.
pub open spec fn triples_of(s: Seq<LmdPack>) -> Seq<(nat, nat, nat)> {
    s.map_values(|p: LmdPack| triple(p))
}

/// Encoding value `v` of symbol `sym` (base `base`, `xb` extra bits) from state `s` over
/// weights `w` and `n` states onto the stream `(vv, l)`: the next state and the stream.
pub open spec fn enc_value(
    w: Seq<u16>,
    n: u32,
    sym: nat,
    base: nat,
    xb: nat,
    v: nat,
    s: nat,
    vv: nat,
    l: nat,
) -> (nat, nat, nat) {
    let (next, b, nb) = enc_step(w, n, sym, s);
    let (v1, l1) = push_bits(vv, l, (v - base) as nat, xb);
    let (v2, l2) = push_bits(v1, l1, b, nb);
    (next, v2, l2)
}

/// Encoding the last `k` triples of `t`, last first, distance then match length then literal
/// length: the three states and the bit stream `(value, width)`.
pub open spec fn lmd_enc(w: Seq<u16>, t: Seq<(nat, nat, nat)>, k: nat) -> (Seq<nat>, nat, nat)
    decreases k,
{
    if k == 0 {
        (seq![L_STATES as nat, M_STATES as nat, D_STATES as nat], 0, 0)
    } else {
        let (st, v, l) = lmd_enc(w, t, (k - 1) as nat);
        let (ll, mm, dd) = t[t.len() - k];
        let (sd, vd, ld) = enc_value(
            d_part(w),
            D_STATES,
            d_sym(dd),
            d_base(d_sym(dd)),
            d_extra(d_sym(dd)),
            dd,
            st[2],
            v,
            l,
        );
        let (sm, vm, lm) = enc_value(
            m_part(w),
            M_STATES,
            m_sym(mm),
            m_base(m_sym(mm)),
            m_extra(m_sym(mm)),
            mm,
            st[1],
            vd,
            ld,
        );
        let (sl, vl, l_l) = enc_value(
            l_part(w),
            L_STATES,
            l_sym(ll),
            l_base(l_sym(ll)),
            l_extra(l_sym(ll)),
            ll,
            st[0],
            vm,
            lm,
        );
        (seq![sl, sm, sd], vl, l_l)
    }
}

/// Decoding one value over weights `w`, `n` states, of table kind `kind`, from state `st` and
/// the unread stream `(rv, rl)`: the value, the next state and the unread stream.
pub open spec fn dec_value(w: Seq<u16>, n: u32, kind: u8, st: nat, rv: nat, rl: int) -> (
    nat,
    nat,
    nat,
    int,
) {
    let (sym, nb, delta) = dec_step(w, n, st);
    let xb = sym_extra(kind, sym);
    let l1 = rl - nb;
    let l2 = l1 - xb;
    (
        sym_base(kind, sym) + (rv % pow2(l1 as nat)) / pow2(l2 as nat),
        delta + rv / pow2(l1 as nat),
        (rv % pow2(l1 as nat)) % pow2(l2 as nat),
        l2,
    )
}

/// Decoding `k` triples from states `st` and the unread stream `(rv, rl)`: the triples, the
/// states and the unread stream after them.
pub open spec fn lmd_dec(w: Seq<u16>, st: Seq<nat>, rv: nat, rl: int, k: nat) -> (
    Seq<(nat, nat, nat)>,
    Seq<nat>,
    nat,
    int,
)
    decreases k,
{
    if k == 0 {
        (Seq::empty(), st, rv, rl)
    } else {
        let (out, s, v, l) = lmd_dec(w, st, rv, rl, (k - 1) as nat);
        let (t, s2, v2, l2) = lmd_dec_one(w, s, v, l);
        (out.push(t), s2, v2, l2)
    }
}

/// Decoding one triple from states `s` and the unread stream `(v, l)`: the triple, the states
/// and the unread stream after it.
pub open spec fn lmd_dec_one(w: Seq<u16>, s: Seq<nat>, v: nat, l: int) -> (
    (nat, nat, nat),
    Seq<nat>,
    nat,
    int,
) {
    let (a, s0, v0, l0) = dec_value(l_part(w), L_STATES, KIND_L, s[0], v, l);
    let (b, s1, v1, l1) = dec_value(m_part(w), M_STATES, KIND_M, s[1], v0, l0);
    let (c, s2, v2, l2) = dec_value(d_part(w), D_STATES, KIND_D, s[2], v1, l1);
    ((a, b, c), seq![s0, s1, s2], v2, l2)
}

/// The unread width never grows while decoding.
pub proof fn lemma_lmd_dec_mono(w: Seq<u16>, st: Seq<nat>, rv: nat, rl: int, j: nat, k: nat)
    requires
        j <= k,
    ensures
        lmd_dec(w, st, rv, rl, j).3 >= lmd_dec(w, st, rv, rl, k).3,
        lmd_dec(w, st, rv, rl, k).0.len() == k,
    decreases k,
{
    if k > 0 {
        if j < k {
            lemma_lmd_dec_mono(w, st, rv, rl, j, (k - 1) as nat);
        } else {
            lemma_lmd_dec_mono(w, st, rv, rl, (k - 1) as nat, (k - 1) as nat);
        }
    }
}

/// Final encoder states less the state counts.
pub open spec fn lmd_states(st: Seq<nat>) -> Seq<u16> {
    seq![(st[0] - L_STATES) as u16, (st[1] - M_STATES) as u16, (st[2] - D_STATES) as u16]
}

/// Decoder start states of an LMD block.
pub open spec fn lmd_start(state: Seq<u16>) -> Seq<nat> {
    seq![state[0] as nat, state[1] as nat, state[2] as nat]
}

/// The triples, states and unread stream after decoding the LMD block `param` from `src`.
pub open spec fn lmd_run(w: Seq<u16>, src: Seq<u8>, param: (u32, u32, u32, Seq<u16>)) -> (
    Seq<(nat, nat, nat)>,
    Seq<nat>,
    nat,
    int,
) {
    lmd_dec(w, lmd_start(param.3), bytes_value(src), 8 * src.len() - param.2, param.0 as nat)
}

/// The outcome of decoding the LMD block `param` from `src`.
pub open spec fn lmd_load_result(w: Seq<u16>, src: Seq<u8>, param: (u32, u32, u32, Seq<u16>)) -> Result<
    (),
    Error,
> {
    let (out, st, rv, rl) = lmd_run(w, src, param);
    if bytes_value(src) >= pow2((8 * src.len() - param.2) as nat) {
        Err(Error::BadBitStream)
    } else if rl < 64 {
        Err(Error::PayloadUnderflow)
    } else if st != seq![0nat, 0nat, 0nat] {
        Err(Error::Fse(FseErrorKind::BadLmdPayload))
    } else {
        Ok(())
    }
}

/// LMD block buffer.
pub struct Lmds {
    items: Vec<LmdPack>,
    n: usize,
}

impl View for Lmds {
    type V = Seq<LmdPack>;

    /// The triples held.
    closed spec fn view(&self) -> Seq<LmdPack> {
        self.items@.subrange(0, self.n as int)
    }
}

impl Lmds {
    /// Internal consistency: a full-size buffer holding at most a block of triples.
    pub closed spec fn wf(&self) -> bool {
        &&& self.items@.len() == LMDS_PER_BLOCK
        &&& self.n <= LMDS_PER_BLOCK
    }

    /// The values of the triples held.
    pub open spec fn triples(&self) -> Seq<(nat, nat, nat)> {
        triples_of(self@)
    }

    /// Appends `lmd`.
    pub fn push(&mut self, lmd: LmdPack)
        requires
            old(self).wf(),
            old(self)@.len() < LMDS_PER_BLOCK,
        ensures
            final(self).wf(),
            final(self)@ == old(self)@.push(lmd),
    {
        self.items.set(self.n, lmd);
        self.n = self.n + 1;
        proof {
            assert(self@ =~= old(self)@.push(lmd));
        }
    }

    /// Number of triples held.
    pub fn len(&self) -> (r: usize)
        requires
            self.wf(),
        ensures
            r == self@.len(),
            r <= LMDS_PER_BLOCK,
    {
        self.n
    }

    /// Drops every triple.
    pub fn reset(&mut self)
        requires
            old(self).wf(),
        ensures
            final(self).wf(),
            final(self)@ == Seq::<LmdPack>::empty(),
    {
        self.n = 0;
        proof {
            assert(self@ =~= Seq::<LmdPack>::empty());
        }
    }

    /// The triples held.
    pub fn as_slice(&self) -> (r: &[LmdPack])
        requires
            self.wf(),
        ensures
            r@ == self@,
            r@.len() <= LMDS_PER_BLOCK,
    {
        vstd::slice::slice_subrange(self.items.as_slice(), 0, self.n)
    }
}

impl Default for Lmds {
    fn default() -> (r: Self)
        ensures
            r.wf(),
            r@ == Seq::<LmdPack>::empty(),
    {
        let r = Self { items: vec![LmdPack::default(); LMDS_PER_BLOCK as usize], n: 0 };
        proof {
            assert(r@ =~= Seq::<LmdPack>::empty());
        }
        r
    }
}


impl Lmds {
    /// Encodes the triples as three interleaved FSE streams appended to `dst` after 8 zero
    /// bytes, and returns the LMD block parameters.
    #[verifier::rlimit(60)]
    pub fn store(&self, dst: &mut Vec<u8>, encoder: &Encoder) -> (r: LmdParam)
        requires
            self.wf(),
            encoder.wf(),
        ensures
            ({
                let (st, v, l) = lmd_enc(encoder.weights(), self.triples(), self@.len());
                let m = old(dst)@.len() as int;
                &&& r@.0 == self@.len()
                &&& r@.1 == final(dst)@.len() - m
                &&& r@.3 == lmd_states(st)
                &&& final(dst)@.len() >= m + 8
                &&& final(dst)@.subrange(0, m as int) == old(dst)@
                &&& final(dst)@.subrange(m as int, m + 8) == Seq::new(8, |i: int| 0u8)
                &&& bytes_value(final(dst)@.subrange(m + 8, final(dst)@.len() as int)) == v
                &&& 8 * (r@.1 - 8) == l + r@.2
            }),
    {
        let ghost w = encoder.weights();
        let ghost t = self.triples();
        let ghost m = dst@.len() as int;
        let mark = dst.len();
        let zeros: [u8; 8] = [0u8; 8];
        proof {
            assert(zeros@ =~= Seq::new(8, |i: int| 0u8));
        }
        dst.extend_from_slice(&zeros);
        let ghost d8 = dst@;
        proof {
            assert(d8.subrange(m as int, m + 8) =~= Seq::new(8, |i: int| 0u8));
            super::decoder::lemma_state_counts();
        }
        let mut writer = BitWriter::new(dst);
        let mut sl: u32 = L_STATES;
        let mut sm: u32 = M_STATES;
        let mut sd: u32 = D_STATES;
        let n = self.n;
        let mut i: usize = n;
        while i != 0
            invariant
                self.wf(),
                encoder.wf(),
                w == encoder.weights(),
                t == self.triples(),
                t.len() == n,
                n == self@.len(),
                n <= LMDS_PER_BLOCK,
                i <= n,
                writer.inv(),
                writer.matches(dst@),
                writer.mark() == m + 8,
                dst@.len() >= m + 8,
                dst@.subrange(0, m + 8) == d8.subrange(0, m + 8),
                0 <= writer.pending() <= 7,
                writer.bit_len() <= 54 * (n - i),
                ({
                    let (st, v, l) = lmd_enc(w, t, (n - i) as nat);
                    &&& st.len() == 3
                    &&& sl == st[0]
                    &&& sm == st[1]
                    &&& sd == st[2]
                    &&& writer.value() == v
                    &&& writer.bit_len() == l
                }),
                L_STATES <= sl < 2 * L_STATES,
                M_STATES <= sm < 2 * M_STATES,
                D_STATES <= sd < 2 * D_STATES,
            decreases i,
        {
            let ghost d0 = dst@;
            let p = self.items[i - 1];
            proof {
                assert(self@[i - 1] == p);
                assert(t[t.len() - (n - i + 1)] == triple(p));
                super::decoder::lemma_state_counts();
            }
            let dv = p.2.get();
            let mv = p.1.get() as u32;
            let lv = p.0.get() as u32;
            encoder.d(&mut writer, &mut sd, dv);
            encoder.m(&mut writer, &mut sm, mv);
            encoder.l(&mut writer, &mut sl, lv);
            writer.flush(dst);
            proof {
                assert(dst@.subrange(0, m + 8) =~= d0.subrange(0, m + 8));
            }
            i = i - 1;
        }
        let ghost d1 = dst@;
        let bits = writer.finalize(dst);
        let npb = dst.len() - mark;
        proof {
            assert(dst@.subrange(0, m + 8) =~= dst@.subrange(0, d1.len() as int).subrange(0, m + 8));
            assert(dst@.subrange(0, m as int) =~= d8.subrange(0, m + 8).subrange(0, m as int));
            assert(dst@.subrange(m as int, m + 8) =~= d8.subrange(0, m + 8).subrange(m as int, m + 8));
            assert(npb <= lmd_limit(n as nat));
        }
        let state = [(sl - L_STATES) as u16, (sm - M_STATES) as u16, (sd - D_STATES) as u16];
        proof {
            let (st, v, l) = lmd_enc(w, t, n as nat);
            assert(state@ =~= lmd_states(st));
            assert(lmd_param_error((n as u32, npb as u32, bits as u32, state@)) is None);
        }
        match LmdParam::new(n as u32, npb as u32, bits as u32, state) {
            Ok(p) => p,
            Err(_) => {
                proof {
                    assert(false);
                }
                LmdParam::default()
            },
        }
    }
}


impl Lmds {
    /// Decodes the LMD block `param` from `src`, the payload.
    #[verifier::rlimit(60)]
    pub fn load(&mut self, src: &[u8], decoder: &Decoder, param: &LmdParam) -> (r: crate::Result<
        (),
    >)
        requires
            old(self).wf(),
            decoder.wf(),
            src@.len() >= 8,
        ensures
            final(self).wf(),
            r == lmd_load_result(decoder.weights(), src@, param@),
            r is Ok ==> final(self).triples() == lmd_run(decoder.weights(), src@, param@).0,
            r is Err ==> final(self)@.len() == old(self)@.len(),
    {
        let ghost w = decoder.weights();
        let ghost run = lmd_run(w, src@, param@);
        let ghost rv0 = bytes_value(src@);
        let ghost rl0 = 8 * src@.len() - param@.2;
        let mut reader = BitReader::new(ByteBits::new(src), param.bits() as usize)?;
        let state = param.state();
        let mut sl: u32 = state[0] as u32;
        let mut sm: u32 = state[1] as u32;
        let mut sd: u32 = state[2] as u32;
        let n_lmds = param.num() as usize;
        let mut i: usize = 0;
        proof {
            assert(lmd_start(param@.3) =~= seq![sl as nat, sm as nat, sd as nat]);
            assert(self.items@.subrange(0, 0).map_values(|p: LmdPack| triple(p)) =~= Seq::<
                (nat, nat, nat),
            >::empty());
        }
        while i != n_lmds
            invariant
                self.wf(),
                self.n == old(self).n,
                decoder.wf(),
                w == decoder.weights(),
                run == lmd_dec(w, lmd_start(param@.3), rv0, rl0, n_lmds as nat),
                n_lmds == param@.0,
                n_lmds <= LMDS_PER_BLOCK,
                i <= n_lmds,
                reader.inv(),
                reader.src() == src@,
                reader.pending() >= 56,
                sl < L_STATES,
                sm < M_STATES,
                sd < D_STATES,
                ({
                    let (out, st, rv, rl) = lmd_dec(w, lmd_start(param@.3), rv0, rl0, i as nat);
                    &&& reader.exact() ==> {
                        &&& reader.rem_value() == rv
                        &&& reader.rem_len() == rl
                        &&& st == seq![sl as nat, sm as nat, sd as nat]
                        &&& self.items@.subrange(0, i as int).map_values(|p: LmdPack| triple(p))
                            == out
                    }
                    &&& run.3 >= 64 ==> reader.exact()
                }),
            decreases n_lmds - i,
        {
            proof {
                super::decoder::lemma_state_counts();
            }
            let ghost b0 = self.items@;
            let l = decoder.l(&mut reader, &mut sl);
            let m = decoder.m(&mut reader, &mut sm);
            let d = decoder.d(&mut reader, &mut sd);
            let p = LmdPack::new(l as u16, m as u16, d);
            self.items.set(i, p);
            proof {
                lemma_lmd_dec_mono(w, lmd_start(param@.3), rv0, rl0, (i + 1) as nat, n_lmds as nat);
                lemma_lmd_dec_mono(w, lmd_start(param@.3), rv0, rl0, i as nat, i as nat);
                let (out, st, rv, rl) = lmd_dec(w, lmd_start(param@.3), rv0, rl0, i as nat);
                if reader.exact() {
                    assert(self.items@.subrange(0, i + 1) =~= b0.subrange(0, i as int).push(p));
                    assert(self.items@.subrange(0, i + 1).map_values(|q: LmdPack| triple(q)) =~= b0.subrange(
                        0,
                        i as int,
                    ).map_values(|q: LmdPack| triple(q)).push(triple(p)));
                }
            }
            reader.flush();
            i = i + 1;
        }
        reader.finalize()?;
        if sl != 0 || sm != 0 || sd != 0 {
            proof {
                assert(run.1 != seq![0nat, 0nat, 0nat]) by {
                    if run.1 == seq![0nat, 0nat, 0nat] {
                        assert(run.1[0] == 0 && run.1[1] == 0 && run.1[2] == 0);
                    }
                }
            }
            return Err(Error::Fse(FseErrorKind::BadLmdPayload));
        }
        self.n = n_lmds;
        proof {
            assert(run.1 =~= seq![0nat, 0nat, 0nat]);
        }
        Ok(())
    }
}


impl Lmds {
    /// Triple `i`.
    pub fn get(&self, i: usize) -> (r: LmdPack)
        requires
            self.wf(),
            i < self@.len(),
        ensures
            r == self@[i as int],
            triple(r) == self.triples()[i as int],
    {
        self.items[i]
    }
}

} // verus!
