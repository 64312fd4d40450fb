use vstd::prelude::*;

use crate::error::{Error, FseErrorKind};

use super::constants::{V2_WEIGHT_PAYLOAD_BYTES_MAX, D_START, D_STATES, L_START, L_STATES, M_START, M_STATES, N_WEIGHTS, U_START, U_STATES, V1_WEIGHT_PAYLOAD_BYTES};
use super::normalize::{total, normalize_m1, is_state_count, same_support, lemma_total_prefix, lemma_total_update, lemma_weight_le_total};
use super::tables::{l_sym, m_sym, d_sym};
use crate::lmd::LmdPack;
use super::weight_encoder::{
    decode_weight, encode_weight, spec_decode_weight, weight_bits, weight_code,
    lemma_weight_code_prefix,
};
use crate::bits::bit_writer::BitWriter;
use crate::bits::model::{
    bytes_value, lemma_bytes_value_append, lemma_bytes_value_bound, lemma_bytes_value_push,
    lemma_div_mod_split,
};
use vstd::arithmetic::power2::{pow2, lemma_pow2_adds, lemma_pow2_pos};

verus! {

/// The weights decoded from a V1 weight payload: little-endian `u16` values.
pub open spec fn v1_weights(src: Seq<u8>) -> Seq<u16> {
    Seq::new(N_WEIGHTS as nat, |i: int| (src[2 * i] + 256 * src[2 * i + 1]) as u16)
}

/// The V1 weight payload of `w`: little-endian `u16` values followed by two zero bytes.
pub open spec fn v1_payload(w: Seq<u16>) -> Seq<u8> {
    Seq::new(
        V1_WEIGHT_PAYLOAD_BYTES as nat,
        |j: int|
            if j < 2 * N_WEIGHTS {
                if j % 2 == 0 {
                    (w[j / 2] % 256) as u8
                } else {
                    (w[j / 2] / 256) as u8
                }
            } else {
                0u8
            },
    )
}


/// The V2 weight bit stream of `w` as (value, width): codes packed least significant bit first,
/// the first weight lowest.
pub open spec fn weights_stream(w: Seq<u16>) -> (nat, nat)
    decreases w.len(),
{
    if w.len() == 0 {
        (0, 0)
    } else {
        let (v, l) = weights_stream(w.drop_last());
        (v + (weight_code(w.last() as u64) as nat) * pow2(l), l + (weight_bits(w.last() as u64) as nat))
    }
}

/// The first `n` weights decoded from the V2 bit stream `v`, with the number of bits they span.
pub open spec fn parse_v2(v: nat, n: nat) -> (Seq<u16>, nat)
    decreases n,
{
    if n == 0 {
        (Seq::empty(), 0)
    } else {
        let (ws, p) = parse_v2(v, (n - 1) as nat);
        let (w, b) = spec_decode_weight(((v / pow2(p)) % pow2(64)) as u64);
        (ws.push(w as u16), p + (b as nat))
    }
}

/// The weights of a V2 payload and the bits they span.
pub open spec fn v2_weights(src: Seq<u8>) -> (Seq<u16>, nat) {
    parse_v2(bytes_value(src), N_WEIGHTS as nat)
}

/// Every weight fits the V2 code range.
pub open spec fn codable(w: Seq<u16>) -> bool {
    forall|i: int| 0 <= i < w.len() ==> #[trigger] w[i] < 1048
}

/// Table totals lie within their state counts.
pub open spec fn valid_totals(s: Seq<u16>) -> bool {
    &&& s.len() == N_WEIGHTS
    &&& total(s.subrange(L_START as int, M_START as int)) <= L_STATES
    &&& total(s.subrange(M_START as int, D_START as int)) <= M_STATES
    &&& total(s.subrange(D_START as int, U_START as int)) <= D_STATES
    &&& total(s.subrange(U_START as int, N_WEIGHTS as int)) <= U_STATES
}

/// The outcome of loading V1 weights from `src`.
pub open spec fn v1_load_result(src: Seq<u8>) -> Result<(), Error> {
    if src.len() < V1_WEIGHT_PAYLOAD_BYTES {
        Err(Error::Fse(FseErrorKind::WeightPayloadUnderflow))
    } else if src.len() > V1_WEIGHT_PAYLOAD_BYTES {
        Err(Error::Fse(FseErrorKind::WeightPayloadOverflow))
    } else if valid_totals(v1_weights(src)) {
        Ok(())
    } else {
        Err(Error::Fse(FseErrorKind::BadWeightPayload))
    }
}

/// The outcome of loading V2 weights from `src`.
pub open spec fn v2_load_result(src: Seq<u8>) -> Result<(), Error> {
    let (ws, pos) = v2_weights(src);
    let avail = 8 * src.len();
    if pos > avail {
        Err(Error::Fse(FseErrorKind::WeightPayloadUnderflow))
    } else if avail - pos >= 8 {
        Err(Error::Fse(FseErrorKind::WeightPayloadOverflow))
    } else if valid_totals(ws) {
        Ok(())
    } else {
        Err(Error::Fse(FseErrorKind::BadWeightPayload))
    }
}

/// The literal length weights of a weight table.
pub open spec fn l_part(w: Seq<u16>) -> Seq<u16> {
    w.subrange(L_START as int, M_START as int)
}

/// The match length weights of a weight table.
pub open spec fn m_part(w: Seq<u16>) -> Seq<u16> {
    w.subrange(M_START as int, D_START as int)
}

/// The match distance weights of a weight table.
pub open spec fn d_part(w: Seq<u16>) -> Seq<u16> {
    w.subrange(D_START as int, U_START as int)
}

/// The literal weights of a weight table.
pub open spec fn u_part(w: Seq<u16>) -> Seq<u16> {
    w.subrange(U_START as int, N_WEIGHTS as int)
}

/// Normalized L, M, D and U weight tables, stored as one array: [ L | M | D | U ].
#[derive(Debug)]
pub struct Weights(Vec<u16>);

impl View for Weights {
    type V = Seq<u16>;

    closed spec fn view(&self) -> Seq<u16> {
        self.0@
    }
}

/// Sum of a slice of weights.
pub fn total_weights(weights: &[u16]) -> (r: u32)
    requires
        weights@.len() <= 0x10000,
    ensures
        r == total(weights@),
{
    let mut t: u32 = 0;
    let mut i: usize = 0;
    proof {
        assert(weights@.subrange(0, 0) =~= Seq::<u16>::empty());
    }
    while i < weights.len()
        invariant
            i <= weights@.len(),
            weights@.len() <= 0x10000,
            t == total(weights@.subrange(0, i as int)),
            t <= i * 0xFFFF,
        decreases weights@.len() - i,
    {
        proof {
            lemma_total_prefix(weights@, i as int);
            assert(i * 0xFFFF + 0xFFFF == (i + 1) * 0xFFFF) by (nonlinear_arith);
            assert((i + 1) * 0xFFFF <= 0x10000 * 0xFFFF) by (nonlinear_arith)
                requires i < 0x10000;
        }
        t = t + weights[i] as u32;
        i = i + 1;
    }
    proof {
        assert(weights@.subrange(0, weights@.len() as int) =~= weights@);
    }
    t
}

/// Sets every weight to zero.
pub fn reset_weights(weights: &mut Vec<u16>)
    ensures
        final(weights)@.len() == old(weights)@.len(),
        forall|i: int| 0 <= i < final(weights)@.len() ==> #[trigger] final(weights)@[i] == 0,
{
    let mut i: usize = 0;
    while i < weights.len()
        invariant
            i <= weights@.len(),
            weights@.len() == old(weights)@.len(),
            forall|j: int| 0 <= j < i ==> #[trigger] weights@[j] == 0,
        decreases weights@.len() - i,
    {
        weights.set(i, 0);
        i = i + 1;
    }
}

impl Weights {
    /// Internal consistency: 360 weights.
    pub open spec fn wf(&self) -> bool {
        self@.len() == N_WEIGHTS
    }

    /// Sets every weight to zero.
    pub fn reset_weights(&mut self)
        ensures
            final(self)@.len() == old(self)@.len(),
            forall|i: int| 0 <= i < final(self)@.len() ==> #[trigger] final(self)@[i] == 0,
    {
        reset_weights(&mut self.0);
    }

    /// Sets weight `index` to `w`.
    pub fn set_weight(&mut self, index: usize, w: u16)
        requires
            index < old(self)@.len(),
        ensures
            final(self)@ == old(self)@.update(index as int, w),
    {
        self.0.set(index, w);
    }

    /// Checks the table totals; on failure every weight is cleared.
    fn check_totals(&mut self) -> (r: crate::Result<()>)
        requires
            old(self).wf(),
        ensures
            final(self).wf(),
            r is Ok <==> valid_totals(old(self)@),
            r is Ok ==> final(self)@ == old(self)@ && r == Ok::<(), Error>(()),
            r is Err ==> r == Err::<(), Error>(Error::Fse(FseErrorKind::BadWeightPayload))
                && forall|i: int| 0 <= i < N_WEIGHTS ==> #[trigger] final(self)@[i] == 0,
    {
        let s = self.0.as_slice();
        let tl = total_weights(vstd::slice::slice_subrange(s, L_START, M_START));
        let tm = total_weights(vstd::slice::slice_subrange(s, M_START, D_START));
        let td = total_weights(vstd::slice::slice_subrange(s, D_START, U_START));
        let tu = total_weights(vstd::slice::slice_subrange(s, U_START, N_WEIGHTS));
        if tl <= L_STATES && tm <= M_STATES && td <= D_STATES && tu <= U_STATES {
            Ok(())
        } else {
            self.reset_weights();
            Err(Error::Fse(FseErrorKind::BadWeightPayload))
        }
    }

    /// Loads V1 weights: 360 little-endian `u16` values in a 722 byte payload.
    pub fn load_v1(&mut self, src: &[u8]) -> (r: crate::Result<()>)
        requires
            old(self).wf(),
        ensures
            final(self).wf(),
            r == v1_load_result(src@),
            src@.len() < V1_WEIGHT_PAYLOAD_BYTES ==> r == Err::<(), Error>(
                Error::Fse(FseErrorKind::WeightPayloadUnderflow),
            ) && final(self)@ == old(self)@,
            src@.len() > V1_WEIGHT_PAYLOAD_BYTES ==> r == Err::<(), Error>(
                Error::Fse(FseErrorKind::WeightPayloadOverflow),
            ) && final(self)@ == old(self)@,
            src@.len() == V1_WEIGHT_PAYLOAD_BYTES ==> {
                &&& (r is Ok <==> valid_totals(v1_weights(src@)))
                &&& r is Ok ==> final(self)@ == v1_weights(src@)
                &&& r is Err ==> r == Err::<(), Error>(
                    Error::Fse(FseErrorKind::BadWeightPayload),
                ) && forall|i: int| 0 <= i < N_WEIGHTS ==> #[trigger] final(self)@[i] == 0
            },
    {
        if src.len() < V1_WEIGHT_PAYLOAD_BYTES as usize {
            return Err(Error::Fse(FseErrorKind::WeightPayloadUnderflow));
        }
        if src.len() > V1_WEIGHT_PAYLOAD_BYTES as usize {
            return Err(Error::Fse(FseErrorKind::WeightPayloadOverflow));
        }
        let mut off: usize = 0;
        while off < N_WEIGHTS
            invariant
                off <= N_WEIGHTS,
                src@.len() == V1_WEIGHT_PAYLOAD_BYTES,
                self.wf(),
                forall|i: int| 0 <= i < off ==> #[trigger] self@[i] == v1_weights(src@)[i],
            decreases N_WEIGHTS - off,
        {
            let w = src[2 * off] as u16 + 256 * (src[2 * off + 1] as u16);
            self.0.set(off, w);
            off = off + 1;
        }
        proof {
            assert(self@ =~= v1_weights(src@));
        }
        self.check_totals()
    }

    /// Stores V1 weights: 360 little-endian `u16` values followed by two zero bytes.
    pub fn store_v1(&self, dst: &mut [u8])
        requires
            self.wf(),
            old(dst)@.len() >= V1_WEIGHT_PAYLOAD_BYTES,
        ensures
            final(dst)@.len() == old(dst)@.len(),
            final(dst)@.subrange(0, V1_WEIGHT_PAYLOAD_BYTES as int) == v1_payload(self@),
            forall|j: int|
                V1_WEIGHT_PAYLOAD_BYTES <= j < old(dst)@.len() ==> #[trigger] final(dst)@[j]
                    == old(dst)@[j],
    {
        let mut i: usize = 0;
        while i < N_WEIGHTS
            invariant
                i <= N_WEIGHTS,
                self.wf(),
                dst@.len() == old(dst)@.len(),
                dst@.len() >= V1_WEIGHT_PAYLOAD_BYTES,
                forall|k: int|
                    0 <= k < 2 * i ==> #[trigger] dst@[k] == v1_payload(self@)[k],
                forall|j: int|
                    V1_WEIGHT_PAYLOAD_BYTES <= j < old(dst)@.len() ==> #[trigger] dst@[j]
                        == old(dst)@[j],
            decreases N_WEIGHTS - i,
        {
            let w = self.0[i];
            dst[2 * i] = (w % 256) as u8;
            dst[2 * i + 1] = (w / 256) as u8;
            proof {
                assert((2 * i) % 2 == 0 && (2 * i) / 2 == i as int);
                assert((2 * i + 1) % 2 == 1 && (2 * i + 1) / 2 == i as int);
            }
            i = i + 1;
        }
        let mut j: usize = 2 * N_WEIGHTS;
        while j < V1_WEIGHT_PAYLOAD_BYTES as usize
            invariant
                2 * N_WEIGHTS <= j <= V1_WEIGHT_PAYLOAD_BYTES,
                self.wf(),
                dst@.len() == old(dst)@.len(),
                dst@.len() >= V1_WEIGHT_PAYLOAD_BYTES,
                forall|k: int| 0 <= k < j ==> #[trigger] dst@[k] == v1_payload(self@)[k],
                forall|k: int|
                    V1_WEIGHT_PAYLOAD_BYTES <= k < old(dst)@.len() ==> #[trigger] dst@[k]
                        == old(dst)@[k],
            decreases V1_WEIGHT_PAYLOAD_BYTES - j,
        {
            dst[j] = 0;
            j = j + 1;
        }
        proof {
            assert(dst@.subrange(0, V1_WEIGHT_PAYLOAD_BYTES as int) =~= v1_payload(self@));
        }
    }



    /// Loads V2 weights from packed weight codes.
    pub fn load_v2(&mut self, src: &[u8]) -> (r: crate::Result<()>)
        requires
            old(self).wf(),
        ensures
            final(self).wf(),
            r == v2_load_result(src@),
            ({
                let (ws, pos) = v2_weights(src@);
                let avail = 8 * src@.len();
                &&& pos > avail ==> r == Err::<(), Error>(
                    Error::Fse(FseErrorKind::WeightPayloadUnderflow),
                ) && final(self)@ == ws
                &&& pos <= avail && avail - pos >= 8 ==> r == Err::<(), Error>(
                    Error::Fse(FseErrorKind::WeightPayloadOverflow),
                ) && final(self)@ == ws
                &&& pos <= avail && avail - pos < 8 && valid_totals(ws) ==> r is Ok
                    && final(self)@ == ws
                &&& pos <= avail && avail - pos < 8 && !valid_totals(ws) ==> r == Err::<(), Error>(
                    Error::Fse(FseErrorKind::BadWeightPayload),
                ) && forall|i: int| 0 <= i < N_WEIGHTS ==> #[trigger] final(self)@[i] == 0
            }),
    {
        let ghost v = bytes_value(src@);
        let len = src.len();
        let mut accum: u64 = 0;
        let mut accum_bits: i64 = 0;
        let mut i: usize = 0;
        let mut k: usize = 0;
        proof {
            vstd::arithmetic::power2::lemma2_to64();
            assert(src@.subrange(0, 0) =~= Seq::<u8>::empty());
            assert(self@.subrange(0, 0) =~= parse_v2(v, 0).0);
        }
        while k < N_WEIGHTS
            invariant
                k <= N_WEIGHTS,
                i <= len,
                len == src@.len(),
                v == bytes_value(src@),
                self.wf(),
                self@.subrange(0, k as int) == parse_v2(v, k as nat).0,
                accum_bits == 8 * i - parse_v2(v, k as nat).1,
                -14 * (k as int) <= accum_bits <= 32,
                accum_bits >= 0 ==> accum as nat == bytes_value(src@.subrange(0, i as int)) / pow2(
                    parse_v2(v, k as nat).1,
                ) && (accum as nat) < pow2(accum_bits as nat),
                accum_bits < 0 ==> accum == 0 && i == len,
                k > 0 && i != len ==> accum_bits >= 11,
            decreases N_WEIGHTS - k,
        {
            let ghost pos = parse_v2(v, k as nat).1;
            while i != len && accum_bits <= 24
                invariant
                    i <= len,
                    len == src@.len(),
                    v == bytes_value(src@),
                    accum_bits == 8 * i - pos,
                    -14 * (k as int) <= accum_bits <= 32,
                    accum_bits >= 0 ==> accum as nat == bytes_value(src@.subrange(0, i as int))
                        / pow2(pos) && (accum as nat) < pow2(accum_bits as nat),
                    accum_bits < 0 ==> accum == 0 && i == len,
                decreases len - i,
            {
                let b = src[i];
                proof {
                    let pre = src@.subrange(0, i as int);
                    assert(src@.subrange(0, i + 1) =~= pre.push(b));
                    lemma_bytes_value_push(pre, b);
                    lemma_refill(bytes_value(pre), pos, i as nat, b, accum, accum_bits as nat);
                }
                accum = accum | ((b as u64) << (accum_bits as u64));
                accum_bits = accum_bits + 8;
                i = i + 1;
            }
            proof {
                lemma_decode_window(src@, i as nat, pos, accum, accum_bits as int);
            }
            let (w, w_bits) = decode_weight(accum);
            self.0.set(k, w as u16);
            proof {
                lemma_shift_window(bytes_value(src@.subrange(0, i as int)), pos, accum, accum_bits as int, w_bits);
                assert(self@.subrange(0, k + 1) =~= parse_v2(v, (k + 1) as nat).0);
            }
            accum = accum >> w_bits;
            accum_bits = accum_bits - w_bits as i64;
            k = k + 1;
        }
        proof {
            assert(self@.subrange(0, N_WEIGHTS as int) =~= self@);
            if i != len {
                assert(8 * len - parse_v2(v, N_WEIGHTS as nat).1 >= 8);
            }
        }
        if accum_bits < 0 {
            return Err(Error::Fse(FseErrorKind::WeightPayloadUnderflow));
        }
        if accum_bits >= 8 || i != len {
            return Err(Error::Fse(FseErrorKind::WeightPayloadOverflow));
        }
        self.check_totals()
    }

    /// Stores V2 weights: the packed weight codes, returning the payload size in bytes.
    pub fn store_v2(&self, dst: &mut [u8]) -> (r: u32)
        requires
            self.wf(),
            codable(self@),
            old(dst)@.len() >= V2_WEIGHT_PAYLOAD_BYTES_MAX,
        ensures
            final(dst)@.len() == old(dst)@.len(),
            r <= V2_WEIGHT_PAYLOAD_BYTES_MAX,
            bytes_value(final(dst)@.subrange(0, r as int)) == weights_stream(self@).0,
            0 <= 8 * r - weights_stream(self@).1 < 8,
            forall|j: int| r <= j < old(dst)@.len() ==> #[trigger] final(dst)@[j] == old(dst)@[j],
    {
        let mut tmp: Vec<u8> = Vec::new();
        let mut wtr = BitWriter::new(&tmp);
        let mut i: usize = 0;
        proof {
            assert(self@.subrange(0, 0) =~= Seq::<u16>::empty());
        }
        while i < N_WEIGHTS
            invariant
                i <= N_WEIGHTS,
                self.wf(),
                codable(self@),
                wtr.inv(),
                wtr.matches(tmp@),
                wtr.mark() == 0,
                0 <= wtr.pending() <= 7,
                wtr.value() == weights_stream(self@.subrange(0, i as int)).0,
                wtr.bit_len() == weights_stream(self@.subrange(0, i as int)).1,
                wtr.bit_len() <= 14 * i,
            decreases N_WEIGHTS - i,
        {
            let (u, u_bits) = encode_weight(self.0[i] as u64);
            proof {
                assert(self@.subrange(0, i + 1).drop_last() =~= self@.subrange(0, i as int));
            }
            wtr.push(u, u_bits);
            wtr.flush(&mut tmp);
            i = i + 1;
        }
        let ghost t0 = tmp@;
        let pad = wtr.finalize(&mut tmp);
        proof {
            assert(self@.subrange(0, N_WEIGHTS as int) =~= self@);
            assert(tmp@.subrange(0, tmp@.len() as int) =~= tmp@);
        }
        let n = tmp.len();
        let mut j: usize = 0;
        while j < n
            invariant
                j <= n,
                n == tmp@.len(),
                n <= V2_WEIGHT_PAYLOAD_BYTES_MAX,
                dst@.len() == old(dst)@.len(),
                dst@.len() >= V2_WEIGHT_PAYLOAD_BYTES_MAX,
                forall|k: int| 0 <= k < j ==> #[trigger] dst@[k] == tmp@[k],
                forall|k: int| n <= k < old(dst)@.len() ==> #[trigger] dst@[k] == old(dst)@[k],
            decreases n - j,
        {
            dst[j] = tmp[j];
            j = j + 1;
        }
        proof {
            assert(dst@.subrange(0, n as int) =~= tmp@);
        }
        n as u32
    }

    /// The literal length weights.
    pub fn ls(&self) -> (r: &[u16])
        requires
            self.wf(),
        ensures
            r@ == self@.subrange(L_START as int, M_START as int),
    {
        vstd::slice::slice_subrange(self.0.as_slice(), L_START, M_START)
    }

    /// The match length weights.
    pub fn ms(&self) -> (r: &[u16])
        requires
            self.wf(),
        ensures
            r@ == self@.subrange(M_START as int, D_START as int),
    {
        vstd::slice::slice_subrange(self.0.as_slice(), M_START, D_START)
    }

    /// The match distance weights.
    pub fn ds(&self) -> (r: &[u16])
        requires
            self.wf(),
        ensures
            r@ == self@.subrange(D_START as int, U_START as int),
    {
        vstd::slice::slice_subrange(self.0.as_slice(), D_START, U_START)
    }

    /// The literal weights.
    pub fn us(&self) -> (r: &[u16])
        requires
            self.wf(),
        ensures
            r@ == self@.subrange(U_START as int, N_WEIGHTS as int),
    {
        vstd::slice::slice_subrange(self.0.as_slice(), U_START, N_WEIGHTS)
    }
}

impl Default for Weights {
    fn default() -> (r: Self)
        ensures
            r.wf(),
            forall|i: int| 0 <= i < N_WEIGHTS ==> #[trigger] r@[i] == 0,
    {
        Weights(vec![0u16; N_WEIGHTS])
    }
}


/// Appending byte `b` above `i` bytes whose value shifted right by `pos` is `accum`.
proof fn lemma_refill(p: nat, pos: nat, i: nat, b: u8, accum: u64, bits: nat)
    requires
        bits == 8 * i - pos,
        bits <= 24,
        accum as nat == p / pow2(pos),
        (accum as nat) < pow2(bits),
    ensures
        (accum | ((b as u64) << (bits as u64))) as nat == ((p + pow2(8 * i) * (b as nat)) as nat) / pow2(pos),
        ((accum | ((b as u64) << (bits as u64))) as nat) < pow2(bits + 8),
{
    let d = pow2(pos);
    let m = pow2(bits);
    lemma_pow2_pos(pos);
    lemma_pow2_pos(bits);
    lemma_pow2_adds(pos, bits);
    lemma_pow2_adds(bits, 8);
    vstd::arithmetic::power2::lemma2_to64();
    vstd::bits::lemma_u64_pow2_no_overflow((bits + 8) as nat);
    vstd::bits::lemma_u64_shl_is_mul(1u64, bits as u64);
    assert((b as u64) * m <= 255 * m) by (nonlinear_arith) requires b <= 255;
    vstd::bits::lemma_u64_shl_is_mul(b as u64, bits as u64);
    let sb = (b as u64) << (bits as u64);
    assert(accum < (1u64 << (bits as u64)));
    assert((sb >> (bits as u64)) << (bits as u64) == sb) by {
        vstd::bits::lemma_u64_shr_is_div(sb, bits as u64);
        vstd::arithmetic::div_mod::lemma_div_multiples_vanish(b as int, m as int);
        assert(m * b == b * m) by (nonlinear_arith);
    }
    let bb = bits as u64;
    assert((accum | sb) == accum + sb) by (bit_vector)
        requires
            bb < 64,
            accum < (1u64 << bb),
            (sb >> bb) << bb == sb,
    ;
    // p == d * (p / d) + p % d, and pow2(8i) == d * m.
    vstd::arithmetic::div_mod::lemma_fundamental_div_mod(p as int, d as int);
    vstd::arithmetic::div_mod::lemma_mod_bound(p as int, d as int);
    let q = p / d;
    let r = p % d;
    assert(p + (d * m) * b == (p % d) + d * (q + m * b)) by (nonlinear_arith)
        requires p == d * q + r, r == p % d;
    lemma_div_mod_split(r, d, (q + m * b) as nat);
    assert(pos + bits == 8 * i);
    assert(pow2(8 * i) == d * m);
    assert(accum == q);
    assert(sb == b * m);
    assert(((p + pow2(8 * i) * (b as nat)) as nat) / d == q + m * b);
    assert((accum | sb) as nat == accum + sb);
    assert((b as nat) * m == m * (b as nat)) by (nonlinear_arith);
    assert((accum | ((b as u64) << (bits as u64))) as nat == q + m * b);
    assert(accum + m * b < m * 256) by (nonlinear_arith) requires accum < m, b <= 255;
}

/// The low 14 bits of the window `accum` agree with the stream shifted right by `pos`, so the
/// window decodes as the stream does.
proof fn lemma_decode_window(src: Seq<u8>, i: nat, pos: nat, accum: u64, bits: int)
    requires
        i <= src.len(),
        bits == 8 * i - pos,
        bits >= 0 ==> accum as nat == bytes_value(src.subrange(0, i as int)) / pow2(pos)
            && (accum as nat) < pow2(bits as nat),
        bits < 0 ==> accum == 0 && i == src.len(),
        i != src.len() ==> bits > 24,
    ensures
        spec_decode_weight(accum) == spec_decode_weight(
            ((bytes_value(src) / pow2(pos)) % pow2(64)) as u64,
        ),
{
    let pre = src.subrange(0, i as int);
    let post = src.subrange(i as int, src.len() as int);
    assert(src =~= pre + post);
    lemma_bytes_value_append(pre, post);
    lemma_bytes_value_bound(pre);
    lemma_bytes_value_bound(post);
    let p = bytes_value(pre);
    let rest = bytes_value(post);
    let d = pow2(pos);
    lemma_pow2_pos(pos);
    let x = (bytes_value(src) / d) as nat;
    vstd::arithmetic::power2::lemma2_to64();
    vstd::arithmetic::power2::lemma2_to64_rest();
    if bits >= 0 {
        let m = pow2(bits as nat);
        lemma_pow2_adds(pos, bits as nat);
        vstd::arithmetic::div_mod::lemma_fundamental_div_mod(p as int, d as int);
        vstd::arithmetic::div_mod::lemma_mod_bound(p as int, d as int);
        assert(bytes_value(src) == (p % d) + d * (p / d + m * rest)) by (nonlinear_arith)
            requires
                bytes_value(src) == p + pow2(8 * i) * rest,
                pow2(8 * i) == d * m,
                p == d * (p / d) + p % d,
        ;
        lemma_div_mod_split(p % d, d, (p / d + m * rest) as nat);
        assert(x == accum + m * rest);
        if i == src.len() {
            assert(post.len() == 0);
            assert(rest == 0);
            assert(x == accum);
        } else {
            lemma_pow2_adds(14, (bits - 14) as nat);
            assert(x % pow2(14) == (accum as nat) % pow2(14)) by {
                assert(m * rest == pow2(14) * (pow2((bits - 14) as nat) * rest)) by (nonlinear_arith)
                    requires m == pow2(14) * pow2((bits - 14) as nat);
                vstd::arithmetic::div_mod::lemma_mod_multiples_vanish(
                    (pow2((bits - 14) as nat) * rest) as int,
                    accum as int,
                    pow2(14) as int,
                );
            }
        }
    } else {
        assert(post.len() == 0);
        assert(rest == 0);
        assert(p < pow2(8 * i));
        vstd::arithmetic::power2::lemma_pow2_strictly_increases(8 * i, pos);
        vstd::arithmetic::div_mod::lemma_basic_div(p as int, d as int);
        assert(x == 0);
    }
    lemma_decode_low_bits(accum, x);
}

/// Decoding depends on the low 14 bits only.
proof fn lemma_decode_low_bits(accum: u64, x: nat)
    requires
        (accum as nat) % pow2(14) == x % pow2(14),
    ensures
        spec_decode_weight(accum) == spec_decode_weight((x % pow2(64)) as u64),
{
    vstd::arithmetic::power2::lemma2_to64();
    vstd::arithmetic::power2::lemma2_to64_rest();
    let y = (x % pow2(64)) as u64;
    vstd::arithmetic::div_mod::lemma_mod_bound(x as int, pow2(64) as int);
    vstd::arithmetic::div_mod::lemma_mod_mod(x as int, pow2(14) as int, pow2(50) as int);
    lemma_pow2_adds(14, 50);
    assert((y as nat) % pow2(14) == x % pow2(14));
    vstd::bits::lemma_u64_low_bits_mask_is_mod(accum, 14);
    vstd::bits::lemma_u64_low_bits_mask_is_mod(y, 14);
    assert(vstd::bits::low_bits_mask(14) == 0x3FFF);
    assert(accum & 0x3FFF == y & 0x3FFF);
    let a = accum;
    assert(a & 0x3FFF == y & 0x3FFF ==> (a & 1 == y & 1) && (a & 3 == y & 3) && (a & 7 == y & 7)
        && (a & 15 == y & 15) && ((a >> 1) & 1 == (y >> 1) & 1) && ((a >> 2) & 1 == (y >> 2) & 1)
        && ((a >> 3) & 3 == (y >> 3) & 3) && ((a >> 4) & 0xF == (y >> 4) & 0xF) && ((a >> 4)
        & 0x3FF == (y >> 4) & 0x3FF)) by (bit_vector);
}

/// Shifting the window right by the code width consumes the code.
proof fn lemma_shift_window(p: nat, pos: nat, accum: u64, bits: int, w_bits: u64)
    requires
        w_bits <= 14,
        bits >= 0 ==> accum as nat == p / pow2(pos) && (accum as nat) < pow2(bits as nat),
        bits < 0 ==> accum == 0,
    ensures
        bits - w_bits >= 0 ==> (accum >> w_bits) as nat == p / pow2((pos + w_bits) as nat) && ((accum
            >> w_bits) as nat) < pow2((bits - w_bits) as nat),
        bits - w_bits < 0 ==> accum >> w_bits == 0,
{
    vstd::bits::lemma_u64_shr_is_div(accum, w_bits);
    lemma_pow2_pos(pos);
    lemma_pow2_pos(w_bits as nat);
    lemma_pow2_adds(pos, w_bits as nat);
    if bits >= 0 {
        vstd::arithmetic::div_mod::lemma_div_denominator(p as int, pow2(pos) as int, pow2(w_bits as nat) as int);
        if bits - w_bits >= 0 {
            lemma_pow2_adds((bits - w_bits) as nat, w_bits as nat);
            vstd::arithmetic::div_mod::lemma_div_by_multiple_is_strongly_ordered(
                accum as int, pow2(bits as nat) as int, pow2((bits - w_bits) as nat) as int,
                pow2(w_bits as nat) as int);
            vstd::arithmetic::div_mod::lemma_div_multiples_vanish(pow2((bits - w_bits) as nat) as int, pow2(w_bits as nat) as int);
            assert(pow2((bits - w_bits) as nat) * pow2(w_bits as nat) == pow2(w_bits as nat) * pow2((bits - w_bits) as nat)) by (nonlinear_arith);
        } else {
            vstd::arithmetic::power2::lemma_pow2_strictly_increases(bits as nat, w_bits as nat);
            vstd::arithmetic::div_mod::lemma_basic_div(accum as int, pow2(w_bits as nat) as int);
        }
    } else {
        vstd::arithmetic::div_mod::lemma_basic_div(0, pow2(w_bits as nat) as int);
    }
}


/// The stream of a concatenation places the second stream above the first.
pub proof fn lemma_weights_stream_concat(a: Seq<u16>, b: Seq<u16>)
    ensures
        weights_stream(a + b).0 == weights_stream(a).0 + pow2(weights_stream(a).1) * weights_stream(
            b,
        ).0,
        weights_stream(a + b).1 == weights_stream(a).1 + weights_stream(b).1,
    decreases b.len(),
{
    vstd::arithmetic::power2::lemma2_to64();
    if b.len() == 0 {
        assert(a + b =~= a);
        assert(pow2(weights_stream(a).1) * 0 == 0) by (nonlinear_arith);
    } else {
        let b0 = b.drop_last();
        assert((a + b).drop_last() =~= a + b0);
        assert((a + b).last() == b.last());
        lemma_weights_stream_concat(a, b0);
        let (va, la) = weights_stream(a);
        let (vb, lb) = weights_stream(b0);
        let c = weight_code(b.last() as u64) as nat;
        lemma_pow2_adds(la, lb);
        let pa = pow2(la);
        let pb = pow2(lb);
        assert(pa * (vb + c * pb) == pa * vb + c * (pa * pb)) by (nonlinear_arith);
    }
}

/// A weight stream is below two to the power of its width.
pub proof fn lemma_weights_stream_bound(w: Seq<u16>)
    requires
        codable(w),
    ensures
        weights_stream(w).0 < pow2(weights_stream(w).1),
    decreases w.len(),
{
    vstd::arithmetic::power2::lemma2_to64();
    if w.len() > 0 {
        let w0 = w.drop_last();
        assert(codable(w0)) by {
            assert forall|i: int| 0 <= i < w0.len() implies #[trigger] w0[i] < 1048 by {
                assert(w0[i] == w[i]);
            }
        }
        lemma_weights_stream_bound(w0);
        let (v, l) = weights_stream(w0);
        let x = w.last() as u64;
        assert(x < 1048);
        let c = weight_code(x) as nat;
        let b = weight_bits(x) as nat;
        lemma_code_bound(x);
        lemma_pow2_adds(l, b);
        let pl = pow2(l);
        let pbb = pow2(b);
        assert(v + c * pl < pl * pbb) by (nonlinear_arith)
            requires v < pl, c < pbb, c + 1 <= pbb;
    }
}

/// A weight code fits its width.
proof fn lemma_code_bound(x: u64)
    requires
        x < 1048,
    ensures
        (weight_code(x) as nat) < pow2(weight_bits(x) as nat),
        weight_bits(x) <= 14,
{
    vstd::arithmetic::power2::lemma2_to64();
    if 8 <= x < 24 {
        super::weight_encoder::lemma_code_join(0, (x - 8) as u64);
    }
    if x >= 24 {
        super::weight_encoder::lemma_code_join(0, (x - 24) as u64);
    }
}

/// Store then load: the V2 payload that `store_v2` writes for the weights `w` loads back as
/// `w`, accepted exactly when its totals lie within the state counts and refused as
/// `BadWeightPayload` otherwise.
pub proof fn lemma_v2_store_load(w: Seq<u16>, a: Seq<u8>)
    requires
        w.len() == N_WEIGHTS,
        codable(w),
        bytes_value(a) == weights_stream(w).0,
        0 <= 8 * a.len() - weights_stream(w).1 < 8,
    ensures
        v2_weights(a).0 == w,
        v2_load_result(a) == (if valid_totals(w) {
            Ok::<(), Error>(())
        } else {
            Err::<(), Error>(Error::Fse(FseErrorKind::BadWeightPayload))
        }),
{
    lemma_v2_roundtrip(w, N_WEIGHTS as nat);
    assert(w.subrange(0, N_WEIGHTS as int) =~= w);
}

/// The V2 weight payload of `w` is one byte string: `store_v2` and `store_v2_short` both write
/// the bytes whose value is the weight code stream, in the fewest whole bytes that hold it.
pub proof fn lemma_weight_payload_unique(w: Seq<u16>, a: Seq<u8>, b: Seq<u8>)
    requires
        bytes_value(a) == weights_stream(w).0,
        0 <= 8 * a.len() - weights_stream(w).1 < 8,
        bytes_value(b) == weights_stream(w).0,
        0 <= 8 * b.len() - weights_stream(w).1 < 8,
    ensures
        a == b,
{
    crate::bits::model::lemma_bytes_value_inj(a, b);
}

/// Decoding a V2 stream of codable weights yields the weights and the stream width.
pub proof fn lemma_v2_roundtrip(w: Seq<u16>, k: nat)
    requires
        codable(w),
        k <= w.len(),
    ensures
        parse_v2(weights_stream(w).0, k).0 == w.subrange(0, k as int),
        parse_v2(weights_stream(w).0, k).1 == weights_stream(w.subrange(0, k as int)).1,
    decreases k,
{
    let v = weights_stream(w).0;
    if k == 0 {
        assert(w.subrange(0, 0) =~= Seq::<u16>::empty());
    } else {
        let j = (k - 1) as nat;
        lemma_v2_roundtrip(w, j);
        let pre = w.subrange(0, j as int);
        let post = w.subrange(j as int, w.len() as int);
        let rest = w.subrange(k as int, w.len() as int);
        assert(w =~= pre + post);
        assert(post =~= seq![w[j as int]] + rest);
        lemma_weights_stream_concat(pre, post);
        lemma_weights_stream_concat(seq![w[j as int]], rest);
        let one = seq![w[j as int]];
        assert(one.drop_last() =~= Seq::<u16>::empty());
        let x = w[j as int] as u64;
        let c = weight_code(x) as nat;
        let b = weight_bits(x) as nat;
        assert(weights_stream(Seq::<u16>::empty()) == (0nat, 0nat));
        vstd::arithmetic::power2::lemma2_to64();
        assert(one.last() == w[j as int]);
        assert(pow2(0) == 1);
        assert(c * pow2(0) == c);
        assert(weights_stream(one).0 == c);
        assert(weights_stream(one).1 == b);
        let (vp, p) = weights_stream(pre);
        assert(codable(pre)) by {
            assert forall|i: int| 0 <= i < pre.len() implies #[trigger] pre[i] < 1048 by {
                assert(pre[i] == w[i]);
            }
        }
        lemma_weights_stream_bound(pre);
        let hi = weights_stream(rest).0;
        let pbb = pow2(b);
        // v == vp + 2^p * (c + 2^b * hi)
        lemma_pow2_pos(p);
        lemma_div_mod_split(vp, pow2(p), c + pbb * hi);
        let u = v / pow2(p);
        assert(u == c + pbb * hi);
        lemma_code_bound(x);
        vstd::arithmetic::power2::lemma2_to64_rest();
        lemma_pow2_adds(b, (64 - b) as nat);
        // (u % 2^64) as u64 has the code in its low b bits.
        let y = (u % pow2(64)) as u64;
        vstd::arithmetic::div_mod::lemma_mod_bound(u as int, pow2(64) as int);
        vstd::arithmetic::div_mod::lemma_mod_mod(u as int, pbb as int, pow2((64 - b) as nat) as int);
        lemma_div_mod_split(c, pbb, hi);
        assert((y as nat) % pbb == c);
        vstd::bits::lemma_u64_low_bits_mask_is_mod(y, b);
        vstd::bits::lemma_u64_pow2_no_overflow(b);
        vstd::bits::lemma_u64_shl_is_mul(1u64, b as u64);
        assert(((1u64 << (b as u64)) - 1) as u64 == vstd::bits::low_bits_mask(b) as u64);
        assert(y & (((1u64 << weight_bits(x)) - 1) as u64) == weight_code(x));
        lemma_weight_code_prefix(x, y);
        assert(w.subrange(0, k as int) =~= pre.push(w[j as int]));
        assert(w.subrange(0, k as int).drop_last() =~= pre);
    }
}

/// Loading a stored V1 payload yields the stored weights: the V1 encoding is lossless.
pub proof fn lemma_v1_roundtrip(w: Seq<u16>)
    requires
        w.len() == N_WEIGHTS,
    ensures
        v1_payload(w).len() == V1_WEIGHT_PAYLOAD_BYTES,
        v1_weights(v1_payload(w)) == w,
{
    assert forall|i: int| 0 <= i < N_WEIGHTS implies #[trigger] v1_weights(v1_payload(w))[i]
        == w[i] by {
        let x = w[i];
        assert(2 * i < 720 && 2 * i + 1 < 720);
        assert((2 * i) % 2 == 0 && (2 * i) / 2 == i);
        assert((2 * i + 1) % 2 == 1 && (2 * i + 1) / 2 == i);
        assert(((x % 256) as u8 + 256 * ((x / 256) as u8)) as u16 == x);
    }
    assert(v1_weights(v1_payload(w)) =~= w);
}


/// Occurrences of `x` in `s`.
pub open spec fn count(s: Seq<nat>, x: nat) -> nat
    decreases s.len(),
{
    if s.len() == 0 {
        0
    } else {
        count(s.drop_last(), x) + if s.last() == x {
            1nat
        } else {
            0nat
        }
    }
}

/// `w` is a normalized histogram of `s` over `n` states: it has a nonzero weight exactly where
/// a value occurs, and totals `n`; all zero for an empty `s`.
pub open spec fn normalized_for(w: Seq<u16>, s: Seq<nat>, n: u32) -> bool {
    &&& forall|i: int| 0 <= i < w.len() ==> (#[trigger] w[i] != 0 <==> count(s, i as nat) > 0)
    &&& s.len() > 0 ==> total(w) == n
    &&& s.len() == 0 ==> total(w) == 0
}

/// Extending a sequence by one element adds one occurrence of it.
proof fn lemma_count_push(s: Seq<nat>, x: nat, y: nat)
    ensures
        count(s.push(x), y) == count(s, y) + if x == y {
            1nat
        } else {
            0nat
        },
{
    assert(s.push(x).drop_last() =~= s);
}

/// Replaces weights `[start, start + tmp.len())` with `tmp`.
fn put_group(weights: &mut Vec<u16>, start: usize, tmp: &Vec<u16>)
    requires
        start + tmp@.len() <= old(weights)@.len(),
    ensures
        final(weights)@.len() == old(weights)@.len(),
        final(weights)@.subrange(start as int, start + tmp@.len()) == tmp@,
        forall|j: int|
            0 <= j < old(weights)@.len() && !(start <= j < start + tmp@.len())
                ==> #[trigger] final(weights)@[j] == old(weights)@[j],
{
    let _len = weights.len();
    let mut i: usize = 0;
    while i < tmp.len()
        invariant
            i <= tmp@.len(),
            start + tmp@.len() <= weights@.len(),
            weights@.len() == old(weights)@.len(),
            weights@.len() <= usize::MAX,
            forall|j: int| start <= j < start + i ==> #[trigger] weights@[j] == tmp@[j - start],
            forall|j: int|
                0 <= j < weights@.len() && !(start <= j < start + i) ==> #[trigger] weights@[j]
                    == old(weights)@[j],
        decreases tmp@.len() - i,
    {
        weights.set(start + i, tmp[i]);
        i = i + 1;
    }
    proof {
        assert forall|k: int| 0 <= k < tmp@.len() implies weights@.subrange(
            start as int,
            start + tmp@.len(),
        )[k] == tmp@[k] by {
            assert(weights@[start + k] == tmp@[start + k - start]);
        }
        assert(weights@.subrange(start as int, start + tmp@.len()) =~= tmp@);
    }
}

/// The weights `[start, end)` as a vector.
fn get_group(weights: &Vec<u16>, start: usize, end: usize) -> (r: Vec<u16>)
    requires
        start <= end <= weights@.len(),
    ensures
        r@ == weights@.subrange(start as int, end as int),
{
    let mut r: Vec<u16> = Vec::new();
    let mut i: usize = start;
    while i < end
        invariant
            start <= i <= end <= weights@.len(),
            r@ == weights@.subrange(start as int, i as int),
        decreases end - i,
    {
        r.push(weights[i]);
        proof {
            assert(r@ =~= weights@.subrange(start as int, i + 1));
        }
        i = i + 1;
    }
    r
}

/// Normalizes `weights[start, end)`, which total `in_total`, to `out_total`.
fn normalize_group(weights: &mut Vec<u16>, start: usize, end: usize, in_total: u32, out_total: u32) -> (r: usize)
    requires
        start < end <= old(weights)@.len(),
        is_state_count(out_total),
        end - start <= out_total,
        total(old(weights)@.subrange(start as int, end as int)) == in_total,
    ensures
        final(weights)@.len() == old(weights)@.len(),
        r < end - start,
        same_support(old(weights)@.subrange(start as int, end as int), final(weights)@.subrange(start as int, end as int)),
        in_total > 0 ==> total(final(weights)@.subrange(start as int, end as int)) == out_total,
        in_total > 0 ==> old(weights)@[start + r] != 0,
        in_total == 0 ==> final(weights)@ == old(weights)@,
        forall|j: int|
            0 <= j < old(weights)@.len() && !(start <= j < end) ==> #[trigger] final(weights)@[j]
                == old(weights)@[j],
{
    let mut tmp = get_group(weights, start, end);
    let r = normalize_m1(tmp.as_mut_slice(), in_total, out_total);
    put_group(weights, start, &tmp);
    proof {
        if in_total == 0 {
            assert forall|j: int| 0 <= j < weights@.len() implies weights@[j] == old(weights)@[j] by {
                if start <= j < end {
                    assert(weights@.subrange(start as int, end as int)[j - start] == weights@[j]);
                    assert(old(weights)@.subrange(start as int, end as int)[j - start] == old(weights)@[j]);
                }
            }
            assert(weights@ =~= old(weights)@);
        }
    }
    r
}


/// The literals as values.
pub open spec fn u_values(literals: Seq<u8>) -> Seq<nat> {
    literals.map_values(|u: u8| u as nat)
}

/// The literal length symbols of packed triples.
pub open spec fn l_values(lmds: Seq<LmdPack>) -> Seq<nat> {
    lmds.map_values(|p: LmdPack| l_sym(p.0.value() as nat))
}

/// The match length symbols of packed triples.
pub open spec fn m_values(lmds: Seq<LmdPack>) -> Seq<nat> {
    lmds.map_values(|p: LmdPack| m_sym(p.1.value() as nat))
}

/// The match distance symbols of packed triples.
pub open spec fn d_values(lmds: Seq<LmdPack>) -> Seq<nat> {
    lmds.map_values(|p: LmdPack| d_sym(p.2.value() as nat))
}

/// Adds one to weight `start + k`, keeping the sum of `[start, end)` in step.
fn bump(weights: &mut Vec<u16>, start: usize, end: usize, k: usize)
    requires
        start <= start + k < end <= old(weights)@.len(),
        total(old(weights)@.subrange(start as int, end as int)) < 0xFFFF,
    ensures
        old(weights)@[start + k] < 0xFFFF,
        final(weights)@ == old(weights)@.update(start + k, (old(weights)@[start + k] + 1) as u16),
        total(final(weights)@.subrange(start as int, end as int)) == total(
            old(weights)@.subrange(start as int, end as int),
        ) + 1,
{
    let ghost g = weights@.subrange(start as int, end as int);
    proof {
        lemma_weight_le_total(g, k as int);
    }
    let v = weights[start + k];
    weights.set(start + k, v + 1);
    proof {
        assert(weights@.subrange(start as int, end as int) =~= g.update(k as int, (v + 1) as u16));
        lemma_total_update(g, k as int, (v + 1) as u16);
    }
}

impl Weights {
    /// Counts the literals into the literal weights, which must be zero, and normalizes them:
    /// returns a literal that occurs, or zero when there are none.
    fn add_literals(&mut self, literals: &[u8]) -> (r: u8)
        requires
            old(self).wf(),
            literals@.len() <= super::constants::LITERALS_PER_BLOCK,
            forall|i: int| U_START <= i < N_WEIGHTS ==> #[trigger] old(self)@[i] == 0,
        ensures
            final(self).wf(),
            forall|i: int| 0 <= i < U_START ==> #[trigger] final(self)@[i] == old(self)@[i],
            normalized_for(u_part(final(self)@), u_values(literals@), U_STATES),
            literals@.len() > 0 ==> count(u_values(literals@), r as nat) > 0,
            literals@.len() == 0 ==> r == 0,
    {
        let mut i: usize = 0;
        proof {
            super::normalize::lemma_zero_total(u_part(self@));
            assert(literals@.subrange(0, 0).map_values(|u: u8| u as nat) =~= Seq::<nat>::empty());
        }
        while i < literals.len()
            invariant
                self.wf(),
                i <= literals@.len(),
                literals@.len() <= 40000,
                forall|j: int| 0 <= j < U_START ==> #[trigger] self@[j] == old(self)@[j],
                forall|k: int|
                    0 <= k < 256 ==> #[trigger] self@[U_START + k] == count(
                        u_values(literals@.subrange(0, i as int)),
                        k as nat,
                    ),
                total(u_part(self@)) == i,
            decreases literals@.len() - i,
        {
            let u = literals[i] as usize;
            let ghost pre = u_values(literals@.subrange(0, i as int));
            let ghost wprev = self@;
            bump(&mut self.0, U_START, N_WEIGHTS, u);
            proof {
                assert(u_values(literals@.subrange(0, i + 1)) =~= pre.push(u as nat));
                assert forall|k: int| 0 <= k < 256 implies #[trigger] self@[U_START + k] == count(
                    u_values(literals@.subrange(0, i + 1)),
                    k as nat,
                ) by {
                    lemma_count_push(pre, u as nat, k as nat);
                    assert(wprev[U_START + k] == count(pre, k as nat));
                }
            }
            i = i + 1;
        }
        proof {
            assert(literals@.subrange(0, literals@.len() as int) =~= literals@);
        }
        if literals.len() == 0 {
            proof {
                assert forall|k: int| 0 <= k < 256 implies (#[trigger] u_part(self@)[k] != 0 <==> count(
                    u_values(literals@),
                    k as nat,
                ) > 0) by {
                    assert(u_part(self@)[k] == self@[U_START + k]);
                }
            }
            return 0;
        }
        proof {
            super::decoder::lemma_state_counts();
            assert(is_state_count(U_STATES)) by {
                super::decoder::lemma_state_pows();
            }
        }
        let ghost w1 = self@;
        let r = normalize_group(&mut self.0, U_START, N_WEIGHTS, literals.len() as u32, U_STATES);
        proof {
            assert forall|k: int| 0 <= k < 256 implies (#[trigger] u_part(self@)[k] != 0 <==> count(
                u_values(literals@),
                k as nat,
            ) > 0) by {
                assert(u_part(self@)[k] == self@.subrange(U_START as int, N_WEIGHTS as int)[k]);
                assert(w1.subrange(U_START as int, N_WEIGHTS as int)[k] == w1[U_START + k]);
            }
            assert(w1[U_START + r] == count(u_values(literals@), r as nat));
        }
        r as u8
    }
}


impl Weights {
    /// Counts the symbols of the triples into the L, M and D weights, which must be zero, and
    /// normalizes them.
    fn add_lmds(&mut self, lmds: &[LmdPack])
        requires
            old(self).wf(),
            lmds@.len() <= super::constants::LMDS_PER_BLOCK,
            forall|i: int| 0 <= i < U_START ==> #[trigger] old(self)@[i] == 0,
        ensures
            final(self).wf(),
            forall|i: int| U_START <= i < N_WEIGHTS ==> #[trigger] final(self)@[i] == old(self)@[i],
            normalized_for(l_part(final(self)@), l_values(lmds@), L_STATES),
            normalized_for(m_part(final(self)@), m_values(lmds@), M_STATES),
            normalized_for(d_part(final(self)@), d_values(lmds@), D_STATES),
    {
        let mut i: usize = 0;
        proof {
            super::normalize::lemma_zero_total(l_part(self@));
            super::normalize::lemma_zero_total(m_part(self@));
            super::normalize::lemma_zero_total(d_part(self@));
            assert(l_values(lmds@.subrange(0, 0)) =~= Seq::<nat>::empty());
            assert(m_values(lmds@.subrange(0, 0)) =~= Seq::<nat>::empty());
            assert(d_values(lmds@.subrange(0, 0)) =~= Seq::<nat>::empty());
        }
        while i < lmds.len()
            invariant
                self.wf(),
                i <= lmds@.len(),
                lmds@.len() <= 10000,
                forall|j: int| U_START <= j < N_WEIGHTS ==> #[trigger] self@[j] == old(self)@[j],
                forall|k: int|
                    0 <= k < 20 ==> #[trigger] self@[L_START + k] == count(
                        l_values(lmds@.subrange(0, i as int)),
                        k as nat,
                    ),
                forall|k: int|
                    0 <= k < 20 ==> #[trigger] self@[M_START + k] == count(
                        m_values(lmds@.subrange(0, i as int)),
                        k as nat,
                    ),
                forall|k: int|
                    0 <= k < 64 ==> #[trigger] self@[D_START + k] == count(
                        d_values(lmds@.subrange(0, i as int)),
                        k as nat,
                    ),
                total(l_part(self@)) == i,
                total(m_part(self@)) == i,
                total(d_part(self@)) == i,
            decreases lmds@.len() - i,
        {
            let p = lmds[i];
            let ls = super::tables::l_symbol(p.0.get() as u32);
            let ms = super::tables::m_symbol(p.1.get() as u32);
            let ds = super::tables::d_symbol(p.2.get());
            let ghost lp = l_values(lmds@.subrange(0, i as int));
            let ghost mp = m_values(lmds@.subrange(0, i as int));
            let ghost dp = d_values(lmds@.subrange(0, i as int));
            let ghost w0 = self@;
            bump(&mut self.0, L_START, M_START, ls);
            let ghost w1 = self@;
            proof {
                assert(m_part(w1) =~= m_part(w0));
                assert(d_part(w1) =~= d_part(w0));
            }
            bump(&mut self.0, M_START, D_START, ms);
            let ghost w2 = self@;
            proof {
                assert(l_part(w2) =~= l_part(w1));
                assert(d_part(w2) =~= d_part(w1));
            }
            bump(&mut self.0, D_START, U_START, ds);
            proof {
                assert(l_part(self@) =~= l_part(w2));
                assert(m_part(self@) =~= m_part(w2));
                assert(lmds@.subrange(0, i + 1) =~= lmds@.subrange(0, i as int).push(p));
                assert(l_values(lmds@.subrange(0, i + 1)) =~= lp.push(ls as nat));
                assert(m_values(lmds@.subrange(0, i + 1)) =~= mp.push(ms as nat));
                assert(d_values(lmds@.subrange(0, i + 1)) =~= dp.push(ds as nat));
                assert forall|k: int| 0 <= k < 20 implies #[trigger] self@[L_START + k] == count(
                    l_values(lmds@.subrange(0, i + 1)),
                    k as nat,
                ) by {
                    lemma_count_push(lp, ls as nat, k as nat);
                    assert(w0[L_START + k] == count(lp, k as nat));
                }
                assert forall|k: int| 0 <= k < 20 implies #[trigger] self@[M_START + k] == count(
                    m_values(lmds@.subrange(0, i + 1)),
                    k as nat,
                ) by {
                    lemma_count_push(mp, ms as nat, k as nat);
                    assert(w0[M_START + k] == count(mp, k as nat));
                }
                assert forall|k: int| 0 <= k < 64 implies #[trigger] self@[D_START + k] == count(
                    d_values(lmds@.subrange(0, i + 1)),
                    k as nat,
                ) by {
                    lemma_count_push(dp, ds as nat, k as nat);
                    assert(w0[D_START + k] == count(dp, k as nat));
                }
            }
            i = i + 1;
        }
        proof {
            assert(lmds@.subrange(0, lmds@.len() as int) =~= lmds@);
        }
        if lmds.len() == 0 {
            proof {
                assert forall|k: int| 0 <= k < 20 implies (#[trigger] l_part(self@)[k] != 0 <==> count(
                    l_values(lmds@),
                    k as nat,
                ) > 0) by {
                    assert(l_part(self@)[k] == self@[L_START + k]);
                }
                assert forall|k: int| 0 <= k < 20 implies (#[trigger] m_part(self@)[k] != 0 <==> count(
                    m_values(lmds@),
                    k as nat,
                ) > 0) by {
                    assert(m_part(self@)[k] == self@[M_START + k]);
                }
                assert forall|k: int| 0 <= k < 64 implies (#[trigger] d_part(self@)[k] != 0 <==> count(
                    d_values(lmds@),
                    k as nat,
                ) > 0) by {
                    assert(d_part(self@)[k] == self@[D_START + k]);
                }
            }
            return;
        }
        proof {
            assert(is_state_count(L_STATES)) by {
                super::decoder::lemma_state_pows();
            }
            assert(is_state_count(D_STATES)) by {
                super::decoder::lemma_state_pows();
            }
        }
        let n = lmds.len() as u32;
        let ghost w0 = self@;
        normalize_group(&mut self.0, L_START, M_START, n, L_STATES);
        let ghost w1 = self@;
        proof {
            assert(m_part(w1) =~= m_part(w0));
            assert(d_part(w1) =~= d_part(w0));
        }
        normalize_group(&mut self.0, M_START, D_START, n, M_STATES);
        let ghost w2 = self@;
        proof {
            assert(d_part(w2) =~= d_part(w1));
        }
        normalize_group(&mut self.0, D_START, U_START, n, D_STATES);
        proof {
            assert(l_part(self@) =~= l_part(w1));
            assert(l_part(w2) =~= l_part(w1));
            assert(m_part(self@) =~= m_part(w2));
            assert(m_part(w1) =~= m_part(w0));
            assert(d_part(w2) =~= d_part(w0));
            assert forall|k: int| 0 <= k < 20 implies (#[trigger] l_part(self@)[k] != 0 <==> count(
                l_values(lmds@),
                k as nat,
            ) > 0) by {
                assert(l_part(w0)[k] == w0[L_START + k]);
            }
            assert forall|k: int| 0 <= k < 20 implies (#[trigger] m_part(self@)[k] != 0 <==> count(
                m_values(lmds@),
                k as nat,
            ) > 0) by {
                assert(m_part(w0)[k] == w0[M_START + k]);
            }
            assert forall|k: int| 0 <= k < 64 implies (#[trigger] d_part(self@)[k] != 0 <==> count(
                d_values(lmds@),
                k as nat,
            ) > 0) by {
                assert(d_part(w0)[k] == w0[D_START + k]);
            }
        }
    }

    /// Loads normalized weights for the triples and literals of a block: returns a literal that
    /// occurs, or zero when there are none.
    pub fn load(&mut self, lmds: &[LmdPack], literals: &[u8]) -> (r: u8)
        requires
            old(self).wf(),
            lmds@.len() <= super::constants::LMDS_PER_BLOCK,
            literals@.len() <= super::constants::LITERALS_PER_BLOCK,
        ensures
            final(self).wf(),
            valid_totals(final(self)@),
            normalized_for(l_part(final(self)@), l_values(lmds@), L_STATES),
            normalized_for(m_part(final(self)@), m_values(lmds@), M_STATES),
            normalized_for(d_part(final(self)@), d_values(lmds@), D_STATES),
            normalized_for(u_part(final(self)@), u_values(literals@), U_STATES),
            literals@.len() > 0 ==> count(u_values(literals@), r as nat) > 0,
            literals@.len() == 0 ==> r == 0,
    {
        self.reset_weights();
        self.add_lmds(lmds);
        let ghost w1 = self@;
        let r = self.add_literals(literals);
        proof {
            assert(l_part(self@) =~= l_part(w1));
            assert(m_part(self@) =~= m_part(w1));
            assert(d_part(self@) =~= d_part(w1));
        }
        r
    }
}


/// Valid totals keep every weight within the V2 code range.
pub proof fn lemma_valid_codable(w: Seq<u16>)
    requires
        valid_totals(w),
    ensures
        codable(w),
{
    assert forall|i: int| 0 <= i < w.len() implies #[trigger] w[i] < 1048 by {
        if i < M_START {
            lemma_weight_le_total(l_part(w), i);
            assert(l_part(w)[i] == w[i]);
        } else if i < D_START {
            lemma_weight_le_total(m_part(w), i - M_START);
            assert(m_part(w)[i - M_START] == w[i]);
        } else if i < U_START {
            lemma_weight_le_total(d_part(w), i - D_START);
            assert(d_part(w)[i - D_START] == w[i]);
        } else {
            lemma_weight_le_total(u_part(w), i - U_START);
            assert(u_part(w)[i - U_START] == w[i]);
        }
    }
}

impl Weights {
    /// Appends the V1 weight payload to `dst`.
    pub fn store_v1_short(&self, dst: &mut Vec<u8>)
        requires
            self.wf(),
        ensures
            final(dst)@ == old(dst)@ + v1_payload(self@),
    {
        let mut tmp = vec![0u8; V1_WEIGHT_PAYLOAD_BYTES as usize];
        self.store_v1(tmp.as_mut_slice());
        proof {
            assert(tmp@.subrange(0, V1_WEIGHT_PAYLOAD_BYTES as int) =~= tmp@);
        }
        dst.extend_from_slice(tmp.as_slice());
    }

    /// Appends the V2 weight payload to `dst` and returns its size.
    pub fn store_v2_short(&self, dst: &mut Vec<u8>) -> (r: u32)
        requires
            self.wf(),
            codable(self@),
        ensures
            r <= V2_WEIGHT_PAYLOAD_BYTES_MAX,
            final(dst)@.len() == old(dst)@.len() + r,
            final(dst)@.subrange(0, old(dst)@.len() as int) == old(dst)@,
            bytes_value(final(dst)@.subrange(old(dst)@.len() as int, final(dst)@.len() as int))
                == weights_stream(self@).0,
            0 <= 8 * r - weights_stream(self@).1 < 8,
    {
        let mut tmp = vec![0u8; V2_WEIGHT_PAYLOAD_BYTES_MAX as usize];
        let n = self.store_v2(tmp.as_mut_slice());
        let part = vstd::slice::slice_subrange(tmp.as_slice(), 0, n as usize);
        dst.extend_from_slice(part);
        proof {
            assert((old(dst)@ + part@).subrange(0, old(dst)@.len() as int) =~= old(dst)@);
            assert((old(dst)@ + part@).subrange(old(dst)@.len() as int, (old(dst)@ + part@).len() as int) =~= part@);
            assert(part@ == tmp@.subrange(0, n as int));
            assert(dst@ == old(dst)@ + part@);
        }
        n
    }
}


/// The V2 weight payload codes the weights in table order, lowest bits first: the code of the
/// first weight stands in the lowest bits, and the codes of the rest follow above it.
pub proof fn lemma_weights_stream_first(w: Seq<u16>)
    requires
        w.len() >= 1,
    ensures
        weights_stream(w).0 == weight_code(w[0] as u64) + pow2(weight_bits(w[0] as u64) as nat)
            * weights_stream(w.drop_first()).0,
        weights_stream(w).1 == weight_bits(w[0] as u64) + weights_stream(w.drop_first()).1,
    decreases w.len(),
{
    let c0 = weight_code(w[0] as u64) as nat;
    let b0 = weight_bits(w[0] as u64) as nat;
    if w.len() == 1 {
        assert(w.drop_last() =~= Seq::<u16>::empty());
        assert(w.drop_first() =~= Seq::<u16>::empty());
        vstd::arithmetic::power2::lemma2_to64();
        assert(w.last() == w[0]);
        assert(weights_stream(w.drop_first()).0 == 0);
        assert(pow2(b0) * 0 == 0) by (nonlinear_arith);
        assert(weights_stream(w.drop_last()) == (0nat, 0nat));
        assert(pow2(0) == 1);
        assert(c0 * pow2(0) == c0);
        assert(weights_stream(w).0 == c0);
        assert(weights_stream(w).0 == c0 + pow2(b0) * weights_stream(w.drop_first()).0);
    } else {
        let t = w.drop_last();
        lemma_weights_stream_first(t);
        let r = w.drop_first();
        assert(r.drop_last() =~= t.drop_first());
        assert(t[0] == w[0]);
        assert(r.last() == w.last());
        let a = weights_stream(t.drop_first()).0;
        let bl = weights_stream(t.drop_first()).1;
        let cl = weight_code(w.last() as u64) as nat;
        lemma_pow2_adds(b0, bl);
        let p0 = pow2(b0);
        let pb = pow2(bl);
        assert(p0 * (a + cl * pb) == p0 * a + cl * (p0 * pb)) by (nonlinear_arith);
        assert(weights_stream(t).1 == b0 + bl);
        assert(pow2(weights_stream(t).1) == p0 * pb);
        assert(weights_stream(w).0 == weights_stream(t).0 + cl * pow2(weights_stream(t).1));
        assert(weights_stream(r).0 == a + cl * pb);
        assert(weights_stream(t).0 == c0 + p0 * a);
        assert(cl * pow2(weights_stream(t).1) == cl * (p0 * pb));
        assert(weights_stream(w).0 == c0 + p0 * a + cl * (p0 * pb));
        assert(p0 * weights_stream(r).0 == p0 * (a + cl * pb));
        assert(weights_stream(w).0 == c0 + p0 * weights_stream(r).0);
    }
}


/// The V1 weight payload of LZFSE: weight `i` is the little-endian `u16` at byte `2 i`.
pub proof fn lemma_v1_weights_layout(src: Seq<u8>)
    ensures
        v1_weights(src).len() == N_WEIGHTS,
        forall|i: int| 0 <= i < N_WEIGHTS ==> v1_weights(src)[i] as nat == crate::le::le_u16(src, 2 * i),
{
    assert forall|i: int| 0 <= i < N_WEIGHTS implies v1_weights(src)[i] as nat == crate::le::le_u16(src, 2 * i) by {
        assert(src[2 * i] + 256 * src[2 * i + 1] < 0x1_0000);
    }
}

} // verus!
