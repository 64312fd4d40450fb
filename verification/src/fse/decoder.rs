use vstd::prelude::*;
use vstd::arithmetic::power2::{pow2, lemma_pow2_pos, lemma_pow2_adds};
use vstd::std_specs::bits::u32_leading_zeros;

use crate::bits::bit_reader::BitReader;

use super::constants::{
    D_START, D_STATES, L_START, L_STATES, M_START, M_STATES, N_WEIGHTS, U_START, U_STATES,
};
use super::fse_spec::{dec_delta, dec_nbits, fse_k, fse_m, is_fse_states, lemma_fse_k};
use super::normalize::{total, lemma_total_prefix};
use super::tables::{
    d_base, d_base_value, d_extra, d_extra_bits, l_base, l_base_value, l_extra, l_extra_bits,
    m_base, m_base_value, m_extra, m_extra_bits,
};
use super::weights::{valid_totals, Weights, l_part, m_part, d_part, u_part};

verus! {

/// Literal length table kind.
pub const KIND_L: u8 = 0;
/// Match length table kind.
pub const KIND_M: u8 = 1;
/// Match distance table kind.
pub const KIND_D: u8 = 2;
/// Literal table kind.
pub const KIND_U: u8 = 3;

/// First decoder state of symbol `i`.
pub open spec fn sym_start(w: Seq<u16>, i: int) -> nat {
    total(w.subrange(0, i))
}

/// The symbol owning decoder state `s`.
pub open spec fn sym_at(w: Seq<u16>, s: nat) -> nat
    decreases w.len(),
{
    if w.len() == 0 {
        0
    } else if s >= total(w.drop_last()) {
        (w.len() - 1) as nat
    } else {
        sym_at(w.drop_last(), s)
    }
}

/// Value base of symbol `i` of a table of kind `kind`.
pub open spec fn sym_base(kind: u8, i: nat) -> nat {
    if kind == KIND_L {
        l_base(i)
    } else if kind == KIND_M {
        m_base(i)
    } else if kind == KIND_D {
        d_base(i)
    } else {
        i
    }
}

/// Extra value bits of symbol `i` of a table of kind `kind`.
pub open spec fn sym_extra(kind: u8, i: nat) -> nat {
    if kind == KIND_L {
        l_extra(i)
    } else if kind == KIND_M {
        m_extra(i)
    } else if kind == KIND_D {
        d_extra(i)
    } else {
        0
    }
}

/// Decoder table entry: state bits `k`, base of the next state `delta`, and the symbol's value
/// base `vbase` and extra value bits `value_bits`.
#[derive(Copy, Clone, Debug)]
pub struct DEntry {
    pub k: u8,
    pub value_bits: u8,
    pub delta: u16,
    pub vbase: u32,
}

/// The entry of decoder state `s` of a table of kind `kind` over weights `w` and `n` states.
/// States past the total weight decode as symbol 0 with no state bits.
pub open spec fn entry_ok(e: DEntry, w: Seq<u16>, n: u32, kind: u8, s: nat) -> bool {
    if s < total(w) {
        let i = sym_at(w, s);
        let j = (s - sym_start(w, i as int)) as nat;
        &&& e.k == dec_nbits(w[i as int] as u32, n, j)
        &&& e.delta == dec_delta(w[i as int] as u32, n, j)
        &&& e.vbase == sym_base(kind, i)
        &&& e.value_bits == sym_extra(kind, i)
    } else {
        &&& e.k == 0
        &&& e.delta == 0
        &&& e.vbase == sym_base(kind, 0)
        &&& e.value_bits == sym_extra(kind, 0)
    }
}

/// Bounds every entry of a decoder table keeps.
pub open spec fn entry_bounded(e: DEntry, n: u32) -> bool {
    &&& e.k <= fse_m(n)
    &&& e.delta + pow2(e.k as nat) <= n
    &&& e.value_bits <= 15
    &&& e.vbase < 229376
}

/// `t` is the decoder table of kind `kind` over weights `w` and `n` states.
pub open spec fn table_for(t: Seq<DEntry>, w: Seq<u16>, n: u32, kind: u8) -> bool {
    &&& t.len() == n
    &&& forall|s: int| 0 <= s < n ==> #[trigger] entry_ok(t[s], w, n, kind, s as nat)
    &&& forall|s: int| 0 <= s < n ==> #[trigger] entry_bounded(t[s], n)
}

/// The symbol of a state below the total weight is a symbol whose states hold it.
pub proof fn lemma_sym_at(w: Seq<u16>, s: nat)
    requires
        s < total(w),
    ensures
        sym_at(w, s) < w.len(),
        sym_start(w, sym_at(w, s) as int) <= s < sym_start(w, sym_at(w, s) as int) + w[sym_at(
            w,
            s,
        ) as int],
    decreases w.len(),
{
    let i = (w.len() - 1) as int;
    assert(w.subrange(0, i) =~= w.drop_last());
    if s < total(w.drop_last()) {
        lemma_sym_at(w.drop_last(), s);
        let k = sym_at(w, s) as int;
        assert(w.subrange(0, k) =~= w.drop_last().subrange(0, k));
    }
}

/// The states of symbol `i` decode to `i`.
pub proof fn lemma_sym_at_unique(w: Seq<u16>, i: int, s: nat)
    requires
        0 <= i < w.len(),
        sym_start(w, i) <= s < sym_start(w, i) + w[i],
    ensures
        sym_at(w, s) == i,
    decreases w.len(),
{
    let l = (w.len() - 1) as int;
    assert(w.subrange(0, l) =~= w.drop_last());
    if i < l {
        assert(w.subrange(0, i) =~= w.drop_last().subrange(0, i));
        super::encoder::lemma_prefix_le(w.drop_last(), i + 1);
        lemma_total_prefix(w.drop_last(), i);
        lemma_sym_at_unique(w.drop_last(), i, s);
    }
}

/// The bits of a state count: `n == 2^state_bits(n)`.
pub open spec fn state_bits(n: u32) -> nat {
    (31 - u32_leading_zeros(n)) as nat
}

/// A decoder entry's state bits and next state base keep the next state below `n`.
proof fn lemma_entry_bounds(w: u32, n: u32, j: nat, m: u32)
    requires
        n == (1u32 << m),
        m <= 10,
        1 <= w <= n,
        j < w,
    ensures
        dec_nbits(w, n, j) <= m,
        dec_delta(w, n, j) + pow2(dec_nbits(w, n, j)) <= n,
        (w + j) * pow2(dec_nbits(w, n, j)) >= n,
{
    lemma_fse_k(w, n, m);
    let k = fse_k(w, n);
    vstd::arithmetic::power2::lemma2_to64();
    lemma_pow2_pos(k);
    if (w + j) * pow2(k) < 2 * n {
        // (w + j) 2^k and 2n are multiples of 2^k.
        lemma_pow2_adds(k, (m + 1 - k) as nat);
        assert(pow2((m + 1) as nat) == 2 * pow2(m as nat)) by {
            vstd::arithmetic::power2::lemma_pow2_unfold((m + 1) as nat);
        }
        let q = pow2((m + 1 - k) as nat);
        assert(2 * n == pow2(k) * q);
        assert((w + j) < q) by (nonlinear_arith)
            requires (w + j) * pow2(k) < pow2(k) * q, pow2(k) > 0;
        assert((w + j + 1) * pow2(k) <= 2 * n) by (nonlinear_arith)
            requires w + j + 1 <= q, 2 * n == pow2(k) * q, pow2(k) > 0;
        assert((w + j) * pow2(k) >= n) by (nonlinear_arith)
            requires w * pow2(k) >= n, j >= 0, pow2(k) > 0;
        assert(dec_nbits(w, n, j) == k);
        assert((w + j) * pow2(k) + pow2(k) <= 2 * n) by (nonlinear_arith)
            requires (w + j + 1) * pow2(k) <= 2 * n;
    } else {
        assert(k >= 1) by {
            if k == 0 {
                assert((w + j) * 1 < 2 * n);
            }
        }
        let k1 = (k - 1) as nat;
        lemma_pow2_adds(k1, 1);
        assert(pow2(k) == 2 * pow2(k1));
        lemma_pow2_pos(k1);
        assert((w + j + 1) * pow2(k1) <= w * pow2(k)) by (nonlinear_arith)
            requires j < w, pow2(k) == 2 * pow2(k1), pow2(k1) > 0;
        assert((w + j) * pow2(k1) >= n) by (nonlinear_arith)
            requires (w + j) * pow2(k) >= 2 * n, pow2(k) == 2 * pow2(k1);
        assert(dec_nbits(w, n, j) == k1);
        assert((w + j) * pow2(k1) + pow2(k1) <= 2 * n) by (nonlinear_arith)
            requires (w + j + 1) * pow2(k1) <= w * pow2(k), w * pow2(k) < 2 * n;
    }
}

/// Value base and extra value bits of symbol `i` of a table of kind `kind`.
fn base_extra(kind: u8, i: usize) -> (r: (u32, u8))
    requires
        kind == KIND_L ==> i < 20,
        kind == KIND_M ==> i < 20,
        kind == KIND_D ==> i < 64,
        kind > KIND_D ==> i < 256,
    ensures
        r.0 == sym_base(kind, i as nat),
        r.1 == sym_extra(kind, i as nat),
        r.1 <= 15,
        r.0 < 229376,
{
    if kind == KIND_L {
        (l_base_value(i), l_extra_bits(i) as u8)
    } else if kind == KIND_M {
        (m_base_value(i), m_extra_bits(i) as u8)
    } else if kind == KIND_D {
        (d_base_value(i), d_extra_bits(i) as u8)
    } else {
        (i as u32, 0)
    }
}

/// Builds the decoder table of kind `kind` over `weights` and `n_states` states.
pub fn build_d_table(weights: &[u16], n_states: u32, kind: u8) -> (r: Vec<DEntry>)
    requires
        is_fse_states(n_states),
        total(weights@) <= n_states,
        kind == KIND_L ==> weights@.len() <= 20,
        kind == KIND_M ==> weights@.len() <= 20,
        kind == KIND_D ==> weights@.len() <= 64,
        kind > KIND_D ==> weights@.len() <= 256,
    ensures
        table_for(r@, weights@, n_states, kind),
{
    let ghost w = weights@;
    let ghost m = fse_m(n_states);
    proof {
        assert(n_states <= 1024 && n_states >= 1) by (bit_vector)
            requires n_states == (1u32 << m), m <= 10;
        vstd::std_specs::bits::axiom_u32_leading_zeros(n_states);
    }
    let n_clz = n_states.leading_zeros();
    let mut t: Vec<DEntry> = Vec::new();
    let mut i: usize = 0;
    proof {
        assert(w.subrange(0, 0) =~= Seq::<u16>::empty());
    }
    while i < weights.len()
        invariant
            w == weights@,
            i <= w.len(),
            is_fse_states(n_states),
            n_states == (1u32 << m),
            m <= 10,
            1 <= n_states <= 1024,
            n_clz == u32_leading_zeros(n_states),
            total(w) <= n_states,
            kind == KIND_L ==> w.len() <= 20,
            kind == KIND_M ==> w.len() <= 20,
            kind == KIND_D ==> w.len() <= 64,
            kind > KIND_D ==> w.len() <= 256,
            t@.len() == sym_start(w, i as int),
            forall|s: int| 0 <= s < t@.len() ==> #[trigger] entry_ok(t@[s], w, n_states, kind, s as nat),
            forall|s: int| 0 <= s < t@.len() ==> #[trigger] entry_bounded(t@[s], n_states),
            m == fse_m(n_states),
        decreases w.len() - i,
    {
        let wi = weights[i] as u32;
        let (vbase, value_bits) = base_extra(kind, i);
        proof {
            lemma_total_prefix(w, i as int);
            super::encoder::lemma_prefix_le(w, i + 1);
        }
        if wi != 0 {
            proof {
                lemma_fse_k(wi, n_states, m);
                vstd::std_specs::bits::axiom_u32_leading_zeros(wi);
            }
            let k = wi.leading_zeros() - n_clz;
            let mut j: u32 = 0;
            while j < wi
                invariant
                    w == weights@,
                    i < w.len(),
                    wi == w[i as int],
                    1 <= wi <= n_states,
                    n_states == (1u32 << m),
                    m <= 10,
                    1 <= n_states <= 1024,
                    k == fse_k(wi, n_states),
                    k <= m,
                    total(w) <= n_states,
                    sym_start(w, i as int) + wi <= n_states,
                    vbase == sym_base(kind, i as nat),
                    value_bits == sym_extra(kind, i as nat),
                    j <= wi,
                    t@.len() == sym_start(w, i as int) + j,
                    forall|s: int|
                        0 <= s < t@.len() ==> #[trigger] entry_ok(t@[s], w, n_states, kind, s as nat),
                    forall|s: int| 0 <= s < t@.len() ==> #[trigger] entry_bounded(t@[s], n_states),
                    m == fse_m(n_states),
                    value_bits <= 15,
                    vbase < 229376,
                decreases wi - j,
            {
                proof {
                    lemma_entry_bounds(wi, n_states, j as nat, m);
                    vstd::bits::lemma_u32_pow2_no_overflow(k as nat);
                    lemma_pow2_pos(k as nat);
                    vstd::arithmetic::power2::lemma2_to64();
                    if k < 11 {
                        vstd::arithmetic::power2::lemma_pow2_strictly_increases(k as nat, 11);
                    }
                    assert((wi + j) * pow2(k as nat) < 2048 * 2048) by (nonlinear_arith)
                        requires wi + j < 2048, pow2(k as nat) < 2048;
                    vstd::bits::lemma_u32_shl_is_mul((wi + j) as u32, k);
                }
                let x = (wi + j) << k;
                assert(x == (wi + j) * pow2(k as nat));
                let e;
                if x < 2 * n_states {
                    e = DEntry { k: k as u8, value_bits, delta: (x - n_states) as u16, vbase };
                } else {
                    proof {
                        assert(k >= 1) by {
                            if k == 0 {
                                assert(pow2(0) == 1);
                                assert(x == wi + j) by (nonlinear_arith)
                                    requires x == (wi + j) * pow2(k as nat), k == 0, pow2(0) == 1;
                            }
                        }
                        lemma_pow2_adds((k - 1) as nat, 1);
                        vstd::bits::lemma_u32_shl_is_mul((wi + j) as u32, (k - 1) as u32);
                    }
                    let y = (wi + j) << (k - 1);
                    e = DEntry { k: (k - 1) as u8, value_bits, delta: (y - n_states) as u16, vbase };
                }
                let ghost s = t@.len();
                proof {
                    lemma_entry_bounds(wi, n_states, j as nat, m);
                    assert(entry_bounded(e, n_states));
                }
                t.push(e);
                proof {
                    lemma_sym_at_unique(w, i as int, s as nat);
                    assert(s < total(w)) by {
                        lemma_total_prefix(w, i as int);
                        super::encoder::lemma_prefix_le(w, i + 1);
                    }
                    assert(entry_ok(t@[s as int], w, n_states, kind, s as nat));
                }
                j = j + 1;
            }
        }
        i = i + 1;
    }
    proof {
        assert(w.subrange(0, w.len() as int) =~= w);
    }
    let (vbase, value_bits) = base_extra(kind, 0);
    while t.len() < n_states as usize
        invariant
            w == weights@,
            total(w) <= t@.len() <= n_states,
            n_states <= 1024,
            vbase == sym_base(kind, 0),
            value_bits == sym_extra(kind, 0),
            forall|s: int| 0 <= s < t@.len() ==> #[trigger] entry_ok(t@[s], w, n_states, kind, s as nat),
            forall|s: int| 0 <= s < t@.len() ==> #[trigger] entry_bounded(t@[s], n_states),
            value_bits <= 15,
            vbase < 229376,
        decreases n_states - t@.len(),
    {
        proof {
            vstd::arithmetic::power2::lemma2_to64();
        }
        t.push(DEntry { k: 0, value_bits, delta: 0, vbase });
    }
    t
}


/// The state counts of the four tables.
pub proof fn lemma_state_counts()
    ensures
        is_fse_states(L_STATES),
        is_fse_states(M_STATES),
        is_fse_states(D_STATES),
        is_fse_states(U_STATES),
        fse_m(L_STATES) == 6,
        fse_m(M_STATES) == 6,
        fse_m(D_STATES) == 8,
        fse_m(U_STATES) == 10,
{
    lemma_state_pows();
    assert(exists|m: u32| m <= 10 && 64u32 == (1u32 << m)) by {
        assert(6u32 <= 10 && 64u32 == (1u32 << 6u32));
    }
    assert(exists|m: u32| m <= 10 && 256u32 == (1u32 << m)) by {
        assert(8u32 <= 10 && 256u32 == (1u32 << 8u32));
    }
    assert(exists|m: u32| m <= 10 && 1024u32 == (1u32 << m)) by {
        assert(10u32 <= 10 && 1024u32 == (1u32 << 10u32));
    }
}

/// The state counts are the powers of two they are, and of no other exponent.
pub(crate) proof fn lemma_state_pows()
    by (bit_vector)
    ensures
        64u32 == (1u32 << 6u32),
        256u32 == (1u32 << 8u32),
        1024u32 == (1u32 << 10u32),
        forall|m: u32| m <= 10 && 64u32 == (1u32 << m) ==> m == 6,
        forall|m: u32| m <= 10 && 256u32 == (1u32 << m) ==> m == 8,
        forall|m: u32| m <= 10 && 1024u32 == (1u32 << m) ==> m == 10,
{
}

/// One decoding step from state `s` of a table over weights `w` and `n` states: the symbol, the
/// state bits to read and the base of the next state.
pub open spec fn dec_step(w: Seq<u16>, n: u32, s: nat) -> (nat, nat, nat) {
    if s < total(w) {
        let i = sym_at(w, s);
        let j = (s - sym_start(w, i as int)) as nat;
        (i, dec_nbits(w[i as int] as u32, n, j), dec_delta(w[i as int] as u32, n, j))
    } else {
        (0, 0, 0)
    }
}

/// FSE decoder: one table per stream kind, built from a weight table.
pub struct Decoder {
    l: Vec<DEntry>,
    m: Vec<DEntry>,
    d: Vec<DEntry>,
    u: Vec<DEntry>,
    weights: Ghost<Seq<u16>>,
}

/// Decodes one value with table `t`: reads the state bits, then the extra value bits.
fn decode_value(t: &Vec<DEntry>, n: u32, reader: &mut BitReader, state: &mut u32) -> (r: u32)
    requires
        (*old(state) as int) < t@.len(),
        t@.len() == n,
        entry_bounded(t@[*old(state) as int], n),
        fse_m(n) <= 10,
        old(reader).inv(),
        old(reader).pending() >= t@[*old(state) as int].k + t@[*old(state) as int].value_bits,
    ensures
        ({
            let e = t@[*old(state) as int];
            let l0 = old(reader).rem_len();
            let v0 = old(reader).rem_value();
            let l1 = l0 - e.k;
            let l2 = l1 - e.value_bits;
            &&& final(reader).inv()
            &&& final(reader).src() == old(reader).src()
            &&& final(reader).exact() == old(reader).exact()
            &&& final(reader).pending() == old(reader).pending() - e.k - e.value_bits
            &&& final(reader).rem_len() == l2
            &&& *final(state) < n
            &&& e.vbase <= r < e.vbase + pow2(e.value_bits as nat)
            &&& final(reader).exact() ==> {
                &&& *final(state) == e.delta + v0 / pow2(l1 as nat)
                &&& r == e.vbase + (v0 % pow2(l1 as nat)) / pow2(l2 as nat)
                &&& final(reader).rem_value() == (v0 % pow2(l1 as nat)) % pow2(l2 as nat)
            }
            &&& !final(reader).exact() ==> final(reader).idx() == 0
        }),
{
    let e = t[*state as usize];
    let b = reader.pull(e.k as usize);
    let x = reader.pull(e.value_bits as usize);
    proof {
        lemma_pow2_pos(e.value_bits as nat);
        vstd::arithmetic::power2::lemma_pow2_strictly_increases(e.value_bits as nat, 16);
        vstd::arithmetic::power2::lemma2_to64();
    }
    *state = e.delta as u32 + b as u32;
    e.vbase + x as u32
}

/// Most extra value bits of a table of kind `kind`.
pub open spec fn extra_max(kind: u8) -> nat {
    if kind == KIND_L {
        8
    } else if kind == KIND_M {
        11
    } else if kind == KIND_D {
        15
    } else {
        0
    }
}

/// What one value decoding step does: from reader `r0` and state `s0` to reader `r1`, state
/// `s1` and value `v`, over a table of kind `kind` built from weights `w` and `n` states.
pub open spec fn dec_value_post<'a>(
    r0: BitReader<'a>,
    r1: BitReader<'a>,
    s0: u32,
    s1: u32,
    v: u32,
    w: Seq<u16>,
    n: u32,
    kind: u8,
) -> bool {
    let (sym, nb, delta) = dec_step(w, n, s0 as nat);
    let xb = sym_extra(kind, sym);
    let l1 = r0.rem_len() - nb;
    let l2 = l1 - xb;
    &&& r1.inv()
    &&& r1.src() == r0.src()
    &&& r1.exact() == r0.exact()
    &&& r1.pending() == r0.pending() - nb - xb
    &&& r1.rem_len() == l2
    &&& nb <= fse_m(n)
    &&& xb <= extra_max(kind)
    &&& s1 < n
    &&& sym_base(kind, sym) <= v < sym_base(kind, sym) + pow2(xb)
    &&& r1.exact() ==> {
        &&& s1 == delta + r0.rem_value() / pow2(l1 as nat)
        &&& v == sym_base(kind, sym) + (r0.rem_value() % pow2(l1 as nat)) / pow2(l2 as nat)
        &&& r1.rem_value() == (r0.rem_value() % pow2(l1 as nat)) % pow2(l2 as nat)
    }
    &&& !r1.exact() ==> r1.idx() == 0
}

/// Decodes one value with the table `t` of kind `kind` over weights `w` and `n` states.
fn decode_table(
    t: &Vec<DEntry>,
    Ghost(w): Ghost<Seq<u16>>,
    n: u32,
    Ghost(kind): Ghost<u8>,
    reader: &mut BitReader,
    state: &mut u32,
) -> (r: u32)
    requires
        table_for(t@, w, n, kind),
        fse_m(n) <= 10,
        kind == KIND_D ==> w.len() <= 64,
        kind == KIND_U ==> w.len() <= 256,
        *old(state) < n,
        old(reader).inv(),
        old(reader).pending() >= fse_m(n) + extra_max(kind),
    ensures
        dec_value_post(*old(reader), *final(reader), *old(state), *final(state), r, w, n, kind),
{
    let ghost s = *state as int;
    let ghost e = t@[s];
    proof {
        assert(entry_ok(t@[s], w, n, kind, s as nat));
        assert(entry_bounded(t@[s], n));
        if s < total(w) {
            lemma_sym_at(w, s as nat);
        }
        vstd::arithmetic::power2::lemma2_to64();
        let (sym, nb, delta) = dec_step(w, n, s as nat);
        assert(e.k == nb && e.delta == delta);
        assert(e.vbase == sym_base(kind, sym) && e.value_bits == sym_extra(kind, sym));
        assert(e.value_bits <= extra_max(kind));
    }
    decode_value(t, n, reader, state)
}

impl Decoder {
    /// The weights the tables were built from.
    pub closed spec fn weights(&self) -> Seq<u16> {
        self.weights@
    }

    /// The tables are those of `weights()`.
    pub closed spec fn wf(&self) -> bool {
        &&& self.weights@.len() == N_WEIGHTS
        &&& valid_totals(self.weights@)
        &&& table_for(self.l@, l_part(self.weights@), L_STATES, KIND_L)
        &&& table_for(self.m@, m_part(self.weights@), M_STATES, KIND_M)
        &&& table_for(self.d@, d_part(self.weights@), D_STATES, KIND_D)
        &&& table_for(self.u@, u_part(self.weights@), U_STATES, KIND_U)
    }

    /// Builds the four tables from `weights`.
    pub fn init(&mut self, weights: &Weights)
        requires
            weights.wf(),
            valid_totals(weights@),
        ensures
            final(self).wf(),
            final(self).weights() == weights@,
    {
        proof {
            lemma_state_counts();
        }
        self.l = build_d_table(weights.ls(), L_STATES, KIND_L);
        self.m = build_d_table(weights.ms(), M_STATES, KIND_M);
        self.d = build_d_table(weights.ds(), D_STATES, KIND_D);
        self.u = build_d_table(weights.us(), U_STATES, KIND_U);
        self.weights = Ghost(weights@);
    }

    /// Decodes one literal from `state`.
    pub fn u(&self, reader: &mut BitReader, state: &mut u32) -> (r: u8)
        requires
            self.wf(),
            old(reader).inv(),
            old(reader).pending() >= 10,
            *old(state) < U_STATES,
        ensures
            ({
                let (sym, nb, delta) = dec_step(u_part(self.weights()), U_STATES, *old(state) as nat);
                let l1 = old(reader).rem_len() - nb;
                &&& final(reader).inv()
                &&& final(reader).src() == old(reader).src()
                &&& final(reader).exact() == old(reader).exact()
                &&& final(reader).pending() == old(reader).pending() - nb
                &&& final(reader).rem_len() == l1
                &&& nb <= 10
                &&& *final(state) < U_STATES
                &&& r == sym
                &&& final(reader).exact() ==> {
                    &&& *final(state) == delta + old(reader).rem_value() / pow2(l1 as nat)
                    &&& final(reader).rem_value() == old(reader).rem_value() % pow2(l1 as nat)
                }
                &&& !final(reader).exact() ==> final(reader).idx() == 0
            }),
    {
        proof {
            lemma_state_counts();
            let w = u_part(self.weights@);
            let s = *state as int;
            assert(entry_ok(self.u@[s], w, U_STATES, KIND_U, s as nat));
            assert(entry_bounded(self.u@[s], U_STATES));
            if s < total(w) {
                lemma_sym_at(w, s as nat);
            }
            vstd::arithmetic::power2::lemma2_to64();
        }
        let ghost v0 = reader.rem_value();
        let ghost l0 = reader.rem_len();
        let ghost e = self.u@[*state as int];
        let r = decode_value(&self.u, U_STATES, reader, state);
        proof {
            vstd::arithmetic::power2::lemma2_to64();
            let l1 = l0 - e.k;
            assert(e.value_bits == 0);
            if reader.exact() {
                lemma_pow2_pos(l1 as nat);
                let p = pow2(l1 as nat);
                vstd::arithmetic::div_mod::lemma_mod_bound(v0 as int, p as int);
                vstd::arithmetic::div_mod::lemma_small_mod((v0 % p) as nat, p as nat);
                vstd::arithmetic::div_mod::lemma_basic_div_specific_divisor(p as int);
                assert((v0 % p) / p == 0);
            }
            let w = u_part(self.weights@);
            let st = old(state);
            let (sym, nb, delta) = dec_step(w, U_STATES, *st as nat);
            assert(e.k == nb);
            assert(e.delta == delta);
            assert(e.vbase == sym);
            assert(sym < 256);
        }
        r as u8
    }
}


impl Decoder {
    /// Decodes one literal length from `state`.
    pub fn l(&self, reader: &mut BitReader, state: &mut u32) -> (r: u32)
        requires
            self.wf(),
            old(reader).inv(),
            old(reader).pending() >= 14,
            *old(state) < L_STATES,
        ensures
            dec_value_post(
                *old(reader),
                *final(reader),
                *old(state),
                *final(state),
                r,
                l_part(self.weights()),
                L_STATES,
                KIND_L,
            ),
            r <= super::constants::MAX_L_VALUE,
    {
        proof {
            lemma_state_counts();
            vstd::arithmetic::power2::lemma2_to64();
        }
        decode_table(&self.l, Ghost(l_part(self.weights@)), L_STATES, Ghost(KIND_L), reader, state)
    }

    /// Decodes one match length from `state`.
    pub fn m(&self, reader: &mut BitReader, state: &mut u32) -> (r: u32)
        requires
            self.wf(),
            old(reader).inv(),
            old(reader).pending() >= 17,
            *old(state) < M_STATES,
        ensures
            dec_value_post(
                *old(reader),
                *final(reader),
                *old(state),
                *final(state),
                r,
                m_part(self.weights()),
                M_STATES,
                KIND_M,
            ),
            r <= super::constants::MAX_M_VALUE,
    {
        proof {
            lemma_state_counts();
            vstd::arithmetic::power2::lemma2_to64();
        }
        decode_table(&self.m, Ghost(m_part(self.weights@)), M_STATES, Ghost(KIND_M), reader, state)
    }

    /// Decodes one match distance from `state`.
    pub fn d(&self, reader: &mut BitReader, state: &mut u32) -> (r: u32)
        requires
            self.wf(),
            old(reader).inv(),
            old(reader).pending() >= 23,
            *old(state) < D_STATES,
        ensures
            dec_value_post(
                *old(reader),
                *final(reader),
                *old(state),
                *final(state),
                r,
                d_part(self.weights()),
                D_STATES,
                KIND_D,
            ),
            r <= super::constants::MAX_D_VALUE,
    {
        proof {
            lemma_state_counts();
        }
        let ghost s = *state as nat;
        let r = decode_table(&self.d, Ghost(d_part(self.weights@)), D_STATES, Ghost(KIND_D), reader, state);
        proof {
            let w = d_part(self.weights@);
            let sym = dec_step(w, D_STATES, s).0;
            if s < total(w) {
                lemma_sym_at(w, s);
            }
            assert(sym < 64);
            super::tables::lemma_d_base_mono(sym + 1, 64);
            super::tables::lemma_d_base_closed(64);
            vstd::arithmetic::power2::lemma2_to64();
            assert(d_base(sym + 1) == d_base(sym) + pow2(d_extra(sym)));
            assert(64nat % 4 == 0 && 64nat / 4 == 16);
            assert(d_base(64) + 4 == 4 * pow2(16));
            assert(d_base(64) == 262140);
            assert(r < d_base(sym) + pow2(d_extra(sym)));
        }
        r
    }
}


impl Default for Decoder {
    /// The decoder of the all-zero weight table.
    fn default() -> (r: Self)
        ensures
            r.wf(),
            forall|i: int| 0 <= i < N_WEIGHTS ==> #[trigger] r.weights()[i] == 0,
    {
        let weights = Weights::default();
        proof {
            let w = weights@;
            super::normalize::lemma_zero_total(l_part(w));
            super::normalize::lemma_zero_total(m_part(w));
            super::normalize::lemma_zero_total(d_part(w));
            super::normalize::lemma_zero_total(u_part(w));
        }
        let mut d = Decoder {
            l: Vec::new(),
            m: Vec::new(),
            d: Vec::new(),
            u: Vec::new(),
            weights: Ghost(Seq::empty()),
        };
        d.init(&weights);
        d
    }
}

} // verus!
