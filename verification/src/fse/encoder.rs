use vstd::prelude::*;
use vstd::arithmetic::power2::{pow2, lemma_pow2_pos, lemma_pow2_adds};
use vstd::std_specs::bits::u32_leading_zeros;

use crate::bits::accum::ACCUM_MAX;
use crate::bits::bit_writer::BitWriter;

use super::fse_spec::{fse_k, fse_m, enc_nbits, enc_next, is_fse_states, lemma_fse_k};
use super::normalize::{total, lemma_total_prefix, lemma_weight_le_total};
use super::constants::{L_STATES, M_STATES, D_STATES, U_STATES, MAX_L_VALUE, MAX_M_VALUE, MAX_D_VALUE, N_WEIGHTS};
use super::decoder::{lemma_state_counts, sym_start};
use super::tables::{
    d_base, d_base_value, d_extra, d_extra_bits, d_sym, d_symbol, l_base, l_base_value, l_extra,
    l_extra_bits, l_sym, l_symbol, m_base, m_base_value, m_extra, m_extra_bits, m_sym, m_symbol,
};
use super::weights::{valid_totals, Weights, l_part, m_part, d_part, u_part};

verus! {

/// Encoder table entry of one symbol.
#[derive(Copy, Clone)]
pub struct EEntry {
    t_k: i16,
    t_w: i16,
    weight: Ghost<u16>,
    start: Ghost<nat>,
    states: Ghost<u32>,
}

impl EEntry {
    /// The symbol weight the entry was built for.
    pub closed spec fn weight(self) -> u16 {
        self.weight@
    }

    /// The first decoder state of the symbol.
    pub closed spec fn start(self) -> nat {
        self.start@
    }

    /// The state count of the table.
    pub closed spec fn states(self) -> u32 {
        self.states@
    }

    /// The entry encodes a symbol of weight `weight()` whose states start at `start()`.
    pub closed spec fn wf(self) -> bool {
        &&& is_fse_states(self.states@)
        &&& self.start@ + self.weight@ <= self.states@
        &&& if self.weight@ == 0 {
            self.t_k == -(self.states@ as int) && self.t_w == 0
        } else {
            &&& self.t_k == 1024 * fse_k(self.weight@ as u32, self.states@) - self.weight@ * pow2(
                fse_k(self.weight@ as u32, self.states@),
            )
            &&& self.t_w == self.states@ + self.start@ - self.weight@
        }
    }

    /// Encodes the symbol from encoder state `state`, pushing the low state bits.
    pub fn encode(self, writer: &mut BitWriter, state: &mut u32)
        requires
            self.wf(),
            old(writer).inv(),
            old(writer).pending() + fse_m(self.states()) <= ACCUM_MAX,
            self.states() <= *old(state) < 2 * self.states(),
        ensures
            final(writer).inv(),
            final(writer).mark() == old(writer).mark(),
            final(writer).nbytes() == old(writer).nbytes(),
            final(writer).flushed() == old(writer).flushed(),
            self.weight() == 0 ==> *final(state) == *old(state) && final(writer).value()
                == old(writer).value() && final(writer).bit_len() == old(writer).bit_len()
                && final(writer).pending() == old(writer).pending(),
            self.weight() != 0 ==> {
                let nb = enc_nbits(self.weight() as u32, self.states(), *old(state) as nat);
                &&& *final(state) == enc_next(
                    self.weight() as u32,
                    self.start(),
                    self.states(),
                    *old(state) as nat,
                )
                &&& final(writer).value() == old(writer).value() + (*old(state) as nat % pow2(nb))
                    * pow2(old(writer).bit_len())
                &&& final(writer).bit_len() == old(writer).bit_len() + nb
                &&& final(writer).pending() == old(writer).pending() + nb
            },
            self.states() <= *final(state) < 2 * self.states(),
            final(writer).bit_len() <= old(writer).bit_len() + fse_m(self.states()),
    {
        let s = *state;
        let ghost n = self.states@;
        let ghost w = self.weight@;
        let ghost m = fse_m(n);
        proof {
            assert(n <= 1024) by (bit_vector) requires n == (1u32 << m), m <= 10;
            if w != 0 {
                lemma_fse_k(w as u32, n, m);
                lemma_pow2_pos(fse_k(w as u32, n));
            }
        }
        let x = self.t_k as i32 + s as i32;
        proof {
            if w != 0 {
                let k = fse_k(w as u32, n);
                assert(k >= 1 || w * pow2(k) == n) by {
                    if k == 0 {
                        vstd::arithmetic::power2::lemma2_to64();
                    }
                }
                assert(x >= 0) by (nonlinear_arith)
                    requires
                        x == 1024 * k - w * pow2(k) + s,
                        s >= n,
                        w * pow2(k) < 2 * n,
                        n <= 1024,
                        k >= 1 || w * pow2(k) == n,
                ;
            }
        }
        let n_bits = (x as u32) >> 10;
        proof {
            vstd::bits::lemma_u32_shr_is_div(x as u32, 10);
            vstd::arithmetic::power2::lemma2_to64();
            if w != 0 {
                let k = fse_k(w as u32, n);
                if s >= w * pow2(k) {
                    vstd::arithmetic::div_mod::lemma_fundamental_div_mod_converse(
                        x as int, 1024, k as int, (s - w * pow2(k)) as int);
                } else {
                    vstd::arithmetic::div_mod::lemma_fundamental_div_mod_converse(
                        x as int, 1024, (k - 1) as int, (1024 + s - w * pow2(k)) as int);
                }
                assert(n_bits == enc_nbits(w as u32, n, s as nat));
            } else {
                vstd::arithmetic::div_mod::lemma_fundamental_div_mod_converse(
                    x as int, 1024, 0, (s - n) as int);
                assert(n_bits == 0);
            }
        }
        let q = s >> n_bits;
        proof {
            vstd::bits::lemma_u32_shr_is_div(s, n_bits);
            lemma_pow2_pos(n_bits as nat);
            vstd::arithmetic::div_mod::lemma_div_is_ordered(0, s as int, pow2(n_bits as nat) as int);
            if w == 0 {
                assert(pow2(0) == 1);
                vstd::arithmetic::div_mod::lemma_div_basics(s as int);
                assert(q == s);
            }
        }
        let next = (self.t_w as u32) + q;
        let mask = crate::kit::mask_u32(n_bits);
        let bits = s & mask;
        proof {
            vstd::bits::lemma_u32_low_bits_mask_is_mod(s, n_bits as nat);
            assert(mask == (vstd::bits::low_bits_mask(n_bits as nat) as u32));
            vstd::arithmetic::div_mod::lemma_mod_bound(s as int, pow2(n_bits as nat) as int);
            if w != 0 {
                let nb = n_bits as nat;
                // The next state stays within [n, 2n).
                lemma_next_range(w as u32, self.start@, n, s as nat, m);
                assert(n_bits <= fse_k(w as u32, n));
            }
        }
        writer.push(bits as u64, n_bits as u64);
        *state = next;
    }
}

/// The next encoder state stays within `[n, 2n)`.
proof fn lemma_next_range(w: u32, c: nat, n: u32, s: nat, m: u32)
    requires
        n == (1u32 << m),
        m <= 10,
        1 <= w,
        c + w <= n,
        n <= s < 2 * n,
    ensures
        n <= enc_next(w, c, n, s) < 2 * n,
        enc_nbits(w, n, s) <= 10,
{
    assert(is_fse_states(n));
    super::fse_spec::lemma_fse_step_inverse(w, c, n, s);
}

impl Default for EEntry {
    fn default() -> (r: Self) {
        Self { t_k: 0, t_w: 0, weight: Ghost(0), start: Ghost(0), states: Ghost(0) }
    }
}

/// Entries of `table` encode the symbols of `weights` over `n_states` states.
pub open spec fn e_table_for(table: Seq<EEntry>, weights: Seq<u16>, n_states: u32) -> bool {
    &&& table.len() == weights.len()
    &&& forall|i: int|
        0 <= i < table.len() ==> {
            &&& (#[trigger] table[i]).wf()
            &&& table[i].weight() == weights[i]
            &&& table[i].start() == total(weights.subrange(0, i))
            &&& table[i].states() == n_states
        }
}

/// Builds the encoder table of `weights` over `n_states` states.
pub fn build_e_table(weights: &[u16], n_states: u32, table: &mut [EEntry])
    requires
        weights@.len() == old(table)@.len(),
        is_fse_states(n_states),
        total(weights@) <= n_states,
    ensures
        e_table_for(final(table)@, weights@, n_states),
{
    let ghost m = choose|m: u32| m <= 10 && n_states == (1u32 << m);
    proof {
        assert(n_states <= 1024 && n_states >= 1) by (bit_vector)
            requires n_states == (1u32 << m), m <= 10;
        vstd::std_specs::bits::axiom_u32_leading_zeros(n_states);
    }
    let n_clz = n_states.leading_zeros();
    let mut total_w: u32 = 0;
    let mut i: usize = 0;
    proof {
        assert(weights@.subrange(0, 0) =~= Seq::<u16>::empty());
    }
    while i < weights.len()
        invariant
            i <= weights@.len(),
            weights@.len() == table@.len(),
            is_fse_states(n_states),
            n_states == (1u32 << m),
            m <= 10,
            n_states <= 1024,
            n_clz == u32_leading_zeros(n_states),
            total(weights@) <= n_states,
            total_w == total(weights@.subrange(0, i as int)),
            total_w <= n_states,
            forall|j: int|
                0 <= j < i ==> {
                    &&& (#[trigger] table@[j]).wf()
                    &&& table@[j].weight() == weights@[j]
                    &&& table@[j].start() == total(weights@.subrange(0, j))
                    &&& table@[j].states() == n_states
                },
        decreases weights@.len() - i,
    {
        let w = weights[i] as u32;
        proof {
            lemma_total_prefix(weights@, i as int);
            lemma_prefix_le(weights@, i + 1);
        }
        let e;
        if w == 0 {
            e = EEntry {
                t_k: -(n_states as i16),
                t_w: 0,
                weight: Ghost(0),
                start: Ghost(total_w as nat),
                states: Ghost(n_states),
            };
        } else {
            proof {
                lemma_fse_k(w, n_states, m);
                vstd::std_specs::bits::axiom_u32_leading_zeros(w);
            }
            let k = w.leading_zeros() - n_clz;
            proof {
                vstd::bits::lemma_u32_pow2_no_overflow(k as nat);
                lemma_pow2_pos(k as nat);
                vstd::bits::lemma_u32_shl_is_mul(w, k);
            }
            e = EEntry {
                t_k: 1024 * k as i16 - (w << k) as i16,
                t_w: n_states as i16 + total_w as i16 - w as i16,
                weight: Ghost(w as u16),
                start: Ghost(total_w as nat),
                states: Ghost(n_states),
            };
        }
        table[i] = e;
        total_w = total_w + w;
        i = i + 1;
    }
}

/// Prefix sums are bounded by the sum.
pub proof fn lemma_prefix_le(s: Seq<u16>, n: int)
    requires
        0 <= n <= s.len(),
    ensures
        total(s.subrange(0, n)) <= total(s),
    decreases s.len(),
{
    if n < s.len() {
        assert(s.subrange(0, n) =~= s.drop_last().subrange(0, n));
        lemma_prefix_le(s.drop_last(), n);
    } else {
        assert(s.subrange(0, n) =~= s);
    }
}


/// One encoding step of symbol `sym` from state `s` over weights `w` and `n` states: the next
/// state, the state bits pushed and their number. A symbol of weight zero leaves the state.
pub open spec fn enc_step(w: Seq<u16>, n: u32, sym: nat, s: nat) -> (nat, nat, nat) {
    let wi = w[sym as int];
    if wi == 0 {
        (s, 0, 0)
    } else {
        let nb = enc_nbits(wi as u32, n, s);
        (enc_next(wi as u32, sym_start(w, sym as int), n, s), s % pow2(nb), nb)
    }
}

/// What one value encoding step does to the writer and the state: pushes the extra value bits
/// `v - base` of symbol `sym`, then encodes `sym`.
pub open spec fn enc_value_post(
    w0: BitWriter,
    w1: BitWriter,
    s0: u32,
    s1: u32,
    v: nat,
    sym: nat,
    base: nat,
    xb: nat,
    weights: Seq<u16>,
    n: u32,
) -> bool {
    let (next, bits, nb) = enc_step(weights, n, sym, s0 as nat);
    &&& w1.inv()
    &&& w1.mark() == w0.mark()
    &&& w1.nbytes() == w0.nbytes()
    &&& w1.flushed() == w0.flushed()
    &&& w1.value() == w0.value() + (v - base) * pow2(w0.bit_len()) + bits * pow2(
        w0.bit_len() + xb,
    )
    &&& w1.bit_len() == w0.bit_len() + xb + nb
    &&& w1.pending() == w0.pending() + xb + nb
    &&& nb <= fse_m(n)
    &&& s1 == next
    &&& n <= s1 < 2 * n
}

/// FSE encoder: one table per stream kind, built from a weight table.
pub struct Encoder {
    l: Vec<EEntry>,
    m: Vec<EEntry>,
    d: Vec<EEntry>,
    u: Vec<EEntry>,
    weights: Ghost<Seq<u16>>,
}

/// Encodes symbol `sym` with table `t`, after pushing `xb` extra bits `x`.
fn encode_table(
    t: &Vec<EEntry>,
    Ghost(w): Ghost<Seq<u16>>,
    n: u32,
    writer: &mut BitWriter,
    state: &mut u32,
    sym: usize,
    x: u32,
    xb: u32,
)
    requires
        e_table_for(t@, w, n),
        sym < t@.len(),
        fse_m(n) <= 10,
        n <= *old(state) < 2 * n,
        old(writer).inv(),
        old(writer).pending() + xb + fse_m(n) <= ACCUM_MAX,
        (x as nat) < pow2(xb as nat),
    ensures
        enc_value_post(
            *old(writer),
            *final(writer),
            *old(state),
            *final(state),
            x as nat,
            sym as nat,
            0,
            xb as nat,
            w,
            n,
        ),
{
    writer.push(x as u64, xb as u64);
    let e = t[sym];
    proof {
        assert(e.wf() && e.weight() == w[sym as int] && e.start() == total(w.subrange(0, sym as int))
            && e.states() == n);
    }
    let ghost w1 = *writer;
    e.encode(writer, state);
    proof {
        lemma_pow2_adds(old(writer).bit_len(), xb as nat);
        let (next, bits, nb) = enc_step(w, n, sym as nat, *old(state) as nat);
        assert(w1.bit_len() == old(writer).bit_len() + xb);
        assert(writer.bit_len() == w1.bit_len() + nb);
        assert(*state == next);
        if w[sym as int] == 0 {
            assert(bits * pow2(w1.bit_len()) == 0) by (nonlinear_arith) requires bits == 0;
        }
        assert(writer.value() == w1.value() + bits * pow2(w1.bit_len()));
        assert(w1.value() == old(writer).value() + x * pow2(old(writer).bit_len()));
    }
}

impl Encoder {
    /// The weights the tables were built from.
    pub closed spec fn weights(&self) -> Seq<u16> {
        self.weights@
    }

    /// The tables are those of `weights()`.
    pub closed spec fn wf(&self) -> bool {
        &&& self.weights@.len() == N_WEIGHTS
        &&& valid_totals(self.weights@)
        &&& e_table_for(self.l@, l_part(self.weights@), L_STATES)
        &&& e_table_for(self.m@, m_part(self.weights@), M_STATES)
        &&& e_table_for(self.d@, d_part(self.weights@), D_STATES)
        &&& e_table_for(self.u@, u_part(self.weights@), U_STATES)
    }

    /// Builds the four tables from `weights`.
    pub fn init(&mut self, weights: &Weights)
        requires
            weights.wf(),
            valid_totals(weights@),
        ensures
            final(self).wf(),
            final(self).weights() == weights@,
    {
        proof {
            lemma_state_counts();
        }
        let mut l = vec![EEntry::default(); 20];
        let mut m = vec![EEntry::default(); 20];
        let mut d = vec![EEntry::default(); 64];
        let mut u = vec![EEntry::default(); 256];
        build_e_table(weights.ls(), L_STATES, l.as_mut_slice());
        build_e_table(weights.ms(), M_STATES, m.as_mut_slice());
        build_e_table(weights.ds(), D_STATES, d.as_mut_slice());
        build_e_table(weights.us(), U_STATES, u.as_mut_slice());
        self.l = l;
        self.m = m;
        self.d = d;
        self.u = u;
        self.weights = Ghost(weights@);
    }

    /// Encodes literal `u` from `state`.
    pub fn u(&self, writer: &mut BitWriter, state: &mut u32, u: u8)
        requires
            self.wf(),
            old(writer).inv(),
            old(writer).pending() + 10 <= ACCUM_MAX,
            U_STATES <= *old(state) < 2 * U_STATES,
        ensures
            enc_value_post(
                *old(writer),
                *final(writer),
                *old(state),
                *final(state),
                u as nat,
                u as nat,
                u as nat,
                0,
                u_part(self.weights()),
                U_STATES,
            ),
    {
        proof {
            lemma_state_counts();
            vstd::arithmetic::power2::lemma2_to64();
        }
        encode_table(&self.u, Ghost(u_part(self.weights@)), U_STATES, writer, state, u as usize, 0, 0);
    }

    /// Encodes literal length `v` from `state`.
    pub fn l(&self, writer: &mut BitWriter, state: &mut u32, v: u32)
        requires
            self.wf(),
            v <= MAX_L_VALUE,
            old(writer).inv(),
            old(writer).pending() + 14 <= ACCUM_MAX,
            L_STATES <= *old(state) < 2 * L_STATES,
        ensures
            enc_value_post(
                *old(writer),
                *final(writer),
                *old(state),
                *final(state),
                v as nat,
                l_sym(v as nat),
                l_base(l_sym(v as nat)),
                l_extra(l_sym(v as nat)),
                l_part(self.weights()),
                L_STATES,
            ),
            l_base(l_sym(v as nat)) <= v,
    {
        proof {
            lemma_state_counts();
        }
        let sym = l_symbol(v);
        let xb = l_extra_bits(sym);
        let base = l_base_value(sym);
        encode_table(&self.l, Ghost(l_part(self.weights@)), L_STATES, writer, state, sym, v - base, xb);
    }

    /// Encodes match length `v` from `state`.
    pub fn m(&self, writer: &mut BitWriter, state: &mut u32, v: u32)
        requires
            self.wf(),
            v <= MAX_M_VALUE,
            old(writer).inv(),
            old(writer).pending() + 17 <= ACCUM_MAX,
            M_STATES <= *old(state) < 2 * M_STATES,
        ensures
            enc_value_post(
                *old(writer),
                *final(writer),
                *old(state),
                *final(state),
                v as nat,
                m_sym(v as nat),
                m_base(m_sym(v as nat)),
                m_extra(m_sym(v as nat)),
                m_part(self.weights()),
                M_STATES,
            ),
            m_base(m_sym(v as nat)) <= v,
    {
        proof {
            lemma_state_counts();
        }
        let sym = m_symbol(v);
        let xb = m_extra_bits(sym);
        let base = m_base_value(sym);
        encode_table(&self.m, Ghost(m_part(self.weights@)), M_STATES, writer, state, sym, v - base, xb);
    }

    /// Encodes match distance `v` from `state`.
    pub fn d(&self, writer: &mut BitWriter, state: &mut u32, v: u32)
        requires
            self.wf(),
            v <= MAX_D_VALUE,
            old(writer).inv(),
            old(writer).pending() + 23 <= ACCUM_MAX,
            D_STATES <= *old(state) < 2 * D_STATES,
        ensures
            enc_value_post(
                *old(writer),
                *final(writer),
                *old(state),
                *final(state),
                v as nat,
                d_sym(v as nat),
                d_base(d_sym(v as nat)),
                d_extra(d_sym(v as nat)),
                d_part(self.weights()),
                D_STATES,
            ),
            d_sym(v as nat) < 64,
            d_base(d_sym(v as nat)) <= v,
    {
        proof {
            lemma_state_counts();
        }
        let sym = d_symbol(v);
        let xb = d_extra_bits(sym);
        let base = d_base_value(sym);
        encode_table(&self.d, Ghost(d_part(self.weights@)), D_STATES, writer, state, sym, v - base, xb);
    }
}

impl Default for Encoder {
    /// The encoder of the all-zero weight table.
    fn default() -> (r: Self)
        ensures
            r.wf(),
            forall|i: int| 0 <= i < N_WEIGHTS ==> #[trigger] r.weights()[i] == 0,
    {
        let weights = Weights::default();
        proof {
            let w = weights@;
            super::normalize::lemma_zero_total(l_part(w));
            super::normalize::lemma_zero_total(m_part(w));
            super::normalize::lemma_zero_total(d_part(w));
            super::normalize::lemma_zero_total(u_part(w));
        }
        let mut e = Encoder {
            l: Vec::new(),
            m: Vec::new(),
            d: Vec::new(),
            u: Vec::new(),
            weights: Ghost(Seq::empty()),
        };
        e.init(&weights);
        e
    }
}

} // verus!
