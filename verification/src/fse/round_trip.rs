use vstd::prelude::*;
use vstd::arithmetic::power2::{pow2, lemma_pow2_adds, lemma_pow2_pos};

use crate::bits::model::{bytes_value, lemma_bytes_value_append, lemma_bytes_value_bound, lemma_div_mod_split};

use super::constants::U_STATES;
use super::decoder::{dec_step, lemma_state_counts, lemma_sym_at_unique, sym_start};
use super::encoder::{enc_step, lemma_prefix_le};
use super::fse_spec::{is_fse_states, lemma_fse_step_inverse};
use super::literals::{dec_one, lit_dec, lit_enc, lit_load_result, lit_run, lit_start, lit_states, push_bits};
use super::normalize::{lemma_total_prefix, total};
use super::literals::round4;
use super::weights::{count, normalized_for, u_values};

verus! {

/// One decoding step undoes one encoding step: from the decoder state of the state reached by
/// encoding symbol `c` from `s`, the decoder finds `c`, reads as many bits as were pushed, and
/// with them returns to the decoder state of `s`.
pub proof fn lemma_step_round_trip(w: Seq<u16>, n: u32, c: nat, s: nat)
    requires
        is_fse_states(n),
        total(w) == n,
        c < w.len(),
        w[c as int] > 0,
        n <= s < 2 * n,
    ensures
        ({
            let (s2, bits, nb) = enc_step(w, n, c, s);
            let (sym, nb2, delta) = dec_step(w, n, (s2 - n) as nat);
            &&& n <= s2 < 2 * n
            &&& bits < pow2(nb)
            &&& nb <= 10
            &&& sym == c
            &&& nb2 == nb
            &&& delta + bits == s - n
        }),
{
    let wc = w[c as int];
    let start = sym_start(w, c as int);
    lemma_total_prefix(w, c as int);
    lemma_prefix_le(w, c as int + 1);
    assert(start + wc <= n);
    lemma_fse_step_inverse(wc as u32, start, n, s);
    let (s2, bits, nb) = enc_step(w, n, c, s);
    lemma_sym_at_unique(w, c as int, (s2 - n) as nat);
    lemma_pow2_pos(nb);
    vstd::arithmetic::div_mod::lemma_mod_bound(s as int, pow2(nb) as int);
}

/// Decoding one literal pushed on top of a stream `(x, b)` gives the literal back, returns to
/// the decoder state it was encoded from, and leaves the stream `(x, b)`.
pub proof fn lemma_dec_one_round_trip(w: Seq<u16>, c: nat, s: nat, x: nat, b: nat)
    requires
        total(w) == U_STATES,
        c < w.len(),
        w[c as int] > 0,
        U_STATES <= s < 2 * U_STATES,
        x < pow2(b),
    ensures
        ({
            let (s2, bits, nb) = enc_step(w, U_STATES, c, s);
            &&& U_STATES <= s2 < 2 * U_STATES
            &&& x + bits * pow2(b) < pow2(b + nb)
            &&& dec_one(w, (s2 - U_STATES) as nat, x + bits * pow2(b), (b + nb) as int) == (
                c,
                (s - U_STATES) as nat,
                x,
                b as int,
            )
        }),
{
    lemma_state_counts();
    lemma_step_round_trip(w, U_STATES, c, s);
    let (s2, bits, nb) = enc_step(w, U_STATES, c, s);
    let pb = pow2(b);
    lemma_pow2_pos(b);
    assert(pb * bits == bits * pb) by (nonlinear_arith);
    lemma_div_mod_split(x, pb, bits);
    lemma_pow2_adds(b, nb);
    let pn = pow2(nb);
    assert((bits + 1) * pb <= pn * pb) by {
        vstd::arithmetic::mul::lemma_mul_inequality((bits + 1) as int, pn as int, pb as int);
    }
    assert((bits + 1) * pb == bits * pb + pb) by (nonlinear_arith);
    assert(pn * pb == pb * pn) by (nonlinear_arith);
}

/// The decoder states of encoder states.
pub open spec fn dec_states(st: Seq<nat>) -> Seq<nat> {
    seq![
        (st[0] - U_STATES) as nat,
        (st[1] - U_STATES) as nat,
        (st[2] - U_STATES) as nat,
        (st[3] - U_STATES) as nat,
    ]
}

/// Every literal of `lits` has a state in the table `w`.
pub open spec fn lits_coded(w: Seq<u16>, lits: Seq<u8>) -> bool {
    forall|i: int| 0 <= i < lits.len() ==> (lits[i] as int) < w.len() && #[trigger] w[lits[i] as int] > 0
}

/// The literal at `i` has a state in the table.
proof fn lemma_coded_at(w: Seq<u16>, lits: Seq<u8>, i: int)
    requires
        lits_coded(w, lits),
        0 <= i < lits.len(),
    ensures
        (lits[i] as int) < w.len(),
        w[lits[i] as int] > 0,
{
    assert(w[lits[i] as int] > 0);
}

/// Encoder states stay in `[1024, 2048)` and the stream value below two to its width.
pub proof fn lemma_lit_enc_range(w: Seq<u16>, lits: Seq<u8>, k: nat)
    requires
        total(w) == U_STATES,
        lits_coded(w, lits),
        4 * k <= lits.len(),
    ensures
        ({
            let (st, v, l) = lit_enc(w, lits, k);
            &&& st.len() == 4
            &&& forall|i: int| 0 <= i < 4 ==> U_STATES <= #[trigger] st[i] < 2 * U_STATES
            &&& v < pow2(l)
        }),
    decreases k,
{
    if k == 0 {
        vstd::arithmetic::power2::lemma2_to64();
    } else {
        lemma_lit_enc_range(w, lits, (k - 1) as nat);
        let (st, v, l) = lit_enc(w, lits, (k - 1) as nat);
        let i = lits.len() - 4 * (k - 1);
        let (s3, b3, n3) = enc_step(w, U_STATES, lits[i - 1] as nat, st[3]);
        let (s2, b2, n2) = enc_step(w, U_STATES, lits[i - 2] as nat, st[2]);
        let (s1, b1, n1) = enc_step(w, U_STATES, lits[i - 3] as nat, st[1]);
        let (s0, b0, n0) = enc_step(w, U_STATES, lits[i - 4] as nat, st[0]);
        assert(w[lits[i - 1] as int] > 0);
        assert(w[lits[i - 2] as int] > 0);
        assert(w[lits[i - 3] as int] > 0);
        assert(w[lits[i - 4] as int] > 0);
        lemma_dec_one_round_trip(w, lits[i - 1] as nat, st[3], v, l);
        let (v3, l3) = push_bits(v, l, b3, n3);
        lemma_dec_one_round_trip(w, lits[i - 2] as nat, st[2], v3, l3);
        let (v2, l2) = push_bits(v3, l3, b2, n2);
        lemma_dec_one_round_trip(w, lits[i - 3] as nat, st[1], v2, l2);
        let (v1, l1) = push_bits(v2, l2, b1, n1);
        lemma_dec_one_round_trip(w, lits[i - 4] as nat, st[0], v1, l1);
    }
}

/// A value pushed on a stream held above `b` low bits: the same as pushing above the whole.
pub(crate) proof fn lemma_push_shift(x: nat, v: nat, l: nat, bits: nat, b: nat)
    ensures
        x + (v + bits * pow2(l)) * pow2(b) == (x + v * pow2(b)) + bits * pow2(b + l),
{
    lemma_pow2_adds(b, l);
    let pl = pow2(l);
    let pb = pow2(b);
    assert((v + bits * pl) * pb == v * pb + bits * (pb * pl)) by (nonlinear_arith);
}

/// A stream of width `l` held above `b` low bits fits in `b + l` bits.
pub(crate) proof fn lemma_stack_bound(x: nat, v: nat, b: nat, l: nat)
    requires
        x < pow2(b),
        v < pow2(l),
    ensures
        x + v * pow2(b) < pow2(b + l),
{
    lemma_pow2_adds(b, l);
    let pl = pow2(l);
    let pb = pow2(b);
    assert((v + 1) * pb <= pl * pb) by {
        vstd::arithmetic::mul::lemma_mul_inequality((v + 1) as int, pl as int, pb as int);
    }
    assert((v + 1) * pb == v * pb + pb) by (nonlinear_arith);
    assert(pl * pb == pb * pl) by (nonlinear_arith);
}

/// Encoding the group of four symbols `c` from states `sp` and stream `(v, l)`, last symbol
/// first: the states and the stream after.
#[verifier::opaque]
pub open spec fn enc_group(w: Seq<u16>, sp: Seq<nat>, v: nat, l: nat, c: Seq<nat>) -> (
    Seq<nat>,
    nat,
    nat,
) {
    let (s3, b3, n3) = enc_step(w, U_STATES, c[3], sp[3]);
    let (s2, b2, n2) = enc_step(w, U_STATES, c[2], sp[2]);
    let (s1, b1, n1) = enc_step(w, U_STATES, c[1], sp[1]);
    let (s0, b0, n0) = enc_step(w, U_STATES, c[0], sp[0]);
    let (v3, l3) = push_bits(v, l, b3, n3);
    let (v2, l2) = push_bits(v3, l3, b2, n2);
    let (v1, l1) = push_bits(v2, l2, b1, n1);
    let (v0, l0) = push_bits(v1, l1, b0, n0);
    (seq![s0, s1, s2, s3], v0, l0)
}

/// Decoding a group of four literals from states `s` and stream `(rv, rl)`.
#[verifier::opaque]
pub open spec fn dec_group(w: Seq<u16>, s: Seq<nat>, rv: nat, rl: int) -> (Seq<u8>, Seq<nat>, nat, int) {
    let (a, s0, v0, l0) = dec_one(w, s[0], rv, rl);
    let (b, s1, v1, l1) = dec_one(w, s[1], v0, l0);
    let (c, s2, v2, l2) = dec_one(w, s[2], v1, l1);
    let (d, s3, v3, l3) = dec_one(w, s[3], v2, l2);
    (seq![a as u8, b as u8, c as u8, d as u8], seq![s0, s1, s2, s3], v3, l3)
}

/// Decoding a group undoes encoding it.
proof fn lemma_group_round_trip(w: Seq<u16>, sp: Seq<nat>, v: nat, l: nat, c: Seq<nat>, x: nat, b: nat)
    requires
        total(w) == U_STATES,
        sp.len() == 4,
        c.len() == 4,
        forall|i: int| 0 <= i < 4 ==> U_STATES <= #[trigger] sp[i] < 2 * U_STATES,
        forall|i: int| 0 <= i < 4 ==> #[trigger] c[i] < w.len() && w[c[i] as int] > 0 && c[i] < 256,
        v < pow2(l),
        x < pow2(b),
    ensures
        ({
            let (st, v0, l0) = enc_group(w, sp, v, l, c);
            &&& v0 < pow2(l0)
            &&& forall|i: int| 0 <= i < 4 ==> U_STATES <= #[trigger] st[i] < 2 * U_STATES
            &&& dec_group(w, dec_states(st), x + v0 * pow2(b), (b + l0) as int) == (
                seq![c[0] as u8, c[1] as u8, c[2] as u8, c[3] as u8],
                dec_states(sp),
                x + v * pow2(b),
                (b + l) as int,
            )
        }),
{
    reveal(enc_group);
    reveal(dec_group);
    let (s3, b3, n3) = enc_step(w, U_STATES, c[3], sp[3]);
    let (s2, b2, n2) = enc_step(w, U_STATES, c[2], sp[2]);
    let (s1, b1, n1) = enc_step(w, U_STATES, c[1], sp[1]);
    let (s0, b0, n0) = enc_step(w, U_STATES, c[0], sp[0]);
    assert(c[0] < w.len() && w[c[0] as int] > 0);
    assert(c[1] < w.len() && w[c[1] as int] > 0);
    assert(c[2] < w.len() && w[c[2] as int] > 0);
    assert(c[3] < w.len() && w[c[3] as int] > 0);
    assert(U_STATES <= sp[0] < 2 * U_STATES);
    assert(U_STATES <= sp[1] < 2 * U_STATES);
    assert(U_STATES <= sp[2] < 2 * U_STATES);
    assert(U_STATES <= sp[3] < 2 * U_STATES);
    let (v3, l3) = push_bits(v, l, b3, n3);
    let (v2, l2) = push_bits(v3, l3, b2, n2);
    let (v1, l1) = push_bits(v2, l2, b1, n1);
    lemma_dec_one_round_trip(w, c[3], sp[3], v, l);
    lemma_dec_one_round_trip(w, c[2], sp[2], v3, l3);
    lemma_dec_one_round_trip(w, c[1], sp[1], v2, l2);
    lemma_dec_one_round_trip(w, c[0], sp[0], v1, l1);
    lemma_push_shift(x, v1, l1, b0, b);
    lemma_stack_bound(x, v1, b, l1);
    lemma_dec_one_round_trip(w, c[0], sp[0], x + v1 * pow2(b), b + l1);
    lemma_push_shift(x, v2, l2, b1, b);
    lemma_stack_bound(x, v2, b, l2);
    lemma_dec_one_round_trip(w, c[1], sp[1], x + v2 * pow2(b), b + l2);
    lemma_push_shift(x, v3, l3, b2, b);
    lemma_stack_bound(x, v3, b, l3);
    lemma_dec_one_round_trip(w, c[2], sp[2], x + v3 * pow2(b), b + l3);
    lemma_push_shift(x, v, l, b3, b);
    lemma_stack_bound(x, v, b, l);
    lemma_dec_one_round_trip(w, c[3], sp[3], x + v * pow2(b), b + l);
}

/// `lit_enc`, unfolded only on request.
#[verifier::opaque]
spec fn enc_o(w: Seq<u16>, lits: Seq<u8>, k: nat) -> (Seq<nat>, nat, nat) {
    lit_enc(w, lits, k)
}

/// `lit_dec`, unfolded only on request.
#[verifier::opaque]
spec fn dec_o(w: Seq<u16>, st: Seq<nat>, rv: nat, rl: int, k: nat) -> (Seq<u8>, Seq<nat>, nat, int) {
    lit_dec(w, st, rv, rl, k)
}

/// `lemma_lit_enc_range` over `enc_o`.
proof fn lemma_enc_o_range(w: Seq<u16>, lits: Seq<u8>, k: nat)
    requires
        total(w) == U_STATES,
        lits_coded(w, lits),
        4 * k <= lits.len(),
    ensures
        ({
            let (st, v, l) = enc_o(w, lits, k);
            &&& st.len() == 4
            &&& forall|i: int| 0 <= i < 4 ==> U_STATES <= #[trigger] st[i] < 2 * U_STATES
            &&& v < pow2(l)
        }),
{
    reveal(enc_o);
    lemma_lit_enc_range(w, lits, k);
}

/// One more group of encoding is one group step.
proof fn lemma_lit_enc_unfold(w: Seq<u16>, lits: Seq<u8>, e: nat)
    requires
        4 * (e + 1) <= lits.len(),
    ensures
        ({
            let (sp, vp, lp) = enc_o(w, lits, e);
            let i = lits.len() - 4 * e;
            enc_o(w, lits, e + 1) == enc_group(
                w,
                sp,
                vp,
                lp,
                seq![lits[i - 4] as nat, lits[i - 3] as nat, lits[i - 2] as nat, lits[i - 1] as nat],
            )
        }),
{
    reveal(enc_group);
    reveal(enc_o);
}

/// One more group of decoding is one group step.
proof fn lemma_lit_dec_unfold(w: Seq<u16>, st: Seq<nat>, rv: nat, rl: int, j: nat)
    requires
        j > 0,
    ensures
        ({
            let p = dec_o(w, st, rv, rl, (j - 1) as nat);
            let g = dec_group(w, p.1, p.2, p.3);
            dec_o(w, st, rv, rl, j) == (p.0 + g.0, g.1, g.2, g.3)
        }),
{
    reveal(dec_group);
    reveal(dec_o);
}

/// Decoding `j` groups of the stream that encoding `lits` produced, held above `b` low bits
/// `x`, gives the first `4 j` literals back, with the states and stream encoding had before
/// it encoded them.
#[verifier::rlimit(100)]
#[verifier::spinoff_prover]
proof fn lemma_dec_enc_o(w: Seq<u16>, lits: Seq<u8>, x: nat, b: nat, k: nat, j: nat)
    requires
        total(w) == U_STATES,
        lits_coded(w, lits),
        lits.len() == 4 * k,
        j <= k,
        x < pow2(b),
    ensures
        ({
            let (st, v, l) = enc_o(w, lits, k);
            let (st2, v2, l2) = enc_o(w, lits, (k - j) as nat);
            dec_o(w, dec_states(st), x + v * pow2(b), (b + l) as int, j) == (
                lits.subrange(0, 4 * j as int),
                dec_states(st2),
                x + v2 * pow2(b),
                (b + l2) as int,
            )
        }),
    decreases j,
{
    let (st, v, l) = enc_o(w, lits, k);
    let xs = x + v * pow2(b);
    let ls = (b + l) as int;
    if j == 0 {
        assert(lits.subrange(0, 0) =~= Seq::<u8>::empty());
        reveal(dec_o);
    } else {
        let j1 = (j - 1) as nat;
        let e = (k - j) as nat;
        assert((k - j1) as nat == e + 1);
        lemma_dec_enc_o(w, lits, x, b, k, j1);
        lemma_enc_o_range(w, lits, e);
        let (sp, vp, lp) = enc_o(w, lits, e);
        let i = lits.len() - 4 * e;
        let c = seq![lits[i - 4] as nat, lits[i - 3] as nat, lits[i - 2] as nat, lits[i - 1] as nat];
        lemma_lit_enc_unfold(w, lits, e);
        let q = enc_group(w, sp, vp, lp, c);
        assert(enc_o(w, lits, e + 1) == q);
        let p = dec_o(w, dec_states(st), xs, ls, j1);
        assert(p == (lits.subrange(0, 4 * j1 as int), dec_states(q.0), x + q.1 * pow2(b), (b + q.2) as int));
        assert(i == 4 * j);
        lemma_coded_at(w, lits, i - 4);
        lemma_coded_at(w, lits, i - 3);
        lemma_coded_at(w, lits, i - 2);
        lemma_coded_at(w, lits, i - 1);
        assert forall|t: int| 0 <= t < 4 implies #[trigger] c[t] < w.len() && w[c[t] as int] > 0
            && c[t] < 256 by {
            if t == 0 {
            } else if t == 1 {
            } else if t == 2 {
            } else {
            }
        }
        lemma_group_round_trip(w, sp, vp, lp, c, x, b);
        let g = dec_group(w, p.1, p.2, p.3);
        assert(g == (seq![c[0] as u8, c[1] as u8, c[2] as u8, c[3] as u8], dec_states(sp), x + vp * pow2(b), (b + lp) as int));
        lemma_lit_dec_unfold(w, dec_states(st), xs, ls, j);
        assert(lits.subrange(0, 4 * j1 as int) + g.0 =~= lits.subrange(0, 4 * j as int));
    }
}

/// Decoding the whole stream that encoding `lits` produced, held above `b` low bits `x`,
/// gives `lits` back and leaves the decoder in the states encoding started from, with `x`.
pub proof fn lemma_lit_dec_enc(w: Seq<u16>, lits: Seq<u8>, x: nat, b: nat, k: nat)
    requires
        total(w) == U_STATES,
        lits_coded(w, lits),
        lits.len() == 4 * k,
        x < pow2(b),
    ensures
        ({
            let (st, v, l) = lit_enc(w, lits, k);
            lit_dec(w, dec_states(st), x + v * pow2(b), (b + l) as int, k) == (
                lits,
                seq![0nat, 0nat, 0nat, 0nat],
                x,
                b as int,
            )
        }),
{
    lemma_dec_enc_o(w, lits, x, b, k, k);
    reveal(enc_o);
    reveal(dec_o);
    assert((k - k) as nat == 0);
    let e0 = lit_enc(w, lits, 0);
    assert(e0 == (seq![U_STATES as nat, U_STATES as nat, U_STATES as nat, U_STATES as nat], 0nat, 0nat));
    assert(x + 0 * pow2(b) == x);
    assert(lits.subrange(0, 4 * k as int) =~= lits);
    vstd::arithmetic::power2::lemma2_to64();
    assert(dec_states(seq![U_STATES as nat, U_STATES as nat, U_STATES as nat, U_STATES as nat])
        =~= seq![0nat, 0nat, 0nat, 0nat]);
}

/// Literals round trip: a literal block that `Literals::store` wrote, `payload` after at
/// least eight bytes `pre`, with parameters `param`, is read back by `Literals::load` with the
/// same weights, which gives the literals back.
pub proof fn lemma_literals_round_trip(
    w: Seq<u16>,
    lits: Seq<u8>,
    pre: Seq<u8>,
    payload: Seq<u8>,
    param: (u32, u32, u32, Seq<u16>),
)
    requires
        total(w) == U_STATES,
        lits_coded(w, lits),
        lits.len() % 4 == 0,
        pre.len() >= 8,
        ({
            let (st, v, l) = lit_enc(w, lits, lits.len() / 4);
            &&& param.0 == lits.len()
            &&& param.1 == payload.len()
            &&& param.3 == lit_states(st)
            &&& bytes_value(payload) == v
            &&& 8 * param.1 == l + param.2
        }),
    ensures
        lit_load_result(w, pre + payload, param) == Ok::<(), crate::error::Error>(()),
        lit_run(w, pre + payload, param).0 == lits,
{
    let k = lits.len() / 4;
    let (st, v, l) = lit_enc(w, lits, k);
    let src = pre + payload;
    let x = bytes_value(pre);
    let b = 8 * pre.len();
    lemma_bytes_value_append(pre, payload);
    lemma_bytes_value_bound(pre);
    assert(pow2(b) * v == v * pow2(b)) by (nonlinear_arith);
    lemma_lit_enc_range(w, lits, k);
    lemma_lit_dec_enc(w, lits, x, b, k);
    lemma_stack_bound(x, v, b, l);
    assert(lit_start(param.3) =~= dec_states(st));
    assert(8 * src.len() - param.2 == b + l);
    assert((param.0 / 4) as nat == k);
    vstd::arithmetic::power2::lemma2_to64();
}

/// An element of a sequence occurs in it.
pub(crate) proof fn lemma_count_pos(s: Seq<nat>, i: int)
    requires
        0 <= i < s.len(),
    ensures
        count(s, s[i]) > 0,
    decreases s.len(),
{
    if i < s.len() - 1 {
        lemma_count_pos(s.drop_last(), i);
    }
}

/// Literals padded with a literal that occurs in them all have states in weights normalized
/// for them.
pub proof fn lemma_padded_coded(w: Seq<u16>, lits: Seq<u8>, u: u8, padded: Seq<u8>)
    requires
        w.len() == 256,
        normalized_for(w, u_values(lits), U_STATES),
        lits.len() > 0 ==> count(u_values(lits), u as nat) > 0,
        padded == lits + Seq::new((round4(lits.len()) - lits.len()) as nat, |i: int| u),
    ensures
        lits_coded(w, padded),
        padded.len() > 0 ==> total(w) == U_STATES,
        padded.len() == round4(lits.len()),
{
    assert forall|i: int| 0 <= i < padded.len() implies (padded[i] as int) < w.len()
        && #[trigger] w[padded[i] as int] > 0 by {
        if i < lits.len() {
            lemma_count_pos(u_values(lits), i);
            assert(u_values(lits)[i] == lits[i] as nat);
            assert(w[lits[i] as int] != 0);
        } else {
            assert(padded[i] == u);
            assert(w[u as int] != 0);
        }
    }
}

/// A literal block round trip from the literals on: weights loaded for `lits`, the literals
/// padded with the literal that loading returned, stored and loaded back with those weights,
/// give the padded literals back, `lits` first.
pub proof fn lemma_literal_block_round_trip(
    w: Seq<u16>,
    lits: Seq<u8>,
    u: u8,
    padded: Seq<u8>,
    pre: Seq<u8>,
    payload: Seq<u8>,
    param: (u32, u32, u32, Seq<u16>),
)
    requires
        w.len() == 256,
        normalized_for(w, u_values(lits), U_STATES),
        lits.len() > 0 ==> count(u_values(lits), u as nat) > 0,
        padded == lits + Seq::new((round4(lits.len()) - lits.len()) as nat, |i: int| u),
        pre.len() >= 8,
        param.2 <= 7,
        ({
            let (st, v, l) = lit_enc(w, padded, round4(lits.len()) / 4);
            &&& param.0 == round4(lits.len())
            &&& param.1 == payload.len()
            &&& param.3 == lit_states(st)
            &&& bytes_value(payload) == v
            &&& 8 * param.1 == l + param.2
        }),
    ensures
        lit_load_result(w, pre + payload, param) == Ok::<(), crate::error::Error>(()),
        lit_run(w, pre + payload, param).0 == padded,
        lit_run(w, pre + payload, param).0.subrange(0, lits.len() as int) == lits,
{
    lemma_padded_coded(w, lits, u, padded);
    if padded.len() > 0 {
        assert(padded.len() % 4 == 0);
        lemma_literals_round_trip(w, padded, pre, payload, param);
    } else {
        let (st, v, l) = lit_enc(w, padded, 0);
        lemma_bytes_value_append(pre, payload);
        lemma_bytes_value_bound(pre);
        assert(payload.len() == 0);
        assert(pre + payload =~= pre);
        assert(lit_start(param.3) =~= seq![0nat, 0nat, 0nat, 0nat]);
        vstd::arithmetic::power2::lemma2_to64();
        assert(lits =~= Seq::<u8>::empty());
    }
    assert(padded.subrange(0, lits.len() as int) =~= lits);
}

} // verus!
