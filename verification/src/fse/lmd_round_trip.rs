use vstd::prelude::*;
use vstd::arithmetic::power2::{pow2, lemma_pow2_pos};

use crate::bits::model::{bytes_value, lemma_bytes_value_append, lemma_bytes_value_bound, lemma_div_mod_split};

use super::constants::{D_STATES, L_STATES, MAX_D_VALUE, MAX_L_VALUE, MAX_M_VALUE, M_STATES};
use super::decoder::{lemma_state_counts, sym_base, sym_extra, KIND_D, KIND_L, KIND_M};
use super::fse_spec::is_fse_states;
use super::lmds::{dec_value, enc_value, lmd_dec, lmd_dec_one, lmd_enc, lmd_load_result, lmd_run, lmd_start, lmd_states};
use super::normalize::total;
use super::round_trip::{lemma_push_shift, lemma_stack_bound, lemma_step_round_trip};
use super::tables::{
    d_base, d_extra, d_sym, in_range, l_base, l_extra, l_sym, lemma_d_sym_range, lemma_l_sym_range,
    lemma_m_sym_range, m_base, m_extra, m_sym,
};
use super::weights::{d_part, l_part, m_part};

verus! {

/// Decoding one value undoes encoding it: from the decoder state of the state reached, the
/// decoder reads back the state bits and the extra value bits, gives the value, and returns to
/// the decoder state and the stream encoding started from.
pub proof fn lemma_value_round_trip(
    w: Seq<u16>,
    n: u32,
    kind: u8,
    sym: nat,
    base: nat,
    xb: nat,
    v: nat,
    s: nat,
    vv: nat,
    l: nat,
)
    requires
        is_fse_states(n),
        total(w) == n,
        sym < w.len(),
        w[sym as int] > 0,
        n <= s < 2 * n,
        in_range(v, base, xb),
        sym_base(kind, sym) == base,
        sym_extra(kind, sym) == xb,
        vv < pow2(l),
    ensures
        ({
            let (next, v2, l2) = enc_value(w, n, sym, base, xb, v, s, vv, l);
            &&& n <= next < 2 * n
            &&& v2 < pow2(l2)
            &&& dec_value(w, n, kind, (next - n) as nat, v2, l2 as int) == (
                v,
                (s - n) as nat,
                vv,
                l as int,
            )
        }),
{
    lemma_step_round_trip(w, n, sym, s);
    let e = (v - base) as nat;
    let l1 = l + xb;
    let v1 = vv + e * pow2(l);
    lemma_stack_bound(vv, e, l, xb);
    let (next, bits, nb) = super::encoder::enc_step(w, n, sym, s);
    let v2 = v1 + bits * pow2(l1);
    lemma_stack_bound(v1, bits, l1, nb);
    lemma_pow2_pos(l1);
    lemma_pow2_pos(l);
    assert(pow2(l1) * bits == bits * pow2(l1)) by (nonlinear_arith);
    assert(pow2(l) * e == e * pow2(l)) by (nonlinear_arith);
    lemma_div_mod_split(v1, pow2(l1), bits);
    lemma_div_mod_split(vv, pow2(l), e);
}

/// `enc_value` on a stream held above `b` low bits `x`.
pub proof fn lemma_enc_value_shift(
    w: Seq<u16>,
    n: u32,
    sym: nat,
    base: nat,
    xb: nat,
    v: nat,
    s: nat,
    vv: nat,
    l: nat,
    x: nat,
    b: nat,
)
    ensures
        ({
            let (next, v2, l2) = enc_value(w, n, sym, base, xb, v, s, vv, l);
            enc_value(w, n, sym, base, xb, v, s, x + vv * pow2(b), b + l) == (
                next,
                x + v2 * pow2(b),
                b + l2,
            )
        }),
{
    let e = (v - base) as nat;
    let (next, bits, nb) = super::encoder::enc_step(w, n, sym, s);
    lemma_push_shift(x, vv, l, e, b);
    let v1 = vv + e * pow2(l);
    lemma_push_shift(x, v1, l + xb, bits, b);
}

/// The triple `t` has symbols with states in the weights `w`.
pub open spec fn triple_coded(w: Seq<u16>, t: (nat, nat, nat)) -> bool {
    &&& t.0 <= MAX_L_VALUE
    &&& t.1 <= MAX_M_VALUE
    &&& t.2 <= MAX_D_VALUE
    &&& l_part(w)[l_sym(t.0) as int] > 0
    &&& m_part(w)[m_sym(t.1) as int] > 0
    &&& d_part(w)[d_sym(t.2) as int] > 0
}

/// The tables of `w` are full: each total is its state count.
pub open spec fn lmd_tables_full(w: Seq<u16>) -> bool {
    &&& l_part(w).len() == 20
    &&& m_part(w).len() == 20
    &&& d_part(w).len() == 64
    &&& total(l_part(w)) == L_STATES
    &&& total(m_part(w)) == M_STATES
    &&& total(d_part(w)) == D_STATES
}

/// Encoder states of the three tables in their ranges.
pub open spec fn lmd_states_ok(st: Seq<nat>) -> bool {
    &&& st.len() == 3
    &&& L_STATES <= st[0] < 2 * L_STATES
    &&& M_STATES <= st[1] < 2 * M_STATES
    &&& D_STATES <= st[2] < 2 * D_STATES
}

/// The decoder states of the three encoder states.
pub open spec fn lmd_dec_states(st: Seq<nat>) -> Seq<nat> {
    seq![(st[0] - L_STATES) as nat, (st[1] - M_STATES) as nat, (st[2] - D_STATES) as nat]
}

/// Encoding one triple from states `sp` onto the stream `(v, l)`: distance, then match length,
/// then literal length.
#[verifier::opaque]
pub open spec fn enc_triple(w: Seq<u16>, sp: Seq<nat>, v: nat, l: nat, t: (nat, nat, nat)) -> (
    Seq<nat>,
    nat,
    nat,
) {
    let (ll, mm, dd) = t;
    let (sd, vd, ld) = enc_value(
        d_part(w),
        D_STATES,
        d_sym(dd),
        d_base(d_sym(dd)),
        d_extra(d_sym(dd)),
        dd,
        sp[2],
        v,
        l,
    );
    let (sm, vm, lm) = enc_value(
        m_part(w),
        M_STATES,
        m_sym(mm),
        m_base(m_sym(mm)),
        m_extra(m_sym(mm)),
        mm,
        sp[1],
        vd,
        ld,
    );
    let (sl, vl, l_l) = enc_value(
        l_part(w),
        L_STATES,
        l_sym(ll),
        l_base(l_sym(ll)),
        l_extra(l_sym(ll)),
        ll,
        sp[0],
        vm,
        lm,
    );
    (seq![sl, sm, sd], vl, l_l)
}

/// Decoding a triple undoes encoding it.
#[verifier::rlimit(40)]
pub proof fn lemma_triple_round_trip(
    w: Seq<u16>,
    sp: Seq<nat>,
    v: nat,
    l: nat,
    t: (nat, nat, nat),
    x: nat,
    b: nat,
)
    requires
        lmd_tables_full(w),
        triple_coded(w, t),
        lmd_states_ok(sp),
        v < pow2(l),
        x < pow2(b),
    ensures
        ({
            let (st, v2, l2) = enc_triple(w, sp, v, l, t);
            &&& lmd_states_ok(st)
            &&& v2 < pow2(l2)
            &&& lmd_dec_one(w, lmd_dec_states(st), x + v2 * pow2(b), (b + l2) as int) == (
                t,
                lmd_dec_states(sp),
                x + v * pow2(b),
                (b + l) as int,
            )
        }),
{
    reveal(enc_triple);
    lemma_state_counts();
    let (ll, mm, dd) = t;
    lemma_l_sym_range(ll);
    lemma_m_sym_range(mm);
    lemma_d_sym_range(dd);
    let wl = l_part(w);
    let wm = m_part(w);
    let wd = d_part(w);
    let (dsym, dbase, dxb) = (d_sym(dd), d_base(d_sym(dd)), d_extra(d_sym(dd)));
    let (msym, mbase, mxb) = (m_sym(mm), m_base(m_sym(mm)), m_extra(m_sym(mm)));
    let (lsym, lbase, lxb) = (l_sym(ll), l_base(l_sym(ll)), l_extra(l_sym(ll)));
    // On the stream alone.
    let (sd, vd, ld) = enc_value(wd, D_STATES, dsym, dbase, dxb, dd, sp[2], v, l);
    lemma_value_round_trip(wd, D_STATES, KIND_D, dsym, dbase, dxb, dd, sp[2], v, l);
    let (sm, vm, lm) = enc_value(wm, M_STATES, msym, mbase, mxb, mm, sp[1], vd, ld);
    lemma_value_round_trip(wm, M_STATES, KIND_M, msym, mbase, mxb, mm, sp[1], vd, ld);
    let (sl, vl, l_l) = enc_value(wl, L_STATES, lsym, lbase, lxb, ll, sp[0], vm, lm);
    lemma_value_round_trip(wl, L_STATES, KIND_L, lsym, lbase, lxb, ll, sp[0], vm, lm);
    // Above the low bits.
    lemma_stack_bound(x, v, b, l);
    lemma_enc_value_shift(wd, D_STATES, dsym, dbase, dxb, dd, sp[2], v, l, x, b);
    lemma_value_round_trip(wd, D_STATES, KIND_D, dsym, dbase, dxb, dd, sp[2], x + v * pow2(b), b + l);
    lemma_stack_bound(x, vd, b, ld);
    lemma_enc_value_shift(wm, M_STATES, msym, mbase, mxb, mm, sp[1], vd, ld, x, b);
    lemma_value_round_trip(wm, M_STATES, KIND_M, msym, mbase, mxb, mm, sp[1], x + vd * pow2(b), b + ld);
    lemma_stack_bound(x, vm, b, lm);
    lemma_enc_value_shift(wl, L_STATES, lsym, lbase, lxb, ll, sp[0], vm, lm, x, b);
    lemma_value_round_trip(wl, L_STATES, KIND_L, lsym, lbase, lxb, ll, sp[0], x + vm * pow2(b), b + lm);
}

/// Every triple of `t` has symbols with states in `w`.
pub open spec fn triples_coded(w: Seq<u16>, t: Seq<(nat, nat, nat)>) -> bool {
    forall|i: int| 0 <= i < t.len() ==> #[trigger] triple_coded(w, t[i])
}

/// `lmd_enc`, unfolded only on request.
#[verifier::opaque]
spec fn lmd_enc_o(w: Seq<u16>, t: Seq<(nat, nat, nat)>, k: nat) -> (Seq<nat>, nat, nat) {
    lmd_enc(w, t, k)
}

/// `lmd_dec`, unfolded only on request.
#[verifier::opaque]
spec fn lmd_dec_o(w: Seq<u16>, st: Seq<nat>, rv: nat, rl: int, k: nat) -> (
    Seq<(nat, nat, nat)>,
    Seq<nat>,
    nat,
    int,
) {
    lmd_dec(w, st, rv, rl, k)
}

/// One more triple of encoding is one triple step.
proof fn lemma_lmd_enc_unfold(w: Seq<u16>, t: Seq<(nat, nat, nat)>, e: nat)
    requires
        e + 1 <= t.len(),
    ensures
        ({
            let (sp, vp, lp) = lmd_enc_o(w, t, e);
            lmd_enc_o(w, t, e + 1) == enc_triple(w, sp, vp, lp, t[t.len() - (e + 1)])
        }),
{
    reveal(enc_triple);
    reveal(lmd_enc_o);
}

/// One more triple of decoding is one triple step.
proof fn lemma_lmd_dec_unfold(w: Seq<u16>, st: Seq<nat>, rv: nat, rl: int, j: nat)
    requires
        j > 0,
    ensures
        ({
            let p = lmd_dec_o(w, st, rv, rl, (j - 1) as nat);
            let g = lmd_dec_one(w, p.1, p.2, p.3);
            lmd_dec_o(w, st, rv, rl, j) == (p.0.push(g.0), g.1, g.2, g.3)
        }),
{
    reveal(lmd_dec_o);
}

/// Encoder states stay in range and the stream value below two to its width.
proof fn lemma_lmd_enc_range(w: Seq<u16>, t: Seq<(nat, nat, nat)>, k: nat)
    requires
        lmd_tables_full(w),
        triples_coded(w, t),
        k <= t.len(),
    ensures
        lmd_states_ok(lmd_enc_o(w, t, k).0),
        lmd_enc_o(w, t, k).1 < pow2(lmd_enc_o(w, t, k).2),
    decreases k,
{
    if k == 0 {
        reveal(lmd_enc_o);
        vstd::arithmetic::power2::lemma2_to64();
    } else {
        let e = (k - 1) as nat;
        lemma_lmd_enc_range(w, t, e);
        lemma_lmd_enc_unfold(w, t, e);
        let (sp, vp, lp) = lmd_enc_o(w, t, e);
        assert(triple_coded(w, t[t.len() - k]));
        vstd::arithmetic::power2::lemma2_to64();
        lemma_triple_round_trip(w, sp, vp, lp, t[t.len() - k], 0, 0);
    }
}

/// Decoding `j` triples of the stream that encoding `t` produced, held above `b` low bits
/// `x`, gives the first `j` triples back, with the states and stream encoding had before it
/// encoded them.
#[verifier::rlimit(60)]
#[verifier::spinoff_prover]
proof fn lemma_lmd_dec_enc_o(w: Seq<u16>, t: Seq<(nat, nat, nat)>, x: nat, b: nat, j: nat)
    requires
        lmd_tables_full(w),
        triples_coded(w, t),
        j <= t.len(),
        x < pow2(b),
    ensures
        ({
            let k = t.len();
            let (st, v, l) = lmd_enc_o(w, t, k);
            let (st2, v2, l2) = lmd_enc_o(w, t, (k - j) as nat);
            lmd_dec_o(w, lmd_dec_states(st), x + v * pow2(b), (b + l) as int, j) == (
                t.subrange(0, j as int),
                lmd_dec_states(st2),
                x + v2 * pow2(b),
                (b + l2) as int,
            )
        }),
    decreases j,
{
    let k = t.len();
    let (st, v, l) = lmd_enc_o(w, t, k);
    let xs = x + v * pow2(b);
    let ls = (b + l) as int;
    if j == 0 {
        reveal(lmd_dec_o);
        assert(t.subrange(0, 0) =~= Seq::<(nat, nat, nat)>::empty());
    } else {
        let j1 = (j - 1) as nat;
        let e = (k - j) as nat;
        assert((k - j1) as nat == e + 1);
        lemma_lmd_dec_enc_o(w, t, x, b, j1);
        lemma_lmd_enc_range(w, t, e);
        let (sp, vp, lp) = lmd_enc_o(w, t, e);
        lemma_lmd_enc_unfold(w, t, e);
        assert(k - (e + 1) == j1);
        let tr = t[j1 as int];
        let q = enc_triple(w, sp, vp, lp, tr);
        assert(lmd_enc_o(w, t, e + 1) == q);
        let p = lmd_dec_o(w, lmd_dec_states(st), xs, ls, j1);
        assert(p == (t.subrange(0, j1 as int), lmd_dec_states(q.0), x + q.1 * pow2(b), (b + q.2) as int));
        assert(triple_coded(w, tr));
        lemma_triple_round_trip(w, sp, vp, lp, tr, x, b);
        let g = lmd_dec_one(w, p.1, p.2, p.3);
        assert(g == (tr, lmd_dec_states(sp), x + vp * pow2(b), (b + lp) as int));
        lemma_lmd_dec_unfold(w, lmd_dec_states(st), xs, ls, j);
        assert(t.subrange(0, j1 as int).push(tr) =~= t.subrange(0, j as int));
    }
}

/// LMD round trip: an LMD block that `Lmds::store` wrote, `payload` after at least eight bytes
/// `pre`, with parameters `param`, is read back by `Lmds::load` with the same weights, which
/// gives the triples back.
pub proof fn lemma_lmds_round_trip(
    w: Seq<u16>,
    t: Seq<(nat, nat, nat)>,
    pre: Seq<u8>,
    payload: Seq<u8>,
    param: (u32, u32, u32, Seq<u16>),
)
    requires
        t.len() > 0 ==> lmd_tables_full(w),
        triples_coded(w, t),
        pre.len() >= 8,
        param.2 <= 7,
        ({
            let (st, v, l) = lmd_enc(w, t, t.len());
            &&& param.0 == t.len()
            &&& param.3 == lmd_states(st)
            &&& bytes_value(payload) == v
            &&& 8 * payload.len() == l + param.2
        }),
    ensures
        lmd_load_result(w, pre + payload, param) == Ok::<(), crate::error::Error>(()),
        lmd_run(w, pre + payload, param).0 == t,
{
    let k = t.len();
    let (st, v, l) = lmd_enc(w, t, k);
    let x = bytes_value(pre);
    let b = 8 * pre.len();
    lemma_bytes_value_append(pre, payload);
    lemma_bytes_value_bound(pre);
    assert(pow2(b) * v == v * pow2(b)) by (nonlinear_arith);
    vstd::arithmetic::power2::lemma2_to64();
    lemma_state_counts();
    if k > 0 {
        lemma_lmd_enc_range(w, t, k);
        lemma_lmd_dec_enc_o(w, t, x, b, k);
        reveal(lmd_enc_o);
        reveal(lmd_dec_o);
        assert((k - k) as nat == 0);
        assert(lmd_enc(w, t, 0) == (seq![L_STATES as nat, M_STATES as nat, D_STATES as nat], 0nat, 0nat));
        assert(x + 0 * pow2(b) == x);
        lemma_stack_bound(x, v, b, l);
        assert(lmd_start(param.3) =~= lmd_dec_states(st));
        assert(t.subrange(0, k as int) =~= t);
        assert(lmd_dec_states(seq![L_STATES as nat, M_STATES as nat, D_STATES as nat])
            =~= seq![0nat, 0nat, 0nat]);
    } else {
        assert(payload.len() == 0);
        assert(pre + payload =~= pre);
        assert(lmd_start(param.3) =~= seq![0nat, 0nat, 0nat]);
        assert(t =~= Seq::<(nat, nat, nat)>::empty());
    }
}

} // verus!
