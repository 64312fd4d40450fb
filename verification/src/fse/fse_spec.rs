use vstd::prelude::*;
use vstd::arithmetic::power2::{pow2, lemma_pow2_adds, lemma_pow2_pos, lemma_pow2_strictly_increases};
use vstd::std_specs::bits::u32_leading_zeros;

verus! {

// Finite state entropy (tANS) coding over `n` states, `n` a power of two. Symbol `i` with
// weight `w > 0` owns the `w` consecutive decoder states from `c`, the sum of the weights below
// it. Encoder states live in `[n, 2n)`, decoder states in `[0, n)`: decoder state = encoder
// state - n.

/// `n` is a state count: a power of two no larger than 1024.
pub open spec fn is_fse_states(n: u32) -> bool {
    exists|m: u32| m <= 10 && n == (1u32 << m)
}

/// The exponent of a state count: `n == 2^fse_m(n)`.
pub open spec fn fse_m(n: u32) -> u32 {
    choose|m: u32| m <= 10 && n == (1u32 << m)
}

/// The scale of weight `w`: `n <= w * 2^k < 2n`.
pub open spec fn fse_k(w: u32, n: u32) -> nat {
    (u32_leading_zeros(w) - u32_leading_zeros(n)) as nat
}

/// The scale brings the weight into `[n, 2n)`.
pub proof fn lemma_fse_k(w: u32, n: u32, m: u32)
    requires
        n == (1u32 << m),
        m <= 10,
        1 <= w <= n,
    ensures
        n <= w * pow2(fse_k(w, n)) < 2 * n,
        fse_k(w, n) <= m,
        u32_leading_zeros(w) >= u32_leading_zeros(n),
        u32_leading_zeros(n) == 31 - m,
        n == pow2(m as nat),
{
    vstd::std_specs::bits::axiom_u32_leading_zeros(w);
    vstd::std_specs::bits::axiom_u32_leading_zeros(n);
    let zw = u32_leading_zeros(w) as u32;
    let zn = u32_leading_zeros(n) as u32;
    assert(zn == 31 - m) by (bit_vector)
        requires
            n == (1u32 << m),
            m <= 10,
            zn < 32,
            (n >> ((31 - zn) as u32)) & 1 != 0,
    ;
    assert(zw >= zn) by (bit_vector)
        requires
            1 <= w <= n,
            n == (1u32 << m),
            m <= 10,
            zn == 31 - m,
            zw < 32,
            (w >> ((31 - zw) as u32)) & 1 != 0,
    ;
    let k = (zw - zn) as u32;
    assert(zw <= 31) by (bit_vector)
        requires
            1 <= w,
            zw <= 32,
            (zw == 32) ==> w == 0,
    ;
    assert(n <= (w << k) && (w << k) < 2 * n && (w << k) >> k == w && k <= 10) by (bit_vector)
        requires
            1 <= w <= n,
            n == (1u32 << m),
            m <= 10,
            zn == 31 - m,
            zw >= zn,
            zw <= 31,
            k == zw - zn,
            w >> ((32 - zw) as u32) == 0,
            (w >> ((31 - zw) as u32)) & 1 != 0,
    ;
    vstd::bits::lemma_u32_pow2_no_overflow(k as nat);
    lemma_pow2_pos(k as nat);
    let x = w << k;
    vstd::bits::lemma_u32_shr_is_div(x, k);
    vstd::arithmetic::div_mod::lemma_fundamental_div_mod(x as int, pow2(k as nat) as int);
    assert(w * pow2(k as nat) <= x) by (nonlinear_arith)
        requires
            x == pow2(k as nat) * (x as nat / pow2(k as nat)) + x as nat % pow2(k as nat),
            x as nat / pow2(k as nat) == w,
            x as nat % pow2(k as nat) >= 0,
    ;
    vstd::bits::lemma_u32_shl_is_mul(w, k);
    vstd::bits::lemma_u32_pow2_no_overflow(m as nat);
    vstd::bits::lemma_u32_shl_is_mul(1u32, m);
}

/// Bits emitted when encoding from state `s` with a symbol of weight `w`.
pub open spec fn enc_nbits(w: u32, n: u32, s: nat) -> nat {
    let k = fse_k(w, n);
    if s >= w * pow2(k) {
        k
    } else {
        (k - 1) as nat
    }
}

/// Encoder state after encoding from state `s` a symbol of weight `w` whose states start at `c`.
pub open spec fn enc_next(w: u32, c: nat, n: u32, s: nat) -> nat {
    (n + c - w + s / pow2(enc_nbits(w, n, s))) as nat
}

/// Bits read by the decoder at offset `j` within the states of a symbol of weight `w`.
pub open spec fn dec_nbits(w: u32, n: u32, j: nat) -> nat {
    let k = fse_k(w, n);
    if (w + j) * pow2(k) < 2 * n {
        k
    } else {
        (k - 1) as nat
    }
}

/// Base of the next decoder state at offset `j` within the states of a symbol of weight `w`.
pub open spec fn dec_delta(w: u32, n: u32, j: nat) -> nat {
    ((w + j) * pow2(dec_nbits(w, n, j)) - n) as nat
}

/// Decoding inverts encoding: from the state reached by encoding a symbol from `s`, the decoder
/// identifies the symbol, reads back exactly the emitted bits and returns to `s`.
pub proof fn lemma_fse_step_inverse(w: u32, c: nat, n: u32, s: nat)
    requires
        is_fse_states(n),
        1 <= w,
        c + w <= n,
        n <= s < 2 * n,
    ensures
        c <= enc_next(w, c, n, s) - n < c + w,
        dec_nbits(w, n, (enc_next(w, c, n, s) - n - c) as nat) == enc_nbits(w, n, s),
        dec_delta(w, n, (enc_next(w, c, n, s) - n - c) as nat) + s % pow2(enc_nbits(w, n, s))
            == s - n,
        enc_nbits(w, n, s) <= 10,
        n <= enc_next(w, c, n, s) < 2 * n,
{
    let m = choose|m: u32| m <= 10 && n == (1u32 << m);
    lemma_fse_k(w, n, m);
    let k = fse_k(w, n);
    let nb = enc_nbits(w, n, s);
    let p = pow2(nb);
    lemma_pow2_pos(nb);
    let v = s / p;
    vstd::arithmetic::div_mod::lemma_fundamental_div_mod(s as int, p as int);
    vstd::arithmetic::div_mod::lemma_mod_bound(s as int, p as int);
    if s >= w * pow2(k) {
        // v in [w, 2w)
        assert(w * p <= s < 2 * n);
        assert(v * p <= s) by (nonlinear_arith)
            requires s == p * v + s % p, s % p >= 0;
        assert(v >= w) by {
            vstd::arithmetic::div_mod::lemma_div_is_ordered((w * p) as int, s as int, p as int);
            vstd::arithmetic::div_mod::lemma_div_multiples_vanish(w as int, p as int);
            assert(p * w == w * p) by (nonlinear_arith);
        }
        assert(v < 2 * w) by (nonlinear_arith)
            requires v * p <= s, s < 2 * n, n <= w * p, p > 0;
        assert((w + (v - w)) * pow2(k) < 2 * n);
    } else {
        assert(k >= 1) by {
            if k == 0 {
                vstd::arithmetic::power2::lemma2_to64();
            }
        }
        let k1 = (k - 1) as nat;
        lemma_pow2_adds(k1, 1);
        vstd::arithmetic::power2::lemma2_to64();
        assert(pow2(k) == 2 * p);
        // w * p < n <= s < w * 2p
        assert(w * p < n) by (nonlinear_arith)
            requires w * pow2(k) < 2 * n, pow2(k) == 2 * p;
        // n is a multiple of p
        assert(k1 <= m);
        lemma_pow2_adds(k1, (m - k1) as nat);
        assert(n == p * pow2((m - k1) as nat));
        assert(v * p <= s) by (nonlinear_arith)
            requires s == p * v + s % p, s % p >= 0;
        assert(v >= pow2((m - k1) as nat)) by {
            vstd::arithmetic::div_mod::lemma_div_is_ordered(n as int, s as int, p as int);
            vstd::arithmetic::div_mod::lemma_div_multiples_vanish(pow2((m - k1) as nat) as int, p as int);
        }
        assert(v * p >= n) by (nonlinear_arith)
            requires v >= pow2((m - k1) as nat), n == p * pow2((m - k1) as nat), p > 0;
        assert(v >= w) by (nonlinear_arith)
            requires v * p >= n, w * p < n, p > 0;
        assert(v < 2 * w) by (nonlinear_arith)
            requires s == p * v + s % p, s % p >= 0, s < w * pow2(k), pow2(k) == 2 * p, p > 0;
        assert(v * pow2(k) >= 2 * n) by (nonlinear_arith)
            requires v * p >= n, pow2(k) == 2 * p;
        assert((w + (v - w)) * pow2(k) >= 2 * n);
    }
    assert(enc_next(w, c, n, s) == n + c - w + v);
    let j = (v - w) as nat;
    assert(w + j == v);
    assert(dec_nbits(w, n, j) == nb);
    assert(v * p + s % p == s) by (nonlinear_arith)
        requires s == p * v + s % p;
    assert(v * p >= n) by (nonlinear_arith)
        requires v * p + s % p == s, s % p < p, s >= n, v * p + p <= s + p, n <= w * pow2(k),
            v >= w, pow2(k) >= p, (nb == k || v * pow2(k) >= 2 * n), (nb == k ==> p == pow2(k)),
            (nb != k ==> pow2(k) == 2 * p);
    assert(dec_delta(w, n, j) == v * p - n);
}

} // verus!
