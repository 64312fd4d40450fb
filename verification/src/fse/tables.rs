use vstd::prelude::*;
use vstd::arithmetic::power2::pow2;
use vstd::std_specs::bits::u32_leading_zeros;

use super::constants::{MAX_D_VALUE, MAX_L_VALUE, MAX_M_VALUE};

verus! {

/// Extra bits of literal length symbol `s`.
pub open spec fn l_extra(s: nat) -> nat {
    if s < 16 {
        0
    } else if s == 16 {
        2
    } else if s == 17 {
        3
    } else if s == 18 {
        5
    } else {
        8
    }
}

/// Base value of literal length symbol `s`.
pub open spec fn l_base(s: nat) -> nat {
    if s < 16 {
        s
    } else if s == 16 {
        16
    } else if s == 17 {
        20
    } else if s == 18 {
        28
    } else {
        60
    }
}

/// Extra bits of match length symbol `s`.
pub open spec fn m_extra(s: nat) -> nat {
    if s < 16 {
        0
    } else if s == 16 {
        3
    } else if s == 17 {
        5
    } else if s == 18 {
        8
    } else {
        11
    }
}

/// Base value of match length symbol `s`.
pub open spec fn m_base(s: nat) -> nat {
    if s < 16 {
        s
    } else if s == 16 {
        16
    } else if s == 17 {
        24
    } else if s == 18 {
        56
    } else {
        312
    }
}

/// Extra bits of match distance symbol `s`.
pub open spec fn d_extra(s: nat) -> nat {
    s / 4
}

/// Base value of match distance symbol `s`: the sum of the ranges of the symbols below it.
pub open spec fn d_base(s: nat) -> nat
    decreases s,
{
    if s == 0 {
        0
    } else {
        d_base((s - 1) as nat) + pow2(d_extra((s - 1) as nat))
    }
}

/// The literal length symbol of value `v`.
pub open spec fn l_sym(v: nat) -> nat {
    if v < 16 {
        v
    } else if v < 20 {
        16
    } else if v < 28 {
        17
    } else if v < 60 {
        18
    } else {
        19
    }
}

/// The match length symbol of value `v`.
pub open spec fn m_sym(v: nat) -> nat {
    if v < 16 {
        v
    } else if v < 24 {
        16
    } else if v < 56 {
        17
    } else if v < 312 {
        18
    } else {
        19
    }
}

/// The first match distance symbol from `s` on whose range does not end at or below `v`.
pub open spec fn d_sym_from(v: nat, s: nat) -> nat
    decreases 63 - s,
{
    if s >= 63 || v < d_base(s + 1) {
        s
    } else {
        d_sym_from(v, s + 1)
    }
}

/// The match distance symbol of value `v`.
pub open spec fn d_sym(v: nat) -> nat {
    d_sym_from(v, 0)
}

/// Distance base values increase with the symbol.
pub proof fn lemma_d_base_mono(a: nat, b: nat)
    requires
        a <= b,
    ensures
        d_base(a) <= d_base(b),
    decreases b,
{
    if a < b {
        lemma_d_base_mono(a, (b - 1) as nat);
        vstd::arithmetic::power2::lemma_pow2_pos(d_extra((b - 1) as nat));
    }
}

/// A value in the range of symbol `r` has symbol `r`.
proof fn lemma_d_sym_from(v: nat, s: nat, r: nat)
    requires
        s <= r < 64,
        in_range(v, d_base(r), d_extra(r)),
    ensures
        d_sym_from(v, s) == r,
    decreases r - s,
{
    if s < r {
        lemma_d_base_mono(s + 1, r);
        lemma_d_sym_from(v, s + 1, r);
    }
}

/// `v` lies in the value range of symbol `s` of a table.
pub open spec fn in_range(v: nat, base: nat, extra: nat) -> bool {
    base <= v < base + pow2(extra)
}

/// Closed form of the distance base values.
pub proof fn lemma_d_base_closed(s: nat)
    ensures
        d_base(s) + 4 == (4 + s % 4) * pow2(s / 4),
    decreases s,
{
    vstd::arithmetic::power2::lemma2_to64();
    if s > 0 {
        let t = (s - 1) as nat;
        lemma_d_base_closed(t);
        if s % 4 == 0 {
            assert(t / 4 + 1 == s / 4 && t % 4 == 3);
            vstd::arithmetic::power2::lemma_pow2_unfold(s / 4);
            assert((4 + 3) * pow2(t / 4) + pow2(t / 4) == 8 * pow2(t / 4)) by (nonlinear_arith);
        } else {
            assert(t / 4 == s / 4 && t % 4 + 1 == s % 4);
            assert((4 + t % 4) * pow2(t / 4) + pow2(t / 4) == (4 + s % 4) * pow2(s / 4))
                by (nonlinear_arith)
                requires t / 4 == s / 4, t % 4 + 1 == s % 4;
        }
    }
}

/// A literal length falls in the range of its symbol.
pub proof fn lemma_l_sym_range(v: nat)
    requires
        v <= MAX_L_VALUE,
    ensures
        l_sym(v) < 20,
        in_range(v, l_base(l_sym(v)), l_extra(l_sym(v))),
{
    vstd::arithmetic::power2::lemma2_to64();
}

/// A match length falls in the range of its symbol.
pub proof fn lemma_m_sym_range(v: nat)
    requires
        v <= MAX_M_VALUE,
    ensures
        m_sym(v) < 20,
        in_range(v, m_base(m_sym(v)), m_extra(m_sym(v))),
{
    vstd::arithmetic::power2::lemma2_to64();
}

/// The distance symbol search from `s` ends on the symbol whose range holds `v`.
proof fn lemma_d_sym_from_range(v: nat, s: nat)
    requires
        s <= 63,
        d_base(s) <= v,
        v < d_base(64),
    ensures
        s <= d_sym_from(v, s) < 64,
        in_range(v, d_base(d_sym_from(v, s)), d_extra(d_sym_from(v, s))),
    decreases 63 - s,
{
    assert(d_base(s + 1) == d_base(s) + pow2(d_extra(s)));
    if s >= 63 || v < d_base(s + 1) {
    } else {
        lemma_d_sym_from_range(v, s + 1);
    }
}

/// A match distance falls in the range of its symbol.
pub proof fn lemma_d_sym_range(v: nat)
    requires
        v <= MAX_D_VALUE,
    ensures
        d_sym(v) < 64,
        in_range(v, d_base(d_sym(v)), d_extra(d_sym(v))),
{
    lemma_d_base_closed(64);
    vstd::arithmetic::power2::lemma2_to64();
    assert(64nat % 4 == 0 && 64nat / 4 == 16);
    assert(pow2(16) == 65536);
    assert(d_base(64) + 4 == 4 * 65536);
    lemma_d_sym_from_range(v, 0);
}

/// Extra bits of literal length symbol `s`.
pub fn l_extra_bits(s: usize) -> (r: u32)
    requires
        s < 20,
    ensures
        r == l_extra(s as nat),
{
    if s < 16 {
        0
    } else if s == 16 {
        2
    } else if s == 17 {
        3
    } else if s == 18 {
        5
    } else {
        8
    }
}

/// Base value of literal length symbol `s`.
pub fn l_base_value(s: usize) -> (r: u32)
    requires
        s < 20,
    ensures
        r == l_base(s as nat),
{
    if s < 16 {
        s as u32
    } else if s == 16 {
        16
    } else if s == 17 {
        20
    } else if s == 18 {
        28
    } else {
        60
    }
}

/// Extra bits of match length symbol `s`.
pub fn m_extra_bits(s: usize) -> (r: u32)
    requires
        s < 20,
    ensures
        r == m_extra(s as nat),
{
    if s < 16 {
        0
    } else if s == 16 {
        3
    } else if s == 17 {
        5
    } else if s == 18 {
        8
    } else {
        11
    }
}

/// Base value of match length symbol `s`.
pub fn m_base_value(s: usize) -> (r: u32)
    requires
        s < 20,
    ensures
        r == m_base(s as nat),
{
    if s < 16 {
        s as u32
    } else if s == 16 {
        16
    } else if s == 17 {
        24
    } else if s == 18 {
        56
    } else {
        312
    }
}

/// Extra bits of match distance symbol `s`.
pub fn d_extra_bits(s: usize) -> (r: u32)
    requires
        s < 64,
    ensures
        r == d_extra(s as nat),
        r <= 15,
{
    (s / 4) as u32
}

/// Base value of match distance symbol `s`.
pub fn d_base_value(s: usize) -> (r: u32)
    requires
        s < 64,
    ensures
        r == d_base(s as nat),
        r < 229376,
{
    proof {
        lemma_d_base_closed(s as nat);
        vstd::arithmetic::power2::lemma2_to64();
        vstd::arithmetic::power2::lemma_pow2_pos((s / 4) as nat);
        assert((4 + s % 4) * pow2((s / 4) as nat) <= 7 * 32768) by (nonlinear_arith)
            requires
                s % 4 < 4,
                pow2((s / 4) as nat) <= 32768,
        ;
        assert(pow2((s / 4) as nat) <= 32768) by {
            if s / 4 < 15 {
                vstd::arithmetic::power2::lemma_pow2_strictly_increases((s / 4) as nat, 15);
            }
        }
        vstd::bits::lemma_u32_shl_is_mul((4 + s % 4) as u32, (s / 4) as u32);
    }
    (((4 + s % 4) as u32) << (s / 4) as u32) - 4
}

/// The literal length symbol of `v`.
pub fn l_symbol(v: u32) -> (r: usize)
    requires
        v <= MAX_L_VALUE,
    ensures
        r < 20,
        r == l_sym(v as nat),
        in_range(v as nat, l_base(r as nat), l_extra(r as nat)),
{
    proof {
        vstd::arithmetic::power2::lemma2_to64();
    }
    if v < 16 {
        v as usize
    } else if v < 20 {
        16
    } else if v < 28 {
        17
    } else if v < 60 {
        18
    } else {
        19
    }
}

/// The match length symbol of `v`.
pub fn m_symbol(v: u32) -> (r: usize)
    requires
        v <= MAX_M_VALUE,
    ensures
        r < 20,
        r == m_sym(v as nat),
        in_range(v as nat, m_base(r as nat), m_extra(r as nat)),
{
    proof {
        vstd::arithmetic::power2::lemma2_to64();
    }
    if v < 16 {
        v as usize
    } else if v < 24 {
        16
    } else if v < 56 {
        17
    } else if v < 312 {
        18
    } else {
        19
    }
}

/// The match distance symbol of `v`.
pub fn d_symbol(v: u32) -> (r: usize)
    requires
        v <= MAX_D_VALUE,
    ensures
        r < 64,
        r == d_sym(v as nat),
        in_range(v as nat, d_base(r as nat), d_extra(r as nat)),
{
    let x = v + 4;
    proof {
        vstd::std_specs::bits::axiom_u32_leading_zeros(x);
    }
    let z = x.leading_zeros();
    proof {
        assert(z <= 29) by (bit_vector)
            requires
                4 <= x,
                x >> ((32 - z) as u32) == 0,
                z <= 32,
        ;
        assert(z >= 14) by (bit_vector)
            requires
                x <= 262143,
                (x >> ((31 - z) as u32)) & 1 != 0,
                z < 32,
        ;
    }
    let g = 29 - z;
    proof {
        assert(4 <= (x >> g) < 8) by (bit_vector)
            requires
                g == 29 - z,
                z <= 29,
                x >> ((32 - z) as u32) == 0,
                (x >> ((31 - z) as u32)) & 1 != 0,
        ;
    }
    let q = x >> g;
    let s = (4 * g + q - 4) as usize;
    proof {
        lemma_d_base_closed(s as nat);
        assert(s / 4 == g && s % 4 == q - 4);
        vstd::bits::lemma_u32_shr_is_div(x, g);
        vstd::arithmetic::power2::lemma_pow2_pos(g as nat);
        vstd::arithmetic::div_mod::lemma_fundamental_div_mod(x as int, pow2(g as nat) as int);
        vstd::arithmetic::div_mod::lemma_mod_bound(x as int, pow2(g as nat) as int);
        assert(q * pow2(g as nat) <= x < q * pow2(g as nat) + pow2(g as nat)) by (nonlinear_arith)
            requires
                x == pow2(g as nat) * q + (x as nat) % pow2(g as nat),
                0 <= (x as nat) % pow2(g as nat) < pow2(g as nat),
        ;
        assert(in_range(v as nat, d_base(s as nat), d_extra(s as nat)));
        lemma_d_sym_from(v as nat, 0, s as nat);
    }
    s
}

} // verus!
