use vstd::prelude::*;
use vstd::std_specs::bits::u32_leading_zeros;

verus! {

/// Sum of a sequence of weights.
pub open spec fn total(s: Seq<u16>) -> nat
    decreases s.len(),
{
    if s.len() == 0 {
        0
    } else {
        total(s.drop_last()) + s.last() as nat
    }
}

/// Number of nonzero weights.
pub open spec fn n_nonzero(s: Seq<u16>) -> nat
    decreases s.len(),
{
    if s.len() == 0 {
        0
    } else {
        n_nonzero(s.drop_last()) + if s.last() != 0 { 1nat } else { 0nat }
    }
}

/// `t` has nonzero weights exactly where `s` does.
pub open spec fn same_support(s: Seq<u16>, t: Seq<u16>) -> bool {
    &&& s.len() == t.len()
    &&& forall|i: int| 0 <= i < s.len() ==> (#[trigger] s[i] == 0 <==> t[i] == 0)
}

/// `n` is a power of two no larger than `2^15`.
pub open spec fn is_state_count(n: u32) -> bool {
    exists|k: u32| k <= 15 && n == (1u32 << k)
}

/// The sum of a prefix extended by one element.
pub proof fn lemma_total_prefix(s: Seq<u16>, i: int)
    requires
        0 <= i < s.len(),
    ensures
        total(s.subrange(0, i + 1)) == total(s.subrange(0, i)) + s[i],
        n_nonzero(s.subrange(0, i + 1)) == n_nonzero(s.subrange(0, i)) + if s[i] != 0 {
            1nat
        } else {
            0nat
        },
{
    assert(s.subrange(0, i + 1).drop_last() =~= s.subrange(0, i));
}

/// Sums agree on sequences equal up to one position.
pub proof fn lemma_total_update(s: Seq<u16>, i: int, v: u16)
    requires
        0 <= i < s.len(),
    ensures
        total(s.update(i, v)) + s[i] == total(s) + v,
        n_nonzero(s.update(i, v)) + (if s[i] != 0 { 1int } else { 0int }) == n_nonzero(s) + (
        if v != 0 { 1int } else { 0int }),
    decreases s.len(),
{
    if i == s.len() - 1 {
        assert(s.update(i, v).drop_last() =~= s.drop_last());
    } else {
        assert(s.update(i, v).drop_last() =~= s.drop_last().update(i, v));
        lemma_total_update(s.drop_last(), i, v);
    }
}

/// The number of nonzero weights is at most their sum.
pub proof fn lemma_nonzero_le_total(s: Seq<u16>)
    ensures
        n_nonzero(s) <= total(s),
        n_nonzero(s) <= s.len(),
        total(s) == 0 ==> forall|i: int| 0 <= i < s.len() ==> s[i] == 0,
    decreases s.len(),
{
    if s.len() > 0 {
        lemma_nonzero_le_total(s.drop_last());
        assert forall|i: int| 0 <= i < s.len() && total(s) == 0 implies s[i] == 0 by {
            if i < s.len() - 1 {
                assert(s.drop_last()[i] == s[i]);
            }
        }
    }
}

/// Each weight is at most the sum.
pub proof fn lemma_weight_le_total(s: Seq<u16>, i: int)
    requires
        0 <= i < s.len(),
    ensures
        s[i] <= total(s),
    decreases s.len(),
{
    if i < s.len() - 1 {
        lemma_weight_le_total(s.drop_last(), i);
    }
}

/// Leading zeros of a power of two.
proof fn lemma_clz_pow2(k: u32)
    requires
        k < 32,
    ensures
        u32_leading_zeros(1u32 << k) == 31 - k,
{
    let u = 1u32 << k;
    vstd::std_specs::bits::axiom_u32_leading_zeros(u);
    let z = u32_leading_zeros(u) as u32;
    assert(u != 0) by (bit_vector) requires u == 1u32 << k, k < 32;
    assert(z < 32);
    assert((u >> ((31 - z) as u32)) & 1u32 != 0u32);
    assert(forall|j: u32| j < 32 && (u >> j) & 1u32 != 0u32 ==> j == k) by (bit_vector)
        requires u == 1u32 << k, k < 32;
}

/// One trimming pass over the weights from index `i` on: each nonzero weight gives up
/// `(w - 1) >> shift`, as far as the overflow `ov` left allows.
pub open spec fn trim_pass(w: Seq<u16>, ov: u32, shift: u32, i: nat) -> (Seq<u16>, u32)
    decreases w.len() - i,
{
    if i >= w.len() {
        (w, ov)
    } else {
        let x = w[i as int];
        let n0 = ((x as u32 - 1) as u32) >> shift;
        let n: u32 = if x == 0 {
            0
        } else if n0 < ov {
            n0
        } else {
            ov
        };
        trim_pass(w.update(i as int, (x - n) as u16), (ov - n) as u32, shift, i + 1)
    }
}

/// The first `k` trimming passes, with shifts three down to zero.
pub open spec fn trim_passes(w: Seq<u16>, ov: u32, k: nat) -> (Seq<u16>, u32)
    decreases k,
{
    if k == 0 {
        (w, ov)
    } else {
        let p = trim_passes(w, ov, (k - 1) as nat);
        trim_pass(p.0, p.1, (4 - k) as u32, 0)
    }
}

/// With no overflow left a pass changes nothing.
proof fn lemma_trim_pass_done(w: Seq<u16>, shift: u32, i: nat)
    ensures
        trim_pass(w, 0, shift, i) == (w, 0u32),
    decreases w.len() - i,
{
    if i < w.len() {
        assert(w.update(i as int, w[i as int]) =~= w);
        lemma_trim_pass_done(w, shift, i + 1);
    }
}

/// Trims `overflow` from the weights, lowering large weights first and never taking a weight
/// below one.
pub fn normalize_m1_trim(weights: &mut [u16], overflow: u32)
    requires
        overflow + n_nonzero(old(weights)@) <= total(old(weights)@),
    ensures
        same_support(old(weights)@, final(weights)@),
        total(final(weights)@) + overflow == total(old(weights)@),
        forall|i: int|
            0 <= i < old(weights)@.len() ==> #[trigger] final(weights)@[i] <= old(weights)@[i],
        final(weights)@ == trim_passes(old(weights)@, overflow, 4).0,
{
    let ghost w0 = weights@;
    let ghost ov0 = overflow;
    let mut overflow = overflow;
    let mut shift: u32 = 4;

    while shift > 0
        invariant
            shift <= 4,
            same_support(w0, weights@),
            total(weights@) + ov0 == total(w0) + overflow,
            overflow + n_nonzero(weights@) <= total(weights@),
            n_nonzero(weights@) == n_nonzero(w0),
            forall|i: int| 0 <= i < w0.len() ==> #[trigger] weights@[i] <= w0[i],
            shift == 0 ==> overflow == 0,
            (weights@, overflow) == trim_passes(w0, ov0, (4 - shift) as nat),
        decreases shift,
    {
        shift = shift - 1;
        let mut i: usize = 0;
        let ghost start = weights@;
        let ghost ov1 = overflow;
        while i < weights.len()
            invariant
                i <= weights@.len(),
                shift <= 3,
                same_support(w0, weights@),
                total(weights@) + ov0 == total(w0) + overflow,
                overflow + n_nonzero(weights@) <= total(weights@),
                n_nonzero(weights@) == n_nonzero(w0),
                forall|j: int| 0 <= j < w0.len() ==> #[trigger] weights@[j] <= w0[j],
                shift == 0 ==> forall|j: int|
                    0 <= j < i && weights@[j] != 0 ==> #[trigger] weights@[j] == 1 || overflow == 0,
                trim_pass(weights@, overflow, shift, i as nat) == trim_pass(start, ov1, shift, 0),
            ensures
                i == weights@.len() || overflow == 0,
                trim_pass(weights@, overflow, shift, i as nat) == trim_pass(start, ov1, shift, 0),
            decreases weights@.len() - i,
        {
            if overflow == 0 {
                break;
            }
            let w = weights[i];
            if w != 0 {
                let n0 = (w as u32 - 1) >> shift;
                let n = if n0 < overflow { n0 } else { overflow };
                proof {
                    assert(((w as u32 - 1) as u32) >> shift <= (w as u32 - 1) as u32 && (shift == 0
                        ==> ((w as u32 - 1) as u32) >> shift == (w as u32 - 1) as u32)) by (bit_vector);
                    lemma_total_update(weights@, i as int, (w - n as u16) as u16);
                }
                weights[i] = w - n as u16;
                overflow = overflow - n;
            } else {
                proof {
                    assert(weights@.update(i as int, weights@[i as int]) =~= weights@);
                }
            }
            i = i + 1;
        }
        proof {
            if i < weights@.len() {
                lemma_trim_pass_done(weights@, shift, i as nat);
            }
            assert((4 - shift) as nat - 1 == (3 - shift) as nat);
            if shift == 0 && overflow != 0 {
                // Every nonzero weight is one: the sum equals the nonzero count.
                assert(forall|j: int| 0 <= j < weights@.len() && weights@[j] != 0 ==> #[trigger] weights@[j] == 1);
                lemma_all_ones_total(weights@);
            }
        }
    }
}

/// A sequence of zeros and ones sums to its nonzero count.
proof fn lemma_all_ones_total(s: Seq<u16>)
    requires
        forall|j: int| 0 <= j < s.len() && s[j] != 0 ==> #[trigger] s[j] == 1,
    ensures
        total(s) == n_nonzero(s),
    decreases s.len(),
{
    if s.len() > 0 {
        let t = s.drop_last();
        assert forall|j: int| 0 <= j < t.len() && t[j] != 0 implies #[trigger] t[j] == 1 by {
            assert(t[j] == s[j]);
        }
        lemma_all_ones_total(t);
    }
}

/// The coarse normalized value of a nonzero weight `w`: `w * out_total / in_total` rounded,
/// computed in 31 bit fixed point, and never below one.
pub open spec fn coarse_value(w: u16, in_total: u32, shift: u32) -> u16 {
    if w == 0 {
        0
    } else {
        let f = ((w as u32 * ((1u32 << 31u32) / in_total) + (1u32 << ((shift - 1) as u32))) as u32)
            >> shift;
        if f == 0 {
            1
        } else {
            f as u16
        }
    }
}

proof fn lemma_coarse_bound(x: u32, shift: u32)
    requires
        16 <= shift <= 31,
        x <= 0x8000_0000u32 + (1u32 << ((shift - 1) as u32)),
    ensures
        x >> shift <= (1u32 << ((31 - shift) as u32)),
{
    assert(x >> shift <= (1u32 << ((31 - shift) as u32))) by (bit_vector)
        requires
            16 <= shift <= 31,
            x <= 0x8000_0000u32 + (1u32 << ((shift - 1) as u32)),
    ;
}

/// Scales the nonzero weights to `out_total` in fixed point, returning `out_total` minus the new
/// sum and the index of the first largest weight.
pub fn normalize_m1_coarse(weights: &mut [u16], in_total: u32, out_total: u32) -> (r: (i32, usize))
    requires
        is_state_count(out_total),
        old(weights)@.len() <= out_total,
        total(old(weights)@) == in_total,
    ensures
        same_support(old(weights)@, final(weights)@),
        in_total == 0 ==> r == (0i32, 0usize) && final(weights)@ == old(weights)@,
        in_total > 0 ==> {
            &&& r.0 == out_total - total(final(weights)@)
            &&& total(final(weights)@) <= 0x4000_0000
            &&& r.1 < final(weights)@.len()
            &&& final(weights)@[r.1 as int] > 0
            &&& forall|j: int|
                0 <= j < final(weights)@.len() ==> #[trigger] final(weights)@[j]
                    <= final(weights)@[r.1 as int]
            &&& forall|j: int| 0 <= j < r.1 ==> #[trigger] final(weights)@[j] < final(weights)@[r.1 as int]
            &&& forall|j: int|
                0 <= j < final(weights)@.len() ==> (#[trigger] final(weights)@[j]) <= out_total
            &&& forall|j: int|
                0 <= j < final(weights)@.len() ==> #[trigger] final(weights)@[j] == coarse_value(
                    old(weights)@[j],
                    in_total,
                    u32_leading_zeros(out_total) as u32,
                )
        },
{
    if in_total == 0 {
        return (0, 0);
    }
    let ghost w0 = weights@;
    let ghost k = choose|k: u32| k <= 15 && out_total == (1u32 << k);
    proof {
        lemma_clz_pow2(k);
        assert(out_total >= 1) by (bit_vector) requires out_total == 1u32 << k, k <= 15;
    }
    let shift = out_total.leading_zeros();
    let multiply = (1u32 << 31) / in_total;
    let round = 1u32 << (shift - 1);
    let mut max_weight: u32 = 0;
    let mut max_weight_index: usize = 0;
    let mut remaining: i32 = out_total as i32;
    let mut i: usize = 0;
    proof {
        assert(w0.subrange(0, 0) =~= Seq::<u16>::empty());
        assert(shift == 31 - k);
        assert(out_total == (1u32 << ((31 - shift) as u32)));
        assert(out_total <= 0x8000) by (bit_vector) requires out_total == 1u32 << k, k <= 15;
        vstd::arithmetic::div_mod::lemma_fundamental_div_mod(0x8000_0000int, in_total as int);
        vstd::arithmetic::div_mod::lemma_mod_bound(0x8000_0000int, in_total as int);
        assert((1u32 << 31u32) == 0x8000_0000u32) by (bit_vector);
    }
    while i < weights.len()
        invariant
            i <= weights@.len(),
            weights@.len() == w0.len(),
            w0.len() <= out_total,
            out_total <= 0x8000,
            out_total == (1u32 << ((31 - shift) as u32)),
            16 <= shift <= 31,
            shift == u32_leading_zeros(out_total),
            in_total > 0,
            total(w0) == in_total,
            multiply == (1u32 << 31u32) / in_total,
            in_total * multiply <= 0x8000_0000,
            round == 1u32 << ((shift - 1) as u32),
            forall|j: int| i <= j < w0.len() ==> #[trigger] weights@[j] == w0[j],
            forall|j: int|
                0 <= j < i ==> #[trigger] weights@[j] == coarse_value(w0[j], in_total, shift),
            forall|j: int| 0 <= j < i ==> (#[trigger] weights@[j]) <= out_total,
            forall|j: int| 0 <= j < i ==> (#[trigger] weights@[j] == 0 <==> w0[j] == 0),
            remaining == out_total - total(weights@.subrange(0, i as int)),
            total(weights@.subrange(0, i as int)) <= i * out_total,
            max_weight_index < w0.len(),
            max_weight == 0 ==> max_weight_index == 0,
            max_weight > 0 ==> weights@[max_weight_index as int] == max_weight
                && max_weight_index < i,
            forall|j: int| 0 <= j < i ==> (#[trigger] weights@[j]) <= max_weight,
            forall|j: int| 0 <= j < max_weight_index ==> (#[trigger] weights@[j]) < max_weight,
            (exists|j: int| 0 <= j < i && w0[j] != 0) ==> max_weight > 0,
        decreases weights@.len() - i,
    {
        let w = weights[i];
        if w != 0 {
            proof {
                lemma_weight_le_total(w0, i as int);
                assert(w as u32 * multiply <= in_total * multiply) by (nonlinear_arith)
                    requires w <= in_total;
                assert(round <= 0x4000_0000) by (bit_vector)
                    requires round == 1u32 << ((shift - 1) as u32), 16 <= shift <= 31;
                lemma_coarse_bound((w as u32 * multiply + round) as u32, shift);
            }
            let mut f = (w as u32 * multiply + round) >> shift;
            if f == 0 {
                f = 1;
            }
            let ghost before = weights@;
            weights[i] = f as u16;
            proof {
                lemma_total_prefix(weights@, i as int);
                assert(weights@.subrange(0, i as int) =~= before.subrange(0, i as int));
                assert(i * out_total + f <= (i + 1) * out_total) by (nonlinear_arith)
                    requires f <= out_total;
                assert((i + 1) * out_total <= 0x4000_0000) by (nonlinear_arith)
                    requires i < out_total, out_total <= 0x8000;
            }
            remaining = remaining - f as i32;
            if f > max_weight {
                max_weight = f;
                max_weight_index = i;
            }
        } else {
            proof {
                lemma_total_prefix(weights@, i as int);
                assert(i * out_total <= (i + 1) * out_total) by (nonlinear_arith);
            }
        }
        i = i + 1;
    }
    proof {
        assert(weights@.subrange(0, weights@.len() as int) =~= weights@);
        lemma_nonzero_le_total(w0);
        if !(exists|j: int| 0 <= j < w0.len() && w0[j] != 0) {
            assert forall|j: int| 0 <= j < w0.len() implies w0[j] == 0 by {}
            lemma_zero_total(w0);
        }
        assert(i * out_total <= 0x4000_0000) by (nonlinear_arith)
            requires i <= out_total, out_total <= 0x8000;
    }
    (remaining, max_weight_index)
}

/// A sequence of zeros sums to zero.
pub proof fn lemma_zero_total(s: Seq<u16>)
    requires
        forall|j: int| 0 <= j < s.len() ==> s[j] == 0,
    ensures
        total(s) == 0,
    decreases s.len(),
{
    if s.len() > 0 {
        lemma_zero_total(s.drop_last());
    }
}

/// The weights `w`, summing to `in_total`, each scaled to `out_total` and rounded, nonzero ones
/// kept nonzero.
pub open spec fn coarse(w: Seq<u16>, in_total: u32, out_total: u32) -> Seq<u16> {
    Seq::new(w.len(), |j: int| coarse_value(w[j], in_total, u32_leading_zeros(out_total) as u32))
}

/// Normalizes weights summing to `in_total` so that they sum to `out_total`, a power of two,
/// keeping every nonzero weight nonzero. Returns the index of the largest weight.
pub fn normalize_m1(weights: &mut [u16], in_total: u32, out_total: u32) -> (r: usize)
    requires
        is_state_count(out_total),
        0 < old(weights)@.len() <= out_total,
        total(old(weights)@) == in_total,
    ensures
        r < final(weights)@.len(),
        same_support(old(weights)@, final(weights)@),
        in_total > 0 ==> total(final(weights)@) == out_total,
        in_total > 0 ==> old(weights)@[r as int] != 0,
        in_total == 0 ==> final(weights)@ == old(weights)@,
        in_total > 0 ==> ({
            let c = coarse(old(weights)@, in_total, out_total);
            let rem = out_total - total(c);
            &&& c.len() == old(weights)@.len()
            &&& forall|j: int| 0 <= j < c.len() ==> #[trigger] c[j] <= c[r as int]
            &&& forall|j: int| 0 <= j < r ==> #[trigger] c[j] < c[r as int]
            &&& -rem < c[r as int] / 4 ==> final(weights)@ == c.update(r as int, (c[r as int] + rem) as u16)
            &&& !(-rem < c[r as int] / 4) ==> final(weights)@ == trim_passes(c, (-rem) as u32, 4).0
        }),
{
    let ghost w0 = weights@;
    let (remaining, max_weight_index) = normalize_m1_coarse(weights, in_total, out_total);
    let ghost w1 = weights@;
    proof {
        if in_total > 0 {
            assert(w1 =~= coarse(w0, in_total, out_total));
        }
        lemma_nonzero_le_total(w0);
        lemma_nonzero_support(w0, w1);
        if in_total > 0 {
            lemma_weight_le_total(w1, max_weight_index as int);
        } else {
            assert(w1[max_weight_index as int] == 0);
        }
    }
    let wm = weights[max_weight_index] as i32;
    if -remaining < wm / 4 {
        proof {
            assert(in_total > 0);
            assert(wm == w1[max_weight_index as int]);
            assert(wm <= total(w1));
            assert(1 <= wm + remaining <= out_total);
            assert(out_total <= 0x8000) by (bit_vector)
                requires is_state_count(out_total);
            lemma_total_update(w1, max_weight_index as int, (wm + remaining) as u16);
        }
        weights[max_weight_index] = (wm + remaining) as u16;
    } else {
        proof {
            if in_total == 0 {
                lemma_zero_total(w1);
            }
        }
        normalize_m1_trim(weights, (-remaining) as u32);
    }
    max_weight_index
}

/// Sequences with the same support have the same nonzero count.
proof fn lemma_nonzero_support(s: Seq<u16>, t: Seq<u16>)
    requires
        same_support(s, t),
    ensures
        n_nonzero(s) == n_nonzero(t),
    decreases s.len(),
{
    if s.len() > 0 {
        assert(same_support(s.drop_last(), t.drop_last()));
        lemma_nonzero_support(s.drop_last(), t.drop_last());
    }
}

} // verus!
