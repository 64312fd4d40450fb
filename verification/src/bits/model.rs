use vstd::prelude::*;
use vstd::arithmetic::power2::{pow2, lemma_pow2_adds, lemma_pow2_pos};

verus! {

/// The natural number whose little-endian byte representation is `s`.
pub open spec fn bytes_value(s: Seq<u8>) -> nat
    decreases s.len(),
{
    if s.len() == 0 {
        0
    } else {
        s[0] as nat + 256 * bytes_value(s.drop_first())
    }
}

/// `256^n` as a power of two.
pub proof fn lemma_pow2_8(n: nat)
    ensures
        pow2(8 * (n + 1)) == 256 * pow2(8 * n),
{
    lemma_pow2_adds(8 * n, 8);
    vstd::arithmetic::power2::lemma2_to64();
    assert(8 * (n + 1) == 8 * n + 8) by (nonlinear_arith);
}

/// Appending a byte adds it at the most significant position.
pub proof fn lemma_bytes_value_push(s: Seq<u8>, b: u8)
    ensures
        bytes_value(s.push(b)) == bytes_value(s) + pow2(8 * s.len()) * b,
    decreases s.len(),
{
    if s.len() == 0 {
        assert(s.push(b).drop_first() =~= Seq::<u8>::empty());
        vstd::arithmetic::power2::lemma2_to64();
        assert(bytes_value(Seq::<u8>::empty()) == 0);
    } else {
        let t = s.drop_first();
        assert(s.push(b).drop_first() =~= t.push(b));
        lemma_bytes_value_push(t, b);
        lemma_pow2_8(t.len());
        assert(s.len() == t.len() + 1);
        let p = pow2(8 * t.len());
        assert(256 * (bytes_value(t) + p * b) == 256 * bytes_value(t) + (256 * p) * b)
            by (nonlinear_arith);
    }
}

/// Byte sequences of one length with one value are equal.
pub proof fn lemma_bytes_value_inj(a: Seq<u8>, b: Seq<u8>)
    requires
        a.len() == b.len(),
        bytes_value(a) == bytes_value(b),
    ensures
        a == b,
    decreases a.len(),
{
    if a.len() > 0 {
        let x = a[0] as int;
        let y = b[0] as int;
        let va = bytes_value(a.drop_first()) as int;
        let vb = bytes_value(b.drop_first()) as int;
        assert(x == y && va == vb) by (nonlinear_arith)
            requires
                x + 256 * va == y + 256 * vb,
                0 <= x < 256,
                0 <= y < 256,
                va >= 0,
                vb >= 0,
        {
            assert((x + 256 * va) % 256 == x);
            assert((y + 256 * vb) % 256 == y);
        }
        lemma_bytes_value_inj(a.drop_first(), b.drop_first());
        assert forall|i: int| 0 <= i < a.len() implies a[i] == b[i] by {
            if i > 0 {
                assert(a[i] == a.drop_first()[i - 1]);
                assert(b[i] == b.drop_first()[i - 1]);
            }
        }
        assert(a =~= b);
    }
}

/// A byte sequence encodes a value below `2^(8 * len)`.
pub proof fn lemma_bytes_value_bound(s: Seq<u8>)
    ensures
        bytes_value(s) < pow2(8 * s.len()),
    decreases s.len(),
{
    if s.len() == 0 {
        vstd::arithmetic::power2::lemma2_to64();
    } else {
        let t = s.drop_first();
        lemma_bytes_value_bound(t);
        lemma_pow2_8(t.len());
        let p = pow2(8 * t.len());
        let v = bytes_value(t);
        assert(s[0] as nat + 256 * v < 256 * p) by (nonlinear_arith)
            requires
                v < p,
                s[0] < 256,
        ;
    }
}

/// Concatenation places the second sequence above the first.
pub proof fn lemma_bytes_value_append(s: Seq<u8>, t: Seq<u8>)
    ensures
        bytes_value(s + t) == bytes_value(s) + pow2(8 * s.len()) * bytes_value(t),
    decreases t.len(),
{
    if t.len() == 0 {
        assert(s + t =~= s);
        assert(bytes_value(t) == 0);
        assert(pow2(8 * s.len()) * bytes_value(t) == 0) by (nonlinear_arith)
            requires bytes_value(t) == 0;
    } else {
        let t0 = t.drop_last();
        let b = t.last();
        assert(s + t =~= (s + t0).push(b));
        assert(t =~= t0.push(b));
        lemma_bytes_value_append(s, t0);
        lemma_bytes_value_push(s + t0, b);
        lemma_bytes_value_push(t0, b);
        lemma_pow2_adds(8 * s.len(), 8 * t0.len());
        assert(8 * (s + t0).len() == 8 * s.len() + 8 * t0.len());
        let ps = pow2(8 * s.len());
        let pt = pow2(8 * t0.len());
        assert(pow2(8 * (s + t0).len()) == ps * pt);
        assert(bytes_value(t) == bytes_value(t0) + pt * b);
        assert(ps * (bytes_value(t0) + pt * b) == ps * bytes_value(t0) + (ps * pt) * b)
            by (nonlinear_arith);
        assert(bytes_value(s + t) == bytes_value(s + t0) + (ps * pt) * b);
        assert(bytes_value(s + t0) == bytes_value(s) + ps * bytes_value(t0));
    }
}

/// A value split by a divisor: the quotient and remainder of `x + d * q`.
pub proof fn lemma_div_mod_split(x: nat, d: nat, q: nat)
    requires
        x < d,
    ensures
        (x + d * q) / d == q,
        (x + d * q) % d == x,
{
    assert(d * q == q * d) by (nonlinear_arith);
    vstd::arithmetic::div_mod::lemma_fundamental_div_mod_converse(
        (x + d * q) as int,
        d as int,
        q as int,
        x as int,
    );
}

} // verus!
