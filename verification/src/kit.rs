use vstd::prelude::*;

verus! {

/// Shifting one left by fewer bits than the width gives a nonzero power, whatever the type of
/// the shift amount.
proof fn lemma_shl_one(n: u32)
    by (bit_vector)
    ensures
        n < 64 ==> 1u64 << n == 1u64 << (n as u64) && 1u64 << n >= 1,
        n < 32 ==> 1u32 << n >= 1,
        n < 16 ==> 1u16 << n == 1u16 << (n as u16) && 1u16 << n >= 1,
        n < 8 ==> 1u8 << n == 1u8 << (n as u8) && 1u8 << n >= 1,
{
}

/// Mask of the low `nbits` bits of a `u64`.
pub fn mask_u64(nbits: u32) -> (r: u64)
    requires
        nbits < 64,
    ensures
        r == (1u64 << nbits) - 1,
        r as nat == vstd::arithmetic::power2::pow2(nbits as nat) - 1,
{
    proof {
        vstd::bits::lemma_u64_pow2_no_overflow(nbits as nat);
        vstd::arithmetic::power2::lemma_pow2_pos(nbits as nat);
        vstd::bits::lemma_u64_shl_is_mul(1u64, nbits as u64);
        lemma_shl_one(nbits);
    }
    (1u64 << nbits) - 1
}

/// Mask of the low `nbits` bits of a `u32`.
pub fn mask_u32(nbits: u32) -> (r: u32)
    requires
        nbits <= 31,
    ensures
        r == (1u32 << nbits) - 1,
        r as nat == vstd::arithmetic::power2::pow2(nbits as nat) - 1,
{
    proof {
        vstd::bits::lemma_u32_pow2_no_overflow(nbits as nat);
        vstd::bits::lemma_u32_shl_is_mul(1u32, nbits);
        lemma_shl_one(nbits);
    }
    (1u32 << nbits) - 1
}

/// Mask of the low `nbits` bits of a `u16`.
pub fn mask_u16(nbits: u32) -> (r: u16)
    requires
        nbits <= 15,
    ensures
        r == (1u16 << nbits) - 1,
        r as nat == vstd::arithmetic::power2::pow2(nbits as nat) - 1,
{
    proof {
        vstd::bits::lemma_u16_pow2_no_overflow(nbits as nat);
        vstd::bits::lemma_u16_shl_is_mul(1u16, nbits as u16);
        lemma_shl_one(nbits);
    }
    (1u16 << nbits) - 1
}

/// Mask of the low `nbits` bits of a `u8`.
pub fn mask_u8(nbits: u32) -> (r: u8)
    requires
        nbits <= 7,
    ensures
        r == (1u8 << nbits) - 1,
        r as nat == vstd::arithmetic::power2::pow2(nbits as nat) - 1,
{
    proof {
        vstd::bits::lemma_u8_pow2_no_overflow(nbits as nat);
        vstd::bits::lemma_u8_shl_is_mul(1u8, nbits as u8);
        lemma_shl_one(nbits);
    }
    (1u8 << nbits) - 1
}


/// Bit field access over unsigned integers: fields are `nbits` wide and start at bit `offset`,
/// counting from the least significant bit.
pub trait PackBits: Sized {
    /// The width of the integer type in bits.
    spec fn bit_width() -> nat;

    /// The field of `nbits` bits at `offset`.
    spec fn spec_get_bits(self, offset: u32, nbits: u32) -> Self;

    /// `self` with `value` or-ed into the field of `nbits` bits at `offset`.
    spec fn spec_set_bits(self, offset: u32, nbits: u32, value: Self) -> Self;

    /// `self` fits in `nbits` bits.
    spec fn fits(self, nbits: u32) -> bool;

    /// Reads the field of `nbits` bits at `offset`.
    fn get_bits(&self, offset: u32, nbits: u32) -> (r: Self)
        requires
            offset + nbits <= Self::bit_width(),
            offset < Self::bit_width(),
            nbits < Self::bit_width(),
        ensures
            r == self.spec_get_bits(offset, nbits),
    ;

    /// Ors `value`, which must fit in `nbits` bits, into the field at `offset`.
    fn set_bits(&mut self, offset: u32, nbits: u32, value: Self)
        requires
            offset + nbits <= Self::bit_width(),
            offset < Self::bit_width(),
            nbits < Self::bit_width(),
            value.fits(nbits),
        ensures
            *final(self) == old(self).spec_set_bits(offset, nbits, value),
    ;
}

impl PackBits for u64 {
    open spec fn bit_width() -> nat {
        64
    }

    open spec fn spec_get_bits(self, offset: u32, nbits: u32) -> u64 {
        (self >> offset) & (((1u64 << nbits) - 1) as u64)
    }

    open spec fn spec_set_bits(self, offset: u32, nbits: u32, value: u64) -> u64 {
        self | (value << offset)
    }

    open spec fn fits(self, nbits: u32) -> bool {
        self & (((1u64 << nbits) - 1) as u64) == self
    }

    fn get_bits(&self, offset: u32, nbits: u32) -> (r: u64) {
        (*self >> offset) & mask_u64(nbits)
    }

    fn set_bits(&mut self, offset: u32, nbits: u32, value: u64) {
        *self = *self | (value << offset);
    }
}

impl PackBits for u32 {
    open spec fn bit_width() -> nat {
        32
    }

    open spec fn spec_get_bits(self, offset: u32, nbits: u32) -> u32 {
        (self >> offset) & (((1u32 << nbits) - 1) as u32)
    }

    open spec fn spec_set_bits(self, offset: u32, nbits: u32, value: u32) -> u32 {
        self | (value << offset)
    }

    open spec fn fits(self, nbits: u32) -> bool {
        self & (((1u32 << nbits) - 1) as u32) == self
    }

    fn get_bits(&self, offset: u32, nbits: u32) -> (r: u32) {
        (*self >> offset) & mask_u32(nbits)
    }

    fn set_bits(&mut self, offset: u32, nbits: u32, value: u32) {
        *self = *self | (value << offset);
    }
}

impl PackBits for u16 {
    open spec fn bit_width() -> nat {
        16
    }

    open spec fn spec_get_bits(self, offset: u32, nbits: u32) -> u16 {
        (self >> offset) & (((1u16 << nbits) - 1) as u16)
    }

    open spec fn spec_set_bits(self, offset: u32, nbits: u32, value: u16) -> u16 {
        self | (value << offset)
    }

    open spec fn fits(self, nbits: u32) -> bool {
        self & (((1u16 << nbits) - 1) as u16) == self
    }

    fn get_bits(&self, offset: u32, nbits: u32) -> (r: u16) {
        (*self >> offset) & mask_u16(nbits)
    }

    fn set_bits(&mut self, offset: u32, nbits: u32, value: u16) {
        *self = *self | (value << offset);
    }
}

impl PackBits for u8 {
    open spec fn bit_width() -> nat {
        8
    }

    open spec fn spec_get_bits(self, offset: u32, nbits: u32) -> u8 {
        (self >> offset) & (((1u8 << nbits) - 1) as u8)
    }

    open spec fn spec_set_bits(self, offset: u32, nbits: u32, value: u8) -> u8 {
        self | (value << offset)
    }

    open spec fn fits(self, nbits: u32) -> bool {
        self & (((1u8 << nbits) - 1) as u8) == self
    }

    fn get_bits(&self, offset: u32, nbits: u32) -> (r: u8) {
        (*self >> offset) & mask_u8(nbits)
    }

    fn set_bits(&mut self, offset: u32, nbits: u32, value: u8) {
        *self = *self | (value << offset);
    }
}

/// Or-ing a value into a clear field and reading the field back yields the value.
pub proof fn lemma_u64_get_set_same(p: u64, offset: u32, nbits: u32, value: u64)
    requires
        offset + nbits <= 64,
        offset < 64,
        nbits < 64,
        value.fits(nbits),
        p.spec_get_bits(offset, nbits) == 0,
    ensures
        p.spec_set_bits(offset, nbits, value).spec_get_bits(offset, nbits) == value,
{
    assert((((p | (value << offset)) >> offset) & (((1u64 << nbits) - 1) as u64)) == value)
        by (bit_vector)
        requires
            offset + nbits <= 64,
            offset < 64,
            nbits < 64,
            value & (((1u64 << nbits) - 1) as u64) == value,
            (p >> offset) & (((1u64 << nbits) - 1) as u64) == 0,
    ;
}

/// Or-ing a value into one field leaves every disjoint field unchanged.
pub proof fn lemma_u64_get_set_other(
    p: u64,
    offset: u32,
    nbits: u32,
    value: u64,
    other_offset: u32,
    other_nbits: u32,
)
    requires
        offset + nbits <= 64,
        offset < 64,
        nbits < 64,
        other_offset + other_nbits <= 64,
        other_offset < 64,
        other_nbits < 64,
        value.fits(nbits),
        offset + nbits <= other_offset || other_offset + other_nbits <= offset,
    ensures
        p.spec_set_bits(offset, nbits, value).spec_get_bits(other_offset, other_nbits)
            == p.spec_get_bits(other_offset, other_nbits),
{
    assert((((p | (value << offset)) >> other_offset) & (((1u64 << other_nbits) - 1) as u64))
        == ((p >> other_offset) & (((1u64 << other_nbits) - 1) as u64))) by (bit_vector)
        requires
            offset + nbits <= 64,
            offset < 64,
            nbits < 64,
            other_offset + other_nbits <= 64,
            other_offset < 64,
            other_nbits < 64,
            value & (((1u64 << nbits) - 1) as u64) == value,
            offset + nbits <= other_offset || other_offset + other_nbits <= offset,
    ;
}

/// Every field of the zero word is zero.
pub proof fn lemma_u64_get_zero(offset: u32, nbits: u32)
    requires
        offset < 64,
        nbits < 64,
    ensures
        0u64.spec_get_bits(offset, nbits) == 0,
{
    assert(((0u64 >> offset) & (((1u64 << nbits) - 1) as u64)) == 0) by (bit_vector)
        requires offset < 64, nbits < 64;
}


/// A value below `2^nbits` fits in `nbits` bits.
pub proof fn lemma_u64_fits(value: u64, nbits: u32)
    requires
        nbits < 64,
        value < (1u64 << nbits),
    ensures
        value.fits(nbits),
{
    assert(value & (((1u64 << nbits) - 1) as u64) == value) by (bit_vector)
        requires nbits < 64, value < (1u64 << nbits);
}

/// A field read back is below `2^nbits`.
pub proof fn lemma_u64_get_bound(p: u64, offset: u32, nbits: u32)
    requires
        offset < 64,
        nbits < 64,
    ensures
        p.spec_get_bits(offset, nbits) < (1u64 << nbits),
{
    assert(((p >> offset) & (((1u64 << nbits) - 1) as u64)) < (1u64 << nbits)) by (bit_vector)
        requires offset < 64, nbits < 64;
}

/// Or-ing a value into a clear field sets that field and keeps every field in `others`, each
/// disjoint from it.
pub proof fn lemma_u64_set_field(p: u64, offset: u32, nbits: u32, value: u64, others: Seq<(u32, u32)>)
    requires
        offset + nbits <= 64,
        offset < 64,
        nbits < 64,
        value.fits(nbits),
        p.spec_get_bits(offset, nbits) == 0,
        forall|k: int|
            0 <= k < others.len() ==> {
                let (o, n) = #[trigger] others[k];
                &&& o + n <= 64
                &&& o < 64
                &&& n < 64
                &&& (offset + nbits <= o || o + n <= offset)
            },
    ensures
        p.spec_set_bits(offset, nbits, value).spec_get_bits(offset, nbits) == value,
        forall|k: int|
            0 <= k < others.len() ==> p.spec_set_bits(offset, nbits, value).spec_get_bits(
                (#[trigger] others[k]).0,
                others[k].1,
            ) == p.spec_get_bits(others[k].0, others[k].1),
{
    lemma_u64_get_set_same(p, offset, nbits, value);
    assert forall|k: int| 0 <= k < others.len() implies p.spec_set_bits(
        offset,
        nbits,
        value,
    ).spec_get_bits((#[trigger] others[k]).0, others[k].1) == p.spec_get_bits(
        others[k].0,
        others[k].1,
    ) by {
        lemma_u64_get_set_other(p, offset, nbits, value, others[k].0, others[k].1);
    }
}


/// The fields of `fields` are in range and pairwise disjoint.
pub open spec fn disjoint_fields(fields: Seq<(u32, u32, u64)>) -> bool {
    &&& forall|k: int|
        0 <= k < fields.len() ==> {
            let (o, n, v) = #[trigger] fields[k];
            &&& o + n <= 64
            &&& o < 64
            &&& n < 64
            &&& (v as nat) < vstd::arithmetic::power2::pow2(n as nat)
        }
    &&& forall|i: int, j: int|
        0 <= i < fields.len() && 0 <= j < fields.len() && i != j ==> (#[trigger] fields[i]).0
            + fields[i].1 <= (#[trigger] fields[j]).0 || fields[j].0 + fields[j].1 <= fields[i].0
}

/// The bit range `(o, n)` lies in a word and clear of every field of `fields`.
pub open spec fn clear_of(fields: Seq<(u32, u32, u64)>, o: u32, n: u32) -> bool {
    &&& o + n <= 64
    &&& o < 64
    &&& n < 64
    &&& forall|k: int|
        0 <= k < fields.len() ==> (#[trigger] fields[k]).0 + fields[k].1 <= o || o + n
            <= fields[k].0
}

/// Packs each value of `fields` into its field `(offset, nbits)` of a zero word.
pub fn pack_fields(fields: &Vec<(u32, u32, u64)>) -> (r: u64)
    requires
        disjoint_fields(fields@),
    ensures
        forall|k: int|
            0 <= k < fields@.len() ==> r.spec_get_bits((#[trigger] fields@[k]).0, fields@[k].1)
                == fields@[k].2,
        forall|o: u32, n: u32| #[trigger] clear_of(fields@, o, n) ==> r.spec_get_bits(o, n) == 0,
{
    let mut p: u64 = 0;
    let mut k: usize = 0;
    proof {
        assert forall|o: u32, n: u32| #[trigger] clear_of(fields@, o, n) implies p.spec_get_bits(o, n) == 0 by {
            lemma_u64_get_zero(o, n);
        }
        assert forall|j: int| 0 <= j < fields@.len() implies p.spec_get_bits(
            (#[trigger] fields@[j]).0,
            fields@[j].1,
        ) == 0 by {
            lemma_u64_get_zero(fields@[j].0, fields@[j].1);
        }
    }
    while k < fields.len()
        invariant
            k <= fields@.len(),
            disjoint_fields(fields@),
            forall|j: int|
                0 <= j < k ==> p.spec_get_bits((#[trigger] fields@[j]).0, fields@[j].1)
                    == fields@[j].2,
            forall|j: int|
                k <= j < fields@.len() ==> p.spec_get_bits((#[trigger] fields@[j]).0, fields@[j].1)
                    == 0,
            forall|o: u32, n: u32| #[trigger] clear_of(fields@, o, n) ==> p.spec_get_bits(o, n) == 0,
        decreases fields@.len() - k,
    {
        let (o, n, v) = fields[k];
        proof {
            let f = fields@[k as int];
            vstd::bits::lemma_u64_pow2_no_overflow(n as nat);
            vstd::bits::lemma_u64_shl_is_mul(1, n as u64);
            lemma_shl_one(n);
            lemma_u64_fits(v, n);
            assert forall|j: int| 0 <= j < fields@.len() && j != k implies p.spec_set_bits(o, n, v).spec_get_bits(
                (#[trigger] fields@[j]).0,
                fields@[j].1,
            ) == p.spec_get_bits(fields@[j].0, fields@[j].1) by {
                lemma_u64_get_set_other(p, o, n, v, fields@[j].0, fields@[j].1);
            }
            assert forall|o2: u32, n2: u32| #[trigger] clear_of(fields@, o2, n2) implies p.spec_set_bits(
                o,
                n,
                v,
            ).spec_get_bits(o2, n2) == 0 by {
                assert(fields@[k as int].0 + fields@[k as int].1 <= o2 || o2 + n2 <= fields@[k as int].0);
                lemma_u64_get_set_other(p, o, n, v, o2, n2);
            }
            lemma_u64_get_set_same(p, o, n, v);
        }
        p.set_bits(o, n, v);
        k = k + 1;
    }
    p
}


/// Quotients by a positive divisor: they keep the order of the dividends, one more divisor
/// gives one more, and the quotients of two parts add up to at most that of the whole.
pub proof fn lemma_quot(a: int, b: int, c: int)
    requires
        0 <= a,
        0 <= b,
        0 < c,
    ensures
        a <= b ==> a / c <= b / c,
        (a + c) / c == a / c + 1,
        a / c + b / c <= (a + b) / c,
{
    if a <= b {
        vstd::arithmetic::div_mod::lemma_div_is_ordered(a, b, c);
    }
    vstd::arithmetic::div_mod::lemma_fundamental_div_mod(a, c);
    vstd::arithmetic::div_mod::lemma_fundamental_div_mod(b, c);
    vstd::arithmetic::div_mod::lemma_fundamental_div_mod(a + b, c);
    vstd::arithmetic::div_mod::lemma_fundamental_div_mod(a + c, c);
    vstd::arithmetic::div_mod::lemma_mod_bound(a, c);
    vstd::arithmetic::div_mod::lemma_mod_bound(b, c);
    vstd::arithmetic::div_mod::lemma_mod_bound(a + b, c);
    vstd::arithmetic::div_mod::lemma_mod_bound(a + c, c);
    let qa = a / c;
    let qb = b / c;
    let qs = (a + b) / c;
    let q1 = (a + c) / c;
    assert(c * qa + c * qb <= c * qs + (c - 1)) by (nonlinear_arith)
        requires
            a == c * qa + a % c,
            b == c * qb + b % c,
            a + b == c * qs + (a + b) % c,
            0 <= a % c,
            0 <= b % c,
            (a + b) % c < c,
    ;
    assert(qa + qb <= qs) by (nonlinear_arith)
        requires
            c * qa + c * qb <= c * qs + (c - 1),
            0 < c,
    ;
    assert(q1 == qa + 1) by (nonlinear_arith)
        requires
            a + c == c * q1 + (a + c) % c,
            a == c * qa + a % c,
            0 <= a % c < c,
            0 <= (a + c) % c < c,
            0 < c,
    ;
}

} // verus!
