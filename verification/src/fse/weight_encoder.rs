use vstd::prelude::*;

use super::constants::MAX_W_BITS;

verus! {

/// Weight payload size limit for `n_weights` weights.
pub fn weight_payload_limit(n_weights: usize) -> (r: usize)
    requires
        n_weights <= 0x1000_0000,
    ensures
        r == (n_weights * MAX_W_BITS + 7) / 8,
{
    (n_weights * MAX_W_BITS + 7) / 8
}

/// Width in bits of the code of weight `w`.
pub open spec fn weight_bits(w: u64) -> u64 {
    if w < 2 {
        2
    } else if w < 4 {
        3
    } else if w < 8 {
        5
    } else if w < 24 {
        8
    } else {
        14
    }
}

/// Code of weight `w`, least significant bit first.
pub open spec fn weight_code(w: u64) -> u64 {
    if w == 0 {
        0
    } else if w == 1 {
        2
    } else if w == 2 {
        1
    } else if w == 3 {
        5
    } else if w < 8 {
        (3 + 8 * (w - 4)) as u64
    } else if w < 24 {
        ((((w - 8) as u64) << 4) + 7) as u64
    } else {
        ((((w - 24) as u64) << 4) + 15) as u64
    }
}

/// The weight whose code stands in the low bits of `u`, with the code width.
pub open spec fn spec_decode_weight(u: u64) -> (u64, u64) {
    if u & 1 == 0 {
        ((u >> 1) & 1, 2)
    } else if u & 3 == 1 {
        ((2 + ((u >> 2) & 1)) as u64, 3)
    } else if u & 7 == 3 {
        ((4 + ((u >> 3) & 3)) as u64, 5)
    } else if u & 15 == 7 {
        ((8 + ((u >> 4) & 0xF)) as u64, 8)
    } else {
        ((24 + ((u >> 4) & 0x3FF)) as u64, 14)
    }
}

/// The masks of the code widths.
proof fn lemma_code_masks()
    by (bit_vector)
    ensures
        ((1u64 << 2u64) - 1) as u64 == 3,
        ((1u64 << 3u64) - 1) as u64 == 7,
        ((1u64 << 5u64) - 1) as u64 == 31,
        ((1u64 << 8u64) - 1) as u64 == 255,
        ((1u64 << 14u64) - 1) as u64 == 0x3FFF,
{
}

/// How the low bits of `u` split into a code's tag and field.
proof fn lemma_code_split(u: u64)
    by (bit_vector)
    ensures
        u & 1 == 0 ==> ((u >> 1) & 1) < 2 && u & 3 == 2 * ((u >> 1) & 1),
        u & 1 != 0 && u & 3 == 1 ==> u & 7 == 1 + 4 * ((u >> 2) & 1),
        u & 1 != 0 && u & 3 != 1 && u & 7 == 3 ==> u & 31 == 3 + 8 * ((u >> 3) & 3),
        u & 1 != 0 && u & 3 != 1 && u & 7 != 3 && u & 15 == 7 ==> u & 255 == (((u >> 4) & 0xF)
            << 4) + 7,
        u & 1 != 0 && u & 3 != 1 && u & 7 != 3 && u & 15 != 7 ==> u & 0x3FFF == (((u >> 4)
            & 0x3FF) << 4) + 15,
        (u >> 2) & 1 <= 1,
        (u >> 3) & 3 <= 3,
        (u >> 4) & 0xF <= 15,
        (u >> 4) & 0x3FF <= 1023,
{
}

/// A code with field `k` in the low bits of `u` reads back as its tag and `k`.
pub(crate) proof fn lemma_code_join(u: u64, k: u64)
    by (bit_vector)
    ensures
        k < 16 ==> (k << 4) + 7 < 256,
        k < 1024 ==> (k << 4) + 15 < 0x4000,
        u & 3 == 0 ==> u & 1 == 0 && (u >> 1) & 1 == 0,
        u & 3 == 2 ==> u & 1 == 0 && (u >> 1) & 1 == 1,
        u & 7 == 1 ==> u & 1 != 0 && u & 3 == 1 && (u >> 2) & 1 == 0,
        u & 7 == 5 ==> u & 1 != 0 && u & 3 == 1 && (u >> 2) & 1 == 1,
        k < 4 && u & 31 == 3 + 8 * k ==> u & 1 != 0 && u & 3 != 1 && u & 7 == 3 && (u >> 3) & 3
            == k,
        u & 255 == (k << 4) + 7 && k < 16 ==> u & 1 != 0 && u & 3 != 1 && u & 7 != 3 && u & 15
            == 7 && (u >> 4) & 0xF == k,
        u & 0x3FFF == (k << 4) + 15 && k < 1024 ==> u & 1 != 0 && u & 3 != 1 && u & 7 != 3 && u
            & 15 != 7 && (u >> 4) & 0x3FF == k,
{
}

/// Decodes the weight code in the low bits of `u`, returning the weight and the code width.
pub fn decode_weight(u: u64) -> (r: (u64, u64))
    ensures
        r == spec_decode_weight(u),
        r.0 < 1048,
        r.1 == weight_bits(r.0),
        u & (((1u64 << r.1) - 1) as u64) == weight_code(r.0),
{
    proof {
        lemma_code_split(u);
        lemma_code_masks();
    }
    if u & 1 == 0 {
        ((u >> 1) & 1, 2)
    } else if u & 3 == 1 {
        (2 + ((u >> 2) & 1), 3)
    } else if u & 7 == 3 {
        (4 + ((u >> 3) & 3), 5)
    } else if u & 15 == 7 {
        (8 + ((u >> 4) & 0xF), 8)
    } else {
        (24 + ((u >> 4) & 0x3FF), 14)
    }
}

/// Encodes weight `w` as (code, code width).
pub fn encode_weight(w: u64) -> (r: (u64, u64))
    requires
        w < 1048,
    ensures
        r == (weight_code(w), weight_bits(w)),
        (r.0 as nat) < vstd::arithmetic::power2::pow2(r.1 as nat),
{
    proof {
        vstd::arithmetic::power2::lemma2_to64();
        if 8 <= w < 24 {
            lemma_code_join(0, (w - 8) as u64);
        }
        if w >= 24 {
            lemma_code_join(0, (w - 24) as u64);
        }
    }
    match w {
        0 => (0, 2),
        1 => (2, 2),
        2 => (1, 3),
        3 => (5, 3),
        4 => (3, 5),
        5 => (11, 5),
        6 => (19, 5),
        7 => (27, 5),
        v if v < 24 => (((v - 8) << 4) + 7, 8),
        v => (((v - 24) << 4) + 15, 14),
    }
}

/// Weight codes form a prefix code: any word whose low bits hold the code of `w` decodes to
/// `w` and the code width, whatever its higher bits.
pub proof fn lemma_weight_code_prefix(w: u64, u: u64)
    requires
        w < 1048,
        u & (((1u64 << weight_bits(w)) - 1) as u64) == weight_code(w),
    ensures
        spec_decode_weight(u) == (w, weight_bits(w)),
{
    lemma_code_masks();
    if w < 2 {
        lemma_code_join(u, 0);
    } else if w < 4 {
        lemma_code_join(u, 0);
    } else if w < 8 {
        let k = (w - 4) as u64;
        assert(u & 31 == 3 + 8 * k);
        lemma_code_join(u, k);
    } else if w < 24 {
        let k = (w - 8) as u64;
        lemma_code_join(u, k);
        assert(u & 255 == (k << 4) + 7);
    } else {
        let k = (w - 24) as u64;
        lemma_code_join(u, k);
        assert(u & 0x3FFF == (k << 4) + 15);
    }
}


/// Arithmetic reading of the bit fields of a code word.
proof fn lemma_code_fields(u: u64)
    by (bit_vector)
    ensures
        u & 1 == u % 2,
        u & 3 == u % 4,
        u & 7 == u % 8,
        u & 15 == u % 16,
        (u >> 1) & 1 == (u / 2) % 2,
        (u >> 2) & 1 == (u / 4) % 2,
        (u >> 3) & 3 == (u / 8) % 4,
        (u >> 4) & 0xF == (u / 16) % 16,
        (u >> 4) & 0x3FF == (u / 16) % 1024,
{
}

/// Shifting a small field left by four multiplies it by sixteen.
proof fn lemma_shl4(k: u64)
    by (bit_vector)
    requires
        k < 1024,
    ensures
        k << 4 == k * 16,
{
}

/// The LZFSE weight code: weights fall in five classes, 0..2, 2..4, 4..8, 8..24 and 24..1048,
/// each with its tag in the low bits (`0`, `01`, `011`, `0111`, `1111`, read from the least
/// significant bit) and the weight's offset within its class in the bits above, so codes take
/// 2, 3, 5, 8 and 14 bits.
pub proof fn lemma_weight_code_table(w: u64)
    requires
        w < 1048,
    ensures
        w < 2 ==> weight_code(w) == 2 * w && weight_bits(w) == 2,
        2 <= w < 4 ==> weight_code(w) == 1 + 4 * (w - 2) && weight_bits(w) == 3,
        4 <= w < 8 ==> weight_code(w) == 3 + 8 * (w - 4) && weight_bits(w) == 5,
        8 <= w < 24 ==> weight_code(w) == 7 + 16 * (w - 8) && weight_bits(w) == 8,
        24 <= w ==> weight_code(w) == 15 + 16 * (w - 24) && weight_bits(w) == 14,
{
    if 8 <= w < 24 {
        lemma_shl4((w - 8) as u64);
    }
    if 24 <= w {
        lemma_shl4((w - 24) as u64);
    }
}

/// Reading a weight: the low bits of the word give the class by its tag, and the bits above
/// the tag give the weight's offset within the class; the code width is that of the class.
pub proof fn lemma_decode_weight_table(u: u64)
    ensures
        u % 2 == 0 ==> spec_decode_weight(u) == ((u / 2) % 2, 2u64),
        u % 4 == 1 ==> spec_decode_weight(u) == ((2 + (u / 4) % 2) as u64, 3u64),
        u % 8 == 3 ==> spec_decode_weight(u) == ((4 + (u / 8) % 4) as u64, 5u64),
        u % 16 == 7 ==> spec_decode_weight(u) == ((8 + (u / 16) % 16) as u64, 8u64),
        u % 16 == 15 ==> spec_decode_weight(u) == ((24 + (u / 16) % 1024) as u64, 14u64),
{
    lemma_code_fields(u);
}

} // verus!
