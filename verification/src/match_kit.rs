use vstd::prelude::*;
use vstd::std_specs::bits::u64_leading_zeros;
use vstd::std_specs::bits::u64_trailing_zeros;

verus! {

/// Number of trailing zero bytes of `u` in native (little-endian) memory order: the number of
/// zero bytes at the most significant end of the word.
pub fn nctz_bytes(u: u64) -> (r: u32)
    ensures
        r == u64_leading_zeros(u) / 8,
        r <= 8,
{
    proof {
        vstd::std_specs::bits::axiom_u64_leading_zeros(u);
    }
    u.leading_zeros() / 8
}

/// Number of leading zero bytes of `u` in native (little-endian) memory order: the number of
/// zero bytes at the least significant end of the word.
pub fn nclz_bytes(u: u64) -> (r: u32)
    ensures
        r == u64_trailing_zeros(u) / 8,
        r <= 8,
{
    proof {
        vstd::std_specs::bits::axiom_u64_trailing_zeros(u);
    }
    u.trailing_zeros() / 8
}

} // verus!
