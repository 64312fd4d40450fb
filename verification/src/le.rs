use vstd::prelude::*;

verus! {

/// The little-endian `u16` at `i`.
pub open spec fn le_u16(s: Seq<u8>, i: int) -> nat {
    s[i] as nat + 256 * (s[i + 1] as nat)
}

/// The little-endian `u32` at `i`.
pub open spec fn le_u32(s: Seq<u8>, i: int) -> nat {
    le_u16(s, i) + 65536 * le_u16(s, i + 2)
}

/// The little-endian `u64` at `i`.
pub open spec fn le_u64(s: Seq<u8>, i: int) -> nat {
    le_u32(s, i) + 0x1_0000_0000 * le_u32(s, i + 4)
}

/// `t` equals `s` outside `[i, i + n)`.
pub open spec fn same_outside(s: Seq<u8>, t: Seq<u8>, i: int, n: int) -> bool {
    &&& s.len() == t.len()
    &&& forall|j: int| 0 <= j < s.len() && !(i <= j < i + n) ==> #[trigger] t[j] == s[j]
}

/// Reads the little-endian `u16` at `i`.
pub fn read_u16(src: &[u8], i: usize) -> (r: u16)
    requires
        i + 2 <= src@.len(),
    ensures
        r == le_u16(src@, i as int),
{
    src[i] as u16 + src[i + 1] as u16 * 256
}

/// Reads the little-endian `u32` at `i`.
pub fn read_u32(src: &[u8], i: usize) -> (r: u32)
    requires
        i + 4 <= src@.len(),
    ensures
        r == le_u32(src@, i as int),
{
    let _n = src.len();
    read_u16(src, i) as u32 + read_u16(src, i + 2) as u32 * 65536
}

/// Reads the little-endian `u64` at `i`.
pub fn read_u64(src: &[u8], i: usize) -> (r: u64)
    requires
        i + 8 <= src@.len(),
    ensures
        r == le_u64(src@, i as int),
{
    let _n = src.len();
    read_u32(src, i) as u64 + read_u32(src, i + 4) as u64 * 0x1_0000_0000
}

/// Writes `v` little-endian at `i`.
pub fn write_u16(dst: &mut [u8], i: usize, v: u16)
    requires
        i + 2 <= old(dst)@.len(),
    ensures
        same_outside(old(dst)@, final(dst)@, i as int, 2),
        le_u16(final(dst)@, i as int) == v,
{
    dst[i] = (v % 256) as u8;
    dst[i + 1] = (v / 256) as u8;
}

/// Writes `v` little-endian at `i`.
pub fn write_u32(dst: &mut [u8], i: usize, v: u32)
    requires
        i + 4 <= old(dst)@.len(),
    ensures
        same_outside(old(dst)@, final(dst)@, i as int, 4),
        le_u32(final(dst)@, i as int) == v,
{
    let _n = dst.len();
    write_u16(dst, i, (v % 65536) as u16);
    write_u16(dst, i + 2, (v / 65536) as u16);
}

/// Writes `v` little-endian at `i`.
pub fn write_u64(dst: &mut [u8], i: usize, v: u64)
    requires
        i + 8 <= old(dst)@.len(),
    ensures
        same_outside(old(dst)@, final(dst)@, i as int, 8),
        le_u64(final(dst)@, i as int) == v,
{
    let _n = dst.len();
    write_u32(dst, i, (v % 0x1_0000_0000) as u32);
    write_u32(dst, i + 4, (v / 0x1_0000_0000) as u32);
}

/// Appends `v` little-endian to `dst`.
pub fn push_u32(dst: &mut Vec<u8>, v: u32)
    ensures
        final(dst)@.len() == old(dst)@.len() + 4,
        final(dst)@.subrange(0, old(dst)@.len() as int) == old(dst)@,
        le_u32(final(dst)@, old(dst)@.len() as int) == v,
{
    let ghost d0 = dst@;
    let mut b: Vec<u8> = vec![0u8, 0u8, 0u8, 0u8];
    write_u32(b.as_mut_slice(), 0, v);
    dst.extend_from_slice(b.as_slice());
    proof {
        let n = d0.len() as int;
        assert(dst@[n] == b@[0]);
        assert(dst@[n + 1] == b@[1]);
        assert(dst@[n + 2] == b@[2]);
        assert(dst@[n + 3] == b@[3]);
        assert(dst@.subrange(0, n) =~= d0);
    }
}

} // verus!
