use vstd::prelude::*;

use crate::base::{BM_EOS, BM_RAW};
use crate::decode::raw_stream;
use crate::le::{le_u32, push_u32};

verus! {

/// `a` is `s` stored as one raw block followed by the end of stream marker.
pub open spec fn raw_form(a: Seq<u8>, s: Seq<u8>) -> bool {
    &&& a.len() == s.len() + 12
    &&& le_u32(a, 0) == BM_RAW
    &&& le_u32(a, 4) == s.len()
    &&& a.subrange(8, 8 + s.len() as int) == s
    &&& le_u32(a, 8 + s.len() as int) == BM_EOS
}

/// A raw block closed by the end of stream marker decodes to its payload.
pub proof fn lemma_raw_form_stream(a: Seq<u8>, s: Seq<u8>)
    requires
        raw_form(a, s),
    ensures
        raw_stream(a) == Some(s),
{
    let n = s.len() as int;
    let rest = a.subrange(8 + n, a.len() as int);
    assert(le_u32(rest, 0) == le_u32(a, 8 + n));
    assert(raw_stream(rest) == Some(Seq::<u8>::empty()));
    assert(a.subrange(8, 8 + n) + Seq::<u8>::empty() =~= s);
}

/// Appends `src` to `dst` as one raw block.
pub fn raw_compress(dst: &mut Vec<u8>, src: &[u8])
    requires
        src@.len() <= u32::MAX,
    ensures
        final(dst)@.len() == old(dst)@.len() + 8 + src@.len(),
        final(dst)@.subrange(0, old(dst)@.len() as int) == old(dst)@,
        le_u32(final(dst)@, old(dst)@.len() as int) == BM_RAW,
        le_u32(final(dst)@, old(dst)@.len() as int + 4) == src@.len(),
        final(dst)@.subrange(old(dst)@.len() as int + 8, final(dst)@.len() as int) == src@,
{
    let ghost d0 = dst@;
    push_u32(dst, BM_RAW);
    let ghost d1 = dst@;
    push_u32(dst, src.len() as u32);
    let ghost d2 = dst@;
    dst.extend_from_slice(src);
    proof {
        let n = d0.len() as int;
        assert(dst@.subrange(0, d2.len() as int) =~= d2);
        assert(d2.subrange(0, d1.len() as int) =~= d1);
        assert(dst@.subrange(0, n) =~= d0);
        assert(le_u32(dst@, n) == le_u32(d1, n));
        assert(le_u32(dst@, n + 4) == le_u32(d2, n + 4));
        assert(dst@.subrange(n + 8, dst@.len() as int) =~= src@);
    }
}

} // verus!
