use vstd::prelude::*;

use crate::error::Error;

verus! {

/// `out` followed by a match of `len` bytes copied from `dist` bytes back, byte by byte, so
/// that a match may overlap itself.
pub open spec fn lz_match(out: Seq<u8>, len: nat, dist: nat) -> Seq<u8>
    decreases len,
{
    if len == 0 {
        out
    } else {
        let o = lz_match(out, (len - 1) as nat, dist);
        o.push(o[o.len() - dist])
    }
}

/// A match within `out` copies the same bytes whatever stands before `out`.
pub proof fn lemma_lz_match_shift(h: Seq<u8>, out: Seq<u8>, len: nat, dist: nat)
    requires
        1 <= dist <= out.len(),
    ensures
        lz_match(h + out, len, dist) == h + lz_match(out, len, dist),
    decreases len,
{
    if len > 0 {
        let l1 = (len - 1) as nat;
        lemma_lz_match_shift(h, out, l1, dist);
        lemma_lz_match_len(out, l1, dist);
        let o = lz_match(out, l1, dist);
        assert((h + o)[(h + o).len() - dist] == o[o.len() - dist]);
        assert((h + o).push(o[o.len() - dist]) =~= h + o.push(o[o.len() - dist]));
    }
}

/// A match extends its output by its length.
pub proof fn lemma_lz_match_len(out: Seq<u8>, len: nat, dist: nat)
    ensures
        lz_match(out, len, dist).len() == out.len() + len,
        lz_match(out, len, dist).subrange(0, out.len() as int) == out,
    decreases len,
{
    if len > 0 {
        lemma_lz_match_len(out, (len - 1) as nat, dist);
        let o = lz_match(out, (len - 1) as nat, dist);
        assert(o.push(o[o.len() - dist]).subrange(0, out.len() as int) =~= o.subrange(
            0,
            out.len() as int,
        ));
    }
}

/// LZ77 type output stage. Data is reconstructed using literal bytes and matches.
pub trait LzWriter: Sized {
    /// The bytes written so far.
    spec fn written(&self) -> Seq<u8>;

    /// Writes a match of `len` bytes at `distance`: a distance of zero or past the start of the
    /// output is refused and leaves the output as it was.
    fn write_match(&mut self, len: u32, distance: u32) -> (r: crate::Result<()>)
        ensures
            (distance == 0 || distance > old(self).written().len()) ==> r == Err::<(), Error>(
                Error::BadDValue,
            ) && final(self).written() == old(self).written(),
            !(distance == 0 || distance > old(self).written().len()) ==> r is Ok
                && final(self).written() == lz_match(old(self).written(), len as nat, distance as nat),
    ;

    /// Writes `bytes`.
    fn write_bytes(&mut self, bytes: &[u8]) -> (r: crate::Result<()>)
        ensures
            r is Ok,
            final(self).written() == old(self).written() + bytes@,
    ;

    /// The number of raw, that is decompressed, bytes.
    fn n_raw_bytes(&self) -> (r: u64)
        ensures
            r == self.written().len(),
    ;
}

impl LzWriter for Vec<u8> {
    open spec fn written(&self) -> Seq<u8> {
        self@
    }

    fn write_match(&mut self, len: u32, distance: u32) -> (r: crate::Result<()>) {
        let dst_index = self.len();
        if distance == 0 || distance as usize > dst_index {
            return Err(Error::BadDValue);
        }
        let ghost o0 = self@;
        let mut i: u32 = 0;
        while i < len
            invariant
                1 <= distance <= o0.len(),
                i <= len,
                self@ == lz_match(o0, i as nat, distance as nat),
            decreases len - i,
        {
            proof {
                lemma_lz_match_len(o0, i as nat, distance as nat);
            }
            let b = self[self.len() - distance as usize];
            self.push(b);
            i = i + 1;
        }
        Ok(())
    }

    fn write_bytes(&mut self, bytes: &[u8]) -> (r: crate::Result<()>) {
        self.extend_from_slice(bytes);
        Ok(())
    }

    fn n_raw_bytes(&self) -> (r: u64) {
        self.len() as u64
    }
}

} // verus!
