use vstd::prelude::*;

use crate::base::BM_EOS;
use crate::error::Error;
use crate::fse::backend::FseBackend;
use crate::le::le_u32;

use super::frontend::{aged, fse_bound, lz_expand, parse_ops, FrontendRing, Op, RAW_CUTOFF, RING_SIZE};
use crate::fse::stream::{lemma_chain_concat, lemma_chain_stream};
use super::history::{empty_table, UIdx};
use super::match_object::Match;
use super::raw::{lemma_raw_form_stream, raw_form};
use crate::decode::{lemma_v2_stream_output, raw_stream, stream_output};
use crate::fse::stream::{blocks_chain, lemma_chain_append, v2_stream};

verus! {

/// Longest input `encode_bytes` accepts.
pub const MAX_SRC_LEN: usize = 0x7FFF_FFFF;

/// What encoding `src` appended to `dst`, which held `d0` before: `d0` is kept, the stream
/// closes with the end of stream marker, and it is one raw block or V2 blocks that decode to
/// the input. Inputs of at most `RAW_CUTOFF` bytes are stored as one raw block; inputs that
/// fill the window (`RING_SIZE` bytes or more) as V2 blocks, some emitted before the input
/// ended. In between, the stream is never longer than the raw block and marker would be, and
/// the input is stored raw only when its V2 blocks came to at least 8 bytes more than the input.
pub open spec fn encoded(d0: Seq<u8>, dst: Seq<u8>, src: Seq<u8>) -> bool {
    let a = dst.subrange(d0.len() as int, dst.len() as int);
    &&& dst.len() >= d0.len() + 4
    &&& dst.subrange(0, d0.len() as int) == d0
    &&& le_u32(dst, dst.len() - 4) == BM_EOS
    &&& src.len() <= RAW_CUTOFF ==> raw_form(a, src)
    &&& raw_form(a, src) || v2_stream(a, Seq::<u8>::empty()) == Some(src)
    &&& src.len() < RING_SIZE ==> a.len() <= src.len() + 12
    &&& src.len() > RAW_CUTOFF && src.len() < RING_SIZE && raw_form(a, src) ==> exists|b: Seq<u8>|
        blocks_chain(b, Seq::<u8>::empty(), src) && b.len() >= src.len() + 8
    &&& src.len() >= RING_SIZE ==> v2_stream(a, Seq::<u8>::empty()) == Some(src)
}

/// An input longer than `RAW_CUTOFF` bytes and shorter than the window, parsed into `ops`, is
/// stored as V2 blocks whenever the bound on those blocks is below the size of the input stored
/// raw.
pub open spec fn v2_owed(d0: Seq<u8>, dst: Seq<u8>, src: Seq<u8>, ops: Seq<Op>) -> bool {
    src.len() > RAW_CUTOFF && src.len() < RING_SIZE && fse_bound(ops) < src.len() + 8 ==> v2_stream(
        dst.subrange(d0.len() as int, dst.len() as int),
        Seq::<u8>::empty(),
    ) == Some(src)
}

/// Blocks emitted while the input was taken in, then the blocks and end of stream marker that
/// end the stream, make a V2 stream of an input that filled the window.
proof fn lemma_committed_encoded(d0: Seq<u8>, d1: Seq<u8>, d2: Seq<u8>, src: Seq<u8>, h1: Seq<u8>)
    requires
        d1.len() >= d0.len(),
        d1.subrange(0, d0.len() as int) == d0,
        blocks_chain(d1.subrange(d0.len() as int, d1.len() as int), Seq::<u8>::empty(), h1),
        d2.len() >= d1.len() + 4,
        d2.subrange(0, d1.len() as int) == d1,
        le_u32(d2, d2.len() - 4) == BM_EOS,
        blocks_chain(
            d2.subrange(d1.len() as int, d2.len() as int).subrange(0, d2.len() - d1.len() - 4),
            h1,
            src,
        ),
        src.len() >= RING_SIZE,
    ensures
        encoded(d0, d2, src),
{
    assert(d2.subrange(d1.len() as int, d2.len() as int).subrange(0, d2.len() - d1.len() - 4)
        =~= d2.subrange(d1.len() as int, d2.len() - 4));
    let w = d1.subrange(d0.len() as int, d1.len() as int);
    let x = d2.subrange(d1.len() as int, d2.len() - 4);
    let e = d2.subrange(d2.len() - 4, d2.len() as int);
    lemma_chain_concat(w, x, Seq::<u8>::empty(), h1, src);
    assert(le_u32(e, 0) == le_u32(d2, d2.len() - 4));
    lemma_chain_stream(w + x, e, Seq::<u8>::empty(), src);
    assert(d2.subrange(d0.len() as int, d2.len() as int) =~= w + x + e);
    assert(d2.subrange(0, d0.len() as int) =~= d1.subrange(0, d0.len() as int));
}

/// What encoding appends decodes back to the input: it is a raw-block stream of the input, or
/// a V2-block stream that decodes to the input from an empty output. `decode_bytes` decodes
/// both, and a reader over either reads back `stream_output`, which is the input.
pub proof fn lemma_round_trip(d0: Seq<u8>, dst: Seq<u8>, src: Seq<u8>)
    requires
        encoded(d0, dst, src),
    ensures
        raw_stream(dst.subrange(d0.len() as int, dst.len() as int)) == Some(src) || v2_stream(
            dst.subrange(d0.len() as int, dst.len() as int),
            Seq::<u8>::empty(),
        ) == Some(src),
        stream_output(dst.subrange(d0.len() as int, dst.len() as int)) == Some(src),
{
    let a = dst.subrange(d0.len() as int, dst.len() as int);
    if raw_form(a, src) {
        lemma_raw_form_stream(a, src);
    } else {
        lemma_v2_stream_output(a);
    }
}

/// LZFSE encoder.
///
/// This basic implementation encodes byte slices into byte vectors.
pub struct LzfseEncoder {
    backend: FseBackend,
    frontend: FrontendRing,
}

impl LzfseEncoder {
    /// Internal consistency.
    pub closed spec fn wf(&self) -> bool {
        self.backend.wf() && self.frontend.wf()
    }

    /// The history table the encoder holds: the next stream's parse starts from it once aged.
    pub closed spec fn history(&self) -> Seq<Seq<UIdx>> {
        self.frontend.table()
    }

    /// Encodes `src` into `dst`: returns the number of bytes written into `dst`. Inputs longer
    /// than `MAX_SRC_LEN` bytes are refused with `Error::BufferOverflow`.
    pub fn encode_bytes(&mut self, src: &[u8], dst: &mut Vec<u8>) -> (r: crate::Result<u64>)
        requires
            old(self).wf(),
        ensures
            final(self).wf(),
            src@.len() > MAX_SRC_LEN ==> r == Err::<u64, Error>(Error::BufferOverflow)
                && final(dst)@ == old(dst)@,
            src@.len() <= MAX_SRC_LEN ==> (r matches Ok(n) && final(dst)@.len() == old(dst)@.len() + n
                && encoded(old(dst)@, final(dst)@, src@)),
            src@.len() <= MAX_SRC_LEN ==> v2_owed(old(dst)@, final(dst)@, src@, parse_ops(src@, aged(old(self).history()))),
    {
        if src.len() > MAX_SRC_LEN {
            return Err(Error::BufferOverflow);
        }
        let mark = dst.len();
        let ghost d0 = dst@;
        self.frontend.init();
        self.frontend.write(&mut self.backend, src, dst);
        let ghost d1 = dst@;
        let ghost h1 = self.backend.hist();
        let ghost committed = self.frontend.committed();
        self.frontend.flush(&mut self.backend, dst);
        proof {
            if committed {
                assert(src@.len() >= RING_SIZE);
                assert(Seq::<u8>::empty() + src@ =~= src@);
                lemma_committed_encoded(d0, d1, dst@, src@, h1);
            } else {
                assert(Seq::<u8>::empty() + src@ =~= src@);
            }
        }
        Ok((dst.len() - mark) as u64)
    }
}

impl Default for LzfseEncoder {
    fn default() -> (r: Self)
        ensures
            r.wf(),
            r.history() == empty_table(),
    {
        LzfseEncoder { backend: FseBackend::default(), frontend: FrontendRing::new() }
    }
}

/// Encodes `src` into `dst` with a fresh encoder: returns the number of bytes written into
/// `dst`.
pub fn encode_bytes(src: &[u8], dst: &mut Vec<u8>) -> (r: crate::Result<u64>)
    ensures
        src@.len() > MAX_SRC_LEN ==> r == Err::<u64, Error>(Error::BufferOverflow) && final(dst)@
            == old(dst)@,
        src@.len() <= MAX_SRC_LEN ==> (r matches Ok(n) && final(dst)@.len() == old(dst)@.len() + n
            && encoded(old(dst)@, final(dst)@, src@)),
        src@.len() <= MAX_SRC_LEN ==> v2_owed(old(dst)@, final(dst)@, src@, parse_ops(src@, aged(empty_table()))),
{
    let mut encoder = LzfseEncoder::default();
    encoder.encode_bytes(src, dst)
}

/// LZFSE encoder that also offers an incremental byte writer.
pub struct LzfseRingEncoder {
    core: LzfseEncoder,
}

impl LzfseRingEncoder {
    /// Internal consistency.
    pub closed spec fn wf(&self) -> bool {
        self.core.wf()
    }

    /// The history table the encoder holds: the next stream's parse starts from it once aged.
    pub closed spec fn history(&self) -> Seq<Seq<UIdx>> {
        self.core.history()
    }

    /// Identical to `LzfseEncoder::encode_bytes`.
    pub fn encode_bytes(&mut self, src: &[u8], dst: &mut Vec<u8>) -> (r: crate::Result<u64>)
        requires
            old(self).wf(),
        ensures
            final(self).wf(),
            src@.len() > MAX_SRC_LEN ==> r == Err::<u64, Error>(Error::BufferOverflow)
                && final(dst)@ == old(dst)@,
            src@.len() <= MAX_SRC_LEN ==> (r matches Ok(n) && final(dst)@.len() == old(dst)@.len() + n
                && encoded(old(dst)@, final(dst)@, src@)),
            src@.len() <= MAX_SRC_LEN ==> v2_owed(old(dst)@, final(dst)@, src@, parse_ops(src@, aged(old(self).history()))),
    {
        self.core.encode_bytes(src, dst)
    }

    /// A writer that encodes what is written to it onto the end of `vec`.
    pub fn writer_bytes(&mut self, vec: Vec<u8>) -> (r: LzfseWriterBytes)
        ensures
            r.wf(),
            r.input() == Seq::<u8>::empty(),
            r.vec() == vec@,
    {
        LzfseWriterBytes { frontend: FrontendRing::new(), backend: FseBackend::default(), vec, start: Ghost(vec@) }
    }
}

impl Default for LzfseRingEncoder {
    fn default() -> (r: Self)
        ensures
            r.wf(),
    {
        LzfseRingEncoder { core: LzfseEncoder::default() }
    }
}

/// Incremental encoder into a byte vector: what is written is encoded when the writer is
/// finalized.
pub struct LzfseWriterBytes {
    frontend: FrontendRing,
    backend: FseBackend,
    vec: Vec<u8>,
    start: Ghost<Seq<u8>>,
}

impl LzfseWriterBytes {
    /// Internal consistency.
    pub closed spec fn wf(&self) -> bool {
        &&& self.frontend.wf()
        &&& self.frontend.ready()
        &&& self.backend.wf()
        &&& !self.frontend.committed() ==> {
            &&& self.vec@ == self.start@
            &&& self.frontend.table() == empty_table()
            &&& self.frontend.pending_match() == (Match { idx: 0, match_idx: 0, match_len: 0 })
        }
        &&& self.frontend.committed() ==> {
            &&& self.backend.data() == lz_expand(self.frontend.ops())
            &&& self.vec@.len() >= self.start@.len()
            &&& self.vec@.subrange(0, self.start@.len() as int) == self.start@
            &&& blocks_chain(
                self.vec@.subrange(self.start@.len() as int, self.vec@.len() as int),
                Seq::<u8>::empty(),
                self.backend.hist(),
            )
            &&& self.frontend.data().len() >= RING_SIZE
        }
    }

    /// The bytes written so far.
    pub closed spec fn input(&self) -> Seq<u8> {
        self.frontend.data()
    }

    /// The vector the stream goes to, as it was given.
    pub closed spec fn vec(&self) -> Seq<u8> {
        self.start@
    }

    /// Input bytes the writer holds while it waits for more.
    pub closed spec fn held(&self) -> nat {
        self.frontend.held()
    }

    /// The writer holds no more input than the window, however much was written: blocks are
    /// emitted to the vector as the window moves on.
    pub proof fn lemma_held_bound(&self)
        requires
            self.wf(),
        ensures
            self.held() <= RING_SIZE,
    {
        self.frontend.lemma_held_bound();
    }

    /// Length of the input written so far.
    pub fn input_len(&self) -> (r: usize)
        requires
            self.wf(),
        ensures
            r == self.input().len(),
    {
        self.frontend.input_len()
    }

    /// Takes `buf` as input, emitting FSE blocks to the vector once the window has filled:
    /// returns its length.
    pub fn write(&mut self, buf: &[u8]) -> (r: usize)
        requires
            old(self).wf(),
            old(self).input().len() + buf@.len() + 2 * RING_SIZE <= usize::MAX,
        ensures
            final(self).wf(),
            final(self).input() == old(self).input() + buf@,
            final(self).vec() == old(self).vec(),
            r == buf@.len(),
    {
        let ghost v1 = self.vec@;
        let ghost c1 = self.frontend.committed();
        let r = self.frontend.write(&mut self.backend, buf, &mut self.vec);
        proof {
            let s = self.start@;
            if self.frontend.committed() && c1 {
                assert(self.vec@.subrange(0, s.len() as int) =~= self.vec@.subrange(0, v1.len() as int).subrange(0, s.len() as int));
                lemma_chain_append(s, v1, self.vec@, Seq::<u8>::empty(), old(self).backend.hist(), self.backend.hist());
            } else if self.frontend.committed() {
                assert(self.vec@.subrange(0, s.len() as int) =~= self.vec@.subrange(0, v1.len() as int));
            }
        }
        r
    }

    /// Ends the stream: returns the vector with the encoded input appended.
    #[verifier::rlimit(40)]
    #[verifier::spinoff_prover]
    pub fn finalize(self) -> (r: Vec<u8>)
        requires
            self.wf(),
        ensures
            encoded(self.vec(), r@, self.input()),
            v2_owed(self.vec(), r@, self.input(), parse_ops(self.input(), empty_table())),
    {
        let mut w = self;
        let ghost d1 = w.vec@;
        let ghost h1 = w.backend.hist();
        let ghost committed = w.frontend.committed();
        proof {
            if !committed {
                w.frontend.lemma_uncommitted_len();
            }
        }
        w.frontend.flush(&mut w.backend, &mut w.vec);
        proof {
            if committed {
                lemma_committed_encoded(w.start@, d1, w.vec@, w.frontend.data(), h1);
            } else {
                assert(d1 == w.start@);
            }
        }
        w.vec
    }
}

} // verus!
