use vstd::prelude::*;

use crate::stream_spec::{stream_decode, stream_run};
use crate::decode::{lemma_v2_stream_output, raw_stream, stream_output, LzfseDecoder};
use crate::fse::stream::{lemma_v2_stream_head, lemma_v2_stream_prefix, v2_stream};
use crate::error::Error;

verus! {

/// Where a reader stands in its stream.
#[derive(Copy, Clone, Debug, PartialEq, Eq)]
pub enum ReaderState {
    /// More blocks to come.
    Running,
    /// The end of stream marker was read.
    Eos,
    /// A block failed to decode.
    Failed,
}

/// After a block of `n` bytes at `pos` decoded onto `o0` giving `out`, what was decoded
/// followed by what the rest of a raw stream decodes to is still what the stream decodes to.
proof fn lemma_fill_step(s: Seq<u8>, pos: int, n: int, o0: Seq<u8>, out: Seq<u8>, rest: Seq<u8>)
    requires
        0 <= pos,
        0 <= n,
        pos + n <= s.len(),
        rest == s.subrange(pos, s.len() as int),
        out.len() >= o0.len(),
        out.subrange(0, o0.len() as int) == o0,
        raw_stream(s) is Some ==> raw_stream(rest) is Some && raw_stream(s)->0 == o0 + raw_stream(
            rest,
        )->0,
        raw_stream(rest) is Some ==> raw_stream(rest.subrange(n, rest.len() as int)) is Some
            && raw_stream(rest)->0 == out.subrange(o0.len() as int, out.len() as int) + raw_stream(
            rest.subrange(n, rest.len() as int),
        )->0,
    ensures
        raw_stream(s) is Some ==> raw_stream(s.subrange(pos + n, s.len() as int)) is Some
            && raw_stream(s)->0 == out + raw_stream(s.subrange(pos + n, s.len() as int))->0,
{
    assert(rest.subrange(n, rest.len() as int) =~= s.subrange(pos + n, s.len() as int));
    let t = out.subrange(o0.len() as int, out.len() as int);
    assert(out =~= o0 + t);
    if raw_stream(s) is Some {
        let rr = raw_stream(s.subrange(pos + n, s.len() as int))->0;
        assert(raw_stream(s)->0 =~= out + rr);
    }
}

/// Incremental decoder over an encoded byte slice: decodes a block at a time as its bytes are
/// read.
pub struct ReaderCore<'a> {
    inner: &'a [u8],
    pos: usize,
    decoder: LzfseDecoder,
    out: Vec<u8>,
    idx: usize,
    state: ReaderState,
}

impl<'a> ReaderCore<'a> {
    /// The encoded stream.
    pub closed spec fn src(&self) -> Seq<u8> {
        self.inner@
    }

    /// The decoded bytes handed out so far.
    pub closed spec fn produced(&self) -> Seq<u8> {
        self.out@.subrange(0, self.idx as int)
    }

    /// Where the reader stands.
    pub closed spec fn state(&self) -> ReaderState {
        self.state
    }

    /// Internal consistency: for a stream of raw blocks, what was decoded followed by what the
    /// rest decodes to is what the whole stream decodes to; for a stream of V2 blocks, the rest
    /// decodes on top of what was decoded to what the whole stream decodes to.
    pub closed spec fn wf(&self) -> bool {
        &&& self.decoder.wf()
        &&& self.pos <= self.inner@.len()
        &&& self.idx <= self.out@.len()
        &&& raw_stream(self.inner@) is Some ==> {
            &&& self.state != ReaderState::Failed
            &&& raw_stream(self.inner@.subrange(self.pos as int, self.inner@.len() as int)) is Some
            &&& raw_stream(self.inner@)->0 == self.out@ + raw_stream(
                self.inner@.subrange(self.pos as int, self.inner@.len() as int),
            )->0
            &&& self.state == ReaderState::Eos ==> raw_stream(
                self.inner@.subrange(self.pos as int, self.inner@.len() as int),
            )->0.len() == 0
        }
        &&& v2_stream(self.inner@, Seq::<u8>::empty()) is Some ==> {
            &&& self.state != ReaderState::Failed
            &&& v2_stream(self.inner@.subrange(self.pos as int, self.inner@.len() as int), self.out@)
                == v2_stream(self.inner@, Seq::<u8>::empty())
            &&& self.state == ReaderState::Eos ==> v2_stream(self.inner@, Seq::<u8>::empty())
                == Some(self.out@)
        }
        &&& stream_decode(self.inner@, Seq::<u8>::empty()) is Some ==> {
            &&& self.state != ReaderState::Failed
            &&& stream_decode(self.inner@.subrange(self.pos as int, self.inner@.len() as int), self.out@)
                == stream_decode(self.inner@, Seq::<u8>::empty())
            &&& self.state == ReaderState::Eos ==> stream_decode(self.inner@, Seq::<u8>::empty())
                == Some(self.out@)
        }
    }

    /// A reader at the start of `inner`.
    pub fn new(inner: &'a [u8]) -> (r: Self)
        ensures
            r.wf(),
            r.src() == inner@,
            r.produced() == Seq::<u8>::empty(),
            r.state() == ReaderState::Running,
    {
        let r = ReaderCore {
            inner,
            pos: 0,
            decoder: LzfseDecoder::default(),
            out: Vec::new(),
            idx: 0,
            state: ReaderState::Running,
        };
        proof {
            assert(inner@.subrange(0, inner@.len() as int) =~= inner@);
            assert(Seq::<u8>::empty() + raw_stream(inner@)->0 =~= raw_stream(inner@)->0);
        }
        r
    }

    /// The encoded stream.
    pub fn into_inner(self) -> (r: &'a [u8])
        ensures
            r@ == self.src(),
    {
        self.inner
    }

    /// Decodes the next block: returns whether there may be more to read.
    #[verifier::rlimit(40)]
    fn fill(&mut self) -> (r: crate::Result<bool>)
        requires
            old(self).wf(),
        ensures
            final(self).wf(),
            final(self).src() == old(self).src(),
            r is Ok ==> final(self).idx == old(self).idx && final(self).out@.len() >= old(
                self,
            ).out@.len() && final(self).out@.subrange(0, old(self).out@.len() as int) == old(
                self,
            ).out@,
            r matches Ok(true) ==> final(self).pos > old(self).pos,
            r matches Ok(false) ==> final(self).state == ReaderState::Eos
                && final(self).out@ == old(self).out@,
            r is Err ==> final(self).state == ReaderState::Failed,
            raw_stream(old(self).src()) is Some ==> r is Ok,
            v2_stream(old(self).src(), Seq::<u8>::empty()) is Some ==> r is Ok,
            stream_decode(old(self).src(), Seq::<u8>::empty()) is Some ==> r is Ok,
    {
        match self.state {
            ReaderState::Eos => {
                return Ok(false);
            },
            ReaderState::Failed => {
                return Err(Error::BadReaderState);
            },
            ReaderState::Running => {},
        }
        let inner = self.inner;
        let rest = vstd::slice::slice_subrange(inner, self.pos, inner.len());
        let ghost o0 = self.out@;
        proof {
            if v2_stream(self.inner@, Seq::<u8>::empty()) is Some {
                lemma_v2_stream_head(rest@, o0);
            }
            if stream_decode(self.inner@, Seq::<u8>::empty()) is Some {
                crate::stream_spec::lemma_stream_decode_head(rest@, o0);
            }
        }
        let r = self.decoder.decode_block(rest, &mut self.out);
        match r {
            Ok(Some(n)) => {
                proof {
                    lemma_fill_step(self.inner@, self.pos as int, n as int, o0, self.out@, rest@);
                    assert(rest@.subrange(n as int, rest@.len() as int) =~= self.inner@.subrange(
                        self.pos + n,
                        self.inner@.len() as int,
                    ));
                }
                self.pos = self.pos + n;
                Ok(true)
            },
            Ok(None) => {
                self.state = ReaderState::Eos;
                Ok(false)
            },
            Err(e) => {
                self.out.clear();
                self.idx = 0;
                self.state = ReaderState::Failed;
                Err(e)
            },
        }
    }

    /// Decodes into `buf`: returns the number of bytes written, fewer than `buf` holds only at
    /// the end of the stream.
    pub fn read(&mut self, buf: &mut [u8]) -> (r: crate::Result<usize>)
        requires
            old(self).wf(),
        ensures
            final(self).wf(),
            final(self).src() == old(self).src(),
            final(buf)@.len() == old(buf)@.len(),
            r matches Ok(n) ==> {
                &&& n <= old(buf)@.len()
                &&& final(self).produced() == old(self).produced() + final(buf)@.subrange(0, n as int)
                &&& n < old(buf)@.len() ==> final(self).state() == ReaderState::Eos
            },
            stream_output(old(self).src()) matches Some(t) ==> r is Ok && final(self).produced().len()
                <= t.len() && final(self).produced() == t.subrange(
                0,
                final(self).produced().len() as int,
            ),
            r matches Ok(n) && n < old(buf)@.len() ==> (stream_output(old(self).src()) matches Some(t)
                ==> final(self).produced() == t),
            stream_decode(old(self).src(), Seq::<u8>::empty()) matches Some(t) ==> r is Ok
                && final(self).produced().len() <= t.len() && final(self).produced() == t.subrange(
                0,
                final(self).produced().len() as int,
            ),
            r matches Ok(n) && n < old(buf)@.len() ==> (stream_decode(
                old(self).src(),
                Seq::<u8>::empty(),
            ) matches Some(t) ==> final(self).produced() == t),
    {
        let mut written: usize = 0;
        let ghost p0 = self.produced();
        loop
            invariant
                self.wf(),
                self.src() == old(self).src(),
                buf@.len() == old(buf)@.len(),
                written <= buf@.len(),
                self.produced() == p0 + buf@.subrange(0, written as int),
                p0 == old(self).produced(),
            ensures
                self.wf(),
                self.src() == old(self).src(),
                buf@.len() == old(buf)@.len(),
                written <= buf@.len(),
                self.produced() == p0 + buf@.subrange(0, written as int),
                written < buf@.len() ==> self.state == ReaderState::Eos && self.idx == self.out@.len(),
            decreases self.inner@.len() - self.pos, buf@.len() - written,
        {
            let avail = self.out.len() - self.idx;
            let room = buf.len() - written;
            let k = if avail < room {
                avail
            } else {
                room
            };
            let ghost b0 = buf@;
            let mut j: usize = 0;
            while j < k
                invariant
                    j <= k,
                    k <= self.out@.len() - self.idx,
                    k <= buf@.len() - written,
                    self.idx <= self.out@.len(),
                    self.out@.len() <= usize::MAX,
                    buf@.len() <= usize::MAX,
                    written <= buf@.len(),
                    buf@.len() == b0.len(),
                    forall|i: int| 0 <= i < written ==> #[trigger] buf@[i] == b0[i],
                    forall|i: int| 0 <= i < j ==> #[trigger] buf@[written + i] == self.out@[self.idx + i],
                decreases k - j,
            {
                let b = self.out[self.idx + j];
                buf[written + j] = b;
                j = j + 1;
            }
            proof {
                assert(buf@.subrange(0, written as int) =~= b0.subrange(0, written as int));
                assert(self.out@.subrange(0, (self.idx + k) as int) =~= self.produced()
                    + self.out@.subrange(self.idx as int, (self.idx + k) as int));
                let c = self.out@.subrange(self.idx as int, (self.idx + k) as int);
                assert forall|m: int| written <= m < written + k implies #[trigger] buf@[m] == c[m - written] by {
                    assert(buf@[written + (m - written)] == self.out@[self.idx + (m - written)]);
                }
                assert(buf@.subrange(0, (written + k) as int) =~= buf@.subrange(0, written as int) + c);
            }
            self.idx = self.idx + k;
            written = written + k;
            if written == buf.len() {
                break;
            }
            let ghost oo = self.out@;
            let more = self.fill()?;
            proof {
                assert(self.out@.subrange(0, self.idx as int) =~= oo.subrange(0, self.idx as int));
            }
            if !more {
                break;
            }
        }
        proof {
            let s = self.inner@;
            if stream_decode(s, Seq::<u8>::empty()) is Some {
                let t = stream_decode(s, Seq::<u8>::empty())->0;
                let rest = s.subrange(self.pos as int, s.len() as int);
                crate::stream_spec::lemma_stream_decode_grows(rest, self.out@);
                assert(self.produced() =~= t.subrange(0, self.produced().len() as int));
                if self.state == ReaderState::Eos && written < buf@.len() {
                    assert(self.produced() =~= self.out@);
                }
            }
            if raw_stream(s) is Some {
                let t = raw_stream(s)->0;
                assert(t == self.out@ + raw_stream(s.subrange(self.pos as int, s.len() as int))->0);
                assert(self.produced() =~= t.subrange(0, self.produced().len() as int));
                if self.state == ReaderState::Eos && written < buf@.len() {
                    assert(self.produced() =~= self.out@);
                    assert(t =~= self.out@);
                }
            } else if v2_stream(s, Seq::<u8>::empty()) is Some {
                let t = v2_stream(s, Seq::<u8>::empty())->0;
                let rest = s.subrange(self.pos as int, s.len() as int);
                lemma_v2_stream_prefix(rest, self.out@);
                assert(self.produced() =~= t.subrange(0, self.produced().len() as int));
                if self.state == ReaderState::Eos && written < buf@.len() {
                    assert(self.produced() =~= self.out@);
                }
            }
        }
        Ok(written)
    }
}

/// Reader that decodes an encoded byte slice.
pub struct LzfseReaderBytes<'a>(pub ReaderCore<'a>);

impl<'a> LzfseReaderBytes<'a> {
    /// Internal consistency.
    pub open spec fn wf(&self) -> bool {
        self.0.wf()
    }

    /// Decodes into `buf`: returns the number of bytes written, fewer than `buf` holds only at
    /// the end of the stream.
    pub fn read(&mut self, buf: &mut [u8]) -> (r: crate::Result<usize>)
        requires
            old(self).wf(),
        ensures
            final(self).wf(),
            final(self).0.src() == old(self).0.src(),
            final(buf)@.len() == old(buf)@.len(),
            r matches Ok(n) ==> n <= old(buf)@.len() && final(self).0.produced() == old(self).0.produced()
                + final(buf)@.subrange(0, n as int),
            stream_output(old(self).0.src()) matches Some(t) ==> r is Ok && final(self).0.produced().len()
                <= t.len() && final(self).0.produced() == t.subrange(
                0,
                final(self).0.produced().len() as int,
            ),
            r matches Ok(n) && n < old(buf)@.len() ==> (stream_output(old(self).0.src()) matches Some(t)
                ==> final(self).0.produced() == t),
            stream_decode(old(self).0.src(), Seq::<u8>::empty()) matches Some(t) ==> r is Ok
                && final(self).0.produced().len() <= t.len() && final(self).0.produced() == t.subrange(
                0,
                final(self).0.produced().len() as int,
            ),
            r matches Ok(n) && n < old(buf)@.len() ==> (stream_decode(
                old(self).0.src(),
                Seq::<u8>::empty(),
            ) matches Some(t) ==> final(self).0.produced() == t),
    {
        self.0.read(buf)
    }
}

/// LZFSE decoder that also offers incremental readers.
pub struct LzfseRingDecoder {
    core: LzfseDecoder,
}

impl LzfseRingDecoder {
    /// Internal consistency.
    pub closed spec fn wf(&self) -> bool {
        self.core.wf()
    }

    /// Identical to `LzfseDecoder::decode_bytes`.
    pub fn decode_bytes(&mut self, src: &[u8], dst: &mut Vec<u8>) -> (r: crate::Result<u64>)
        requires
            old(self).wf(),
        ensures
            final(self).wf(),
            r matches Ok(n) ==> final(dst)@.len() == old(dst)@.len() + n && final(dst)@.subrange(
                0,
                old(dst)@.len() as int,
            ) == old(dst)@,
            src@.len() < 4 ==> r == Err::<u64, Error>(Error::PayloadUnderflow) && final(dst)@ == old(
                dst,
            )@,
            src@.len() >= 4 && !crate::base::is_magic(crate::le::le_u32(src@, 0) as u32) ==> r == Err::<u64, Error>(
                Error::BadBlock(crate::le::le_u32(src@, 0) as u32),
            ) && final(dst)@ == old(dst)@,
            stream_run(src@, old(dst)@) matches Some((p, o)) ==> {
                &&& final(dst)@ == o
                &&& p + 4 == src@.len() ==> r == Ok::<u64, Error>((o.len() - old(dst)@.len()) as u64)
                &&& p + 4 < src@.len() ==> r == Err::<u64, Error>(Error::PayloadOverflow)
            },
            stream_decode(src@, old(dst)@) matches Some(o) ==> r == Ok::<u64, Error>(
                (o.len() - old(dst)@.len()) as u64,
            ) && final(dst)@ == o,
            raw_stream(src@) matches Some(b) ==> r == Ok::<u64, Error>(b.len() as u64) && final(dst)@
                == old(dst)@ + b,
            v2_stream(src@, old(dst)@) matches Some(o) ==> r == Ok::<u64, Error>(
                (o.len() - old(dst)@.len()) as u64,
            ) && final(dst)@ == o,
            stream_output(src@) matches Some(b) ==> r == Ok::<u64, Error>(b.len() as u64)
                && final(dst)@ == old(dst)@ + b,
    {
        self.core.decode_bytes(src, dst)
    }

    /// A reader that decodes `bytes` as it is read.
    pub fn reader_bytes<'b>(&mut self, bytes: &'b [u8]) -> (r: LzfseReaderBytes<'b>)
        ensures
            r.wf(),
            r.0.src() == bytes@,
            r.0.produced() == Seq::<u8>::empty(),
    {
        LzfseReaderBytes(ReaderCore::new(bytes))
    }
}

impl Default for LzfseRingDecoder {
    fn default() -> (r: Self)
        ensures
            r.wf(),
    {
        LzfseRingDecoder { core: LzfseDecoder::default() }
    }
}

} // verus!
