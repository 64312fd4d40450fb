use vstd::prelude::*;

use crate::base::{MagicBytes, BM_EOS, BM_RAW, BM_VX1, BM_VX2, BM_VXN};
use crate::error::Error;
use crate::fse::block::{block_check, v1_result, v1_view, v2_result, v2_view};
use crate::fse::constants::{V1_HEADER_SIZE, V2_HEADER_SIZE};
use crate::stream_spec::{block_step, stream_decode, stream_run, v1_step};
use crate::fse::literals::lit_run;
use crate::fse::weights::u_part;
use crate::fse::stream::{v2_run, v2_step, v2_stream};
use crate::fse::fse_core::FseCore;
use crate::fse::probe::{v1_probe, v2_probe};
use crate::le::{le_u32, read_u32};
use crate::lz::LzWriter;

verus! {

/// The bytes a stream of raw blocks closed by the end of stream marker decodes to, if `src` is
/// one.
pub open spec fn raw_stream(src: Seq<u8>) -> Option<Seq<u8>>
    decreases src.len(),
{
    if src.len() < 4 {
        None
    } else if le_u32(src, 0) == BM_EOS {
        if src.len() == 4 {
            Some(Seq::empty())
        } else {
            None
        }
    } else if le_u32(src, 0) == BM_RAW && src.len() >= 8 && src.len() >= 8 + le_u32(src, 4) {
        let n = le_u32(src, 4) as int;
        match raw_stream(src.subrange(8 + n, src.len() as int)) {
            Some(rest) => Some(src.subrange(8, 8 + n) + rest),
            None => None,
        }
    } else {
        None
    }
}

/// What the stream `src` decodes to from an empty output, if it is a stream of raw blocks or
/// one of V2 blocks.
pub open spec fn stream_output(src: Seq<u8>) -> Option<Seq<u8>> {
    if raw_stream(src) is Some {
        raw_stream(src)
    } else {
        v2_stream(src, Seq::<u8>::empty())
    }
}

/// A stream of V2 blocks is no stream of raw blocks, but for the end of stream marker alone,
/// which both read as nothing.
pub proof fn lemma_v2_stream_output(src: Seq<u8>)
    requires
        v2_stream(src, Seq::<u8>::empty()) is Some,
    ensures
        stream_output(src) == v2_stream(src, Seq::<u8>::empty()),
{
    crate::fse::stream::lemma_v2_stream_head(src, Seq::<u8>::empty());
}

/// A raw-block stream at `pos` continues after its first block.
proof fn lemma_raw_stream_step(src: Seq<u8>, pos: int)
    requires
        0 <= pos <= src.len(),
        raw_stream(src.subrange(pos, src.len() as int)) is Some,
        pos + 4 <= src.len(),
        le_u32(src, pos) != BM_EOS,
    ensures
        ({
            let rest = src.subrange(pos, src.len() as int);
            let n = le_u32(rest, 4) as int;
            &&& le_u32(rest, 0) == BM_RAW
            &&& rest.len() >= 8 + n + 4
            &&& raw_stream(src.subrange(pos + 8 + n, src.len() as int)) is Some
            &&& raw_stream(rest)->0 == rest.subrange(8, 8 + n) + raw_stream(
                src.subrange(pos + 8 + n, src.len() as int),
            )->0
        }),
{
    let rest = src.subrange(pos, src.len() as int);
    assert(le_u32(rest, 0) == le_u32(src, pos));
    let n = le_u32(rest, 4) as int;
    assert(rest.subrange(8 + n, rest.len() as int) =~= src.subrange(pos + 8 + n, src.len() as int));
}

/// Decodes the raw block at the front of `src`, which starts with the raw magic bytes: returns
/// the bytes consumed.
fn raw_block<O: LzWriter>(dst: &mut O, src: &[u8]) -> (r: crate::Result<usize>)
    requires
        src@.len() >= 4,
        le_u32(src@, 0) == BM_RAW,
    ensures
        src@.len() < 8 || src@.len() < 8 + le_u32(src@, 4) ==> r == Err::<usize, Error>(
            Error::PayloadUnderflow,
        ) && final(dst).written() == old(dst).written(),
        src@.len() >= 8 && src@.len() >= 8 + le_u32(src@, 4) ==> r == Ok::<usize, Error>(
            (8 + le_u32(src@, 4)) as usize,
        ) && final(dst).written() == old(dst).written() + src@.subrange(8, 8 + le_u32(src@, 4) as int),
{
    if src.len() < 8 {
        return Err(Error::PayloadUnderflow);
    }
    let n = read_u32(src, 4) as usize;
    if src.len() - 8 < n {
        return Err(Error::PayloadUnderflow);
    }
    let _ = dst.write_bytes(vstd::slice::slice_subrange(src, 8, 8 + n));
    Ok(8 + n)
}

/// LZFSE decoder.
pub struct LzfseDecoder {
    fse_core: FseCore,
}

impl LzfseDecoder {
    /// Decodes the V1 or V2 block at the front of `src`: returns the bytes consumed. A V2
    /// block that every stage decodes gives what `v2_step` says.
    fn fse_block(&mut self, dst: &mut Vec<u8>, src: &[u8], v2: bool) -> (r: crate::Result<usize>)
        requires
            old(self).wf(),
            src@.len() >= 4,
            !v2 ==> le_u32(src@, 0) == BM_VX1,
            v2 ==> le_u32(src@, 0) == BM_VX2,
        ensures
            final(self).wf(),
            r matches Ok(n) ==> 4 <= n <= src@.len() && final(dst)@.len() >= old(dst)@.len()
                && final(dst)@.subrange(0, old(dst)@.len() as int) == old(dst)@,
            v2 ==> (v2_step(src@, old(dst)@) matches Some((n, o)) ==> r == Ok::<usize, Error>(
                n as usize,
            ) && final(dst)@ == o),
            !v2 ==> (v1_step(src@, old(dst)@) matches Some((n, o)) ==> r == Ok::<usize, Error>(
                n as usize,
            ) && final(dst)@ == o),
    {
        proof {
            if v2 && v2_step(src@, dst@) is Some {
                crate::stream_spec::lemma_v2_step_payload(src@, dst@);
            }
            if !v2 && v1_step(src@, dst@) is Some {
                crate::stream_spec::lemma_v1_step_payload(src@, dst@);
            }
        }
        let n = if v2 {
            self.fse_core.load_v2(src)?
        } else {
            self.fse_core.load_v1(src)?
        };
        proof {
            assert(self.fse_core.block().1.1 >= 8);
        }
        self.fse_payload(dst, src, n as usize)
    }

    /// Decodes the literal and LMD payloads of the loaded block, which start 8 bytes after `n`
    /// in `src`: returns where the block ends.
    #[verifier::rlimit(60)]
    fn fse_payload(&mut self, dst: &mut Vec<u8>, src: &[u8], n: usize) -> (r: crate::Result<usize>)
        requires
            old(self).wf(),
            old(self).fse_core.block().1.1 >= 8,
            4 <= n <= src@.len(),
        ensures
            final(self).wf(),
            r matches Ok(k) ==> n < k <= src@.len() && final(dst)@.len() >= old(dst)@.len()
                && final(dst)@.subrange(0, old(dst)@.len() as int) == old(dst)@,
            crate::stream_spec::payload_step(
                src@,
                n as int,
                old(self).fse_core.block(),
                old(self).fse_core.decoder_weights(),
                old(dst)@,
            ) matches Some((e, o)) ==> r == Ok::<usize, Error>(e as usize) && final(dst)@ == o,
    {
        let ghost b = self.fse_core.block();
        let ghost ws = self.fse_core.decoder_weights();
        let ghost ok = crate::stream_spec::payload_step(src@, n as int, b, ws, dst@) is Some;
        let rest = vstd::slice::slice_subrange(src, n, src.len());
        proof {
            if ok {
                crate::stream_spec::lemma_payload_facts(src@, n as int, b, ws, dst@);
                assert(rest@.subrange(0, b.0.1 + 8) =~= src@.subrange(n as int, n + b.0.1 + 8));
            }
        }
        let n2 = self.fse_core.load_literals(rest)?;
        let rest2 = vstd::slice::slice_subrange(rest, n2 as usize, rest.len());
        let ghost d0 = dst@;
        let ghost core = self.fse_core;
        proof {
            core.lemma_literals_prefix();
            if ok {
                let m = n + n2;
                let lp = src@.subrange(n as int, m as int);
                assert(rest2@.subrange(0, b.1.1 as int) =~= src@.subrange(m as int, m + b.1.1));
                assert(core.literals() == lit_run(u_part(ws), lp, b.0).0);
                assert(core.decoder_weights() == ws);
                let lits = core.literals();
                let t = crate::fse::lmds::lmd_run(core.decoder_weights(), rest2@.subrange(0, b.1.1 as int), b.1).0;
                crate::fse::lz_sem::lemma_lz_run_ext(
                    (d0, 0, 0, 0),
                    lits,
                    core.literal_buffer().subrange(lits.len() as int, core.literal_buffer().len() as int),
                    t,
                );
            }
        }
        let n3 = self.fse_core.decode(dst, rest2)?;
        proof {
            let p = rest2@.subrange(0, n3 as int);
            let run = crate::fse::lmds::lmd_run(core.decoder_weights(), p, core.block().1);
            crate::fse::fse_core::lemma_lz_run_prefix((d0, 0, 0, 0), core.literal_buffer(), run.0);
        }
        Ok(n + n2 as usize + n3 as usize)
    }

    /// Internal consistency.
    pub closed spec fn wf(&self) -> bool {
        self.fse_core.wf()
    }

    /// Decodes the stream `src`, blocks closed by the end of stream marker, appending the
    /// decoded bytes to `dst`: returns the number of bytes decoded. LZVN blocks are refused
    /// as `Error::BadBlock`.
    #[verifier::rlimit(60)]
    pub fn decode_bytes(&mut self, src: &[u8], dst: &mut Vec<u8>) -> (r: crate::Result<u64>)
        requires
            old(self).wf(),
        ensures
            final(self).wf(),
            r matches Ok(n) ==> final(dst)@.len() == old(dst)@.len() + n && final(dst)@.subrange(
                0,
                old(dst)@.len() as int,
            ) == old(dst)@,
            src@.len() < 4 ==> r == Err::<u64, Error>(Error::PayloadUnderflow) && final(dst)@ == old(
                dst,
            )@,
            src@.len() >= 4 && !crate::base::is_magic(le_u32(src@, 0) as u32) ==> r == Err::<u64, Error>(
                Error::BadBlock(le_u32(src@, 0) as u32),
            ) && final(dst)@ == old(dst)@,
            stream_run(src@, old(dst)@) matches Some((p, o)) ==> {
                &&& final(dst)@ == o
                &&& p + 4 == src@.len() ==> r == Ok::<u64, Error>((o.len() - old(dst)@.len()) as u64)
                &&& p + 4 < src@.len() ==> r == Err::<u64, Error>(Error::PayloadOverflow)
            },
            stream_decode(src@, old(dst)@) matches Some(o) ==> r == Ok::<u64, Error>(
                (o.len() - old(dst)@.len()) as u64,
            ) && final(dst)@ == o,
            raw_stream(src@) matches Some(b) ==> r == Ok::<u64, Error>(b.len() as u64)
                && final(dst)@ == old(dst)@ + b,
            v2_stream(src@, old(dst)@) matches Some(o) ==> r == Ok::<u64, Error>(
                (o.len() - old(dst)@.len()) as u64,
            ) && final(dst)@ == o,
            stream_output(src@) matches Some(b) ==> r == Ok::<u64, Error>(b.len() as u64)
                && final(dst)@ == old(dst)@ + b,
    {
        let mark = dst.len();
        let mut pos: usize = 0;
        let ghost d0 = dst@;
        let ghost run0 = stream_run(src@, d0);
        proof {
            crate::stream_spec::lemma_stream_decode_run(src@, d0);
            if raw_stream(src@) is None && v2_stream(src@, Seq::<u8>::empty()) is Some {
                crate::fse::stream::lemma_v2_stream_shift(src@, d0, Seq::<u8>::empty());
                assert(d0 + Seq::<u8>::empty() =~= d0);
            }
            if v2_stream(src@, d0) is Some {
                crate::stream_spec::lemma_v2_stream_decode(src@, d0);
            }
            assert(src@.subrange(0, src@.len() as int) =~= src@);
            assert(dst@.subrange(d0.len() as int, dst@.len() as int) =~= Seq::<u8>::empty());
            assert(dst@.subrange(0, d0.len() as int) =~= d0);
            if raw_stream(src@) is Some {
                assert(Seq::<u8>::empty() + raw_stream(src@)->0 =~= raw_stream(src@)->0);
            }
        }
        loop
            invariant
                self.wf(),
                pos <= src@.len(),
                d0 == old(dst)@,
                mark == d0.len(),
                run0 == stream_run(src@, d0),
                stream_decode(src@, d0) == (if run0 is Some && (run0->0).0 + 4 == src@.len() {
                    Some((run0->0).1)
                } else {
                    None
                }),
                v2_stream(src@, d0) is Some ==> stream_decode(src@, d0) == v2_stream(src@, d0),
                raw_stream(src@) is None && v2_stream(src@, Seq::<u8>::empty()) is Some ==> v2_stream(
                    src@,
                    d0,
                ) == Some(d0 + v2_stream(src@, Seq::<u8>::empty())->0),
                dst@.len() >= d0.len(),
                dst@.subrange(0, d0.len() as int) == d0,
                raw_stream(src@) is Some ==> raw_stream(src@.subrange(pos as int, src@.len() as int))
                    is Some && raw_stream(src@)->0 == dst@.subrange(
                    d0.len() as int,
                    dst@.len() as int,
                ) + raw_stream(src@.subrange(pos as int, src@.len() as int))->0,
                pos == 0 ==> dst@ == d0,
                pos > 0 ==> src@.len() >= 4 && crate::base::is_magic(le_u32(src@, 0) as u32),
                run0 is Some ==> pos <= (run0->0).0 && stream_run(
                    src@.subrange(pos as int, src@.len() as int),
                    dst@,
                ) == Some((((run0->0).0 - pos) as nat, (run0->0).1)),
            ensures
                pos == 0 ==> le_u32(src@, 0) == BM_EOS,
                pos + 4 <= src@.len(),
                le_u32(src@, pos as int) == BM_EOS,
                dst@.len() >= d0.len(),
                dst@.subrange(0, d0.len() as int) == d0,
                raw_stream(src@) is Some ==> raw_stream(src@.subrange(pos as int, src@.len() as int))
                    is Some && raw_stream(src@)->0 == dst@.subrange(
                    d0.len() as int,
                    dst@.len() as int,
                ) + raw_stream(src@.subrange(pos as int, src@.len() as int))->0,
                pos == 0 ==> dst@ == d0,
                run0 is Some ==> pos <= (run0->0).0 && stream_run(
                    src@.subrange(pos as int, src@.len() as int),
                    dst@,
                ) == Some((((run0->0).0 - pos) as nat, (run0->0).1)),
            decreases src@.len() - pos,
        {
            let rest = vstd::slice::slice_subrange(src, pos, src.len());
            proof {
                if run0 is Some {
                    crate::stream_spec::lemma_stream_run_head(rest@, dst@);
                }
            }
            if rest.len() < 4 {
                return Err(Error::PayloadUnderflow);
            }
            let u = read_u32(rest, 0);
            proof {
                assert(le_u32(rest@, 0) == le_u32(src@, pos as int));
            }
            let magic = MagicBytes::try_from(u)?;
            let ghost dpre = dst@;
            match magic {
                MagicBytes::Vx1 => {
                    let n = self.fse_block(dst, rest, false)?;
                    proof {
                        if run0 is Some {
                            assert(block_step(rest@, dpre) == v1_step(rest@, dpre));
                            assert(block_step(rest@, dpre) == Some((n as nat, dst@)));
                        }
                        assert(raw_stream(rest@) is None);
                        assert(rest@.subrange(n as int, rest@.len() as int) =~= src@.subrange(pos + n, src@.len() as int));
                        assert(dst@.subrange(0, d0.len() as int) =~= dst@.subrange(0, dpre.len() as int).subrange(0, d0.len() as int));
                    }
                    pos = pos + n;
                },
                MagicBytes::Vx2 => {
                    let n = self.fse_block(dst, rest, true)?;
                    proof {
                        assert(raw_stream(rest@) is None);
                        assert(rest@.subrange(n as int, rest@.len() as int) =~= src@.subrange(pos + n, src@.len() as int));
                        assert(dst@.subrange(0, d0.len() as int) =~= dst@.subrange(0, dpre.len() as int).subrange(0, d0.len() as int));
                    }
                    pos = pos + n;
                },
                MagicBytes::Vxn => {
                    return Err(Error::BadBlock(BM_VXN));
                },
                MagicBytes::Raw => {
                    let n = raw_block(dst, rest)?;
                    proof {
                        if run0 is Some {
                            assert(block_step(rest@, dpre) == Some((n as nat, dst@)));
                        }
                        let k = le_u32(rest@, 4) as int;
                        assert(rest@.subrange(8 + k, rest@.len() as int) =~= src@.subrange(pos + n, src@.len() as int));
                        assert(dst@.subrange(0, d0.len() as int) =~= d0);
                        assert(dst@.subrange(d0.len() as int, dst@.len() as int) =~= dpre.subrange(d0.len() as int, dpre.len() as int) + rest@.subrange(8, 8 + k));
                    }
                    pos = pos + n;
                },
                MagicBytes::Eos => {
                    break;
                },
            }
        }
        proof {
            if run0 is Some {
                let rest = src@.subrange(pos as int, src@.len() as int);
                assert(le_u32(rest, 0) == le_u32(src@, pos as int));
                crate::stream_spec::lemma_stream_run_head(rest, dst@);
            }
        }
        if src.len() - pos != 4 {
            return Err(Error::PayloadOverflow);
        }
        Ok((dst.len() - mark) as u64)
    }
}

impl LzfseDecoder {
    /// Decodes the block at the front of `src`, appending its bytes to `dst`: returns the bytes
    /// it takes, or `None` at the end of stream marker, which must close `src`.
    pub fn decode_block(&mut self, src: &[u8], dst: &mut Vec<u8>) -> (r: crate::Result<
        Option<usize>,
    >)
        requires
            old(self).wf(),
        ensures
            final(self).wf(),
            r is Ok ==> final(dst)@.len() >= old(dst)@.len() && final(dst)@.subrange(
                0,
                old(dst)@.len() as int,
            ) == old(dst)@,
            r matches Ok(Some(n)) ==> 4 <= n <= src@.len(),
            r matches Ok(None) ==> final(dst)@ == old(dst)@,
            src@.len() < 4 ==> r == Err::<Option<usize>, Error>(Error::PayloadUnderflow),
            src@.len() >= 4 && !crate::base::is_magic(le_u32(src@, 0) as u32) ==> r == Err::<
                Option<usize>,
                Error,
            >(Error::BadBlock(le_u32(src@, 0) as u32)),
            raw_stream(src@) matches Some(b) ==> {
                ||| src@.len() == 4 && b.len() == 0 && r == Ok::<Option<usize>, Error>(None)
                ||| r matches Ok(Some(n)) && raw_stream(src@.subrange(n as int, src@.len() as int))
                    is Some && b == final(dst)@.subrange(old(dst)@.len() as int, final(dst)@.len() as int)
                    + raw_stream(src@.subrange(n as int, src@.len() as int))->0
            },
            v2_step(src@, old(dst)@) matches Some((n, o)) ==> r == Ok::<Option<usize>, Error>(
                Some(n as usize),
            ) && final(dst)@ == o,
            src@.len() == 4 && le_u32(src@, 0) == BM_EOS ==> r == Ok::<Option<usize>, Error>(None),
            block_step(src@, old(dst)@) matches Some((n, o)) ==> r == Ok::<Option<usize>, Error>(
                Some(n as usize),
            ) && final(dst)@ == o,
    {
        let ghost d0 = dst@;
        proof {
            if v2_step(src@, dst@) is Some {
                crate::fse::stream::lemma_v2_step_magic(src@, dst@);
            }
            assert(dst@.subrange(0, d0.len() as int) =~= d0);
        }
        if src.len() < 4 {
            return Err(Error::PayloadUnderflow);
        }
        let u = read_u32(src, 0);
        let magic = MagicBytes::try_from(u)?;
        proof {
            if raw_stream(src@) is Some && u != BM_EOS {
                assert(src@.subrange(0, src@.len() as int) =~= src@);
                lemma_raw_stream_step(src@, 0);
            }
        }
        match magic {
            MagicBytes::Vx1 => {
                let n = self.fse_block(dst, src, false)?;
                Ok(Some(n))
            },
            MagicBytes::Vx2 => {
                let n = self.fse_block(dst, src, true)?;
                Ok(Some(n))
            },
            MagicBytes::Vxn => Err(Error::BadBlock(BM_VXN)),
            MagicBytes::Raw => {
                let n = raw_block(dst, src)?;
                proof {
                    let k = le_u32(src@, 4) as int;
                    assert(dst@.subrange(0, d0.len() as int) =~= d0);
                    assert(dst@.subrange(d0.len() as int, dst@.len() as int) =~= src@.subrange(8, 8 + k));
                }
                Ok(Some(n))
            },
            MagicBytes::Eos => {
                if src.len() != 4 {
                    return Err(Error::PayloadOverflow);
                }
                Ok(None)
            },
        }
    }
}

impl Default for LzfseDecoder {
    fn default() -> (r: Self)
        ensures
            r.wf(),
    {
        LzfseDecoder { fse_core: FseCore::default() }
    }
}

/// Decodes the stream `src`, appending the decoded bytes to `dst`: returns the number of bytes
/// decoded.
pub fn decode_bytes(src: &[u8], dst: &mut Vec<u8>) -> (r: crate::Result<u64>)
    ensures
        r matches Ok(n) ==> final(dst)@.len() == old(dst)@.len() + n && final(dst)@.subrange(
            0,
            old(dst)@.len() as int,
        ) == old(dst)@,
        src@.len() < 4 ==> r == Err::<u64, Error>(Error::PayloadUnderflow) && final(dst)@ == old(
            dst,
        )@,
        src@.len() >= 4 && !crate::base::is_magic(le_u32(src@, 0) as u32) ==> r == Err::<u64, Error>(
            Error::BadBlock(le_u32(src@, 0) as u32),
        ) && final(dst)@ == old(dst)@,
        stream_run(src@, old(dst)@) matches Some((p, o)) ==> {
            &&& final(dst)@ == o
            &&& p + 4 == src@.len() ==> r == Ok::<u64, Error>((o.len() - old(dst)@.len()) as u64)
            &&& p + 4 < src@.len() ==> r == Err::<u64, Error>(Error::PayloadOverflow)
        },
        stream_decode(src@, old(dst)@) matches Some(o) ==> r == Ok::<u64, Error>(
            (o.len() - old(dst)@.len()) as u64,
        ) && final(dst)@ == o,
        raw_stream(src@) matches Some(b) ==> r == Ok::<u64, Error>(b.len() as u64) && final(dst)@
            == old(dst)@ + b,
        v2_stream(src@, old(dst)@) matches Some(o) ==> r == Ok::<u64, Error>(
            (o.len() - old(dst)@.len()) as u64,
        ) && final(dst)@ == o,
        stream_output(src@) matches Some(b) ==> r == Ok::<u64, Error>(b.len() as u64) && final(dst)@
            == old(dst)@ + b,
{
    let mut decoder = LzfseDecoder::default();
    decoder.decode_bytes(src, dst)
}


/// Payload and raw sizes of the raw block at the front of `src`, which starts with the raw
/// magic bytes.
fn raw_probe(src: &[u8]) -> (r: crate::Result<(u32, u32)>)
    requires
        src@.len() >= 4,
        le_u32(src@, 0) == BM_RAW,
    ensures
        src@.len() < 8 ==> r == Err::<(u32, u32), Error>(Error::PayloadUnderflow),
        src@.len() >= 8 && le_u32(src@, 4) <= u32::MAX - 8 ==> r == Ok::<(u32, u32), Error>(
            ((8 + le_u32(src@, 4)) as u32, le_u32(src@, 4) as u32),
        ),
        src@.len() >= 8 && le_u32(src@, 4) > u32::MAX - 8 ==> r == Err::<(u32, u32), Error>(
            Error::PayloadUnderflow,
        ),
{
    if src.len() < 8 {
        return Err(Error::PayloadUnderflow);
    }
    let n = read_u32(src, 4);
    if n > u32::MAX - 8 {
        return Err(Error::PayloadUnderflow);
    }
    Ok((8 + n, n))
}

/// Payload and raw sizes of the block, not an end of stream marker, at the front of `src`,
/// when the payload leaves at least a marker after it.
fn probe_block(src: &[u8], Ghost(h): Ghost<Seq<u8>>) -> (r: crate::Result<(u32, u32)>)
    requires
        src@.len() >= 4,
        le_u32(src@, 0) != BM_EOS,
    ensures
        !crate::base::is_magic(le_u32(src@, 0) as u32) ==> r == Err::<(u32, u32), Error>(
            Error::BadBlock(le_u32(src@, 0) as u32),
        ),
        r matches Ok((np, nr)) ==> 4 <= np < src@.len() && nr <= np * 0x10_0000,
        raw_stream(src@) is Some && src@.len() <= u32::MAX ==> r == Ok::<(u32, u32), Error>(
            ((8 + le_u32(src@, 4)) as u32, le_u32(src@, 4) as u32),
        ),
        ({
            let hd = src@.subrange(0, V2_HEADER_SIZE as int);
            let b = v2_view(hd);
            let nh = v2_result(hd)->Ok_0.0;
            let nw = v2_result(hd)->Ok_0.1;
            le_u32(src@, 0) == BM_VX2 && src@.len() >= V2_HEADER_SIZE && v2_result(hd) is Ok && nh + nw
                + b.0.1 + b.1.1 < src@.len() ==> r == Ok::<(u32, u32), Error>(
                ((nh + nw + b.0.1 + b.1.1) as u32, b.2),
            )
        }),
        ({
            let st = block_step(src@, h);
            src@.len() <= u32::MAX && st is Some && (st->0).0 < src@.len() ==> r == Ok::<
                (u32, u32),
                Error,
            >(((st->0).0 as u32, ((st->0).1.len() - h.len()) as u32))
        }),
{
    let u = read_u32(src, 0);
    let magic = MagicBytes::try_from(u)?;
    let ghost s = src@;
    proof {
        if block_step(s, h) is Some {
            if le_u32(s, 0) == BM_VX1 {
                crate::stream_spec::lemma_v1_step_sizes(s, h);
            } else if le_u32(s, 0) == BM_VX2 {
                crate::fse::stream::lemma_v2_step_sizes(s, h);
            }
        }
        if raw_stream(s) is Some {
            assert(s.subrange(0, s.len() as int) =~= s);
            lemma_raw_stream_step(s, 0);
        }
    }
    let (n_payload_bytes, n_raw_bytes) = match magic {
        MagicBytes::Vx1 => v1_probe(src)?,
        MagicBytes::Vx2 => v2_probe(src)?,
        MagicBytes::Vxn => {
            return Err(Error::BadBlock(BM_VXN));
        },
        MagicBytes::Raw => raw_probe(src)?,
        MagicBytes::Eos => {
            return Err(Error::BadBlock(BM_EOS));
        },
    };
    if n_payload_bytes as usize >= src.len() {
        return Err(Error::PayloadUnderflow);
    }
    proof {
        assert(n_raw_bytes <= n_payload_bytes * 0x10_0000) by (nonlinear_arith)
            requires
                n_raw_bytes <= n_payload_bytes || (n_payload_bytes >= 32 && n_raw_bytes <= 0x200_0000),
        ;
    }
    Ok((n_payload_bytes, n_raw_bytes))
}

/// The block at `pos` of a stream: its size and the rest of the stream.
proof fn lemma_probe_step(src: Seq<u8>, pos: int, h: Seq<u8>)
    requires
        0 <= pos <= src.len(),
        stream_run(src.subrange(pos, src.len() as int), h) is Some,
        le_u32(src.subrange(pos, src.len() as int), 0) != BM_EOS,
    ensures
        ({
            let rest = src.subrange(pos, src.len() as int);
            let (n, o) = block_step(rest, h)->0;
            let run = stream_run(rest, h)->0;
            &&& block_step(rest, h) is Some
            &&& 0 < n < rest.len()
            &&& n <= run.0
            &&& h.len() <= o.len() <= h.len() + u32::MAX
            &&& stream_run(src.subrange(pos + n, src.len() as int), o) == Some(((run.0 - n) as nat, run.1))
        }),
{
    let rest = src.subrange(pos, src.len() as int);
    crate::stream_spec::lemma_stream_run_head(rest, h);
    let (n, o) = block_step(rest, h)->0;
    if le_u32(rest, 0) == BM_VX1 {
        crate::stream_spec::lemma_v1_step_sizes(rest, h);
    } else if le_u32(rest, 0) == BM_VX2 {
        crate::fse::stream::lemma_v2_step_sizes(rest, h);
    } else {
        assert(le_u32(rest, 4) <= u32::MAX);
    }
    assert(rest.subrange(n as int, rest.len() as int) =~= src.subrange(pos + n, src.len() as int));
}

/// The V2 block at `pos` of a stream: its size from its header, and the rest of the stream.
proof fn lemma_probe_v2(src: Seq<u8>, pos: int, h: Seq<u8>)
    requires
        0 <= pos <= src.len(),
        v2_run(src.subrange(pos, src.len() as int), h) is Some,
        le_u32(src.subrange(pos, src.len() as int), 0) != BM_EOS,
    ensures
        ({
            let rest = src.subrange(pos, src.len() as int);
            let hd = rest.subrange(0, V2_HEADER_SIZE as int);
            let b = v2_view(hd);
            let nh = v2_result(hd)->Ok_0.0;
            let nw = v2_result(hd)->Ok_0.1;
            let n = nh + nw + b.0.1 + b.1.1;
            let o = (v2_step(rest, h)->0).1;
            let run = v2_run(rest, h)->0;
            &&& le_u32(rest, 0) == BM_VX2
            &&& rest.len() >= V2_HEADER_SIZE
            &&& v2_result(hd) is Ok
            &&& n < rest.len()
            &&& n <= run.0
            &&& v2_step(rest, h) is Some
            &&& (v2_step(rest, h)->0).0 == n
            &&& o.len() == h.len() + b.2
            &&& v2_run(src.subrange(pos + n, src.len() as int), o) == Some(((run.0 - n) as nat, run.1))
        }),
{
    let rest = src.subrange(pos, src.len() as int);
    crate::fse::stream::lemma_v2_run_head(rest, h);
    crate::fse::stream::lemma_v2_step_magic(rest, h);
    crate::fse::stream::lemma_v2_step_sizes(rest, h);
    let (n, o) = v2_step(rest, h)->0;
    assert(rest.subrange(n as int, rest.len() as int) =~= src.subrange(pos + n, src.len() as int));
}

/// The number of bytes the stream `src` decodes to, read from its block headers. LZVN blocks
/// are refused as `Error::BadBlock`.
#[verifier::rlimit(60)]
pub fn probe(src: &[u8]) -> (r: crate::Result<u64>)
    requires
        src@.len() <= 0x100_0000_0000,
    ensures
        src@.len() < 4 ==> r == Err::<u64, Error>(Error::PayloadUnderflow),
        src@.len() >= 4 && !crate::base::is_magic(le_u32(src@, 0) as u32) ==> r == Err::<u64, Error>(
            Error::BadBlock(le_u32(src@, 0) as u32),
        ),
        raw_stream(src@) is Some && src@.len() <= u32::MAX ==> r == Ok::<u64, Error>(
            raw_stream(src@)->0.len() as u64,
        ),
        v2_stream(src@, Seq::<u8>::empty()) matches Some(b) ==> r == Ok::<u64, Error>(
            b.len() as u64,
        ),
        v2_run(src@, Seq::<u8>::empty()) matches Some((p, o)) ==> {
            &&& p + 4 == src@.len() ==> r == Ok::<u64, Error>(o.len() as u64)
            &&& p + 4 < src@.len() ==> r == Err::<u64, Error>(Error::PayloadOverflow)
        },
        src@.len() <= u32::MAX ==> (stream_run(src@, Seq::<u8>::empty()) matches Some((p, o)) ==> {
            &&& p + 4 == src@.len() ==> r == Ok::<u64, Error>(o.len() as u64)
            &&& p + 4 < src@.len() ==> r == Err::<u64, Error>(Error::PayloadOverflow)
        }),
        src@.len() <= u32::MAX ==> (stream_decode(src@, Seq::<u8>::empty()) matches Some(o) ==> r
            == Ok::<u64, Error>(o.len() as u64)),
{
    let mut pos: usize = 0;
    let mut t_raw_bytes: u64 = 0;
    let ghost mut h: Seq<u8> = Seq::empty();
    let ghost run0 = v2_run(src@, Seq::<u8>::empty());
    let ghost run1 = stream_run(src@, Seq::<u8>::empty());
    let ghost bounded = src@.len() <= u32::MAX;
    proof {
        crate::stream_spec::lemma_stream_decode_run(src@, Seq::<u8>::empty());
        assert(src@.subrange(0, src@.len() as int) =~= src@);
        if v2_stream(src@, Seq::<u8>::empty()) is Some {
            crate::fse::stream::lemma_v2_run_extra(src@, Seq::<u8>::empty(), Seq::<u8>::empty());
            assert(src@ + Seq::<u8>::empty() =~= src@);
        }
    }
    loop
        invariant
            pos <= src@.len(),
            src@.len() <= 0x100_0000_0000,
            t_raw_bytes <= pos * 0x10_0000,
            pos > 0 ==> src@.len() >= 4 && crate::base::is_magic(le_u32(src@, 0) as u32),
            raw_stream(src@) is Some && src@.len() <= u32::MAX ==> raw_stream(
                src@.subrange(pos as int, src@.len() as int),
            ) is Some && raw_stream(src@)->0.len() == t_raw_bytes + raw_stream(
                src@.subrange(pos as int, src@.len() as int),
            )->0.len(),
            run0 == v2_run(src@, Seq::<u8>::empty()),
            v2_stream(src@, Seq::<u8>::empty()) is Some ==> run0 == Some(
                ((src@.len() - 4) as nat, v2_stream(src@, Seq::<u8>::empty())->0),
            ),
            run0 is Some ==> pos <= (run0->0).0 && v2_run(
                src@.subrange(pos as int, src@.len() as int),
                h,
            ) == Some((((run0->0).0 - pos) as nat, (run0->0).1)) && h.len() == t_raw_bytes,
            run1 == stream_run(src@, Seq::<u8>::empty()),
            bounded == (src@.len() <= u32::MAX),
            stream_decode(src@, Seq::<u8>::empty()) == (if run1 is Some && (run1->0).0 + 4 == src@.len() {
                Some((run1->0).1)
            } else {
                None
            }),
            bounded && run1 is Some ==> pos <= (run1->0).0 && stream_run(
                src@.subrange(pos as int, src@.len() as int),
                h,
            ) == Some((((run1->0).0 - pos) as nat, (run1->0).1)) && h.len() == t_raw_bytes,
        ensures
            pos + 4 <= src@.len(),
            le_u32(src@, pos as int) == BM_EOS,
            pos == 0 ==> le_u32(src@, 0) == BM_EOS,
            raw_stream(src@) is Some && src@.len() <= u32::MAX ==> raw_stream(
                src@.subrange(pos as int, src@.len() as int),
            ) is Some && raw_stream(src@)->0.len() == t_raw_bytes + raw_stream(
                src@.subrange(pos as int, src@.len() as int),
            )->0.len(),
            run0 == v2_run(src@, Seq::<u8>::empty()),
            v2_stream(src@, Seq::<u8>::empty()) is Some ==> run0 == Some(
                ((src@.len() - 4) as nat, v2_stream(src@, Seq::<u8>::empty())->0),
            ),
            run0 is Some ==> pos <= (run0->0).0 && v2_run(
                src@.subrange(pos as int, src@.len() as int),
                h,
            ) == Some((((run0->0).0 - pos) as nat, (run0->0).1)) && h.len() == t_raw_bytes,
            run1 == stream_run(src@, Seq::<u8>::empty()),
            bounded == (src@.len() <= u32::MAX),
            stream_decode(src@, Seq::<u8>::empty()) == (if run1 is Some && (run1->0).0 + 4 == src@.len() {
                Some((run1->0).1)
            } else {
                None
            }),
            bounded && run1 is Some ==> pos <= (run1->0).0 && stream_run(
                src@.subrange(pos as int, src@.len() as int),
                h,
            ) == Some((((run1->0).0 - pos) as nat, (run1->0).1)) && h.len() == t_raw_bytes,
        decreases src@.len() - pos,
    {
        let rest = vstd::slice::slice_subrange(src, pos, src.len());
        proof {
            if run0 is Some {
                crate::fse::stream::lemma_v2_run_head(rest@, h);
            }
            if bounded && run1 is Some {
                crate::stream_spec::lemma_stream_run_head(rest@, h);
            }
        }
        if rest.len() < 4 {
            return Err(Error::PayloadUnderflow);
        }
        let u = read_u32(rest, 0);
        proof {
            assert(le_u32(rest@, 0) == le_u32(src@, pos as int));
            if pos == 0 {
                assert(rest@ =~= src@);
            }
        }
        if u == BM_EOS {
            break;
        }
        let ghost h2 = h;
        proof {
            if bounded && run1 is Some {
                lemma_probe_step(src@, pos as int, h);
                h2 = (block_step(rest@, h)->0).1;
            }
            if run0 is Some {
                lemma_probe_v2(src@, pos as int, h);
                h2 = (v2_step(rest@, h)->0).1;
            }
        }
        let (n_payload_bytes, n_raw_bytes) = probe_block(rest, Ghost(h))?;
        proof {
            if bounded && run1 is Some {
                let st = block_step(rest@, h)->0;
                assert(n_payload_bytes == st.0);
                assert(n_raw_bytes == st.1.len() - h.len());
                assert(h2 == st.1);
            }
            if raw_stream(src@) is Some && src@.len() <= u32::MAX {
                lemma_raw_stream_step(src@, pos as int);
            }
            assert(t_raw_bytes + n_raw_bytes <= (pos + n_payload_bytes) * 0x10_0000) by (nonlinear_arith)
                requires
                    t_raw_bytes <= pos * 0x10_0000,
                    n_raw_bytes <= n_payload_bytes * 0x10_0000,
            ;
            assert((pos + n_payload_bytes) * 0x10_0000 <= 0x100_0000_0000 * 0x10_0000) by (nonlinear_arith)
                requires pos + n_payload_bytes <= 0x100_0000_0000;
        }
        pos = pos + n_payload_bytes as usize;
        t_raw_bytes = t_raw_bytes + n_raw_bytes as u64;
        proof {
            h = h2;
        }
    }
    proof {
        if run0 is Some {
            let rest = src@.subrange(pos as int, src@.len() as int);
            assert(le_u32(rest, 0) == le_u32(src@, pos as int));
            crate::fse::stream::lemma_v2_run_head(rest, h);
        }
        if bounded && run1 is Some {
            let rest = src@.subrange(pos as int, src@.len() as int);
            assert(le_u32(rest, 0) == le_u32(src@, pos as int));
            crate::stream_spec::lemma_stream_run_head(rest, h);
        }
    }
    if src.len() - pos != 4 {
        return Err(Error::PayloadOverflow);
    }
    Ok(t_raw_bytes)
}

} // verus!
