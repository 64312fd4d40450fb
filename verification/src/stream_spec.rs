use vstd::prelude::*;

use crate::base::{BM_EOS, BM_RAW, BM_VX1, BM_VX2};
use crate::decode::raw_stream;
use crate::fse::block::{v1_result, v1_view, v2_result, v2_view, BlockView};
use crate::fse::constants::{V1_HEADER_SIZE, V1_WEIGHT_PAYLOAD_BYTES, V2_HEADER_SIZE};
use crate::fse::fse_core::lz_run;
use crate::fse::literals::{lit_load_result, lit_run};
use crate::fse::lmds::{lmd_load_result, lmd_run};
use crate::fse::stream::{
    lemma_v2_step_prefix, lemma_v2_step_shift, lemma_v2_stream_head, v2_step, v2_stream,
};
use crate::fse::weights::{u_part, v1_load_result, v1_weights, v2_load_result, v2_weights};
use crate::le::le_u32;

verus! {

/// Decoding the V1 block at the front of `src` on top of the output `h`: the block's length
/// and the output after it, when every stage of decoding succeeds.
#[verifier::opaque]
pub open spec fn v1_step(src: Seq<u8>, h: Seq<u8>) -> Option<(nat, Seq<u8>)> {
    let hs = V1_HEADER_SIZE as int;
    let we = hs + V1_WEIGHT_PAYLOAD_BYTES;
    if src.len() < we || le_u32(src, 0) != BM_VX1 {
        None
    } else {
        let hd = src.subrange(0, hs);
        if v1_result(hd) is Err {
            None
        } else {
            let b = v1_view(hd);
            let n = we - 8;
            let m = n + b.0.1 + 8;
            let e = m + b.1.1;
            if src.len() < e {
                None
            } else {
                let wp = src.subrange(hs, we);
                let ws = v1_weights(wp);
                let lp = src.subrange(n, m);
                let mp = src.subrange(m, e);
                if v1_load_result(wp) is Err || lit_load_result(u_part(ws), lp, b.0) is Err
                    || lmd_load_result(ws, mp, b.1) is Err {
                    None
                } else {
                    let lits = lit_run(u_part(ws), lp, b.0).0;
                    let lz = lz_run((h, 0, 0, 0), lits, lmd_run(ws, mp, b.1).0);
                    if lz is Ok && lz->Ok_0.1 <= b.0.0 && lz->Ok_0.1 <= lits.len() && lz->Ok_0.3
                        + lz->Ok_0.1 == b.2 {
                        Some((e as nat, lz->Ok_0.0))
                    } else {
                        None
                    }
                }
            }
        }
    }
}

/// Decoding the literal and LMD payloads of block `b`, read with the weights `ws`, that start
/// 8 bytes after `n` in `src`, on top of the output `h`: where the block ends and the output
/// after it.
#[verifier::opaque]
pub open spec fn payload_step(src: Seq<u8>, n: int, b: BlockView, ws: Seq<u16>, h: Seq<u8>) -> Option<
    (nat, Seq<u8>),
> {
    let m = n + b.0.1 + 8;
    let e = m + b.1.1;
    if src.len() < e {
        None
    } else {
        let lp = src.subrange(n, m);
        let mp = src.subrange(m, e);
        if lit_load_result(u_part(ws), lp, b.0) is Err || lmd_load_result(ws, mp, b.1) is Err {
            None
        } else {
            let lits = lit_run(u_part(ws), lp, b.0).0;
            let lz = lz_run((h, 0, 0, 0), lits, lmd_run(ws, mp, b.1).0);
            if lz is Ok && lz->Ok_0.1 <= b.0.0 && lz->Ok_0.1 <= lits.len() && lz->Ok_0.3 + lz->Ok_0.1
                == b.2 {
                Some((e as nat, lz->Ok_0.0))
            } else {
                None
            }
        }
    }
}

/// Payloads that decode: their stages succeed, and the LZ run on the literals gives the output.
pub proof fn lemma_payload_facts(src: Seq<u8>, n: int, b: BlockView, ws: Seq<u16>, h: Seq<u8>)
    requires
        payload_step(src, n, b, ws, h) is Some,
    ensures
        ({
            let m = n + b.0.1 + 8;
            let e = m + b.1.1;
            let lp = src.subrange(n, m);
            let mp = src.subrange(m, e);
            let lits = lit_run(u_part(ws), lp, b.0).0;
            let lz = lz_run((h, 0, 0, 0), lits, lmd_run(ws, mp, b.1).0);
            &&& src.len() >= e
            &&& lit_load_result(u_part(ws), lp, b.0) is Ok
            &&& lmd_load_result(ws, mp, b.1) is Ok
            &&& lz is Ok
            &&& lz->Ok_0.1 <= b.0.0
            &&& lz->Ok_0.1 <= lits.len()
            &&& lz->Ok_0.3 + lz->Ok_0.1 == b.2
            &&& payload_step(src, n, b, ws, h) == Some((e as nat, lz->Ok_0.0))
        }),
{
    reveal(payload_step);
}

/// A V1 block that decodes has a good header and weights, and its payloads decode.
pub proof fn lemma_v1_step_payload(src: Seq<u8>, h: Seq<u8>)
    requires
        v1_step(src, h) is Some,
    ensures
        ({
            let hs = V1_HEADER_SIZE as int;
            let we = hs + V1_WEIGHT_PAYLOAD_BYTES;
            let hd = src.subrange(0, hs);
            let wp = src.subrange(hs, we);
            &&& src.len() >= we
            &&& v1_result(hd) is Ok
            &&& v1_load_result(wp) is Ok
            &&& v1_step(src, h) == payload_step(src, we - 8, v1_view(hd), v1_weights(wp), h)
        }),
{
    reveal(v1_step);
    reveal(payload_step);
}

/// A V2 block that decodes has a good header and weights, and its payloads decode.
pub proof fn lemma_v2_step_payload(src: Seq<u8>, h: Seq<u8>)
    requires
        v2_step(src, h) is Some,
    ensures
        ({
            let hs = V2_HEADER_SIZE as int;
            let hd = src.subrange(0, hs);
            let nw = v2_result(hd)->Ok_0.1;
            let wp = src.subrange(hs, hs + nw);
            &&& src.len() >= hs + nw
            &&& v2_result(hd) is Ok
            &&& v2_load_result(wp) is Ok
            &&& v2_step(src, h) == payload_step(src, hs + nw - 8, v2_view(hd), v2_weights(wp).0, h)
        }),
{
    reveal(v2_step);
    reveal(payload_step);
}

/// Decoding the raw block at the front of `src` on top of the output `h`: the block's length
/// and the output after it.
pub open spec fn raw_step(src: Seq<u8>, h: Seq<u8>) -> Option<(nat, Seq<u8>)> {
    if src.len() >= 8 && le_u32(src, 0) == BM_RAW && src.len() >= 8 + le_u32(src, 4) {
        let n = le_u32(src, 4) as int;
        Some(((8 + n) as nat, h + src.subrange(8, 8 + n)))
    } else {
        None
    }
}

/// Decoding the raw, V1 or V2 block at the front of `src` on top of the output `h`.
pub open spec fn block_step(src: Seq<u8>, h: Seq<u8>) -> Option<(nat, Seq<u8>)> {
    if src.len() < 4 {
        None
    } else if le_u32(src, 0) == BM_VX1 {
        v1_step(src, h)
    } else if le_u32(src, 0) == BM_VX2 {
        v2_step(src, h)
    } else {
        raw_step(src, h)
    }
}

/// The output that the stream `src` of raw, V1 and V2 blocks, closed by the end of stream
/// marker, decodes to on top of the output `h`, if `src` is one.
#[verifier::opaque]
pub open spec fn stream_decode(src: Seq<u8>, h: Seq<u8>) -> Option<Seq<u8>>
    decreases src.len(),
{
    if src.len() < 4 {
        None
    } else if le_u32(src, 0) == BM_EOS {
        if src.len() == 4 {
            Some(h)
        } else {
            None
        }
    } else {
        match block_step(src, h) {
            Some((n, h2)) => if 0 < n <= src.len() {
                stream_decode(src.subrange(n as int, src.len() as int), h2)
            } else {
                None
            },
            None => None,
        }
    }
}

/// A stream is the end of stream marker alone, or a block followed by a stream.
pub proof fn lemma_stream_decode_head(src: Seq<u8>, h: Seq<u8>)
    requires
        stream_decode(src, h) is Some,
    ensures
        src.len() >= 4,
        le_u32(src, 0) == BM_EOS ==> src.len() == 4 && stream_decode(src, h) == Some(h),
        le_u32(src, 0) != BM_EOS ==> {
            &&& block_step(src, h) is Some
            &&& 0 < (block_step(src, h)->0).0 <= src.len()
            &&& stream_decode(
                src.subrange((block_step(src, h)->0).0 as int, src.len() as int),
                (block_step(src, h)->0).1,
            ) == stream_decode(src, h)
        },
{
    reveal(stream_decode);
}

/// A V1 block decodes the same on top of an output with anything before it.
pub proof fn lemma_v1_step_shift(src: Seq<u8>, h: Seq<u8>, o: Seq<u8>)
    requires
        v1_step(src, o) is Some,
    ensures
        v1_step(src, h + o) == Some(((v1_step(src, o)->0).0, h + (v1_step(src, o)->0).1)),
{
    reveal(v1_step);
    let hs = V1_HEADER_SIZE as int;
    let we = hs + V1_WEIGHT_PAYLOAD_BYTES;
    let hd = src.subrange(0, hs);
    let b = v1_view(hd);
    let n = we - 8;
    let m = n + b.0.1 + 8;
    let e = m + b.1.1;
    let ws = v1_weights(src.subrange(hs, we));
    let lits = lit_run(u_part(ws), src.subrange(n, m), b.0).0;
    crate::fse::lz_sem::lemma_lz_run_shift(h, (o, 0, 0, 0), lits, lmd_run(ws, src.subrange(m, e), b.1).0);
}

/// A block decodes the same on top of an output with anything before it.
pub proof fn lemma_block_step_shift(src: Seq<u8>, h: Seq<u8>, o: Seq<u8>)
    requires
        block_step(src, o) is Some,
    ensures
        block_step(src, h + o) == Some(((block_step(src, o)->0).0, h + (block_step(src, o)->0).1)),
{
    if le_u32(src, 0) == BM_VX1 {
        lemma_v1_step_shift(src, h, o);
    } else if le_u32(src, 0) == BM_VX2 {
        lemma_v2_step_shift(src, h, o);
    } else {
        let n = le_u32(src, 4) as int;
        assert((h + o) + src.subrange(8, 8 + n) =~= h + (o + src.subrange(8, 8 + n)));
    }
}

/// A stream decodes the same on top of an output with anything before it.
pub proof fn lemma_stream_decode_shift(src: Seq<u8>, h: Seq<u8>, o: Seq<u8>)
    requires
        stream_decode(src, o) is Some,
    ensures
        stream_decode(src, h + o) == Some(h + stream_decode(src, o)->0),
    decreases src.len(),
{
    lemma_stream_decode_head(src, o);
    reveal(stream_decode);
    if le_u32(src, 0) != BM_EOS {
        let (n, o2) = block_step(src, o)->0;
        lemma_block_step_shift(src, h, o);
        lemma_stream_decode_shift(src.subrange(n as int, src.len() as int), h, o2);
    }
}

/// A stream of V2 blocks decodes as such.
pub proof fn lemma_v2_stream_decode(src: Seq<u8>, h: Seq<u8>)
    requires
        v2_stream(src, h) is Some,
    ensures
        stream_decode(src, h) == v2_stream(src, h),
    decreases src.len(),
{
    lemma_v2_stream_head(src, h);
    reveal(stream_decode);
    if le_u32(src, 0) != BM_EOS {
        let (n, o) = v2_step(src, h)->0;
        lemma_v2_stream_decode(src.subrange(n as int, src.len() as int), o);
    }
}

/// A stream of raw blocks decodes as such.
pub proof fn lemma_raw_stream_decode(src: Seq<u8>, h: Seq<u8>)
    requires
        raw_stream(src) is Some,
    ensures
        stream_decode(src, h) == Some(h + raw_stream(src)->0),
    decreases src.len(),
{
    reveal(stream_decode);
    if le_u32(src, 0) == BM_EOS {
        assert(h + Seq::<u8>::empty() =~= h);
    } else {
        let n = le_u32(src, 4) as int;
        let rest = src.subrange(8 + n, src.len() as int);
        let x = src.subrange(8, 8 + n);
        lemma_raw_stream_decode(rest, h + x);
        assert((h + x) + raw_stream(rest)->0 =~= h + (x + raw_stream(rest)->0));
    }
}

/// Decoding the blocks at the front of `src` on top of the output `h`, up to the first end of
/// stream marker: where the marker stands and the output before it, whatever follows it.
#[verifier::opaque]
pub open spec fn stream_run(src: Seq<u8>, h: Seq<u8>) -> Option<(nat, Seq<u8>)>
    decreases src.len(),
{
    if src.len() < 4 {
        None
    } else if le_u32(src, 0) == BM_EOS {
        Some((0, h))
    } else {
        match block_step(src, h) {
            Some((n, h2)) => if 0 < n <= src.len() {
                match stream_run(src.subrange(n as int, src.len() as int), h2) {
                    Some((p, o)) => Some((n + p, o)),
                    None => None,
                }
            } else {
                None
            },
            None => None,
        }
    }
}

/// The blocks up to the marker are the end of stream marker alone, or a block followed by
/// blocks up to the marker.
pub proof fn lemma_stream_run_head(src: Seq<u8>, h: Seq<u8>)
    requires
        stream_run(src, h) is Some,
    ensures
        src.len() >= 4,
        (stream_run(src, h)->0).0 + 4 <= src.len(),
        le_u32(src, 0) == BM_EOS ==> stream_run(src, h) == Some((0nat, h)),
        le_u32(src, 0) != BM_EOS ==> {
            let (n, h2) = block_step(src, h)->0;
            &&& block_step(src, h) is Some
            &&& 0 < n <= src.len()
            &&& n <= (stream_run(src, h)->0).0
            &&& stream_run(src.subrange(n as int, src.len() as int), h2) == Some((
                ((stream_run(src, h)->0).0 - n) as nat,
                (stream_run(src, h)->0).1,
            ))
        },
    decreases src.len(),
{
    reveal(stream_run);
    if le_u32(src, 0) != BM_EOS {
        let (n, h2) = block_step(src, h)->0;
        lemma_stream_run_head(src.subrange(n as int, src.len() as int), h2);
    }
}

/// A stream is the blocks up to a marker that closes it.
pub proof fn lemma_stream_decode_run(src: Seq<u8>, h: Seq<u8>)
    ensures
        stream_decode(src, h) == (if stream_run(src, h) is Some && (stream_run(src, h)->0).0 + 4
            == src.len() {
            Some((stream_run(src, h)->0).1)
        } else {
            None
        }),
    decreases src.len(),
{
    reveal(stream_decode);
    reveal(stream_run);
    if src.len() >= 4 && le_u32(src, 0) != BM_EOS {
        if let Some((n, h2)) = block_step(src, h) {
            if 0 < n <= src.len() {
                let rest = src.subrange(n as int, src.len() as int);
                lemma_stream_decode_run(rest, h2);
            }
        }
    }
}

/// A V1 block decodes the same whatever follows it.
pub proof fn lemma_v1_step_prefix(a: Seq<u8>, r: Seq<u8>, h: Seq<u8>)
    requires
        v1_step(a, h) is Some,
        (v1_step(a, h)->0).0 <= a.len(),
    ensures
        v1_step(a + r, h) == v1_step(a, h),
{
    reveal(v1_step);
    let s = a + r;
    let hs = V1_HEADER_SIZE as int;
    let we = hs + V1_WEIGHT_PAYLOAD_BYTES;
    assert(le_u32(s, 0) == le_u32(a, 0));
    assert(s.subrange(0, hs) =~= a.subrange(0, hs));
    let b = v1_view(a.subrange(0, hs));
    let n = we - 8;
    let m = n + b.0.1 + 8;
    let e = m + b.1.1;
    assert(s.subrange(hs, we) =~= a.subrange(hs, we));
    assert(s.subrange(n, m) =~= a.subrange(n, m));
    assert(s.subrange(m, e) =~= a.subrange(m, e));
}

/// A block decodes the same whatever follows it.
pub proof fn lemma_block_step_prefix(a: Seq<u8>, r: Seq<u8>, h: Seq<u8>)
    requires
        block_step(a, h) is Some,
        (block_step(a, h)->0).0 <= a.len(),
    ensures
        block_step(a + r, h) == block_step(a, h),
{
    let s = a + r;
    assert(le_u32(s, 0) == le_u32(a, 0));
    if le_u32(a, 0) == BM_VX1 {
        lemma_v1_step_prefix(a, r, h);
    } else if le_u32(a, 0) == BM_VX2 {
        lemma_v2_step_prefix(a, r, h);
    } else {
        let n = le_u32(a, 4) as int;
        assert(le_u32(s, 4) == le_u32(a, 4));
        assert(s.subrange(8, 8 + n) =~= a.subrange(8, 8 + n));
    }
}

/// A stream followed by more bytes runs to the same marker with the same output.
pub proof fn lemma_stream_extra(a: Seq<u8>, x: Seq<u8>, h: Seq<u8>)
    requires
        stream_decode(a, h) is Some,
    ensures
        stream_run(a + x, h) == Some(((a.len() - 4) as nat, stream_decode(a, h)->0)),
    decreases a.len(),
{
    lemma_stream_decode_head(a, h);
    reveal(stream_run);
    let s = a + x;
    assert(le_u32(s, 0) == le_u32(a, 0));
    if le_u32(a, 0) != BM_EOS {
        let (n, h2) = block_step(a, h)->0;
        lemma_block_step_prefix(a, x, h);
        let rest = a.subrange(n as int, a.len() as int);
        lemma_stream_extra(rest, x, h2);
        lemma_stream_decode_head(rest, h2);
        assert(s.subrange(n as int, s.len() as int) =~= rest + x);
        assert(block_step(s, h) == Some((n, h2)));
        assert(stream_run(s.subrange(n as int, s.len() as int), h2) == Some(((rest.len() - 4) as nat, stream_decode(a, h)->0)));
    } else {
        assert(stream_run(s, h) == Some((0nat, h)));
    }
}

/// A block only appends to the output.
pub proof fn lemma_block_step_grows(src: Seq<u8>, h: Seq<u8>)
    requires
        block_step(src, h) is Some,
    ensures
        (block_step(src, h)->0).1.len() >= h.len(),
        (block_step(src, h)->0).1.subrange(0, h.len() as int) == h,
{
    if le_u32(src, 0) == BM_VX1 {
        reveal(v1_step);
        let hs = V1_HEADER_SIZE as int;
        let we = hs + V1_WEIGHT_PAYLOAD_BYTES;
        let hd = src.subrange(0, hs);
        let b = v1_view(hd);
        let n = we - 8;
        let m = n + b.0.1 + 8;
        let e = m + b.1.1;
        let ws = v1_weights(src.subrange(hs, we));
        let lits = lit_run(u_part(ws), src.subrange(n, m), b.0).0;
        crate::fse::fse_core::lemma_lz_run_prefix((h, 0, 0, 0), lits, lmd_run(ws, src.subrange(m, e), b.1).0);
    } else if le_u32(src, 0) == BM_VX2 {
        crate::fse::stream::lemma_v2_step_prefix_out(src, h);
    } else {
        let n = le_u32(src, 4) as int;
        assert((h + src.subrange(8, 8 + n)).subrange(0, h.len() as int) =~= h);
    }
}

/// A stream only appends to the output it starts from.
pub proof fn lemma_stream_decode_grows(src: Seq<u8>, h: Seq<u8>)
    requires
        stream_decode(src, h) is Some,
    ensures
        stream_decode(src, h)->0.len() >= h.len(),
        stream_decode(src, h)->0.subrange(0, h.len() as int) == h,
    decreases src.len(),
{
    lemma_stream_decode_head(src, h);
    if le_u32(src, 0) == BM_EOS {
        assert(h.subrange(0, h.len() as int) =~= h);
    } else {
        let (n, h2) = block_step(src, h)->0;
        lemma_block_step_grows(src, h);
        lemma_stream_decode_grows(src.subrange(n as int, src.len() as int), h2);
        let o = stream_decode(src, h)->0;
        assert(o.subrange(0, h.len() as int) =~= o.subrange(0, h2.len() as int).subrange(0, h.len() as int));
    }
}

/// A V1 block takes the bytes its header counts, and adds the raw bytes it declares to the
/// output.
pub proof fn lemma_v1_step_sizes(src: Seq<u8>, h: Seq<u8>)
    requires
        v1_step(src, h) is Some,
    ensures
        src.len() >= V1_HEADER_SIZE,
        le_u32(src, 0) == BM_VX1,
        v1_result(src.subrange(0, V1_HEADER_SIZE as int)) == Ok::<(u32, u32), crate::error::Error>(
            (V1_HEADER_SIZE, V1_WEIGHT_PAYLOAD_BYTES),
        ),
        ({
            let b = v1_view(src.subrange(0, V1_HEADER_SIZE as int));
            &&& (v1_step(src, h)->0).0 == V1_HEADER_SIZE + V1_WEIGHT_PAYLOAD_BYTES + b.0.1 + b.1.1
            &&& (v1_step(src, h)->0).1.len() == h.len() + b.2
        }),
{
    reveal(v1_step);
    let hs = V1_HEADER_SIZE as int;
    let we = hs + V1_WEIGHT_PAYLOAD_BYTES;
    let hd = src.subrange(0, hs);
    let b = v1_view(hd);
    let n = we - 8;
    let m = n + b.0.1 + 8;
    let e = m + b.1.1;
    let ws = v1_weights(src.subrange(hs, we));
    let lits = lit_run(u_part(ws), src.subrange(n, m), b.0).0;
    crate::fse::lz_sem::lemma_lz_run_len((h, 0, 0, 0), lits, lmd_run(ws, src.subrange(m, e), b.1).0);
}

/// A stream of V2 blocks up to the marker is a stream of blocks up to the marker.
pub proof fn lemma_v2_run_stream_run(src: Seq<u8>, h: Seq<u8>)
    requires
        crate::fse::stream::v2_run(src, h) is Some,
    ensures
        stream_run(src, h) == crate::fse::stream::v2_run(src, h),
    decreases src.len(),
{
    crate::fse::stream::lemma_v2_run_head(src, h);
    reveal(stream_run);
    if le_u32(src, 0) != BM_EOS {
        let (n, h2) = v2_step(src, h)->0;
        crate::fse::stream::lemma_v2_step_magic(src, h);
        lemma_v2_run_stream_run(src.subrange(n as int, src.len() as int), h2);
    }
}

} // verus!
