use vstd::prelude::*;

use crate::base::{BM_EOS, BM_VX2};
use crate::le::le_u32;
use crate::lmd::LmdPack;

use super::block::{v2_result, v2_view};
use super::block_round_trip::v2_block_decodes;
use super::buffer::{pack_dist, pack_match_total};
use super::constants::V2_HEADER_SIZE;
use super::fse_core::lz_run;
use super::literals::{lit_load_result, lit_run, round4};
use super::lmds::{lmd_load_result, lmd_run, triples_of};
use super::lz_sem::{block_lz, lemma_lz_run_ext};
use super::weights::{u_part, v2_load_result, v2_weights};

verus! {

/// Decoding the V2 block at the front of `src` on top of the output `h`: the block's length
/// and the output after it, when every stage of decoding succeeds.
#[verifier::opaque]
pub open spec fn v2_step(src: Seq<u8>, h: Seq<u8>) -> Option<(nat, Seq<u8>)> {
    let hs = V2_HEADER_SIZE as int;
    if src.len() < hs || le_u32(src, 0) != BM_VX2 {
        None
    } else {
        let hd = src.subrange(0, hs);
        if v2_result(hd) is Err {
            None
        } else {
            let nw = v2_result(hd)->Ok_0.1 as int;
            let b = v2_view(hd);
            let n = hs + nw - 8;
            let m = n + b.0.1 + 8;
            let e = m + b.1.1;
            if src.len() < e {
                None
            } else {
                let wp = src.subrange(hs, hs + nw);
                let ws = v2_weights(wp).0;
                let lp = src.subrange(n, m);
                let mp = src.subrange(m, e);
                if v2_load_result(wp) is Err || lit_load_result(u_part(ws), lp, b.0) is Err
                    || lmd_load_result(ws, mp, b.1) is Err {
                    None
                } else {
                    let lits = lit_run(u_part(ws), lp, b.0).0;
                    let lz = lz_run((h, 0, 0, 0), lits, lmd_run(ws, mp, b.1).0);
                    if lz is Ok && lz->Ok_0.1 <= b.0.0 && lz->Ok_0.1 <= lits.len() && lz->Ok_0.3
                        + lz->Ok_0.1 == b.2 {
                        Some((e as nat, lz->Ok_0.0))
                    } else {
                        None
                    }
                }
            }
        }
    }
}

/// `a` is a run of V2 blocks that decodes from the output `h0` to the output `h1`.
#[verifier::opaque]
pub open spec fn blocks_chain(a: Seq<u8>, h0: Seq<u8>, h1: Seq<u8>) -> bool
    decreases a.len(),
{
    if a.len() == 0 {
        h0 == h1
    } else {
        match v2_step(a, h0) {
            Some((n, h2)) => if 0 < n <= a.len() {
                blocks_chain(a.subrange(n as int, a.len() as int), h2, h1)
            } else {
                false
            },
            None => false,
        }
    }
}

/// The output that the stream `src` of V2 blocks, closed by the end of stream marker, decodes
/// to on top of the output `h`, if `src` is one.
#[verifier::opaque]
pub open spec fn v2_stream(src: Seq<u8>, h: Seq<u8>) -> Option<Seq<u8>>
    decreases src.len(),
{
    if src.len() < 4 {
        None
    } else if le_u32(src, 0) == BM_EOS {
        if src.len() == 4 {
            Some(h)
        } else {
            None
        }
    } else {
        match v2_step(src, h) {
            Some((n, h2)) => if 0 < n <= src.len() {
                v2_stream(src.subrange(n as int, src.len() as int), h2)
            } else {
                None
            },
            None => None,
        }
    }
}

/// A stream is the end of stream marker alone, or a V2 block followed by a stream.
pub proof fn lemma_v2_stream_head(src: Seq<u8>, h: Seq<u8>)
    requires
        v2_stream(src, h) is Some,
    ensures
        src.len() >= 4,
        le_u32(src, 0) == BM_EOS ==> src.len() == 4 && v2_stream(src, h) == Some(h),
        le_u32(src, 0) != BM_EOS ==> {
            &&& le_u32(src, 0) == BM_VX2
            &&& v2_step(src, h) is Some
            &&& 0 < (v2_step(src, h)->0).0 <= src.len()
            &&& v2_stream(
                src.subrange((v2_step(src, h)->0).0 as int, src.len() as int),
                (v2_step(src, h)->0).1,
            ) == v2_stream(src, h)
        },
{
    reveal(v2_stream);
    reveal(v2_step);
}

/// A block only appends to the output.
pub proof fn lemma_v2_step_prefix_out(src: Seq<u8>, h: Seq<u8>)
    requires
        v2_step(src, h) is Some,
    ensures
        (v2_step(src, h)->0).1.len() >= h.len(),
        (v2_step(src, h)->0).1.subrange(0, h.len() as int) == h,
{
    reveal(v2_step);
    let hs = V2_HEADER_SIZE as int;
    let hd = src.subrange(0, hs);
    let nw = v2_result(hd)->Ok_0.1 as int;
    let b = v2_view(hd);
    let n = hs + nw - 8;
    let m = n + b.0.1 + 8;
    let e = m + b.1.1;
    let wp = src.subrange(hs, hs + nw);
    let ws = v2_weights(wp).0;
    let lp = src.subrange(n, m);
    let mp = src.subrange(m, e);
    let lits = lit_run(u_part(ws), lp, b.0).0;
    super::fse_core::lemma_lz_run_prefix((h, 0, 0, 0), lits, lmd_run(ws, mp, b.1).0);
}

/// A block takes the bytes its header counts, and adds the raw bytes it declares to the output.
pub proof fn lemma_v2_step_sizes(src: Seq<u8>, h: Seq<u8>)
    requires
        v2_step(src, h) is Some,
    ensures
        src.len() >= V2_HEADER_SIZE,
        v2_result(src.subrange(0, V2_HEADER_SIZE as int)) is Ok,
        ({
            let hd = src.subrange(0, V2_HEADER_SIZE as int);
            let b = v2_view(hd);
            let nw = v2_result(hd)->Ok_0.1;
            &&& v2_result(hd)->Ok_0.0 == V2_HEADER_SIZE
            &&& (v2_step(src, h)->0).0 == V2_HEADER_SIZE + nw + b.0.1 + b.1.1
            &&& (v2_step(src, h)->0).1.len() == h.len() + b.2
        }),
{
    reveal(v2_step);
    let hs = V2_HEADER_SIZE as int;
    let hd = src.subrange(0, hs);
    let nw = v2_result(hd)->Ok_0.1 as int;
    let b = v2_view(hd);
    let n = hs + nw - 8;
    let m = n + b.0.1 + 8;
    let e = m + b.1.1;
    let wp = src.subrange(hs, hs + nw);
    let ws = v2_weights(wp).0;
    let lp = src.subrange(n, m);
    let mp = src.subrange(m, e);
    let lits = lit_run(u_part(ws), lp, b.0).0;
    super::lz_sem::lemma_lz_run_len((h, 0, 0, 0), lits, lmd_run(ws, mp, b.1).0);
}

/// A stream only appends to the output it starts from.
pub proof fn lemma_v2_stream_prefix(src: Seq<u8>, h: Seq<u8>)
    requires
        v2_stream(src, h) is Some,
    ensures
        v2_stream(src, h)->0.len() >= h.len(),
        v2_stream(src, h)->0.subrange(0, h.len() as int) == h,
    decreases src.len(),
{
    lemma_v2_stream_head(src, h);
    if le_u32(src, 0) == BM_EOS {
        assert(h.subrange(0, h.len() as int) =~= h);
    } else {
        let (n, h2) = v2_step(src, h)->0;
        lemma_v2_step_prefix_out(src, h);
        lemma_v2_stream_prefix(src.subrange(n as int, src.len() as int), h2);
        let o = v2_stream(src, h)->0;
        assert(o.subrange(0, h.len() as int) =~= o.subrange(0, h2.len() as int).subrange(0, h.len() as int));
    }
}

/// A block decodes the same on top of an output with anything before it.
pub proof fn lemma_v2_step_shift(src: Seq<u8>, h: Seq<u8>, o: Seq<u8>)
    requires
        v2_step(src, o) is Some,
    ensures
        v2_step(src, h + o) == Some(((v2_step(src, o)->0).0, h + (v2_step(src, o)->0).1)),
{
    reveal(v2_step);
    let hs = V2_HEADER_SIZE as int;
    let hd = src.subrange(0, hs);
    let nw = v2_result(hd)->Ok_0.1 as int;
    let b = v2_view(hd);
    let n = hs + nw - 8;
    let m = n + b.0.1 + 8;
    let e = m + b.1.1;
    let wp = src.subrange(hs, hs + nw);
    let ws = v2_weights(wp).0;
    let lp = src.subrange(n, m);
    let mp = src.subrange(m, e);
    let lits = lit_run(u_part(ws), lp, b.0).0;
    super::lz_sem::lemma_lz_run_shift(h, (o, 0, 0, 0), lits, lmd_run(ws, mp, b.1).0);
}

/// A stream decodes the same on top of an output with anything before it.
pub proof fn lemma_v2_stream_shift(src: Seq<u8>, h: Seq<u8>, o: Seq<u8>)
    requires
        v2_stream(src, o) is Some,
    ensures
        v2_stream(src, h + o) == Some(h + v2_stream(src, o)->0),
    decreases src.len(),
{
    lemma_v2_stream_head(src, o);
    reveal(v2_stream);
    if le_u32(src, 0) != BM_EOS {
        let (n, o2) = v2_step(src, o)->0;
        lemma_v2_step_shift(src, h, o);
        lemma_v2_stream_shift(src.subrange(n as int, src.len() as int), h, o2);
    }
}

/// Decoding the V2 blocks at the front of `src` on top of the output `h`, up to the first end
/// of stream marker: where the marker stands and the output before it, whatever follows it.
#[verifier::opaque]
pub open spec fn v2_run(src: Seq<u8>, h: Seq<u8>) -> Option<(nat, Seq<u8>)>
    decreases src.len(),
{
    if src.len() < 4 {
        None
    } else if le_u32(src, 0) == BM_EOS {
        Some((0, h))
    } else {
        match v2_step(src, h) {
            Some((n, h2)) => if 0 < n <= src.len() {
                match v2_run(src.subrange(n as int, src.len() as int), h2) {
                    Some((p, o)) => Some((n + p, o)),
                    None => None,
                }
            } else {
                None
            },
            None => None,
        }
    }
}

/// The V2 blocks up to the marker are the marker alone, or a block followed by V2 blocks up to
/// the marker.
pub proof fn lemma_v2_run_head(src: Seq<u8>, h: Seq<u8>)
    requires
        v2_run(src, h) is Some,
    ensures
        src.len() >= 4,
        (v2_run(src, h)->0).0 + 4 <= src.len(),
        le_u32(src, 0) == BM_EOS ==> v2_run(src, h) == Some((0nat, h)),
        le_u32(src, 0) != BM_EOS ==> {
            let (n, h2) = v2_step(src, h)->0;
            &&& v2_step(src, h) is Some
            &&& 0 < n <= src.len()
            &&& n <= (v2_run(src, h)->0).0
            &&& v2_run(src.subrange(n as int, src.len() as int), h2) == Some((
                ((v2_run(src, h)->0).0 - n) as nat,
                (v2_run(src, h)->0).1,
            ))
        },
    decreases src.len(),
{
    reveal(v2_run);
    if le_u32(src, 0) != BM_EOS {
        let (n, h2) = v2_step(src, h)->0;
        lemma_v2_run_head(src.subrange(n as int, src.len() as int), h2);
    }
}

/// A stream of V2 blocks followed by more bytes runs to the same marker with the same output.
pub proof fn lemma_v2_run_extra(a: Seq<u8>, x: Seq<u8>, h: Seq<u8>)
    requires
        v2_stream(a, h) is Some,
    ensures
        v2_run(a + x, h) == Some(((a.len() - 4) as nat, v2_stream(a, h)->0)),
    decreases a.len(),
{
    lemma_v2_stream_head(a, h);
    reveal(v2_run);
    let s = a + x;
    assert(le_u32(s, 0) == le_u32(a, 0));
    if le_u32(a, 0) != BM_EOS {
        let (n, h2) = v2_step(a, h)->0;
        lemma_v2_step_prefix(a, x, h);
        let rest = a.subrange(n as int, a.len() as int);
        lemma_v2_run_extra(rest, x, h2);
        lemma_v2_stream_head(rest, h2);
        assert(s.subrange(n as int, s.len() as int) =~= rest + x);
        assert(v2_step(s, h) == Some((n, h2)));
        assert(v2_run(s.subrange(n as int, s.len() as int), h2) == Some(((rest.len() - 4) as nat, v2_stream(a, h)->0)));
    } else {
        assert(v2_run(s, h) == Some((0nat, h)));
    }
}

/// A run of blocks from `h0` to `h1`, closed by the end of stream marker, is a stream that
/// decodes to `h1`.
pub proof fn lemma_chain_stream(a: Seq<u8>, e: Seq<u8>, h0: Seq<u8>, h1: Seq<u8>)
    requires
        blocks_chain(a, h0, h1),
        e.len() == 4,
        le_u32(e, 0) == BM_EOS,
    ensures
        v2_stream(a + e, h0) == Some(h1),
    decreases a.len(),
{
    reveal(v2_stream);
    if a.len() == 0 {
        lemma_chain_nil(a, h0, h1);
        assert(a + e =~= e);
    } else {
        lemma_chain_head(a, h0, h1);
        let n = (v2_step(a, h0)->0).0;
        let hm = (v2_step(a, h0)->0).1;
        lemma_v2_step_prefix(a, e, h0);
        let rest = a.subrange(n as int, a.len() as int);
        lemma_chain_stream(rest, e, hm, h1);
        lemma_subrange_append(a, e, n as int);
        lemma_v2_step_magic(a, h0);
        assert(le_u32(a + e, 0) == le_u32(a, 0));
    }
}

/// A block starts with the V2 magic bytes and a whole header.
pub proof fn lemma_v2_step_magic(src: Seq<u8>, h: Seq<u8>)
    requires
        v2_step(src, h) is Some,
    ensures
        src.len() >= V2_HEADER_SIZE,
        le_u32(src, 0) == BM_VX2,
{
    reveal(v2_step);
}

/// A block decodes the same whatever follows it.
pub proof fn lemma_v2_step_prefix(a: Seq<u8>, r: Seq<u8>, h: Seq<u8>)
    requires
        v2_step(a, h) is Some,
        (v2_step(a, h)->0).0 <= a.len(),
    ensures
        v2_step(a + r, h) == v2_step(a, h),
{
    reveal(v2_step);
    let s = a + r;
    let hs = V2_HEADER_SIZE as int;
    assert(s.subrange(0, hs) =~= a.subrange(0, hs));
    assert(le_u32(s, 0) == le_u32(a, 0));
    let hd = a.subrange(0, hs);
    let nw = v2_result(hd)->Ok_0.1 as int;
    let b = v2_view(hd);
    let n = hs + nw - 8;
    let m = n + b.0.1 + 8;
    let e = m + b.1.1;
    assert(s.subrange(hs, hs + nw) =~= a.subrange(hs, hs + nw));
    assert(s.subrange(n, m) =~= a.subrange(n, m));
    assert(s.subrange(m, e) =~= a.subrange(m, e));
}

/// The first block of a nonempty run.
proof fn lemma_chain_head(a: Seq<u8>, h0: Seq<u8>, h1: Seq<u8>)
    requires
        blocks_chain(a, h0, h1),
        a.len() > 0,
    ensures
        v2_step(a, h0) is Some,
        0 < (v2_step(a, h0)->0).0 <= a.len(),
        blocks_chain(
            a.subrange((v2_step(a, h0)->0).0 as int, a.len() as int),
            (v2_step(a, h0)->0).1,
            h1,
        ),
{
    reveal(blocks_chain);
}

/// A block followed by a run is a run.
proof fn lemma_chain_cons(a: Seq<u8>, h0: Seq<u8>, h2: Seq<u8>, n: nat, hm: Seq<u8>)
    requires
        v2_step(a, h0) == Some((n, hm)),
        0 < n <= a.len(),
        blocks_chain(a.subrange(n as int, a.len() as int), hm, h2),
    ensures
        blocks_chain(a, h0, h2),
{
    reveal(blocks_chain);
}

/// The empty run holds only of equal outputs.
proof fn lemma_chain_nil(a: Seq<u8>, h0: Seq<u8>, h1: Seq<u8>)
    requires
        blocks_chain(a, h0, h1),
        a.len() == 0,
    ensures
        h0 == h1,
{
    reveal(blocks_chain);
}

/// Dropping a prefix of the first part of a concatenation.
proof fn lemma_subrange_append(a: Seq<u8>, b: Seq<u8>, n: int)
    requires
        0 <= n <= a.len(),
    ensures
        (a + b).subrange(n, (a + b).len() as int) == a.subrange(n, a.len() as int) + b,
{
    assert((a + b).subrange(n, (a + b).len() as int) =~= a.subrange(n, a.len() as int) + b);
}

/// Runs of blocks chain.
pub proof fn lemma_chain_concat(a: Seq<u8>, b: Seq<u8>, h0: Seq<u8>, h1: Seq<u8>, h2: Seq<u8>)
    requires
        blocks_chain(a, h0, h1),
        blocks_chain(b, h1, h2),
    ensures
        blocks_chain(a + b, h0, h2),
    decreases a.len(),
{
    if a.len() == 0 {
        lemma_chain_nil(a, h0, h1);
        assert(a + b =~= b);
    } else {
        lemma_chain_head(a, h0, h1);
        let n = (v2_step(a, h0)->0).0;
        let hm = (v2_step(a, h0)->0).1;
        lemma_v2_step_prefix(a, b, h0);
        let rest = a.subrange(n as int, a.len() as int);
        lemma_chain_concat(rest, b, hm, h1, h2);
        lemma_subrange_append(a, b, n as int);
        lemma_chain_cons(a + b, h0, h2, n, hm);
    }
}

/// Output `d2` extends `d1`, which extends `d0`: the runs of blocks appended in the two steps
/// make one run.
pub proof fn lemma_chain_append(
    d0: Seq<u8>,
    d1: Seq<u8>,
    d2: Seq<u8>,
    h0: Seq<u8>,
    h1: Seq<u8>,
    h2: Seq<u8>,
)
    requires
        d0.len() <= d1.len() <= d2.len(),
        d1.subrange(0, d0.len() as int) == d0,
        d2.subrange(0, d1.len() as int) == d1,
        blocks_chain(d1.subrange(d0.len() as int, d1.len() as int), h0, h1),
        blocks_chain(d2.subrange(d1.len() as int, d2.len() as int), h1, h2),
    ensures
        d2.subrange(0, d0.len() as int) == d0,
        blocks_chain(d2.subrange(d0.len() as int, d2.len() as int), h0, h2),
{
    let a = d1.subrange(d0.len() as int, d1.len() as int);
    let b = d2.subrange(d1.len() as int, d2.len() as int);
    lemma_chain_concat(a, b, h0, h1, h2);
    assert(d2.subrange(d0.len() as int, d2.len() as int) =~= a + b);
    assert(d2.subrange(0, d0.len() as int) =~= d1.subrange(0, d0.len() as int));
}

/// The empty run decodes any output to itself.
pub proof fn lemma_chain_empty(h: Seq<u8>)
    ensures
        blocks_chain(Seq::empty(), h, h),
{
    reveal(blocks_chain);
}

/// A single block that decodes from `h0` to `h1` is a run.
pub proof fn lemma_chain_one(a: Seq<u8>, h0: Seq<u8>, h1: Seq<u8>)
    requires
        v2_step(a, h0) == Some((a.len(), h1)),
        a.len() > 0,
    ensures
        blocks_chain(a, h0, h1),
{
    reveal_with_fuel(blocks_chain, 2);
    reveal(blocks_chain);
    assert(a.subrange(a.len() as int, a.len() as int) =~= Seq::<u8>::empty());
}

/// A block that the backend emitted, whose literals and triples LZ-decode from the history
/// `hist` to `data`, decodes from `hist` to `data`.
pub proof fn lemma_emitted_step(
    blk: Seq<u8>,
    hist: Seq<u8>,
    data: Seq<u8>,
    lits: Seq<u8>,
    packs: Seq<LmdPack>,
)
    requires
        v2_block_decodes(blk, lits, triples_of(packs), lits.len() + pack_match_total(packs)),
        block_lz(hist, lits, packs) == Ok::<super::fse_core::LzState, crate::error::Error>(
            (data, lits.len(), pack_dist(packs), pack_match_total(packs)),
        ),
    ensures
        v2_step(blk, hist) == Some((blk.len(), data)),
{
    reveal(v2_block_decodes);
    reveal(v2_step);
    let hs = V2_HEADER_SIZE as int;
    let hd = blk.subrange(0, hs);
    let nw = v2_result(hd)->Ok_0.1 as int;
    let b = v2_view(hd);
    let n = hs + nw - 8;
    let m = n + b.0.1 + 8;
    let wp = blk.subrange(hs, hs + nw);
    let ws = v2_weights(wp).0;
    let lp = blk.subrange(n, m);
    let dec = lit_run(u_part(ws), lp, b.0).0;
    assert(dec =~= lits + dec.subrange(lits.len() as int, dec.len() as int));
    lemma_lz_run_ext((hist, 0, 0, 0), lits, dec.subrange(lits.len() as int, dec.len() as int), triples_of(packs));
    let e = m + b.1.1;
    assert(e == blk.len());
    let mp = blk.subrange(m, e);
    assert(lmd_run(ws, mp, b.1).0 == triples_of(packs));
    assert(lits.len() <= round4(lits.len()));
}

} // verus!
