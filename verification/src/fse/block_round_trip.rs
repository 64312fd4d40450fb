use vstd::prelude::*;

use crate::base::BM_VX2;
use crate::bits::model::bytes_value;
use crate::le::le_u32;
use crate::lmd::LmdPack;

use super::block::{block_ok, lemma_v2_header_roundtrip, v2_result, v2_stored, v2_view, BlockView};
use super::buffer::pack_bounded;
use super::constants::{
    D_STATES, L_STATES, M_STATES, N_WEIGHTS, U_STATES, V2_HEADER_SIZE,
    V2_WEIGHT_PAYLOAD_BYTES_MAX,
};
use super::literals::{lit_enc, lit_load_result, lit_run, lit_states, round4};
use super::lmd_round_trip::{lemma_lmds_round_trip, lmd_tables_full, triple_coded, triples_coded};
use super::lmds::{lmd_enc, lmd_load_result, lmd_run, lmd_states, triples_of};
use super::round_trip::{lemma_count_pos, lemma_literal_block_round_trip};
use super::tables::{lemma_d_sym_range, lemma_l_sym_range, lemma_m_sym_range};
use super::weights::{
    codable, count, d_part, d_values, l_part, l_values, lemma_v2_roundtrip, m_part, m_values,
    normalized_for, u_part, u_values, v2_load_result, v2_weights, valid_totals, weights_stream,
};

verus! {

/// The V2 block `blk` is read back by the decoder's header, weight, literal and LMD stages as
/// the literals `lits`, padded to a multiple of four, and the triples `t`, and it declares `raw`
/// raw bytes.
#[verifier::opaque]
pub open spec fn v2_block_decodes(blk: Seq<u8>, lits: Seq<u8>, t: Seq<(nat, nat, nat)>, raw: nat) -> bool {
    let h = blk.subrange(0, V2_HEADER_SIZE as int);
    let b = v2_view(h);
    let nw = v2_result(h)->Ok_0.1;
    let wp = blk.subrange(V2_HEADER_SIZE as int, V2_HEADER_SIZE + nw);
    let ws = v2_weights(wp).0;
    let n = V2_HEADER_SIZE + nw - 8;
    let m = n + b.0.1 + 8;
    let lp = blk.subrange(n, m);
    let mp = blk.subrange(m, blk.len() as int);
    &&& blk.len() >= V2_HEADER_SIZE
    &&& le_u32(blk, 0) == BM_VX2
    &&& v2_result(h) is Ok
    &&& v2_result(h)->Ok_0.0 == V2_HEADER_SIZE
    &&& blk.len() == m + b.1.1
    &&& b.1.1 >= 8
    &&& b.2 == raw
    &&& b.0.0 == round4(lits.len())
    &&& v2_load_result(wp) is Ok
    &&& lit_load_result(u_part(ws), lp, b.0) is Ok
    &&& lit_run(u_part(ws), lp, b.0).0.len() == round4(lits.len())
    &&& lit_run(u_part(ws), lp, b.0).0.subrange(0, lits.len() as int) == lits
    &&& lmd_load_result(ws, mp, b.1) is Ok
    &&& lmd_run(ws, mp, b.1).0 == t
}

/// The triples of `packs` have symbols with states in weights normalized for them.
proof fn lemma_packs_coded(ws: Seq<u16>, packs: Seq<LmdPack>)
    requires
        ws.len() == N_WEIGHTS,
        normalized_for(l_part(ws), l_values(packs), L_STATES),
        normalized_for(m_part(ws), m_values(packs), M_STATES),
        normalized_for(d_part(ws), d_values(packs), D_STATES),
        forall|i: int| 0 <= i < packs.len() ==> #[trigger] pack_bounded(packs[i]),
    ensures
        triples_coded(ws, triples_of(packs)),
        packs.len() > 0 ==> lmd_tables_full(ws),
{
    let t = triples_of(packs);
    assert forall|i: int| 0 <= i < t.len() implies #[trigger] triple_coded(ws, t[i]) by {
        let p = packs[i];
        assert(pack_bounded(p));
        lemma_l_sym_range(p.0.value() as nat);
        lemma_m_sym_range(p.1.value() as nat);
        lemma_d_sym_range(p.2.value() as nat);
        lemma_count_pos(l_values(packs), i);
        lemma_count_pos(m_values(packs), i);
        lemma_count_pos(d_values(packs), i);
        assert(l_part(ws)[l_values(packs)[i] as int] != 0);
        assert(m_part(ws)[m_values(packs)[i] as int] != 0);
        assert(d_part(ws)[d_values(packs)[i] as int] != 0);
    }
    if packs.len() > 0 {
        assert(l_values(packs).len() > 0);
        assert(m_values(packs).len() > 0);
        assert(d_values(packs).len() > 0);
    }
}

/// The header and weights of a stored block read back.
proof fn lemma_block_head(hdr: Seq<u8>, wb: Seq<u8>, body: Seq<u8>, b: BlockView, nw: u32, ws: Seq<u16>)
    requires
        v2_stored(hdr, b, nw),
        block_ok(b),
        b.1.1 >= 8,
        nw <= V2_WEIGHT_PAYLOAD_BYTES_MAX,
        wb.len() == nw,
        bytes_value(wb) == weights_stream(ws).0,
        0 <= 8 * nw - weights_stream(ws).1 < 8,
        ws.len() == N_WEIGHTS,
        codable(ws),
        valid_totals(ws),
    ensures
        ({
            let blk = hdr + wb + body;
            let h = blk.subrange(0, V2_HEADER_SIZE as int);
            &&& v2_result(h) == Ok::<(u32, u32), crate::error::Error>((V2_HEADER_SIZE, nw))
            &&& v2_view(h) == b
            &&& blk.subrange(V2_HEADER_SIZE as int, V2_HEADER_SIZE + nw) == wb
            &&& v2_load_result(wb) is Ok
            &&& v2_weights(wb).0 == ws
        }),
{
    let blk = hdr + wb + body;
    let hs = V2_HEADER_SIZE as int;
    assert(blk.subrange(0, hs) =~= hdr);
    lemma_v2_header_roundtrip(b, nw, hdr);
    assert(blk.subrange(hs, hs + nw) =~= wb);
    lemma_v2_roundtrip(ws, N_WEIGHTS as nat);
    assert(ws.subrange(0, N_WEIGHTS as int) =~= ws);
}

/// Block round trip: a V2 block made of a stored header, stored weights and the literal and
/// LMD payloads stored with encoders built from those weights is read back by the decoder's
/// loading stages as the literals and triples it was made from.
#[verifier::rlimit(40)]
pub proof fn lemma_v2_block_round_trip(
    hdr: Seq<u8>,
    wb: Seq<u8>,
    body: Seq<u8>,
    b: BlockView,
    nw: u32,
    ws: Seq<u16>,
    lits: Seq<u8>,
    padded: Seq<u8>,
    packs: Seq<LmdPack>,
)
    requires
        v2_stored(hdr, b, nw),
        block_ok(b),
        b.1.1 >= 8,
        nw <= V2_WEIGHT_PAYLOAD_BYTES_MAX,
        wb.len() == nw,
        bytes_value(wb) == weights_stream(ws).0,
        0 <= 8 * nw - weights_stream(ws).1 < 8,
        ws.len() == N_WEIGHTS,
        codable(ws),
        valid_totals(ws),
        normalized_for(l_part(ws), l_values(packs), L_STATES),
        normalized_for(m_part(ws), m_values(packs), M_STATES),
        normalized_for(d_part(ws), d_values(packs), D_STATES),
        normalized_for(u_part(ws), u_values(lits), U_STATES),
        forall|i: int| 0 <= i < packs.len() ==> #[trigger] pack_bounded(packs[i]),
        lits.len() > 0 ==> padded == lits + Seq::new(
            (round4(lits.len()) - lits.len()) as nat,
            |i: int| lits[0],
        ),
        lits.len() == 0 ==> padded == Seq::<u8>::empty(),
        ({
            let n4 = round4(lits.len());
            let (lst, lv, ll) = lit_enc(u_part(ws), padded, n4 / 4);
            let (mst, mv, ml) = lmd_enc(ws, triples_of(packs), packs.len());
            let m1 = b.0.1 as int;
            let m2 = m1 + b.1.1;
            &&& body.len() == m2
            &&& b.0.0 == n4
            &&& b.0.3 == lit_states(lst)
            &&& bytes_value(body.subrange(0, m1)) == lv
            &&& 8 * b.0.1 == ll + b.0.2
            &&& b.1.0 == packs.len()
            &&& b.1.3 == lmd_states(mst)
            &&& body.subrange(m1, m1 + 8) == Seq::new(8, |i: int| 0u8)
            &&& bytes_value(body.subrange(m1 + 8, m2)) == mv
            &&& 8 * (b.1.1 - 8) == ml + b.1.2
        }),
    ensures
        v2_block_decodes(hdr + wb + body, lits, triples_of(packs), b.2 as nat),
{
    let blk = hdr + wb + body;
    let t = triples_of(packs);
    lemma_block_head(hdr, wb, body, b, nw, ws);
    assert(blk.subrange(V2_HEADER_SIZE + nw, blk.len() as int) =~= body);
    lemma_block_lits(blk, body, b, nw, ws, lits, padded);
    lemma_block_lmds(blk, body, b, nw, ws, packs);
    assert(blk.len() == V2_HEADER_SIZE + nw + b.0.1 + b.1.1);
    assert(le_u32(blk, 0) == le_u32(hdr, 0));
    reveal(v2_block_decodes);
}

/// The literal payload of a stored block reads back.
proof fn lemma_block_lits(
    blk: Seq<u8>,
    body: Seq<u8>,
    b: BlockView,
    nw: u32,
    ws: Seq<u16>,
    lits: Seq<u8>,
    padded: Seq<u8>,
)
    requires
        block_ok(b),
        blk.len() == V2_HEADER_SIZE + nw + body.len(),
        blk.subrange(V2_HEADER_SIZE + nw, blk.len() as int) == body,
        ws.len() == N_WEIGHTS,
        normalized_for(u_part(ws), u_values(lits), U_STATES),
        lits.len() > 0 ==> padded == lits + Seq::new(
            (round4(lits.len()) - lits.len()) as nat,
            |i: int| lits[0],
        ),
        lits.len() == 0 ==> padded == Seq::<u8>::empty(),
        ({
            let n4 = round4(lits.len());
            let (lst, lv, ll) = lit_enc(u_part(ws), padded, n4 / 4);
            let m1 = b.0.1 as int;
            &&& body.len() >= m1
            &&& b.0.0 == n4
            &&& b.0.3 == lit_states(lst)
            &&& bytes_value(body.subrange(0, m1)) == lv
            &&& 8 * b.0.1 == ll + b.0.2
        }),
    ensures
        ({
            let n = V2_HEADER_SIZE + nw - 8;
            let lp = blk.subrange(n, n + b.0.1 + 8);
            &&& lit_load_result(u_part(ws), lp, b.0) is Ok
            &&& lit_run(u_part(ws), lp, b.0).0.len() == round4(lits.len())
            &&& lit_run(u_part(ws), lp, b.0).0.subrange(0, lits.len() as int) == lits
        }),
{
    let hs = V2_HEADER_SIZE as int;
    let n = hs + nw - 8;
    let m1 = b.0.1 as int;
    let pre = blk.subrange(n, n + 8);
    let lpay = body.subrange(0, m1);
    assert(blk.subrange(n, n + m1 + 8) =~= pre + lpay);
    let u: u8 = if lits.len() > 0 { lits[0] } else { 0 };
    if lits.len() > 0 {
        lemma_count_pos(u_values(lits), 0);
        assert(u_values(lits)[0] == lits[0] as nat);
    } else {
        assert(lits + Seq::new((round4(lits.len()) - lits.len()) as nat, |i: int| u) =~= Seq::<u8>::empty());
    }
    lemma_literal_block_round_trip(u_part(ws), lits, u, padded, pre, lpay, b.0);
}

/// The LMD payload of a stored block reads back.
proof fn lemma_block_lmds(
    blk: Seq<u8>,
    body: Seq<u8>,
    b: BlockView,
    nw: u32,
    ws: Seq<u16>,
    packs: Seq<LmdPack>,
)
    requires
        block_ok(b),
        blk.len() == V2_HEADER_SIZE + nw + body.len(),
        blk.subrange(V2_HEADER_SIZE + nw, blk.len() as int) == body,
        ws.len() == N_WEIGHTS,
        normalized_for(l_part(ws), l_values(packs), L_STATES),
        normalized_for(m_part(ws), m_values(packs), M_STATES),
        normalized_for(d_part(ws), d_values(packs), D_STATES),
        forall|i: int| 0 <= i < packs.len() ==> #[trigger] pack_bounded(packs[i]),
        ({
            let (mst, mv, ml) = lmd_enc(ws, triples_of(packs), packs.len());
            let m1 = b.0.1 as int;
            let m2 = m1 + b.1.1;
            &&& body.len() == m2
            &&& b.1.0 == packs.len()
            &&& b.1.3 == lmd_states(mst)
            &&& body.subrange(m1, m1 + 8) == Seq::new(8, |i: int| 0u8)
            &&& bytes_value(body.subrange(m1 + 8, m2)) == mv
            &&& 8 * (b.1.1 - 8) == ml + b.1.2
        }),
    ensures
        ({
            let m = V2_HEADER_SIZE + nw - 8 + b.0.1 + 8;
            let mp = blk.subrange(m, blk.len() as int);
            &&& lmd_load_result(ws, mp, b.1) is Ok
            &&& lmd_run(ws, mp, b.1).0 == triples_of(packs)
        }),
{
    let hs = V2_HEADER_SIZE as int;
    let n = hs + nw - 8;
    let m1 = b.0.1 as int;
    let t = triples_of(packs);
    lemma_packs_coded(ws, packs);
    let m2 = m1 + b.1.1;
    let zeros = body.subrange(m1, m1 + 8);
    let mpay = body.subrange(m1 + 8, m2);
    assert(blk.subrange(n + m1 + 8, blk.len() as int) =~= zeros + mpay);
    lemma_lmds_round_trip(ws, t, zeros, mpay, b.1);
}

} // verus!
