use vstd::prelude::*;

use crate::lmd::LmdPack;

use super::block::{block_ok, v2_stored, BlockView};
use super::buffer::Buffer;
use super::constants::{MAX_D_VALUE, V2_HEADER_SIZE, V2_WEIGHT_PAYLOAD_BYTES_MAX};
use super::encoder::Encoder;
use super::literals::round4;
use super::weights::{lemma_valid_codable, Weights};
use super::block_round_trip::{lemma_v2_block_round_trip, v2_block_decodes};
use super::stream::{blocks_chain, lemma_chain_concat, lemma_chain_empty, lemma_chain_one, lemma_emitted_step};
use crate::lz::lz_match;
use super::lmds::triples_of;

verus! {

/// FSE block encoder backend: buffers literals and matches, and emits V2 blocks.
pub struct FseBackend {
    buffer: Buffer,
    weights: Weights,
    encoder: Encoder,
}

/// Where the weights and the payloads of a block stand in `dst` after they are stored.
proof fn lemma_write_layout(d0: Seq<u8>, d2: Seq<u8>, d3: Seq<u8>, m1: int, l2: int)
    requires
        d2.len() >= d0.len(),
        d2.subrange(0, d0.len() as int) == d0,
        d3.len() == d2.len() + m1 + l2,
        d3.subrange(0, d2.len() as int) == d2,
        0 <= m1,
        8 <= l2,
    ensures
        ({
            let wb = d2.subrange(d0.len() as int, d2.len() as int);
            let body = d3.subrange(d2.len() as int, d3.len() as int);
            let m0 = d2.len() as int;
            &&& body.subrange(0, m1) == d3.subrange(m0, m0 + m1)
            &&& body.subrange(m1, m1 + 8) == d3.subrange(m0 + m1, m0 + m1 + 8)
            &&& body.subrange(m1 + 8, m1 + l2) == d3.subrange(m0 + m1 + 8, m0 + m1 + l2)
            &&& d3.subrange(d0.len() as int, d3.len() as int) == wb + body
            &&& d3.subrange(0, d0.len() as int) == d0
        }),
{
    let wb = d2.subrange(d0.len() as int, d2.len() as int);
    let body = d3.subrange(d2.len() as int, d3.len() as int);
    let m0 = d2.len() as int;
    assert(body.subrange(0, m1) =~= d3.subrange(m0, m0 + m1));
    assert(body.subrange(m1, m1 + 8) =~= d3.subrange(m0 + m1, m0 + m1 + 8));
    assert(body.subrange(m1 + 8, m1 + l2) =~= d3.subrange(m0 + m1 + 8, m0 + m1 + l2));
    assert(d3.subrange(d0.len() as int, d2.len() as int) =~= wb);
    assert(d3.subrange(d0.len() as int, d3.len() as int) =~= wb + body);
    assert(d3.subrange(0, d0.len() as int) =~= d2.subrange(0, d0.len() as int));
}

/// Most bytes a V2 block of `l` literals and `m` triples takes.
pub open spec fn block_bound(l: nat, m: nat) -> nat {
    2724 + 2 * l + 7 * m
}

/// Most bytes that pushing `l` literals and a match of `m` bytes adds to the encoder's output
/// and its current block together.
pub open spec fn push_cost(l: nat, m: nat) -> nat {
    3 * l + 8 * (l / 315) + 8 * (m / 2359) + 16
}

/// One push step from `(q0, n0)` to `(q1, n1)` within a push of `ml` match bytes: the quotients
/// of the part pushed before and of the step add up to at most those of the whole.
proof fn lemma_step_cost(q0: int, q1: int, n0: int, n1: int, ml: int)
    requires
        0 <= q0 <= q1,
        0 <= n1 <= n0 <= ml,
    ensures
        q0 / 315 + (q1 - q0) / 315 <= q1 / 315,
        (ml - n0) / 2359 + (n0 - n1) / 2359 <= (ml - n1) / 2359,
{
    crate::kit::lemma_quot(q0, q1 - q0, 315);
    crate::kit::lemma_quot(ml - n0, n0 - n1, 2359);
}

/// A header, weights of at most their limit and payloads within the limits of their counts
/// come to at most `block_bound` bytes.
proof fn lemma_block_size(l: nat, m: nat, lp: nat, mp: nat, nw: nat)
    requires
        lp <= super::block::literal_limit(round4(l)),
        mp <= super::block::lmd_limit(m),
        nw <= V2_WEIGHT_PAYLOAD_BYTES_MAX,
    ensures
        V2_HEADER_SIZE + nw + lp + mp <= block_bound(l, m),
{
    let r = round4(l) as int;
    let l = l as int;
    let m = m as int;
    assert(r <= l + 3) by {
        vstd::arithmetic::div_mod::lemma_fundamental_div_mod(l + 3, 4);
        vstd::arithmetic::div_mod::lemma_mod_bound(l + 3, 4);
    }
    assert((r * 10 + 7) / 8 <= 2 * l + 5) by {
        vstd::arithmetic::div_mod::lemma_div_is_ordered(r * 10 + 7, l * 10 + 37, 8);
        vstd::arithmetic::div_mod::lemma_fundamental_div_mod(l * 10 + 37, 8);
        vstd::arithmetic::div_mod::lemma_mod_bound(l * 10 + 37, 8);
    }
    assert((m * 54 + 7) / 8 <= 7 * m + 1) by {
        vstd::arithmetic::div_mod::lemma_fundamental_div_mod(m * 54 + 7, 8);
        vstd::arithmetic::div_mod::lemma_mod_bound(m * 54 + 7, 8);
    }
}

/// An emitted block whose literals and triples decode from `hist` to `data` is a run of blocks
/// from `hist` to `data`.
proof fn lemma_emitted_chain(blk: Seq<u8>, hist: Seq<u8>, data: Seq<u8>, lits: Seq<u8>, packs: Seq<LmdPack>)
    requires
        v2_block_decodes(blk, lits, triples_of(packs), lits.len() + super::buffer::pack_match_total(packs)),
        super::lz_sem::block_lz(hist, lits, packs) == Ok::<super::fse_core::LzState, crate::error::Error>(
            (data, lits.len(), super::buffer::pack_dist(packs), super::buffer::pack_match_total(packs)),
        ),
        blk.len() > 0,
    ensures
        blocks_chain(blk, hist, data),
{
    lemma_emitted_step(blk, hist, data, lits, packs);
    lemma_chain_one(blk, hist, data);
}

impl FseBackend {
    /// The literals waiting in the current block.
    pub closed spec fn literals(&self) -> Seq<u8> {
        self.buffer.literals()
    }

    /// The packed triples waiting in the current block.
    pub closed spec fn lmds(&self) -> Seq<LmdPack> {
        self.buffer.lmds()
    }

    /// Raw bytes the current block expands to.
    pub closed spec fn raw_len(&self) -> nat {
        self.buffer.raw_len()
    }

    /// The bytes that the blocks emitted so far stand for.
    pub closed spec fn hist(&self) -> Seq<u8> {
        self.buffer.hist()
    }

    /// The bytes pushed so far: those of the blocks emitted and those of the current block.
    pub closed spec fn data(&self) -> Seq<u8> {
        self.buffer.data()
    }

    /// What the current block may still cost: its bound, with room for what it takes to fill it.
    pub closed spec fn cost(&self) -> nat {
        block_bound(self.literals().len(), self.lmds().len()) + self.literals().len() + self.lmds().len()
    }

    /// Internal consistency.
    pub closed spec fn wf(&self) -> bool {
        &&& self.buffer.wf()
        &&& self.buffer.sound()
        &&& self.weights.wf()
    }

    /// The literals waiting in the current block.
    pub fn buffered_literals(&self) -> (r: &[u8])
        requires
            self.wf(),
        ensures
            r@ == self.literals(),
    {
        self.buffer.literal_slice()
    }

    /// The packed triples waiting in the current block.
    pub fn buffered_lmds(&self) -> (r: &[LmdPack])
        requires
            self.wf(),
        ensures
            r@ == self.lmds(),
    {
        self.buffer.lmd_slice()
    }

    /// Stores the weights and the payloads of the current block onto `dst`: returns the block
    /// header.
    #[verifier::rlimit(100)]
    #[verifier::spinoff_prover]
    fn write_block(&mut self, dst: &mut Vec<u8>) -> (hdr: Vec<u8>)
        requires
            old(self).wf(),
        ensures
            final(self).wf(),
            final(self).literals() == old(self).literals(),
            final(self).lmds() == old(self).lmds(),
            final(self).hist() == old(self).hist(),
            final(self).data() == old(self).data(),
            final(dst)@.len() >= old(dst)@.len(),
            final(dst)@.subrange(0, old(dst)@.len() as int) == old(dst)@,
            hdr@.len() == V2_HEADER_SIZE,
            exists|b: BlockView, nw: u32|
                {
                    &&& #[trigger] v2_stored(hdr@, b, nw)
                    &&& final(dst)@.len() == old(dst)@.len() + nw + b.0.1 + b.1.1
                    &&& block_ok(b)
                    &&& b.1.1 >= 8
                    &&& nw <= V2_WEIGHT_PAYLOAD_BYTES_MAX
                    &&& b.2 == old(self).raw_len()
                    &&& b.0.0 == round4(old(self).literals().len())
                    &&& b.1.0 == old(self).lmds().len()
                },
            v2_block_decodes(
                hdr@ + final(dst)@.subrange(old(dst)@.len() as int, final(dst)@.len() as int),
                old(self).literals(),
                triples_of(old(self).lmds()),
                old(self).raw_len(),
            ),
    {
        let ghost d0 = dst@;
        let ghost lits0 = self.buffer.literals();
        let ghost packs = self.buffer.lmds();
        self.buffer.pad();
        let ghost padded = self.buffer.padded_literals();
        proof {
            self.buffer.lemma_lmds_bounded();
        }
        self.buffer.init_weights(&mut self.weights);
        proof {
            lemma_valid_codable(self.weights@);
        }
        let ghost ws = self.weights@;
        let nw = self.weights.store_v2_short(dst);
        self.encoder.init(&self.weights);
        let ghost d2 = dst@;
        let block = self.buffer.store(dst, &self.encoder);
        let mut hdr = vec![0u8; V2_HEADER_SIZE as usize];
        block.store_v2(hdr.as_mut_slice(), nw);
        proof {
            let wb = d2.subrange(d0.len() as int, d2.len() as int);
            let body = dst@.subrange(d2.len() as int, dst@.len() as int);
            lemma_write_layout(d0, d2, dst@, block@.0.1 as int, block@.1.1 as int);
            assert(self.encoder.weights() == ws);
            assert(self.buffer.padded_literals() == padded);
            assert(self.buffer.literals() == lits0);
            assert(self.buffer.lmds() == packs);
            lemma_v2_block_round_trip(hdr@, wb, body, block@, nw, ws, lits0, padded, packs);
            assert(hdr@ + wb + body =~= hdr@ + dst@.subrange(d0.len() as int, dst@.len() as int));
        }
        hdr
    }

    /// Emits the current block as a V2 block appended to `dst` and empties it.
    #[verifier::rlimit(40)]
    pub fn emit_block_v2(&mut self, dst: &mut Vec<u8>)
        requires
            old(self).wf(),
        ensures
            final(self).wf(),
            final(self).literals() == Seq::<u8>::empty(),
            final(self).lmds() == Seq::<LmdPack>::empty(),
            final(dst)@.len() >= old(dst)@.len() + V2_HEADER_SIZE,
            final(dst)@.len() <= old(dst)@.len() + block_bound(old(self).literals().len(), old(self).lmds().len()),
            final(dst)@.subrange(0, old(dst)@.len() as int) == old(dst)@,
            exists|b: BlockView, nw: u32|
                {
                    &&& #[trigger] v2_stored(
                        final(dst)@.subrange(
                            old(dst)@.len() as int,
                            old(dst)@.len() + V2_HEADER_SIZE,
                        ),
                        b,
                        nw,
                    )
                    &&& block_ok(b)
                    &&& b.1.1 >= 8
                    &&& nw <= V2_WEIGHT_PAYLOAD_BYTES_MAX
                    &&& b.2 == old(self).raw_len()
                    &&& b.0.0 == round4(old(self).literals().len())
                    &&& b.1.0 == old(self).lmds().len()
                },
            v2_block_decodes(
                final(dst)@.subrange(old(dst)@.len() as int, final(dst)@.len() as int),
                old(self).literals(),
                triples_of(old(self).lmds()),
                old(self).raw_len(),
            ),
            final(self).hist() == old(self).data(),
            final(self).data() == old(self).data(),
            blocks_chain(
                final(dst)@.subrange(old(dst)@.len() as int, final(dst)@.len() as int),
                old(self).hist(),
                old(self).data(),
            ),
    {
        proof {
            self.buffer.lemma_block_lz();
        }
        let mark = dst.len();
        let zeros = vec![0u8; V2_HEADER_SIZE as usize];
        dst.extend_from_slice(zeros.as_slice());
        let ghost d1 = dst@;
        let ghost nl = self.literals().len();
        let ghost nm = self.lmds().len();
        let hdr = self.write_block(dst);
        let ghost d3 = dst@;
        proof {
            let (b, nw) = choose|b: BlockView, nw: u32|
                {
                    &&& #[trigger] v2_stored(hdr@, b, nw)
                    &&& d3.len() == d1.len() + nw + b.0.1 + b.1.1
                    &&& block_ok(b)
                    &&& b.1.1 >= 8
                    &&& nw <= V2_WEIGHT_PAYLOAD_BYTES_MAX
                    &&& b.2 == old(self).raw_len()
                    &&& b.0.0 == round4(nl)
                    &&& b.1.0 == nm
                };
            lemma_block_size(nl, nm, b.0.1 as nat, b.1.1 as nat, nw as nat);
        }
        let _len = dst.len();
        let mut i: usize = 0;
        while i < V2_HEADER_SIZE as usize
            invariant
                i <= V2_HEADER_SIZE,
                hdr@.len() == V2_HEADER_SIZE,
                dst@.len() == d3.len(),
                d3.len() <= usize::MAX,
                d3.len() >= mark + V2_HEADER_SIZE,
                forall|j: int| 0 <= j < d3.len() && !(mark <= j < mark + i) ==> #[trigger] dst@[j] == d3[j],
                forall|j: int| mark <= j < mark + i ==> #[trigger] dst@[j] == hdr@[j - mark],
            decreases V2_HEADER_SIZE - i,
        {
            dst.set(mark + i, hdr[i]);
            i = i + 1;
        }
        self.buffer.reset();
        proof {
            assert(dst@.subrange(mark as int, mark + V2_HEADER_SIZE) =~= hdr@);
            assert(d1.subrange(0, mark as int) =~= old(dst)@);
            assert(d3.subrange(0, mark as int) =~= d1.subrange(0, mark as int));
            assert(dst@.subrange(0, mark as int) =~= d3.subrange(0, mark as int));
            assert(dst@.subrange(mark + V2_HEADER_SIZE, dst@.len() as int) =~= d3.subrange(
                d1.len() as int,
                d3.len() as int,
            ));
            assert(dst@.subrange(mark as int, dst@.len() as int) =~= hdr@ + d3.subrange(
                d1.len() as int,
                d3.len() as int,
            ));
            lemma_emitted_chain(
                dst@.subrange(mark as int, dst@.len() as int),
                old(self).hist(),
                old(self).data(),
                old(self).literals(),
                old(self).lmds(),
            );
        }
    }

    /// Starts a stream: empties the current block and forgets what came before.
    pub fn init(&mut self)
        requires
            old(self).wf(),
        ensures
            final(self).wf(),
            final(self).literals() == Seq::<u8>::empty(),
            final(self).lmds() == Seq::<LmdPack>::empty(),
            final(self).hist() == Seq::<u8>::empty(),
            final(self).data() == Seq::<u8>::empty(),
            final(self).cost() == block_bound(0, 0),
    {
        self.buffer.restart();
    }

    /// Pushes `literals` followed by a match of `match_len` bytes at `match_distance`,
    /// emitting blocks to `dst` as they fill.
    #[verifier::rlimit(80)]
    #[verifier::spinoff_prover]
    pub fn push_match(&mut self, dst: &mut Vec<u8>, literals: &[u8], match_len: u32, match_distance: u32)
        requires
            old(self).wf(),
            1 <= match_distance <= MAX_D_VALUE,
            match_len > 0 ==> match_distance <= old(self).data().len() + literals@.len(),
        ensures
            final(self).wf(),
            final(dst)@.len() >= old(dst)@.len(),
            final(dst)@.subrange(0, old(dst)@.len() as int) == old(dst)@,
            final(self).data() == lz_match(old(self).data() + literals@, match_len as nat, match_distance as nat),
            blocks_chain(
                final(dst)@.subrange(old(dst)@.len() as int, final(dst)@.len() as int),
                old(self).hist(),
                final(self).hist(),
            ),
            final(dst)@.len() + final(self).cost() <= old(dst)@.len() + old(self).cost() + push_cost(
                literals@.len(),
                match_len as nat,
            ),
    {
        let mut pos: usize = 0;
        let mut m = match_len;
        let ghost d0 = dst@;
        let ghost data0 = self.data();
        let ghost h0 = self.hist();
        let ghost dd = match_distance as nat;
        let ghost c0 = self.cost();
        proof {
            assert(literals@.subrange(0, 0) =~= Seq::<u8>::empty());
            assert(data0 + Seq::<u8>::empty() =~= data0);
            assert(dst@.subrange(d0.len() as int, dst@.len() as int) =~= Seq::<u8>::empty());
            lemma_chain_empty(h0);
        }
        loop
            invariant_except_break
                dst@.len() + self.cost() <= d0.len() + c0 + 3 * pos + 8 * (pos / 315) + 8 * ((match_len
                    - m) / 2359) + 8,
            invariant
                self.wf(),
                pos <= literals@.len(),
                m <= match_len,
                m < match_len ==> pos == literals@.len(),
                1 <= match_distance <= MAX_D_VALUE,
                dd == match_distance,
                match_len > 0 ==> match_distance <= data0.len() + literals@.len(),
                dst@.len() >= d0.len(),
                dst@.subrange(0, d0.len() as int) == d0,
                d0 == old(dst)@,
                data0 == old(self).data(),
                h0 == old(self).hist(),
                self.data() == lz_match(data0 + literals@.subrange(0, pos as int), (match_len - m) as nat, dd),
                blocks_chain(dst@.subrange(d0.len() as int, dst@.len() as int), h0, self.hist()),
                c0 == old(self).cost(),
            ensures
                self.wf(),
                dst@.len() >= d0.len(),
                dst@.subrange(0, d0.len() as int) == d0,
                pos == literals@.len(),
                m == 0,
                self.data() == lz_match(data0 + literals@.subrange(0, pos as int), (match_len - m) as nat, dd),
                blocks_chain(dst@.subrange(d0.len() as int, dst@.len() as int), h0, self.hist()),
                dst@.len() + self.cost() <= d0.len() + c0 + push_cost(literals@.len(), match_len as nat),
            decreases literals@.len() - pos + m,
        {
            let ghost q0 = pos;
            let ghost n0 = m;
            if self.push_step(literals, &mut pos, &mut m, match_distance, Ghost(data0), Ghost(match_len)) {
                proof {
                    lemma_step_cost(q0 as int, pos as int, n0 as int, m as int, match_len as int);
                }
                break;
            }
            proof {
                lemma_step_cost(q0 as int, pos as int, n0 as int, m as int, match_len as int);
            }
            let ghost d1 = dst@;
            let ghost hm = self.hist();
            self.emit_block_v2(dst);
            proof {
                assert(dst@.subrange(0, d0.len() as int) =~= dst@.subrange(0, d1.len() as int).subrange(0, d0.len() as int));
                let a = d1.subrange(d0.len() as int, d1.len() as int);
                let b = dst@.subrange(d1.len() as int, dst@.len() as int);
                lemma_chain_concat(a, b, h0, hm, self.hist());
                assert(dst@.subrange(d0.len() as int, dst@.len() as int) =~= a + b);
            }
            let ghost q1 = pos;
            let ghost n1 = m;
            if self.push_step(literals, &mut pos, &mut m, match_distance, Ghost(data0), Ghost(match_len)) {
                proof {
                    lemma_step_cost(q1 as int, pos as int, n1 as int, m as int, match_len as int);
                }
                break;
            }
            proof {
                lemma_step_cost(q1 as int, pos as int, n1 as int, m as int, match_len as int);
            }
            let ghost d2 = dst@;
            let ghost hn = self.hist();
            self.emit_block_v2(dst);
            proof {
                assert(dst@.subrange(0, d0.len() as int) =~= dst@.subrange(0, d2.len() as int).subrange(0, d0.len() as int));
                let a = d2.subrange(d0.len() as int, d2.len() as int);
                let b = dst@.subrange(d2.len() as int, dst@.len() as int);
                lemma_chain_concat(a, b, h0, hn, self.hist());
                assert(dst@.subrange(d0.len() as int, dst@.len() as int) =~= a + b);
            }
        }
        proof {
            assert(literals@.subrange(0, literals@.len() as int) =~= literals@);
        }
    }

    /// One push into the current block, tracking what the pushes so far stand for.
    fn push_step(
        &mut self,
        literals: &[u8],
        pos: &mut usize,
        m: &mut u32,
        match_distance: u32,
        Ghost(data0): Ghost<Seq<u8>>,
        Ghost(match_len): Ghost<u32>,
    ) -> (r: bool)
        requires
            old(self).wf(),
            *old(pos) <= literals@.len(),
            *old(m) <= match_len,
            *old(m) < match_len ==> *old(pos) == literals@.len(),
            1 <= match_distance <= MAX_D_VALUE,
            match_len > 0 ==> match_distance <= data0.len() + literals@.len(),
            old(self).data() == lz_match(
                data0 + literals@.subrange(0, *old(pos) as int),
                (match_len - *old(m)) as nat,
                match_distance as nat,
            ),
        ensures
            final(self).wf(),
            *final(pos) <= literals@.len(),
            *final(m) <= match_len,
            *final(m) < match_len ==> *final(pos) == literals@.len(),
            final(self).hist() == old(self).hist(),
            final(self).data() == lz_match(
                data0 + literals@.subrange(0, *final(pos) as int),
                (match_len - *final(m)) as nat,
                match_distance as nat,
            ),
            r ==> *final(pos) == literals@.len() && *final(m) == 0,
            !r ==> final(self).lmds().len() == super::constants::LMDS_PER_BLOCK || final(self).literals().len()
                == super::constants::LITERALS_PER_BLOCK,
            old(self).lmds().len() == 0 && old(self).literals().len() == 0 ==> (r || *final(pos)
                > *old(pos) || *final(m) < *old(m)),
            *final(pos) >= *old(pos),
            *final(m) <= *old(m),
            final(self).literals().len() == old(self).literals().len() + (*final(pos) - *old(pos)),
            final(self).lmds().len() <= old(self).lmds().len() + (*final(pos) - *old(pos)) / 315 + (
            *old(m) - *final(m)) / 2359 + 1,
    {
        let ghost p0 = *pos;
        let ghost m0 = *m;
        let ghost dd = match_distance as nat;
        let ghost base = data0 + literals@.subrange(0, p0 as int);
        proof {
            crate::lz::lemma_lz_match_len(base, (match_len - m0) as nat, dd);
        }
        let r = self.buffer.push(literals, pos, m, match_distance);
        proof {
            let p1 = *pos;
            let m1 = *m;
            let x = literals@.subrange(p0 as int, p1 as int);
            assert(literals@.subrange(0, p1 as int) =~= literals@.subrange(0, p0 as int) + x);
            if m0 < match_len {
                assert(x =~= Seq::<u8>::empty());
                assert(lz_match(base, (match_len - m0) as nat, dd) + x =~= lz_match(base, (match_len - m0) as nat, dd));
                super::lz_sem::lemma_lz_match_compose(base, (match_len - m0) as nat, (m0 - m1) as nat, dd);
                assert((match_len - m0) as nat + (m0 - m1) as nat == (match_len - m1) as nat);
            } else {
                assert(lz_match(base, 0, dd) == base);
                assert(base + x =~= data0 + literals@.subrange(0, p1 as int));
            }
        }
        r
    }

    /// Pushes `literals` with no match.
    pub fn push_literals(&mut self, dst: &mut Vec<u8>, literals: &[u8])
        requires
            old(self).wf(),
        ensures
            final(self).wf(),
            final(dst)@.len() >= old(dst)@.len(),
            final(dst)@.subrange(0, old(dst)@.len() as int) == old(dst)@,
            final(self).data() == old(self).data() + literals@,
            blocks_chain(
                final(dst)@.subrange(old(dst)@.len() as int, final(dst)@.len() as int),
                old(self).hist(),
                final(self).hist(),
            ),
            final(dst)@.len() + final(self).cost() <= old(dst)@.len() + old(self).cost() + push_cost(
                literals@.len(),
                0,
            ),
    {
        self.push_match(dst, literals, 0, 1);
        proof {
            assert(lz_match(old(self).data() + literals@, 0, 1) == old(self).data() + literals@);
        }
    }

    /// Ends a stream: emits the current block.
    pub fn finalize(&mut self, dst: &mut Vec<u8>)
        requires
            old(self).wf(),
        ensures
            final(self).wf(),
            final(self).literals() == Seq::<u8>::empty(),
            final(dst)@.len() >= old(dst)@.len() + V2_HEADER_SIZE,
            final(dst)@.subrange(0, old(dst)@.len() as int) == old(dst)@,
            final(self).hist() == old(self).data(),
            final(self).data() == old(self).data(),
            blocks_chain(
                final(dst)@.subrange(old(dst)@.len() as int, final(dst)@.len() as int),
                old(self).hist(),
                old(self).data(),
            ),
            final(dst)@.len() <= old(dst)@.len() + old(self).cost(),
    {
        self.emit_block_v2(dst);
    }
}

impl Default for FseBackend {
    fn default() -> (r: Self)
        ensures
            r.wf(),
            r.literals() == Seq::<u8>::empty(),
            r.lmds() == Seq::<LmdPack>::empty(),
    {
        FseBackend { buffer: Buffer::default(), weights: Weights::default(), encoder: Encoder::default() }
    }
}

} // verus!
