use vstd::prelude::*;

use crate::lmd::LmdPack;
use crate::lz::{lemma_lz_match_len, lz_match};

use super::buffer::{pack_dist, pack_literal_total, pack_match_total};
use super::constants::LITERALS_PER_BLOCK;
use super::fse_core::{lz_run, lz_step, LzState};
use super::lmds::{triple, triples_of};

verus! {

/// Two matches at one distance in a row are one match of their total length.
pub proof fn lemma_lz_match_compose(y: Seq<u8>, a: nat, b: nat, d: nat)
    ensures
        lz_match(lz_match(y, a, d), b, d) == lz_match(y, a + b, d),
    decreases b,
{
    if b > 0 {
        lemma_lz_match_compose(y, a, (b - 1) as nat, d);
        assert((a + b - 1) as nat == a + (b - 1) as nat);
    }
}

/// LZ decoding never moves the literal index back.
pub proof fn lemma_lz_run_li(s: LzState, lits: Seq<u8>, t: Seq<(nat, nat, nat)>)
    requires
        lz_run(s, lits, t) is Ok,
    ensures
        lz_run(s, lits, t)->Ok_0.1 >= s.1,
    decreases t.len(),
{
    if t.len() > 0 {
        lemma_lz_run_li(s, lits, t.drop_last());
    }
}

/// LZ decoding that reads no literal past the end of `lits` writes the literals and match bytes
/// it counts.
pub proof fn lemma_lz_run_len(s: LzState, lits: Seq<u8>, t: Seq<(nat, nat, nat)>)
    requires
        lz_run(s, lits, t) is Ok,
        lz_run(s, lits, t)->Ok_0.1 <= lits.len(),
    ensures
        s.1 <= lz_run(s, lits, t)->Ok_0.1,
        s.3 <= lz_run(s, lits, t)->Ok_0.3,
        lz_run(s, lits, t)->Ok_0.0.len() == s.0.len() + (lz_run(s, lits, t)->Ok_0.1 - s.1) + (
        lz_run(s, lits, t)->Ok_0.3 - s.3),
    decreases t.len(),
{
    if t.len() > 0 {
        let (o, li, d, mb) = lz_run(s, lits, t.drop_last())->Ok_0;
        let (l, m, pd) = t.last();
        lemma_lz_run_len(s, lits, t.drop_last());
        let d2 = if pd != 0 {
            pd
        } else {
            d
        };
        let o2 = o + lits.subrange(li as int, (li + l) as int);
        if m != 0 {
            lemma_lz_match_len(o2, m, d2);
        }
    }
}

/// LZ decoding that succeeds on an output decodes the same on that output with anything
/// before it.
pub proof fn lemma_lz_run_shift(h: Seq<u8>, s: LzState, lits: Seq<u8>, t: Seq<(nat, nat, nat)>)
    requires
        lz_run(s, lits, t) is Ok,
    ensures
        ({
            let (o, li, d, mb) = lz_run(s, lits, t)->Ok_0;
            lz_run((h + s.0, s.1, s.2, s.3), lits, t) == Ok::<LzState, crate::error::Error>(
                (h + o, li, d, mb),
            )
        }),
    decreases t.len(),
{
    if t.len() > 0 {
        lemma_lz_run_shift(h, s, lits, t.drop_last());
        let (o, li, d, mb) = lz_run(s, lits, t.drop_last())->Ok_0;
        let (l, m, pd) = t.last();
        let li2 = li + l;
        let d2 = if pd != 0 {
            pd
        } else {
            d
        };
        let x = lits.subrange(li as int, li2 as int);
        assert((h + o) + x =~= h + (o + x));
        if m != 0 {
            crate::lz::lemma_lz_match_shift(h, o + x, m, d2);
        }
    }
}

/// LZ decoding that reads no literal past the end of `a` reads the same from `a` followed by
/// anything.
pub proof fn lemma_lz_run_ext(s: LzState, a: Seq<u8>, b: Seq<u8>, t: Seq<(nat, nat, nat)>)
    requires
        lz_run(s, a, t) is Ok,
        lz_run(s, a, t)->Ok_0.1 <= a.len(),
    ensures
        lz_run(s, a + b, t) == lz_run(s, a, t),
    decreases t.len(),
{
    if t.len() > 0 {
        let t1 = t.drop_last();
        let r1 = lz_run(s, a, t1);
        if r1 is Ok {
            let s1 = r1->Ok_0;
            let x = t.last();
            let li2 = s1.1 + x.0;
            assert(li2 == lz_run(s, a, t)->Ok_0.1);
            lemma_lz_run_ext(s, a, b, t1);
            assert((a + b).subrange(s1.1 as int, li2 as int) =~= a.subrange(s1.1 as int, li2 as int));
        }
    }
}

/// The LZ state of a block's literals and triples read on top of the history `hist`, when
/// reading succeeds.
pub open spec fn block_lz(hist: Seq<u8>, lits: Seq<u8>, packs: Seq<LmdPack>) -> Result<LzState, crate::error::Error> {
    lz_run((hist, 0, 0, 0), lits, triples_of(packs))
}

/// The block reads: the history followed by what its triples decode to, with the literal
/// index, distance and match bytes its triples account for.
pub open spec fn block_sem(hist: Seq<u8>, lits: Seq<u8>, packs: Seq<LmdPack>) -> bool {
    &&& block_lz(hist, lits, packs) is Ok
    &&& block_lz(hist, lits, packs)->Ok_0.1 == pack_literal_total(packs)
    &&& block_lz(hist, lits, packs)->Ok_0.2 == pack_dist(packs)
    &&& block_lz(hist, lits, packs)->Ok_0.3 == pack_match_total(packs)
    &&& pack_literal_total(packs) <= lits.len()
    &&& lits.len() <= LITERALS_PER_BLOCK
}

/// The bytes a block stands for on top of its history: what its triples decode to followed
/// by the literals no triple took yet.
pub open spec fn block_data(hist: Seq<u8>, lits: Seq<u8>, packs: Seq<LmdPack>) -> Seq<u8> {
    let s = block_lz(hist, lits, packs)->Ok_0;
    s.0 + lits.subrange(s.1 as int, lits.len() as int)
}

/// An empty block stands for its history.
pub proof fn lemma_block_empty(hist: Seq<u8>)
    ensures
        block_sem(hist, Seq::empty(), Seq::empty()),
        block_data(hist, Seq::empty(), Seq::empty()) == hist,
{
    assert(triples_of(Seq::<LmdPack>::empty()) =~= Seq::<(nat, nat, nat)>::empty());
    assert(hist + Seq::<u8>::empty().subrange(0, 0) =~= hist);
}

/// Appending literals no triple takes yet appends them to what the block stands for.
pub proof fn lemma_block_add_literals(hist: Seq<u8>, lits: Seq<u8>, packs: Seq<LmdPack>, x: Seq<u8>)
    requires
        block_sem(hist, lits, packs),
        lits.len() + x.len() <= LITERALS_PER_BLOCK,
    ensures
        block_sem(hist, lits + x, packs),
        block_data(hist, lits + x, packs) == block_data(hist, lits, packs) + x,
{
    lemma_lz_run_ext((hist, 0, 0, 0), lits, x, triples_of(packs));
    let s = block_lz(hist, lits, packs)->Ok_0;
    assert((lits + x).subrange(s.1 as int, (lits + x).len() as int) =~= lits.subrange(
        s.1 as int,
        lits.len() as int,
    ) + x);
}

/// A triple that takes every pending literal, then copies `m` bytes from the distance in effect
/// after it, turns what the block stands for into that match.
pub proof fn lemma_block_add_triple(hist: Seq<u8>, lits: Seq<u8>, packs: Seq<LmdPack>, p: LmdPack)
    requires
        block_sem(hist, lits, packs),
        pack_literal_total(packs) + p.0.value() == lits.len(),
        p.1.value() > 0 ==> 1 <= pack_dist(packs.push(p)) <= block_data(hist, lits, packs).len(),
    ensures
        block_sem(hist, lits, packs.push(p)),
        block_data(hist, lits, packs.push(p)) == lz_match(
            block_data(hist, lits, packs),
            p.1.value() as nat,
            pack_dist(packs.push(p)),
        ),
{
    let q = packs.push(p);
    assert(q.drop_last() =~= packs);
    assert(triples_of(q) =~= triples_of(packs).push(triple(p)));
    assert(triples_of(q).drop_last() =~= triples_of(packs));
    let s = block_lz(hist, lits, packs)->Ok_0;
    let o2 = s.0 + lits.subrange(s.1 as int, lits.len() as int);
    assert(lits.subrange(s.1 as int, lits.len() as int) =~= lits.subrange(s.1 as int, (s.1 + p.0.value()) as int));
    assert(lits.subrange(lits.len() as int, lits.len() as int) =~= Seq::<u8>::empty());
    if p.1.value() > 0 {
        lemma_lz_match_len(o2, p.1.value() as nat, pack_dist(q));
        let o3 = lz_match(o2, p.1.value() as nat, pack_dist(q));
        assert(o3 + Seq::<u8>::empty() =~= o3);
    } else {
        assert(o2 + Seq::<u8>::empty() =~= o2);
    }
}

} // verus!
