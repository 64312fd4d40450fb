use vstd::prelude::*;

use crate::lmd::LmdPack;
use crate::bits::model::bytes_value;

use super::block::FseBlock;
use super::constants::{LITERALS_PER_BLOCK, LMDS_PER_BLOCK, MAX_D_VALUE, MAX_L_VALUE, MAX_M_VALUE};
use super::encoder::Encoder;
use super::literals::Literals;
use super::lmds::{triples_of, Lmds};
use super::weights::Weights;
use super::lz_sem::{block_data, block_sem, lemma_block_add_literals, lemma_block_add_triple, lemma_block_empty, lemma_lz_match_compose};
use crate::lz::lz_match;

verus! {

/// Literal bytes carried by packed triples.
pub open spec fn pack_literal_total(s: Seq<LmdPack>) -> nat
    decreases s.len(),
{
    if s.len() == 0 {
        0
    } else {
        pack_literal_total(s.drop_last()) + s.last().0.value() as nat
    }
}

/// Match bytes carried by packed triples.
pub open spec fn pack_match_total(s: Seq<LmdPack>) -> nat
    decreases s.len(),
{
    if s.len() == 0 {
        0
    } else {
        pack_match_total(s.drop_last()) + s.last().1.value() as nat
    }
}

/// The match distance in effect after packed triples: the last nonzero packed distance, zero
/// when there is none.
pub open spec fn pack_dist(s: Seq<LmdPack>) -> nat
    decreases s.len(),
{
    if s.len() == 0 {
        0
    } else if s.last().2.value() != 0 {
        s.last().2.value() as nat
    } else {
        pack_dist(s.drop_last())
    }
}

/// The literal-only triples that carry `n` literals ahead of a match, `MAX_L_VALUE` at a time
/// while more remain, and the literals left for the match's own triple.
pub open spec fn lit_chunks(n: nat) -> (Seq<(nat, nat, nat)>, nat)
    decreases n,
{
    if n > MAX_L_VALUE {
        let r = lit_chunks((n - MAX_L_VALUE) as nat);
        (seq![(MAX_L_VALUE as nat, 0nat, 1nat)] + r.0, r.1)
    } else {
        (Seq::empty(), n)
    }
}

/// Distance `d` packed after a triple whose distance was `last`: zero repeats it.
pub open spec fn packed_dist(d: nat, last: nat) -> nat {
    if d == last {
        0
    } else {
        d
    }
}

/// The triples of a match of `m` bytes at distance `d` after `l` literals, `MAX_M_VALUE` bytes
/// at a time while more remain, the distance in effect before them being `last`.
pub open spec fn match_chunks(l: nat, m: nat, d: nat, last: nat) -> Seq<(nat, nat, nat)>
    decreases m,
{
    if m > MAX_M_VALUE {
        seq![(l, MAX_M_VALUE as nat, packed_dist(d, last))] + match_chunks(
            0,
            (m - MAX_M_VALUE) as nat,
            d,
            d,
        )
    } else {
        seq![(l, m, packed_dist(d, last))]
    }
}

/// The triples that push `n` literals and then a match of `m` bytes at distance `d`, the
/// distance in effect before them being `last`.
pub open spec fn push_triples(n: nat, m: nat, d: nat, last: nat) -> Seq<(nat, nat, nat)> {
    let (lc, rest) = lit_chunks(n);
    lc + match_chunks(
        rest,
        m,
        d,
        if lc.len() > 0 {
            1
        } else {
            last
        },
    )
}

/// A match's triples are at least one.
proof fn lemma_match_chunks_len(l: nat, m: nat, d: nat, last: nat)
    ensures
        match_chunks(l, m, d, last).len() >= 1,
    decreases m,
{
    if m > MAX_M_VALUE {
        lemma_match_chunks_len(0, (m - MAX_M_VALUE) as nat, d, d);
    }
}

/// The triples of a pushed triple.
proof fn lemma_triples_push(s: Seq<LmdPack>, t: Seq<LmdPack>)
    requires
        t.len() == s.len() + 1,
        t.drop_last() == s,
    ensures
        triples_of(t) == triples_of(s).push(super::lmds::triple(t.last())),
{
    assert(t =~= s.push(t.last()));
    assert(triples_of(t) =~= triples_of(s).push(super::lmds::triple(t.last())));
}

/// The values of packed triple `p` are within their limits.
pub open spec fn pack_bounded(p: LmdPack) -> bool {
    &&& p.0.value() <= MAX_L_VALUE
    &&& p.1.value() <= MAX_M_VALUE
    &&& p.2.value() <= MAX_D_VALUE
}

/// LZ block under construction: literals and packed LMD triples.
pub struct Buffer {
    literals: Literals,
    lmds: Lmds,
    n_match_bytes: u32,
    match_distance: u32,
    hist: Ghost<Seq<u8>>,
    sound: Ghost<bool>,
}

impl Buffer {
    /// The literals held.
    pub closed spec fn literals(&self) -> Seq<u8> {
        self.literals@
    }

    /// The triples held.
    pub closed spec fn lmds(&self) -> Seq<LmdPack> {
        self.lmds@
    }

    /// The bytes before the block, which its matches may reach back into.
    pub closed spec fn hist(&self) -> Seq<u8> {
        self.hist@
    }

    /// Every match pushed reaches back only into the bytes before it, so that the block
    /// LZ-decodes on top of its history.
    pub closed spec fn sound(&self) -> bool {
        self.sound@
    }

    /// The history followed by the bytes the block stands for, while the block is sound.
    pub closed spec fn data(&self) -> Seq<u8> {
        block_data(self.hist(), self.literals(), self.lmds())
    }

    /// Internal consistency: the triples account for every literal held, and the match byte
    /// count and last distance are those of the triples.
    pub closed spec fn wf(&self) -> bool {
        &&& self.wf_parts()
        &&& pack_literal_total(self.lmds@) == self.literals@.len()
    }

    /// Internal consistency but for the literal count.
    pub closed spec fn wf_parts(&self) -> bool {
        &&& self.literals.wf()
        &&& self.lmds.wf()
        &&& self.n_match_bytes == pack_match_total(self.lmds@)
        &&& self.match_distance == pack_dist(self.lmds@)
        &&& self.n_match_bytes <= self.lmds@.len() * MAX_M_VALUE
        &&& forall|i: int| 0 <= i < self.lmds@.len() ==> #[trigger] pack_bounded(self.lmds@[i])
        &&& self.sound@ ==> block_sem(self.hist@, self.literals@, self.lmds@)
    }

    /// Raw bytes the block expands to.
    pub open spec fn raw_len(&self) -> nat {
        self.literals().len() + pack_match_total(self.lmds())
    }

    /// The literals held.
    pub fn literal_slice(&self) -> (r: &[u8])
        requires
            self.wf(),
        ensures
            r@ == self.literals(),
    {
        self.literals.as_slice()
    }

    /// The triples held.
    pub fn lmd_slice(&self) -> (r: &[LmdPack])
        requires
            self.wf(),
        ensures
            r@ == self.lmds(),
    {
        self.lmds.as_slice()
    }

    /// Appends the triple `(l, m, d)`, packing `d` as zero when it repeats the last distance.
    fn push_lmd(&mut self, l: u16, m: u16, d: u32)
        requires
            old(self).wf_parts(),
            old(self).lmds().len() < LMDS_PER_BLOCK,
            l <= MAX_L_VALUE,
            m <= MAX_M_VALUE,
            1 <= d <= MAX_D_VALUE,
            pack_literal_total(old(self).lmds()) + l == old(self).literals().len(),
        ensures
            final(self).wf(),
            final(self).literals() == old(self).literals(),
            final(self).lmds().len() == old(self).lmds().len() + 1,
            final(self).lmds().drop_last() == old(self).lmds(),
            final(self).hist() == old(self).hist(),
            final(self).sound() == (old(self).sound() && (m > 0 ==> d <= old(self).data().len())),
            final(self).sound() ==> final(self).data() == lz_match(old(self).data(), m as nat, d as nat),
            ({
                let p = final(self).lmds().last();
                &&& p.0.value() == l
                &&& p.1.value() == m
                &&& p.2.value() == packed_dist(d as nat, pack_dist(old(self).lmds()))
                &&& pack_dist(final(self).lmds()) == d
            }),
    {
        let packed = if self.match_distance == d {
            0
        } else {
            self.match_distance = d;
            d
        };
        let ghost before = self.lmds@;
        let ghost ok = self.sound@ && (m > 0 ==> d <= self.data().len());
        let p = LmdPack::new(l, m, packed);
        proof {
            let q = before.push(p);
            assert(q.drop_last() =~= before);
            if ok {
                lemma_block_add_triple(self.hist@, self.literals@, before, p);
            }
        }
        self.lmds.push(p);
        self.sound = Ghost(ok);
        proof {
            assert(self.lmds@.drop_last() =~= before);
            assert forall|i: int| 0 <= i < self.lmds@.len() implies #[trigger] pack_bounded(self.lmds@[i]) by {
                if i < before.len() {
                    assert(self.lmds@[i] == before[i]);
                }
            }
            assert(self.n_match_bytes + m <= (before.len() + 1) * MAX_M_VALUE) by (nonlinear_arith)
                requires
                    self.n_match_bytes <= before.len() * MAX_M_VALUE,
                    m <= MAX_M_VALUE,
            ;
        }
        self.n_match_bytes = self.n_match_bytes + m as u32;
    }

    /// Appends a literal-only triple of `l` literals with distance one.
    fn push_l(&mut self, l: u16)
        requires
            old(self).wf_parts(),
            old(self).lmds().len() < LMDS_PER_BLOCK,
            l <= MAX_L_VALUE,
            pack_literal_total(old(self).lmds()) + l == old(self).literals().len(),
        ensures
            final(self).wf(),
            final(self).literals() == old(self).literals(),
            final(self).lmds().len() == old(self).lmds().len() + 1,
            final(self).lmds().drop_last() == old(self).lmds(),
            final(self).hist() == old(self).hist(),
            final(self).sound() == old(self).sound(),
            final(self).sound() ==> final(self).data() == old(self).data(),
            final(self).lmds().last().0.value() == l,
            final(self).lmds().last().1.value() == 0,
            final(self).lmds().last().2.value() == 1,
            pack_dist(final(self).lmds()) == 1,
    {
        self.match_distance = 1;
        let ghost before = self.lmds@;
        let p = LmdPack::new(l, 0, 1);
        proof {
            if self.sound@ {
                lemma_block_add_triple(self.hist@, self.literals@, before, p);
            }
        }
        self.lmds.push(p);
        proof {
            assert(self.lmds@.drop_last() =~= before);
            assert forall|i: int| 0 <= i < self.lmds@.len() implies #[trigger] pack_bounded(self.lmds@[i]) by {
                if i < before.len() {
                    assert(self.lmds@[i] == before[i]);
                }
            }
            assert(self.n_match_bytes <= (before.len() + 1) * MAX_M_VALUE) by (nonlinear_arith)
                requires self.n_match_bytes <= before.len() * MAX_M_VALUE;
        }
    }
}


/// Every triple of `s` from `from` on with a match uses distance `d`.
pub open spec fn matches_at(s: Seq<LmdPack>, from: int, d: nat) -> bool {
    forall|i: int|
        from <= i < s.len() && (#[trigger] s[i]).1.value() != 0 ==> pack_dist(s.subrange(0, i + 1))
            == d
}

/// Appending a triple keeps `matches_at` when the triple has no match or uses `d`.
proof fn lemma_matches_at_push(s: Seq<LmdPack>, t: Seq<LmdPack>, from: int, d: nat)
    requires
        matches_at(s, from, d),
        0 <= from <= s.len(),
        t.len() == s.len() + 1,
        t.drop_last() == s,
        t.last().1.value() != 0 ==> pack_dist(t) == d,
    ensures
        matches_at(t, from, d),
        t.subrange(0, from) == s.subrange(0, from),
{
    assert forall|i: int| from <= i < t.len() && (#[trigger] t[i]).1.value() != 0 implies pack_dist(
        t.subrange(0, i + 1),
    ) == d by {
        if i < s.len() {
            assert(t.subrange(0, i + 1) =~= s.subrange(0, i + 1));
            assert(t[i] == s[i]);
        } else {
            assert(t.subrange(0, i + 1) =~= t);
        }
    }
    assert(t.subrange(0, from) =~= s.subrange(0, from));
}

impl Buffer {
    /// Pushes the literals `literals[pos..]` followed by a match of `match_len` bytes at
    /// `match_distance`, as far as the block has room: returns whether all of it went in.
    /// `pos` and `match_len` are left at what remains.
    #[verifier::rlimit(100)]
    #[verifier::spinoff_prover]
    pub fn push(&mut self, literals: &[u8], pos: &mut usize, match_len: &mut u32, match_distance: u32) -> (r: bool)
        requires
            old(self).wf(),
            *old(pos) <= literals@.len(),
            1 <= match_distance <= MAX_D_VALUE,
        ensures
            final(self).wf(),
            *old(pos) <= *final(pos) <= literals@.len(),
            *final(match_len) <= *old(match_len),
            final(self).literals() == old(self).literals() + literals@.subrange(
                *old(pos) as int,
                *final(pos) as int,
            ),
            final(self).lmds().len() >= old(self).lmds().len(),
            final(self).lmds().subrange(0, old(self).lmds().len() as int) == old(self).lmds(),
            pack_match_total(final(self).lmds()) == pack_match_total(old(self).lmds()) + (
            *old(match_len) - *final(match_len)),
            matches_at(final(self).lmds(), old(self).lmds().len() as int, match_distance as nat),
            r ==> (*final(pos) == literals@.len() && *final(match_len) == 0),
            !r ==> final(self).lmds().len() == LMDS_PER_BLOCK || final(self).literals().len()
                == LITERALS_PER_BLOCK,
            old(self).lmds().len() == 0 && old(self).literals().len() == 0 ==> (r || *final(pos)
                > *old(pos) || *final(match_len) < *old(match_len)),
            *final(match_len) < *old(match_len) ==> *final(pos) == literals@.len(),
            final(self).hist() == old(self).hist(),
            final(self).lmds().len() <= old(self).lmds().len() + (*final(pos) - *old(pos)) / 315 + (
            *old(match_len) - *final(match_len)) / 2359 + 1,
            final(self).sound() ==> old(self).sound(),
            old(self).sound() && (*old(match_len) > 0 ==> match_distance <= old(self).data().len()
                + literals@.len() - *old(pos)) ==> final(self).sound() && final(self).data() == lz_match(
                old(self).data() + literals@.subrange(*old(pos) as int, *final(pos) as int),
                (*old(match_len) - *final(match_len)) as nat,
                match_distance as nat,
            ),
            ({
                let n = (literals@.len() - *old(pos)) as nat;
                let t = push_triples(n, *old(match_len) as nat, match_distance as nat, pack_dist(old(self).lmds()));
                &&& r <==> old(self).lmds().len() + t.len() <= LMDS_PER_BLOCK && old(self).literals().len() + n
                    <= LITERALS_PER_BLOCK
                &&& r ==> triples_of(final(self).lmds()) == triples_of(old(self).lmds()) + t
            }),
    {
        let ghost l0 = self.literals@;
        let ghost s0 = self.lmds@;
        let ghost p0 = *pos;
        let ghost m0 = *match_len;
        let ghost d0 = self.data();
        let ghost dd = match_distance as nat;
        let ghost ok = self.sound@ && (m0 > 0 ==> dd <= d0.len() + literals@.len() - p0);
        let ghost n0 = (literals@.len() - p0) as nat;
        let ghost last0 = pack_dist(s0);
        let ghost lc0 = lit_chunks(n0);
        let ghost t = push_triples(n0, m0 as nat, dd, last0);
        let mut p = *pos;
        proof {
            assert(triples_of(s0) + lc0.0 =~= triples_of(s0) + lc0.0);
            lemma_match_chunks_len(lc0.1, m0 as nat, dd, if lc0.0.len() > 0 { 1 } else { last0 });
            assert(literals@.subrange(p0 as int, p0 as int) =~= Seq::<u8>::empty());
            assert(l0 + Seq::<u8>::empty() =~= l0);
            assert(d0 + Seq::<u8>::empty() =~= d0);
            assert(s0.subrange(0, s0.len() as int) =~= s0);
        }
        while literals.len() - p > MAX_L_VALUE as usize
            invariant
                self.wf(),
                p0 == *old(pos),
                m0 == *old(match_len),
                l0 == old(self).literals(),
                s0 == old(self).lmds(),
                d0 == old(self).data(),
                dd == match_distance,
                p0 <= p <= literals@.len(),
                *match_len == m0,
                1 <= match_distance <= MAX_D_VALUE,
                self.literals() == l0 + literals@.subrange(p0 as int, p as int),
                self.lmds().len() >= s0.len(),
                self.lmds().subrange(0, s0.len() as int) == s0,
                pack_match_total(self.lmds()) == pack_match_total(s0),
                matches_at(self.lmds(), s0.len() as int, match_distance as nat),
                (l0.len() == 0 && s0.len() == 0) ==> (p > p0 || self.lmds().len() == 0),
                self.hist() == old(self).hist(),
                self.sound@ == old(self).sound(),
                ok == (old(self).sound() && (m0 > 0 ==> dd <= d0.len() + literals@.len() - p0)),
                self.sound@ ==> self.data() == d0 + literals@.subrange(p0 as int, p as int),
                n0 == literals@.len() - p0,
                last0 == pack_dist(s0),
                lc0 == lit_chunks(n0),
                t == push_triples(n0, m0 as nat, dd, last0),
                t.len() >= lc0.0.len() + 1,
                triples_of(self.lmds()) + lit_chunks((literals@.len() - p) as nat).0 == triples_of(s0)
                    + lc0.0,
                lit_chunks((literals@.len() - p) as nat).1 == lc0.1,
                self.lmds().len() == s0.len() ==> pack_dist(self.lmds()) == last0,
                self.lmds().len() > s0.len() ==> pack_dist(self.lmds()) == 1,
                self.lmds().len() <= s0.len() + (p - p0) / 315,
            decreases literals@.len() - p,
        {
            if self.lmds.len() == LMDS_PER_BLOCK as usize {
                proof {
                    let lcr = lit_chunks((literals@.len() - p) as nat).0;
                    assert((triples_of(self.lmds@) + lcr).len() == (triples_of(s0) + lc0.0).len());
                }
                *pos = p;
                return false;
            }
            let limit = LITERALS_PER_BLOCK as usize - self.literals.len();
            let ghost b = self.lmds@;
            let ghost lb = self.literals@;
            if MAX_L_VALUE as usize <= limit {
                self.add_literals(vstd::slice::slice_subrange(literals, p, p + 315));
                self.push_l(MAX_L_VALUE);
                proof {
                    lemma_triples_push(b, self.lmds@);
                    let rem = (literals@.len() - p) as nat;
                    assert(lit_chunks(rem).0 =~= seq![(MAX_L_VALUE as nat, 0nat, 1nat)] + lit_chunks((rem - 315) as nat).0);
                    assert(triples_of(self.lmds@) + lit_chunks((rem - 315) as nat).0 =~= triples_of(b) + lit_chunks(rem).0);
                    assert(lb + literals@.subrange(p as int, p + 315) == self.literals());
                    assert(literals@.subrange(p0 as int, p + 315) =~= literals@.subrange(p0 as int, p as int) + literals@.subrange(p as int, p + 315));
                    lemma_matches_at_push(b, self.lmds@, s0.len() as int, match_distance as nat);
                    assert(self.lmds@.subrange(0, s0.len() as int) =~= b.subrange(0, s0.len() as int));
                    crate::kit::lemma_quot(p - p0, 0, 315);
                }
                p = p + 315;
            } else if limit != 0 {
                self.add_literals(vstd::slice::slice_subrange(literals, p, p + limit));
                self.push_l(limit as u16);
                proof {
                    assert(literals@.subrange(p0 as int, p + limit) =~= literals@.subrange(p0 as int, p as int) + literals@.subrange(p as int, p + limit));
                    lemma_matches_at_push(b, self.lmds@, s0.len() as int, match_distance as nat);
                    assert(self.lmds@.subrange(0, s0.len() as int) =~= b.subrange(0, s0.len() as int));
                    crate::kit::lemma_quot(p - p0, p + limit - p0, 315);
                }
                *pos = p + limit;
                return false;
            } else {
                *pos = p;
                return false;
            }
        }
        if self.lmds.len() == LMDS_PER_BLOCK as usize {
            *pos = p;
            return false;
        }
        let mut literal_len = literals.len() - p;
        let limit = LITERALS_PER_BLOCK as usize - self.literals.len();
        let ghost b = self.lmds@;
        if literal_len <= limit {
            self.add_literals(vstd::slice::slice_subrange(literals, p, literals.len()));
            proof {
                assert(literals@.subrange(p0 as int, literals@.len() as int) =~= literals@.subrange(p0 as int, p as int) + literals@.subrange(p as int, literals@.len() as int));
            }
            p = literals.len();
        } else if limit != 0 {
            self.add_literals(vstd::slice::slice_subrange(literals, p, p + limit));
            self.push_l(limit as u16);
            proof {
                assert(literals@.subrange(p0 as int, p + limit) =~= literals@.subrange(p0 as int, p as int) + literals@.subrange(p as int, p + limit));
                lemma_matches_at_push(b, self.lmds@, s0.len() as int, match_distance as nat);
                assert(self.lmds@.subrange(0, s0.len() as int) =~= b.subrange(0, s0.len() as int));
                crate::kit::lemma_quot(p - p0, p + limit - p0, 315);
            }
            *pos = p + limit;
            return false;
        } else {
            *pos = p;
            return false;
        }
        *pos = p;
        let ghost base = d0 + literals@.subrange(p0 as int, literals@.len() as int);
        proof {
            crate::lz::lemma_lz_match_len(base, 0, dd);
        }
        while *match_len > MAX_M_VALUE as u32
            invariant
                self.wf_parts(),
                p0 == *old(pos),
                m0 == *old(match_len),
                l0 == old(self).literals(),
                s0 == old(self).lmds(),
                d0 == old(self).data(),
                dd == match_distance,
                base == d0 + literals@.subrange(p0 as int, literals@.len() as int),
                ok ==> (m0 > 0 ==> dd <= base.len()),
                ok == (old(self).sound() && (m0 > 0 ==> dd <= d0.len() + literals@.len() - p0)),
                ok ==> self.sound@,
                self.sound@ ==> old(self).sound(),
                *pos == literals@.len(),
                p0 <= literals@.len(),
                *match_len <= m0,
                literal_len <= MAX_L_VALUE,
                1 <= match_distance <= MAX_D_VALUE,
                pack_literal_total(self.lmds()) + literal_len == self.literals().len(),
                self.literals() == l0 + literals@.subrange(p0 as int, literals@.len() as int),
                self.lmds().len() >= s0.len(),
                self.lmds().len() < LMDS_PER_BLOCK,
                self.lmds().subrange(0, s0.len() as int) == s0,
                pack_match_total(self.lmds()) + *match_len == pack_match_total(s0) + m0,
                matches_at(self.lmds(), s0.len() as int, match_distance as nat),
                self.hist() == old(self).hist(),
                ok ==> self.data() == lz_match(base, (m0 - *match_len) as nat, dd),
                ok ==> self.data().len() == base.len() + (m0 - *match_len),
                t == push_triples(n0, m0 as nat, dd, last0),
                n0 == literals@.len() - p0,
                l0.len() + n0 <= LITERALS_PER_BLOCK,
                triples_of(self.lmds()) + match_chunks(literal_len as nat, *match_len as nat, dd, pack_dist(self.lmds()))
                    == triples_of(s0) + t,
                self.lmds().len() <= s0.len() + (literals@.len() - p0) / 315 + (m0 - *match_len) / 2359,
            decreases *match_len,
        {
            let ghost b = self.lmds@;
            let ghost ml = *match_len;
            let ghost pd = pack_dist(self.lmds@);
            self.push_lmd(literal_len as u16, MAX_M_VALUE, match_distance);
            proof {
                lemma_triples_push(b, self.lmds@);
                let mc = match_chunks(literal_len as nat, ml as nat, dd, pd);
                let rest = match_chunks(0, (ml - MAX_M_VALUE) as nat, dd, dd);
                assert(mc =~= seq![(literal_len as nat, MAX_M_VALUE as nat, packed_dist(dd, pd))] + rest);
                assert(triples_of(self.lmds@) + rest =~= triples_of(b) + mc);
                lemma_match_chunks_len(0, (ml - MAX_M_VALUE) as nat, dd, dd);
                lemma_matches_at_push(b, self.lmds@, s0.len() as int, match_distance as nat);
                assert(self.lmds@.subrange(0, s0.len() as int) =~= b.subrange(0, s0.len() as int));
                lemma_lz_match_compose(base, (m0 - ml) as nat, MAX_M_VALUE as nat, dd);
                crate::lz::lemma_lz_match_len(base, (m0 - ml + MAX_M_VALUE) as nat, dd);
                assert((m0 - ml) as nat + MAX_M_VALUE as nat == (m0 - (ml - MAX_M_VALUE)) as nat);
                crate::kit::lemma_quot(m0 - ml, 0, 2359);
            }
            *match_len = *match_len - MAX_M_VALUE as u32;
            literal_len = 0;
            if self.lmds.len() == LMDS_PER_BLOCK as usize {
                return false;
            }
        }
        let ghost b = self.lmds@;
        let ghost ml = *match_len;
        let ghost pd = pack_dist(self.lmds@);
        self.push_lmd(literal_len as u16, *match_len as u16, match_distance);
        proof {
            lemma_triples_push(b, self.lmds@);
            assert(match_chunks(literal_len as nat, ml as nat, dd, pd) =~= seq![(literal_len as nat, ml as nat, packed_dist(dd, pd))]);
            assert(triples_of(self.lmds@) =~= triples_of(b) + match_chunks(literal_len as nat, ml as nat, dd, pd));
            lemma_matches_at_push(b, self.lmds@, s0.len() as int, match_distance as nat);
            assert(self.lmds@.subrange(0, s0.len() as int) =~= b.subrange(0, s0.len() as int));
            lemma_lz_match_compose(base, (m0 - ml) as nat, ml as nat, dd);
            crate::kit::lemma_quot(m0 - ml, m0 as int, 2359);
        }
        *match_len = 0;
        true
    }

    /// Pads the literals up to a multiple of four with their first byte.
    pub fn pad(&mut self)
        requires
            old(self).wf(),
        ensures
            final(self).wf(),
            final(self).literals() == old(self).literals(),
            final(self).lmds() == old(self).lmds(),
            final(self).hist() == old(self).hist(),
            final(self).data() == old(self).data(),
            final(self).sound() == old(self).sound(),
            old(self).literals().len() > 0 ==> final(self).padded_literals() == old(self).literals()
                + Seq::new(
                (super::literals::round4(old(self).literals().len()) - old(self).literals().len()) as nat,
                |i: int| old(self).literals()[0],
            ),
            old(self).literals().len() == 0 ==> final(self).padded_literals() == Seq::<u8>::empty(),
    {
        self.literals.pad();
    }

    /// Loads `weights` for the block: returns a literal that occurs, or zero when there are
    /// none.
    pub fn init_weights(&self, weights: &mut Weights) -> (r: u8)
        requires
            self.wf(),
            old(weights).wf(),
        ensures
            final(weights).wf(),
            super::weights::valid_totals(final(weights)@),
            super::weights::normalized_for(
                super::weights::l_part(final(weights)@),
                super::weights::l_values(self.lmds()),
                super::constants::L_STATES,
            ),
            super::weights::normalized_for(
                super::weights::m_part(final(weights)@),
                super::weights::m_values(self.lmds()),
                super::constants::M_STATES,
            ),
            super::weights::normalized_for(
                super::weights::d_part(final(weights)@),
                super::weights::d_values(self.lmds()),
                super::constants::D_STATES,
            ),
            super::weights::normalized_for(
                super::weights::u_part(final(weights)@),
                super::weights::u_values(self.literals()),
                super::constants::U_STATES,
            ),
    {
        weights.load(self.lmds.as_slice(), self.literals.as_slice())
    }

    /// The literals and triples LZ-decode on top of the history to what the buffer stands for.
    pub proof fn lemma_block_lz(&self)
        requires
            self.wf(),
            self.sound(),
        ensures
            super::lz_sem::block_lz(self.hist(), self.literals(), self.lmds()) == Ok::<
                super::fse_core::LzState,
                crate::error::Error,
            >((self.data(), self.literals().len(), pack_dist(self.lmds()), pack_match_total(self.lmds()))),
    {
        let s = super::lz_sem::block_lz(self.hist@, self.literals@, self.lmds@)->Ok_0;
        assert(self.literals@.subrange(s.1 as int, self.literals@.len() as int) =~= Seq::<u8>::empty());
        assert(s.0 + Seq::<u8>::empty() =~= s.0);
    }

    /// Every triple held is within the limits.
    pub proof fn lemma_lmds_bounded(&self)
        requires
            self.wf(),
        ensures
            forall|i: int| 0 <= i < self.lmds().len() ==> #[trigger] pack_bounded(self.lmds()[i]),
    {
    }

    /// Drops every literal and triple: the next block follows what this one stood for.
    pub fn reset(&mut self)
        requires
            old(self).wf(),
        ensures
            final(self).wf(),
            final(self).literals() == Seq::<u8>::empty(),
            final(self).lmds() == Seq::<LmdPack>::empty(),
            final(self).hist() == old(self).data(),
            final(self).data() == old(self).data(),
            final(self).sound(),
    {
        let ghost d = self.data();
        self.literals.reset();
        self.lmds.reset();
        self.n_match_bytes = 0;
        self.match_distance = 0;
        self.hist = Ghost(d);
        self.sound = Ghost(true);
        proof {
            lemma_block_empty(d);
        }
    }

    /// Drops every literal and triple and the history: a new stream starts.
    pub fn restart(&mut self)
        requires
            old(self).wf(),
        ensures
            final(self).wf(),
            final(self).literals() == Seq::<u8>::empty(),
            final(self).lmds() == Seq::<LmdPack>::empty(),
            final(self).data() == Seq::<u8>::empty(),
            final(self).hist() == Seq::<u8>::empty(),
            final(self).sound(),
    {
        self.literals.reset();
        self.lmds.reset();
        self.n_match_bytes = 0;
        self.match_distance = 0;
        self.hist = Ghost(Seq::empty());
        self.sound = Ghost(true);
        proof {
            lemma_block_empty(Seq::empty());
        }
    }

    /// Appends literals that no triple takes yet.
    fn add_literals(&mut self, x: &[u8])
        requires
            old(self).wf_parts(),
            old(self).literals().len() + x@.len() <= LITERALS_PER_BLOCK,
        ensures
            final(self).wf_parts(),
            final(self).literals() == old(self).literals() + x@,
            final(self).lmds() == old(self).lmds(),
            final(self).hist() == old(self).hist(),
            final(self).sound() == old(self).sound(),
            final(self).sound() ==> final(self).data() == old(self).data() + x@,
    {
        proof {
            if self.sound@ {
                lemma_block_add_literals(self.hist@, self.literals@, self.lmds@, x@);
            }
        }
        self.literals.push(x);
    }

    /// Raw bytes the block expands to.
    pub fn n_raw_bytes(&self) -> (r: u32)
        requires
            self.wf(),
        ensures
            r == self.raw_len(),
    {
        let _n = self.lmds.len();
        proof {
            assert(self.n_match_bytes <= LMDS_PER_BLOCK * MAX_M_VALUE) by (nonlinear_arith)
                requires
                    self.n_match_bytes <= self.lmds@.len() * MAX_M_VALUE,
                    self.lmds@.len() <= LMDS_PER_BLOCK,
            ;
        }
        self.literals.len() as u32 + self.n_match_bytes
    }
}

impl Default for Buffer {
    fn default() -> (r: Self)
        ensures
            r.wf(),
            r.literals() == Seq::<u8>::empty(),
            r.lmds() == Seq::<LmdPack>::empty(),
            r.hist() == Seq::<u8>::empty(),
            r.data() == Seq::<u8>::empty(),
            r.sound(),
    {
        proof {
            lemma_block_empty(Seq::empty());
        }
        Buffer {
            literals: Literals::default(),
            lmds: Lmds::default(),
            n_match_bytes: 0,
            match_distance: 0,
            hist: Ghost(Seq::empty()),
            sound: Ghost(true),
        }
    }
}


impl Buffer {
    /// The literals held, padded up to a multiple of four from the buffer.
    pub closed spec fn padded_literals(&self) -> Seq<u8> {
        self.literals.padded()
    }

    /// Encodes the literals then the triples onto `dst` and returns the block parameters.
    pub fn store(&self, dst: &mut Vec<u8>, encoder: &Encoder) -> (r: FseBlock)
        requires
            self.wf(),
            encoder.wf(),
        ensures
            ({
                let w = encoder.weights();
                let n4 = super::literals::round4(self.literals().len());
                let (lst, lv, ll) = super::literals::lit_enc(
                    super::weights::u_part(w),
                    self.padded_literals(),
                    n4 / 4,
                );
                let (mst, mv, ml) = super::lmds::lmd_enc(
                    w,
                    super::lmds::triples_of(self.lmds()),
                    self.lmds().len(),
                );
                let m0 = old(dst)@.len() as int;
                let m1 = m0 + r@.0.1;
                let m2 = m1 + r@.1.1;
                &&& final(dst)@.len() == m2
                &&& final(dst)@.subrange(0, m0) == old(dst)@
                &&& r@.0.0 == n4
                &&& r@.0.3 == super::literals::lit_states(lst)
                &&& bytes_value(final(dst)@.subrange(m0, m1)) == lv
                &&& 8 * r@.0.1 == ll + r@.0.2
                &&& r@.1.0 == self.lmds().len()
                &&& r@.1.3 == super::lmds::lmd_states(mst)
                &&& r@.1.1 >= 8
                &&& final(dst)@.subrange(m1, m1 + 8) == Seq::new(8, |i: int| 0u8)
                &&& bytes_value(final(dst)@.subrange(m1 + 8, m2)) == mv
                &&& 8 * (r@.1.1 - 8) == ml + r@.1.2
                &&& r@.2 == self.raw_len()
            }),
    {
        let ghost d0 = dst@;
        let literal_param = self.literals.store(dst, encoder);
        let ghost d1 = dst@;
        let lmd_param = self.lmds.store(dst, encoder);
        let n_raw_bytes = self.n_raw_bytes();
        let _nl = self.lmds.len();
        proof {
            assert(dst@.subrange(0, d0.len() as int) =~= d1.subrange(0, d0.len() as int));
            assert(dst@.subrange(d0.len() as int, d1.len() as int) =~= d1.subrange(d0.len() as int, d1.len() as int));
            assert(super::lmds::triples_of(self.lmds@) == self.lmds.triples());
            assert(n_raw_bytes <= super::block::raw_limit(literal_param@.0 as nat, lmd_param@.0 as nat)) by (nonlinear_arith)
                requires
                    n_raw_bytes == self.literals@.len() + self.n_match_bytes,
                    self.n_match_bytes <= self.lmds@.len() * MAX_M_VALUE,
                    literal_param@.0 >= self.literals@.len(),
                    lmd_param@.0 == self.lmds@.len(),
            ;
        }
        match FseBlock::new(n_raw_bytes, literal_param, lmd_param) {
            Ok(b) => b,
            Err(_) => {
                proof {
                    assert(false);
                }
                FseBlock::default()
            },
        }
    }
}

} // verus!
