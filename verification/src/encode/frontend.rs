use vstd::prelude::*;

use crate::base::{BM_EOS, BM_RAW};
use crate::fse::backend::{block_bound, push_cost, FseBackend};
use crate::fse::constants::{MAX_D_VALUE, V2_HEADER_SIZE};
use crate::fse::stream::{blocks_chain, lemma_chain_append, lemma_chain_empty, lemma_chain_stream, v2_stream};
use crate::le::{le_u32, push_u32, read_u32};
use crate::lz::lz_match;

use super::history::{clamp_spec, empty_table, index_of, match_us, History, HistoryTable, UIdx, CLAMP_INTERVAL};
use super::match_object::{select_spec, Match};
use super::raw::{raw_compress, raw_form};

verus! {

/// Match length at which a match is emitted at once.
pub const GOOD_MATCH_LEN: u32 = 0x0028;

/// Shortest match kept.
pub const MATCH_UNIT: u32 = 4;

/// Inputs of at most this many bytes are stored raw.
pub const RAW_CUTOFF: u32 = 0x0014;

/// Longest stretch a match is extended by in each direction.
pub const MAX_MATCH_LEN: u32 = 0x10_0000;

/// Input bytes the window holds: matches reach back no further than its head.
pub const RING_SIZE: usize = 0x0008_0000;

/// Input bytes taken in at a time: the window moves on in steps of whole blocks.
pub const RING_BLK_SIZE: usize = 0x4000;

/// Room kept between the end of a match found while the window is full and the window tail.
pub const OVERMATCH_LEN: usize = 0x24;

/// Longest match taken while the window is full, which keeps matches short of the tail.
pub const RING_MAX_MATCH_LEN: usize = RING_SIZE / 2 - RING_BLK_SIZE - OVERMATCH_LEN;

/// An LZ operation: literals, then a match of a length at a distance.
pub type Op = (Seq<u8>, nat, nat);

/// A history table after a new stream starts: the newest entry of each queue is moved out of
/// reach.
pub open spec fn aged(t: Seq<Seq<UIdx>>) -> Seq<Seq<UIdx>> {
    Seq::new(
        t.len(),
        |q: int| t[q].update(0, UIdx { u: t[q][0].u, idx: (0x1_0000_0000 - CLAMP_INTERVAL) as u32 }),
    )
}

/// The operations a stream of `src` is parsed into when its parse starts from history table
/// `t` with no match pending.
pub open spec fn parse_ops(src: Seq<u8>, t: Seq<Seq<UIdx>>) -> Seq<Op> {
    finish_ops(src, 0, t, Match { idx: 0, match_idx: 0, match_len: 0 }, 0, 0)
}

/// The history table `t` with every queue clamped at `idx`.
pub open spec fn clamped_table(t: Seq<Seq<UIdx>>, idx: u32) -> Seq<Seq<UIdx>> {
    Seq::new(t.len(), |q: int| clamp_spec(t[q], idx))
}

/// What pushing a sequence of LZ operations into the backend may cost, operation by operation.
pub open spec fn ops_cost(ops: Seq<Op>) -> nat
    decreases ops.len(),
{
    if ops.len() == 0 {
        0
    } else {
        ops_cost(ops.drop_last()) + push_cost(ops.last().0.len(), ops.last().1)
    }
}

/// Most bytes the V2 blocks of a stream made of `ops` take: the cost of the operations and of
/// the last block.
pub open spec fn fse_bound(ops: Seq<Op>) -> nat {
    block_bound(0, 0) + ops_cost(ops)
}

/// The cost of operations one after the other is the sum of their costs.
pub proof fn lemma_ops_cost_concat(a: Seq<Op>, b: Seq<Op>)
    ensures
        ops_cost(a + b) == ops_cost(a) + ops_cost(b),
    decreases b.len(),
{
    if b.len() == 0 {
        assert(a + b =~= a);
    } else {
        lemma_ops_cost_concat(a, b.drop_last());
        assert((a + b).drop_last() =~= a + b.drop_last());
        assert((a + b).last() == b.last());
    }
}

/// The bytes a sequence of LZ operations stands for.
pub open spec fn lz_expand(ops: Seq<Op>) -> Seq<u8>
    decreases ops.len(),
{
    if ops.len() == 0 {
        Seq::empty()
    } else {
        let (l, m, d) = ops.last();
        lz_match(lz_expand(ops.drop_last()) + l, m, d)
    }
}

/// `m` is empty, or a match of the input `data` starting at or after `li`: its bytes repeat
/// those `idx - match_idx` bytes back, within the distance limit.
pub open spec fn valid_match(m: Match, data: Seq<u8>, li: nat) -> bool {
    m.match_len > 0 ==> {
        &&& m.match_idx < m.idx
        &&& m.idx - m.match_idx <= MAX_D_VALUE
        &&& li <= m.idx
        &&& m.idx + m.match_len <= data.len()
        &&& forall|k: int| 0 <= k < m.match_len ==> #[trigger] data[m.idx + k] == data[m.match_idx + k]
    }
}

/// A match copied byte by byte from `dist` back reproduces input bytes that repeat.
pub proof fn lemma_match_extends(data: Seq<u8>, i: int, len: nat, dist: nat)
    requires
        1 <= dist <= i,
        i + len <= data.len(),
        forall|k: int| 0 <= k < len ==> #[trigger] data[i + k] == data[i - dist + k],
    ensures
        lz_match(data.subrange(0, i), len, dist) == data.subrange(0, i + len),
    decreases len,
{
    if len > 0 {
        let l1 = (len - 1) as nat;
        lemma_match_extends(data, i, l1, dist);
        let o = lz_match(data.subrange(0, i), l1, dist);
        assert(data[i + l1] == data[i - dist + l1]);
        assert(o.push(o[o.len() - dist]) =~= data.subrange(0, i + len));
    }
}

/// Length of the common run of `d` from `a` and from `b`, at most `max` bytes.
pub open spec fn run_fwd(d: Seq<u8>, a: int, b: int, max: nat) -> nat
    decreases max,
{
    if max == 0 || d[a] != d[b] {
        0
    } else {
        1 + run_fwd(d, a + 1, b + 1, (max - 1) as nat)
    }
}

/// Length of the common run of `d` before `a` and before `b`, at most `max` bytes.
pub open spec fn run_bwd(d: Seq<u8>, a: int, b: int, max: nat) -> nat
    decreases max,
{
    if max == 0 || d[a - 1] != d[b - 1] {
        0
    } else {
        1 + run_bwd(d, a - 1, b - 1, (max - 1) as nat)
    }
}

/// A run of `r` equal bytes that stops at `max` or at a difference is the common run.
proof fn lemma_run_fwd(d: Seq<u8>, a: int, b: int, max: nat, r: nat)
    requires
        r <= max,
        forall|k: int| 0 <= k < r ==> #[trigger] d[a + k] == d[b + k],
        r < max ==> d[a + r] != d[b + r],
    ensures
        run_fwd(d, a, b, max) == r,
    decreases r,
{
    if r > 0 {
        assert(d[a + 0] == d[b + 0]);
        assert forall|k: int| 0 <= k < r - 1 implies #[trigger] d[(a + 1) + k] == d[(b + 1) + k] by {
            assert(d[a + (k + 1)] == d[b + (k + 1)]);
        }
        if r - 1 < max - 1 {
            assert(d[a + r] != d[b + r]);
            assert(d[(a + 1) + (r - 1)] != d[(b + 1) + (r - 1)]);
        }
        lemma_run_fwd(d, a + 1, b + 1, (max - 1) as nat, (r - 1) as nat);
    }
}

/// A run of `r` equal bytes back that stops at `max` or at a difference is the common run.
proof fn lemma_run_bwd(d: Seq<u8>, a: int, b: int, max: nat, r: nat)
    requires
        r <= max,
        forall|k: int| 1 <= k <= r ==> #[trigger] d[a - k] == d[b - k],
        r < max ==> d[a - r - 1] != d[b - r - 1],
    ensures
        run_bwd(d, a, b, max) == r,
    decreases r,
{
    if r > 0 {
        assert(d[a - 1] == d[b - 1]);
        assert forall|k: int| 1 <= k <= r - 1 implies #[trigger] d[(a - 1) - k] == d[(b - 1) - k] by {
            assert(d[a - (k + 1)] == d[b - (k + 1)]);
        }
        if r - 1 < max - 1 {
            assert(d[a - r - 1] != d[b - r - 1]);
            assert(d[(a - 1) - (r - 1) - 1] != d[(b - 1) - (r - 1) - 1]);
        }
        lemma_run_bwd(d, a - 1, b - 1, (max - 1) as nat, (r - 1) as nat);
    }
}

/// The longest forward match at `pos`, of at least `MATCH_UNIT` bytes and at most `max`, among
/// the history entries `q` from `j` on whose unit equals that of `item`, as its length and match
/// index, starting from the best so far `best`; the scan stops at the first entry out of reach.
pub open spec fn scan_matches(
    d: Seq<u8>,
    q: Seq<UIdx>,
    item: UIdx,
    pos: nat,
    max: nat,
    j: nat,
    best: (nat, nat),
) -> (nat, nat)
    decreases 4 - j,
{
    if j >= 4 {
        best
    } else {
        let h = q[j as int];
        let dist = vstd::wrapping::u32_specs::wrapping_sub(pos as u32, h.idx);
        if dist > MAX_D_VALUE {
            best
        } else {
            let next = if dist != 0 && dist <= pos && item.u == h.u {
                let mpos = (pos - dist) as nat;
                let len = run_fwd(d, pos as int, mpos as int, max);
                if len >= MATCH_UNIT && len > best.0 {
                    (len, mpos)
                } else {
                    best
                }
            } else {
                best
            };
            scan_matches(d, q, item, pos, max, j + 1, next)
        }
    }
}

/// The match `find_match` gives at `pos`: the longest forward match among the history entries,
/// extended back as far as the bytes agree, down to the literal index `li` and no further back
/// than the window head `h`; the empty match when there is none.
pub open spec fn best_match(d: Seq<u8>, q: Seq<UIdx>, item: UIdx, pos: nat, max: nat, li: nat, h: nat) -> Match {
    let (len, mi) = scan_matches(d, q, item, pos, max, 0, (0, 0));
    if len == 0 {
        Match { idx: 0, match_idx: 0, match_len: 0 }
    } else {
        let back: nat = if mi >= h {
            (mi - h) as nat
        } else {
            0
        };
        let lim = if back < pos - li {
            back
        } else {
            (pos - li) as nat
        };
        let dec = run_bwd(d, pos as int, mi as int, lim);
        Match { idx: (pos - dec) as usize, match_idx: (mi - dec) as usize, match_len: (len + dec) as u32 }
    }
}

/// The history entry of the match unit at `p` of `d`.
pub open spec fn unit_at(d: Seq<u8>, p: nat) -> UIdx {
    UIdx { u: le_u32(d, p as int) as u32, idx: p as u32 }
}

/// The history table `t` with `item` pushed onto the queue of its unit.
pub open spec fn table_push(t: Seq<Seq<UIdx>>, item: UIdx) -> Seq<Seq<UIdx>> {
    let q = t[index_of(item.u)];
    t.update(index_of(item.u), seq![item, q[0], q[1], q[2]])
}

/// The history table `t` with the units at `from..to` that start before `end` pushed in order.
pub open spec fn table_pushes(d: Seq<u8>, t: Seq<Seq<UIdx>>, from: nat, to: nat, end: nat) -> Seq<
    Seq<UIdx>,
>
    decreases to,
{
    if to <= from {
        t
    } else {
        let t2 = table_pushes(d, t, from, (to - 1) as nat, end);
        if to - 1 < end {
            table_push(t2, unit_at(d, (to - 1) as nat))
        } else {
            t2
        }
    }
}

/// Where a scan of an input of `len` bytes stops: the last position where a whole match unit
/// starts, plus one.
pub open spec fn scan_end(len: nat) -> nat {
    if len >= MATCH_UNIT {
        (len - MATCH_UNIT + 1) as nat
    } else {
        0
    }
}

/// The greedy scan of the input `d` from position `idx` up to `end`, in the window from head
/// `h`, with matches of at most `cap` bytes forward, the history table `t`, the pending match
/// `p` and the literal index `li`: at each position where a whole match unit starts, the unit is
/// pushed into the history, the best match there is chosen against the pending one, and a
/// chosen match is pushed with the literals before it; positions it covers only enter the
/// history. Gives the table, the pending match, the literal index, the position the scan ended
/// at and the operations pushed.
pub open spec fn greedy(d: Seq<u8>, h: nat, end: nat, cap: nat, t: Seq<Seq<UIdx>>, p: Match, li: nat, idx: nat) -> (
    Seq<Seq<UIdx>>,
    Match,
    nat,
    nat,
    Seq<Op>,
)
    decreases d.len() - idx,
{
    let len = d.len();
    if len < MATCH_UNIT || idx + MATCH_UNIT > len || idx >= end {
        (t, p, li, idx, Seq::empty())
    } else {
        let item = unit_at(d, idx);
        let q = t[index_of(item.u)];
        let t1 = table_push(t, item);
        let max: nat = if len - idx < cap {
            (len - idx) as nat
        } else {
            cap
        };
        let inc = best_match(d, q, item, idx, max, li, h);
        let (p2, sel) = select_spec(p, inc, GOOD_MATCH_LEN);
        match sel {
            Some(m) => {
                let li2 = (m.idx + m.match_len) as nat;
                let op: Op = (d.subrange(li as int, m.idx as int), m.match_len as nat, (m.idx - m.match_idx) as nat);
                let t2 = table_pushes(d, t1, idx + 1, li2, (len - MATCH_UNIT + 1) as nat);
                let idx2: nat = if idx + 1 < li2 {
                    li2
                } else {
                    idx + 1
                };
                if idx2 > len {
                    (t2, p2, li2, idx2, seq![op])
                } else {
                    let r = greedy(d, h, end, cap, t2, p2, li2, idx2);
                    (r.0, r.1, r.2, r.3, seq![op] + r.4)
                }
            },
            None => greedy(d, h, end, cap, t1, p2, li, idx + 1),
        }
    }
}

/// The operations that end a parse: the greedy scan of `d` from position `idx` to the end, in
/// the window from head `h`, with the history table `t`, the pending match `p` and the literal
/// index `li`, then the match left pending, then the literals left over.
pub open spec fn finish_ops(d: Seq<u8>, h: nat, t: Seq<Seq<UIdx>>, p: Match, li: nat, idx: nat) -> Seq<Op> {
    let g = greedy(d, h, scan_end(d.len()), MAX_MATCH_LEN as nat, t, p, li, idx);
    let pm = g.1;
    let ops1 = if pm.match_len != 0 {
        g.4.push((d.subrange(g.2 as int, pm.idx as int), pm.match_len as nat, (pm.idx - pm.match_idx) as nat))
    } else {
        g.4
    };
    let li1: nat = if pm.match_len != 0 {
        (pm.idx + pm.match_len) as nat
    } else {
        g.2
    };
    if li1 < d.len() {
        ops1.push((d.subrange(li1 as int, d.len() as int), 0nat, 1nat))
    } else {
        ops1
    }
}

/// The state of the front end that taking in input changes: window head, literal index, scan
/// position, block mark, history, pending match, operations pushed, clamp point and whether the
/// stream has committed to FSE blocks.
pub struct RingState {
    pub head: nat,
    pub literal_idx: nat,
    pub idx: nat,
    pub mark: nat,
    pub table: Seq<Seq<UIdx>>,
    pub pending: Match,
    pub ops: Seq<Op>,
    pub clamp: u32,
    pub committed: bool,
}

/// What a full block does to the state `s`, `d` being the input up to the block's end: while
/// the window is not full the next block opens; once it is, the block after the window's
/// middle is scanned with capped matches, the head moves on by whole blocks to leave the scan
/// position in the block after the middle, literals the head passes are pushed as they are with
/// the pending match dropped, and the history is clamped once the scan position passes the clamp
/// point.
pub open spec fn block_step(s: RingState, d: Seq<u8>) -> RingState {
    if s.mark != s.head + RING_SIZE {
        RingState { mark: s.mark + RING_BLK_SIZE as nat, ..s }
    } else {
        let h = s.head;
        let g = greedy(
            d,
            h,
            (h + RING_SIZE / 2 + RING_BLK_SIZE) as nat,
            RING_MAX_MATCH_LEN as nat,
            s.table,
            s.pending,
            s.literal_idx,
            s.idx,
        );
        let h2 = (h + (g.3 - h - RING_SIZE / 2) / RING_BLK_SIZE as int * RING_BLK_SIZE) as nat;
        let i = g.3 as u32;
        let over = g.2 < h2;
        let far = vstd::wrapping::u32_specs::wrapping_sub(i, s.clamp) < 0x8000_0000;
        RingState {
            head: h2,
            literal_idx: if over { h2 } else { g.2 },
            idx: g.3,
            mark: s.mark + RING_BLK_SIZE as nat,
            table: if far { clamped_table(g.0, i) } else { g.0 },
            pending: if over {
                Match { idx: g.1.idx, match_idx: g.1.match_idx, match_len: 0 }
            } else {
                g.1
            },
            ops: if over {
                s.ops + g.4.push((d.subrange(g.2 as int, h2 as int), 0nat, 1nat))
            } else {
                s.ops + g.4
            },
            clamp: if far { vstd::wrapping::u32_specs::wrapping_add(s.clamp, CLAMP_INTERVAL) } else { s.clamp },
            committed: true,
        }
    }
}

/// What taking in input does to the state `s`, `d` being the whole input once taken in: each
/// block that fills takes a `block_step`.
pub open spec fn write_steps(s: RingState, d: Seq<u8>) -> RingState
    decreases d.len() + RING_BLK_SIZE - s.mark,
{
    if s.mark > d.len() {
        s
    } else {
        write_steps(block_step(s, d.subrange(0, s.mark as int)), d)
    }
}

/// Encoder front end over a window of the input: takes input in block by block, finds matches
/// through the history table and pushes literals and matches into the backend. It holds the
/// input from the window head on, at most `RING_SIZE` bytes; the whole input is kept only as a
/// ghost, for the contracts.
pub struct FrontendRing {
    table: HistoryTable,
    buf: Vec<u8>,
    input: Ghost<Seq<u8>>,
    pending: Match,
    head: usize,
    literal_idx: usize,
    idx: usize,
    mark: usize,
    clamp: u32,
    committed: bool,
    ops: Ghost<Seq<Op>>,
}

impl FrontendRing {
    /// The state that taking in input changes.
    pub closed spec fn state(&self) -> RingState {
        RingState {
            head: self.head as nat,
            literal_idx: self.literal_idx as nat,
            idx: self.idx as nat,
            mark: self.mark as nat,
            table: self.table@,
            pending: self.pending,
            ops: self.ops@,
            clamp: self.clamp,
            committed: self.committed,
        }
    }

    /// The input written so far.
    pub closed spec fn data(&self) -> Seq<u8> {
        self.input@
    }

    /// The operations pushed into the backend so far.
    pub closed spec fn ops(&self) -> Seq<Op> {
        self.ops@
    }

    /// Input bytes pushed into the backend so far.
    pub closed spec fn literal_idx(&self) -> nat {
        self.literal_idx as nat
    }

    /// The history queues, one per hash of the match unit.
    pub closed spec fn table(&self) -> Seq<Seq<UIdx>> {
        self.table@
    }

    /// The match found but not yet pushed.
    pub closed spec fn pending_match(&self) -> Match {
        self.pending
    }

    /// The match found but not yet pushed.
    pub fn pending(&self) -> (r: Match)
        ensures
            r == self.pending_match(),
    {
        self.pending
    }

    /// Head of the window: the scan finds no match that reaches back before it.
    pub closed spec fn head(&self) -> nat {
        self.head as nat
    }

    /// Position the scan goes on from.
    pub closed spec fn scan_idx(&self) -> nat {
        self.idx as nat
    }

    /// Where the input taken in fills the current block.
    pub closed spec fn mark(&self) -> nat {
        self.mark as nat
    }

    /// The scan position at which the history is next clamped, as the history counts positions.
    pub closed spec fn clamp_point(&self) -> u32 {
        self.clamp
    }

    /// Whether the window has filled once: the stream is then made of FSE blocks, some of them
    /// already emitted.
    pub closed spec fn committed(&self) -> bool {
        self.committed
    }

    /// Internal consistency: head, literal index, scan position, tail (the input's end) and mark
    /// lie in the window in that order, the mark on a block boundary; the operations pushed stand
    /// for the input up to the literal index, and the pending match is a match of the input past
    /// it.
    pub closed spec fn wf(&self) -> bool {
        &&& self.table.wf()
        &&& self.head <= self.literal_idx <= self.input@.len()
        &&& self.head <= self.idx <= self.input@.len()
        &&& self.input@.len() <= self.mark <= self.head + RING_SIZE
        &&& self.mark % RING_BLK_SIZE == 0
        &&& self.head % RING_BLK_SIZE == 0
        &&& self.buf@ == self.input@.subrange(self.head as int, self.input@.len() as int)
        &&& self.input@.len() <= usize::MAX
        &&& lz_expand(self.ops@) == self.input@.subrange(0, self.literal_idx as int)
        &&& valid_match(self.pending, self.input@, self.literal_idx as nat)
    }

    /// Ready to take in input: the current block is not full and the scan has not fallen behind
    /// the literal index. Before the window first fills nothing has been scanned; after, the
    /// scan position lies in the block after the window's middle.
    pub closed spec fn ready(&self) -> bool {
        &&& self.input@.len() < self.mark
        &&& self.literal_idx <= self.idx
        &&& !self.committed ==> self.head == 0 && self.literal_idx == 0 && self.idx == 0
            && self.pending.match_len == 0
        &&& self.committed ==> self.head + RING_SIZE / 2 <= self.idx < self.head + RING_SIZE / 2
            + RING_BLK_SIZE
    }

    /// Length of the input taken in.
    pub fn input_len(&self) -> (r: usize)
        requires
            self.wf(),
        ensures
            r == self.data().len(),
    {
        self.tail()
    }

    /// The end of the input taken in.
    fn tail(&self) -> (r: usize)
        requires
            self.wf(),
        ensures
            r == self.input@.len(),
    {
        self.head + self.buf.len()
    }

    /// Input bytes the front end holds: those from the window head on.
    pub closed spec fn held(&self) -> nat {
        self.buf@.len()
    }

    /// The front end holds no more input than the window: memory stays bounded however long
    /// the stream.
    pub proof fn lemma_held_bound(&self)
        requires
            self.wf(),
        ensures
            self.held() <= RING_SIZE,
            self.held() == self.data().len() - self.head(),
    {
    }

    /// Until the window first fills, the input is shorter than the window.
    pub proof fn lemma_uncommitted_len(&self)
        requires
            self.wf(),
            self.ready(),
            !self.committed(),
        ensures
            self.data().len() < RING_SIZE,
            self.literal_idx() == 0,
    {
    }

    /// A front end with an empty input.
    pub fn new() -> (r: Self)
        ensures
            r.wf(),
            r.data() == Seq::<u8>::empty(),
            r.ops() == Seq::<Op>::empty(),
            r.literal_idx() == 0,
            r.table() == empty_table(),
            r.pending_match() == (Match { idx: 0, match_idx: 0, match_len: 0 }),
            r.ready(),
            !r.committed(),
    {
        let r = FrontendRing {
            table: HistoryTable::default(),
            buf: Vec::new(),
            input: Ghost(Seq::empty()),
            pending: Match::default(),
            head: 0,
            literal_idx: 0,
            idx: 0,
            mark: RING_BLK_SIZE,
            clamp: CLAMP_INTERVAL,
            committed: false,
            ops: Ghost(Seq::empty()),
        };
        proof {
            assert(r.input@.subrange(0, 0) =~= Seq::<u8>::empty());
        }
        r
    }

    /// Starts a new stream: drops the input and ages every history entry out of reach.
    pub fn init(&mut self)
        requires
            old(self).wf(),
        ensures
            final(self).wf(),
            final(self).data() == Seq::<u8>::empty(),
            final(self).ops() == Seq::<Op>::empty(),
            final(self).literal_idx() == 0,
            final(self).pending_match() == (Match { idx: 0, match_idx: 0, match_len: 0 }),
            final(self).table().len() == old(self).table().len(),
            forall|q: int|
                0 <= q < old(self).table().len() ==> #[trigger] final(self).table()[q] == old(
                    self,
                ).table()[q].update(
                    0,
                    UIdx { u: old(self).table()[q][0].u, idx: (0x1_0000_0000 - CLAMP_INTERVAL) as u32 },
                ),
            final(self).table() == aged(old(self).table()),
            final(self).ready(),
            !final(self).committed(),
    {
        proof {
            self.table.lemma_len();
        }
        self.table.reset_idx(0u32.wrapping_sub(CLAMP_INTERVAL));
        proof {
            self.table.lemma_len();
        }
        self.pending = Match::default();
        self.head = 0;
        self.idx = 0;
        self.mark = RING_BLK_SIZE;
        self.clamp = CLAMP_INTERVAL;
        self.committed = false;
        self.literal_idx = 0;
        self.buf.clear();
        self.input = Ghost(Seq::empty());
        self.ops = Ghost(Seq::empty());
        proof {
            assert(self.input@.subrange(0, 0) =~= Seq::<u8>::empty());
            assert(self.table@ =~= aged(old(self).table()));
        }
    }

    /// Appends `src` to the input, within the current block.
    fn write_block_len(&mut self, src: &[u8])
        requires
            old(self).wf(),
            old(self).data().len() + src@.len() <= old(self).mark(),
        ensures
            final(self).wf(),
            final(self).data() == old(self).data() + src@,
            final(self).ops() == old(self).ops(),
            final(self).literal_idx() == old(self).literal_idx(),
            final(self).scan_idx() == old(self).scan_idx(),
            final(self).head() == old(self).head(),
            final(self).mark() == old(self).mark(),
            final(self).committed() == old(self).committed(),
            final(self).table() == old(self).table(),
            final(self).pending_match() == old(self).pending_match(),
            final(self).clamp_point() == old(self).clamp_point(),
    {
        let ghost d0 = self.input@;
        self.buf.extend_from_slice(src);
        self.input = Ghost(d0 + src@);
        proof {
            assert(self.buf@ =~= self.input@.subrange(self.head as int, self.input@.len() as int));
            assert(self.input@.subrange(0, self.literal_idx as int) =~= d0.subrange(
                0,
                self.literal_idx as int,
            ));
            let p = self.pending;
            if p.match_len > 0 {
                assert forall|k: int| 0 <= k < p.match_len implies #[trigger] self.input@[p.idx + k]
                    == self.input@[p.match_idx + k] by {
                    assert(d0[p.idx + k] == d0[p.match_idx + k]);
                }
            }
        }
    }

    /// Takes in `src`, block by block: each time the current block fills, the block is handed to
    /// `match_block`, which may push matches and literals into `backend` and emit blocks to
    /// `dst`. Returns the length of `src`.
    pub fn write(&mut self, backend: &mut FseBackend, src: &[u8], dst: &mut Vec<u8>) -> (r: usize)
        requires
            old(self).wf(),
            old(self).ready(),
            old(backend).wf(),
            old(self).committed() ==> old(backend).data() == lz_expand(old(self).ops()),
            old(self).data().len() + src@.len() + 2 * RING_SIZE <= usize::MAX,
        ensures
            final(self).wf(),
            final(self).ready(),
            final(backend).wf(),
            final(self).data() == old(self).data() + src@,
            r == src@.len(),
            final(self).committed() <==> (old(self).committed() || old(self).data().len() + src@.len()
                >= RING_SIZE),
            final(self).committed() ==> final(backend).data() == lz_expand(final(self).ops()),
            final(dst)@.len() >= old(dst)@.len(),
            final(dst)@.subrange(0, old(dst)@.len() as int) == old(dst)@,
            !final(self).committed() ==> {
                &&& final(dst)@ == old(dst)@
                &&& *final(backend) == *old(backend)
                &&& final(self).ops() == old(self).ops()
                &&& final(self).table() == old(self).table()
                &&& final(self).pending_match() == old(self).pending_match()
                &&& final(self).literal_idx() == old(self).literal_idx()
                &&& final(self).scan_idx() == old(self).scan_idx()
            },
            final(self).state() == write_steps(old(self).state(), old(self).data() + src@),
            final(self).committed() ==> blocks_chain(
                final(dst)@.subrange(old(dst)@.len() as int, final(dst)@.len() as int),
                if old(self).committed() {
                    old(backend).hist()
                } else {
                    Seq::<u8>::empty()
                },
                final(backend).hist(),
            ),
    {
        let ghost d0 = dst@;
        let ghost data0 = self.input@;
        let ghost h0 = if self.committed {
            backend.hist()
        } else {
            Seq::<u8>::empty()
        };
        let mut pos: usize = 0;
        proof {
            assert(src@.subrange(0, 0) =~= Seq::<u8>::empty());
            assert(data0 + Seq::<u8>::empty() =~= data0);
            assert(dst@.subrange(0, d0.len() as int) =~= d0);
            assert(dst@.subrange(d0.len() as int, dst@.len() as int) =~= Seq::<u8>::empty());
            lemma_chain_empty(h0);
        }
        loop
            invariant
                self.wf(),
                self.ready(),
                backend.wf(),
                pos <= src@.len(),
                self.input@ == data0 + src@.subrange(0, pos as int),
                data0 == old(self).data(),
                data0.len() + src@.len() + 2 * RING_SIZE <= usize::MAX,
                self.committed ==> backend.data() == lz_expand(self.ops@),
                self.committed <==> (old(self).committed() || self.input@.len() >= RING_SIZE),
                old(self).committed() ==> h0 == old(backend).hist(),
                !old(self).committed() ==> h0 == Seq::<u8>::empty(),
                dst@.len() >= d0.len(),
                dst@.subrange(0, d0.len() as int) == d0,
                d0 == old(dst)@,
                !self.committed ==> {
                    &&& dst@ == d0
                    &&& *backend == *old(backend)
                    &&& self.ops@ == old(self).ops()
                    &&& self.table@ == old(self).table()
                    &&& self.pending == old(self).pending_match()
                    &&& self.literal_idx == old(self).literal_idx()
                    &&& self.idx == old(self).scan_idx()
                },
                self.committed ==> blocks_chain(dst@.subrange(d0.len() as int, dst@.len() as int), h0, backend.hist()),
                write_steps(self.state(), data0 + src@) == write_steps(old(self).state(), data0 + src@),
            ensures
                self.wf(),
                self.ready(),
                backend.wf(),
                pos <= src@.len(),
                self.input@ == data0 + src@.subrange(0, pos as int),
                data0 == old(self).data(),
                data0.len() + src@.len() + 2 * RING_SIZE <= usize::MAX,
                self.committed ==> backend.data() == lz_expand(self.ops@),
                self.committed <==> (old(self).committed() || self.input@.len() >= RING_SIZE),
                old(self).committed() ==> h0 == old(backend).hist(),
                !old(self).committed() ==> h0 == Seq::<u8>::empty(),
                dst@.len() >= d0.len(),
                dst@.subrange(0, d0.len() as int) == d0,
                d0 == old(dst)@,
                !self.committed ==> {
                    &&& dst@ == d0
                    &&& *backend == *old(backend)
                    &&& self.ops@ == old(self).ops()
                    &&& self.table@ == old(self).table()
                    &&& self.pending == old(self).pending_match()
                    &&& self.literal_idx == old(self).literal_idx()
                    &&& self.idx == old(self).scan_idx()
                },
                self.committed ==> blocks_chain(dst@.subrange(d0.len() as int, dst@.len() as int), h0, backend.hist()),
                write_steps(self.state(), data0 + src@) == write_steps(old(self).state(), data0 + src@),
                pos == src@.len(),
            decreases src@.len() - pos,
        {
            let limit = self.mark - self.tail();
            let rest = src.len() - pos;
            if rest < limit {
                self.write_block_len(vstd::slice::slice_subrange(src, pos, src.len()));
                proof {
                    assert(data0 + src@.subrange(0, pos as int) + src@.subrange(pos as int, src@.len() as int)
                        =~= data0 + src@.subrange(0, src@.len() as int));
                    assert(src@.subrange(0, src@.len() as int) =~= src@);
                }
                pos = src.len();
                proof {
                    assert(self.state().mark > (data0 + src@).len());
                }
                break;
            }
            self.write_block_len(vstd::slice::slice_subrange(src, pos, pos + limit));
            proof {
                assert(data0 + src@.subrange(0, pos as int) + src@.subrange(pos as int, pos + limit)
                    =~= data0 + src@.subrange(0, pos + limit));
            }
            pos = pos + limit;
            let ghost d1 = dst@;
            let ghost c1 = self.committed;
            let ghost hb = backend.hist();
            let ghost st = self.state();
            proof {
                let full = data0 + src@;
                assert(self.input@ =~= full.subrange(0, st.mark as int));
                assert(write_steps(st, full) == write_steps(block_step(st, full.subrange(0, st.mark as int)), full));
            }
            self.match_block(backend, dst);
            proof {
                if self.committed {
                    if c1 {
                        lemma_chain_append(d0, d1, dst@, h0, hb, backend.hist());
                    } else {
                        assert(d1 == d0);
                        assert(dst@.subrange(0, d0.len() as int) =~= d0);
                    }
                }
            }
        }
        src.len()
    }

    /// A full block is in: while the window is not full the next block is opened; once it is,
    /// the stream commits to FSE blocks, the block after the window's middle is scanned, the
    /// window moves on past it and the history is clamped.
    #[verifier::rlimit(100)]
    #[verifier::spinoff_prover]
    fn match_block(&mut self, backend: &mut FseBackend, dst: &mut Vec<u8>)
        requires
            old(self).wf(),
            old(backend).wf(),
            old(self).data().len() == old(self).mark(),
            old(self).data().len() + 2 * RING_SIZE <= usize::MAX,
            old(self).literal_idx() <= old(self).scan_idx(),
            !old(self).committed() ==> old(self).head() == 0 && old(self).literal_idx() == 0
                && old(self).scan_idx() == 0 && old(self).pending_match().match_len == 0,
            old(self).committed() ==> old(self).head() + RING_SIZE / 2 <= old(self).scan_idx()
                < old(self).head() + RING_SIZE / 2 + RING_BLK_SIZE,
            old(self).committed() ==> old(backend).data() == lz_expand(old(self).ops()),
        ensures
            final(self).wf(),
            final(self).ready(),
            final(backend).wf(),
            final(self).data() == old(self).data(),
            final(self).committed() <==> (old(self).committed() || old(self).data().len() >= RING_SIZE),
            final(self).committed() ==> final(backend).data() == lz_expand(final(self).ops()),
            final(dst)@.len() >= old(dst)@.len(),
            final(dst)@.subrange(0, old(dst)@.len() as int) == old(dst)@,
            !final(self).committed() ==> {
                &&& final(dst)@ == old(dst)@
                &&& *final(backend) == *old(backend)
                &&& final(self).ops() == old(self).ops()
                &&& final(self).table() == old(self).table()
                &&& final(self).pending_match() == old(self).pending_match()
                &&& final(self).literal_idx() == old(self).literal_idx()
                &&& final(self).scan_idx() == old(self).scan_idx()
            },
            old(self).committed() ==> blocks_chain(
                final(dst)@.subrange(old(dst)@.len() as int, final(dst)@.len() as int),
                old(backend).hist(),
                final(backend).hist(),
            ),
            !old(self).committed() && final(self).committed() ==> blocks_chain(
                final(dst)@.subrange(old(dst)@.len() as int, final(dst)@.len() as int),
                Seq::<u8>::empty(),
                final(backend).hist(),
            ),
            final(self).state() == block_step(old(self).state(), old(self).data()),
            old(self).mark() != old(self).head() + RING_SIZE ==> {
                &&& final(self).mark() == old(self).mark() + RING_BLK_SIZE
                &&& final(self).head() == old(self).head()
                &&& final(self).committed() == old(self).committed()
                &&& final(self).table() == old(self).table()
                &&& final(self).clamp_point() == old(self).clamp_point()
                &&& final(dst)@ == old(dst)@
            },
            old(self).mark() == old(self).head() + RING_SIZE ==> ({
                let h = old(self).head();
                let g = greedy(
                    old(self).data(),
                    h,
                    (h + RING_SIZE / 2 + RING_BLK_SIZE) as nat,
                    RING_MAX_MATCH_LEN as nat,
                    old(self).table(),
                    old(self).pending_match(),
                    old(self).literal_idx(),
                    old(self).scan_idx(),
                );
                let h2 = (h + (g.3 - h - RING_SIZE / 2) / RING_BLK_SIZE as int * RING_BLK_SIZE) as nat;
                let i = final(self).idx as u32;
                &&& final(self).committed()
                &&& final(self).head() == h2
                &&& final(self).scan_idx() == g.3
                &&& final(self).mark() == old(self).data().len() + RING_BLK_SIZE
                &&& g.2 < h2 ==> {
                    &&& final(self).literal_idx() == h2
                    &&& final(self).pending_match() == (Match { idx: g.1.idx, match_idx: g.1.match_idx, match_len: 0 })
                    &&& final(self).ops() == old(self).ops() + g.4.push(
                        (old(self).data().subrange(g.2 as int, h2 as int), 0nat, 1nat),
                    )
                }
                &&& g.2 >= h2 ==> {
                    &&& final(self).literal_idx() == g.2
                    &&& final(self).pending_match() == g.1
                    &&& final(self).ops() == old(self).ops() + g.4
                }
                &&& vstd::wrapping::u32_specs::wrapping_sub(i, old(self).clamp_point()) < 0x8000_0000 ==> {
                    &&& final(self).table() == clamped_table(g.0, i)
                    &&& final(self).clamp_point() == vstd::wrapping::u32_specs::wrapping_add(
                        old(self).clamp_point(),
                        CLAMP_INTERVAL,
                    )
                }
                &&& vstd::wrapping::u32_specs::wrapping_sub(i, old(self).clamp_point()) >= 0x8000_0000 ==> {
                    &&& final(self).table() == g.0
                    &&& final(self).clamp_point() == old(self).clamp_point()
                }
            }),
    {
        if self.mark - self.head != RING_SIZE {
            self.mark = self.mark + RING_BLK_SIZE;
            proof {
                assert(dst@.subrange(0, dst@.len() as int) =~= dst@);
                assert(dst@.subrange(dst@.len() as int, dst@.len() as int) =~= Seq::<u8>::empty());
                lemma_chain_empty(backend.hist());
            }
            return;
        }
        if !self.committed {
            self.committed = true;
            backend.init();
            proof {
                assert(self.input@.subrange(0, 0) =~= Seq::<u8>::empty());
            }
        }
        let ghost d0 = dst@;
        self.slide_window(backend, dst);
        proof {
            if !old(self).committed() {
                assert(dst@.subrange(0, d0.len() as int) =~= d0);
            }
        }
    }

    /// With the window full: scans the block after its middle, moves the window on and clamps
    /// the history.
    #[verifier::rlimit(100)]
    #[verifier::spinoff_prover]
    fn slide_window(&mut self, backend: &mut FseBackend, dst: &mut Vec<u8>)
        requires
            old(self).wf(),
            old(backend).wf(),
            old(backend).data() == lz_expand(old(self).ops()),
            old(self).data().len() == old(self).mark(),
            old(self).mark() == old(self).head() + RING_SIZE,
            old(self).data().len() + 2 * RING_SIZE <= usize::MAX,
            old(self).literal_idx() <= old(self).scan_idx(),
            old(self).scan_idx() < old(self).head() + RING_SIZE / 2 + RING_BLK_SIZE,
            old(self).head() == 0 || old(self).head() + RING_SIZE / 2 <= old(self).scan_idx(),
            old(self).committed(),
        ensures
            final(self).wf(),
            final(self).ready(),
            final(backend).wf(),
            final(self).data() == old(self).data(),
            final(backend).data() == lz_expand(final(self).ops()),
            final(dst)@.len() >= old(dst)@.len(),
            final(dst)@.subrange(0, old(dst)@.len() as int) == old(dst)@,
            blocks_chain(
                final(dst)@.subrange(old(dst)@.len() as int, final(dst)@.len() as int),
                old(backend).hist(),
                final(backend).hist(),
            ),
            ({
                let h = old(self).head();
                let g = greedy(
                    old(self).data(),
                    h,
                    (h + RING_SIZE / 2 + RING_BLK_SIZE) as nat,
                    RING_MAX_MATCH_LEN as nat,
                    old(self).table(),
                    old(self).pending_match(),
                    old(self).literal_idx(),
                    old(self).scan_idx(),
                );
                let h2 = (h + (g.3 - h - RING_SIZE / 2) / RING_BLK_SIZE as int * RING_BLK_SIZE) as nat;
                let i = final(self).idx as u32;
                &&& final(self).committed()
                &&& final(self).head() == h2
                &&& final(self).scan_idx() == g.3
                &&& final(self).mark() == old(self).data().len() + RING_BLK_SIZE
                &&& g.2 < h2 ==> {
                    &&& final(self).literal_idx() == h2
                    &&& final(self).pending_match() == (Match { idx: g.1.idx, match_idx: g.1.match_idx, match_len: 0 })
                    &&& final(self).ops() == old(self).ops() + g.4.push(
                        (old(self).data().subrange(g.2 as int, h2 as int), 0nat, 1nat),
                    )
                }
                &&& g.2 >= h2 ==> {
                    &&& final(self).literal_idx() == g.2
                    &&& final(self).pending_match() == g.1
                    &&& final(self).ops() == old(self).ops() + g.4
                }
                &&& vstd::wrapping::u32_specs::wrapping_sub(i, old(self).clamp_point()) < 0x8000_0000 ==> {
                    &&& final(self).table() == clamped_table(g.0, i)
                    &&& final(self).clamp_point() == vstd::wrapping::u32_specs::wrapping_add(
                        old(self).clamp_point(),
                        CLAMP_INTERVAL,
                    )
                }
                &&& vstd::wrapping::u32_specs::wrapping_sub(i, old(self).clamp_point()) >= 0x8000_0000 ==> {
                    &&& final(self).table() == g.0
                    &&& final(self).clamp_point() == old(self).clamp_point()
                }
            }),
    {
        let ghost d0 = dst@;
        let ghost h0 = backend.hist();
        let ghost ops0 = self.ops@;
        let ghost h = self.head as nat;
        let ghost g = greedy(
            self.input@,
            h,
            (h + RING_SIZE / 2 + RING_BLK_SIZE) as nat,
            RING_MAX_MATCH_LEN as nat,
            self.table@,
            self.pending,
            self.literal_idx as nat,
            self.idx as nat,
        );
        self.match_long(backend, dst);
        let ghost d1 = dst@;
        let ghost h1 = backend.hist();
        let ghost ops1 = self.ops@;
        proof {
            assert(ops1 == ops0 + g.4);
            assert(self.idx == g.3);
            assert(self.literal_idx == g.2);
        }
        self.reposition_head(backend, dst);
        let ghost h2 = (h + (g.3 - h - RING_SIZE / 2) / RING_BLK_SIZE as int * RING_BLK_SIZE) as nat;
        proof {
            lemma_chain_append(d0, d1, dst@, h0, h1, backend.hist());
            assert(self.head == h2);
            if g.2 < h2 {
                assert(self.ops@ == ops1.push((self.input@.subrange(g.2 as int, h2 as int), 0nat, 1nat)));
                assert(self.ops@ =~= ops0 + g.4.push((self.input@.subrange(g.2 as int, h2 as int), 0nat, 1nat)));
            } else {
                assert(self.ops@ == ops0 + g.4);
            }
        }
        let ghost t2 = self.table@;
        proof {
            assert(t2 == g.0);
        }
        self.clamp_history();
        self.mark = self.tail() + RING_BLK_SIZE;
    }
    /// Moves the window head on by whole blocks to the block that puts the scan position in
    /// the block after the window's middle; literals the head passes go to the backend as they
    /// are, and the pending match is dropped with them.
    fn reposition_head(&mut self, backend: &mut FseBackend, dst: &mut Vec<u8>)
        requires
            old(self).wf(),
            old(backend).wf(),
            old(backend).data() == lz_expand(old(self).ops()),
            old(self).literal_idx() <= old(self).scan_idx(),
            old(self).head() + RING_SIZE / 2 + RING_BLK_SIZE <= old(self).scan_idx(),
            old(self).data().len() == old(self).head() + RING_SIZE,
            old(self).head() % (RING_BLK_SIZE as nat) == 0,
        ensures
            final(self).wf(),
            final(backend).wf(),
            final(backend).data() == lz_expand(final(self).ops()),
            final(self).data() == old(self).data(),
            final(self).head() == old(self).head() + (old(self).scan_idx() - old(self).head() - RING_SIZE
                / 2) / RING_BLK_SIZE as int * RING_BLK_SIZE,
            final(self).head() % (RING_BLK_SIZE as nat) == 0,
            final(self).head() >= old(self).head() + RING_BLK_SIZE,
            final(self).head() + RING_SIZE / 2 <= final(self).scan_idx() < final(self).head() + RING_SIZE / 2
                + RING_BLK_SIZE,
            final(self).scan_idx() == old(self).scan_idx(),
            final(self).literal_idx() <= final(self).scan_idx(),
            final(self).mark() == old(self).mark(),
            final(self).committed() == old(self).committed(),
            final(self).table() == old(self).table(),
            final(self).clamp_point() == old(self).clamp_point(),
            old(self).literal_idx() < final(self).head() ==> {
                &&& final(self).literal_idx() == final(self).head()
                &&& final(self).pending_match() == (Match {
                    idx: old(self).pending_match().idx,
                    match_idx: old(self).pending_match().match_idx,
                    match_len: 0,
                })
                &&& final(self).ops() == old(self).ops().push(
                    (old(self).data().subrange(old(self).literal_idx() as int, final(self).head() as int), 0nat, 1nat),
                )
            },
            old(self).literal_idx() >= final(self).head() ==> {
                &&& final(self).literal_idx() == old(self).literal_idx()
                &&& final(self).pending_match() == old(self).pending_match()
                &&& final(self).ops() == old(self).ops()
                &&& final(dst)@ == old(dst)@
                &&& *final(backend) == *old(backend)
            },
            final(dst)@.len() >= old(dst)@.len(),
            final(dst)@.subrange(0, old(dst)@.len() as int) == old(dst)@,
            blocks_chain(
                final(dst)@.subrange(old(dst)@.len() as int, final(dst)@.len() as int),
                old(backend).hist(),
                final(backend).hist(),
            ),
    {
        let delta = (self.idx - self.head - RING_SIZE / 2) / RING_BLK_SIZE * RING_BLK_SIZE;
        let head = self.head + delta;
        proof {
            let x = (self.idx - self.head - RING_SIZE / 2) as int;
            vstd::arithmetic::div_mod::lemma_fundamental_div_mod(x, RING_BLK_SIZE as int);
            vstd::arithmetic::div_mod::lemma_mod_bound(x, RING_BLK_SIZE as int);
            vstd::arithmetic::div_mod::lemma_div_is_ordered(RING_BLK_SIZE as int, x, RING_BLK_SIZE as int);
            vstd::arithmetic::div_mod::lemma_mod_multiples_basic(x / RING_BLK_SIZE as int, RING_BLK_SIZE as int);
            assert(RING_BLK_SIZE as int / RING_BLK_SIZE as int == 1);
        }
        self.push_literal_overflow(backend, dst, head);
        proof {
            lemma_chain_empty(backend.hist());
        }
        let rest = self.buf.split_off(delta);
        self.buf = rest;
        self.head = head;
        proof {
            assert(self.buf@ =~= self.input@.subrange(self.head as int, self.input@.len() as int));
        }
    }

    /// Pushes the literals that a window head moving to `head` passes, as they are, dropping the
    /// pending match.
    fn push_literal_overflow(&mut self, backend: &mut FseBackend, dst: &mut Vec<u8>, head: usize)
        requires
            old(self).wf(),
            old(backend).wf(),
            old(backend).data() == lz_expand(old(self).ops()),
            old(self).head() <= head <= old(self).scan_idx(),
        ensures
            final(self).wf(),
            final(backend).wf(),
            final(backend).data() == lz_expand(final(self).ops()),
            final(self).data() == old(self).data(),
            final(self).head() == old(self).head(),
            final(self).scan_idx() == old(self).scan_idx(),
            final(self).mark() == old(self).mark(),
            final(self).committed() == old(self).committed(),
            final(self).table() == old(self).table(),
            final(self).clamp_point() == old(self).clamp_point(),
            final(self).literal_idx() >= head,
            final(self).literal_idx() <= old(self).literal_idx() || final(self).literal_idx() == head,
            old(self).literal_idx() < head ==> {
                &&& final(self).literal_idx() == head
                &&& final(self).pending_match() == (Match {
                    idx: old(self).pending_match().idx,
                    match_idx: old(self).pending_match().match_idx,
                    match_len: 0,
                })
                &&& final(self).ops() == old(self).ops().push(
                    (old(self).data().subrange(old(self).literal_idx() as int, head as int), 0nat, 1nat),
                )
            },
            old(self).literal_idx() >= head ==> {
                &&& final(self).literal_idx() == old(self).literal_idx()
                &&& final(self).pending_match() == old(self).pending_match()
                &&& final(self).ops() == old(self).ops()
                &&& final(dst)@ == old(dst)@
                &&& *final(backend) == *old(backend)
            },
            final(dst)@.len() >= old(dst)@.len(),
            final(dst)@.subrange(0, old(dst)@.len() as int) == old(dst)@,
            blocks_chain(
                final(dst)@.subrange(old(dst)@.len() as int, final(dst)@.len() as int),
                old(backend).hist(),
                final(backend).hist(),
            ),
    {
        if self.literal_idx < head {
            self.pending.match_len = 0;
            let n = head - self.literal_idx;
            self.push_literals(backend, dst, n);
        } else {
            proof {
                assert(dst@.subrange(0, dst@.len() as int) =~= dst@);
                assert(dst@.subrange(dst@.len() as int, dst@.len() as int) =~= Seq::<u8>::empty());
                lemma_chain_empty(backend.hist());
            }
        }
    }

    /// Clamps the history once the scan position has passed the clamp point, and sets the next
    /// clamp point one clamp interval on.
    fn clamp_history(&mut self)
        requires
            old(self).wf(),
        ensures
            final(self).wf(),
            final(self).data() == old(self).data(),
            final(self).head() == old(self).head(),
            final(self).scan_idx() == old(self).scan_idx(),
            final(self).literal_idx() == old(self).literal_idx(),
            final(self).mark() == old(self).mark(),
            final(self).committed() == old(self).committed(),
            final(self).pending_match() == old(self).pending_match(),
            final(self).ops() == old(self).ops(),
            ({
                let i = old(self).idx as u32;
                if vstd::wrapping::u32_specs::wrapping_sub(i, old(self).clamp_point()) < 0x8000_0000 {
                    &&& final(self).table() == clamped_table(old(self).table(), i)
                    &&& final(self).clamp_point() == vstd::wrapping::u32_specs::wrapping_add(old(self).clamp_point(), CLAMP_INTERVAL)
                } else {
                    &&& final(self).table() == old(self).table()
                    &&& final(self).clamp_point() == old(self).clamp_point()
                }
            }),
    {
        let i = #[verifier::truncate] (self.idx as u32);
        let delta = i.wrapping_sub(self.clamp);
        if delta < 0x8000_0000 {
            proof {
                self.table.lemma_len();
            }
            self.table.clamp(i);
            proof {
                self.table.lemma_len();
                assert(self.table@ =~= clamped_table(old(self).table(), i));
            }
            self.clamp = self.clamp.wrapping_add(CLAMP_INTERVAL);
        }
    }

    /// Length of the common run of input bytes from `a` and from `b`, at most `max`: both runs
    /// lie in the window.
    fn match_inc(&self, a: usize, b: usize, max: usize) -> (r: usize)
        requires
            self.wf(),
            self.head <= a,
            self.head <= b,
            a + max <= self.input@.len(),
            b + max <= self.input@.len(),
        ensures
            r <= max,
            forall|k: int| 0 <= k < r ==> #[trigger] self.input@[a + k] == self.input@[b + k],
            r == run_fwd(self.input@, a as int, b as int, max as nat),
    {
        let h = self.head;
        let _n = self.buf.len();
        let mut k: usize = 0;
        while k < max && self.buf[a + k - h] == self.buf[b + k - h]
            invariant
                k <= max,
                h == self.head,
                h <= a,
                h <= b,
                self.buf@ == self.input@.subrange(h as int, self.input@.len() as int),
                self.input@.len() <= usize::MAX,
                a + max <= self.input@.len(),
                b + max <= self.input@.len(),
                forall|j: int| 0 <= j < k ==> #[trigger] self.input@[a + j] == self.input@[b + j],
            decreases max - k,
        {
            proof {
                assert(self.buf@[a + k - h] == self.input@[a + k]);
                assert(self.buf@[b + k - h] == self.input@[b + k]);
            }
            k = k + 1;
        }
        proof {
            if k < max {
                assert(self.buf@[a + k - h] == self.input@[a + k]);
                assert(self.buf@[b + k - h] == self.input@[b + k]);
            }
            lemma_run_fwd(self.input@, a as int, b as int, max as nat, k as nat);
        }
        k
    }

    /// Length of the common run of input bytes before `a` and before `b`, at most `max`: both
    /// runs lie in the window.
    fn match_dec(&self, a: usize, b: usize, max: usize) -> (r: usize)
        requires
            self.wf(),
            self.head + max <= a,
            self.head + max <= b,
            a <= self.input@.len(),
            b <= self.input@.len(),
        ensures
            r <= max,
            forall|k: int| 1 <= k <= r ==> #[trigger] self.input@[a - k] == self.input@[b - k],
            r == run_bwd(self.input@, a as int, b as int, max as nat),
    {
        let h = self.head;
        let mut k: usize = 0;
        while k < max && self.buf[a - k - 1 - h] == self.buf[b - k - 1 - h]
            invariant
                k <= max,
                h == self.head,
                h + max <= a,
                h + max <= b,
                self.buf@ == self.input@.subrange(h as int, self.input@.len() as int),
                a <= self.input@.len(),
                b <= self.input@.len(),
                forall|j: int| 1 <= j <= k ==> #[trigger] self.input@[a - j] == self.input@[b - j],
            decreases max - k,
        {
            proof {
                assert(self.buf@[a - k - 1 - h] == self.input@[a - (k + 1)]);
                assert(self.buf@[b - k - 1 - h] == self.input@[b - (k + 1)]);
            }
            k = k + 1;
        }
        proof {
            if k < max {
                assert(self.buf@[a - k - 1 - h] == self.input@[a - k - 1]);
                assert(self.buf@[b - k - 1 - h] == self.input@[b - k - 1]);
            }
            lemma_run_bwd(self.input@, a as int, b as int, max as nat, k as nat);
        }
        k
    }

    /// The best match at `pos` among the history entries of `queue`: at most `max` bytes
    /// forward of `pos`, extended back down to the literal index.
    fn find_match(&self, queue: History, item: UIdx, pos: usize, max: usize) -> (r: Match)
        requires
            self.wf(),
            self.literal_idx <= pos,
            pos + max <= self.input@.len(),
            max <= MAX_MATCH_LEN,
            self.head == 0 || pos >= self.head + MAX_D_VALUE,
        ensures
            valid_match(r, self.input@, self.literal_idx as nat),
            r == best_match(self.input@, queue@, item, pos as nat, max as nat, self.literal_idx as nat, self.head as nat),
    {
        let ghost d = self.input@;
        let ghost q = queue@;
        let ghost scan0 = scan_matches(d, q, item, pos as nat, max as nat, 0, (0, 0));
        let mut m = Match::default();
        let mut j: usize = 0;
        while j < 4
            invariant
                j <= 4,
                self.wf(),
                self.literal_idx <= pos,
                pos + max <= self.input@.len(),
                d == self.input@,
                q == queue@,
                max <= MAX_MATCH_LEN,
                self.head == 0 || pos >= self.head + MAX_D_VALUE,
                m.match_len > 0 ==> m.match_idx >= self.head,
                m.match_len <= max,
                m.match_len > 0 ==> {
                    &&& m.match_idx < pos
                    &&& pos - m.match_idx <= MAX_D_VALUE
                    &&& forall|k: int| 0 <= k < m.match_len ==> #[trigger] self.input@[pos + k]
                        == self.input@[m.match_idx + k]
                },
                m.idx == 0,
                m.match_len == 0 ==> m.match_idx == 0,
                scan0 == scan_matches(d, q, item, pos as nat, max as nat, j as nat, (m.match_len as nat, m.match_idx as nat)),
            ensures
                self.wf(),
                self.literal_idx <= pos,
                pos + max <= self.input@.len(),
                d == self.input@,
                m.match_len > 0 ==> m.match_idx >= self.head,
                m.match_len <= max,
                m.match_len > 0 ==> {
                    &&& m.match_idx < pos
                    &&& pos - m.match_idx <= MAX_D_VALUE
                    &&& forall|k: int| 0 <= k < m.match_len ==> #[trigger] self.input@[pos + k]
                        == self.input@[m.match_idx + k]
                },
                m.idx == 0,
                m.match_len == 0 ==> m.match_idx == 0,
                scan0 == (m.match_len as nat, m.match_idx as nat),
            decreases 4 - j,
        {
            let h = queue.0[j];
            let distance = (pos as u32).wrapping_sub(h.idx);
            if distance > MAX_D_VALUE {
                break;
            }
            if distance != 0 && distance as usize <= pos {
                let mpos = pos - distance as usize;
                if match_us((item.u, h.u)) == 4 {
                    let len = self.match_inc(pos, mpos, max);
                    if len >= MATCH_UNIT as usize && len > m.match_len as usize {
                        m.match_len = len as u32;
                        m.match_idx = mpos;
                    }
                }
            }
            j = j + 1;
        }
        if m.match_len == 0 {
            return m;
        }
        let literal_len = pos - self.literal_idx;
        let back = if m.match_idx >= self.head {
            m.match_idx - self.head
        } else {
            0
        };
        let max_dec = if back < literal_len {
            back
        } else {
            literal_len
        };
        let dec = self.match_dec(pos, m.match_idx, max_dec);
        let ghost m0 = m;
        m.idx = pos - dec;
        m.match_idx = m.match_idx - dec;
        m.match_len = m.match_len + dec as u32;
        proof {
            assert forall|k: int| 0 <= k < m.match_len implies #[trigger] self.input@[m.idx + k]
                == self.input@[m.match_idx + k] by {
                if k < dec {
                    assert(self.input@[pos - (dec - k)] == self.input@[m0.match_idx - (dec - k)]);
                } else {
                    assert(self.input@[pos + (k - dec)] == self.input@[m0.match_idx + (k - dec)]);
                }
            }
        }
        m
    }

    /// Pushes the literals before match `m` and `m` into the backend.
    pub fn push_match(&mut self, backend: &mut FseBackend, dst: &mut Vec<u8>, m: Match)
        requires
            old(self).wf(),
            old(backend).wf(),
            m.match_len > 0,
            valid_match(m, old(self).data(), old(self).literal_idx()),
            old(self).pending_match().match_len == 0 || old(self).pending_match().idx >= m.idx + m.match_len,
            old(backend).data() == lz_expand(old(self).ops()),
        ensures
            final(self).wf(),
            final(backend).wf(),
            final(self).data() == old(self).data(),
            final(self).literal_idx() == m.idx + m.match_len,
            final(self).pending_match() == old(self).pending_match(),
            final(self).table() == old(self).table(),
            final(self).head() == old(self).head(),
            final(self).scan_idx() == old(self).scan_idx(),
            final(self).mark() == old(self).mark(),
            final(self).committed() == old(self).committed(),
            final(self).clamp_point() == old(self).clamp_point(),
            final(self).ops() == old(self).ops().push(
                (
                    old(self).data().subrange(old(self).literal_idx() as int, m.idx as int),
                    m.match_len as nat,
                    (m.idx - m.match_idx) as nat,
                ),
            ),
            final(dst)@.len() >= old(dst)@.len(),
            final(dst)@.subrange(0, old(dst)@.len() as int) == old(dst)@,
            final(backend).data() == lz_expand(final(self).ops()),
            blocks_chain(
                final(dst)@.subrange(old(dst)@.len() as int, final(dst)@.len() as int),
                old(backend).hist(),
                final(backend).hist(),
            ),
            final(dst)@.len() + final(backend).cost() + ops_cost(old(self).ops()) <= old(dst)@.len()
                + old(backend).cost() + ops_cost(final(self).ops()),
    {
        let ghost data = self.input@;
        let ghost li = self.literal_idx as int;
        let _n = self.buf.len();
        let literals = vstd::slice::slice_subrange(
            self.buf.as_slice(),
            self.literal_idx - self.head,
            m.idx - self.head,
        );
        let distance = (m.idx - m.match_idx) as u32;
        proof {
            assert(literals@ =~= data.subrange(li, m.idx as int));
        }
        backend.push_match(dst, literals, m.match_len, distance);
        proof {
            let op: Op = (literals@, m.match_len as nat, distance as nat);
            assert(data.subrange(0, li) + literals@ =~= data.subrange(0, m.idx as int));
            assert(self.ops@.push(op).last() == op);
            lemma_match_extends(data, m.idx as int, m.match_len as nat, distance as nat);
            assert(self.ops@.push(op).drop_last() =~= self.ops@);
            self.ops@ = self.ops@.push(op);
        }
        self.literal_idx = m.idx + m.match_len as usize;
    }

    /// Pushes the next `len` input bytes into the backend as literals.
    pub fn push_literals(&mut self, backend: &mut FseBackend, dst: &mut Vec<u8>, len: usize)
        requires
            old(self).wf(),
            old(backend).wf(),
            old(self).pending_match().match_len == 0,
            old(self).literal_idx() + len <= old(self).data().len(),
            old(backend).data() == lz_expand(old(self).ops()),
        ensures
            final(self).wf(),
            final(backend).wf(),
            final(self).data() == old(self).data(),
            final(self).literal_idx() == old(self).literal_idx() + len,
            final(self).pending_match() == old(self).pending_match(),
            final(self).table() == old(self).table(),
            final(self).head() == old(self).head(),
            final(self).scan_idx() == old(self).scan_idx(),
            final(self).mark() == old(self).mark(),
            final(self).committed() == old(self).committed(),
            final(self).clamp_point() == old(self).clamp_point(),
            final(self).ops() == old(self).ops().push(
                (
                    old(self).data().subrange(
                        old(self).literal_idx() as int,
                        old(self).literal_idx() + len,
                    ),
                    0nat,
                    1nat,
                ),
            ),
            final(dst)@.len() >= old(dst)@.len(),
            final(dst)@.subrange(0, old(dst)@.len() as int) == old(dst)@,
            final(backend).data() == lz_expand(final(self).ops()),
            blocks_chain(
                final(dst)@.subrange(old(dst)@.len() as int, final(dst)@.len() as int),
                old(backend).hist(),
                final(backend).hist(),
            ),
            final(dst)@.len() + final(backend).cost() + ops_cost(old(self).ops()) <= old(dst)@.len()
                + old(backend).cost() + ops_cost(final(self).ops()),
    {
        let ghost data = self.input@;
        let ghost li = self.literal_idx as int;
        let _n = self.buf.len();
        let literals = vstd::slice::slice_subrange(
            self.buf.as_slice(),
            self.literal_idx - self.head,
            self.literal_idx + len - self.head,
        );
        proof {
            assert(literals@ =~= data.subrange(li, li + len));
        }
        backend.push_literals(dst, literals);
        proof {
            let op: Op = (literals@, 0, 1);
            assert(data.subrange(0, li) + literals@ =~= data.subrange(0, li + len));
            assert(self.ops@.push(op).last() == op);
            assert(lz_match(lz_expand(self.ops@) + literals@, 0, 1) == lz_expand(self.ops@) + literals@);
            assert(self.ops@.push(op).drop_last() =~= self.ops@);
            self.ops@ = self.ops@.push(op);
        }
        self.literal_idx = self.literal_idx + len;
    }
}


impl FrontendRing {
    /// Finds and pushes matches through the input from the scan position up to `end`, matches
    /// taking at most `cap` bytes forward, leaving a pending match and trailing literals.
    #[verifier::rlimit(60)]
    fn match_scan(&mut self, backend: &mut FseBackend, dst: &mut Vec<u8>, end: usize, cap: usize)
        requires
            old(self).wf(),
            old(backend).wf(),
            old(backend).data() == lz_expand(old(self).ops()),
            old(self).literal_idx <= old(self).idx,
            end == 0 || end + MATCH_UNIT <= old(self).data().len() + 1,
            cap <= MAX_MATCH_LEN,
            old(self).head == 0 || old(self).idx >= old(self).head + MAX_D_VALUE,
        ensures
            final(self).wf(),
            final(self).head() == old(self).head(),
            final(self).mark() == old(self).mark(),
            final(self).committed() == old(self).committed(),
            final(self).clamp_point() == old(self).clamp_point(),
            final(self).literal_idx() <= final(self).scan_idx(),
            final(self).scan_idx() >= end,
            final(backend).wf(),
            final(self).data() == old(self).data(),
            final(dst)@.len() >= old(dst)@.len(),
            final(dst)@.subrange(0, old(dst)@.len() as int) == old(dst)@,
            final(backend).data() == lz_expand(final(self).ops()),
            blocks_chain(
                final(dst)@.subrange(old(dst)@.len() as int, final(dst)@.len() as int),
                old(backend).hist(),
                final(backend).hist(),
            ),
            final(dst)@.len() + final(backend).cost() + ops_cost(old(self).ops()) <= old(dst)@.len()
                + old(backend).cost() + ops_cost(final(self).ops()),
            ({
                let g = greedy(
                    old(self).data(),
                    old(self).head(),
                    end as nat,
                    cap as nat,
                    old(self).table(),
                    old(self).pending_match(),
                    old(self).literal_idx(),
                    old(self).scan_idx(),
                );
                &&& final(self).table() == g.0
                &&& final(self).pending_match() == g.1
                &&& final(self).literal_idx() == g.2
                &&& final(self).scan_idx() == g.3
                &&& final(self).ops() == old(self).ops() + g.4
            }),
    {
        let ghost d0 = dst@;
        let ghost h0 = backend.hist();
        let ghost d = self.input@;
        let ghost ops0 = self.ops@;
        let ghost c0 = backend.cost();
        let ghost hd = self.head as nat;
        let ghost g0 = greedy(d, hd, end as nat, cap as nat, self.table@, self.pending, self.literal_idx as nat, self.idx as nat);
        let ghost mut acc: Seq<Op> = Seq::empty();
        proof {
            assert(dst@.subrange(d0.len() as int, dst@.len() as int) =~= Seq::<u8>::empty());
            assert(dst@.subrange(0, d0.len() as int) =~= d0);
            assert(ops0 + Seq::<Op>::empty() =~= ops0);
            assert(Seq::<Op>::empty() + g0.4 =~= g0.4);
            lemma_chain_empty(h0);
        }
        let len = self.tail();
        let ghost pend = (len - MATCH_UNIT + 1) as nat;
        let idx0 = self.idx;
        let mut idx = self.idx;
        while idx < end
            invariant
                self.wf(),
                backend.wf(),
                self.input@ == old(self).data(),
                d == self.input@,
                len == self.input@.len(),
                end == 0 || end + MATCH_UNIT <= len + 1,
                len >= MATCH_UNIT ==> pend == len - MATCH_UNIT + 1,
                cap <= MAX_MATCH_LEN,
                self.literal_idx <= idx <= len,
                self.head == 0 || idx >= self.head + MAX_D_VALUE,
                self.idx == idx0,
                idx0 == old(self).idx,
                hd == self.head,
                self.head == old(self).head,
                self.mark == old(self).mark,
                self.committed == old(self).committed,
                self.clamp == old(self).clamp,
                dst@.len() >= d0.len(),
                dst@.subrange(0, d0.len() as int) == d0,
                d0 == old(dst)@,
                h0 == old(backend).hist(),
                backend.data() == lz_expand(self.ops@),
                blocks_chain(dst@.subrange(d0.len() as int, dst@.len() as int), h0, backend.hist()),
                self.ops@ == ops0 + acc,
                dst@.len() + backend.cost() + ops_cost(ops0) <= d0.len() + c0 + ops_cost(self.ops@),
                ({
                    let gc = greedy(d, hd, end as nat, cap as nat, self.table@, self.pending, self.literal_idx as nat, idx as nat);
                    g0 == (gc.0, gc.1, gc.2, gc.3, acc + gc.4)
                }),
            decreases len - idx,
        {
            let ghost t0 = self.table@;
            let ghost li0 = self.literal_idx as nat;
            let u = read_u32(self.buf.as_slice(), idx - self.head);
            let item = UIdx::new(u, #[verifier::truncate] (idx as u32));
            proof {
                lemma_le_u32_window(d, self.head as int, idx as int);
                assert(item == unit_at(d, idx as nat));
            }
            let queue = self.table.push(item);
            let max = if len - idx < cap {
                len - idx
            } else {
                cap
            };
            let incoming = self.find_match(queue, item, idx, max);
            let ghost p0 = self.pending;
            let selected = self.pending.select::<GOOD_MATCH_LEN>(incoming);
            proof {
                assert((self.pending, selected) == select_spec(p0, incoming, GOOD_MATCH_LEN));
                assert(self.table@ == table_push(t0, item));
            }
            match selected {
                Some(m) => {
                    let ghost d1 = dst@;
                    let ghost h1 = backend.hist();
                    let ghost t1 = self.table@;
                    let ghost p2 = self.pending;
                    self.push_match(backend, dst, m);
                    proof {
                        lemma_chain_append(d0, d1, dst@, h0, h1, backend.hist());
                        let op: Op = (d.subrange(li0 as int, m.idx as int), m.match_len as nat, (m.idx - m.match_idx) as nat);
                        assert(ops0 + acc.push(op) =~= (ops0 + acc).push(op));
                        let li2 = (m.idx + m.match_len) as nat;
                        let idx2: nat = if idx + 1 < li2 { li2 } else { (idx + 1) as nat };
                        let gn = greedy(d, hd, end as nat, cap as nat, table_pushes(d, t1, (idx + 1) as nat, li2, pend), p2, li2, idx2);
                        assert(acc + (seq![op] + gn.4) =~= acc.push(op) + gn.4);
                        acc = acc.push(op);
                    }
                    let ghost i0 = idx;
                    let ghost ops1 = self.ops@;
                    idx = idx + 1;
                    while idx < self.literal_idx
                        invariant
                            i0 < idx <= len,
                            i0 < end,
                            self.head <= i0,
                            self.wf(),
                            len == self.input@.len(),
                            len >= MATCH_UNIT,
                            pend == len - MATCH_UNIT + 1,
                            self.input@ == old(self).data(),
                            d == self.input@,
                            self.literal_idx <= len,
                            self.ops@ == ops1,
                            self.pending == p2,
                            self.literal_idx == m.idx + m.match_len,
                            idx == i0 + 1 || idx <= self.literal_idx,
                            self.table@ == table_pushes(d, t1, (i0 + 1) as nat, idx as nat, pend),
                            self.idx == idx0,
                            self.head == old(self).head,
                            self.mark == old(self).mark,
                            self.committed == old(self).committed,
                            self.clamp == old(self).clamp,
                self.clamp == old(self).clamp,
                        decreases self.literal_idx - idx,
                    {
                        if idx <= len - (MATCH_UNIT as usize) {
                            let u = read_u32(self.buf.as_slice(), idx - self.head);
                            let it = UIdx::new(u, #[verifier::truncate] (idx as u32));
                            proof {
                                lemma_le_u32_window(d, self.head as int, idx as int);
                                assert(it == unit_at(d, idx as nat));
                            }
                            let _ = self.table.push(it);
                        }
                        idx = idx + 1;
                    }
                },
                None => {
                    idx = idx + 1;
                },
            }
        }
        self.idx = idx;
    }

    /// Finds and pushes matches through the rest of the input from the scan position on, leaving
    /// a pending match and trailing literals.
    pub fn match_short(&mut self, backend: &mut FseBackend, dst: &mut Vec<u8>)
        requires
            old(self).wf(),
            old(backend).wf(),
            old(backend).data() == lz_expand(old(self).ops()),
            old(self).literal_idx() <= old(self).scan_idx(),
            old(self).head() == 0 || old(self).scan_idx() >= old(self).head() + MAX_D_VALUE,
        ensures
            final(self).wf(),
            final(backend).wf(),
            final(self).data() == old(self).data(),
            final(self).head() == old(self).head(),
            final(self).mark() == old(self).mark(),
            final(self).committed() == old(self).committed(),
            final(self).clamp_point() == old(self).clamp_point(),
            final(self).literal_idx() <= final(self).scan_idx(),
            final(dst)@.len() >= old(dst)@.len(),
            final(dst)@.subrange(0, old(dst)@.len() as int) == old(dst)@,
            final(backend).data() == lz_expand(final(self).ops()),
            blocks_chain(
                final(dst)@.subrange(old(dst)@.len() as int, final(dst)@.len() as int),
                old(backend).hist(),
                final(backend).hist(),
            ),
            final(dst)@.len() + final(backend).cost() + ops_cost(old(self).ops()) <= old(dst)@.len()
                + old(backend).cost() + ops_cost(final(self).ops()),
            ({
                let g = greedy(
                    old(self).data(),
                    old(self).head(),
                    scan_end(old(self).data().len()),
                    MAX_MATCH_LEN as nat,
                    old(self).table(),
                    old(self).pending_match(),
                    old(self).literal_idx(),
                    old(self).scan_idx(),
                );
                &&& final(self).table() == g.0
                &&& final(self).pending_match() == g.1
                &&& final(self).literal_idx() == g.2
                &&& final(self).scan_idx() == g.3
                &&& final(self).ops() == old(self).ops() + g.4
            }),
    {
        let len = self.tail();
        let end = if len >= MATCH_UNIT as usize {
            len - MATCH_UNIT as usize + 1
        } else {
            0
        };
        self.match_scan(backend, dst, end, MAX_MATCH_LEN as usize);
    }

    /// With the window full, finds and pushes matches from the scan position up to the block
    /// after the window's middle, matches taking at most `RING_MAX_MATCH_LEN` bytes forward.
    pub fn match_long(&mut self, backend: &mut FseBackend, dst: &mut Vec<u8>)
        requires
            old(self).wf(),
            old(backend).wf(),
            old(backend).data() == lz_expand(old(self).ops()),
            old(self).literal_idx() <= old(self).scan_idx(),
            old(self).data().len() == old(self).mark(),
            old(self).mark() == old(self).head() + RING_SIZE,
            old(self).scan_idx() < old(self).head() + RING_SIZE / 2 + RING_BLK_SIZE,
            old(self).head() == 0 || old(self).head() + RING_SIZE / 2 <= old(self).scan_idx(),
        ensures
            final(self).wf(),
            final(backend).wf(),
            final(self).data() == old(self).data(),
            final(self).head() == old(self).head(),
            final(self).mark() == old(self).mark(),
            final(self).committed() == old(self).committed(),
            final(self).clamp_point() == old(self).clamp_point(),
            final(self).literal_idx() <= final(self).scan_idx(),
            final(self).scan_idx() >= final(self).head() + RING_SIZE / 2 + RING_BLK_SIZE,
            final(dst)@.len() >= old(dst)@.len(),
            final(dst)@.subrange(0, old(dst)@.len() as int) == old(dst)@,
            final(backend).data() == lz_expand(final(self).ops()),
            blocks_chain(
                final(dst)@.subrange(old(dst)@.len() as int, final(dst)@.len() as int),
                old(backend).hist(),
                final(backend).hist(),
            ),
            final(dst)@.len() + final(backend).cost() + ops_cost(old(self).ops()) <= old(dst)@.len()
                + old(backend).cost() + ops_cost(final(self).ops()),
            ({
                let g = greedy(
                    old(self).data(),
                    old(self).head(),
                    (old(self).head() + RING_SIZE / 2 + RING_BLK_SIZE) as nat,
                    RING_MAX_MATCH_LEN as nat,
                    old(self).table(),
                    old(self).pending_match(),
                    old(self).literal_idx(),
                    old(self).scan_idx(),
                );
                &&& final(self).table() == g.0
                &&& final(self).pending_match() == g.1
                &&& final(self).literal_idx() == g.2
                &&& final(self).scan_idx() == g.3
                &&& final(self).ops() == old(self).ops() + g.4
            }),
    {
        let end = self.head + RING_SIZE / 2 + RING_BLK_SIZE;
        self.match_scan(backend, dst, end, RING_MAX_MATCH_LEN);
    }

    /// Pushes every remaining match and literal into the backend and closes its block.
    #[verifier::rlimit(60)]
    #[verifier::spinoff_prover]
    fn finalize(&mut self, backend: &mut FseBackend, dst: &mut Vec<u8>)
        requires
            old(self).wf(),
            old(backend).wf(),
            old(backend).data() == lz_expand(old(self).ops()),
            old(self).literal_idx() <= old(self).scan_idx(),
            old(self).head() == 0 || old(self).scan_idx() >= old(self).head() + MAX_D_VALUE,
        ensures
            final(self).wf(),
            final(backend).wf(),
            final(self).data() == old(self).data(),
            final(self).literal_idx() == final(self).data().len(),
            lz_expand(final(self).ops()) == final(self).data(),
            final(dst)@.len() >= old(dst)@.len() + V2_HEADER_SIZE,
            final(dst)@.subrange(0, old(dst)@.len() as int) == old(dst)@,
            blocks_chain(
                final(dst)@.subrange(old(dst)@.len() as int, final(dst)@.len() as int),
                old(backend).hist(),
                final(self).data(),
            ),
            final(self).ops() == old(self).ops() + finish_ops(
                old(self).data(),
                old(self).head(),
                old(self).table(),
                old(self).pending_match(),
                old(self).literal_idx(),
                old(self).scan_idx(),
            ),
            final(dst)@.len() <= old(dst)@.len() + old(backend).cost() + ops_cost(
                finish_ops(
                    old(self).data(),
                    old(self).head(),
                    old(self).table(),
                    old(self).pending_match(),
                    old(self).literal_idx(),
                    old(self).scan_idx(),
                ),
            ),
            final(self).head() == old(self).head(),
            final(self).mark() == old(self).mark(),
            final(self).committed() == old(self).committed(),
    {
        let ghost d0 = dst@;
        let ghost h0 = backend.hist();
        let ghost ops0 = self.ops@;
        let ghost fin = finish_ops(self.input@, self.head as nat, self.table@, self.pending, self.literal_idx as nat, self.idx as nat);
        self.match_short(backend, dst);
        let ghost ops1 = self.ops@;
        if self.pending.match_len != 0 {
            let p = self.pending;
            self.pending.match_len = 0;
            let ghost d1 = dst@;
            let ghost h1 = backend.hist();
            self.push_match(backend, dst, p);
            proof {
                lemma_chain_append(d0, d1, dst@, h0, h1, backend.hist());
            }
        }
        let n = self.tail() - self.literal_idx;
        if n != 0 {
            let ghost d1 = dst@;
            let ghost h1 = backend.hist();
            self.push_literals(backend, dst, n);
            proof {
                lemma_chain_append(d0, d1, dst@, h0, h1, backend.hist());
            }
        }
        let ghost d2 = dst@;
        let ghost h2 = backend.hist();
        proof {
            assert(self.input@.subrange(0, self.input@.len() as int) =~= self.input@);
            assert(self.ops@ =~= ops0 + fin);
            lemma_ops_cost_concat(ops0, fin);
        }
        backend.finalize(dst);
        proof {
            lemma_chain_append(d0, d2, dst@, h0, h2, backend.hist());
        }
    }

    /// Ends the stream. Once the window has filled, the rest of the input goes into FSE blocks
    /// after those already emitted. Before, inputs of at most `RAW_CUTOFF` bytes are stored as a
    /// raw block, longer ones as FSE blocks unless these take more room than a raw block. The end
    /// of stream marker follows.
    #[verifier::rlimit(100)]
    #[verifier::spinoff_prover]
    pub fn flush(&mut self, backend: &mut FseBackend, dst: &mut Vec<u8>)
        requires
            old(self).wf(),
            old(backend).wf(),
            old(self).ready(),
            old(self).committed() ==> old(backend).data() == lz_expand(old(self).ops()),
        ensures
            final(self).wf(),
            final(backend).wf(),
            final(self).data() == old(self).data(),
            lz_expand(final(self).ops()) == final(self).data(),
            final(dst)@.len() >= old(dst)@.len() + 4,
            final(dst)@.subrange(0, old(dst)@.len() as int) == old(dst)@,
            le_u32(final(dst)@, final(dst)@.len() - 4) == BM_EOS,
            old(self).committed() ==> {
                let a = final(dst)@.subrange(old(dst)@.len() as int, final(dst)@.len() as int);
                &&& blocks_chain(a.subrange(0, a.len() - 4), old(backend).hist(), old(self).data())
                &&& final(self).ops() == old(self).ops() + finish_ops(
                    old(self).data(),
                    old(self).head(),
                    old(self).table(),
                    old(self).pending_match(),
                    old(self).literal_idx(),
                    old(self).scan_idx(),
                )
            },
            !old(self).committed() && old(self).data().len() <= RAW_CUTOFF ==> raw_form(
                final(dst)@.subrange(old(dst)@.len() as int, final(dst)@.len() as int),
                old(self).data(),
            ),
            !old(self).committed() ==> raw_form(
                final(dst)@.subrange(old(dst)@.len() as int, final(dst)@.len() as int),
                old(self).data(),
            ) || v2_stream(
                final(dst)@.subrange(old(dst)@.len() as int, final(dst)@.len() as int),
                Seq::<u8>::empty(),
            ) == Some(old(self).data()),
            !old(self).committed() && old(self).data().len() <= u32::MAX ==> final(dst)@.len()
                <= old(dst)@.len() + old(self).data().len() + 12,
            !old(self).committed() && old(self).data().len() > RAW_CUTOFF && raw_form(
                final(dst)@.subrange(old(dst)@.len() as int, final(dst)@.len() as int),
                old(self).data(),
            ) ==> exists|b: Seq<u8>|
                blocks_chain(b, Seq::<u8>::empty(), old(self).data()) && b.len() >= old(
                    self,
                ).data().len() + 8,
            !old(self).committed() && old(self).data().len() > RAW_CUTOFF ==> {
                let a = final(dst)@.subrange(old(dst)@.len() as int, final(dst)@.len() as int);
                ||| v2_stream(a, Seq::<u8>::empty()) == Some(old(self).data()) && final(self).ops()
                    == old(self).ops() + finish_ops(
                    old(self).data(),
                    0,
                    old(self).table(),
                    old(self).pending_match(),
                    0,
                    0,
                )
                ||| raw_form(a, old(self).data()) && old(self).data().len() <= u32::MAX && exists|
                    b: Seq<u8>,
                |
                    blocks_chain(b, Seq::<u8>::empty(), old(self).data()) && b.len() >= old(
                        self,
                    ).data().len() + 8
            },
            !old(self).committed() && old(self).data().len() > RAW_CUTOFF && old(self).data().len()
                <= u32::MAX && fse_bound(
                finish_ops(old(self).data(), 0, old(self).table(), old(self).pending_match(), 0, 0),
            ) < old(self).data().len() + 8 ==> v2_stream(
                final(dst)@.subrange(old(dst)@.len() as int, final(dst)@.len() as int),
                Seq::<u8>::empty(),
            ) == Some(old(self).data()),
    {
        if self.committed {
            let ghost d0 = dst@;
            self.finalize(backend, dst);
            let ghost d1 = dst@;
            push_u32(dst, BM_EOS);
            proof {
                assert(dst@.subrange(0, d0.len() as int) =~= d1.subrange(0, d0.len() as int));
                let a = dst@.subrange(d0.len() as int, dst@.len() as int);
                assert(a.subrange(0, a.len() - 4) =~= d1.subrange(d0.len() as int, d1.len() as int));
            }
            return;
        }
        let len = self.tail();
        let mark = dst.len();
        let ghost d0 = dst@;
        let ghost attempt: Seq<u8> = Seq::empty();
        if len > RAW_CUTOFF as usize {
            backend.init();
            proof {
                assert(lz_expand(self.ops@) =~= Seq::<u8>::empty());
            }
            self.finalize(backend, dst);
            let n = dst.len() - mark;
            if len > u32::MAX as usize || n - 8 < len {
                let ghost d1 = dst@;
                push_u32(dst, BM_EOS);
                proof {
                    assert(dst@.subrange(0, d0.len() as int) =~= dst@.subrange(0, d1.len() as int).subrange(0, d0.len() as int));
                    let a = d1.subrange(d0.len() as int, d1.len() as int);
                    let e = dst@.subrange(d1.len() as int, dst@.len() as int);
                    assert(le_u32(e, 0) == le_u32(dst@, d1.len() as int));
                    assert(dst@.subrange(d0.len() as int, dst@.len() as int) =~= a + e);
                    lemma_chain_stream(a, e, Seq::<u8>::empty(), self.input@);
                    crate::fse::stream::lemma_v2_stream_head(a + e, Seq::<u8>::empty());
                }
                return;
            }
            proof {
                attempt = dst@.subrange(d0.len() as int, dst@.len() as int);
            }
            dst.truncate(mark);
        }
        proof {
            assert(self.buf@ =~= self.input@);
        }
        raw_compress(dst, self.buf.as_slice());
        let ghost d1 = dst@;
        push_u32(dst, BM_EOS);
        self.pending = Match::default();
        self.literal_idx = len;
        proof {
            let data = self.input@;
            lemma_one_op(data);
            self.ops@ = seq![(data, 0nat, 1nat)];
            assert(data.subrange(0, len as int) =~= data);
            lemma_raw_tail(d0, d1, dst@, data);
            if len > RAW_CUTOFF {
                assert(blocks_chain(attempt, Seq::<u8>::empty(), data) && attempt.len() >= data.len() + 8);
            }
        }
    }
}

/// The match unit at `i` of `d`, read from the part of `d` from `h` on.
proof fn lemma_le_u32_window(d: Seq<u8>, h: int, i: int)
    requires
        0 <= h <= i,
        i + 4 <= d.len(),
    ensures
        le_u32(d.subrange(h, d.len() as int), i - h) == le_u32(d, i),
{
    let w = d.subrange(h, d.len() as int);
    assert(w[i - h] == d[i]);
    assert(w[i - h + 1] == d[i + 1]);
    assert(w[i - h + 2] == d[i + 2]);
    assert(w[i - h + 3] == d[i + 3]);
}

/// A single run of literals stands for those literals.
proof fn lemma_one_op(data: Seq<u8>)
    ensures
        lz_expand(seq![(data, 0nat, 1nat)]) == data,
{
    let op: Op = (data, 0, 1);
    assert(seq![op].drop_last() =~= Seq::<Op>::empty());
    assert(Seq::<u8>::empty() + data =~= data);
    assert(lz_expand(Seq::<Op>::empty()) == Seq::<u8>::empty());
    assert(lz_match(data, 0, 1) == data);
    assert(lz_expand(seq![op]) == data);
}

/// A raw block of `data` followed by the end of stream marker, appended to `d0`, is in raw form.
proof fn lemma_raw_tail(d0: Seq<u8>, d1: Seq<u8>, d2: Seq<u8>, data: Seq<u8>)
    requires
        d1.len() == d0.len() + 8 + data.len(),
        d1.subrange(0, d0.len() as int) == d0,
        le_u32(d1, d0.len() as int) == BM_RAW,
        le_u32(d1, d0.len() as int + 4) == data.len(),
        d1.subrange(d0.len() as int + 8, d1.len() as int) == data,
        d2.len() == d1.len() + 4,
        d2.subrange(0, d1.len() as int) == d1,
        le_u32(d2, d1.len() as int) == BM_EOS,
    ensures
        d2.len() >= d0.len() + 4,
        d2.subrange(0, d0.len() as int) == d0,
        le_u32(d2, d2.len() - 4) == BM_EOS,
        raw_form(d2.subrange(d0.len() as int, d2.len() as int), data),
{
    let k = d0.len() as int;
    let len = data.len() as int;
    assert(d2.subrange(0, k) =~= d1.subrange(0, k));
    let a = d2.subrange(k, d2.len() as int);
    assert(le_u32(a, 0) == le_u32(d1, k));
    assert(le_u32(a, 4) == le_u32(d1, k + 4));
    assert(le_u32(a, 8 + len) == le_u32(d2, k + 8 + len));
    assert(a.subrange(8, 8 + len) =~= d1.subrange(k + 8, d1.len() as int));
}

} // verus!
