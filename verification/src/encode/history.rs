use vstd::prelude::*;

verus! {

/// Bits of the history table index.
pub const HASH_BITS: u32 = 14;

/// Entries per history queue.
pub const HASH_WIDTH: usize = 4;

/// Distance past which history entries are clamped.
pub const CLAMP_INTERVAL: u32 = 0x4000_0000;

/// A match unit, the little-endian `u32` at an input index, and that index.
#[derive(Copy, Clone, Debug)]
pub struct UIdx {
    pub u: u32,
    pub idx: u32,
}

impl UIdx {
    /// The unit `u` seen at index `idx`.
    pub fn new(u: u32, idx: u32) -> (r: Self)
        ensures
            r.u == u,
            r.idx == idx,
    {
        Self { u, idx }
    }
}

impl Default for UIdx {
    fn default() -> (r: Self)
        ensures
            r.u == 0,
            r.idx == 0,
    {
        Self { u: 0, idx: 0 }
    }
}

/// The multiplicative hash of a match unit.
pub fn hash_u(u: u32) -> (r: u32)
    ensures
        r == vstd::wrapping::u32_specs::wrapping_mul(u, 0x9E37_79B1),
{
    u.wrapping_mul(0x9E37_79B1)
}

/// History queue index of a match unit: the top bits of its hash.
pub open spec fn index_of(u: u32) -> int {
    (vstd::wrapping::u32_specs::wrapping_mul(u, 0x9E37_79B1) >> (32 - HASH_BITS)) as int
}

/// Match length of two match units: four when equal, else zero.
pub fn match_us(us: (u32, u32)) -> (r: u32)
    ensures
        r == (if us.0 == us.1 {
            4u32
        } else {
            0u32
        }),
{
    if us.0 == us.1 {
        4
    } else {
        0
    }
}

/// The most recent match units of one hash, newest first.
#[derive(Copy, Clone)]
pub struct History(pub [UIdx; HASH_WIDTH]);

impl View for History {
    type V = Seq<UIdx>;

    open spec fn view(&self) -> Seq<UIdx> {
        self.0@
    }
}

/// Clamping one entry: entries further back than the clamp interval move up to it.
pub open spec fn clamped(e: UIdx, idx: u32) -> UIdx {
    UIdx { u: e.u, idx: vstd::wrapping::u32_specs::wrapping_sub(idx, CLAMP_INTERVAL) }
}

/// Entry `e` lies further back than the clamp interval from `idx`.
pub open spec fn is_far(e: UIdx, idx: u32) -> bool {
    vstd::wrapping::u32_specs::wrapping_sub(idx, e.idx) > CLAMP_INTERVAL
}

/// Entry `e` clamped at `idx` when `far`.
pub open spec fn clamp_if(e: UIdx, idx: u32, far: bool) -> UIdx {
    if far {
        clamped(e, idx)
    } else {
        e
    }
}

/// A queue clamped at `idx`: the entries, oldest first, further back than the clamp interval
/// move up to it, up to the first entry that is not.
pub open spec fn clamp_spec(h: Seq<UIdx>, idx: u32) -> Seq<UIdx> {
    let far3 = is_far(h[3], idx);
    let far2 = far3 && is_far(h[2], idx);
    let far1 = far2 && is_far(h[1], idx);
    let far0 = far1 && is_far(h[0], idx);
    seq![clamp_if(h[0], idx, far0), clamp_if(h[1], idx, far1), clamp_if(h[2], idx, far2), clamp_if(h[3], idx, far3)]
}

impl History {
    /// A queue holding `item` four times.
    pub fn new(item: UIdx) -> (r: Self)
        ensures
            r@ == seq![item, item, item, item],
    {
        let r = History([item; HASH_WIDTH]);
        proof {
            assert(r@ =~= seq![item, item, item, item]);
        }
        r
    }

    /// Pushes `item` to the front, dropping the oldest entry.
    pub fn push(&mut self, item: UIdx)
        ensures
            final(self)@ == seq![item, old(self)@[0], old(self)@[1], old(self)@[2]],
    {
        let a = self.0;
        self.0 = [item, a[0], a[1], a[2]];
        proof {
            assert(self@ =~= seq![item, old(self)@[0], old(self)@[1], old(self)@[2]]);
        }
    }

    /// Clamps the entries, oldest first, that lie further back than the clamp interval from
    /// `idx`, stopping at the first that does not.
    pub fn clamp(&mut self, idx: u32)
        ensures
            final(self)@ == clamp_spec(old(self)@, idx),
    {
        let c = idx.wrapping_sub(CLAMP_INTERVAL);
        let a = self.0;
        let far3 = idx.wrapping_sub(a[3].idx) > CLAMP_INTERVAL;
        let far2 = far3 && idx.wrapping_sub(a[2].idx) > CLAMP_INTERVAL;
        let far1 = far2 && idx.wrapping_sub(a[1].idx) > CLAMP_INTERVAL;
        let far0 = far1 && idx.wrapping_sub(a[0].idx) > CLAMP_INTERVAL;
        let e0 = if far0 { UIdx { u: a[0].u, idx: c } } else { a[0] };
        let e1 = if far1 { UIdx { u: a[1].u, idx: c } } else { a[1] };
        let e2 = if far2 { UIdx { u: a[2].u, idx: c } } else { a[2] };
        let e3 = if far3 { UIdx { u: a[3].u, idx: c } } else { a[3] };
        self.0 = [e0, e1, e2, e3];
        proof {
            assert(self@ =~= clamp_spec(old(self)@, idx));
        }
    }

    /// Sets the index of the newest entry.
    pub fn reset_idx(&mut self, idx: u32)
        ensures
            final(self)@ == old(self)@.update(0, UIdx { u: old(self)@[0].u, idx }),
    {
        self.0[0].idx = idx;
        proof {
            assert(self@ =~= old(self)@.update(0, UIdx { u: old(self)@[0].u, idx }));
        }
    }
}

impl Default for History {
    fn default() -> (r: Self)
        ensures
            r@ == seq![UIdx::default_spec(), UIdx::default_spec(), UIdx::default_spec(), UIdx::default_spec()],
    {
        Self::new(UIdx::default())
    }
}

impl UIdx {
    /// The default entry.
    pub open spec fn default_spec() -> UIdx {
        UIdx { u: 0, idx: 0 }
    }
}

/// History queues, one per hash of the match unit.
pub struct HistoryTable(Vec<History>);

impl View for HistoryTable {
    type V = Seq<Seq<UIdx>>;

    closed spec fn view(&self) -> Seq<Seq<UIdx>> {
        self.0@.map_values(|h: History| h@)
    }
}

impl HistoryTable {
    /// Internal consistency: one queue per hash.
    pub closed spec fn wf(&self) -> bool {
        self.0@.len() == 0x4000
    }

    /// A well-formed table holds one queue for each of the `0x4000` hashes.
    pub proof fn lemma_len(&self)
        requires
            self.wf(),
        ensures
            self@.len() == 0x4000,
    {
    }

    /// Pushes `item` into the queue of its unit: returns the queue as it was.
    pub fn push(&mut self, item: UIdx) -> (r: History)
        requires
            old(self).wf(),
        ensures
            final(self).wf(),
            0 <= index_of(item.u) < 0x4000,
            r@ == old(self)@[index_of(item.u)],
            final(self)@ == old(self)@.update(
                index_of(item.u),
                seq![item, r@[0], r@[1], r@[2]],
            ),
    {
        let h = hash_u(item.u);
        let i = (h >> (32 - HASH_BITS)) as usize;
        proof {
            assert((h >> 18u32) < 0x4000) by (bit_vector);
        }
        let copy = self.0[i];
        let mut q = copy;
        q.push(item);
        self.0.set(i, q);
        proof {
            assert(self@ =~= old(self)@.update(index_of(item.u), seq![item, copy@[0], copy@[1], copy@[2]]));
        }
        copy
    }

    /// Clamps every queue at `idx`.
    pub fn clamp(&mut self, idx: u32)
        requires
            old(self).wf(),
        ensures
            final(self).wf(),
            forall|q: int| 0 <= q < 0x4000 ==> #[trigger] final(self)@[q] == clamp_spec(old(self)@[q], idx),
    {
        let mut i: usize = 0;
        while i < self.0.len()
            invariant
                self.wf(),
                i <= 0x4000,
                forall|q: int| i <= q < 0x4000 ==> #[trigger] self@[q] == old(self)@[q],
                forall|q: int| 0 <= q < i ==> #[trigger] self@[q] == clamp_spec(old(self)@[q], idx),
            decreases 0x4000 - i,
        {
            let ghost prev = self@;
            let mut q = self.0[i];
            proof {
                assert(q@ == prev[i as int]);
                assert(prev[i as int] == old(self)@[i as int]);
            }
            q.clamp(idx);
            self.0.set(i, q);
            proof {
                assert(self@ =~= prev.update(i as int, q@));
                assert(self@[i as int] == clamp_spec(old(self)@[i as int], idx));
            }
            i = i + 1;
        }
    }

    /// Sets the newest index of every queue to `idx`.
    pub fn reset_idx(&mut self, idx: u32)
        requires
            old(self).wf(),
        ensures
            final(self).wf(),
            forall|q: int|
                0 <= q < 0x4000 ==> #[trigger] final(self)@[q] == old(self)@[q].update(
                    0,
                    UIdx { u: old(self)@[q][0].u, idx },
                ),
    {
        let mut i: usize = 0;
        while i < self.0.len()
            invariant
                self.wf(),
                i <= 0x4000,
                forall|q: int| i <= q < 0x4000 ==> #[trigger] self@[q] == old(self)@[q],
                forall|q: int|
                    0 <= q < i ==> #[trigger] self@[q] == old(self)@[q].update(
                        0,
                        UIdx { u: old(self)@[q][0].u, idx },
                    ),
            decreases 0x4000 - i,
        {
            let ghost prev = self@;
            let mut q = self.0[i];
            proof {
                assert(q@ == prev[i as int]);
                assert(prev[i as int] == old(self)@[i as int]);
            }
            q.reset_idx(idx);
            self.0.set(i, q);
            proof {
                assert(self@ =~= prev.update(i as int, q@));
                assert(self@[i as int] == old(self)@[i as int].update(0, UIdx { u: old(self)@[i as int][0].u, idx }));
            }
            i = i + 1;
        }
    }

    /// The queue of hash index `i`.
    pub fn get(&self, i: usize) -> (r: History)
        requires
            self.wf(),
            i < 0x4000,
        ensures
            r@ == self@[i as int],
    {
        self.0[i]
    }
}

/// The history table of a new encoder: every entry is the default one.
pub open spec fn empty_table() -> Seq<Seq<UIdx>> {
    Seq::new(
        0x4000,
        |q: int| seq![UIdx::default_spec(), UIdx::default_spec(), UIdx::default_spec(), UIdx::default_spec()],
    )
}

impl Default for HistoryTable {
    fn default() -> (r: Self)
        ensures
            r.wf(),
            r@ == empty_table(),
    {
        let r = HistoryTable(vec![History::default(); 0x4000]);
        proof {
            assert(r@ =~= empty_table());
        }
        r
    }
}

} // verus!
