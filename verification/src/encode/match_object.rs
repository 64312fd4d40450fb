use vstd::prelude::*;

verus! {

/// A match: `match_len` bytes at `idx` repeat those at `match_idx`.
#[derive(Copy, Clone, Debug, PartialEq, Eq)]
pub struct Match {
    pub idx: usize,
    pub match_idx: usize,
    pub match_len: u32,
}

/// `m` with no length.
pub open spec fn cleared(m: Match) -> Match {
    Match { idx: m.idx, match_idx: m.match_idx, match_len: 0 }
}

/// Choosing between the pending match `p` and an incoming match, with good length `t`: the new
/// pending match and the match to emit, if any.
pub open spec fn select_spec(p: Match, incoming: Match, t: u32) -> (Match, Option<Match>) {
    if incoming.match_len == 0 {
        (p, None)
    } else if incoming.match_len >= t {
        (cleared(p), Some(incoming))
    } else if p.match_len == 0 {
        (incoming, None)
    } else if p.idx + p.match_len <= incoming.idx {
        (incoming, Some(p))
    } else if incoming.match_len > p.match_len {
        (cleared(p), Some(incoming))
    } else {
        (cleared(p), Some(p))
    }
}

impl Match {
    /// Chooses between this pending match and `incoming`: a match of length `T` or more is
    /// emitted at once, a pending match is emitted once an incoming match starts past it, and
    /// of two overlapping matches the longer is emitted. Returns the match to emit, if any.
    pub fn select<const T: u32>(&mut self, incoming: Match) -> (r: Option<Match>)
        requires
            old(self).match_len == 0 || old(self).idx + old(self).match_len <= usize::MAX,
        ensures
            (*final(self), r) == select_spec(*old(self), incoming, T),
    {
        let select;
        if incoming.match_len == 0 {
            select = None;
        } else if incoming.match_len >= T {
            select = Some(incoming);
            self.match_len = 0;
        } else if self.match_len == 0 {
            select = None;
            *self = incoming;
        } else if self.idx + self.match_len as usize <= incoming.idx {
            select = Some(*self);
            *self = incoming;
        } else if incoming.match_len > self.match_len {
            select = Some(incoming);
            self.match_len = 0;
        } else {
            select = Some(*self);
            self.match_len = 0;
        }
        select
    }
}

impl Default for Match {
    fn default() -> (r: Self)
        ensures
            r.idx == 0,
            r.match_idx == 0,
            r.match_len == 0,
    {
        Match { idx: 0, match_idx: 0, match_len: 0 }
    }
}

} // verus!
