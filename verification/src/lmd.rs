use vstd::prelude::*;

use crate::fse::constants::{MAX_D_VALUE, MAX_L_VALUE, MAX_M_VALUE};

verus! {

/// Bounded literal length, `0..=MAX_L_VALUE`.
#[derive(Copy, Clone, Debug, PartialEq, Eq)]
pub struct LiteralLen(u32);

impl LiteralLen {
    /// Bounds on the value.
    #[verifier::type_invariant]
    spec fn inv(self) -> bool {
        self.0 <= MAX_L_VALUE as u32
    }

    /// The value.
    pub closed spec fn value(self) -> u32 {
        self.0
    }

    /// A bounded value.
    pub fn new(u: u32) -> (r: Self)
        requires
            u <= MAX_L_VALUE as u32,
        ensures
            r.value() == u,
    {
        LiteralLen(u)
    }

    /// The value.
    pub fn get(self) -> (r: u32)
        ensures
            r == self.value(),
            r <= MAX_L_VALUE as u32,
    {
        proof {
            use_type_invariant(&self);
        }
        self.0
    }
}

impl Default for LiteralLen {
    fn default() -> (r: Self)
        ensures
            r.value() == 0,
    {
        LiteralLen(0)
    }
}

/// Bounded packed literal length, `0..=MAX_L_VALUE`.
#[derive(Copy, Clone, Debug, PartialEq, Eq)]
pub struct LiteralLenPack(u16);

impl LiteralLenPack {
    /// Bounds on the value.
    #[verifier::type_invariant]
    spec fn inv(self) -> bool {
        self.0 <= MAX_L_VALUE
    }

    /// The value.
    pub closed spec fn value(self) -> u16 {
        self.0
    }

    /// A bounded value.
    pub fn new(u: u16) -> (r: Self)
        requires
            u <= MAX_L_VALUE,
        ensures
            r.value() == u,
    {
        LiteralLenPack(u)
    }

    /// The value.
    pub fn get(self) -> (r: u16)
        ensures
            r == self.value(),
            r <= MAX_L_VALUE,
    {
        proof {
            use_type_invariant(&self);
        }
        self.0
    }
}

impl Default for LiteralLenPack {
    fn default() -> (r: Self)
        ensures
            r.value() == 0,
    {
        LiteralLenPack(0)
    }
}

/// Bounded match length, `0..=MAX_M_VALUE`.
#[derive(Copy, Clone, Debug, PartialEq, Eq)]
pub struct MatchLen(u32);

impl MatchLen {
    /// Bounds on the value.
    #[verifier::type_invariant]
    spec fn inv(self) -> bool {
        self.0 <= MAX_M_VALUE as u32
    }

    /// The value.
    pub closed spec fn value(self) -> u32 {
        self.0
    }

    /// A bounded value.
    pub fn new(u: u32) -> (r: Self)
        requires
            u <= MAX_M_VALUE as u32,
        ensures
            r.value() == u,
    {
        MatchLen(u)
    }

    /// The value.
    pub fn get(self) -> (r: u32)
        ensures
            r == self.value(),
            r <= MAX_M_VALUE as u32,
    {
        proof {
            use_type_invariant(&self);
        }
        self.0
    }
}

impl Default for MatchLen {
    fn default() -> (r: Self)
        ensures
            r.value() == 0,
    {
        MatchLen(0)
    }
}

/// Bounded packed match length, `0..=MAX_M_VALUE`.
#[derive(Copy, Clone, Debug, PartialEq, Eq)]
pub struct MatchLenPack(u16);

impl MatchLenPack {
    /// Bounds on the value.
    #[verifier::type_invariant]
    spec fn inv(self) -> bool {
        self.0 <= MAX_M_VALUE
    }

    /// The value.
    pub closed spec fn value(self) -> u16 {
        self.0
    }

    /// A bounded value.
    pub fn new(u: u16) -> (r: Self)
        requires
            u <= MAX_M_VALUE,
        ensures
            r.value() == u,
    {
        MatchLenPack(u)
    }

    /// The value.
    pub fn get(self) -> (r: u16)
        ensures
            r == self.value(),
            r <= MAX_M_VALUE,
    {
        proof {
            use_type_invariant(&self);
        }
        self.0
    }
}

impl Default for MatchLenPack {
    fn default() -> (r: Self)
        ensures
            r.value() == 0,
    {
        MatchLenPack(0)
    }
}

/// Bounded nonzero match distance, `1..=MAX_D_VALUE`.
#[derive(Copy, Clone, Debug, PartialEq, Eq)]
pub struct MatchDistance(u32);

impl MatchDistance {
    /// Bounds on the value.
    #[verifier::type_invariant]
    spec fn inv(self) -> bool {
        1 <= self.0 && self.0 <= MAX_D_VALUE
    }

    /// The value.
    pub closed spec fn value(self) -> u32 {
        self.0
    }

    /// A bounded value.
    pub fn new(u: u32) -> (r: Self)
        requires
            1 <= u && u <= MAX_D_VALUE,
        ensures
            r.value() == u,
    {
        MatchDistance(u)
    }

    /// The value.
    pub fn get(self) -> (r: u32)
        ensures
            r == self.value(),
            1 <= r && r <= MAX_D_VALUE,
    {
        proof {
            use_type_invariant(&self);
        }
        self.0
    }
}

impl Default for MatchDistance {
    fn default() -> (r: Self)
        ensures
            r.value() == 1,
    {
        MatchDistance(1)
    }
}

/// Bounded packed match distance, `0..=MAX_D_VALUE`, zero meaning a repeat of the previous distance.
#[derive(Copy, Clone, Debug, PartialEq, Eq)]
pub struct MatchDistancePack(u32);

impl MatchDistancePack {
    /// Bounds on the value.
    #[verifier::type_invariant]
    spec fn inv(self) -> bool {
        self.0 <= MAX_D_VALUE
    }

    /// The value.
    pub closed spec fn value(self) -> u32 {
        self.0
    }

    /// A bounded value.
    pub fn new(u: u32) -> (r: Self)
        requires
            u <= MAX_D_VALUE,
        ensures
            r.value() == u,
    {
        MatchDistancePack(u)
    }

    /// The value.
    pub fn get(self) -> (r: u32)
        ensures
            r == self.value(),
            r <= MAX_D_VALUE,
    {
        proof {
            use_type_invariant(&self);
        }
        self.0
    }
}

impl Default for MatchDistancePack {
    fn default() -> (r: Self)
        ensures
            r.value() == 0,
    {
        MatchDistancePack(0)
    }
}

/// Bounded unpacked match distance, `0..=MAX_D_VALUE`, zero being the invalid initial state.
#[derive(Copy, Clone, Debug, PartialEq, Eq)]
pub struct MatchDistanceUnpack(u32);

impl MatchDistanceUnpack {
    /// Bounds on the value.
    #[verifier::type_invariant]
    spec fn inv(self) -> bool {
        self.0 <= MAX_D_VALUE
    }

    /// The value.
    pub closed spec fn value(self) -> u32 {
        self.0
    }

    /// A bounded value.
    pub fn new(u: u32) -> (r: Self)
        requires
            u <= MAX_D_VALUE,
        ensures
            r.value() == u,
    {
        MatchDistanceUnpack(u)
    }

    /// The value.
    pub fn get(self) -> (r: u32)
        ensures
            r == self.value(),
            r <= MAX_D_VALUE,
    {
        proof {
            use_type_invariant(&self);
        }
        self.0
    }
}

impl Default for MatchDistanceUnpack {
    fn default() -> (r: Self)
        ensures
            r.value() == 0,
    {
        MatchDistanceUnpack(0)
    }
}

impl MatchDistanceUnpack {
    /// Takes over `other` unless it is zero, the repeat marker.
    pub fn substitute(&mut self, other: MatchDistancePack)
        ensures
            other.value() != 0 ==> final(self).value() == other.value(),
            other.value() == 0 ==> final(self).value() == old(self).value(),
    {
        proof {
            use_type_invariant(&other);
        }
        if other.0 != 0 {
            *self = MatchDistanceUnpack(other.0);
        }
    }
}

impl MatchDistance {
    /// The distance as an unpacked distance.
    pub fn unpack(self) -> (r: MatchDistanceUnpack)
        ensures
            r.value() == self.value(),
    {
        proof {
            use_type_invariant(&self);
        }
        MatchDistanceUnpack(self.0)
    }
}

impl LiteralLenPack {
    /// The packed length as a literal length.
    pub fn unpack(self) -> (r: LiteralLen)
        ensures
            r.value() == self.value(),
    {
        proof {
            use_type_invariant(&self);
        }
        LiteralLen(self.0 as u32)
    }
}

impl LiteralLen {
    /// The literal length packed.
    pub fn pack(self) -> (r: LiteralLenPack)
        ensures
            r.value() == self.value(),
    {
        proof {
            use_type_invariant(&self);
        }
        LiteralLenPack(self.0 as u16)
    }
}

impl MatchLenPack {
    /// The packed length as a match length.
    pub fn unpack(self) -> (r: MatchLen)
        ensures
            r.value() == self.value(),
    {
        proof {
            use_type_invariant(&self);
        }
        MatchLen(self.0 as u32)
    }
}

impl MatchLen {
    /// The match length packed.
    pub fn pack(self) -> (r: MatchLenPack)
        ensures
            r.value() == self.value(),
    {
        proof {
            use_type_invariant(&self);
        }
        MatchLenPack(self.0 as u16)
    }
}

/// A literal length, match length, match distance triple.
#[derive(Copy, Clone, Debug, PartialEq, Eq)]
pub struct Lmd(pub LiteralLen, pub MatchLen, pub MatchDistance);

impl Lmd {
    /// A triple of bounded values.
    pub fn new(literal_len: u32, match_len: u32, match_distance: u32) -> (r: Self)
        requires
            literal_len <= MAX_L_VALUE,
            match_len <= MAX_M_VALUE,
            1 <= match_distance <= MAX_D_VALUE,
        ensures
            r.0.value() == literal_len,
            r.1.value() == match_len,
            r.2.value() == match_distance,
    {
        Lmd(LiteralLen::new(literal_len), MatchLen::new(match_len), MatchDistance::new(match_distance))
    }
}

impl Default for Lmd {
    fn default() -> (r: Self)
        ensures
            r.0.value() == 0,
            r.1.value() == 0,
            r.2.value() == 1,
    {
        Lmd(LiteralLen::default(), MatchLen::default(), MatchDistance::default())
    }
}

/// A packed triple: the distance is zero when it repeats the previous one.
#[derive(Copy, Clone, Debug, PartialEq, Eq)]
pub struct LmdPack(pub LiteralLenPack, pub MatchLenPack, pub MatchDistancePack);

impl LmdPack {
    /// A packed triple of bounded values.
    pub fn new(literal_len: u16, match_len: u16, match_distance: u32) -> (r: Self)
        requires
            literal_len <= MAX_L_VALUE,
            match_len <= MAX_M_VALUE,
            match_distance <= MAX_D_VALUE,
        ensures
            r.0.value() == literal_len,
            r.1.value() == match_len,
            r.2.value() == match_distance,
    {
        LmdPack(
            LiteralLenPack::new(literal_len),
            MatchLenPack::new(match_len),
            MatchDistancePack::new(match_distance),
        )
    }
}

impl Default for LmdPack {
    fn default() -> (r: Self)
        ensures
            r.0.value() == 0,
            r.1.value() == 0,
            r.2.value() == 0,
    {
        LmdPack(LiteralLenPack::default(), MatchLenPack::default(), MatchDistancePack::default())
    }
}

/// Total literal bytes of a triple sequence.
pub open spec fn literal_total(s: Seq<Lmd>) -> nat
    decreases s.len(),
{
    if s.len() == 0 {
        0
    } else {
        literal_total(s.drop_last()) + s.last().0.value() as nat
    }
}

/// Total match bytes of a triple sequence.
pub open spec fn match_total(s: Seq<Lmd>) -> nat
    decreases s.len(),
{
    if s.len() == 0 {
        0
    } else {
        match_total(s.drop_last()) + s.last().1.value() as nat
    }
}

/// The values of a triple.
pub open spec fn lmd_values(x: Lmd) -> (nat, nat, nat) {
    (x.0.value() as nat, x.1.value() as nat, x.2.value() as nat)
}

/// The triples `split_lmd` appends for `l` literals and a match of `m` bytes at distance `d`:
/// full literal runs with empty matches at distance one while more literals remain than a
/// triple holds, then full matches at `d` while more match bytes remain, the first of them
/// with the remaining literals, then the rest.
pub open spec fn split_values(l: nat, m: nat, d: nat) -> Seq<(nat, nat, nat)>
    decreases l, m,
{
    if l > MAX_L_VALUE {
        seq![(MAX_L_VALUE as nat, 0nat, 1nat)] + split_values((l - MAX_L_VALUE) as nat, m, d)
    } else if m > MAX_M_VALUE {
        seq![(l, MAX_M_VALUE as nat, d)] + split_values(0, (m - MAX_M_VALUE) as nat, d)
    } else {
        seq![(l, m, d)]
    }
}

/// Splits a literal run of `literal_len` bytes followed by a match of `match_len` bytes at
/// `match_distance` into bounded triples appended to `dst`.
pub fn split_lmd(dst: &mut Vec<Lmd>, literal_len: u32, match_len: u32, match_distance: u32)
    requires
        1 <= match_distance <= MAX_D_VALUE,
    ensures
        final(dst)@.len() > old(dst)@.len(),
        final(dst)@.subrange(0, old(dst)@.len() as int) == old(dst)@,
        literal_total(final(dst)@) == literal_total(old(dst)@) + literal_len,
        match_total(final(dst)@) == match_total(old(dst)@) + match_len,
        forall|i: int|
            old(dst)@.len() <= i < final(dst)@.len() && (#[trigger] final(dst)@[i]).1.value() != 0
                ==> final(dst)@[i].2.value() == match_distance,
        final(dst)@.subrange(old(dst)@.len() as int, final(dst)@.len() as int).map_values(
            |x: Lmd| lmd_values(x),
        ) == split_values(literal_len as nat, match_len as nat, match_distance as nat),
{
    let ghost ll0 = literal_len;
    let ghost ml0 = match_len;
    let mut literal_len = literal_len;
    let mut match_len = match_len;
    let ghost d0 = dst@;
    let ghost l0 = literal_total(dst@);
    let ghost m0 = match_total(dst@);
    loop
        invariant_except_break
            literal_total(dst@) + literal_len == l0 + ll0 as nat,
            match_total(dst@) + match_len == m0 + ml0 as nat,
            dst@.subrange(d0.len() as int, dst@.len() as int).map_values(|x: Lmd| lmd_values(x))
                + split_values(literal_len as nat, match_len as nat, match_distance as nat)
                == split_values(ll0 as nat, ml0 as nat, match_distance as nat),
        invariant
            1 <= match_distance <= MAX_D_VALUE,
            dst@.len() >= d0.len(),
            dst@.subrange(0, d0.len() as int) == d0,
            forall|i: int|
                d0.len() <= i < dst@.len() && (#[trigger] dst@[i]).1.value() != 0
                    ==> dst@[i].2.value() == match_distance,
        ensures
            dst@.len() > d0.len(),
            dst@.subrange(0, d0.len() as int) == d0,
            literal_total(dst@) == l0 + ll0 as nat,
            match_total(dst@) == m0 + ml0 as nat,
            forall|i: int|
                d0.len() <= i < dst@.len() && (#[trigger] dst@[i]).1.value() != 0
                    ==> dst@[i].2.value() == match_distance,
            dst@.subrange(d0.len() as int, dst@.len() as int).map_values(|x: Lmd| lmd_values(x))
                == split_values(ll0 as nat, ml0 as nat, match_distance as nat),
        decreases literal_len, match_len,
    {
        let ghost before = dst@;
        let ghost sv = split_values(literal_len as nat, match_len as nat, match_distance as nat);
        if literal_len > MAX_L_VALUE as u32 {
            dst.push(Lmd::new(MAX_L_VALUE as u32, 0, 1));
            literal_len = literal_len - MAX_L_VALUE as u32;
        } else if match_len > MAX_M_VALUE as u32 {
            dst.push(Lmd::new(literal_len, MAX_M_VALUE as u32, match_distance));
            literal_len = 0;
            match_len = match_len - MAX_M_VALUE as u32;
        } else {
            dst.push(Lmd::new(literal_len, match_len, match_distance));
            proof {
                assert(dst@.drop_last() =~= before);
                assert(dst@.subrange(0, d0.len() as int) =~= before.subrange(0, d0.len() as int));
                assert(dst@.subrange(d0.len() as int, dst@.len() as int).map_values(|x: Lmd| lmd_values(x))
                    =~= before.subrange(d0.len() as int, before.len() as int).map_values(|x: Lmd| lmd_values(x)) + sv);
            }
            break;
        }
        proof {
            assert(dst@.drop_last() =~= before);
            assert(dst@.subrange(0, d0.len() as int) =~= before.subrange(0, d0.len() as int));
            let pv = before.subrange(d0.len() as int, before.len() as int).map_values(|x: Lmd| lmd_values(x));
            let nv = dst@.subrange(d0.len() as int, dst@.len() as int).map_values(|x: Lmd| lmd_values(x));
            let rest = split_values(literal_len as nat, match_len as nat, match_distance as nat);
            assert(sv =~= seq![lmd_values(dst@.last())] + rest);
            assert(nv =~= pv.push(lmd_values(dst@.last())));
            assert(nv + rest =~= pv + sv);
        }
    }
}

/// Total raw bytes, literals and matches, of a triple sequence.
pub fn n_raw_bytes(lmds: &[Lmd]) -> (r: u32)
    requires
        literal_total(lmds@) + match_total(lmds@) <= u32::MAX,
    ensures
        r == literal_total(lmds@) + match_total(lmds@),
{
    let mut t: u32 = 0;
    let mut i: usize = 0;
    proof {
        assert(lmds@.subrange(0, 0) =~= Seq::<Lmd>::empty());
    }
    while i < lmds.len()
        invariant
            i <= lmds@.len(),
            literal_total(lmds@) + match_total(lmds@) <= u32::MAX,
            t == literal_total(lmds@.subrange(0, i as int)) + match_total(lmds@.subrange(0, i as int)),
        decreases lmds@.len() - i,
    {
        proof {
            assert(lmds@.subrange(0, i + 1).drop_last() =~= lmds@.subrange(0, i as int));
            lemma_totals_prefix_le(lmds@, i + 1);
        }
        let lmd = lmds[i];
        t = t + lmd.0.get() + lmd.1.get();
        i = i + 1;
    }
    proof {
        assert(lmds@.subrange(0, lmds@.len() as int) =~= lmds@);
    }
    t
}

/// Prefix totals are bounded by the totals.
proof fn lemma_totals_prefix_le(s: Seq<Lmd>, n: int)
    requires
        0 <= n <= s.len(),
    ensures
        literal_total(s.subrange(0, n)) <= literal_total(s),
        match_total(s.subrange(0, n)) <= match_total(s),
    decreases s.len(),
{
    if n < s.len() {
        assert(s.subrange(0, n) =~= s.drop_last().subrange(0, n));
        lemma_totals_prefix_le(s.drop_last(), n);
    } else {
        assert(s.subrange(0, n) =~= s);
    }
}

} // verus!
