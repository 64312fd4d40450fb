use vstd::prelude::*;

use crate::base::{BM_VX1, BM_VX2};
use crate::error::{Error, FseErrorKind};
use crate::kit::{PackBits, pack_fields, disjoint_fields, lemma_u64_get_bound};
use vstd::arithmetic::power2::pow2;
use crate::le::{le_u16, le_u32, le_u64, read_u16, read_u32, read_u64, same_outside, write_u16, write_u32, write_u64};

use super::constants::{
    D_STATES, LITERALS_PER_BLOCK, LMDS_PER_BLOCK, L_STATES, MAX_M_VALUE, M_STATES, U_STATES,
    V1_HEADER_SIZE, V1_WEIGHT_PAYLOAD_BYTES, V2_HEADER_SIZE, V2_WEIGHT_PAYLOAD_BYTES_MAX,
};

verus! {

/// Most raw bytes a block of `n_literals` literals and `n_lmds` LMD triples can expand to.
pub open spec fn raw_limit(n_literals: nat, n_lmds: nat) -> nat {
    n_literals + n_lmds * (MAX_M_VALUE as nat)
}

/// Most LMD payload bytes `num` triples can take, with leeway.
pub open spec fn lmd_limit(num: nat) -> nat {
    1032 + (num * 54 + 7) / 8
}

/// Most literal payload bytes `num` literals can take, with leeway.
pub open spec fn literal_limit(num: nat) -> nat {
    1024 + (num * 10 + 7) / 8
}

/// Theoretical maximum `n_raw_bytes` given the supplied parameters.
pub fn n_raw_bytes_limit(n_literals: u32, n_lmds: u32) -> (r: u32)
    requires
        n_literals <= LITERALS_PER_BLOCK,
        n_lmds <= LMDS_PER_BLOCK,
    ensures
        r == raw_limit(n_literals as nat, n_lmds as nat),
{
    proof {
        assert(n_lmds * 2359 <= 10000 * 2359) by (nonlinear_arith) requires n_lmds <= 10000;
    }
    n_literals + n_lmds * 2359
}

/// Naive maximum LMD `n_payload_bytes` given the supplied parameters with leeway.
fn lmd_n_payload_bytes_limit(num: u32) -> (r: u32)
    requires
        num <= LMDS_PER_BLOCK,
    ensures
        r == lmd_limit(num as nat),
{
    proof {
        assert(num * 54 <= 10000 * 54) by (nonlinear_arith) requires num <= 10000;
    }
    1024 + 8 + (num * 14 + num * 17 + num * 23 + 7) / 8
}

/// Naive maximum literal `n_payload_bytes` given the supplied parameters with leeway.
pub fn literal_n_payload_bytes_limit(num: u32) -> (r: u32)
    requires
        num * 10 + 7 <= u32::MAX,
    ensures
        r == literal_limit(num as nat),
{
    1024 + (num * 10 + 7) / 8
}

/// Abstract LMD or literal parameters: count, payload bytes, padding bits and final states.
pub type ParamView = (u32, u32, u32, Seq<u16>);

/// Abstract block: literal parameters, LMD parameters and raw byte count.
pub type BlockView = (ParamView, ParamView, u32);

/// Why LMD parameters are refused, if they are.
pub open spec fn lmd_param_error(p: ParamView) -> Option<FseErrorKind> {
    let (num, n_payload_bytes, bits, state) = p;
    if num > LMDS_PER_BLOCK || n_payload_bytes < 8 || n_payload_bytes > lmd_limit(num as nat) {
        Some(FseErrorKind::BadLmdCount(num))
    } else if bits > 7 {
        Some(FseErrorKind::BadLmdBits)
    } else if state[0] >= L_STATES || state[1] >= M_STATES || state[2] >= D_STATES {
        Some(FseErrorKind::BadLmdState)
    } else {
        None
    }
}

/// Why literal parameters are refused, if they are.
pub open spec fn literal_param_error(p: ParamView) -> Option<FseErrorKind> {
    let (num, n_payload_bytes, bits, state) = p;
    if num % 4 != 0 || num > LITERALS_PER_BLOCK || n_payload_bytes > literal_limit(num as nat) {
        Some(FseErrorKind::BadLiteralCount(num))
    } else if bits > 7 {
        Some(FseErrorKind::BadLiteralBits)
    } else if state[0] >= U_STATES || state[1] >= U_STATES || state[2] >= U_STATES || state[3]
        >= U_STATES {
        Some(FseErrorKind::BadLiteralState)
    } else {
        None
    }
}

/// The bounds every LMD parameter set keeps.
pub open spec fn lmd_param_ok(p: ParamView) -> bool {
    &&& p.3.len() == 3
    &&& p.0 <= LMDS_PER_BLOCK
    &&& p.1 <= lmd_limit(p.0 as nat)
    &&& p.2 <= 7
    &&& p.3[0] < L_STATES
    &&& p.3[1] < M_STATES
    &&& p.3[2] < D_STATES
}

/// The bounds every literal parameter set keeps.
pub open spec fn literal_param_ok(p: ParamView) -> bool {
    &&& p.3.len() == 4
    &&& p.0 % 4 == 0
    &&& p.0 <= LITERALS_PER_BLOCK
    &&& p.1 <= literal_limit(p.0 as nat)
    &&& p.2 <= 7
    &&& p.3[0] < U_STATES
    &&& p.3[1] < U_STATES
    &&& p.3[2] < U_STATES
    &&& p.3[3] < U_STATES
}

/// The bounds every block keeps.
pub open spec fn block_ok(b: BlockView) -> bool {
    &&& literal_param_ok(b.0)
    &&& lmd_param_ok(b.1)
    &&& b.2 <= raw_limit(b.0.0 as nat, b.1.0 as nat)
}

/// The outcome of checking a block read from a header: the LMD parameters, then the literal
/// parameters, then the raw byte count; `ok` when all pass.
pub open spec fn block_check(b: BlockView, ok: (u32, u32)) -> Result<(u32, u32), Error> {
    if lmd_param_error(b.1) is Some {
        Err(Error::Fse(lmd_param_error(b.1)->0))
    } else if literal_param_error(b.0) is Some {
        Err(Error::Fse(literal_param_error(b.0)->0))
    } else if b.2 > raw_limit(b.0.0 as nat, b.1.0 as nat) {
        Err(Error::Fse(FseErrorKind::BadRawByteCount))
    } else {
        Ok(ok)
    }
}

/// LMD block parameters.
#[derive(Copy, Clone, Debug, PartialEq, Eq)]
pub struct LmdParam {
    num: u32,
    n_payload_bytes: u32,
    bits: u32,
    state: [u16; 3],
}

impl View for LmdParam {
    type V = ParamView;

    closed spec fn view(&self) -> ParamView {
        (self.num, self.n_payload_bytes, self.bits, self.state@)
    }
}

impl LmdParam {
    #[verifier::type_invariant]
    closed spec fn inv(self) -> bool {
        lmd_param_ok(self@)
    }

    /// Checked constructor.
    pub fn new(num: u32, n_payload_bytes: u32, bits: u32, state: [u16; 3]) -> (r: crate::Result<
        Self,
    >)
        ensures
            ({
                let p = (num, n_payload_bytes, bits, state@);
                &&& lmd_param_error(p) is None ==> (r matches Ok(s) && s@ == p)
                &&& lmd_param_error(p) is Some ==> r == Err::<Self, Error>(
                    Error::Fse(lmd_param_error(p)->0),
                )
            }),
    {
        if num > LMDS_PER_BLOCK || n_payload_bytes < 8 || n_payload_bytes
            > lmd_n_payload_bytes_limit(num) {
            Err(Error::Fse(FseErrorKind::BadLmdCount(num)))
        } else if bits > 7 {
            Err(Error::Fse(FseErrorKind::BadLmdBits))
        } else if (state[0] as u32) >= L_STATES || (state[1] as u32) >= M_STATES || (state[2] as u32)
            >= D_STATES {
            Err(Error::Fse(FseErrorKind::BadLmdState))
        } else {
            Ok(Self { num, n_payload_bytes, bits, state })
        }
    }

    /// Number of LMD triples.
    pub fn num(&self) -> (r: u32)
        ensures
            r == self@.0,
            r <= LMDS_PER_BLOCK,
    {
        proof {
            use_type_invariant(self);
        }
        self.num
    }

    /// Payload size in bytes.
    pub fn n_payload_bytes(&self) -> (r: u32)
        ensures
            r == self@.1,
            r <= lmd_limit(self@.0 as nat),
    {
        proof {
            use_type_invariant(self);
        }
        self.n_payload_bytes
    }

    /// Padding bits at the top of the payload.
    pub fn bits(&self) -> (r: u32)
        ensures
            r == self@.2,
            r <= 7,
    {
        proof {
            use_type_invariant(self);
        }
        self.bits
    }

    /// Final encoder states, less the state counts: L, M, D.
    pub fn state(&self) -> (r: &[u16; 3])
        ensures
            r@ == self@.3,
            r@[0] < L_STATES,
            r@[1] < M_STATES,
            r@[2] < D_STATES,
    {
        proof {
            use_type_invariant(self);
        }
        &self.state
    }
}

impl Default for LmdParam {
    fn default() -> (r: Self)
        ensures
            r@ == (0u32, 0u32, 0u32, seq![0u16, 0u16, 0u16]),
    {
        let r = Self { num: 0, n_payload_bytes: 0, bits: 0, state: [0; 3] };
        proof {
            assert(r.state@ =~= seq![0u16, 0u16, 0u16]);
        }
        r
    }
}

/// Literal block parameters.
#[derive(Copy, Clone, Debug, PartialEq, Eq)]
pub struct LiteralParam {
    num: u32,
    n_payload_bytes: u32,
    bits: u32,
    state: [u16; 4],
}

impl View for LiteralParam {
    type V = ParamView;

    closed spec fn view(&self) -> ParamView {
        (self.num, self.n_payload_bytes, self.bits, self.state@)
    }
}

impl LiteralParam {
    #[verifier::type_invariant]
    closed spec fn inv(self) -> bool {
        literal_param_ok(self@)
    }

    /// Checked constructor.
    pub fn new(num: u32, n_payload_bytes: u32, bits: u32, state: [u16; 4]) -> (r: crate::Result<
        Self,
    >)
        ensures
            ({
                let p = (num, n_payload_bytes, bits, state@);
                &&& literal_param_error(p) is None ==> (r matches Ok(s) && s@ == p)
                &&& literal_param_error(p) is Some ==> r == Err::<Self, Error>(
                    Error::Fse(literal_param_error(p)->0),
                )
            }),
    {
        if num % 4 != 0 || num > LITERALS_PER_BLOCK || n_payload_bytes
            > literal_n_payload_bytes_limit(num) {
            Err(Error::Fse(FseErrorKind::BadLiteralCount(num)))
        } else if bits > 7 {
            Err(Error::Fse(FseErrorKind::BadLiteralBits))
        } else if (state[0] as u32) >= U_STATES || (state[1] as u32) >= U_STATES || (state[2] as u32)
            >= U_STATES || (state[3] as u32) >= U_STATES {
            Err(Error::Fse(FseErrorKind::BadLiteralState))
        } else {
            Ok(Self { num, n_payload_bytes, bits, state })
        }
    }

    /// Number of literals.
    pub fn num(&self) -> (r: u32)
        ensures
            r == self@.0,
            r <= LITERALS_PER_BLOCK,
            r % 4 == 0,
    {
        proof {
            use_type_invariant(self);
        }
        self.num
    }

    /// Payload size in bytes.
    pub fn n_payload_bytes(&self) -> (r: u32)
        ensures
            r == self@.1,
            r <= literal_limit(self@.0 as nat),
    {
        proof {
            use_type_invariant(self);
        }
        self.n_payload_bytes
    }

    /// Padding bits at the top of the payload.
    pub fn bits(&self) -> (r: u32)
        ensures
            r == self@.2,
            r <= 7,
    {
        proof {
            use_type_invariant(self);
        }
        self.bits
    }

    /// Final encoder states of the four literal streams, less the state count.
    pub fn state(&self) -> (r: &[u16; 4])
        ensures
            r@ == self@.3,
            r@[0] < U_STATES,
            r@[1] < U_STATES,
            r@[2] < U_STATES,
            r@[3] < U_STATES,
    {
        proof {
            use_type_invariant(self);
        }
        &self.state
    }
}

impl Default for LiteralParam {
    fn default() -> (r: Self)
        ensures
            r@ == (0u32, 0u32, 0u32, seq![0u16, 0u16, 0u16, 0u16]),
    {
        let r = Self { num: 0, n_payload_bytes: 0, bits: 0, state: [0; 4] };
        proof {
            assert(r.state@ =~= seq![0u16, 0u16, 0u16, 0u16]);
        }
        r
    }
}


/// Two's complement negation of a `u32` value.
pub open spec fn neg32(x: nat) -> u32 {
    if x == 0 {
        0
    } else {
        (0x1_0000_0000 - x) as u32
    }
}

/// The block stored in a V1 header.
pub open spec fn v1_view(s: Seq<u8>) -> BlockView {
    (
        (
            le_u32(s, 12) as u32,
            le_u32(s, 20) as u32,
            neg32(le_u32(s, 28)),
            seq![
                le_u16(s, 32) as u16,
                le_u16(s, 34) as u16,
                le_u16(s, 36) as u16,
                le_u16(s, 38) as u16,
            ],
        ),
        (
            le_u32(s, 16) as u32,
            le_u32(s, 24) as u32,
            neg32(le_u32(s, 40)),
            seq![le_u16(s, 44) as u16, le_u16(s, 46) as u16, le_u16(s, 48) as u16],
        ),
        le_u32(s, 4) as u32,
    )
}

/// The outcome of loading a V1 header: header and weight payload sizes, or the first error.
pub open spec fn v1_result(s: Seq<u8>) -> Result<(u32, u32), Error> {
    let b = v1_view(s);
    if le_u32(s, 8) < (b.0.1 + b.1.1) % 0x1_0000_0000 {
        Err(Error::Fse(FseErrorKind::BadPayloadCount))
    } else {
        block_check(b, (V1_HEADER_SIZE, V1_WEIGHT_PAYLOAD_BYTES))
    }
}

/// Bit field `[o, o + n)` of the little-endian `u64` at `i`.
pub open spec fn field(s: Seq<u8>, i: int, o: u32, n: u32) -> nat {
    (le_u64(s, i) as u64).spec_get_bits(o, n) as nat
}

/// The block stored in a V2 header.
pub open spec fn v2_view(s: Seq<u8>) -> BlockView {
    (
        (
            field(s, 8, 0, 20) as u32,
            field(s, 8, 20, 20) as u32,
            (7 - field(s, 8, 60, 3)) as u32,
            seq![
                field(s, 16, 0, 10) as u16,
                field(s, 16, 10, 10) as u16,
                field(s, 16, 20, 10) as u16,
                field(s, 16, 30, 10) as u16,
            ],
        ),
        (
            field(s, 8, 40, 20) as u32,
            field(s, 16, 40, 20) as u32,
            (7 - field(s, 16, 60, 3)) as u32,
            seq![
                field(s, 24, 32, 10) as u16,
                field(s, 24, 42, 10) as u16,
                field(s, 24, 52, 10) as u16,
            ],
        ),
        le_u32(s, 4) as u32,
    )
}

/// Weight payload size of a V2 header: its header size less the fixed part, wrapping.
pub open spec fn v2_n_weight_bytes(s: Seq<u8>) -> u32 {
    let h = field(s, 24, 0, 32);
    if h >= V2_HEADER_SIZE {
        (h - V2_HEADER_SIZE) as u32
    } else {
        (h + 0x1_0000_0000 - V2_HEADER_SIZE) as u32
    }
}

/// The outcome of loading a V2 header: header and weight payload sizes, or the first error.
pub open spec fn v2_result(s: Seq<u8>) -> Result<(u32, u32), Error> {
    let nw = v2_n_weight_bytes(s);
    if nw > V2_WEIGHT_PAYLOAD_BYTES_MAX {
        Err(Error::Fse(FseErrorKind::BadWeightPayload))
    } else {
        block_check(v2_view(s), (V2_HEADER_SIZE, nw))
    }
}

/// The empty block.
pub open spec fn default_block() -> BlockView {
    (
        (0u32, 0u32, 0u32, seq![0u16, 0u16, 0u16, 0u16]),
        (0u32, 0u32, 0u32, seq![0u16, 0u16, 0u16]),
        0u32,
    )
}

/// FSE block parameters.
#[derive(Copy, Clone, Debug, PartialEq, Eq)]
pub struct FseBlock {
    literal: LiteralParam,
    lmd: LmdParam,
    n_raw_bytes: u32,
}

impl View for FseBlock {
    type V = BlockView;

    closed spec fn view(&self) -> BlockView {
        (self.literal@, self.lmd@, self.n_raw_bytes)
    }
}

impl FseBlock {
    #[verifier::type_invariant]
    closed spec fn inv(self) -> bool {
        self.n_raw_bytes <= raw_limit(self.literal@.0 as nat, self.lmd@.0 as nat)
    }

    /// Checked constructor.
    pub fn new(n_raw_bytes: u32, literal: LiteralParam, lmd: LmdParam) -> (r: crate::Result<Self>)
        ensures
            n_raw_bytes <= raw_limit(literal@.0 as nat, lmd@.0 as nat) ==> (r matches Ok(b) && b@
                == (literal@, lmd@, n_raw_bytes)),
            n_raw_bytes > raw_limit(literal@.0 as nat, lmd@.0 as nat) ==> r == Err::<Self, Error>(
                Error::Fse(FseErrorKind::BadRawByteCount),
            ),
    {
        if n_raw_bytes > n_raw_bytes_limit(literal.num(), lmd.num()) {
            Err(Error::Fse(FseErrorKind::BadRawByteCount))
        } else {
            Ok(Self { literal, lmd, n_raw_bytes })
        }
    }

    /// The literal parameters.
    pub fn literal(&self) -> (r: &LiteralParam)
        ensures
            r@ == self@.0,
    {
        &self.literal
    }

    /// The LMD parameters.
    pub fn lmd(&self) -> (r: &LmdParam)
        ensures
            r@ == self@.1,
    {
        &self.lmd
    }

    /// Number of raw bytes the block decodes to.
    pub fn n_raw_bytes(&self) -> (r: u32)
        ensures
            r == self@.2,
            r <= raw_limit(self@.0.0 as nat, self@.1.0 as nat),
    {
        proof {
            use_type_invariant(self);
        }
        self.n_raw_bytes
    }

    /// Total payload size in bytes.
    pub fn n_payload_bytes(&self) -> (r: u32)
        ensures
            r == self@.0.1 + self@.1.1,
    {
        proof {
            use_type_invariant(&self.literal);
            use_type_invariant(&self.lmd);
        }
        self.literal.n_payload_bytes() + self.lmd.n_payload_bytes()
    }

    /// Checks and assembles a block read from a header.
    fn checked(
        n_raw_bytes: u32,
        lit: (u32, u32, u32, [u16; 4]),
        lmd: (u32, u32, u32, [u16; 3]),
    ) -> (r: crate::Result<Self>)
        ensures
            ({
                let b = ((lit.0, lit.1, lit.2, lit.3@), (lmd.0, lmd.1, lmd.2, lmd.3@), n_raw_bytes);
                &&& block_check(b, (0, 0)) is Ok ==> (r matches Ok(x) && x@ == b)
                &&& block_check(b, (0, 0)) matches Err(e) ==> r == Err::<Self, Error>(e)
            }),
    {
        let lmd = LmdParam::new(lmd.0, lmd.1, lmd.2, lmd.3)?;
        let literal = LiteralParam::new(lit.0, lit.1, lit.2, lit.3)?;
        Self::new(n_raw_bytes, literal, lmd)
    }

    /// Loads a V1 header, the magic bytes already checked: returns the header and weight
    /// payload sizes. On error the block is left as it was.
    #[verifier::rlimit(40)]
    #[verifier::spinoff_prover]
    pub fn load_v1_internal(&mut self, src: &[u8]) -> (r: crate::Result<(u32, u32)>)
        requires
            src@.len() >= V1_HEADER_SIZE,
            le_u32(src@, 0) == BM_VX1,
        ensures
            r == v1_result(src@),
            r is Ok ==> final(self)@ == v1_view(src@),
            r is Err ==> final(self)@ == old(self)@,
    {
        let n_raw_bytes = read_u32(src, 4);
        let n_payload_bytes = read_u32(src, 8);
        let lit_num = read_u32(src, 12);
        let lmd_num = read_u32(src, 16);
        let lit_npb = read_u32(src, 20);
        let lmd_npb = read_u32(src, 24);
        let lit_bits = 0u32.wrapping_sub(read_u32(src, 28));
        let lit_state = [read_u16(src, 32), read_u16(src, 34), read_u16(src, 36), read_u16(src, 38)];
        let lmd_bits = 0u32.wrapping_sub(read_u32(src, 40));
        let lmd_state = [read_u16(src, 44), read_u16(src, 46), read_u16(src, 48)];
        proof {
            assert(lit_state@ =~= v1_view(src@).0.3);
            assert(lmd_state@ =~= v1_view(src@).1.3);
        }
        if n_payload_bytes < lit_npb.wrapping_add(lmd_npb) {
            return Err(Error::Fse(FseErrorKind::BadPayloadCount));
        }
        let b = Self::checked(
            n_raw_bytes,
            (lit_num, lit_npb, lit_bits, lit_state),
            (lmd_num, lmd_npb, lmd_bits, lmd_state),
        )?;
        *self = b;
        Ok((V1_HEADER_SIZE, V1_WEIGHT_PAYLOAD_BYTES))
    }

    /// Loads a V1 header, the magic bytes already checked: returns the header and weight
    /// payload sizes. On error the block is reset.
    pub fn load_v1(&mut self, src: &[u8]) -> (r: crate::Result<(u32, u32)>)
        requires
            src@.len() >= V1_HEADER_SIZE,
            le_u32(src@, 0) == BM_VX1,
        ensures
            r == v1_result(src@),
            r is Ok ==> final(self)@ == v1_view(src@),
            r is Err ==> final(self)@ == default_block(),
    {
        match self.load_v1_internal(src) {
            Ok(u) => Ok(u),
            Err(e) => {
                *self = Self::default();
                Err(e)
            },
        }
    }

    /// Loads a V2 header, the magic bytes already checked: returns the header and weight
    /// payload sizes. On error the block is left as it was.
    fn load_v2_internal(&mut self, src: &[u8]) -> (r: crate::Result<(u32, u32)>)
        requires
            src@.len() >= V2_HEADER_SIZE,
            le_u32(src@, 0) == BM_VX2,
        ensures
            r == v2_result(src@),
            r is Ok ==> final(self)@ == v2_view(src@),
            r is Err ==> final(self)@ == old(self)@,
    {
        let n_raw_bytes = read_u32(src, 4);
        let p = read_u64(src, 8);
        let lit_num = p.get_bits(0, 20) as u32;
        let lit_npb = p.get_bits(20, 20) as u32;
        let lmd_num = p.get_bits(40, 20) as u32;
        let f = p.get_bits(60, 3);
        proof {
            assert(f <= 7) by (bit_vector) requires f == (p >> 60u32) & (((1u64 << 3u32) - 1) as u64);
        }
        let lit_bits = 7 - f as u32;
        let p = read_u64(src, 16);
        let lit_state = [
            p.get_bits(0, 10) as u16,
            p.get_bits(10, 10) as u16,
            p.get_bits(20, 10) as u16,
            p.get_bits(30, 10) as u16,
        ];
        let lmd_npb = p.get_bits(40, 20) as u32;
        let f = p.get_bits(60, 3);
        proof {
            assert(f <= 7) by (bit_vector) requires f == (p >> 60u32) & (((1u64 << 3u32) - 1) as u64);
        }
        let lmd_bits = 7 - f as u32;
        let p = read_u64(src, 24);
        let h = p.get_bits(0, 32);
        proof {
            assert(h <= 0xffff_ffff) by (bit_vector)
                requires h == (p >> 0u32) & (((1u64 << 32u32) - 1) as u64);
        }
        let header_size = h as u32;
        let lmd_state = [p.get_bits(32, 10) as u16, p.get_bits(42, 10) as u16, p.get_bits(52, 10) as u16];
        proof {
            assert(lit_state@ =~= v2_view(src@).0.3);
            assert(lmd_state@ =~= v2_view(src@).1.3);
        }
        let n_weight_payload_bytes = header_size.wrapping_sub(V2_HEADER_SIZE);
        if n_weight_payload_bytes > V2_WEIGHT_PAYLOAD_BYTES_MAX {
            return Err(Error::Fse(FseErrorKind::BadWeightPayload));
        }
        let b = Self::checked(
            n_raw_bytes,
            (lit_num, lit_npb, lit_bits, lit_state),
            (lmd_num, lmd_npb, lmd_bits, lmd_state),
        )?;
        *self = b;
        Ok((V2_HEADER_SIZE, n_weight_payload_bytes))
    }

    /// Loads a V2 header, the magic bytes already checked: returns the header and weight
    /// payload sizes. On error the block is reset.
    pub fn load_v2(&mut self, src: &[u8]) -> (r: crate::Result<(u32, u32)>)
        requires
            src@.len() >= V2_HEADER_SIZE,
            le_u32(src@, 0) == BM_VX2,
        ensures
            r == v2_result(src@),
            r is Ok ==> final(self)@ == v2_view(src@),
            r is Err ==> final(self)@ == default_block(),
    {
        match self.load_v2_internal(src) {
            Ok(u) => Ok(u),
            Err(e) => {
                *self = Self::default();
                Err(e)
            },
        }
    }
}

/// `s` is the V1 header of block `b`.
pub open spec fn v1_stored(s: Seq<u8>, b: BlockView) -> bool {
    &&& s.len() == V1_HEADER_SIZE
    &&& le_u32(s, 0) == BM_VX1
    &&& le_u32(s, 4) == b.2
    &&& le_u32(s, 8) == b.0.1 + b.1.1
    &&& le_u32(s, 12) == b.0.0
    &&& le_u32(s, 16) == b.1.0
    &&& le_u32(s, 20) == b.0.1
    &&& le_u32(s, 24) == b.1.1
    &&& le_u32(s, 28) == neg32(b.0.2 as nat)
    &&& le_u16(s, 32) == b.0.3[0]
    &&& le_u16(s, 34) == b.0.3[1]
    &&& le_u16(s, 36) == b.0.3[2]
    &&& le_u16(s, 38) == b.0.3[3]
    &&& le_u32(s, 40) == neg32(b.1.2 as nat)
    &&& le_u16(s, 44) == b.1.3[0]
    &&& le_u16(s, 46) == b.1.3[1]
    &&& le_u16(s, 48) == b.1.3[2]
}

/// A stored V1 header loads back as the block it stores.
pub proof fn lemma_v1_header_roundtrip(b: BlockView, s: Seq<u8>)
    requires
        block_ok(b),
        b.1.1 >= 8,
        v1_stored(s, b),
    ensures
        v1_result(s) == Ok::<(u32, u32), Error>((V1_HEADER_SIZE, V1_WEIGHT_PAYLOAD_BYTES)),
        v1_view(s) == b,
{
    assert(v1_view(s).0.3 =~= b.0.3);
    assert(v1_view(s).1.3 =~= b.1.3);
    assert(v1_view(s) == b);
}

impl FseBlock {
    /// Stores the V1 header of the block into `dst`, which is exactly a header long.
    pub fn store_v1(&self, dst: &mut [u8])
        requires
            old(dst)@.len() == V1_HEADER_SIZE,
        ensures
            v1_stored(final(dst)@, self@),
            block_ok(self@),
    {
        proof {
            use_type_invariant(self);
            use_type_invariant(&self.literal);
            use_type_invariant(&self.lmd);
        }
        let literal_state = self.literal.state();
        let lmd_state = self.lmd.state();
        write_u32(dst, 0, BM_VX1);
        write_u32(dst, 4, self.n_raw_bytes);
        write_u32(dst, 8, self.n_payload_bytes());
        write_u32(dst, 12, self.literal.num());
        write_u32(dst, 16, self.lmd.num());
        write_u32(dst, 20, self.literal.n_payload_bytes());
        write_u32(dst, 24, self.lmd.n_payload_bytes());
        write_u32(dst, 28, 0u32.wrapping_sub(self.literal.bits()));
        write_u16(dst, 32, literal_state[0]);
        write_u16(dst, 34, literal_state[1]);
        write_u16(dst, 36, literal_state[2]);
        write_u16(dst, 38, literal_state[3]);
        write_u32(dst, 40, 0u32.wrapping_sub(self.lmd.bits()));
        write_u16(dst, 44, lmd_state[0]);
        write_u16(dst, 46, lmd_state[1]);
        write_u16(dst, 48, lmd_state[2]);
    }
}

/// Two digits below `k` with equal values in base `k` are equal.
proof fn lemma_digits(a: int, b: int, c: int, d: int, k: int)
    requires
        k > 0,
        0 <= a < k,
        0 <= c < k,
        a + k * b == c + k * d,
    ensures
        a == c,
        b == d,
{
    assert(a == c && b == d) by (nonlinear_arith)
        requires
            k > 0,
            0 <= a < k,
            0 <= c < k,
            a + k * b == c + k * d,
    ;
}

/// Equal little-endian 16-bit values are equal bytes.
proof fn lemma_le_u16_bytes(s: Seq<u8>, t: Seq<u8>, i: int)
    requires
        0 <= i,
        i + 2 <= s.len(),
        i + 2 <= t.len(),
        le_u16(s, i) == le_u16(t, i),
    ensures
        s[i] == t[i],
        s[i + 1] == t[i + 1],
{
    lemma_digits(s[i] as int, s[i + 1] as int, t[i] as int, t[i + 1] as int, 256);
}

/// Equal little-endian 32-bit values are equal bytes.
proof fn lemma_le_u32_bytes(s: Seq<u8>, t: Seq<u8>, i: int)
    requires
        0 <= i,
        i + 4 <= s.len(),
        i + 4 <= t.len(),
        le_u32(s, i) == le_u32(t, i),
    ensures
        forall|j: int| i <= j < i + 4 ==> s[j] == t[j],
{
    lemma_digits(le_u16(s, i) as int, le_u16(s, i + 2) as int, le_u16(t, i) as int, le_u16(t, i + 2) as int, 65536);
    lemma_le_u16_bytes(s, t, i);
    lemma_le_u16_bytes(s, t, i + 2);
}

/// Equal little-endian 64-bit values are equal bytes.
proof fn lemma_le_u64_bytes(s: Seq<u8>, t: Seq<u8>, i: int)
    requires
        0 <= i,
        i + 8 <= s.len(),
        i + 8 <= t.len(),
        le_u64(s, i) == le_u64(t, i),
    ensures
        forall|j: int| i <= j < i + 8 ==> s[j] == t[j],
{
    lemma_digits(le_u32(s, i) as int, le_u32(s, i + 4) as int, le_u32(t, i) as int, le_u32(t, i + 4) as int, 0x1_0000_0000);
    lemma_le_u32_bytes(s, t, i);
    lemma_le_u32_bytes(s, t, i + 4);
}

/// A little-endian 64-bit value fits a `u64`.
proof fn lemma_le_u64_bound(s: Seq<u8>, i: int)
    requires
        0 <= i,
        i + 8 <= s.len(),
    ensures
        le_u64(s, i) <= u64::MAX,
{
}

/// The first word of a V2 header is fixed by its fields and its spare bit.
proof fn lemma_word1(x: u64, y: u64)
    requires
        x.spec_get_bits(0, 20) == y.spec_get_bits(0, 20),
        x.spec_get_bits(20, 20) == y.spec_get_bits(20, 20),
        x.spec_get_bits(40, 20) == y.spec_get_bits(40, 20),
        x.spec_get_bits(60, 3) == y.spec_get_bits(60, 3),
        x.spec_get_bits(63, 1) == y.spec_get_bits(63, 1),
    ensures
        x == y,
{
    assert(x == y) by (bit_vector)
        requires
            (x >> 0u32) & (((1u64 << 20u32) - 1) as u64) == (y >> 0u32) & (((1u64 << 20u32) - 1) as u64),
            (x >> 20u32) & (((1u64 << 20u32) - 1) as u64) == (y >> 20u32) & (((1u64 << 20u32) - 1) as u64),
            (x >> 40u32) & (((1u64 << 20u32) - 1) as u64) == (y >> 40u32) & (((1u64 << 20u32) - 1) as u64),
            (x >> 60u32) & (((1u64 << 3u32) - 1) as u64) == (y >> 60u32) & (((1u64 << 3u32) - 1) as u64),
            (x >> 63u32) & (((1u64 << 1u32) - 1) as u64) == (y >> 63u32) & (((1u64 << 1u32) - 1) as u64),
    ;
}

/// The second word of a V2 header is fixed by its fields and its spare bit.
proof fn lemma_word2(x: u64, y: u64)
    requires
        x.spec_get_bits(0, 10) == y.spec_get_bits(0, 10),
        x.spec_get_bits(10, 10) == y.spec_get_bits(10, 10),
        x.spec_get_bits(20, 10) == y.spec_get_bits(20, 10),
        x.spec_get_bits(30, 10) == y.spec_get_bits(30, 10),
        x.spec_get_bits(40, 20) == y.spec_get_bits(40, 20),
        x.spec_get_bits(60, 3) == y.spec_get_bits(60, 3),
        x.spec_get_bits(63, 1) == y.spec_get_bits(63, 1),
    ensures
        x == y,
{
    assert(x == y) by (bit_vector)
        requires
            (x >> 0u32) & (((1u64 << 10u32) - 1) as u64) == (y >> 0u32) & (((1u64 << 10u32) - 1) as u64),
            (x >> 10u32) & (((1u64 << 10u32) - 1) as u64) == (y >> 10u32) & (((1u64 << 10u32) - 1) as u64),
            (x >> 20u32) & (((1u64 << 10u32) - 1) as u64) == (y >> 20u32) & (((1u64 << 10u32) - 1) as u64),
            (x >> 30u32) & (((1u64 << 10u32) - 1) as u64) == (y >> 30u32) & (((1u64 << 10u32) - 1) as u64),
            (x >> 40u32) & (((1u64 << 20u32) - 1) as u64) == (y >> 40u32) & (((1u64 << 20u32) - 1) as u64),
            (x >> 60u32) & (((1u64 << 3u32) - 1) as u64) == (y >> 60u32) & (((1u64 << 3u32) - 1) as u64),
            (x >> 63u32) & (((1u64 << 1u32) - 1) as u64) == (y >> 63u32) & (((1u64 << 1u32) - 1) as u64),
    ;
}

/// The third word of a V2 header is fixed by its fields and its spare bits.
proof fn lemma_word3(x: u64, y: u64)
    requires
        x.spec_get_bits(0, 32) == y.spec_get_bits(0, 32),
        x.spec_get_bits(32, 10) == y.spec_get_bits(32, 10),
        x.spec_get_bits(42, 10) == y.spec_get_bits(42, 10),
        x.spec_get_bits(52, 10) == y.spec_get_bits(52, 10),
        x.spec_get_bits(62, 2) == y.spec_get_bits(62, 2),
    ensures
        x == y,
{
    assert(x == y) by (bit_vector)
        requires
            (x >> 0u32) & (((1u64 << 32u32) - 1) as u64) == (y >> 0u32) & (((1u64 << 32u32) - 1) as u64),
            (x >> 32u32) & (((1u64 << 10u32) - 1) as u64) == (y >> 32u32) & (((1u64 << 10u32) - 1) as u64),
            (x >> 42u32) & (((1u64 << 10u32) - 1) as u64) == (y >> 42u32) & (((1u64 << 10u32) - 1) as u64),
            (x >> 52u32) & (((1u64 << 10u32) - 1) as u64) == (y >> 52u32) & (((1u64 << 10u32) - 1) as u64),
            (x >> 62u32) & (((1u64 << 2u32) - 1) as u64) == (y >> 62u32) & (((1u64 << 2u32) - 1) as u64),
    ;
}

/// A V2 header is fixed, every byte of it, by the block and the weight payload size it
/// stores: `store_v2` writes one byte string for them.
pub proof fn lemma_v2_stored_unique(s: Seq<u8>, t: Seq<u8>, b: BlockView, nw: u32)
    requires
        v2_stored(s, b, nw),
        v2_stored(t, b, nw),
    ensures
        s == t,
{
    lemma_le_u32_bytes(s, t, 0);
    lemma_le_u32_bytes(s, t, 4);
    lemma_le_u64_bound(s, 8);
    lemma_le_u64_bound(t, 8);
    lemma_le_u64_bound(s, 16);
    lemma_le_u64_bound(t, 16);
    lemma_le_u64_bound(s, 24);
    lemma_le_u64_bound(t, 24);
    lemma_word1(le_u64(s, 8) as u64, le_u64(t, 8) as u64);
    lemma_word2(le_u64(s, 16) as u64, le_u64(t, 16) as u64);
    lemma_word3(le_u64(s, 24) as u64, le_u64(t, 24) as u64);
    lemma_le_u64_bytes(s, t, 8);
    lemma_le_u64_bytes(s, t, 16);
    lemma_le_u64_bytes(s, t, 24);
    assert(s =~= t);
}

/// `s` is the V2 header of block `b` with `nw` weight payload bytes.
pub open spec fn v2_stored(s: Seq<u8>, b: BlockView, nw: u32) -> bool {
    &&& s.len() == V2_HEADER_SIZE
    &&& le_u32(s, 0) == BM_VX2
    &&& le_u32(s, 4) == b.2
    &&& field(s, 8, 0, 20) == b.0.0
    &&& field(s, 8, 20, 20) == b.0.1
    &&& field(s, 8, 40, 20) == b.1.0
    &&& field(s, 8, 60, 3) == 7 - b.0.2
    &&& field(s, 16, 0, 10) == b.0.3[0]
    &&& field(s, 16, 10, 10) == b.0.3[1]
    &&& field(s, 16, 20, 10) == b.0.3[2]
    &&& field(s, 16, 30, 10) == b.0.3[3]
    &&& field(s, 16, 40, 20) == b.1.1
    &&& field(s, 16, 60, 3) == 7 - b.1.2
    &&& field(s, 24, 0, 32) == V2_HEADER_SIZE + nw
    &&& field(s, 24, 32, 10) == b.1.3[0]
    &&& field(s, 24, 42, 10) == b.1.3[1]
    &&& field(s, 24, 52, 10) == b.1.3[2]
    &&& field(s, 8, 63, 1) == 0
    &&& field(s, 16, 63, 1) == 0
    &&& field(s, 24, 62, 2) == 0
}

/// A stored V2 header loads back as the block it stores, with its weight payload size.
pub proof fn lemma_v2_header_roundtrip(b: BlockView, nw: u32, s: Seq<u8>)
    requires
        block_ok(b),
        b.1.1 >= 8,
        nw <= V2_WEIGHT_PAYLOAD_BYTES_MAX,
        v2_stored(s, b, nw),
    ensures
        v2_result(s) == Ok::<(u32, u32), Error>((V2_HEADER_SIZE, nw)),
        v2_view(s) == b,
{
    assert(v2_view(s).0.3 =~= b.0.3);
    assert(v2_view(s).1.3 =~= b.1.3);
    assert(v2_view(s) == b);
}

impl FseBlock {
    /// Stores the V2 header of the block, with `n_weight_payload_bytes` weight payload bytes
    /// following it, into `dst`, which is exactly a header long.
    pub fn store_v2(&self, dst: &mut [u8], n_weight_payload_bytes: u32)
        requires
            old(dst)@.len() == V2_HEADER_SIZE,
            n_weight_payload_bytes + V2_HEADER_SIZE <= u32::MAX,
        ensures
            v2_stored(final(dst)@, self@, n_weight_payload_bytes),
            block_ok(self@),
    {
        proof {
            use_type_invariant(self);
            use_type_invariant(&self.literal);
            use_type_invariant(&self.lmd);
            vstd::arithmetic::power2::lemma2_to64();
            vstd::arithmetic::power2::lemma2_to64_rest();
        }
        let literal_state = self.literal.state();
        let lmd_state = self.lmd.state();
        let header_size = V2_HEADER_SIZE + n_weight_payload_bytes;
        let lit_pad = 7 - self.literal.bits() as u64;
        let lmd_pad = 7 - self.lmd.bits() as u64;
        write_u32(dst, 0, BM_VX2);
        write_u32(dst, 4, self.n_raw_bytes);
        let f1 = vec![
            (0u32, 20u32, self.literal.num() as u64),
            (20, 20, self.literal.n_payload_bytes() as u64),
            (40, 20, self.lmd.num() as u64),
            (60, 3, lit_pad),
        ];
        let f2 = vec![
            (0u32, 10u32, literal_state[0] as u64),
            (10, 10, literal_state[1] as u64),
            (20, 10, literal_state[2] as u64),
            (30, 10, literal_state[3] as u64),
            (40, 20, self.lmd.n_payload_bytes() as u64),
            (60, 3, lmd_pad),
        ];
        let f3 = vec![
            (0u32, 32u32, header_size as u64),
            (32, 10, lmd_state[0] as u64),
            (42, 10, lmd_state[1] as u64),
            (52, 10, lmd_state[2] as u64),
        ];
        proof {
            assert(disjoint_fields(f1@));
            assert(disjoint_fields(f2@));
            assert(disjoint_fields(f3@));
        }
        let p1 = pack_fields(&f1);
        let p2 = pack_fields(&f2);
        let p3 = pack_fields(&f3);
        proof {
            assert(crate::kit::clear_of(f1@, 63, 1));
            assert(crate::kit::clear_of(f2@, 63, 1));
            assert(crate::kit::clear_of(f3@, 62, 2));
            assert(f1@[0].0 == 0);
            assert(f1@[1].0 == 20);
            assert(f1@[2].0 == 40);
            assert(f1@[3].0 == 60);
            assert(f2@[0].0 == 0);
            assert(f2@[1].0 == 10);
            assert(f2@[2].0 == 20);
            assert(f2@[3].0 == 30);
            assert(f2@[4].0 == 40);
            assert(f2@[5].0 == 60);
            assert(f3@[0].0 == 0);
            assert(f3@[1].0 == 32);
            assert(f3@[2].0 == 42);
            assert(f3@[3].0 == 52);
        }
        write_u64(dst, 8, p1);
        write_u64(dst, 16, p2);
        write_u64(dst, 24, p3);
    }
}

impl Default for FseBlock {
    fn default() -> (r: Self)
        ensures
            r@ == default_block(),
    {
        Self { literal: LiteralParam::default(), lmd: LmdParam::default(), n_raw_bytes: 0 }
    }
}



impl FseBlock {
    /// Loads a V1 header from the front of `src`, which starts with the V1 magic bytes.
    pub fn load_v1_short(&mut self, src: &[u8]) -> (r: crate::Result<(u32, u32)>)
        requires
            src@.len() >= V1_HEADER_SIZE ==> le_u32(src@, 0) == BM_VX1,
        ensures
            src@.len() < V1_HEADER_SIZE ==> r == Err::<(u32, u32), Error>(Error::PayloadUnderflow)
                && final(self)@ == old(self)@,
            src@.len() >= V1_HEADER_SIZE ==> {
                let h = src@.subrange(0, V1_HEADER_SIZE as int);
                &&& r == v1_result(h)
                &&& r is Ok ==> final(self)@ == v1_view(h)
                &&& r is Err ==> final(self)@ == default_block()
            },
    {
        if src.len() < V1_HEADER_SIZE as usize {
            return Err(Error::PayloadUnderflow);
        }
        let h = vstd::slice::slice_subrange(src, 0, V1_HEADER_SIZE as usize);
        proof {
            assert(le_u32(h@, 0) == le_u32(src@, 0));
        }
        self.load_v1(h)
    }

    /// Loads a V2 header from the front of `src`, which starts with the V2 magic bytes.
    pub fn load_v2_short(&mut self, src: &[u8]) -> (r: crate::Result<(u32, u32)>)
        requires
            src@.len() >= V2_HEADER_SIZE ==> le_u32(src@, 0) == BM_VX2,
        ensures
            src@.len() < V2_HEADER_SIZE ==> r == Err::<(u32, u32), Error>(Error::PayloadUnderflow)
                && final(self)@ == old(self)@,
            src@.len() >= V2_HEADER_SIZE ==> {
                let h = src@.subrange(0, V2_HEADER_SIZE as int);
                &&& r == v2_result(h)
                &&& r is Ok ==> final(self)@ == v2_view(h)
                &&& r is Err ==> final(self)@ == default_block()
            },
    {
        if src.len() < V2_HEADER_SIZE as usize {
            return Err(Error::PayloadUnderflow);
        }
        let h = vstd::slice::slice_subrange(src, 0, V2_HEADER_SIZE as usize);
        proof {
            assert(le_u32(h@, 0) == le_u32(src@, 0));
        }
        self.load_v2(h)
    }
}


/// Little-endian words of bytes fit their widths.
proof fn lemma_le_bounds(s: Seq<u8>, i: int)
    ensures
        le_u16(s, i) < 0x1_0000,
        le_u32(s, i) < 0x1_0000_0000,
{
    assert(le_u16(s, i) < 0x1_0000);
    assert(le_u16(s, i + 2) < 0x1_0000);
}

/// The V1 header layout of LZFSE: after the magic, little-endian `u32` words give the raw byte
/// count (offset 4), the payload byte count (8), the literal count (12), the LMD count (16), the
/// literal payload size (20), the LMD payload size (24) and the literal bit offset, negated (28);
/// then the four literal states as `u16` words (32, 34, 36, 38), the LMD bit offset, negated
/// (40), and the three LMD states (44, 46, 48). This is how a V1 header reads.
pub proof fn lemma_v1_layout(s: Seq<u8>)
    ensures
        v1_view(s).2 as nat == le_u32(s, 4),
        v1_view(s).0.0 as nat == le_u32(s, 12),
        v1_view(s).1.0 as nat == le_u32(s, 16),
        v1_view(s).0.1 as nat == le_u32(s, 20),
        v1_view(s).1.1 as nat == le_u32(s, 24),
        v1_view(s).0.2 == neg32(le_u32(s, 28)),
        v1_view(s).1.2 == neg32(le_u32(s, 40)),
        v1_view(s).0.3.len() == 4,
        v1_view(s).1.3.len() == 3,
        forall|i: int| 0 <= i < 4 ==> v1_view(s).0.3[i] as nat == le_u16(s, 32 + 2 * i),
        forall|i: int| 0 <= i < 3 ==> v1_view(s).1.3[i] as nat == le_u16(s, 44 + 2 * i),
{
    lemma_le_bounds(s, 4);
    lemma_le_bounds(s, 12);
    lemma_le_bounds(s, 16);
    lemma_le_bounds(s, 20);
    lemma_le_bounds(s, 24);
    assert forall|i: int| 0 <= i < 4 implies v1_view(s).0.3[i] as nat == le_u16(s, 32 + 2 * i) by {
        lemma_le_bounds(s, 32 + 2 * i);
        assert(i == 0 || i == 1 || i == 2 || i == 3);
    }
    assert forall|i: int| 0 <= i < 3 implies v1_view(s).1.3[i] as nat == le_u16(s, 44 + 2 * i) by {
        lemma_le_bounds(s, 44 + 2 * i);
        assert(i == 0 || i == 1 || i == 2);
    }
}

/// A V1 header stored for a block follows the LZFSE V1 layout (see `lemma_v1_layout`).
pub proof fn lemma_v1_stored_layout(s: Seq<u8>, b: BlockView)
    requires
        v1_stored(s, b),
    ensures
        s.len() == 50,
        le_u32(s, 0) == BM_VX1,
        le_u32(s, 4) == b.2,
        le_u32(s, 8) == b.0.1 + b.1.1,
        le_u32(s, 12) == b.0.0,
        le_u32(s, 16) == b.1.0,
        le_u32(s, 20) == b.0.1,
        le_u32(s, 24) == b.1.1,
        forall|i: int| 0 <= i < 4 ==> le_u16(s, 32 + 2 * i) == b.0.3[i],
        forall|i: int| 0 <= i < 3 ==> le_u16(s, 44 + 2 * i) == b.1.3[i],
{
    assert forall|i: int| 0 <= i < 4 implies le_u16(s, 32 + 2 * i) == b.0.3[i] by {
        assert(i == 0 || i == 1 || i == 2 || i == 3);
    }
    assert forall|i: int| 0 <= i < 3 implies le_u16(s, 44 + 2 * i) == b.1.3[i] by {
        assert(i == 0 || i == 1 || i == 2);
    }
}

/// The V2 header layout of LZFSE: after the magic and the raw byte count (offset 4), three
/// little-endian `u64` words pack the fields, lowest bits first. The word at 8 holds the
/// literal count (bits 0..20), the literal payload size (20..40), the LMD count (40..60) and
/// seven less the literal bit offset (60..63); the word at 16 holds the four literal states,
/// state `i` in bits `10 i .. 10 i + 10`, the LMD payload size (40..60) and seven less the LMD
/// bit offset (60..63); the word at 24 holds the header size (0..32) and the three LMD states,
/// state `i` in bits `32 + 10 i .. 42 + 10 i`. This is how a V2 header reads.
pub proof fn lemma_v2_layout(s: Seq<u8>)
    ensures
        v2_view(s).2 as nat == le_u32(s, 4),
        v2_view(s).0.0 as nat == field(s, 8, 0, 20),
        v2_view(s).0.1 as nat == field(s, 8, 20, 20),
        v2_view(s).1.0 as nat == field(s, 8, 40, 20),
        v2_view(s).1.1 as nat == field(s, 16, 40, 20),
        v2_view(s).0.3.len() == 4,
        v2_view(s).1.3.len() == 3,
        forall|i: int| 0 <= i < 4 ==> v2_view(s).0.3[i] as nat == field(s, 16, (10 * i) as u32, 10),
        forall|i: int| 0 <= i < 3 ==> v2_view(s).1.3[i] as nat == field(s, 24, (32 + 10 * i) as u32, 10),
{
    lemma_le_bounds(s, 4);
    lemma_field_bounds(s);
    assert forall|i: int| 0 <= i < 4 implies v2_view(s).0.3[i] as nat == field(s, 16, (10 * i) as u32, 10) by {
        assert(i == 0 || i == 1 || i == 2 || i == 3);
    }
    assert forall|i: int| 0 <= i < 3 implies v2_view(s).1.3[i] as nat == field(s, 24, (32 + 10 * i) as u32, 10) by {
        assert(i == 0 || i == 1 || i == 2);
    }
}

/// A V2 header stored for a block follows the LZFSE V2 layout (see `lemma_v2_layout`).
pub proof fn lemma_v2_stored_layout(s: Seq<u8>, b: BlockView, nw: u32)
    requires
        v2_stored(s, b, nw),
    ensures
        s.len() == 32,
        le_u32(s, 0) == BM_VX2,
        le_u32(s, 4) == b.2,
        field(s, 8, 0, 20) == b.0.0,
        field(s, 8, 20, 20) == b.0.1,
        field(s, 8, 40, 20) == b.1.0,
        field(s, 16, 40, 20) == b.1.1,
        field(s, 24, 0, 32) == 32 + nw,
        forall|i: int| 0 <= i < 4 ==> field(s, 16, (10 * i) as u32, 10) == b.0.3[i],
        forall|i: int| 0 <= i < 3 ==> field(s, 24, (32 + 10 * i) as u32, 10) == b.1.3[i],
{
    assert forall|i: int| 0 <= i < 4 implies field(s, 16, (10 * i) as u32, 10) == b.0.3[i] by {
        assert(i == 0 || i == 1 || i == 2 || i == 3);
    }
    assert forall|i: int| 0 <= i < 3 implies field(s, 24, (32 + 10 * i) as u32, 10) == b.1.3[i] by {
        assert(i == 0 || i == 1 || i == 2);
    }
}

/// The fields of the V2 header fit their widths.
proof fn lemma_field_bounds(s: Seq<u8>)
    ensures
        field(s, 8, 0, 20) < 0x10_0000,
        field(s, 8, 20, 20) < 0x10_0000,
        field(s, 8, 40, 20) < 0x10_0000,
        field(s, 16, 40, 20) < 0x10_0000,
        forall|o: u32| o <= 54 ==> #[trigger] field(s, 16, o, 10) < 0x400,
        forall|o: u32| o <= 54 ==> #[trigger] field(s, 24, o, 10) < 0x400,
{
    assert((1u64 << 20u32) == 0x10_0000u64) by (bit_vector);
    assert((1u64 << 10u32) == 0x400u64) by (bit_vector);
    let a = le_u64(s, 8) as u64;
    let c = le_u64(s, 16) as u64;
    let d = le_u64(s, 24) as u64;
    crate::kit::lemma_u64_get_bound(a, 0, 20);
    crate::kit::lemma_u64_get_bound(a, 20, 20);
    crate::kit::lemma_u64_get_bound(a, 40, 20);
    crate::kit::lemma_u64_get_bound(c, 40, 20);
    assert forall|o: u32| o <= 54 implies #[trigger] field(s, 16, o, 10) < 0x400 by {
        crate::kit::lemma_u64_get_bound(c, o, 10);
    }
    assert forall|o: u32| o <= 54 implies #[trigger] field(s, 24, o, 10) < 0x400 by {
        crate::kit::lemma_u64_get_bound(d, o, 10);
    }
}

} // verus!
