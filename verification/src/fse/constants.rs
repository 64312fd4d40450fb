use vstd::prelude::*;

verus! {

/// Number of literal length symbols.
pub const L_SYMBOLS: usize = 20;
/// Number of match length symbols.
pub const M_SYMBOLS: usize = 20;
/// Number of match distance symbols.
pub const D_SYMBOLS: usize = 64;
/// Number of literal symbols.
pub const U_SYMBOLS: usize = 256;

/// Total number of weights: L, M, D then U.
pub const N_WEIGHTS: usize = 360;

/// Start of the L weights.
pub const L_START: usize = 0;
/// Start of the M weights.
pub const M_START: usize = 20;
/// Start of the D weights.
pub const D_START: usize = 40;
/// Start of the U weights.
pub const U_START: usize = 104;

/// Literal length states.
pub const L_STATES: u32 = 64;
/// Match length states.
pub const M_STATES: u32 = 64;
/// Match distance states.
pub const D_STATES: u32 = 256;
/// Literal states.
pub const U_STATES: u32 = 1024;

/// Maximum literal length value.
pub const MAX_L_VALUE: u16 = 315;
/// Maximum match length value.
pub const MAX_M_VALUE: u16 = 2359;
/// Maximum match distance value.
pub const MAX_D_VALUE: u32 = 262139;

/// Maximum bits per encoded literal length: state bits plus extra bits.
pub const MAX_L_BITS: u32 = 14;
/// Maximum bits per encoded match length: state bits plus extra bits.
pub const MAX_M_BITS: u32 = 17;
/// Maximum bits per encoded match distance: state bits plus extra bits.
pub const MAX_D_BITS: u32 = 23;
/// Maximum bits per encoded literal.
pub const MAX_U_BITS: u32 = 10;
/// Maximum bits per encoded LMD triple.
pub const MAX_LMD_BITS: u32 = 54;
/// Maximum bits per encoded weight.
pub const MAX_W_BITS: usize = 14;

/// Literals per block.
pub const LITERALS_PER_BLOCK: u32 = 40000;
/// LMD triples per block.
pub const LMDS_PER_BLOCK: u32 = 10000;

/// V1 header size, weights excluded.
pub const V1_HEADER_SIZE: u32 = 50;
/// V1 weight payload size: 360 little-endian u16 values padded to 722 bytes.
pub const V1_WEIGHT_PAYLOAD_BYTES: u32 = 722;
/// V2 header size, weights excluded.
pub const V2_HEADER_SIZE: u32 = 32;
/// V2 maximum weight payload size.
pub const V2_WEIGHT_PAYLOAD_BYTES_MAX: u32 = 630;

/// V1 block size limit: header, weights, and the largest literal and LMD payloads.
pub const V1_MAX_BLOCK_LEN: u32 = 118280;
/// V2 block size limit: header, weights, and the largest literal and LMD payloads.
pub const V2_MAX_BLOCK_LEN: u32 = 118170;

} // verus!
