use vstd::prelude::*;

use crate::error::Error;

verus! {

/// Block magic: end of stream.
pub const BM_EOS: u32 = 0x2478_7662;

/// Block magic: raw (uncompressed) block.
pub const BM_RAW: u32 = 0x2D78_7662;

/// Block magic: LZFSE version 1 compressed block.
pub const BM_VX1: u32 = 0x3178_7662;

/// Block magic: LZFSE version 2 compressed block.
pub const BM_VX2: u32 = 0x3278_7662;

/// Block magic: LZVN compressed block.
pub const BM_VXN: u32 = 0x6E78_7662;

/// Block types, identified by their leading little-endian `u32` magic value.
#[derive(Copy, Clone, Debug, PartialEq, Eq)]
pub enum MagicBytes {
    Eos,
    Raw,
    Vx1,
    Vx2,
    Vxn,
}

/// The magic value of a block type.
pub open spec fn magic_value(m: MagicBytes) -> u32 {
    match m {
        MagicBytes::Eos => BM_EOS,
        MagicBytes::Raw => BM_RAW,
        MagicBytes::Vx1 => BM_VX1,
        MagicBytes::Vx2 => BM_VX2,
        MagicBytes::Vxn => BM_VXN,
    }
}

/// `u` is the magic value of some block type.
pub open spec fn is_magic(u: u32) -> bool {
    u == BM_EOS || u == BM_RAW || u == BM_VX1 || u == BM_VX2 || u == BM_VXN
}

impl MagicBytes {
    /// The block type whose magic value is `u`, or `Error::BadBlock(u)` if there is none.
    pub fn try_from(u: u32) -> (r: Result<MagicBytes, Error>)
        ensures
            is_magic(u) <==> r is Ok,
            r matches Ok(m) ==> magic_value(m) == u,
            r matches Err(e) ==> e == Error::BadBlock(u),
    {
        match u {
            BM_EOS => Ok(MagicBytes::Eos),
            BM_RAW => Ok(MagicBytes::Raw),
            BM_VX1 => Ok(MagicBytes::Vx1),
            BM_VX2 => Ok(MagicBytes::Vx2),
            BM_VXN => Ok(MagicBytes::Vxn),
            _ => Err(Error::BadBlock(u)),
        }
    }

    /// The magic value of this block type.
    pub fn into_u32(self) -> (r: u32)
        ensures
            r == magic_value(self),
            is_magic(r),
    {
        match self {
            MagicBytes::Eos => BM_EOS,
            MagicBytes::Raw => BM_RAW,
            MagicBytes::Vx1 => BM_VX1,
            MagicBytes::Vx2 => BM_VX2,
            MagicBytes::Vxn => BM_VXN,
        }
    }
}

/// Converting a block type to its magic value and back yields the block type.
pub proof fn lemma_magic_roundtrip(m: MagicBytes)
    ensures
        is_magic(magic_value(m)),
        forall|n: MagicBytes| magic_value(n) == magic_value(m) ==> n == m,
{
}

} // verus!
