use vstd::prelude::*;

use crate::base::{BM_VX1, BM_VX2};
use crate::error::Error;
use crate::le::le_u32;

use super::block::{v1_result, v1_view, v2_result, v2_view, FseBlock};
use super::constants::{V1_HEADER_SIZE, V2_HEADER_SIZE};

verus! {

/// Payload and raw sizes of the V1 block at the front of `src`, which starts with the V1 magic
/// bytes: header, weights and literal and LMD payloads, and the bytes it decodes to.
pub fn v1_probe(src: &[u8]) -> (r: crate::Result<(u32, u32)>)
    requires
        src@.len() >= 4,
        le_u32(src@, 0) == BM_VX1,
    ensures
        src@.len() < V1_HEADER_SIZE ==> r == Err::<(u32, u32), Error>(Error::PayloadUnderflow),
        src@.len() >= V1_HEADER_SIZE ==> {
            let h = src@.subrange(0, V1_HEADER_SIZE as int);
            let b = v1_view(h);
            &&& v1_result(h) matches Err(e) ==> r == Err::<(u32, u32), Error>(e)
            &&& v1_result(h) matches Ok((nh, nw)) ==> r == Ok::<(u32, u32), Error>(
                ((nh + nw + b.0.1 + b.1.1) as u32, b.2),
            )
        },
        r matches Ok((np, nr)) ==> np >= 32 && nr <= 0x200_0000,
{
    let mut block = FseBlock::default();
    let (nh, nw) = block.load_v1_short(src)?;
    let npb = block.n_payload_bytes();
    proof {
        assert(npb <= 1024 + (40000 * 10 + 7) / 8 + 1032 + (10000 * 54 + 7) / 8) by (nonlinear_arith)
            requires
                npb == block@.0.1 + block@.1.1,
                block@.0.1 <= super::block::literal_limit(block@.0.0 as nat),
                block@.1.1 <= super::block::lmd_limit(block@.1.0 as nat),
                block@.0.0 <= 40000,
                block@.1.0 <= 10000,
        ;
    }
    let nr = block.n_raw_bytes();
    let _nl = block.literal().num();
    let _nm = block.lmd().num();
    proof {
        assert(nr <= 40000 + 10000 * 2359) by (nonlinear_arith)
            requires
                nr <= block@.0.0 + block@.1.0 * 2359,
                block@.0.0 <= 40000,
                block@.1.0 <= 10000,
        ;
    }
    Ok((nh + nw + npb, nr))
}

/// Payload and raw sizes of the V2 block at the front of `src`, which starts with the V2 magic
/// bytes: header, weights and literal and LMD payloads, and the bytes it decodes to.
pub fn v2_probe(src: &[u8]) -> (r: crate::Result<(u32, u32)>)
    requires
        src@.len() >= 4,
        le_u32(src@, 0) == BM_VX2,
    ensures
        src@.len() < V2_HEADER_SIZE ==> r == Err::<(u32, u32), Error>(Error::PayloadUnderflow),
        src@.len() >= V2_HEADER_SIZE ==> {
            let h = src@.subrange(0, V2_HEADER_SIZE as int);
            let b = v2_view(h);
            &&& v2_result(h) matches Err(e) ==> r == Err::<(u32, u32), Error>(e)
            &&& v2_result(h) matches Ok((nh, nw)) ==> r == Ok::<(u32, u32), Error>(
                ((nh + nw + b.0.1 + b.1.1) as u32, b.2),
            )
        },
        r matches Ok((np, nr)) ==> np >= 32 && nr <= 0x200_0000,
{
    let mut block = FseBlock::default();
    let (nh, nw) = block.load_v2_short(src)?;
    let npb = block.n_payload_bytes();
    proof {
        assert(npb <= 1024 + (40000 * 10 + 7) / 8 + 1032 + (10000 * 54 + 7) / 8) by (nonlinear_arith)
            requires
                npb == block@.0.1 + block@.1.1,
                block@.0.1 <= super::block::literal_limit(block@.0.0 as nat),
                block@.1.1 <= super::block::lmd_limit(block@.1.0 as nat),
                block@.0.0 <= 40000,
                block@.1.0 <= 10000,
        ;
    }
    let nr = block.n_raw_bytes();
    let _nl = block.literal().num();
    let _nm = block.lmd().num();
    proof {
        assert(nr <= 40000 + 10000 * 2359) by (nonlinear_arith)
            requires
                nr <= block@.0.0 + block@.1.0 * 2359,
                block@.0.0 <= 40000,
                block@.1.0 <= 10000,
        ;
    }
    Ok((nh + nw + npb, nr))
}

} // verus!
