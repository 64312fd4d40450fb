use lib::error::{Error, FseErrorKind};
use lib::fse::block::{FseBlock, LiteralParam, LmdParam};
use lib::fse::constants::{
    D_STATES, LITERALS_PER_BLOCK, LMDS_PER_BLOCK, L_STATES, M_STATES, U_STATES, V1_HEADER_SIZE,
    V1_WEIGHT_PAYLOAD_BYTES, V2_HEADER_SIZE, V2_WEIGHT_PAYLOAD_BYTES_MAX,
};

fn dummy_block() -> FseBlock {
    let literals =
        LiteralParam::new(LITERALS_PER_BLOCK, LITERALS_PER_BLOCK, 7, [U_STATES as u16 - 1; 4])
            .unwrap();
    let lmds = LmdParam::new(
        LMDS_PER_BLOCK,
        LMDS_PER_BLOCK,
        7,
        [L_STATES as u16 - 1, M_STATES as u16 - 1, D_STATES as u16 - 1],
    )
    .unwrap();
    FseBlock::new(LITERALS_PER_BLOCK, literals, lmds).unwrap()
}

#[test]
fn v1_store_load() {
    let block_1 = dummy_block();
    let mut bs = [0u8; V1_HEADER_SIZE as usize];
    block_1.store_v1(&mut bs);
    let mut block_2 = FseBlock::default();
    let (n_header_payload_bytes, n_weight_payload_bytes) = block_2.load_v1(bs.as_ref()).unwrap();
    assert_eq!(n_header_payload_bytes, V1_HEADER_SIZE);
    assert_eq!(n_weight_payload_bytes, V1_WEIGHT_PAYLOAD_BYTES);
    assert_eq!(block_1, block_2);
}

#[test]
fn v2_store_load() {
    let block_1 = dummy_block();
    let mut bs = [0u8; V2_HEADER_SIZE as usize];
    block_1.store_v2(&mut bs, V2_WEIGHT_PAYLOAD_BYTES_MAX);
    let mut block_2 = FseBlock::default();
    let (n_header_payload_bytes, n_weight_payload_bytes) = block_2.load_v2(bs.as_ref()).unwrap();
    assert_eq!(n_header_payload_bytes, V2_HEADER_SIZE);
    assert_eq!(n_weight_payload_bytes, V2_WEIGHT_PAYLOAD_BYTES_MAX);
    assert_eq!(block_1, block_2);
}

#[test]
fn literal_param_rejects_odd_count() {
    let r = LiteralParam::new(3, 0, 0, [0; 4]);
    assert_eq!(r, Err(Error::Fse(FseErrorKind::BadLiteralCount(3))));
}

#[test]
fn literal_param_rejects_bad_state() {
    let r = LiteralParam::new(4, 8, 0, [U_STATES as u16; 4]);
    assert_eq!(r, Err(Error::Fse(FseErrorKind::BadLiteralState)));
}

#[test]
fn lmd_param_rejects_count() {
    let r = LmdParam::new(LMDS_PER_BLOCK + 1, 8, 0, [0; 3]);
    assert_eq!(r, Err(Error::Fse(FseErrorKind::BadLmdCount(LMDS_PER_BLOCK + 1))));
}

#[test]
fn block_rejects_raw_count() {
    let literals = LiteralParam::new(0, 0, 0, [0; 4]).unwrap();
    let lmds = LmdParam::new(0, 8, 0, [0; 3]).unwrap();
    let r = FseBlock::new(1, literals, lmds);
    assert_eq!(r, Err(Error::Fse(FseErrorKind::BadRawByteCount)));
}
