use lib::bits::accum::accum_mask;
use lib::kit::{mask_u16, mask_u32, mask_u64, mask_u8};
use lib::match_kit::{nclz_bytes, nctz_bytes};

#[test]
fn mask() {
    for i in 0..64usize {
        assert_eq!(accum_mask(i), (1u64 << i) - 1);
    }
}

#[test]
fn ops_bytes_0() {
    let bytes = [0x01, 0x00, 0x00, 0x00, 0x00, 0x00, 0x00, 0x00];
    let u = u64::from_le_bytes(bytes);
    assert_eq!(nctz_bytes(u), 7);
    assert_eq!(nclz_bytes(u), 0);
}

#[test]
fn ops_bytes_1() {
    let bytes = [0x00, 0x00, 0x00, 0x00, 0x00, 0x00, 0x00, 0x01];
    let u = u64::from_le_bytes(bytes);
    assert_eq!(nctz_bytes(u), 0);
    assert_eq!(nclz_bytes(u), 7);
}

#[test]
fn mask_full_word() {
    assert_eq!(accum_mask(64), u64::MAX);
    assert_eq!(accum_mask(0), 0);
}

#[test]
fn masks_by_width() {
    assert_eq!(mask_u64(63), 0x7FFF_FFFF_FFFF_FFFF);
    assert_eq!(mask_u32(31), 0x7FFF_FFFF);
    assert_eq!(mask_u16(15), 0x7FFF);
    assert_eq!(mask_u8(7), 0x7F);
    assert_eq!(mask_u8(0), 0);
}

#[test]
fn ops_bytes_zero_word() {
    assert_eq!(nctz_bytes(0), 8);
    assert_eq!(nclz_bytes(0), 8);
}
