use lib::fse::buffer::Buffer;
use lib::fse::constants::{MAX_L_VALUE, MAX_M_VALUE};
use lib::lmd::LmdPack;

#[test]
fn buffer_push_long_match() {
    let mut b = Buffer::default();
    let lits = [0x61u8, 0x62];
    let mut pos = 0usize;
    let mut m = MAX_M_VALUE as u32 + 3;
    assert!(b.push(&lits, &mut pos, &mut m, 5));
    assert_eq!(pos, 2);
    assert_eq!(m, 0);
    assert_eq!(b.literal_slice(), &[0x61, 0x62]);
    assert_eq!(b.lmd_slice(), &[LmdPack::new(2, MAX_M_VALUE, 5), LmdPack::new(0, 3, 0)]);
    assert_eq!(b.n_raw_bytes(), 2 + MAX_M_VALUE as u32 + 3);
}

#[test]
fn buffer_push_long_literals() {
    let mut b = Buffer::default();
    let lits = vec![7u8; MAX_L_VALUE as usize + 10];
    let mut pos = 0usize;
    let mut m = 4u32;
    assert!(b.push(&lits, &mut pos, &mut m, 1));
    assert_eq!(b.lmd_slice(), &[LmdPack::new(MAX_L_VALUE, 0, 1), LmdPack::new(10, 4, 0)]);
}
