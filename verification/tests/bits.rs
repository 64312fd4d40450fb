use lib::bits::bit_reader::BitReader;
use lib::bits::bit_writer::BitWriter;
use lib::bits::byte_bits::ByteBits;
use lib::fse::constants::U_STATES;
use lib::fse::encoder::{build_e_table, EEntry};

#[test]
fn overflow() {
    let bytes = [0xFF, 0xFF, 0xFF, 0xFF, 0xFF, 0xFF, 0xFF, 0xFF, 0x00];
    for off in 0..7usize {
        let src = ByteBits::new(bytes.as_ref());
        let mut rdr = BitReader::new(src, off).unwrap();
        for _ in 0..8 - off {
            assert_eq!(rdr.pull(1), 0);
        }
        assert_eq!(rdr.inner_len() as i64 + rdr.accum_bits() / 8, 8);
        assert_eq!(rdr.pull(1), 1);
        assert_eq!(rdr.inner_len() as i64 + rdr.accum_bits() / 8, 7);
    }
}

#[test]
fn test_null() {
    let mut weights = [4u16; 256];
    weights[0] = 0;
    let mut table = vec![EEntry::default(); 256];
    build_e_table(&weights, U_STATES, &mut table);
    let mut dst: Vec<u8> = Vec::default();
    let mut wtr = BitWriter::new(&dst);
    let mut state = U_STATES;
    for _ in 0..32 {
        table[0].encode(&mut wtr, &mut state);
    }
    let n = wtr.finalize(&mut dst);
    assert_eq!(n, 0);
    assert_eq!(dst.len(), 0);
}

#[test]
fn write_read_bits() {
    let mut dst: Vec<u8> = vec![0; 8];
    let mut wtr = BitWriter::new(&dst);
    let values: [(u64, u64); 5] = [(5, 3), (0, 1), (0x1234, 16), (1, 1), (0x7F, 7)];
    for &(v, n) in values.iter().rev() {
        wtr.push(v, n);
        wtr.flush(&mut dst);
    }
    let off = wtr.finalize(&mut dst);
    let mut rdr = BitReader::new(ByteBits::new(&dst), off).unwrap();
    for &(v, n) in values.iter() {
        rdr.flush();
        assert_eq!(rdr.pull(n as usize), v);
    }
    assert!(rdr.finalize().is_ok());
}

#[test]
fn bit_reader_starting_state() {
    let bytes = [1u8, 2, 3, 4, 5, 6, 7, 8, 9];
    let reader = BitReader::new(ByteBits::new(&bytes), 0).unwrap();
    let (s, a) = reader.into_inner();
    assert_eq!(s.len(), 2);
    assert_eq!(a.u, 0x0009_0807_0605_0403);
    assert_eq!(a.bits, 56);
}
