use lib::encode::encoder::encode_bytes;
use lib::error::Error;
use lib::reader::LzfseRingDecoder;

const TEST_ENC: [u8; 16] = [
    0x62, 0x76, 0x78, 0x2d, 0x04, 0x00, 0x00, 0x00, 0x74, 0x65, 0x73, 0x74, 0x62, 0x76, 0x78, 0x24,
];

fn read_all(enc: &[u8], chunk: usize) -> Result<Vec<u8>, Error> {
    let mut decoder = LzfseRingDecoder::default();
    let mut reader = decoder.reader_bytes(enc);
    let mut out = Vec::new();
    let mut buf = vec![0u8; chunk];
    loop {
        let n = reader.read(&mut buf)?;
        out.extend_from_slice(&buf[..n]);
        if n < chunk {
            return Ok(out);
        }
    }
}

#[test]
fn reader_bytes_test_string() {
    assert_eq!(read_all(&TEST_ENC, 3).unwrap(), b"test");
    assert_eq!(read_all(&TEST_ENC, 64).unwrap(), b"test");
}

#[test]
fn ring_decoder_test_string() {
    let mut decoder = LzfseRingDecoder::default();
    let mut dec = Vec::new();
    assert_eq!(decoder.decode_bytes(&TEST_ENC, &mut dec), Ok(4));
    assert_eq!(dec, b"test");
}

#[test]
fn reader_bytes_long_stream() {
    let src: Vec<u8> = (0..200_000u32).map(|i| ((i / 7) % 61) as u8).collect();
    let mut enc = Vec::new();
    encode_bytes(&src, &mut enc).unwrap();
    assert_eq!(read_all(&enc, 4096).unwrap(), src);
    assert_eq!(read_all(&enc, 1000).unwrap(), src);
}

#[test]
fn reader_bytes_bad_magic() {
    assert_eq!(read_all(&[0, 1, 2, 3, 4, 5], 8), Err(Error::BadBlock(0x0302_0100)));
}

#[test]
fn reader_bytes_fails_then_stays_failed() {
    let mut decoder = LzfseRingDecoder::default();
    let bad = [0u8, 1, 2, 3];
    let mut reader = decoder.reader_bytes(&bad);
    let mut buf = [0u8; 4];
    assert!(reader.read(&mut buf).is_err());
    assert_eq!(reader.read(&mut buf), Err(Error::BadReaderState));
}

#[test]
fn reader_bytes_mixed_stream() {
    let src: Vec<u8> = (0..50_000u32).map(|i| ((i / 5) % 37) as u8).collect();
    let mut enc = vec![0x62, 0x76, 0x78, 0x2d, 0x02, 0x00, 0x00, 0x00, 0x61, 0x62];
    encode_bytes(&src, &mut enc).unwrap();
    let mut expected = b"ab".to_vec();
    expected.extend_from_slice(&src);
    assert_eq!(read_all(&enc, 777).unwrap(), expected);
}
