use lib::decode::{decode_bytes, probe, LzfseDecoder};
use lib::encode::encoder::{encode_bytes, LzfseEncoder, LzfseRingEncoder, MAX_SRC_LEN};
use lib::error::Error;

const TEST_ENC: [u8; 16] = [
    0x62, 0x76, 0x78, 0x2d, 0x04, 0x00, 0x00, 0x00, 0x74, 0x65, 0x73, 0x74, 0x62, 0x76, 0x78, 0x24,
];

fn text(n: usize) -> Vec<u8> {
    let quote: &[u8] = b"Full fathom five thy father lies; Of his bones are coral made; \
        Those are pearls that were his eyes: Nothing of him that doth fade; \
        But doth suffer a sea-change; Into something rich and strange. ";
    quote.iter().cycle().take(n).copied().collect()
}

fn noise(n: usize, seed: u32) -> Vec<u8> {
    let mut x = seed | 1;
    (0..n)
        .map(|_| {
            x ^= x << 13;
            x ^= x >> 17;
            x ^= x << 5;
            (x >> 24) as u8
        })
        .collect()
}

fn round_trip(src: &[u8]) {
    let mut enc = Vec::new();
    let n = encode_bytes(src, &mut enc).unwrap();
    assert_eq!(n as usize, enc.len());
    assert_eq!(probe(&enc).unwrap(), src.len() as u64);
    let mut dec = Vec::new();
    let m = decode_bytes(&enc, &mut dec).unwrap();
    assert_eq!(m as usize, src.len());
    assert_eq!(dec, src);
}

#[test]
fn encode_test_string() {
    let mut enc = Vec::default();
    let n = encode_bytes(b"test", &mut enc).unwrap();
    assert_eq!(n, 16);
    assert_eq!(enc, TEST_ENC);
}

#[test]
fn encoder_test_string() {
    let mut enc = Vec::default();
    let mut encoder = LzfseEncoder::default();
    encoder.encode_bytes(b"test", &mut enc).unwrap();
    assert_eq!(enc, TEST_ENC);
}

#[test]
fn ring_encoder_test_string() {
    let mut enc = Vec::default();
    let mut encoder = LzfseRingEncoder::default();
    encoder.encode_bytes(b"test", &mut enc).unwrap();
    assert_eq!(enc, TEST_ENC);
}

#[test]
fn writer_bytes_test_string() {
    let mut encoder = LzfseRingEncoder::default();
    let mut writer = encoder.writer_bytes(Vec::default());
    assert_eq!(writer.write(b"te"), 2);
    assert_eq!(writer.write(b"st"), 2);
    let enc = writer.finalize();
    assert_eq!(enc, TEST_ENC);
}

#[test]
fn decode_test_string() {
    let mut dec = Vec::default();
    let n = decode_bytes(&TEST_ENC, &mut dec).unwrap();
    assert_eq!(n, 4);
    assert_eq!(dec, b"test");
}

#[test]
fn decoder_appends() {
    let mut dec = b"pre".to_vec();
    let mut decoder = LzfseDecoder::default();
    decoder.decode_bytes(&TEST_ENC, &mut dec).unwrap();
    assert_eq!(dec, b"pretest");
}

#[test]
fn encode_empty() {
    let mut enc = Vec::default();
    encode_bytes(&[], &mut enc).unwrap();
    assert_eq!(enc, [0x62, 0x76, 0x78, 0x2d, 0, 0, 0, 0, 0x62, 0x76, 0x78, 0x24]);
    round_trip(&[]);
}

#[test]
fn round_trip_cutoff() {
    for n in 0..64 {
        round_trip(&text(n));
        round_trip(&noise(n, n as u32));
    }
}

#[test]
fn round_trip_text() {
    round_trip(&text(5000));
    round_trip(&text(300_000));
}

#[test]
fn round_trip_past_window() {
    round_trip(&text(1_300_000));
    round_trip(&noise(600_000, 11));
    round_trip(&vec![0u8; 1_100_000]);
}

#[test]
fn writer_streams_blocks_past_window() {
    let src = text(1_200_000);
    let mut encoder = LzfseRingEncoder::default();
    let mut writer = encoder.writer_bytes(Vec::new());
    for chunk in src.chunks(70_001) {
        assert_eq!(writer.write(chunk), chunk.len());
    }
    let enc = writer.finalize();
    let mut direct = Vec::new();
    encode_bytes(&src, &mut direct).unwrap();
    assert_eq!(enc, direct);
    let mut dec = Vec::new();
    assert_eq!(decode_bytes(&enc, &mut dec), Ok(src.len() as u64));
    assert_eq!(dec, src);
}

#[test]
fn round_trip_zeros() {
    round_trip(&vec![0u8; 100_000]);
}

#[test]
fn round_trip_noise() {
    round_trip(&noise(70_000, 7));
}

#[test]
fn noise_falls_back_to_raw() {
    let src = noise(1000, 3);
    let mut enc = Vec::new();
    encode_bytes(&src, &mut enc).unwrap();
    assert_eq!(enc.len(), src.len() + 12);
    assert_eq!(&enc[..4], &[0x62, 0x76, 0x78, 0x2d]);
}

#[test]
fn text_is_compressed() {
    let src = text(50_000);
    let mut enc = Vec::new();
    encode_bytes(&src, &mut enc).unwrap();
    assert!(enc.len() < src.len() / 4);
    assert_eq!(&enc[..4], &[0x62, 0x76, 0x78, 0x32]);
}

#[test]
fn zeros_are_compressed() {
    let src = vec![0u8; 100_000];
    let mut enc = Vec::new();
    encode_bytes(&src, &mut enc).unwrap();
    assert_eq!(&enc[..4], &[0x62, 0x76, 0x78, 0x32]);
    assert!(enc.len() < src.len() / 20);
    let mut dec = Vec::new();
    assert_eq!(decode_bytes(&enc, &mut dec), Ok(src.len() as u64));
    assert_eq!(dec, src);
}

#[test]
fn decode_empty_input() {
    let mut dec = Vec::new();
    assert_eq!(decode_bytes(&[], &mut dec), Err(Error::PayloadUnderflow));
}

#[test]
fn decode_bad_magic() {
    let mut dec = Vec::new();
    assert_eq!(decode_bytes(&[1, 2, 3, 4], &mut dec), Err(Error::BadBlock(0x0403_0201)));
}

#[test]
fn decode_lzvn_refused() {
    let mut dec = Vec::new();
    let src = [0x62, 0x76, 0x78, 0x6e, 0, 0, 0, 0, 0, 0, 0, 0];
    assert_eq!(decode_bytes(&src, &mut dec), Err(Error::BadBlock(0x6E78_7662)));
}

#[test]
fn decode_trailing_bytes() {
    let mut dec = Vec::new();
    let mut src = TEST_ENC.to_vec();
    src.push(0);
    assert_eq!(decode_bytes(&src, &mut dec), Err(Error::PayloadOverflow));
}

#[test]
fn decode_truncated_raw() {
    let mut dec = Vec::new();
    assert_eq!(decode_bytes(&TEST_ENC[..10], &mut dec), Err(Error::PayloadUnderflow));
}

#[test]
fn probe_test_string() {
    assert_eq!(probe(&TEST_ENC), Ok(4));
    assert_eq!(probe(&TEST_ENC[..3]), Err(Error::PayloadUnderflow));
}

#[test]
fn max_src_len() {
    assert_eq!(MAX_SRC_LEN, 0x7FFF_FFFF);
}

#[test]
fn decoder_appends_fse_stream() {
    let src = text(20_000);
    let mut enc = b"head".to_vec();
    encode_bytes(&src, &mut enc).unwrap();
    assert_eq!(&enc[..4], b"head");
    assert_eq!(&enc[4..8], &[0x62, 0x76, 0x78, 0x32]);
    let mut dec = b"pre".to_vec();
    let n = decode_bytes(&enc[4..], &mut dec).unwrap();
    assert_eq!(n as usize, src.len());
    assert_eq!(&dec[..3], b"pre");
    assert_eq!(&dec[3..], &src[..]);
}

#[test]
fn decode_small_cases() {
    let mut decoder = LzfseDecoder::default();
    let mut dst = b"keep".to_vec();
    assert_eq!(decoder.decode_bytes(&[0x62, 0x76, 0x78], &mut dst), Err(Error::PayloadUnderflow));
    assert_eq!(decoder.decode_bytes(&[0, 0, 0, 0], &mut dst), Err(Error::BadBlock(0)));
    assert_eq!(decoder.decode_bytes(&[0x62, 0x76, 0x78, 0x24, 0x00], &mut dst), Err(Error::PayloadOverflow));
    assert_eq!(decoder.decode_bytes(&[0x62, 0x76, 0x78, 0x24], &mut dst), Ok(0));
    assert_eq!(dst, b"keep");
}

#[test]
fn decode_stream_with_trailing_bytes() {
    let src = text(10_000);
    let mut enc = Vec::new();
    encode_bytes(&src, &mut enc).unwrap();
    enc.push(0);
    let mut dec = Vec::new();
    assert_eq!(decode_bytes(&enc, &mut dec), Err(Error::PayloadOverflow));
    assert_eq!(dec, src);
}

#[test]
fn probe_trailing_bytes() {
    let src = text(10_000);
    let mut enc = Vec::new();
    encode_bytes(&src, &mut enc).unwrap();
    assert_eq!(probe(&enc), Ok(src.len() as u64));
    enc.push(0);
    assert_eq!(probe(&enc), Err(Error::PayloadOverflow));
    assert_eq!(probe(&[0x62, 0x76, 0x78, 0x24]), Ok(0));
    assert_eq!(probe(&[0x62, 0x76, 0x78]), Err(Error::PayloadUnderflow));
}

#[test]
fn decode_mixed_stream() {
    let src = text(5000);
    let mut enc = vec![0x62, 0x76, 0x78, 0x2d, 0x04, 0x00, 0x00, 0x00, 0x74, 0x65, 0x73, 0x74];
    encode_bytes(&src, &mut enc).unwrap();
    let mut dec = Vec::new();
    let n = decode_bytes(&enc, &mut dec).unwrap();
    assert_eq!(n as usize, src.len() + 4);
    assert_eq!(&dec[..4], b"test");
    assert_eq!(&dec[4..], &src[..]);
}
