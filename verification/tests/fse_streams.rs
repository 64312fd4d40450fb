use lib::bits::bit_reader::BitReader;
use lib::bits::bit_writer::BitWriter;
use lib::bits::byte_bits::ByteBits;
use lib::fse::constants::{U_START, U_STATES};
use lib::fse::decoder::Decoder;
use lib::fse::encoder::{build_e_table, EEntry, Encoder};
use lib::fse::literals::Literals;
use lib::fse::lmds::Lmds;
use lib::fse::normalize::normalize_m1;
use lib::fse::weights::Weights;
use lib::lmd::LmdPack;

/// Low level FSE round trip over the literal alphabet.
struct Buddy {
    weights: [u16; 256],
    bytes: Vec<u8>,
    enc: Vec<u8>,
    dec: Vec<u8>,
    state: u32,
    off: usize,
}

impl Buddy {
    fn new() -> Self {
        Buddy { weights: [0; 256], bytes: Vec::new(), enc: Vec::new(), dec: Vec::new(), state: 0, off: 0 }
    }

    fn push(&mut self, byte: u8) {
        self.bytes.push(byte);
        self.weights[byte as usize] += 1;
    }

    fn encode(&mut self) {
        normalize_m1(&mut self.weights, self.bytes.len() as u32, U_STATES);
        let mut table = vec![EEntry::default(); 256];
        build_e_table(&self.weights, U_STATES, &mut table);
        self.enc.clear();
        self.enc.resize(8, 0);
        let mut wtr = BitWriter::new(&self.enc);
        let mut state = U_STATES;
        for b in self.bytes.iter().rev() {
            table[*b as usize].encode(&mut wtr, &mut state);
            wtr.flush(&mut self.enc);
        }
        self.off = wtr.finalize(&mut self.enc);
        self.state = state - U_STATES;
    }

    fn decode(&mut self) -> bool {
        let mut weights = Weights::default();
        for i in 0..256 {
            weights.set_weight(U_START + i, self.weights[i]);
        }
        let mut decoder = Decoder::default();
        decoder.init(&weights);
        self.dec.clear();
        let mut rdr = BitReader::new(ByteBits::new(&self.enc), self.off).unwrap();
        let mut state = self.state;
        for _ in 0..self.bytes.len() {
            rdr.flush();
            let b = decoder.u(&mut rdr, &mut state);
            self.dec.push(b);
        }
        rdr.finalize().unwrap();
        state == 0
    }

    fn check(&self) -> bool {
        self.bytes == self.dec
    }

    fn check_encode_decode(&mut self, bytes: &[u8]) -> bool {
        self.reset();
        bytes.iter().for_each(|&u| self.push(u));
        self.encode();
        self.decode() && self.check()
    }

    fn reset(&mut self) {
        self.weights = [0; 256];
        self.bytes.clear();
        self.off = 0;
        self.state = 0;
    }
}

#[test]
fn test_fse_empty() {
    let mut buddy = Buddy::new();
    assert!(buddy.check_encode_decode(&[]));
}

#[test]
fn quote() {
    let bytes = b"Full fathom five thy father lies; \
    Of his bones are coral made; \
    Those are pearls that were his eyes: \
    Nothing of him that doth fade; \
    But doth suffer a sea-change; \
    Into something rich and strange."; // William Shakespeare. The Tempest.
    let mut buddy = Buddy::new();
    assert!(buddy.check_encode_decode(bytes));
}

#[test]
fn flat() {
    let mut buddy = Buddy::new();
    for n in 0..0x10 {
        buddy.reset();
        for i in 0..0xFF {
            for _ in 0..n {
                buddy.push(i);
            }
        }
        buddy.encode();
        assert!(buddy.decode());
        assert!(buddy.check());
    }
}

fn literals_round_trip(literals: &[u8]) -> bool {
    let mut src = Literals::default();
    src.push(literals);
    let mut weights = Weights::default();
    let u = weights.load(&[], src.as_slice());
    src.pad_u(u);
    let mut encoder = Encoder::default();
    encoder.init(&weights);
    let mut enc = vec![0u8; 8];
    let param = src.store(&mut enc, &encoder);
    assert_eq!(enc.len(), 8 + param.n_payload_bytes() as usize);
    let mut decoder = Decoder::default();
    decoder.init(&weights);
    let mut dst = Literals::default();
    dst.load(&enc, &decoder, &param).unwrap();
    let n = literals.len();
    src.as_slice()[..n] == dst.as_slice()[..n]
}

#[test]
fn literals_empty() {
    assert!(literals_round_trip(&[]));
}

#[test]
fn literals_text() {
    assert!(literals_round_trip(b"Those are pearls that were his eyes."));
}

#[test]
fn literals_all_bytes() {
    let bytes: Vec<u8> = (0..4000u32).map(|i| (i * 7 % 251) as u8).collect();
    assert!(literals_round_trip(&bytes));
}

fn lmds_round_trip(lmds: &[LmdPack]) -> bool {
    let mut src = Lmds::default();
    for &l in lmds {
        src.push(l);
    }
    let mut weights = Weights::default();
    weights.load(src.as_slice(), &[]);
    let mut encoder = Encoder::default();
    encoder.init(&weights);
    let mut enc = Vec::new();
    let param = src.store(&mut enc, &encoder);
    assert_eq!(enc.len(), param.n_payload_bytes() as usize);
    let mut decoder = Decoder::default();
    decoder.init(&weights);
    let mut dst = Lmds::default();
    dst.load(&enc, &decoder, &param).unwrap();
    src.as_slice() == dst.as_slice()
}

#[test]
fn lmds_empty() {
    assert!(lmds_round_trip(&[]));
}

#[test]
fn lmds_mixed() {
    let lmds = [
        LmdPack::new(0, 4, 1),
        LmdPack::new(315, 2359, 262139),
        LmdPack::new(17, 0, 0),
        LmdPack::new(3, 100, 4096),
    ];
    assert!(lmds_round_trip(&lmds));
}
