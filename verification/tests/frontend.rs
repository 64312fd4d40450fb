use lib::encode::frontend::{FrontendRing, RING_MAX_MATCH_LEN, RING_SIZE};
use lib::encode::match_object::Match;
use lib::fse::backend::FseBackend;
use lib::lmd::LmdPack;

// The front end here matches in units of four bytes, so the shortest run of zero bytes that
// holds a match is five long: the match at index 1 reaches one byte back.
#[test]
fn match_short_zero_4() {
    let mut frontend = FrontendRing::new();
    let mut backend = FseBackend::default();
    let mut dst = Vec::new();
    frontend.write(&mut backend, &[0u8; 5], &mut dst);
    frontend.match_short(&mut backend, &mut dst);
    assert!(backend.buffered_lmds().is_empty());
    assert!(backend.buffered_literals().is_empty());
    let pending = frontend.pending();
    assert_eq!(pending, Match { idx: 1, match_idx: 0, match_len: 4 });
    backend.push_match(&mut dst, &[0u8], pending.match_len, (pending.idx - pending.match_idx) as u32);
    assert_eq!(backend.buffered_literals(), &[0u8]);
    assert_eq!(backend.buffered_lmds(), &[LmdPack::new(1, 4, 1)]);
    assert!(dst.is_empty());
}

#[test]
fn match_short_zero_3_finds_nothing() {
    let mut frontend = FrontendRing::new();
    let mut backend = FseBackend::default();
    let mut dst = Vec::new();
    frontend.write(&mut backend, &[0u8; 4], &mut dst);
    frontend.match_short(&mut backend, &mut dst);
    assert_eq!(frontend.pending(), Match::default());
    assert!(backend.buffered_lmds().is_empty());
}

// Once the window fills, the block after its middle is scanned with matches capped at
// `RING_MAX_MATCH_LEN`: a window of zero bytes gives one literal and two capped matches at
// distance one, and no block is emitted yet.
#[test]
fn match_long_caps_matches() {
    let mut frontend = FrontendRing::new();
    let mut backend = FseBackend::default();
    let mut dst = Vec::new();
    let src = vec![0u8; RING_SIZE];
    assert_eq!(frontend.write(&mut backend, &src, &mut dst), RING_SIZE);
    assert!(dst.is_empty());
    assert_eq!(backend.buffered_literals(), &[0u8]);
    let full = RING_MAX_MATCH_LEN as u32 / 2359;
    let rest = RING_MAX_MATCH_LEN as u32 % 2359;
    let mut lmds = vec![LmdPack::new(1, 2359, 1)];
    for _ in 1..full {
        lmds.push(LmdPack::new(0, 2359, 0));
    }
    lmds.push(LmdPack::new(0, rest as u16, 0));
    for _ in 0..full {
        lmds.push(LmdPack::new(0, 2359, 0));
    }
    lmds.push(LmdPack::new(0, rest as u16, 0));
    assert_eq!(backend.buffered_lmds(), &lmds[..]);
    assert_eq!(frontend.pending(), Match::default());
}

// Below a full window nothing is scanned while input is taken in.
#[test]
fn write_below_window_scans_nothing() {
    let mut frontend = FrontendRing::new();
    let mut backend = FseBackend::default();
    let mut dst = Vec::new();
    let src = vec![0u8; RING_SIZE - 1];
    assert_eq!(frontend.write(&mut backend, &src, &mut dst), RING_SIZE - 1);
    assert!(dst.is_empty());
    assert!(backend.buffered_literals().is_empty());
    assert!(backend.buffered_lmds().is_empty());
}

// Input taken in at once or in pieces reaches the same blocks and the same matches.
#[test]
fn write_in_pieces_matches_write_at_once() {
    let src: Vec<u8> = (0..RING_SIZE + 40_000).map(|i| ((i * 7) % 251) as u8 ^ ((i / 1000) as u8)).collect();
    let mut a = FrontendRing::new();
    let mut ba = FseBackend::default();
    let mut da = Vec::new();
    a.write(&mut ba, &src, &mut da);
    let mut b = FrontendRing::new();
    let mut bb = FseBackend::default();
    let mut db = Vec::new();
    for piece in src.chunks(12_345) {
        b.write(&mut bb, piece, &mut db);
    }
    assert_eq!(da, db);
    assert_eq!(ba.buffered_literals(), bb.buffered_literals());
    assert_eq!(ba.buffered_lmds(), bb.buffered_lmds());
    assert_eq!(a.pending(), b.pending());
    assert!(!ba.buffered_lmds().is_empty());
}
