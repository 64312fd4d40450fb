use lib::fse::constants::{
    D_START, D_STATES, L_START, L_STATES, M_START, M_STATES, U_START, U_STATES,
    V1_WEIGHT_PAYLOAD_BYTES, V2_WEIGHT_PAYLOAD_BYTES_MAX,
};
use lib::fse::normalize::{normalize_m1, normalize_m1_trim};
use lib::fse::weight_encoder::{decode_weight, encode_weight};
use lib::fse::weights::{total_weights, Weights};

#[test]
fn encode_decode_all() {
    for value in 0..1048u64 {
        let (u, u_bits) = encode_weight(value);
        let (v, v_bits) = decode_weight(u);
        assert_eq!(v, value);
        assert_eq!(u_bits, v_bits);
    }
}

fn v1_overflow(start: usize, states: u32) {
    let mut weights = Weights::default();
    weights.set_weight(start, states as u16);
    weights.set_weight(start + 1, 1);
    let mut bs = [0u8; V1_WEIGHT_PAYLOAD_BYTES as usize];
    weights.store_v1(bs.as_mut());
    assert!(weights.load_v1(bs.as_ref()).is_err());
}

fn v2_overflow(start: usize, states: u32) {
    let mut weights = Weights::default();
    weights.set_weight(start, states as u16);
    weights.set_weight(start + 1, 1);
    let mut bs = [0u8; V2_WEIGHT_PAYLOAD_BYTES_MAX as usize];
    let n = weights.store_v2(bs.as_mut());
    assert!(weights.load_v2(&bs[..n as usize]).is_err());
}

#[test]
fn v1_l_overflow() {
    v1_overflow(L_START, L_STATES);
}

#[test]
fn v1_m_overflow() {
    v1_overflow(M_START, M_STATES);
}

#[test]
fn v1_d_overflow() {
    v1_overflow(D_START, D_STATES);
}

#[test]
fn v1_u_overflow() {
    v1_overflow(U_START, U_STATES);
}

#[test]
fn v2_l_overflow() {
    v2_overflow(L_START, L_STATES);
}

#[test]
fn v2_m_overflow() {
    v2_overflow(M_START, M_STATES);
}

#[test]
fn v2_d_overflow() {
    v2_overflow(D_START, D_STATES);
}

#[test]
fn v2_u_overflow() {
    v2_overflow(U_START, U_STATES);
}

fn normalize_check(mut weights: [u16; 12]) {
    for &out_total in &[64u32, 256, 1024] {
        while weights[0] != 0 {
            let mut copy = weights;
            let in_total = total_weights(&copy);
            normalize_m1(&mut copy, in_total, out_total);
            assert_eq!(total_weights(&copy), out_total);
            for (&w, &c) in weights.iter().zip(copy.iter()) {
                if w != 0 {
                    assert!(c != 0);
                }
            }
            for w in weights.iter_mut() {
                if *w != 0 {
                    *w -= 1;
                }
            }
        }
    }
}

fn trim_check(mut weights: [u16; 12]) {
    for &out_total in &[64u32, 256, 1024] {
        loop {
            let mut copy = weights;
            let in_total = total_weights(&copy);
            if in_total < out_total {
                break;
            }
            let overflow = in_total - out_total;
            normalize_m1_trim(&mut copy, overflow);
            assert_eq!(total_weights(&copy), out_total);
            for (&w, &c) in weights.iter().zip(copy.iter()) {
                if w != 0 {
                    assert!(c != 0);
                }
            }
            for w in weights.iter_mut() {
                if *w != 0 {
                    *w -= 1;
                }
            }
        }
    }
}

#[test]
fn normalize_0() {
    normalize_check([2048, 1024, 512, 256, 128, 64, 32, 16, 8, 4, 2, 1]);
}

#[test]
fn normalize_1() {
    normalize_check([512, 511, 510, 509, 508, 507, 506, 505, 504, 502, 501, 500]);
}

#[test]
fn normalize_2() {
    normalize_check([65535, 0, 0, 0, 0, 0, 0, 0, 0, 0, 0, 0]);
}

#[test]
fn normalize_3() {
    normalize_check([1024; 12]);
}

#[test]
fn normalize_floor() {
    let mut weights = [65535u16, 1, 0, 0, 0, 0, 0, 0, 0, 0, 0, 0];
    for &out_total in &[64u32, 256, 1024] {
        while weights[0] != 0 {
            let mut copy = weights;
            let in_total = total_weights(&copy);
            normalize_m1(&mut copy, in_total, out_total);
            assert_eq!(total_weights(&copy), out_total);
            for (&w, &c) in weights.iter().zip(copy.iter()) {
                if w != 0 {
                    assert!(c != 0);
                }
            }
            if weights[0] != 0 {
                weights[0] -= 1;
            }
        }
    }
}

#[test]
fn trim_0() {
    trim_check([2048, 1024, 512, 256, 128, 64, 32, 16, 8, 4, 2, 1]);
}

#[test]
fn trim_1() {
    trim_check([512, 511, 510, 509, 508, 507, 506, 505, 504, 502, 501, 500]);
}

#[test]
fn trim_2() {
    trim_check([65535, 0, 0, 0, 0, 0, 0, 0, 0, 0, 0, 0]);
}

#[test]
fn trim_3() {
    trim_check([1024; 12]);
}

#[test]
fn v1_store_load_weights() {
    let mut weights = Weights::default();
    weights.set_weight(L_START, 60);
    weights.set_weight(L_START + 3, 4);
    weights.set_weight(U_START + 7, 1000);
    weights.set_weight(U_START + 200, 24);
    let mut bs = [0u8; V1_WEIGHT_PAYLOAD_BYTES as usize];
    weights.store_v1(bs.as_mut());
    let mut other = Weights::default();
    assert!(other.load_v1(bs.as_ref()).is_ok());
    assert_eq!(other.us()[7], 1000);
    assert_eq!(other.us()[200], 24);
    assert_eq!(other.ls()[3], 4);
}

#[test]
fn v2_store_load_weights() {
    let mut weights = Weights::default();
    weights.set_weight(M_START + 1, 63);
    weights.set_weight(M_START + 2, 1);
    weights.set_weight(D_START + 10, 256);
    weights.set_weight(U_START + 255, 1024);
    let mut bs = [0u8; V2_WEIGHT_PAYLOAD_BYTES_MAX as usize];
    let n = weights.store_v2(bs.as_mut());
    let mut other = Weights::default();
    assert!(other.load_v2(&bs[..n as usize]).is_ok());
    assert_eq!(other.ms()[1], 63);
    assert_eq!(other.ds()[10], 256);
    assert_eq!(other.us()[255], 1024);
}

#[test]
fn weight_code_widths() {
    assert_eq!(encode_weight(0), (0, 2));
    assert_eq!(encode_weight(7), (27, 5));
    assert_eq!(encode_weight(8), (7, 8));
    assert_eq!(encode_weight(24), (15, 14));
    assert_eq!(decode_weight(0xFFFF_FFF5), (3, 3));
}

#[test]
fn normalize_scales_exactly() {
    let mut w = [3u16, 1];
    assert_eq!(normalize_m1(&mut w, 4, 64), 0);
    assert_eq!(w, [48, 16]);
}

#[test]
fn normalize_trims_overflow() {
    let mut w = [1u16; 12];
    w[0] = 100;
    assert_eq!(normalize_m1(&mut w, 111, 16), 0);
    assert_eq!(w, [5, 1, 1, 1, 1, 1, 1, 1, 1, 1, 1, 1]);
}
