use ml_kem::cbd::{ cbd2, cbd_eta1, load32_littleendian };
use ml_kem::hash::{ cmov, hash_g, hash_h, kdf, randombytes, verify };
use ml_kem::indcpa::{
    gen_matrix, indcpa_dec, indcpa_enc, indcpa_keypair, indcpa_keypair_derand, pack_ciphertext,
    pack_pk, pack_sk, rej_uniform, unpack_ciphertext, unpack_pk, unpack_sk,
};
use ml_kem::kem::{
    crypto_kem_dec, crypto_kem_enc, crypto_kem_enc_derand, crypto_kem_keypair,
    crypto_kem_keypair_derand,
};
use ml_kem::ntt::{ basemul, basemul_pair, fqmul, invntt, ntt, ZETAS, ZETAS_INV };
use ml_kem::params::{
    mlkem_768, CIPHERTEXTBYTES, INDCPA_BYTES, INDCPA_MSGBYTES, INDCPA_PUBLICKEYBYTES,
    INDCPA_SECRETKEYBYTES, K, N, POLYBYTES, POLYCOMPRESSEDBYTES, POLYVECBYTES,
    POLYVECCOMPRESSEDBYTES, PUBLICKEYBYTES, Q, SECRETKEYBYTES, SSBYTES, SYMBYTES,
};
use ml_kem::poly::{
    poly_add, poly_basemul_montgomery, poly_compress, poly_csubq, poly_decompress, poly_frombytes,
    poly_frommsg, poly_getnoise_eta1, poly_getnoise_eta2, poly_invntt_tomont, poly_ntt,
    poly_reduce, poly_sub, poly_tobytes, poly_tomont, poly_tomsg, Poly,
};
use ml_kem::polyvec::{
    polyvec_add, polyvec_compress, polyvec_csubq, polyvec_decompress, polyvec_frombytes,
    polyvec_invntt_tomont, polyvec_ntt, polyvec_pointwise_acc_montgomery, polyvec_reduce,
    polyvec_tobytes, PolyVec,
};
use ml_kem::reduce::{ barrett_reduce, csubq, montgomery_reduce, MONT, QINV };
use ml_kem::symmetric::{ prf, xof_absorb, xof_squeezeblocks, XofState, XOF_BLOCKBYTES };

fn seed_a() -> [u8; 32] {
    let mut s = [0u8; 32];
    for i in 0..32 {
        s[i] = i as u8;
    }
    s
}

fn seed_b() -> [u8; 32] {
    let mut s = [0u8; 32];
    for i in 0..32 {
        s[i] = (32 + i) as u8;
    }
    s
}

fn seed_c() -> [u8; 32] {
    let mut s = [0u8; 32];
    for i in 0..32 {
        s[i] = (64 + i) as u8;
    }
    s
}

fn message() -> [u8; 32] {
    let mut s = [0u8; 32];
    for i in 0..32 {
        s[i] = (100 + i) as u8;
    }
    s
}

fn coins() -> [u8; 32] {
    let mut s = [0u8; 32];
    for i in 0..32 {
        s[i] = (i * 7) as u8;
    }
    s
}

fn ramp() -> Poly {
    let mut p = Poly::new();
    for i in 0..256 {
        p.coeffs[i] = ((i * 13 + 5) % 3329) as i16;
    }
    p
}

fn digest(data: &[u8]) -> [u8; 32] {
    let mut out = [0u8; 32];
    hash_h(&mut out, data, data.len());
    out
}

fn modq(x: i64) -> i64 {
    ((x % 3329) + 3329) % 3329
}

#[test]
fn parameter_lengths_follow_from_the_rank() {
    assert_eq!(N, 256);
    assert_eq!(Q, 3329);
    assert_eq!(K, 3);
    assert_eq!(SYMBYTES, 32);
    assert_eq!(SSBYTES, 32);
    assert_eq!(POLYBYTES, 384);
    assert_eq!(POLYVECBYTES, 1152);
    assert_eq!(POLYCOMPRESSEDBYTES, 128);
    assert_eq!(POLYVECCOMPRESSEDBYTES, 960);
    assert_eq!(INDCPA_MSGBYTES, 32);
    assert_eq!(INDCPA_PUBLICKEYBYTES, 1184);
    assert_eq!(INDCPA_SECRETKEYBYTES, 1152);
    assert_eq!(INDCPA_BYTES, 1088);
    assert_eq!(PUBLICKEYBYTES, 1184);
    assert_eq!(SECRETKEYBYTES, 2400);
    assert_eq!(CIPHERTEXTBYTES, 1088);
    let p = mlkem_768();
    assert_eq!(p.polycompressedbytes, 128);
    assert_eq!(p.polyveccompressedbytes, 960);
    assert_eq!(p.indcpa_publickeybytes, 1184);
    assert_eq!(p.indcpa_secretkeybytes, 1152);
    assert_eq!(p.indcpa_bytes, 1088);
    assert_eq!(p.publickeybytes, 1184);
    assert_eq!(p.secretkeybytes, 2400);
    assert_eq!(p.ciphertextbytes, 1088);
    assert_eq!(XOF_BLOCKBYTES, 168);
}

#[test]
fn montgomery_reduce_exact_values() {
    let inputs: [i32; 12] = [0, 1, -1, 3329, 65536, -65536, 1353, 109084671, -109084672, 1073741824, -1073741824, 12345678];
    let expected: [i16; 12] = [0, 169, -169, 0, 1, -1, -1044, 3160, 0, 16384, -16384, -1207];
    for i in 0..inputs.len() {
        let r = montgomery_reduce(inputs[i]);
        assert_eq!(r, expected[i], "input {}", inputs[i]);
        assert_eq!(modq((r as i64) * 65536 - (inputs[i] as i64)), 0);
    }
}

#[test]
fn montgomery_reduce_stays_below_q_on_its_domain() {
    let mut a: i64 = -3329 * 32768;
    while a < 3329 * 32768 {
        let r = montgomery_reduce(a as i32);
        assert!(-3329 < r && r < 3329, "input {}", a);
        assert_eq!(modq((r as i64) * 65536 - a), 0);
        a += 104729;
    }
    let last = montgomery_reduce(3329 * 32768 - 1);
    assert!(-3329 < last && last < 3329);
}

#[test]
fn montgomery_constants_are_inverse_to_each_other() {
    assert_eq!(MONT, 2285);
    assert_eq!(QINV, 62209);
    assert_eq!((65536i64 % 3329) as i32, MONT);
    assert_eq!(((QINV as i64) * 3329) % 65536, 1);
    assert_eq!((169i64 * 65536) % 3329, 1);
}

#[test]
fn barrett_reduce_gives_the_residue_for_every_input() {
    let mut a: i32 = -32768;
    while a <= 32767 {
        let r = barrett_reduce(a as i16);
        assert_eq!(r as i32, a.rem_euclid(3329), "input {}", a);
        a += 1;
    }
}

#[test]
fn barrett_reduce_edge_values() {
    assert_eq!(barrett_reduce(5000), 1671);
    assert_eq!(barrett_reduce(0), 0);
    assert_eq!(barrett_reduce(3328), 3328);
    assert_eq!(barrett_reduce(3329), 0);
    assert_eq!(barrett_reduce(-1), 3328);
    assert_eq!(barrett_reduce(-3329), 0);
    assert_eq!(barrett_reduce(-6658), 0);
    assert_eq!(barrett_reduce(32767), 2806);
    assert_eq!(barrett_reduce(-32768), 522);
}

#[test]
fn csubq_subtracts_q_once() {
    assert_eq!(csubq(4000), 671);
    assert_eq!(csubq(3329), 0);
    assert_eq!(csubq(3328), 3328);
    assert_eq!(csubq(0), 0);
    assert_eq!(csubq(6658), 3329);
    assert_eq!(csubq(-5), -5);
    assert_eq!(csubq(32767), 29438);
    assert_eq!(csubq(-32768), -32768);
    let mut a: i32 = -32768;
    while a <= 32767 {
        let expected = if a >= 3329 { a - 3329 } else { a };
        assert_eq!(csubq(a as i16) as i32, expected);
        a += 1;
    }
}

#[test]
fn fqmul_exact_values() {
    let inputs: [(i16, i16); 9] = [(2285, 1000), (2285, -1000), (1, 1), (-32768, -32768), (32767, 32767), (-32768, 32767), (3328, 3328), (1441, 2000), (0, 12345)];
    let expected: [i16; 9] = [1000, -1000, 169, 16384, 16552, -14719, 169, -1332, 0];
    for i in 0..inputs.len() {
        let (a, b) = inputs[i];
        let r = fqmul(a, b);
        assert_eq!(r, expected[i], "inputs {} {}", a, b);
        assert_eq!(modq((r as i64) * 65536 - (a as i64) * (b as i64)), 0);
    }
}

#[test]
fn twiddle_tables_are_paired() {
    assert_eq!(ZETAS.len(), 128);
    assert_eq!(ZETAS_INV.len(), 128);
    assert_eq!(ZETAS[0], 2285);
    assert_eq!(ZETAS[1], 2571);
    assert_eq!(ZETAS[127], 1628);
    assert_eq!(ZETAS_INV[0], 1701);
    assert_eq!(ZETAS_INV[127], 1441);
    let mut nb: usize = 1;
    while nb <= 64 {
        for blk in 0..nb {
            let z = ZETAS[nb + blk] as i64;
            let zi = ZETAS_INV[128 - 2 * nb + blk] as i64;
            assert_eq!(modq(28561 * z * zi), 1, "layer of {} blocks, block {}", nb, blk);
        }
        nb *= 2;
    }
}

#[test]
fn ntt_exact_values() {
    let mut p = ramp();
    ntt(&mut p.coeffs);
    let first: [i16; 8] = [-2962, -4212, -2612, -4460, -1603, -1562, -1511, -2562];
    let last: [i16; 8] = [3835, 4912, 2987, 2972, 725, 2599, -39, 1237];
    assert_eq!(&p.coeffs[..8], &first[..]);
    assert_eq!(&p.coeffs[248..], &last[..]);
    invntt(&mut p.coeffs);
    let back_first: [i16; 8] = [1438, 1182, 926, 670, 414, 158, -98, -354];
    let back_last: [i16; 8] = [1201, 945, 689, 433, 177, -79, -335, -591];
    assert_eq!(&p.coeffs[..8], &back_first[..]);
    assert_eq!(&p.coeffs[248..], &back_last[..]);
}

#[test]
fn inverse_transform_undoes_forward_transform_up_to_the_montgomery_factor() {
    let seeds: [usize; 4] = [1, 17, 256, 3001];
    for s in seeds {
        let mut p = Poly::new();
        for i in 0..256 {
            p.coeffs[i] = ((i * s + 7 * s) % 3329) as i16;
        }
        let before = p;
        ntt(&mut p.coeffs);
        invntt(&mut p.coeffs);
        for i in 0..256 {
            assert!(-3329 < p.coeffs[i] && p.coeffs[i] < 3329);
            assert_eq!(
                modq(p.coeffs[i] as i64),
                modq((before.coeffs[i] as i64) * 2285),
                "coefficient {}",
                i
            );
        }
    }
    let mut edge = Poly::new();
    for i in 0..256 {
        edge.coeffs[i] = if i % 2 == 0 { 3329 } else { -3329 };
    }
    ntt(&mut edge.coeffs);
    invntt(&mut edge.coeffs);
    for i in 0..256 {
        assert_eq!(modq(edge.coeffs[i] as i64), 0);
    }
}

#[test]
fn round_trip_can_fail_on_coefficients_far_above_q() {
    let mut p = Poly::new();
    p.coeffs[0] = 32767;
    ntt(&mut p.coeffs);
    invntt(&mut p.coeffs);
    let mut all_congruent = true;
    for i in 0..256 {
        let expected = if i == 0 { modq(32767 * 2285) } else { 0 };
        if modq(p.coeffs[i] as i64) != expected {
            all_congruent = false;
        }
    }
    assert!(!all_congruent);
}

#[test]
fn basemul_exact_values() {
    let inputs: [(i16, i16, i16, i16, i16); 4] = [(100, 200, 50, 150, 2226), (3328, 3328, 3328, 3328, -2226), (-1000, 2000, 1500, -500, 430), (32767, 32767, 32767, 32767, 3328)];
    let expected: [(i16, i16); 4] = [(-1705, 499), (625, 338), (-1273, -49), (18953, -32432)];
    for i in 0..inputs.len() {
        let (a0, a1, b0, b1, zeta) = inputs[i];
        assert_eq!(basemul_pair(a0, a1, b0, b1, zeta), expected[i]);
        let mut r = [7i16; 3];
        basemul(&mut r, &[a0, a1], &[b0, b1], zeta);
        assert_eq!(r, [expected[i].0, expected[i].1, 7]);
    }
}

#[test]
fn product_through_the_transform_is_the_product_of_the_ring() {
    let mut a = Poly::new();
    let mut b = Poly::new();
    a.coeffs[0] = 1;
    a.coeffs[1] = 2;
    b.coeffs[0] = 3;
    b.coeffs[1] = 4;
    poly_ntt(&mut a);
    poly_ntt(&mut b);
    let mut r = Poly::new();
    poly_basemul_montgomery(&mut r, &a, &b);
    poly_invntt_tomont(&mut r);
    poly_reduce(&mut r);
    assert_eq!(&r.coeffs[..4], &[3i16, 10, 8, 0]);
    for i in 4..256 {
        assert_eq!(r.coeffs[i], 0);
    }

    // X^255 times X is -1 in the ring.
    let mut c = Poly::new();
    let mut d = Poly::new();
    c.coeffs[255] = 1;
    d.coeffs[1] = 1;
    poly_ntt(&mut c);
    poly_ntt(&mut d);
    poly_basemul_montgomery(&mut r, &c, &d);
    poly_invntt_tomont(&mut r);
    poly_reduce(&mut r);
    assert_eq!(r.coeffs[0], 3328);
    for i in 1..256 {
        assert_eq!(r.coeffs[i], 0);
    }
}

#[test]
fn load32_is_little_endian() {
    assert_eq!(load32_littleendian(&[0x78, 0x56, 0x34, 0x12]), 0x12345678);
    assert_eq!(load32_littleendian(&[0, 0, 0, 0]), 0);
    assert_eq!(load32_littleendian(&[255, 255, 255, 255]), 0xffff_ffff);
    assert_eq!(load32_littleendian(&[1, 0, 0, 0]), 1);
    assert_eq!(load32_littleendian(&[0, 0, 0, 1]), 0x0100_0000);
}

#[test]
fn cbd2_exact_values() {
    let mut buf = [0u8; 128];
    for i in 0..128 {
        buf[i] = i as u8;
    }
    let mut p = Poly::new();
    cbd2(&mut p, &buf);
    let first: [i16; 32] = [0, 0, 1, 0, 1, 0, 2, 0, -1, 0, 0, 0, 0, 0, 1, 0, -1, 0, 0, 0, 0, 0, 1, 0, -2, 0, -1, 0, -1, 0, 0, 0];
    let last: [i16; 8] = [-2, 1, -1, 1, -1, 1, 0, 1];
    assert_eq!(&p.coeffs[..32], &first[..]);
    assert_eq!(&p.coeffs[248..], &last[..]);
    let mut q = Poly::new();
    cbd_eta1(&mut q, &buf);
    assert_eq!(p.coeffs, q.coeffs);
}

#[test]
fn cbd2_counts_bits_of_each_half_byte() {
    // Half byte h gives (bit 0 + bit 1) - (bit 2 + bit 3).
    let expected: [i16; 16] = [0, 1, 1, 2, -1, 0, 0, 1, -1, 0, 0, 1, -2, -1, -1, 0];
    for h in 0..16u8 {
        let buf = [h | ((15 - h) << 4); 128];
        let mut p = Poly::new();
        cbd2(&mut p, &buf);
        for k in 0..128 {
            assert_eq!(p.coeffs[2 * k], expected[h as usize]);
            assert_eq!(p.coeffs[2 * k + 1], expected[(15 - h) as usize]);
        }
    }
    let mut p = Poly::new();
    cbd2(&mut p, &[0xffu8; 200]);
    for i in 0..256 {
        assert_eq!(p.coeffs[i], 0);
    }
}

#[test]
fn poly_add_and_sub_wrap_to_sixteen_bits() {
    let mut a = Poly::new();
    let mut b = Poly::new();
    a.coeffs[0] = 100;
    b.coeffs[0] = 50;
    a.coeffs[1] = 32767;
    b.coeffs[1] = 1;
    a.coeffs[2] = -32768;
    b.coeffs[2] = 1;
    a.coeffs[255] = -7;
    b.coeffs[255] = 9;
    let mut r = Poly::new();
    poly_add(&mut r, &a, &b);
    assert_eq!(r.coeffs[0], 150);
    assert_eq!(r.coeffs[1], -32768);
    assert_eq!(r.coeffs[2], -32767);
    assert_eq!(r.coeffs[255], 2);
    poly_sub(&mut r, &a, &b);
    assert_eq!(r.coeffs[0], 50);
    assert_eq!(r.coeffs[1], 32766);
    assert_eq!(r.coeffs[2], 32767);
    assert_eq!(r.coeffs[255], -16);
    assert_eq!(r.coeffs[100], 0);
}

#[test]
fn poly_reduce_and_csubq_exact_values() {
    let mut p = Poly::new();
    p.coeffs[0] = -1;
    p.coeffs[1] = 3329;
    p.coeffs[2] = 6658;
    p.coeffs[3] = -3329;
    p.coeffs[4] = 5000;
    let mut r = p;
    poly_reduce(&mut r);
    assert_eq!(&r.coeffs[..5], &[3328i16, 0, 0, 0, 1671]);
    let mut c = p;
    poly_csubq(&mut c);
    assert_eq!(&c.coeffs[..5], &[-1i16, 0, 3329, -3329, 1671]);
    assert_eq!(Poly::default().coeffs, [0i16; 256]);
}

#[test]
fn poly_tomont_multiplies_by_the_montgomery_factor() {
    let mut p = ramp();
    let before = p;
    poly_tomont(&mut p);
    for i in 0..256 {
        assert_eq!(modq(p.coeffs[i] as i64), modq((before.coeffs[i] as i64) * 2285));
    }
    let mut one = Poly::new();
    one.coeffs[0] = 1;
    poly_tomont(&mut one);
    assert_eq!(one.coeffs[0], -1044);
}

#[test]
fn poly_tobytes_exact_values() {
    let mut p = Poly::new();
    p.coeffs[0] = 100;
    p.coeffs[1] = 200;
    p.coeffs[2] = 300;
    p.coeffs[3] = 3328;
    p.coeffs[4] = 3329;
    p.coeffs[5] = 4000;
    let mut bytes = [0xaau8; 384];
    poly_tobytes(&mut bytes, &mut p);
    assert_eq!(&bytes[..9], &[100u8, 128, 12, 44, 1, 208, 0, 240, 41]);
    for i in 9..384 {
        assert_eq!(bytes[i], 0);
    }
    // The polynomial is left with q subtracted where it applied.
    assert_eq!(p.coeffs[4], 0);
    assert_eq!(p.coeffs[5], 671);

    let mut r = ramp();
    let mut out = [0u8; 384];
    poly_tobytes(&mut out, &mut r);
    assert_eq!(digest(&out), [0x5e, 0x9c, 0x43, 0xcc, 0x1f, 0xd9, 0xcf, 0x96, 0xfc, 0x39, 0x34, 0xf0, 0xff, 0xb5, 0x48, 0x48, 0x8c, 0x16, 0xa5, 0x68, 0x5d, 0xe1, 0xb9, 0xf5, 0x9d, 0x1e, 0x87, 0x12, 0x18, 0x59, 0xfb, 0x93]);
}

#[test]
fn poly_frombytes_inverts_poly_tobytes() {
    let mut p = ramp();
    let mut bytes = [0u8; 384];
    poly_tobytes(&mut bytes, &mut p);
    let mut back = Poly::new();
    poly_frombytes(&mut back, &bytes);
    assert_eq!(back.coeffs, ramp().coeffs);

    let all = [0xffu8; 384];
    poly_frombytes(&mut back, &all);
    for i in 0..256 {
        assert_eq!(back.coeffs[i], 4095);
    }
    let mut one = [0u8; 384];
    one[1] = 0x10;
    one[2] = 0x01;
    poly_frombytes(&mut back, &one);
    assert_eq!(back.coeffs[0], 0);
    assert_eq!(back.coeffs[1], 17);
}

#[test]
fn poly_compress_exact_values() {
    let mut p = ramp();
    let mut out = [0u8; 128];
    poly_compress(&mut out, &mut p);
    let first: [u8; 16] = [0x00, 0x00, 0x00, 0x00, 0x11, 0x11, 0x11, 0x11, 0x11, 0x11, 0x11, 0x11, 0x22, 0x22, 0x22, 0x22];
    assert_eq!(&out[..16], &first[..]);
    assert_eq!(digest(&out), [0xa9, 0x17, 0x0b, 0x6f, 0xda, 0x25, 0x0b, 0x6d, 0x35, 0x60, 0x9f, 0x1b, 0x6d, 0x1d, 0x8d, 0xac, 0xfc, 0x44, 0xa5, 0xb3, 0x92, 0x53, 0x1a, 0x0d, 0xee, 0x07, 0x5b, 0xf5, 0x12, 0x5e, 0xe4, 0x0e]);
    let mut back = Poly::new();
    poly_decompress(&mut back, &out);
    let coeffs: [i16; 8] = [0, 0, 0, 0, 0, 0, 0, 0];
    assert_eq!(&back.coeffs[..8], &coeffs[..]);
}

#[test]
fn poly_decompress_exact_values() {
    // Half byte y decompresses to round(y q / 16).
    let expected: [i16; 16] =
        [0, 208, 416, 624, 832, 1040, 1248, 1456, 1665, 1873, 2081, 2289, 2497, 2705, 2913, 3121];
    for y in 0..16u8 {
        let bytes = [y | (y << 4); 128];
        let mut p = Poly::new();
        poly_decompress(&mut p, &bytes);
        for i in 0..256 {
            assert_eq!(p.coeffs[i], expected[y as usize]);
        }
    }
}

#[test]
fn compression_to_four_bits_stays_within_half_a_step() {
    let mut x: usize = 0;
    while x < 3329 {
        let mut p = Poly::new();
        for i in 0..256 {
            p.coeffs[i] = ((x + i) % 3329) as i16;
        }
        let before = p;
        let mut bytes = [0u8; 128];
        poly_compress(&mut bytes, &mut p);
        let mut back = Poly::new();
        poly_decompress(&mut back, &bytes);
        let mut again = [0u8; 128];
        let mut copy = back;
        poly_compress(&mut again, &mut copy);
        assert_eq!(bytes, again);
        for i in 0..256 {
            assert!(0 <= back.coeffs[i] && back.coeffs[i] < 3329);
            let dist = modq(back.coeffs[i] as i64 - before.coeffs[i] as i64);
            assert!(dist <= 104 || dist >= 3329 - 104, "residue {}", before.coeffs[i]);
        }
        x += 256;
    }
}

#[test]
fn compression_to_ten_bits_stays_within_half_a_step() {
    let mut x: usize = 0;
    while x < 3329 {
        let mut v = PolyVec::new();
        for k in 0..3 {
            for i in 0..256 {
                v.vec[k].coeffs[i] = ((x + 256 * k + i) % 3329) as i16;
            }
        }
        let before = v.clone();
        let mut bytes = [0u8; 960];
        polyvec_compress(&mut bytes, &mut v);
        let mut back = PolyVec::new();
        polyvec_decompress(&mut back, &bytes);
        for k in 0..3 {
            for i in 0..256 {
                let c = back.vec[k].coeffs[i];
                assert!(0 <= c && c < 3329);
                let dist = modq(c as i64 - before.vec[k].coeffs[i] as i64);
                assert!(dist <= 2 || dist >= 3329 - 2);
            }
        }
        x += 768;
    }
}

#[test]
fn message_bits_become_zero_or_half_q() {
    let mut msg = [0u8; 32];
    msg[0] = 0b0000_0101;
    msg[31] = 0x80;
    let mut p = Poly::new();
    poly_frommsg(&mut p, &msg);
    assert_eq!(&p.coeffs[..8], &[1665i16, 0, 1665, 0, 0, 0, 0, 0]);
    assert_eq!(p.coeffs[255], 1665);
    assert_eq!(p.coeffs[254], 0);
    for i in 8..248 {
        assert_eq!(p.coeffs[i], 0);
    }
}

#[test]
fn message_decoding_rounds_to_the_nearer_of_zero_and_half_q() {
    let mut p = Poly::new();
    let values: [i16; 8] = [0, 832, 833, 1665, 2496, 2497, 3328, 3329 + 833];
    for j in 0..8 {
        p.coeffs[j] = values[j];
    }
    let mut msg = [0xffu8; 32];
    poly_tomsg(&mut msg, &mut p);
    assert_eq!(msg[0], 0b1001_1100);
    for i in 1..32 {
        assert_eq!(msg[i], 0);
    }
}

#[test]
fn message_round_trip_for_every_byte_value() {
    for b in 0..8 {
        let mut msg = [0u8; 32];
        for i in 0..32 {
            msg[i] = (b * 32 + i) as u8;
        }
        let mut p = Poly::new();
        poly_frommsg(&mut p, &msg);
        let mut back = [0u8; 32];
        poly_tomsg(&mut back, &mut p);
        assert_eq!(msg, back);
    }
}

#[test]
fn hash_h_is_sha3_256() {
    let mut out = [0u8; 32];
    hash_h(&mut out, b"abc", 3);
    assert_eq!(out, [0x3a, 0x98, 0x5d, 0xa7, 0x4f, 0xe2, 0x25, 0xb2, 0x04, 0x5c, 0x17, 0x2d, 0x6b, 0xd3, 0x90, 0xbd, 0x85, 0x5f, 0x08, 0x6e, 0x3e, 0x9d, 0x52, 0x5b, 0x46, 0xbf, 0xe2, 0x45, 0x11, 0x43, 0x15, 0x32]);
    hash_h(&mut out, b"abcdef", 3);
    assert_eq!(out, [0x3a, 0x98, 0x5d, 0xa7, 0x4f, 0xe2, 0x25, 0xb2, 0x04, 0x5c, 0x17, 0x2d, 0x6b, 0xd3, 0x90, 0xbd, 0x85, 0x5f, 0x08, 0x6e, 0x3e, 0x9d, 0x52, 0x5b, 0x46, 0xbf, 0xe2, 0x45, 0x11, 0x43, 0x15, 0x32]);
    hash_h(&mut out, b"", 0);
    assert_eq!(out, [0xa7, 0xff, 0xc6, 0xf8, 0xbf, 0x1e, 0xd7, 0x66, 0x51, 0xc1, 0x47, 0x56, 0xa0, 0x61, 0xd6, 0x62, 0xf5, 0x80, 0xff, 0x4d, 0xe4, 0x3b, 0x49, 0xfa, 0x82, 0xd8, 0x0a, 0x4b, 0x80, 0xf8, 0x43, 0x4a]);
    let mut wide = [0x55u8; 40];
    hash_h(&mut wide, b"abc", 3);
    assert_eq!(&wide[..32], &out_abc()[..]);
    assert_eq!(&wide[32..], &[0x55u8; 8]);
}

fn out_abc() -> [u8; 32] {
    [0x3a, 0x98, 0x5d, 0xa7, 0x4f, 0xe2, 0x25, 0xb2, 0x04, 0x5c, 0x17, 0x2d, 0x6b, 0xd3, 0x90, 0xbd, 0x85, 0x5f, 0x08, 0x6e, 0x3e, 0x9d, 0x52, 0x5b, 0x46, 0xbf, 0xe2, 0x45, 0x11, 0x43, 0x15, 0x32]
}

#[test]
fn hash_g_is_sha3_512() {
    let mut out = [0u8; 64];
    hash_g(&mut out, b"abc", 3);
    assert_eq!(&out[..], &[0xb7, 0x51, 0x85, 0x0b, 0x1a, 0x57, 0x16, 0x8a, 0x56, 0x93, 0xcd, 0x92, 0x4b, 0x6b, 0x09, 0x6e, 0x08, 0xf6, 0x21, 0x82, 0x74, 0x44, 0xf7, 0x0d, 0x88, 0x4f, 0x5d, 0x02, 0x40, 0xd2, 0x71, 0x2e, 0x10, 0xe1, 0x16, 0xe9, 0x19, 0x2a, 0xf3, 0xc9, 0x1a, 0x7e, 0xc5, 0x76, 0x47, 0xe3, 0x93, 0x40, 0x57, 0x34, 0x0b, 0x4c, 0xf4, 0x08, 0xd5, 0xa5, 0x65, 0x92, 0xf8, 0x27, 0x4e, 0xec, 0x53, 0xf0][..]);
    let mut wide = [0x55u8; 70];
    hash_g(&mut wide, b"abcxyz", 3);
    assert_eq!(&wide[..64], &out[..]);
    assert_eq!(&wide[64..], &[0x55u8; 6]);
}

#[test]
fn kdf_is_shake256() {
    let mut out = [0u8; 32];
    kdf(&mut out, b"abc", 3);
    assert_eq!(out, [0x48, 0x33, 0x66, 0x60, 0x13, 0x60, 0xa8, 0x77, 0x1c, 0x68, 0x63, 0x08, 0x0c, 0xc4, 0x11, 0x4d, 0x8d, 0xb4, 0x45, 0x30, 0xf8, 0xf1, 0xe1, 0xee, 0x4f, 0x94, 0xea, 0x37, 0xe7, 0x8b, 0x57, 0x39]);
    let mut short = [0u8; 5];
    kdf(&mut short, b"abcd", 3);
    assert_eq!(&short[..], &out[..5]);
    let mut none: [u8; 0] = [];
    kdf(&mut none, b"abc", 3);
}

#[test]
fn prf_is_shake256_of_key_and_nonce() {
    let mut out = [0u8; 16];
    prf(&mut out, &seed_a(), 5);
    assert_eq!(out, [0x79, 0x7f, 0x16, 0x48, 0xf9, 0x92, 0xcc, 0x90, 0x03, 0x0e, 0xdf, 0x6f, 0xdc, 0x1d, 0xbf, 0x49]);
    let mut other = [0u8; 16];
    prf(&mut other, &seed_a(), 6);
    assert_ne!(out, other);
    let mut long = [0u8; 128];
    prf(&mut long, &seed_a(), 5);
    assert_eq!(&long[..16], &out[..]);
}

#[test]
fn xof_is_shake128_of_seed_and_coordinates() {
    let mut state = XofState::new();
    xof_absorb(&mut state, &seed_a(), 1, 2);
    let mut out = [0x11u8; 170];
    xof_squeezeblocks(&mut out, 1, &mut state);
    let first: [u8; 16] = [0x02, 0xae, 0x66, 0x24, 0xd5, 0xce, 0x84, 0xcc, 0x59, 0x21, 0xc1, 0xfb, 0x93, 0x36, 0x91, 0xfa];
    let last: [u8; 8] = [0x07, 0x6c, 0x2d, 0xd0, 0x3e, 0x50, 0xc2, 0x57];
    assert_eq!(&out[..16], &first[..]);
    assert_eq!(&out[160..168], &last[..]);
    assert_eq!(&out[168..], &[0x11u8, 0x11u8]);

    // More blocks continue the same output.
    let mut two = [0u8; 336];
    xof_squeezeblocks(&mut two, 2, &mut state);
    assert_eq!(&two[..168], &out[..168]);
    let second: [u8; 8] = [0x4d, 0x3f, 0x90, 0x8c, 0x30, 0x8b, 0xe4, 0xdc];
    assert_eq!(&two[168..176], &second[..]);
    let mut nothing = [9u8; 4];
    xof_squeezeblocks(&mut nothing, 0, &mut state);
    assert_eq!(nothing, [9u8; 4]);

    // The order of the coordinates matters.
    let mut swapped = XofState::new();
    xof_absorb(&mut swapped, &seed_a(), 2, 1);
    let mut other = [0u8; 168];
    xof_squeezeblocks(&mut other, 1, &mut swapped);
    assert_ne!(&other[..], &out[..168]);
}

#[test]
fn randombytes_fills_only_what_is_asked() {
    let mut a = [0u8; 64];
    let mut b = [0u8; 64];
    assert!(randombytes(&mut a, 32));
    assert!(randombytes(&mut b, 32));
    assert_eq!(&a[32..], &[0u8; 32]);
    assert_eq!(&b[32..], &[0u8; 32]);
    assert_ne!(&a[..32], &[0u8; 32]);
    assert_ne!(&a[..32], &b[..32]);
    let mut c = [7u8; 8];
    assert!(randombytes(&mut c, 0));
    assert_eq!(c, [7u8; 8]);
}

#[test]
fn verify_tells_equal_from_different() {
    let a = [1u8, 2, 3, 4, 5];
    let b = [1u8, 2, 3, 4, 6];
    assert_eq!(verify(&a, &a, 5), 0);
    assert_eq!(verify(&a, &b, 5), 1);
    assert_eq!(verify(&a, &b, 4), 0);
    assert_eq!(verify(&a, &b, 0), 0);
    let c = [0u8, 2, 3, 4, 5];
    assert_eq!(verify(&a, &c, 5), 1);
    assert_eq!(verify(&a, &c, 1), 1);
    let d = [0x81u8; 300];
    let mut e = [0x81u8; 300];
    assert_eq!(verify(&d, &e, 300), 0);
    e[299] = 0x80;
    assert_eq!(verify(&d, &e, 300), 1);
    assert_eq!(verify(&d, &e, 299), 0);
    for bit in 0..8 {
        let x = [0u8];
        let y = [1u8 << bit];
        assert_eq!(verify(&x, &y, 1), 1);
    }
}

#[test]
fn cmov_copies_only_when_the_bit_is_one() {
    let src = [9u8, 8, 7, 6, 5];
    let mut dst = [1u8, 2, 3, 4, 5];
    cmov(&mut dst, &src, 5, 0);
    assert_eq!(dst, [1, 2, 3, 4, 5]);
    cmov(&mut dst, &src, 3, 1);
    assert_eq!(dst, [9, 8, 7, 4, 5]);
    cmov(&mut dst, &src, 0, 1);
    assert_eq!(dst, [9, 8, 7, 4, 5]);
    cmov(&mut dst, &src, 5, 1);
    assert_eq!(dst, src);
}

#[test]
fn noise_is_the_binomial_sample_of_the_prf() {
    let mut p = Poly::new();
    poly_getnoise_eta1(&mut p, &seed_a(), 5);
    let first: [i16; 32] = [0, 1, 0, 1, 0, 1, -1, -1, 0, 0, 1, 0, -2, -2, 0, 0, 2, 0, -1, 0, 0, -1, 0, 0, -2, -1, -1, 1, 0, 1, 0, -1];
    assert_eq!(&p.coeffs[..32], &first[..]);
    let mut buf = [0u8; 128];
    prf(&mut buf, &seed_a(), 5);
    let mut q = Poly::new();
    cbd2(&mut q, &buf);
    assert_eq!(p.coeffs, q.coeffs);
    let mut r = Poly::new();
    poly_getnoise_eta2(&mut r, &seed_a(), 5);
    assert_eq!(p.coeffs, r.coeffs);
    poly_getnoise_eta2(&mut r, &seed_a(), 6);
    assert_ne!(p.coeffs, r.coeffs);
    for i in 0..256 {
        assert!(-2 <= r.coeffs[i] && r.coeffs[i] <= 2);
    }
}

fn ramp_vec() -> PolyVec {
    let mut v = PolyVec::new();
    for k in 0..3 {
        for i in 0..256 {
            v.vec[k].coeffs[i] = ((i * 13 + 5 + k * 1000) % 3329) as i16;
        }
    }
    v
}

#[test]
fn polyvec_constructors_give_zero_vectors() {
    let v = PolyVec::new();
    assert_eq!(v.vec.len(), 3);
    let w = PolyVec::with_len(5);
    assert_eq!(w.vec.len(), 5);
    let e = PolyVec::with_len(0);
    assert_eq!(e.vec.len(), 0);
    let d = PolyVec::default();
    assert_eq!(d.vec.len(), 3);
    for p in v.vec.iter().chain(w.vec.iter()).chain(d.vec.iter()) {
        assert_eq!(p.coeffs, [0i16; 256]);
    }
}

#[test]
fn polyvec_serialization_exact_values() {
    let mut v = ramp_vec();
    let mut bytes = [0u8; 1152];
    polyvec_tobytes(&mut bytes, &mut v);
    assert_eq!(digest(&bytes), [0xd8, 0xfa, 0x87, 0x73, 0xb7, 0xb2, 0xa2, 0x55, 0x1f, 0xa2, 0x8c, 0x1b, 0x34, 0x95, 0xe7, 0x2b, 0xc9, 0xaf, 0x58, 0x5b, 0x2c, 0xa3, 0xc5, 0x7a, 0xfb, 0xba, 0xeb, 0xa8, 0xfe, 0xf2, 0xc8, 0x92]);
    for k in 0..3 {
        let mut one = [0u8; 384];
        let mut p = ramp_vec().vec[k];
        poly_tobytes(&mut one, &mut p);
        assert_eq!(&bytes[384 * k..384 * (k + 1)], &one[..]);
    }
    let mut back = PolyVec::new();
    polyvec_frombytes(&mut back, &bytes);
    for k in 0..3 {
        assert_eq!(back.vec[k].coeffs, ramp_vec().vec[k].coeffs);
    }
}

#[test]
fn polyvec_compress_exact_values() {
    let mut v = ramp_vec();
    let mut bytes = [0u8; 960];
    polyvec_compress(&mut bytes, &mut v);
    let first: [u8; 10] = [0x02, 0x18, 0xa0, 0x80, 0x03, 0x12, 0x58, 0xa0, 0x81, 0x07];
    assert_eq!(&bytes[..10], &first[..]);
    assert_eq!(digest(&bytes), [0x45, 0x63, 0xab, 0x67, 0x87, 0x48, 0x98, 0x61, 0x0c, 0xcc, 0xac, 0xa3, 0x97, 0x70, 0x5c, 0xbd, 0x94, 0xe7, 0x3c, 0x21, 0xae, 0x61, 0x89, 0x0d, 0xb4, 0xe9, 0xbe, 0x00, 0x8d, 0xc4, 0xb3, 0x0b]);
    let mut back = PolyVec::new();
    polyvec_decompress(&mut back, &bytes);
    let coeffs: [i16; 8] = [7, 20, 33, 46, 59, 72, 85, 98];
    assert_eq!(&back.vec[0].coeffs[..8], &coeffs[..]);
    let tail: [i16; 4] = [1951, 1964, 1977, 1990];
    assert_eq!(&back.vec[2].coeffs[252..], &tail[..]);
}

#[test]
fn polyvec_operations_act_on_each_polynomial() {
    let mut v = ramp_vec();
    polyvec_ntt(&mut v);
    for k in 0..3 {
        let mut p = ramp_vec().vec[k];
        poly_ntt(&mut p);
        assert_eq!(v.vec[k].coeffs, p.coeffs);
    }
    polyvec_invntt_tomont(&mut v);
    for k in 0..3 {
        for i in 0..256 {
            assert_eq!(
                modq(v.vec[k].coeffs[i] as i64),
                modq((ramp_vec().vec[k].coeffs[i] as i64) * 2285)
            );
        }
    }
    let a = ramp_vec();
    let mut sum = PolyVec::new();
    polyvec_add(&mut sum, &a, &a);
    for k in 0..3 {
        for i in 0..256 {
            assert_eq!(sum.vec[k].coeffs[i], 2 * a.vec[k].coeffs[i]);
        }
    }
    let mut c = sum.clone();
    polyvec_csubq(&mut c);
    polyvec_reduce(&mut sum);
    for k in 0..3 {
        for i in 0..256 {
            assert_eq!(sum.vec[k].coeffs[i] as i64, modq(2 * a.vec[k].coeffs[i] as i64));
            assert_eq!(c.vec[k].coeffs[i], sum.vec[k].coeffs[i]);
        }
    }
}

#[test]
fn pointwise_acc_is_the_inner_product() {
    let mut a = ramp_vec();
    let mut b = PolyVec::new();
    for k in 0..3 {
        b.vec[k].coeffs[k] = 1;
    }
    // b = (1, X, X^2), so the inner product is a0 + X a1 + X^2 a2.
    polyvec_ntt(&mut a);
    polyvec_ntt(&mut b);
    let mut r = Poly::new();
    polyvec_pointwise_acc_montgomery(&mut r, &a, &b);
    poly_invntt_tomont(&mut r);
    poly_reduce(&mut r);
    let v = ramp_vec();
    for i in 0..256 {
        let mut expected = v.vec[0].coeffs[i] as i64;
        expected += if i >= 1 { v.vec[1].coeffs[i - 1] as i64 } else { -(v.vec[1].coeffs[255] as i64) };
        expected += if i >= 2 { v.vec[2].coeffs[i - 2] as i64 } else { -(v.vec[2].coeffs[254 + i] as i64) };
        assert_eq!(r.coeffs[i] as i64, modq(expected), "coefficient {}", i);
    }
}

#[test]
fn rej_uniform_keeps_candidates_below_q() {
    // Groups: (1, 1), (4095, 4095), (3328, 3329), (0, 256).
    let buf: [u8; 13] = [0x01, 0x10, 0x00, 0xff, 0xff, 0xff, 0x00, 0x1d, 0xd0, 0x00, 0x00, 0x10, 0x77];
    let mut r = [-1i16; 8];
    let n = rej_uniform(&mut r, 8, &buf, 13);
    assert_eq!(n, 5);
    assert_eq!(r, [1, 1, 3328, 0, 256, -1, -1, -1]);

    // Stops when enough are written, in the middle of a group too.
    let mut r = [-1i16; 8];
    assert_eq!(rej_uniform(&mut r, 1, &buf, 13), 1);
    assert_eq!(r, [1, -1, -1, -1, -1, -1, -1, -1]);
    let mut r = [-1i16; 8];
    assert_eq!(rej_uniform(&mut r, 3, &buf, 13), 3);
    assert_eq!(r, [1, 1, 3328, -1, -1, -1, -1, -1]);

    // Reads whole groups only, and only within the length given.
    let mut r = [-1i16; 8];
    assert_eq!(rej_uniform(&mut r, 8, &buf, 8), 2);
    assert_eq!(rej_uniform(&mut r, 8, &buf, 2), 0);
    assert_eq!(rej_uniform(&mut r, 0, &buf, 13), 0);
    assert_eq!(rej_uniform(&mut r, 8, &buf, 0), 0);
}

fn zero_matrix() -> Vec<PolyVec> {
    vec![PolyVec::with_len(3), PolyVec::with_len(3), PolyVec::with_len(3)]
}

#[test]
fn gen_matrix_exact_values() {
    let mut a = zero_matrix();
    gen_matrix(&mut a, &seed_a(), false);
    let first: [i16; 8] = [481, 1919, 1434, 2359, 327, 1066, 3001, 649];
    let other: [i16; 8] = [2160, 550, 1910, 2647, 219, 271, 2843, 2289];
    let last: [i16; 4] = [2509, 34, 15, 2490];
    assert_eq!(&a[0].vec[0].coeffs[..8], &first[..]);
    assert_eq!(&a[1].vec[2].coeffs[..8], &other[..]);
    assert_eq!(&a[2].vec[2].coeffs[252..], &last[..]);
    let mut at = zero_matrix();
    gen_matrix(&mut at, &seed_a(), true);
    for i in 0..3 {
        for j in 0..3 {
            assert_eq!(a[i].vec[j].coeffs, at[j].vec[i].coeffs);
            for k in 0..256 {
                assert!(0 <= a[i].vec[j].coeffs[k] && a[i].vec[j].coeffs[k] < 3329);
            }
        }
    }
    // What the matrix held before does not matter.
    let mut again = zero_matrix();
    again[1].vec[1].coeffs[7] = 1234;
    gen_matrix(&mut again, &seed_a(), false);
    for i in 0..3 {
        for j in 0..3 {
            assert_eq!(a[i].vec[j].coeffs, again[i].vec[j].coeffs);
        }
    }
}

#[test]
fn gen_matrix_entry_is_the_rejection_sample_of_the_xof() {
    let mut a = zero_matrix();
    gen_matrix(&mut a, &seed_b(), false);
    // Entry (1, 2) absorbs the coordinates (2, 1).
    let mut state = XofState::new();
    xof_absorb(&mut state, &seed_b(), 2, 1);
    let mut buf = [0u8; 8 * 168];
    xof_squeezeblocks(&mut buf, 8, &mut state);
    let mut r = [0i16; 256];
    assert_eq!(rej_uniform(&mut r, 256, &buf, 8 * 168), 256);
    assert_eq!(a[1].vec[2].coeffs, r);
}

#[test]
fn indcpa_keypair_exact_values() {
    let mut pk = [0u8; 1184];
    let mut sk = [0u8; 1152];
    indcpa_keypair_derand(&mut pk, &mut sk, &seed_a(), &seed_b());
    let pk_first: [u8; 16] = [0x19, 0x0c, 0x1b, 0xd4, 0x39, 0x6e, 0x27, 0xd8, 0x2c, 0xc9, 0xaa, 0x0e, 0x95, 0xdc, 0x07, 0x07];
    let sk_first: [u8; 16] = [0x01, 0x00, 0x00, 0x00, 0x0d, 0xd0, 0x00, 0xf0, 0xcf, 0x00, 0x1d, 0x00, 0x00, 0x1d, 0x00, 0x01];
    assert_eq!(&pk[..16], &pk_first[..]);
    assert_eq!(&sk[..16], &sk_first[..]);
    assert_eq!(&pk[1152..], &seed_a()[..]);
    assert_eq!(digest(&pk), [0x78, 0x5e, 0xec, 0xc4, 0x55, 0xc2, 0x53, 0xa4, 0x96, 0x74, 0x4d, 0x8f, 0x7a, 0xa5, 0x61, 0x39, 0x55, 0x60, 0xe2, 0xb9, 0x40, 0xfd, 0x13, 0x87, 0xcd, 0xc8, 0x02, 0xee, 0xdd, 0x73, 0x83, 0x91]);
    assert_eq!(digest(&sk), [0x64, 0x1d, 0x58, 0x71, 0x8f, 0xc1, 0x05, 0x20, 0xe0, 0x00, 0x5d, 0xaf, 0x7d, 0x7b, 0xb8, 0x9a, 0xb5, 0x94, 0x9f, 0x66, 0x86, 0xf3, 0xe1, 0x33, 0x1e, 0x60, 0xe4, 0xd2, 0x9a, 0x3a, 0x82, 0x33]);
}

#[test]
fn secret_key_holds_the_noise_reduced() {
    let mut pk = [0u8; 1184];
    let mut sk = [0u8; 1152];
    indcpa_keypair_derand(&mut pk, &mut sk, &seed_a(), &seed_b());
    let mut s = PolyVec::new();
    unpack_sk(&mut s, &sk);
    for k in 0..3 {
        let mut noise = Poly::new();
        poly_getnoise_eta1(&mut noise, &seed_b(), k as u8);
        for i in 0..256 {
            assert_eq!(s.vec[k].coeffs[i] as i64, modq(noise.coeffs[i] as i64));
        }
    }
}

#[test]
fn indcpa_enc_exact_values() {
    let mut pk = [0u8; 1184];
    let mut sk = [0u8; 1152];
    indcpa_keypair_derand(&mut pk, &mut sk, &seed_a(), &seed_b());
    let mut ct = [0u8; 1088];
    indcpa_enc(&mut ct, &message(), &pk, &coins());
    let first: [u8; 16] = [0x7e, 0x74, 0xd8, 0x64, 0xf8, 0x19, 0x10, 0x70, 0x81, 0x89, 0x99, 0xb4, 0xf5, 0x40, 0x44, 0xea];
    let last: [u8; 8] = [0x34, 0x7e, 0x5b, 0xcd, 0xd4, 0x0f, 0x72, 0x0b];
    assert_eq!(&ct[..16], &first[..]);
    assert_eq!(&ct[1080..], &last[..]);
    assert_eq!(digest(&ct), [0x68, 0x6f, 0x7b, 0x82, 0x6e, 0x9e, 0x59, 0xfd, 0x69, 0x8a, 0x74, 0xa4, 0x82, 0x5b, 0xd2, 0x98, 0x81, 0x72, 0x44, 0xf8, 0x24, 0x13, 0x0d, 0xed, 0x24, 0xc4, 0x65, 0x5c, 0x9c, 0x60, 0x39, 0xa6]);
    let mut back = [0u8; 32];
    indcpa_dec(&mut back, &ct, &sk);
    assert_eq!(back, message());
}

#[test]
fn indcpa_enc_is_deterministic() {
    let mut pk = [0u8; 1184];
    let mut sk = [0u8; 1152];
    indcpa_keypair_derand(&mut pk, &mut sk, &seed_c(), &seed_a());
    let mut one = [0u8; 1088];
    let mut two = [0xffu8; 1088];
    indcpa_enc(&mut one, &message(), &pk, &coins());
    indcpa_enc(&mut two, &message(), &pk, &coins());
    assert_eq!(one, two);
    let mut other_coins = coins();
    other_coins[0] ^= 1;
    indcpa_enc(&mut two, &message(), &pk, &other_coins);
    assert_ne!(one, two);
    let mut other_message = message();
    other_message[31] ^= 0x80;
    indcpa_enc(&mut two, &other_message, &pk, &coins());
    assert_ne!(one, two);
}

#[test]
fn indcpa_decrypts_what_it_encrypts() {
    for round in 0..20u8 {
        let mut pk = [0u8; 1184];
        let mut sk = [0u8; 1152];
        assert!(indcpa_keypair(&mut pk, &mut sk));
        let mut msg = [0u8; 32];
        let mut c = [0u8; 32];
        for i in 0..32 {
            msg[i] = round.wrapping_mul(31).wrapping_add(i as u8);
            c[i] = round.wrapping_mul(17).wrapping_add((3 * i) as u8);
        }
        let mut ct = [0u8; 1088];
        indcpa_enc(&mut ct, &msg, &pk, &c);
        let mut back = [0u8; 32];
        indcpa_dec(&mut back, &ct, &sk);
        assert_eq!(back, msg);
    }
}

#[test]
fn key_and_ciphertext_layouts() {
    let mut t = ramp_vec();
    let mut pk = [0u8; 1184];
    pack_pk(&mut pk, &mut t, &seed_c());
    let mut bytes = [0u8; 1152];
    polyvec_tobytes(&mut bytes, &mut ramp_vec());
    assert_eq!(&pk[..1152], &bytes[..]);
    assert_eq!(&pk[1152..], &seed_c()[..]);
    let mut back = PolyVec::new();
    let mut seed = [0u8; 32];
    unpack_pk(&mut back, &mut seed, &pk);
    assert_eq!(seed, seed_c());
    for k in 0..3 {
        assert_eq!(back.vec[k].coeffs, ramp_vec().vec[k].coeffs);
    }

    let mut sk = [0u8; 1152];
    pack_sk(&mut sk, &mut ramp_vec());
    assert_eq!(sk, bytes);
    unpack_sk(&mut back, &sk);
    for k in 0..3 {
        assert_eq!(back.vec[k].coeffs, ramp_vec().vec[k].coeffs);
    }

    let mut ct = [0u8; 1088];
    let mut v = ramp();
    pack_ciphertext(&mut ct, &mut ramp_vec(), &mut v);
    let mut first = [0u8; 960];
    polyvec_compress(&mut first, &mut ramp_vec());
    let mut second = [0u8; 128];
    poly_compress(&mut second, &mut ramp());
    assert_eq!(&ct[..960], &first[..]);
    assert_eq!(&ct[960..], &second[..]);
    let mut b = PolyVec::new();
    let mut w = Poly::new();
    unpack_ciphertext(&mut b, &mut w, &ct);
    let mut b2 = PolyVec::new();
    polyvec_decompress(&mut b2, &first);
    let mut w2 = Poly::new();
    poly_decompress(&mut w2, &second);
    assert_eq!(w.coeffs, w2.coeffs);
    for k in 0..3 {
        assert_eq!(b.vec[k].coeffs, b2.vec[k].coeffs);
    }
}

#[test]
fn kem_exact_values() {
    let mut pk = [0u8; 1184];
    let mut sk = [0u8; 2400];
    crypto_kem_keypair_derand(&mut pk, &mut sk, &seed_a(), &seed_b(), &seed_c());
    assert_eq!(digest(&pk), [0x78, 0x5e, 0xec, 0xc4, 0x55, 0xc2, 0x53, 0xa4, 0x96, 0x74, 0x4d, 0x8f, 0x7a, 0xa5, 0x61, 0x39, 0x55, 0x60, 0xe2, 0xb9, 0x40, 0xfd, 0x13, 0x87, 0xcd, 0xc8, 0x02, 0xee, 0xdd, 0x73, 0x83, 0x91]);
    assert_eq!(digest(&sk), [0x87, 0x6d, 0xd7, 0xc0, 0x28, 0x93, 0x8e, 0x77, 0x26, 0x0e, 0xc3, 0xe8, 0x66, 0xdb, 0xc4, 0x84, 0x0c, 0x90, 0xf1, 0x8a, 0x4c, 0x93, 0xa2, 0x5f, 0xe3, 0xbd, 0x9d, 0x4a, 0x7c, 0xa8, 0xbe, 0x13]);
    assert_eq!(&sk[1152..2336], &pk[..]);
    assert_eq!(&sk[2336..2368], &digest(&pk)[..]);
    assert_eq!(&sk[2368..], &seed_c()[..]);
    let mut cpa_pk = [0u8; 1184];
    let mut cpa_sk = [0u8; 1152];
    indcpa_keypair_derand(&mut cpa_pk, &mut cpa_sk, &seed_a(), &seed_b());
    assert_eq!(pk, cpa_pk);
    assert_eq!(&sk[..1152], &cpa_sk[..]);

    let mut ct = [0u8; 1088];
    let mut ss = [0u8; 32];
    crypto_kem_enc_derand(&mut ct, &mut ss, &pk, &message());
    assert_eq!(digest(&ct), [0x24, 0xf6, 0x01, 0xd7, 0x1c, 0xd1, 0x61, 0x25, 0x4d, 0x3e, 0x12, 0xf4, 0x9c, 0xbf, 0x14, 0x67, 0x28, 0x4f, 0xba, 0xa8, 0x6d, 0x19, 0x61, 0xc5, 0x98, 0x92, 0x59, 0xf3, 0x75, 0x0b, 0x14, 0xc0]);
    assert_eq!(ss, [0xd1, 0xcc, 0x31, 0x36, 0xff, 0xe8, 0xd7, 0xad, 0x26, 0xad, 0xeb, 0x72, 0x10, 0x88, 0x38, 0xc0, 0xc1, 0xe0, 0x99, 0x72, 0x07, 0x91, 0x88, 0x3d, 0xfd, 0x59, 0xb6, 0xcd, 0x54, 0x59, 0xe6, 0xbd]);

    let mut back = [0u8; 32];
    assert_eq!(crypto_kem_dec(&mut back, &ct, &sk), 0);
    assert_eq!(back, ss);

    // A changed ciphertext gives the rejection value of the key.
    ct[0] ^= 1;
    assert_eq!(crypto_kem_dec(&mut back, &ct, &sk), 0);
    assert_eq!(back, [0xd8, 0x7c, 0x5a, 0xc0, 0x84, 0xe1, 0xe2, 0x06, 0xba, 0xea, 0x39, 0x7d, 0x53, 0x2b, 0xcd, 0x2d, 0xd8, 0xba, 0x73, 0x92, 0x9f, 0x76, 0xb6, 0x65, 0xd3, 0x1b, 0xe4, 0xa6, 0x99, 0x61, 0x80, 0xbb]);
    let mut input = [0u8; 64];
    input[..32].copy_from_slice(&seed_c());
    input[32..].copy_from_slice(&digest(&ct));
    let mut expected = [0u8; 32];
    kdf(&mut expected, &input, 64);
    assert_eq!(back, expected);
}

#[test]
fn encapsulation_follows_its_steps() {
    let mut pk = [0u8; 1184];
    let mut sk = [0u8; 2400];
    crypto_kem_keypair_derand(&mut pk, &mut sk, &seed_b(), &seed_c(), &seed_a());
    let mut ct = [0u8; 1088];
    let mut ss = [0u8; 32];
    crypto_kem_enc_derand(&mut ct, &mut ss, &pk, &message());

    let hashed = digest(&message());
    let mut buf = [0u8; 64];
    buf[..32].copy_from_slice(&hashed);
    buf[32..].copy_from_slice(&digest(&pk));
    let mut kr = [0u8; 64];
    hash_g(&mut kr, &buf, 64);
    let mut c = [0u8; 32];
    c.copy_from_slice(&kr[32..]);
    let mut expected_ct = [0u8; 1088];
    indcpa_enc(&mut expected_ct, &hashed, &pk, &c);
    assert_eq!(ct, expected_ct);
    kr[32..].copy_from_slice(&digest(&ct));
    let mut expected_ss = [0u8; 32];
    kdf(&mut expected_ss, &kr, 64);
    assert_eq!(ss, expected_ss);
}

#[test]
fn decapsulation_recovers_the_shared_secret() {
    for _ in 0..20 {
        let mut pk = [0u8; PUBLICKEYBYTES];
        let mut sk = [0u8; SECRETKEYBYTES];
        assert_eq!(crypto_kem_keypair(&mut pk, &mut sk), 0);
        let mut ct = [0u8; CIPHERTEXTBYTES];
        let mut ss1 = [0u8; 32];
        assert_eq!(crypto_kem_enc(&mut ct, &mut ss1, &pk), 0);
        let mut ss2 = [0u8; 32];
        assert_eq!(crypto_kem_dec(&mut ss2, &ct, &sk), 0);
        assert_eq!(ss1, ss2);
    }
}

#[test]
fn public_key_stands_in_the_secret_key() {
    for _ in 0..5 {
        let mut pk = [0u8; PUBLICKEYBYTES];
        let mut sk = [0u8; SECRETKEYBYTES];
        assert_eq!(crypto_kem_keypair(&mut pk, &mut sk), 0);
        assert_eq!(&sk[INDCPA_SECRETKEYBYTES..INDCPA_SECRETKEYBYTES + INDCPA_PUBLICKEYBYTES], &pk[..]);
        assert_eq!(&sk[SECRETKEYBYTES - 64..SECRETKEYBYTES - 32], &digest(&pk)[..]);
    }
}

#[test]
fn key_generation_and_encapsulation_draw_fresh_randomness() {
    let mut pk1 = [0u8; PUBLICKEYBYTES];
    let mut sk1 = [0u8; SECRETKEYBYTES];
    let mut pk2 = [0u8; PUBLICKEYBYTES];
    let mut sk2 = [0u8; SECRETKEYBYTES];
    assert_eq!(crypto_kem_keypair(&mut pk1, &mut sk1), 0);
    assert_eq!(crypto_kem_keypair(&mut pk2, &mut sk2), 0);
    assert_ne!(pk1, pk2);
    assert_ne!(sk1, sk2);
    assert_ne!(&sk1[2368..], &sk2[2368..]);
    let mut ct1 = [0u8; CIPHERTEXTBYTES];
    let mut ct2 = [0u8; CIPHERTEXTBYTES];
    let mut ss1 = [0u8; 32];
    let mut ss2 = [0u8; 32];
    assert_eq!(crypto_kem_enc(&mut ct1, &mut ss1, &pk1), 0);
    assert_eq!(crypto_kem_enc(&mut ct2, &mut ss2, &pk1), 0);
    assert_ne!(ct1, ct2);
    assert_ne!(ss1, ss2);
}

#[test]
fn flipped_ciphertext_bit_gives_another_secret() {
    let mut pk = [0u8; PUBLICKEYBYTES];
    let mut sk = [0u8; SECRETKEYBYTES];
    assert_eq!(crypto_kem_keypair(&mut pk, &mut sk), 0);
    let mut ct = [0u8; CIPHERTEXTBYTES];
    let mut ss = [0u8; 32];
    assert_eq!(crypto_kem_enc(&mut ct, &mut ss, &pk), 0);
    let mut bit: usize = 0;
    while bit < 8 * CIPHERTEXTBYTES {
        let mut tampered = ct;
        tampered[bit / 8] ^= 1 << (bit % 8);
        let mut out = [0u8; 32];
        assert_eq!(crypto_kem_dec(&mut out, &tampered, &sk), 0);
        assert_ne!(out, ss, "bit {}", bit);
        // The same changed ciphertext gives the same value again.
        let mut again = [0u8; 32];
        assert_eq!(crypto_kem_dec(&mut again, &tampered, &sk), 0);
        assert_eq!(out, again);
        bit += 97;
    }
    let mut last = ct;
    last[CIPHERTEXTBYTES - 1] ^= 0x80;
    let mut out = [0u8; 32];
    assert_eq!(crypto_kem_dec(&mut out, &last, &sk), 0);
    assert_ne!(out, ss);
}

#[test]
fn another_secret_key_gives_another_secret() {
    let mut pk_a = [0u8; PUBLICKEYBYTES];
    let mut sk_a = [0u8; SECRETKEYBYTES];
    let mut pk_b = [0u8; PUBLICKEYBYTES];
    let mut sk_b = [0u8; SECRETKEYBYTES];
    assert_eq!(crypto_kem_keypair(&mut pk_a, &mut sk_a), 0);
    assert_eq!(crypto_kem_keypair(&mut pk_b, &mut sk_b), 0);
    let mut ct = [0u8; CIPHERTEXTBYTES];
    let mut ss = [0u8; 32];
    assert_eq!(crypto_kem_enc(&mut ct, &mut ss, &pk_a), 0);
    let mut out = [0u8; 32];
    assert_eq!(crypto_kem_dec(&mut out, &ct, &sk_b), 0);
    assert_ne!(out, ss);
    assert_eq!(crypto_kem_dec(&mut out, &ct, &sk_a), 0);
    assert_eq!(out, ss);
}

#[test]
fn decapsulation_accepts_any_bytes() {
    let ct = [0u8; CIPHERTEXTBYTES];
    let sk = [0xffu8; SECRETKEYBYTES];
    let mut out = [0u8; 32];
    assert_eq!(crypto_kem_dec(&mut out, &ct, &sk), 0);
    let ct = [0xffu8; CIPHERTEXTBYTES];
    let sk = [0u8; SECRETKEYBYTES];
    assert_eq!(crypto_kem_dec(&mut out, &ct, &sk), 0);
    let mut msg = [0u8; 32];
    indcpa_dec(&mut msg, &[0xffu8; INDCPA_BYTES], &[0xffu8; INDCPA_SECRETKEYBYTES]);
    let mut c = [0u8; INDCPA_BYTES];
    indcpa_enc(&mut c, &msg, &[0xffu8; INDCPA_PUBLICKEYBYTES], &[0u8; 32]);
}

#[test]
fn transform_holds_the_residues_modulo_the_quadratic_factors() {
    let p = ramp();
    let mut t = ramp();
    ntt(&mut t.coeffs);
    for m in 0..128usize {
        let zeta = ZETAS[64 + m / 2] as i64;
        let root = modq(169 * if m % 2 == 0 { zeta } else { -zeta });
        for b in 0..2usize {
            let mut sum: i64 = 0;
            let mut power: i64 = 1;
            for j in 0..128usize {
                sum = modq(sum + (p.coeffs[2 * j + b] as i64) * power);
                power = modq(power * root);
            }
            assert_eq!(modq(t.coeffs[2 * m + b] as i64), sum, "pair {} coefficient {}", m, b);
        }
        // The root is a root of X^128 + 1.
        let mut power: i64 = 1;
        for _ in 0..128 {
            power = modq(power * root);
        }
        assert_eq!(power, 3328);
    }
}

#[test]
fn product_through_the_transform_is_the_schoolbook_product() {
    let a = ramp();
    let mut b = Poly::new();
    for i in 0..256 {
        b.coeffs[i] = ((i * i * 7 + 3 * i + 11) % 3329) as i16;
    }
    let mut expected = [0i64; 256];
    for i in 0..256 {
        for j in 0..256 {
            let term = (a.coeffs[i] as i64) * (b.coeffs[j] as i64);
            if i + j < 256 {
                expected[i + j] = modq(expected[i + j] + term);
            } else {
                expected[i + j - 256] = modq(expected[i + j - 256] - term);
            }
        }
    }
    let mut ah = a;
    let mut bh = b;
    poly_ntt(&mut ah);
    poly_ntt(&mut bh);
    let mut r = Poly::new();
    poly_basemul_montgomery(&mut r, &ah, &bh);
    poly_invntt_tomont(&mut r);
    for k in 0..256 {
        assert!(-3329 < r.coeffs[k] && r.coeffs[k] < 3329);
        assert_eq!(modq(r.coeffs[k] as i64), expected[k], "coefficient {}", k);
    }
}

fn schoolbook(a: &[i16; 256], b: &[i64; 256]) -> [i64; 256] {
    let mut c = [0i64; 256];
    for i in 0..256 {
        for j in 0..256 {
            let term = (a[i] as i64) * b[j];
            if i + j < 256 {
                c[i + j] = modq(c[i + j] + term);
            } else {
                c[i + j - 256] = modq(c[i + j - 256] - term);
            }
        }
    }
    c
}

fn widen(p: &Poly) -> [i64; 256] {
    let mut w = [0i64; 256];
    for i in 0..256 {
        w[i] = p.coeffs[i] as i64;
    }
    w
}

#[test]
fn decryption_decodes_the_message_plus_small_noise() {
    let mut pk = [0u8; 1184];
    let mut sk = [0u8; 1152];
    indcpa_keypair_derand(&mut pk, &mut sk, &seed_a(), &seed_b());
    let mut ct = [0u8; 1088];
    indcpa_enc(&mut ct, &message(), &pk, &coins());

    // The noise of the key and of the coins.
    let mut s = PolyVec::new();
    let mut e = PolyVec::new();
    let mut r = PolyVec::new();
    let mut e1 = PolyVec::new();
    let mut e2 = Poly::new();
    for i in 0..3 {
        poly_getnoise_eta1(&mut s.vec[i], &seed_b(), i as u8);
        poly_getnoise_eta1(&mut e.vec[i], &seed_b(), (3 + i) as u8);
        poly_getnoise_eta1(&mut r.vec[i], &coins(), i as u8);
        poly_getnoise_eta2(&mut e1.vec[i], &coins(), (3 + i) as u8);
    }
    poly_getnoise_eta2(&mut e2, &coins(), 6);
    let mut k = Poly::new();
    poly_frommsg(&mut k, &message());

    // The vector u and the polynomial v before compression.
    let mut t = PolyVec::new();
    let mut seed = [0u8; 32];
    unpack_pk(&mut t, &mut seed, &pk);
    let mut at = zero_matrix();
    gen_matrix(&mut at, &seed, true);
    let mut rh = r.clone();
    polyvec_ntt(&mut rh);
    let mut u = PolyVec::new();
    for i in 0..3 {
        polyvec_pointwise_acc_montgomery(&mut u.vec[i], &at[i], &rh);
    }
    polyvec_invntt_tomont(&mut u);
    let inverse = u.clone();
    polyvec_add(&mut u, &inverse, &e1);
    polyvec_reduce(&mut u);
    let mut v = Poly::new();
    polyvec_pointwise_acc_montgomery(&mut v, &t, &rh);
    poly_invntt_tomont(&mut v);
    let x = v;
    poly_add(&mut v, &x, &e2);
    let x = v;
    poly_add(&mut v, &x, &k);
    poly_reduce(&mut v);
    let mut again = [0u8; 1088];
    pack_ciphertext(&mut again, &mut u.clone(), &mut v.clone());
    assert_eq!(ct, again);

    // What the ciphertext decompresses to, and the rounding errors.
    let mut ud = PolyVec::new();
    let mut vd = Poly::new();
    unpack_ciphertext(&mut ud, &mut vd, &ct);

    // noise = cv + e2 + e r - s (e1 + cu).
    let mut noise = [0i64; 256];
    for n in 0..256 {
        noise[n] = modq(vd.coeffs[n] as i64 - v.coeffs[n] as i64 + e2.coeffs[n] as i64);
    }
    for j in 0..3 {
        let er = schoolbook(&e.vec[j].coeffs, &widen(&r.vec[j]));
        let mut f = [0i64; 256];
        for n in 0..256 {
            f[n] = e1.vec[j].coeffs[n] as i64 + ud.vec[j].coeffs[n] as i64
                - u.vec[j].coeffs[n] as i64;
        }
        let sf = schoolbook(&s.vec[j].coeffs, &f);
        for n in 0..256 {
            noise[n] = modq(noise[n] + er[n] - sf[n]);
        }
    }

    // The polynomial that decryption decodes: v' - s u'.
    let mut decoded = widen(&vd);
    for i in 0..3 {
        let su = schoolbook(&s.vec[i].coeffs, &widen(&ud.vec[i]));
        for n in 0..256 {
            decoded[n] = modq(decoded[n] - su[n]);
        }
    }
    for n in 0..256 {
        assert_eq!(decoded[n], modq(k.coeffs[n] as i64 + noise[n]), "coefficient {}", n);
        assert!(noise[n] <= 831 || noise[n] >= 2497, "noise {} at {}", noise[n], n);
    }
    let mut back = [0u8; 32];
    indcpa_dec(&mut back, &ct, &sk);
    assert_eq!(back, message());
}
