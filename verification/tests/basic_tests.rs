use ml_kem::{
    params::{ mlkem_768, K, Q },
    poly::{ Poly, poly_tobytes, poly_frombytes },
    polyvec::PolyVec,
    indcpa::gen_matrix,
    reduce::{ montgomery_reduce, barrett_reduce, csubq, MONT, QINV },
    ntt::{ ntt, invntt, fqmul, ZETAS_INV },
    cbd::{ cbd_eta1, cbd_eta2 },
};

#[test]
fn test_basic_reduce_functions() {
    // Test montgomery_reduce with smaller values
    let a = 1000i32;
    let result = montgomery_reduce(a);
    println!("montgomery_reduce({}) = {}", a, result);

    // Test barrett_reduce
    let b = 5000i16;
    let result2 = barrett_reduce(b);
    println!("barrett_reduce({}) = {}", b, result2);

    // Test csubq
    let c = 4000i16;
    let result3 = csubq(c);
    println!("csubq({}) = {}", c, result3);
}

#[test]
fn test_montgomery_reduce() {

    // Test Montgomery reduction with known values
    // MONT = 2^16 mod q = 2285
    // QINV = q^-1 mod 2^16 = 62209

    println!("Constants:");
    println!("  Q = {}", Q);
    println!("  MONT = {}", MONT);
    println!("  QINV = {}", QINV);
    println!("  1 << 16 = {}", 1 << 16);

    // Test: montgomery_reduce(1 * 2^16) should give 1
    let input: i32 = 1 << 16;
    let u: i32 = input.wrapping_mul(QINV as i32);
    let mut t: i32 = u.wrapping_mul(Q as i32);
    t = input.wrapping_sub(t);
    t >>= 16;

    println!("Montgomery reduction steps:");
    println!("  input = {}", input);
    println!("  u = input * QINV = {} * {} = {}", input, QINV, u);
    println!("  t = u * Q = {} * {} = {}", u, Q, u.wrapping_mul(Q as i32));
    println!(
        "  t = input - t = {} - {} = {}",
        input,
        u.wrapping_mul(Q as i32),
        input.wrapping_sub(u.wrapping_mul(Q as i32))
    );
    println!("  t >> 16 = {} >> 16 = {}", input.wrapping_sub(u.wrapping_mul(Q as i32)), t);

    let result = montgomery_reduce(1 << 16);
    println!("montgomery_reduce(1 << 16) = {}", result);
    assert_eq!(result, 1);

    // Test: montgomery_reduce(1000 * 2^16) should give 1000
    let result = montgomery_reduce(1000 << 16);
    println!("montgomery_reduce(1000 << 16) = {}", result);
    assert_eq!(result, 1000);

    // Test: montgomery_reduce(2000 * 2^16) should give 2000
    let result = montgomery_reduce(2000 << 16);
    println!("montgomery_reduce(2000 << 16) = {}", result);
    assert_eq!(result, 2000);

    // Test: montgomery_reduce(3000 * 2^16) should give 3000
    let result = montgomery_reduce(3000 << 16);
    println!("montgomery_reduce(3000 << 16) = {}", result);
    assert_eq!(result, 3000);

    println!("✅ Montgomery reduction test passed!");
}

#[test]
fn test_montgomery_constants() {

    // Verify MONT = 2^16 mod q
    let computed_mont = (1u64 << 16) % (Q as u64);
    println!("Expected MONT: {}", MONT);
    println!("Computed MONT: {}", computed_mont);
    assert_eq!(MONT as u64, computed_mont);

    // Verify QINV = q^-1 mod 2^16
    // This should satisfy: (q * QINV) mod 2^16 = 1
    let product = ((Q as u64) * (QINV as u64)) % (1u64 << 16);
    println!("Expected QINV property: (Q * QINV) mod 2^16 = 1");
    println!("Computed: ({} * {}) mod {} = {}", Q, QINV, 1u64 << 16, product);
    assert_eq!(product, 1);

    println!("✅ Montgomery constants are correct!");
}

#[test]
fn test_poly_roundtrip() {
    // Create a simple polynomial
    let mut poly1 = Poly::new();
    poly1.coeffs[0] = 100;
    poly1.coeffs[1] = 200;
    poly1.coeffs[2] = 300;

    // Pack it to bytes
    let mut bytes = [0u8; 384];
    poly_tobytes(&mut bytes, &mut poly1);

    println!("Original coeffs: [{}, {}, {}]", poly1.coeffs[0], poly1.coeffs[1], poly1.coeffs[2]);
    println!("Packed bytes: {:?}", &bytes[..9]);

    // Unpack it back
    let mut poly2 = Poly::new();
    poly_frombytes(&mut poly2, &bytes);

    println!("Unpacked coeffs: [{}, {}, {}]", poly2.coeffs[0], poly2.coeffs[1], poly2.coeffs[2]);

    // Check if roundtrip works
    assert_eq!(poly1.coeffs[0], poly2.coeffs[0]);
    assert_eq!(poly1.coeffs[1], poly2.coeffs[1]);
    assert_eq!(poly1.coeffs[2], poly2.coeffs[2]);
    println!("✅ Polynomial roundtrip test passed!");
}

#[test]
fn test_ntt_roundtrip() {
    // The NTT/invNTT roundtrip in ML-KEM includes Montgomery arithmetic scaling
    // This test verifies that the scaling is consistent and predictable

    let mut poly = Poly::new();
    poly.coeffs[0] = 1000;
    poly.coeffs[1] = 2000;
    poly.coeffs[2] = 3000;
    for i in 3..256 {
        poly.coeffs[i] = 0;
    }

    // Store original values
    let orig = [poly.coeffs[0], poly.coeffs[1], poly.coeffs[2]];
    println!("Original: [{}, {}, {}]", orig[0], orig[1], orig[2]);

    // Apply NTT
    ntt(&mut poly.coeffs);
    println!("After NTT: [{}, {}, {}]", poly.coeffs[0], poly.coeffs[1], poly.coeffs[2]);

    // Apply inverse NTT
    invntt(&mut poly.coeffs);
    let after_invntt = [poly.coeffs[0], poly.coeffs[1], poly.coeffs[2]];
    println!("After invNTT: [{}, {}, {}]", after_invntt[0], after_invntt[1], after_invntt[2]);

    // The NTT roundtrip scales each coefficient by the Montgomery factor (2285)
    // Verify this scaling is consistent

    for i in 0..3 {
        let expected_scaled = ((orig[i] as i64) * (MONT as i64)) % (Q as i64);
        let expected = expected_scaled as i16;

        // Convert both values to the same modular representation
        let mut actual = after_invntt[i];
        let mut expected_norm = expected;

        // Normalize both to [0, Q)
        if actual < 0 {
            actual += Q as i16;
        }
        if expected_norm < 0 {
            expected_norm += Q as i16;
        }

        // Check if they are equivalent modulo Q
        let diff = (actual - expected_norm).abs();
        assert!(
            diff == 0 || diff == (Q as i16),
            "Coefficient {} scaling incorrect: got {} (norm {}), expected {} (norm {}) (diff={})",
            i,
            after_invntt[i],
            actual,
            expected,
            expected_norm,
            diff
        );
    }

    println!("✅ NTT roundtrip scaling verified!");
}

#[test]
fn test_ntt_multiplication() {
    // Test NTT in its intended context: polynomial multiplication
    // This tests: (a * b) in time domain == INTT(NTT(a) * NTT(b)) in frequency domain

    let mut poly_a = Poly::new();
    let mut poly_b = Poly::new();

    // Simple test polynomials
    poly_a.coeffs[0] = 1;
    poly_a.coeffs[1] = 2;
    for i in 2..256 {
        poly_a.coeffs[i] = 0;
    }

    poly_b.coeffs[0] = 3;
    poly_b.coeffs[1] = 4;
    for i in 2..256 {
        poly_b.coeffs[i] = 0;
    }

    println!("Poly A: [{}, {}, {}]", poly_a.coeffs[0], poly_a.coeffs[1], poly_a.coeffs[2]);
    println!("Poly B: [{}, {}, {}]", poly_b.coeffs[0], poly_b.coeffs[1], poly_b.coeffs[2]);

    // Expected result of multiplication: (1 + 2x) * (3 + 4x) = 3 + 4x + 6x + 8x^2 = 3 + 10x + 8x^2
    let expected_0 = 3;
    let expected_1 = 10;
    let expected_2 = 8;

    // Apply NTT to both polynomials
    ntt(&mut poly_a.coeffs);
    ntt(&mut poly_b.coeffs);

    println!("After NTT A: [{}, {}, {}]", poly_a.coeffs[0], poly_a.coeffs[1], poly_a.coeffs[2]);
    println!("After NTT B: [{}, {}, {}]", poly_b.coeffs[0], poly_b.coeffs[1], poly_b.coeffs[2]);

    // Pointwise multiplication in NTT domain
    for i in 0..256 {
        poly_a.coeffs[i] = fqmul(poly_a.coeffs[i], poly_b.coeffs[i]);
    }

    println!(
        "After pointwise mult: [{}, {}, {}]",
        poly_a.coeffs[0],
        poly_a.coeffs[1],
        poly_a.coeffs[2]
    );

    // Apply inverse NTT
    invntt(&mut poly_a.coeffs);

    println!("After invNTT: [{}, {}, {}]", poly_a.coeffs[0], poly_a.coeffs[1], poly_a.coeffs[2]);

    // The result should be the polynomial multiplication result
    // But it might be in Montgomery form or have some scaling

    // For now, let's just print the result and see if it makes sense
    println!("Expected: [{}, {}, {}]", expected_0, expected_1, expected_2);

    // Check if the pattern is consistent (even if scaled)
    let ratio_01 = if poly_a.coeffs[0] != 0 && poly_a.coeffs[1] != 0 {
        (poly_a.coeffs[1] as f64) / (poly_a.coeffs[0] as f64)
    } else {
        0.0
    };
    let expected_ratio = (expected_1 as f64) / (expected_0 as f64);

    println!("Ratio actual[1]/actual[0]: {:.3}", ratio_01);
    println!("Ratio expected[1]/expected[0]: {:.3}", expected_ratio);

    // For now, just verify the test runs without panicking
    println!("✅ NTT multiplication test completed (manual verification needed)");
}

#[test]
fn test_cbd_functions() {
    // Create a test buffer for CBD
    let mut buf = [0u8; 128]; // 2*N/4 for ETA1=2
    for i in 0..128 {
        buf[i] = i as u8;
    }

    // Test CBD_ETA1
    let mut poly1 = Poly::new();
    cbd_eta1(&mut poly1, &buf);
    println!(
        "CBD_ETA1 first 5 coeffs: [{}, {}, {}, {}, {}]",
        poly1.coeffs[0],
        poly1.coeffs[1],
        poly1.coeffs[2],
        poly1.coeffs[3],
        poly1.coeffs[4]
    );

    // Test CBD_ETA2
    let mut poly2 = Poly::new();
    cbd_eta2(&mut poly2, &buf);
    println!(
        "CBD_ETA2 first 5 coeffs: [{}, {}, {}, {}, {}]",
        poly2.coeffs[0],
        poly2.coeffs[1],
        poly2.coeffs[2],
        poly2.coeffs[3],
        poly2.coeffs[4]
    );

    println!("✅ CBD functions test passed!");
}

#[test]
#[allow(non_snake_case)]
fn test_parameters() {
    let MLKEM_768 = mlkem_768();
    println!("ML-KEM-768 parameters:");
    println!("  k: {}", MLKEM_768.k);
    println!("  eta1: {}", MLKEM_768.eta1);
    println!("  eta2: {}", MLKEM_768.eta2);
    println!("  polybytes: {}", MLKEM_768.polybytes);
    println!("  polyvecbytes: {}", MLKEM_768.polyvecbytes);
    println!("  polycompressedbytes: {}", MLKEM_768.polycompressedbytes);
    println!("  polyveccompressedbytes: {}", MLKEM_768.polyveccompressedbytes);
    println!("  indcpa_publickeybytes: {}", MLKEM_768.indcpa_publickeybytes);
    println!("  indcpa_secretkeybytes: {}", MLKEM_768.indcpa_secretkeybytes);
    println!("  indcpa_bytes: {}", MLKEM_768.indcpa_bytes);
    println!("  publickeybytes: {}", MLKEM_768.publickeybytes);
    println!("  secretkeybytes: {}", MLKEM_768.secretkeybytes);
    println!("  ciphertextbytes: {}", MLKEM_768.ciphertextbytes);

    // Verify some key parameters
    assert_eq!(MLKEM_768.k, 3);
    assert_eq!(MLKEM_768.eta1, 2);
    assert_eq!(MLKEM_768.eta2, 2);
    assert_eq!(MLKEM_768.polybytes, 384);
    assert_eq!(MLKEM_768.polyvecbytes, 1152); // 3 * 384

    println!("✅ Parameters test passed!");
}

#[test]
fn test_zetas_inv_127() {

    // zetas_inv[127] = MONT * (MONT * (q - 1) * ((q - 1) / 128) % q) % q

    let q_minus_1 = (Q - 1) as u64;
    let q_minus_1_div_128 = q_minus_1 / 128;
    println!("q-1 = {}", q_minus_1);
    println!("(q-1)/128 = {}", q_minus_1_div_128);

    let mont_u64 = MONT as u64;
    let q_u64 = Q as u64;

    let temp1 = (mont_u64 * q_minus_1 * q_minus_1_div_128) % q_u64;
    let result = (mont_u64 * temp1) % q_u64;

    println!("MONT = {}", mont_u64);
    println!("temp1 = (MONT * (q-1) * ((q-1)/128)) mod q = {}", temp1);
    println!("result = (MONT * temp1) mod q = {}", result);

    // Check against the actual value in ZETAS_INV[127]
    println!("ZETAS_INV[127] = {}", ZETAS_INV[127]);

    assert_eq!(result, ZETAS_INV[127] as u64);
    println!("✅ ZETAS_INV[127] computation is correct!");
}

#[test]
fn test_gen_matrix() {
    
    let seed = [1u8; 32];
    let mut a = vec![PolyVec::with_len(K); K];
    
    // Test that gen_matrix doesn't panic
    gen_matrix(&mut a, &seed, false);
    
    // Test that the matrix contains non-zero coefficients
    let mut has_nonzero = false;
    for i in 0..K {
        for j in 0..K {
            for k in 0..256 {
                if a[i].vec[j].coeffs[k] != 0 {
                    has_nonzero = true;
                    break;
                }
            }
        }
    }
    
    assert!(has_nonzero, "Matrix should contain non-zero coefficients");
    
    // Test that coefficients are in the correct range [0, Q)
    for i in 0..K {
        for j in 0..K {
            for k in 0..256 {
                assert!(a[i].vec[j].coeffs[k] >= 0, "Coefficient should be non-negative");
                assert!(a[i].vec[j].coeffs[k] < ml_kem::params::Q as i16, "Coefficient should be less than Q");
            }
        }
    }
    
    println!("gen_matrix test passed!");
}
