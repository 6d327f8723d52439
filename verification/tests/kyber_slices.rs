use ml_kem::kem::{ crypto_kem_dec, crypto_kem_enc_derand, crypto_kem_keypair_derand };
use ml_kem::kyber::{ kyber_decapsulate, kyber_encapsulate, kyber_keygen, KyberError };

#[test]
fn keygen_gives_keys_of_the_fixed_lengths() {
    let pair = kyber_keygen().unwrap();
    let pk = pair.public_key();
    let sk = pair.secret_key();
    assert_eq!(pk.len(), 1184);
    assert_eq!(sk.len(), 2400);
    assert_eq!(&sk[1152..2336], &pk[..]);
    let other = kyber_keygen().unwrap();
    assert_ne!(other.public_key(), pk);
}

#[test]
fn encapsulate_and_decapsulate_agree() {
    let pair = kyber_keygen().unwrap();
    let encapsulated = kyber_encapsulate(&pair.public_key()).unwrap();
    let ciphertext = encapsulated.ciphertext();
    let shared_secret = encapsulated.shared_secret();
    assert_eq!(ciphertext.len(), 1088);
    assert_eq!(shared_secret.len(), 32);
    let recovered = kyber_decapsulate(&pair.secret_key(), &ciphertext).unwrap();
    assert_eq!(recovered, shared_secret);
}

#[test]
fn slices_of_the_wrong_length_are_refused() {
    let pair = kyber_keygen().unwrap();
    let pk = pair.public_key();
    let sk = pair.secret_key();
    let ct = kyber_encapsulate(&pk).unwrap().ciphertext();

    assert_eq!(
        kyber_encapsulate(&pk[..1183]).err(),
        Some(KyberError::InvalidPublicKeyLength { expected: 1184, got: 1183 })
    );
    assert_eq!(
        kyber_encapsulate(&[]).err(),
        Some(KyberError::InvalidPublicKeyLength { expected: 1184, got: 0 })
    );
    let mut long = pk.clone();
    long.push(0);
    assert_eq!(
        kyber_encapsulate(&long).err(),
        Some(KyberError::InvalidPublicKeyLength { expected: 1184, got: 1185 })
    );

    assert_eq!(
        kyber_decapsulate(&sk[..2399], &ct),
        Err(KyberError::InvalidSecretKeyLength { expected: 2400, got: 2399 })
    );
    assert_eq!(
        kyber_decapsulate(&sk, &ct[..1087]),
        Err(KyberError::InvalidCiphertextLength { expected: 1088, got: 1087 })
    );
    // The secret key is looked at first.
    assert_eq!(
        kyber_decapsulate(&pk, &pk),
        Err(KyberError::InvalidSecretKeyLength { expected: 2400, got: 1184 })
    );
    assert!(kyber_decapsulate(&sk, &ct).is_ok());
}

#[test]
fn slice_operations_are_the_operations_on_arrays() {
    let mut seed = [0u8; 32];
    for i in 0..32 {
        seed[i] = (200 + i) as u8;
    }
    let mut pk = [0u8; 1184];
    let mut sk = [0u8; 2400];
    crypto_kem_keypair_derand(&mut pk, &mut sk, &seed, &[1u8; 32], &[2u8; 32]);
    let mut ct = [0u8; 1088];
    let mut ss = [0u8; 32];
    crypto_kem_enc_derand(&mut ct, &mut ss, &pk, &[3u8; 32]);
    assert_eq!(kyber_decapsulate(&sk, &ct).unwrap(), ss.to_vec());

    ct[500] ^= 0x10;
    let mut expected = [0u8; 32];
    crypto_kem_dec(&mut expected, &ct, &sk);
    assert_ne!(expected, ss);
    assert_eq!(kyber_decapsulate(&sk, &ct).unwrap(), expected.to_vec());
}

#[test]
fn test_rustpqc_kyber768_integration() {
    // Test key generation
    let keypair = kyber_keygen().unwrap();
    let (pk, sk) = (keypair.public_key(), keypair.secret_key());

    // Test encapsulation
    let encapsulated = kyber_encapsulate(&pk).unwrap();
    let (ciphertext, shared_secret1) = (encapsulated.ciphertext(), encapsulated.shared_secret());

    // Test decapsulation
    let shared_secret2 = kyber_decapsulate(&sk, &ciphertext).unwrap();

    // Verify that both shared secrets match
    assert_eq!(shared_secret1, shared_secret2);

    println!("✅ RustPQC ML-KEM-768 integration test passed!");
}
