//! The key encapsulation mechanism: the encryption primitive made secure
//! against chosen ciphertexts by re-encryption and implicit rejection.

use vstd::prelude::*;
use crate::params::{CIPHERTEXTBYTES, INDCPA_MSGBYTES, INDCPA_PUBLICKEYBYTES,
    INDCPA_SECRETKEYBYTES, PUBLICKEYBYTES, SECRETKEYBYTES, SYMBYTES};
use crate::indcpa::{indcpa_dec, indcpa_dec_spec, indcpa_enc, indcpa_enc_spec,
    indcpa_keypair_derand, indcpa_pk_spec, indcpa_sk_spec, lemma_keys_decode};
use crate::indcpa_proofs::{decryption_noise, lemma_decryption_inverts, noise_is_small};
use crate::hash::{cmov, hash_g, hash_h, kdf, randombytes, sha3_256, sha3_512, verify};
use crate::symmetric::shake256;

verus! {

/// The secret key of the three seeds: the secret key of the encryption
/// primitive, the public key, the hash of the public key, and the value `z`
/// that takes the place of the pre-key when a ciphertext is rejected.
pub open spec fn kem_sk_spec(publicseed: Seq<u8>, noiseseed: Seq<u8>, z: Seq<u8>) -> Seq<u8> {
    let pk = indcpa_pk_spec(publicseed, noiseseed);
    indcpa_sk_spec(noiseseed) + pk + sha3_256(pk) + z
}

/// The pre-key and the coins of an encapsulation: the hash G of the hashed
/// message and the hash of the public key.
pub open spec fn kem_prekey_coins(m: Seq<u8>, pk_hash: Seq<u8>) -> Seq<u8> {
    sha3_512(m + pk_hash)
}

/// The ciphertext of the encapsulation to `pk` that starts from the random
/// bytes `m`.
pub open spec fn kem_enc_ct(pk: Seq<u8>, m: Seq<u8>) -> Seq<u8> {
    let hashed = sha3_256(m);
    let kr = kem_prekey_coins(hashed, sha3_256(pk));
    indcpa_enc_spec(hashed, pk, kr.subrange(32, 64))
}

/// The shared secret of the encapsulation to `pk` that starts from the
/// random bytes `m`.
pub open spec fn kem_enc_ss(pk: Seq<u8>, m: Seq<u8>) -> Seq<u8> {
    let hashed = sha3_256(m);
    let kr = kem_prekey_coins(hashed, sha3_256(pk));
    shake256(kr.subrange(0, 32) + sha3_256(kem_enc_ct(pk, m)), 32)
}

/// The shared secret that the ciphertext `ct` decapsulates to under the
/// secret key `sk`. The decrypted message is encrypted again; the pre-key of
/// that encryption is used if the ciphertext comes out the same, and the
/// rejection value of the secret key if it does not.
pub open spec fn kem_dec_spec(ct: Seq<u8>, sk: Seq<u8>) -> Seq<u8> {
    let m = indcpa_dec_spec(ct, sk.subrange(0, 1152));
    let pk = sk.subrange(1152, 2336);
    let kr = kem_prekey_coins(m, sk.subrange(2336, 2368));
    let again = indcpa_enc_spec(m, pk, kr.subrange(32, 64));
    let prekey = if again == ct {
        kr.subrange(0, 32)
    } else {
        sk.subrange(2368, 2400)
    };
    shake256(prekey + sha3_256(ct), 32)
}

/// Decapsulation inverts encapsulation wherever decryption inverts
/// encryption. Let a secret key hold the secret key `sk_cpa` of the
/// encryption primitive, a public key `pk`, the hash of `pk` and any `z`,
/// and let `ct` be the ciphertext of the encapsulation to `pk` from the
/// random bytes `m`. If `sk_cpa` decrypts `ct` to the hashed message that
/// was encrypted, decapsulation gives the shared secret of the encapsulation.
pub proof fn lemma_decapsulation_inverts(sk_cpa: Seq<u8>, pk: Seq<u8>, z: Seq<u8>, m: Seq<u8>)
    requires
        sk_cpa.len() == 1152,
        pk.len() == 1184,
        z.len() == 32,
        sha3_256(pk).len() == 32,
        indcpa_dec_spec(kem_enc_ct(pk, m), sk_cpa) == sha3_256(m),
    ensures
        kem_dec_spec(kem_enc_ct(pk, m), sk_cpa + pk + sha3_256(pk) + z) == kem_enc_ss(pk, m),
{
    let sk = sk_cpa + pk + sha3_256(pk) + z;
    assert(sk.subrange(0, 1152) =~= sk_cpa);
    assert(sk.subrange(1152, 2336) =~= pk);
    assert(sk.subrange(2336, 2368) =~= sha3_256(pk));
}

/// Round trip. For the key pair of two seeds and any rejection value `z`,
/// and for the encapsulation that starts from the random bytes `m`:
/// decapsulation gives the shared secret of the encapsulation, if the noise
/// polynomial of the encryption that the encapsulation makes is small. That
/// polynomial is `cv + e2 + e r - s (e1 + cu)`, from the noise of the key,
/// the noise of the coins and the rounding errors of the ciphertext; for all
/// but a negligible share of seeds and random bytes, every coefficient of it
/// is within a quarter of `q` of zero.
pub proof fn lemma_round_trip(publicseed: Seq<u8>, noiseseed: Seq<u8>, z: Seq<u8>, m: Seq<u8>)
    requires
        publicseed.len() == 32,
        z.len() == 32,
        sha3_256(m).len() == 32,
        sha3_256(indcpa_pk_spec(publicseed, noiseseed)).len() == 32,
        noise_is_small(
            decryption_noise(
                publicseed,
                noiseseed,
                sha3_256(m),
                kem_prekey_coins(
                    sha3_256(m),
                    sha3_256(indcpa_pk_spec(publicseed, noiseseed)),
                ).subrange(32, 64),
            ),
        ),
    ensures
        kem_dec_spec(
            kem_enc_ct(indcpa_pk_spec(publicseed, noiseseed), m),
            kem_sk_spec(publicseed, noiseseed, z),
        ) == kem_enc_ss(indcpa_pk_spec(publicseed, noiseseed), m),
{
    let pk = indcpa_pk_spec(publicseed, noiseseed);
    let hashed = sha3_256(m);
    let coins = kem_prekey_coins(hashed, sha3_256(pk)).subrange(32, 64);
    lemma_keys_decode(publicseed, noiseseed);
    lemma_decryption_inverts(publicseed, noiseseed, hashed, coins);
    lemma_decapsulation_inverts(indcpa_sk_spec(noiseseed), pk, z, m);
}

/// A ciphertext that is not the encryption of its own decryption
/// decapsulates to a value derived from the rejection value of the secret
/// key and from the ciphertext alone.
pub proof fn lemma_decapsulation_rejects(ct: Seq<u8>, sk: Seq<u8>)
    requires
        ({
            let m = indcpa_dec_spec(ct, sk.subrange(0, 1152));
            let kr = kem_prekey_coins(m, sk.subrange(2336, 2368));
            indcpa_enc_spec(m, sk.subrange(1152, 2336), kr.subrange(32, 64)) != ct
        }),
    ensures
        kem_dec_spec(ct, sk) == shake256(sk.subrange(2368, 2400) + sha3_256(ct), 32),
{
}

/// Copies `len` bytes of `src`, from index `from` on, to `dst`, from index
/// `at` on.
fn copy_bytes(dst: &mut [u8], at: usize, src: &[u8], from: usize, len: usize)
    requires
        at + len <= old(dst)@.len(),
        from + len <= src@.len(),
    ensures
        final(dst)@ == old(dst)@.subrange(0, at as int) + src@.subrange(
            from as int,
            from + len,
        ) + old(dst)@.subrange(at + len, old(dst)@.len() as int),
{
    let ghost before = dst@;
    let total: usize = dst.len();
    let bound: usize = src.len();
    let mut i: usize = 0;
    while i < len
        invariant
            0 <= i <= len,
            at + len <= total,
            from + len <= bound,
            total == before.len(),
            bound == src@.len(),
            dst@.len() == before.len(),
            forall|k: int| 0 <= k < at ==> dst@[k] == before[k],
            forall|k: int| at <= k < at + i ==> dst@[k] == src@[k - at + from],
            forall|k: int| at + i <= k < before.len() ==> dst@[k] == before[k],
        decreases len - i,
    {
        dst[at + i] = src[from + i];
        i += 1;
    }
    assert(dst@ =~= before.subrange(0, at as int) + src@.subrange(from as int, from + len)
        + before.subrange(at + len, before.len() as int));
}

/// Generates the key pair that the two seeds and the rejection value `z`
/// determine.
pub fn crypto_kem_keypair_derand(
    pk: &mut [u8; PUBLICKEYBYTES],
    sk: &mut [u8; SECRETKEYBYTES],
    publicseed: &[u8; SYMBYTES],
    noiseseed: &[u8; SYMBYTES],
    z: &[u8; SYMBYTES],
)
    ensures
        final(pk)@ == indcpa_pk_spec(publicseed@, noiseseed@),
        final(sk)@ == kem_sk_spec(publicseed@, noiseseed@, z@),
        final(sk)@.subrange(1152, 2336) == final(pk)@,
        final(sk)@.subrange(2336, 2368) == sha3_256(final(pk)@),
{
    let mut indcpa_sk = [0u8;INDCPA_SECRETKEYBYTES];
    indcpa_keypair_derand(pk, &mut indcpa_sk, publicseed, noiseseed);
    let mut pk_hash = [0u8;SYMBYTES];
    hash_h(&mut pk_hash, pk, PUBLICKEYBYTES);
    assert(pk@.subrange(0, 1184) =~= pk@);
    assert(pk_hash@.subrange(0, 32) =~= pk_hash@);
    copy_bytes(sk, 0, &indcpa_sk, 0, INDCPA_SECRETKEYBYTES);
    copy_bytes(sk, INDCPA_SECRETKEYBYTES, pk, 0, INDCPA_PUBLICKEYBYTES);
    copy_bytes(sk, SECRETKEYBYTES - 2 * SYMBYTES, &pk_hash, 0, SYMBYTES);
    copy_bytes(sk, SECRETKEYBYTES - SYMBYTES, z, 0, SYMBYTES);
    assert(sk@ =~= indcpa_sk@ + pk@ + pk_hash@ + z@);
    assert(sk@.subrange(1152, 2336) =~= pk@);
    assert(sk@.subrange(2336, 2368) =~= pk_hash@);
}

/// Generates a public and a secret key from 96 bytes of the random source.
/// Returns 0, or -1 if the random source failed; in that case the two
/// buffers are left as they were. The public key stands in the secret key,
/// byte for byte.
pub fn crypto_kem_keypair(pk: &mut [u8; PUBLICKEYBYTES], sk: &mut [u8; SECRETKEYBYTES]) -> (r:
    i32)
    ensures
        r == 0 || r == -1,
        r == 0 ==> final(sk)@.subrange(1152, 2336) == final(pk)@,
        r == 0 ==> final(sk)@.subrange(2336, 2368) == sha3_256(final(pk)@),
        r == 0 ==> exists|publicseed: Seq<u8>, noiseseed: Seq<u8>, z: Seq<u8>|
            #![auto]
            publicseed.len() == 32 && noiseseed.len() == 32 && z.len() == 32 && final(pk)@
                == indcpa_pk_spec(publicseed, noiseseed) && final(sk)@ == kem_sk_spec(
                publicseed,
                noiseseed,
                z,
            ),
        r == -1 ==> final(pk)@ == old(pk)@ && final(sk)@ == old(sk)@,
{
    let mut publicseed = [0u8;SYMBYTES];
    let mut noiseseed = [0u8;SYMBYTES];
    let mut z = [0u8;SYMBYTES];
    if !randombytes(&mut publicseed, SYMBYTES) {
        return -1;
    }
    if !randombytes(&mut noiseseed, SYMBYTES) {
        return -1;
    }
    if !randombytes(&mut z, SYMBYTES) {
        return -1;
    }
    crypto_kem_keypair_derand(pk, sk, &publicseed, &noiseseed, &z);
    0
}

/// The encapsulation to `pk` that starts from the random bytes `m`: writes
/// the ciphertext and the shared secret that they determine.
pub fn crypto_kem_enc_derand(
    ct: &mut [u8; CIPHERTEXTBYTES],
    ss: &mut [u8; SYMBYTES],
    pk: &[u8; PUBLICKEYBYTES],
    m: &[u8; SYMBYTES],
)
    ensures
        final(ct)@ == kem_enc_ct(pk@, m@),
        final(ss)@ == kem_enc_ss(pk@, m@),
{
    let mut buf = [0u8;64];
    let mut kr = [0u8;64];
    let mut hashed = [0u8;INDCPA_MSGBYTES];
    let mut pk_hash = [0u8;SYMBYTES];
    let mut coins = [0u8;SYMBYTES];
    let mut ct_hash = [0u8;SYMBYTES];

    hash_h(&mut hashed, m, SYMBYTES);
    hash_h(&mut pk_hash, pk, PUBLICKEYBYTES);
    assert(m@.subrange(0, 32) =~= m@);
    assert(pk@.subrange(0, 1184) =~= pk@);
    assert(hashed@.subrange(0, 32) =~= hashed@);
    assert(pk_hash@.subrange(0, 32) =~= pk_hash@);
    copy_bytes(&mut buf, 0, &hashed, 0, SYMBYTES);
    copy_bytes(&mut buf, SYMBYTES, &pk_hash, 0, SYMBYTES);
    assert(buf@ =~= hashed@ + pk_hash@);
    hash_g(&mut kr, &buf, 2 * SYMBYTES);
    assert(buf@.subrange(0, 64) =~= buf@);
    assert(kr@.subrange(0, 64) =~= kr@);

    copy_bytes(&mut coins, 0, &kr, SYMBYTES, SYMBYTES);
    assert(coins@ =~= kr@.subrange(32, 64));
    indcpa_enc(ct, &hashed, pk, &coins);

    hash_h(&mut ct_hash, ct, CIPHERTEXTBYTES);
    assert(ct@.subrange(0, 1088) =~= ct@);
    assert(ct_hash@.subrange(0, 32) =~= ct_hash@);
    copy_bytes(&mut kr, SYMBYTES, &ct_hash, 0, SYMBYTES);
    assert(kr@ =~= sha3_512(hashed@ + pk_hash@).subrange(0, 32) + ct_hash@);
    kdf(ss, &kr, 2 * SYMBYTES);
    assert(kr@.subrange(0, 64) =~= kr@);
}

/// Generates a ciphertext and a shared secret for the public key `pk` from
/// 32 bytes of the random source. Returns 0, or -1 if the random source
/// failed; in that case the two buffers are left as they were.
pub fn crypto_kem_enc(
    ct: &mut [u8; CIPHERTEXTBYTES],
    ss: &mut [u8; SYMBYTES],
    pk: &[u8; PUBLICKEYBYTES],
) -> (r: i32)
    ensures
        r == 0 || r == -1,
        r == 0 ==> exists|m: Seq<u8>|
            #![auto]
            m.len() == 32 && final(ct)@ == kem_enc_ct(pk@, m) && final(ss)@ == kem_enc_ss(
                pk@,
                m,
            ),
        r == -1 ==> final(ct)@ == old(ct)@ && final(ss)@ == old(ss)@,
{
    let mut m = [0u8;SYMBYTES];
    if !randombytes(&mut m, SYMBYTES) {
        return -1;
    }
    crypto_kem_enc_derand(ct, ss, pk, &m);
    0
}

/// Generates the shared secret for the ciphertext `ct` and the secret key
/// `sk`. Always returns 0: a ciphertext that is not the encryption of its
/// own decryption is not reported, it gives a shared secret derived from the
/// rejection value of the secret key.
pub fn crypto_kem_dec(
    ss: &mut [u8; SYMBYTES],
    ct: &[u8; CIPHERTEXTBYTES],
    sk: &[u8; SECRETKEYBYTES],
) -> (r: i32)
    ensures
        r == 0,
        final(ss)@ == kem_dec_spec(ct@, sk@),
{
    let mut buf = [0u8;64];
    let mut kr = [0u8;64];
    let mut again = [0u8;CIPHERTEXTBYTES];
    let mut indcpa_sk = [0u8;INDCPA_SECRETKEYBYTES];
    let mut indcpa_pk = [0u8;INDCPA_PUBLICKEYBYTES];
    let mut msg = [0u8;INDCPA_MSGBYTES];
    let mut coins = [0u8;SYMBYTES];
    let mut ct_hash = [0u8;SYMBYTES];
    let mut z = [0u8;SYMBYTES];

    copy_bytes(&mut indcpa_sk, 0, sk, 0, INDCPA_SECRETKEYBYTES);
    copy_bytes(&mut indcpa_pk, 0, sk, INDCPA_SECRETKEYBYTES, INDCPA_PUBLICKEYBYTES);
    copy_bytes(&mut z, 0, sk, SECRETKEYBYTES - SYMBYTES, SYMBYTES);
    assert(indcpa_sk@ =~= sk@.subrange(0, 1152));
    assert(indcpa_pk@ =~= sk@.subrange(1152, 2336));
    assert(z@ =~= sk@.subrange(2368, 2400));

    indcpa_dec(&mut msg, ct, &indcpa_sk);

    copy_bytes(&mut buf, 0, &msg, 0, INDCPA_MSGBYTES);
    copy_bytes(&mut buf, SYMBYTES, sk, SECRETKEYBYTES - 2 * SYMBYTES, SYMBYTES);
    assert(buf@ =~= msg@ + sk@.subrange(2336, 2368));
    hash_g(&mut kr, &buf, 2 * SYMBYTES);
    assert(buf@.subrange(0, 64) =~= buf@);
    assert(kr@.subrange(0, 64) =~= kr@);
    let ghost prekey_coins = kr@;

    copy_bytes(&mut coins, 0, &kr, SYMBYTES, SYMBYTES);
    assert(coins@ =~= kr@.subrange(32, 64));
    indcpa_enc(&mut again, &msg, &indcpa_pk, &coins);

    let fail: i32 = verify(ct, &again, CIPHERTEXTBYTES);
    assert(ct@.subrange(0, 1088) =~= ct@);
    assert(again@.subrange(0, 1088) =~= again@);

    hash_h(&mut ct_hash, ct, CIPHERTEXTBYTES);
    assert(ct_hash@.subrange(0, 32) =~= ct_hash@);
    copy_bytes(&mut kr, SYMBYTES, &ct_hash, 0, SYMBYTES);
    assert(kr@ =~= prekey_coins.subrange(0, 32) + ct_hash@);

    cmov(&mut kr, &z, SYMBYTES, fail as u8);
    proof {
        if fail == 0 {
            assert(kr@ =~= prekey_coins.subrange(0, 32) + ct_hash@);
        } else {
            assert(kr@ =~= z@ + ct_hash@);
        }
    }

    kdf(ss, &kr, 2 * SYMBYTES);
    assert(kr@.subrange(0, 64) =~= kr@);
    0
}

} // verus!
