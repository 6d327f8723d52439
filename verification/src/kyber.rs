//! The three operations of the mechanism on keys and ciphertexts held as
//! byte slices of any length: each checks the lengths it is given before it
//! hands fixed-size buffers to the mechanism.

use vstd::prelude::*;
use vstd::slice::slice_to_vec;
use crate::indcpa::indcpa_pk_spec;
use crate::kem::{crypto_kem_dec, crypto_kem_enc, crypto_kem_keypair, kem_dec_spec, kem_enc_ct,
    kem_enc_ss, kem_sk_spec};
use crate::params::{CIPHERTEXTBYTES, PUBLICKEYBYTES, SECRETKEYBYTES, SYMBYTES};

verus! {

/// Why an operation was refused.
#[derive(Debug, Clone, Copy, PartialEq, Eq)]
pub enum KyberError {
    /// The public key does not have the length of a public key.
    InvalidPublicKeyLength { expected: usize, got: usize },
    /// The secret key does not have the length of a secret key.
    InvalidSecretKeyLength { expected: usize, got: usize },
    /// The ciphertext does not have the length of a ciphertext.
    InvalidCiphertextLength { expected: usize, got: usize },
    /// The random source gave no bytes.
    RandomnessUnavailable,
}

/// A key pair: the public key and the secret key, each as it is serialized.
pub struct KyberKeyPair {
    pk: Vec<u8>,
    sk: Vec<u8>,
}

impl KyberKeyPair {
    /// The bytes of the public key.
    pub closed spec fn pk(&self) -> Seq<u8> {
        self.pk@
    }

    /// The bytes of the secret key.
    pub closed spec fn sk(&self) -> Seq<u8> {
        self.sk@
    }

    /// Both keys have their lengths, and the public key stands in the secret
    /// key.
    pub open spec fn wf(&self) -> bool {
        &&& self.pk().len() == 1184
        &&& self.sk().len() == 2400
        &&& self.sk().subrange(1152, 2336) == self.pk()
    }

    /// The public key, with which a sender encapsulates a shared secret.
    pub fn public_key(&self) -> (r: Vec<u8>)
        ensures
            r@ == self.pk(),
    {
        slice_to_vec(self.pk.as_slice())
    }

    /// The secret key, with which the recipient decapsulates it.
    pub fn secret_key(&self) -> (r: Vec<u8>)
        ensures
            r@ == self.sk(),
    {
        slice_to_vec(self.sk.as_slice())
    }
}

/// What an encapsulation gives: the ciphertext for the recipient and the
/// shared secret for the sender.
pub struct KyberEncapsulated {
    ciphertext: Vec<u8>,
    shared_secret: Vec<u8>,
}

impl KyberEncapsulated {
    /// The bytes of the ciphertext.
    pub closed spec fn ct(&self) -> Seq<u8> {
        self.ciphertext@
    }

    /// The bytes of the shared secret.
    pub closed spec fn ss(&self) -> Seq<u8> {
        self.shared_secret@
    }

    /// The ciphertext, which is sent to the recipient.
    pub fn ciphertext(&self) -> (r: Vec<u8>)
        ensures
            r@ == self.ct(),
    {
        slice_to_vec(self.ciphertext.as_slice())
    }

    /// The shared secret.
    pub fn shared_secret(&self) -> (r: Vec<u8>)
        ensures
            r@ == self.ss(),
    {
        slice_to_vec(self.shared_secret.as_slice())
    }
}

/// Generates a fresh key pair. Fails only if the random source does.
pub fn kyber_keygen() -> (r: Result<KyberKeyPair, KyberError>)
    ensures
        r is Err ==> r == Err::<KyberKeyPair, KyberError>(KyberError::RandomnessUnavailable),
        r is Ok ==> r->Ok_0.wf(),
        r is Ok ==> exists|publicseed: Seq<u8>, noiseseed: Seq<u8>, z: Seq<u8>|
            #![auto]
            publicseed.len() == 32 && noiseseed.len() == 32 && z.len() == 32 && r->Ok_0.pk()
                == indcpa_pk_spec(publicseed, noiseseed) && r->Ok_0.sk() == kem_sk_spec(
                publicseed,
                noiseseed,
                z,
            ),
{
    let mut pk = [0u8;PUBLICKEYBYTES];
    let mut sk = [0u8;SECRETKEYBYTES];
    if crypto_kem_keypair(&mut pk, &mut sk) != 0 {
        return Err(KyberError::RandomnessUnavailable);
    }
    Ok(KyberKeyPair { pk: slice_to_vec(&pk), sk: slice_to_vec(&sk) })
}

/// Encapsulates a fresh shared secret to the given public key. A public key
/// of another length than `PUBLICKEYBYTES` is refused; with one of that
/// length the operation fails only if the random source does.
pub fn kyber_encapsulate(public_key: &[u8]) -> (r: Result<KyberEncapsulated, KyberError>)
    ensures
        public_key@.len() != 1184 <==> r == Err::<KyberEncapsulated, KyberError>(
            KyberError::InvalidPublicKeyLength { expected: 1184, got: public_key@.len() as usize },
        ),
        r is Err && public_key@.len() == 1184 ==> r == Err::<KyberEncapsulated, KyberError>(
            KyberError::RandomnessUnavailable,
        ),
        r is Ok ==> r->Ok_0.ct().len() == 1088 && r->Ok_0.ss().len() == 32,
        r is Ok ==> exists|m: Seq<u8>|
            #![auto]
            m.len() == 32 && r->Ok_0.ct() == kem_enc_ct(public_key@, m) && r->Ok_0.ss()
                == kem_enc_ss(public_key@, m),
{
    if public_key.len() != PUBLICKEYBYTES {
        return Err(
            KyberError::InvalidPublicKeyLength { expected: PUBLICKEYBYTES, got: public_key.len() },
        );
    }
    let mut pk = [0u8;PUBLICKEYBYTES];
    let mut i: usize = 0;
    while i < PUBLICKEYBYTES
        invariant
            0 <= i <= 1184,
            public_key@.len() == 1184,
            forall|k: int| 0 <= k < i ==> pk@[k] == public_key@[k],
        decreases 1184 - i,
    {
        pk[i] = public_key[i];
        i += 1;
    }
    assert(pk@ =~= public_key@);
    let mut ct = [0u8;CIPHERTEXTBYTES];
    let mut ss = [0u8;SYMBYTES];
    if crypto_kem_enc(&mut ct, &mut ss, &pk) != 0 {
        return Err(KyberError::RandomnessUnavailable);
    }
    Ok(KyberEncapsulated { ciphertext: slice_to_vec(&ct), shared_secret: slice_to_vec(&ss) })
}

/// Decapsulates the shared secret of a ciphertext with the given secret key.
/// A secret key or a ciphertext of the wrong length is refused, the secret
/// key first. With the right lengths the operation never fails: a ciphertext
/// that was not made for this key gives a secret that nobody else holds.
pub fn kyber_decapsulate(secret_key: &[u8], ciphertext: &[u8]) -> (r: Result<Vec<u8>, KyberError>)
    ensures
        secret_key@.len() != 2400 ==> r == Err::<Vec<u8>, KyberError>(
            KyberError::InvalidSecretKeyLength { expected: 2400, got: secret_key@.len() as usize },
        ),
        secret_key@.len() == 2400 && ciphertext@.len() != 1088 ==> r == Err::<Vec<u8>, KyberError>(
            KyberError::InvalidCiphertextLength { expected: 1088, got: ciphertext@.len() as usize },
        ),
        secret_key@.len() == 2400 && ciphertext@.len() == 1088 ==> r is Ok && r->Ok_0@
            == kem_dec_spec(ciphertext@, secret_key@),
{
    if secret_key.len() != SECRETKEYBYTES {
        return Err(
            KyberError::InvalidSecretKeyLength { expected: SECRETKEYBYTES, got: secret_key.len() },
        );
    }
    if ciphertext.len() != CIPHERTEXTBYTES {
        return Err(
            KyberError::InvalidCiphertextLength {
                expected: CIPHERTEXTBYTES,
                got: ciphertext.len(),
            },
        );
    }
    let mut sk = [0u8;SECRETKEYBYTES];
    let mut i: usize = 0;
    while i < SECRETKEYBYTES
        invariant
            0 <= i <= 2400,
            secret_key@.len() == 2400,
            forall|k: int| 0 <= k < i ==> sk@[k] == secret_key@[k],
        decreases 2400 - i,
    {
        sk[i] = secret_key[i];
        i += 1;
    }
    let mut ct = [0u8;CIPHERTEXTBYTES];
    let mut i: usize = 0;
    while i < CIPHERTEXTBYTES
        invariant
            0 <= i <= 1088,
            ciphertext@.len() == 1088,
            forall|k: int| 0 <= k < i ==> ct@[k] == ciphertext@[k],
        decreases 1088 - i,
    {
        ct[i] = ciphertext[i];
        i += 1;
    }
    assert(sk@ =~= secret_key@);
    assert(ct@ =~= ciphertext@);
    let mut ss = [0u8;SYMBYTES];
    crypto_kem_dec(&mut ss, &ct, &sk);
    Ok(slice_to_vec(&ss))
}

} // verus!
