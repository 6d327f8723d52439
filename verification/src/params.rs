//! The fixed parameter set: ring dimension, modulus, module rank, noise
//! widths and every byte length derived from them.

use vstd::prelude::*;

verus! {

/// Number of coefficients of a ring element.
pub const N: usize = 256;

/// The prime modulus of the coefficient field.
pub const Q: usize = 3329;

/// Size in bytes of hashes and seeds.
pub const SYMBYTES: usize = 32;

/// Size in bytes of a shared secret.
pub const SSBYTES: usize = 32;

/// Module rank.
pub const K: usize = 3;

/// Size in bytes of a serialized polynomial.
pub const POLYBYTES: usize = 384;

/// Size in bytes of a serialized polynomial vector.
pub const POLYVECBYTES: usize = K * POLYBYTES;

/// Width of the centered binomial noise of secrets.
pub const ETA1: usize = 2;

/// Size in bytes of a compressed polynomial.
pub const POLYCOMPRESSEDBYTES: usize = 128;

/// Size in bytes of a compressed polynomial vector.
pub const POLYVECCOMPRESSEDBYTES: usize = K * 320;

/// Width of the centered binomial noise of errors.
pub const ETA2: usize = 2;

/// Size in bytes of a message of the encryption primitive.
pub const INDCPA_MSGBYTES: usize = SYMBYTES;

/// Size in bytes of a public key of the encryption primitive.
pub const INDCPA_PUBLICKEYBYTES: usize = POLYVECBYTES + SYMBYTES;

/// Size in bytes of a secret key of the encryption primitive.
pub const INDCPA_SECRETKEYBYTES: usize = POLYVECBYTES;

/// Size in bytes of a ciphertext of the encryption primitive.
pub const INDCPA_BYTES: usize = POLYVECCOMPRESSEDBYTES + POLYCOMPRESSEDBYTES;

/// Size in bytes of a public key.
pub const PUBLICKEYBYTES: usize = INDCPA_PUBLICKEYBYTES;

/// Size in bytes of a secret key: the secret vector, the public key, the
/// hash of the public key and the rejection value.
pub const SECRETKEYBYTES: usize = INDCPA_SECRETKEYBYTES + INDCPA_PUBLICKEYBYTES + 2 * SYMBYTES;

/// Size in bytes of a ciphertext.
pub const CIPHERTEXTBYTES: usize = INDCPA_BYTES;

/// The constants of one parameter set, gathered in a value.
pub struct ParameterSet {
    pub k: usize,
    pub eta1: usize,
    pub eta2: usize,
    pub polybytes: usize,
    pub polyvecbytes: usize,
    pub polycompressedbytes: usize,
    pub polyveccompressedbytes: usize,
    pub indcpa_publickeybytes: usize,
    pub indcpa_secretkeybytes: usize,
    pub indcpa_bytes: usize,
    pub publickeybytes: usize,
    pub secretkeybytes: usize,
    pub ciphertextbytes: usize,
}

impl ParameterSet {
    /// The byte lengths are the ones that rank, ring dimension and
    /// compression widths determine.
    pub open spec fn wf(&self) -> bool {
        &&& self.polybytes == 384
        &&& self.polyvecbytes == self.k * self.polybytes
        &&& self.polyveccompressedbytes == self.k * 320
        &&& self.indcpa_publickeybytes == self.polyvecbytes + 32
        &&& self.indcpa_secretkeybytes == self.polyvecbytes
        &&& self.indcpa_bytes == self.polyveccompressedbytes + self.polycompressedbytes
        &&& self.publickeybytes == self.indcpa_publickeybytes
        &&& self.secretkeybytes == self.indcpa_secretkeybytes + self.indcpa_publickeybytes + 64
        &&& self.ciphertextbytes == self.indcpa_bytes
    }
}

/// The parameter set of security category three, the one this library is
/// built for.
pub fn mlkem_768() -> (p: ParameterSet)
    ensures
        p.wf(),
        p.k == K,
        p.eta1 == ETA1,
        p.eta2 == ETA2,
        p.polybytes == POLYBYTES,
        p.polyvecbytes == POLYVECBYTES,
        p.polycompressedbytes == POLYCOMPRESSEDBYTES,
        p.polyveccompressedbytes == POLYVECCOMPRESSEDBYTES,
        p.indcpa_publickeybytes == INDCPA_PUBLICKEYBYTES,
        p.indcpa_secretkeybytes == INDCPA_SECRETKEYBYTES,
        p.indcpa_bytes == INDCPA_BYTES,
        p.publickeybytes == PUBLICKEYBYTES,
        p.secretkeybytes == SECRETKEYBYTES,
        p.ciphertextbytes == CIPHERTEXTBYTES,
{
    ParameterSet {
        k: K,
        eta1: ETA1,
        eta2: ETA2,
        polybytes: POLYBYTES,
        polyvecbytes: POLYVECBYTES,
        polycompressedbytes: POLYCOMPRESSEDBYTES,
        polyveccompressedbytes: POLYVECCOMPRESSEDBYTES,
        indcpa_publickeybytes: INDCPA_PUBLICKEYBYTES,
        indcpa_secretkeybytes: INDCPA_SECRETKEYBYTES,
        indcpa_bytes: INDCPA_BYTES,
        publickeybytes: PUBLICKEYBYTES,
        secretkeybytes: SECRETKEYBYTES,
        ciphertextbytes: CIPHERTEXTBYTES,
    }
}

} // verus!
