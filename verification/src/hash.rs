//! The fixed-output hashes, the key-derivation function, the source of
//! randomness, and the two constant-time primitives: comparison and
//! conditional copy.

use vstd::prelude::*;
use vstd::slice::slice_subrange;
use sha3::{Digest, Sha3_256, Sha3_512};
use crate::symmetric::{shake256, shake256_xof};

verus! {

/// The SHA3-256 digest of `input`: 32 bytes.
pub uninterp spec fn sha3_256(input: Seq<u8>) -> Seq<u8>;

/// The SHA3-512 digest of `input`: 64 bytes.
pub uninterp spec fn sha3_512(input: Seq<u8>) -> Seq<u8>;

/// Calls `Sha3_256::digest` of the crate sha3. Claimed and not proved: the
/// 32 bytes returned are a function of `input` alone.
#[verifier::external_body]
pub(crate) fn sha3_256_digest(input: &[u8]) -> (out: [u8; 32])
    ensures
        out@ == sha3_256(input@),
{
    Sha3_256::digest(input).into()
}

/// Calls `Sha3_512::digest` of the crate sha3. Claimed and not proved: the
/// 64 bytes returned are a function of `input` alone.
#[verifier::external_body]
pub(crate) fn sha3_512_digest(input: &[u8]) -> (out: [u8; 64])
    ensures
        out@ == sha3_512(input@),
{
    Sha3_512::digest(input).into()
}

/// Calls `getrandom::getrandom` of the crate getrandom on the first `outlen`
/// bytes of `out`, and returns whether it succeeded. Claimed and not proved:
/// the call writes to those bytes only. Nothing is claimed of the bytes
/// written, nor of when the call succeeds.
#[verifier::external_body]
pub fn randombytes(out: &mut [u8], outlen: usize) -> (ok: bool)
    requires
        outlen <= old(out)@.len(),
    ensures
        final(out)@.len() == old(out)@.len(),
        final(out)@.subrange(outlen as int, old(out)@.len() as int) == old(out)@.subrange(
            outlen as int,
            old(out)@.len() as int,
        ),
{
    getrandom::getrandom(&mut out[..outlen]).is_ok()
}

/// The hash H: writes the SHA3-256 digest of the first `inlen` bytes of
/// `in_data` to the first 32 bytes of `out`.
pub fn hash_h(out: &mut [u8], in_data: &[u8], inlen: usize)
    requires
        old(out)@.len() >= 32,
        inlen <= in_data@.len(),
    ensures
        final(out)@.len() == old(out)@.len(),
        final(out)@.subrange(0, 32) == sha3_256(in_data@.subrange(0, inlen as int)),
        final(out)@.subrange(32, old(out)@.len() as int) == old(out)@.subrange(
            32,
            old(out)@.len() as int,
        ),
{
    let digest = sha3_256_digest(slice_subrange(in_data, 0, inlen));
    let ghost before = out@;
    let mut i: usize = 0;
    while i < 32
        invariant
            0 <= i <= 32,
            out@.len() == before.len(),
            before.len() >= 32,
            forall|k: int| 0 <= k < i ==> out@[k] == digest@[k],
            forall|k: int| i <= k < out@.len() ==> out@[k] == before[k],
        decreases 32 - i,
    {
        out[i] = digest[i];
        i += 1;
    }
    assert(out@.subrange(0, 32) =~= digest@);
    assert(out@.subrange(32, before.len() as int) =~= before.subrange(32, before.len() as int));
}

/// The hash G: writes the SHA3-512 digest of the first `inlen` bytes of
/// `in_data` to the first 64 bytes of `out`.
pub fn hash_g(out: &mut [u8], in_data: &[u8], inlen: usize)
    requires
        old(out)@.len() >= 64,
        inlen <= in_data@.len(),
    ensures
        final(out)@.len() == old(out)@.len(),
        final(out)@.subrange(0, 64) == sha3_512(in_data@.subrange(0, inlen as int)),
        final(out)@.subrange(64, old(out)@.len() as int) == old(out)@.subrange(
            64,
            old(out)@.len() as int,
        ),
{
    let digest = sha3_512_digest(slice_subrange(in_data, 0, inlen));
    let ghost before = out@;
    let mut i: usize = 0;
    while i < 64
        invariant
            0 <= i <= 64,
            out@.len() == before.len(),
            before.len() >= 64,
            forall|k: int| 0 <= k < i ==> out@[k] == digest@[k],
            forall|k: int| i <= k < out@.len() ==> out@[k] == before[k],
        decreases 64 - i,
    {
        out[i] = digest[i];
        i += 1;
    }
    assert(out@.subrange(0, 64) =~= digest@);
    assert(out@.subrange(64, before.len() as int) =~= before.subrange(64, before.len() as int));
}

/// The key-derivation function: fills `out` with the SHAKE-256 output for
/// the first `inlen` bytes of `in_data`.
pub fn kdf(out: &mut [u8], in_data: &[u8], inlen: usize)
    requires
        inlen <= in_data@.len(),
    ensures
        final(out)@ == shake256(in_data@.subrange(0, inlen as int), old(out)@.len()),
{
    let n: usize = out.len();
    let bytes = shake256_xof(slice_subrange(in_data, 0, inlen), n);
    let mut i: usize = 0;
    while i < n
        invariant
            0 <= i <= n,
            out@.len() == n,
            bytes@.len() == n,
            forall|k: int| 0 <= k < i ==> out@[k] == bytes@[k],
        decreases n - i,
    {
        out[i] = bytes[i];
        i += 1;
    }
    assert(out@ =~= bytes@);
}

/// Compares the first `len` bytes of two arrays in constant time: every byte
/// is read, whatever the bytes before it were. Returns 0 if they are equal
/// and 1 if they are not.
pub fn verify(a: &[u8], b: &[u8], len: usize) -> (r: i32)
    requires
        len <= a@.len(),
        len <= b@.len(),
    ensures
        r == 0 || r == 1,
        r == 0 <==> a@.subrange(0, len as int) == b@.subrange(0, len as int),
{
    let mut acc: u8 = 0;
    let mut i: usize = 0;
    while i < len
        invariant
            0 <= i <= len,
            len <= a@.len(),
            len <= b@.len(),
            acc == 0 <==> forall|k: int| 0 <= k < i ==> a@[k] == b@[k],
        decreases len - i,
    {
        let x: u8 = a[i];
        let y: u8 = b[i];
        let next: u8 = acc | (x ^ y);
        proof {
            assert(next == 0 <==> (acc == 0 && x == y)) by (bit_vector)
                requires
                    next == acc | (x ^ y),
            ;
        }
        acc = next;
        i += 1;
    }
    let wide: u64 = acc as u64;
    let neg: u64 = 0u64.wrapping_sub(wide);
    let flag: u64 = neg >> 63;
    proof {
        assert(wide == 0 ==> neg == 0);
        assert(wide != 0 ==> neg >= 0x8000_0000_0000_0000);
        assert(flag == if neg == 0 { 0u64 } else { 1u64 }) by (bit_vector)
            requires
                neg == 0 || neg >= 0x8000_0000_0000_0000,
                flag == neg >> 63,
        ;
        if acc == 0 {
            assert(a@.subrange(0, len as int) =~= b@.subrange(0, len as int));
        } else {
            let k = choose|k: int| 0 <= k < len && a@[k] != b@[k];
            assert(a@.subrange(0, len as int)[k] != b@.subrange(0, len as int)[k]);
        }
    }
    flag as i32
}

/// Copies the first `len` bytes of `x` to `r` if `b` is 1, and leaves `r` as
/// it is if `b` is 0. The choice is made with a mask computed from `b`, the
/// same operations run either way.
pub fn cmov(r: &mut [u8], x: &[u8], len: usize, b: u8)
    requires
        len <= old(r)@.len(),
        len <= x@.len(),
        b <= 1,
    ensures
        final(r)@.len() == old(r)@.len(),
        b == 1 ==> final(r)@ == x@.subrange(0, len as int) + old(r)@.subrange(
            len as int,
            old(r)@.len() as int,
        ),
        b == 0 ==> final(r)@ == old(r)@,
{
    let mask: u8 = 0u8.wrapping_sub(b);
    let ghost before = r@;
    let mut i: usize = 0;
    while i < len
        invariant
            0 <= i <= len,
            len <= x@.len(),
            len <= before.len(),
            r@.len() == before.len(),
            b <= 1,
            mask == if b == 1 { 255u8 } else { 0u8 },
            forall|k: int| 0 <= k < i ==> r@[k] == (if b == 1 { x@[k] } else { before[k] }),
            forall|k: int| i <= k < r@.len() ==> r@[k] == before[k],
        decreases len - i,
    {
        let old_byte: u8 = r[i];
        let src: u8 = x[i];
        let next: u8 = old_byte ^ (mask & (old_byte ^ src));
        proof {
            assert(next == if b == 1 { src } else { old_byte }) by (bit_vector)
                requires
                    b <= 1,
                    mask == if b == 1 { 255u8 } else { 0u8 },
                    next == old_byte ^ (mask & (old_byte ^ src)),
            ;
        }
        r[i] = next;
        i += 1;
    }
    proof {
        if b == 1 {
            assert(r@ =~= x@.subrange(0, len as int) + before.subrange(
                len as int,
                before.len() as int,
            ));
        } else {
            assert(r@ =~= before);
        }
    }
}

} // verus!
