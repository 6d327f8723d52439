//! The two extendable-output functions: SHAKE-128 expands the public seed
//! into the matrix, SHAKE-256 expands a secret seed into noise.

use vstd::prelude::*;
use sha3::digest::ExtendableOutput;
use sha3::{Shake128, Shake256};

verus! {

/// The number of bytes in one block of SHAKE-128 output.
pub const XOF_BLOCKBYTES: usize = 168;

/// The first `outlen` bytes of the SHAKE-128 output for `input`.
pub uninterp spec fn shake128(input: Seq<u8>, outlen: nat) -> Seq<u8>;

/// The first `outlen` bytes of the SHAKE-256 output for `input`.
pub uninterp spec fn shake256(input: Seq<u8>, outlen: nat) -> Seq<u8>;

/// Calls `Shake128::digest_xof` of the crate sha3, which absorbs `input` and
/// fills the buffer it is given with output. Claimed and not proved: the
/// `outlen` bytes returned are a function of `input` and `outlen` alone.
#[verifier::external_body]
pub(crate) fn shake128_xof(input: &[u8], outlen: usize) -> (out: Vec<u8>)
    ensures
        out@ == shake128(input@, outlen as nat),
        out@.len() == outlen,
{
    let mut out = vec![0u8; outlen];
    Shake128::digest_xof(input, &mut out);
    out
}

/// Calls `Shake256::digest_xof` of the crate sha3, which absorbs `input` and
/// fills the buffer it is given with output. Claimed and not proved: the
/// `outlen` bytes returned are a function of `input` and `outlen` alone.
#[verifier::external_body]
pub(crate) fn shake256_xof(input: &[u8], outlen: usize) -> (out: Vec<u8>)
    ensures
        out@ == shake256(input@, outlen as nat),
        out@.len() == outlen,
{
    let mut out = vec![0u8; outlen];
    Shake256::digest_xof(input, &mut out);
    out
}

/// What has been absorbed for one matrix entry: the public seed and the two
/// coordinate bytes.
pub struct XofState {
    input: [u8; 34],
    absorbed: bool,
}

impl XofState {
    /// The bytes absorbed: the seed, then the two coordinates.
    pub closed spec fn input(&self) -> Seq<u8> {
        self.input@
    }

    /// Whether `xof_absorb` has been called on this state.
    pub closed spec fn absorbed(&self) -> bool {
        self.absorbed
    }

    /// A state that has absorbed nothing.
    pub fn new() -> (s: XofState)
        ensures
            !s.absorbed(),
    {
        XofState { input: [0u8;34], absorbed: false }
    }
}

/// Absorbs the seed and the two coordinate bytes, in this order.
pub fn xof_absorb(state: &mut XofState, seed: &[u8; 32], x: u8, y: u8)
    ensures
        final(state).absorbed(),
        final(state).input() == seed@ + seq![x, y],
{
    let mut i: usize = 0;
    while i < 32
        invariant
            0 <= i <= 32,
            forall|k: int| 0 <= k < i ==> state.input@[k] == seed@[k],
        decreases 32 - i,
    {
        state.input[i] = seed[i];
        i += 1;
    }
    state.input[32] = x;
    state.input[33] = y;
    state.absorbed = true;
    assert(state.input@ =~= seed@ + seq![x, y]);
}

/// Writes the first `nblocks` blocks of output to the front of `out`. Each
/// call starts at the beginning of the output, so a longer prefix is had by
/// asking for more blocks.
pub fn xof_squeezeblocks(out: &mut [u8], nblocks: usize, state: &mut XofState)
    requires
        old(state).absorbed(),
        nblocks * 168 <= old(out)@.len(),
    ensures
        *final(state) == *old(state),
        final(out)@.len() == old(out)@.len(),
        final(out)@.subrange(0, nblocks * 168) == shake128(
            old(state).input(),
            (nblocks * 168) as nat,
        ),
        final(out)@.subrange(nblocks * 168, old(out)@.len() as int) == old(out)@.subrange(
            nblocks * 168,
            old(out)@.len() as int,
        ),
{
    let total: usize = out.len();
    assert(nblocks * XOF_BLOCKBYTES <= total);
    let n: usize = nblocks * XOF_BLOCKBYTES;
    let bytes = shake128_xof(&state.input, n);
    let ghost before = out@;
    let mut i: usize = 0;
    while i < n
        invariant
            0 <= i <= n,
            n <= out@.len(),
            out@.len() == before.len(),
            bytes@.len() == n,
            forall|k: int| 0 <= k < i ==> out@[k] == bytes@[k],
            forall|k: int| i <= k < out@.len() ==> out@[k] == before[k],
        decreases n - i,
    {
        out[i] = bytes[i];
        i += 1;
    }
    assert(out@.subrange(0, n as int) =~= bytes@);
    assert(out@.subrange(n as int, before.len() as int) =~= before.subrange(
        n as int,
        before.len() as int,
    ));
}

/// The pseudorandom function: SHAKE-256 of the key followed by the nonce,
/// as many bytes as `out` holds.
pub fn prf(out: &mut [u8], key: &[u8; 32], nonce: u8)
    ensures
        final(out)@ == shake256(key@ + seq![nonce], old(out)@.len()),
{
    let mut extkey = [0u8;33];
    let mut i: usize = 0;
    while i < 32
        invariant
            0 <= i <= 32,
            forall|k: int| 0 <= k < i ==> extkey@[k] == key@[k],
        decreases 32 - i,
    {
        extkey[i] = key[i];
        i += 1;
    }
    extkey[32] = nonce;
    assert(extkey@ =~= key@ + seq![nonce]);
    let n: usize = out.len();
    let bytes = shake256_xof(&extkey, n);
    let mut i: usize = 0;
    while i < n
        invariant
            0 <= i <= n,
            out@.len() == n,
            bytes@.len() == n,
            forall|k: int| 0 <= k < i ==> out@[k] == bytes@[k],
        decreases n - i,
    {
        out[i] = bytes[i];
        i += 1;
    }
    assert(out@ =~= bytes@);
}

} // verus!
