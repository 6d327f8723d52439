//! The public-key encryption primitive: key generation, encryption and
//! decryption, with the byte layouts of keys and ciphertexts and the
//! expansion of the public seed into the matrix.

use vstd::prelude::*;
use crate::params::{INDCPA_BYTES, INDCPA_MSGBYTES, INDCPA_PUBLICKEYBYTES, INDCPA_SECRETKEYBYTES,
    K, N, POLYCOMPRESSEDBYTES, POLYVECBYTES, POLYVECCOMPRESSEDBYTES, SYMBYTES};
use crate::poly::{canonical, poly_add, poly_add_spec, poly_compress, poly_compress_spec,
    poly_csubq_spec, poly_decompress, poly_decompress_spec, poly_frommsg, poly_frommsg_spec,
    poly_getnoise_eta1, poly_getnoise_eta2, poly_getnoise_spec, poly_invntt_tomont, poly_reduce,
    poly_reduce_spec, poly_sub, poly_sub_spec, poly_tomont, poly_tomont_spec, poly_tomsg,
    poly_tomsg_spec, Poly};
use crate::polyvec::{lemma_polyvec_frombytes_tobytes, polyvec_canonical, polyvec_add,
    polyvec_add_spec, polyvec_compress, polyvec_compress_spec,
    polyvec_csubq_spec, polyvec_decompress, polyvec_decompress_spec, polyvec_frombytes,
    polyvec_frombytes_spec, polyvec_invntt_spec, polyvec_invntt_tomont, polyvec_ntt,
    polyvec_ntt_spec, polyvec_pointwise_acc_montgomery, polyvec_pointwise_acc_spec,
    polyvec_reduce, polyvec_reduce_spec, polyvec_tobytes, polyvec_tobytes_spec, PolyVec};
use crate::ntt::invntt_spec;
use crate::symmetric::{shake128, xof_absorb, xof_squeezeblocks, XofState};
use crate::hash::randombytes;

verus! {

/// The number of blocks squeezed for a matrix entry before the first
/// rejection sampling.
pub const GEN_MATRIX_NBLOCKS: usize = 3;

/// The largest number of blocks squeezed for one matrix entry.
pub const GEN_MATRIX_MAXBLOCKS: usize = 8;

/// Serializes the public key: the serialized vector, then the public seed.
pub fn pack_pk(r: &mut [u8; INDCPA_PUBLICKEYBYTES], pk: &mut PolyVec, seed: &[u8; SYMBYTES])
    requires
        old(pk).wf(),
    ensures
        final(pk).wf(),
        final(pk)@ == polyvec_csubq_spec(old(pk)@),
        final(r)@ == polyvec_tobytes_spec(old(pk)@) + seed@,
{
    let mut bytes = [0u8;POLYVECBYTES];
    polyvec_tobytes(&mut bytes, pk);
    let mut i: usize = 0;
    while i < POLYVECBYTES
        invariant
            0 <= i <= 1152,
            forall|k: int| 0 <= k < i ==> r@[k] == bytes@[k],
        decreases 1152 - i,
    {
        r[i] = bytes[i];
        i += 1;
    }
    let mut i: usize = 0;
    while i < SYMBYTES
        invariant
            0 <= i <= 32,
            forall|k: int| 0 <= k < 1152 ==> r@[k] == bytes@[k],
            forall|k: int| 0 <= k < i ==> r@[1152 + k] == seed@[k],
        decreases 32 - i,
    {
        r[i + POLYVECBYTES] = seed[i];
        i += 1;
    }
    assert(r@ =~= bytes@ + seed@);
}

/// Deserializes the public key: the inverse of `pack_pk`.
pub fn unpack_pk(
    pk: &mut PolyVec,
    seed: &mut [u8; SYMBYTES],
    packedpk: &[u8; INDCPA_PUBLICKEYBYTES],
)
    requires
        old(pk).wf(),
    ensures
        final(pk).wf(),
        final(pk)@ == polyvec_frombytes_spec(packedpk@.subrange(0, 1152)),
        final(seed)@ == packedpk@.subrange(1152, 1184),
{
    let mut bytes = [0u8;POLYVECBYTES];
    let mut i: usize = 0;
    while i < POLYVECBYTES
        invariant
            0 <= i <= 1152,
            forall|k: int| 0 <= k < i ==> bytes@[k] == packedpk@[k],
        decreases 1152 - i,
    {
        bytes[i] = packedpk[i];
        i += 1;
    }
    assert(bytes@ =~= packedpk@.subrange(0, 1152));
    polyvec_frombytes(pk, &bytes);
    let mut i: usize = 0;
    while i < SYMBYTES
        invariant
            0 <= i <= 32,
            forall|k: int| 0 <= k < i ==> seed@[k] == packedpk@[1152 + k],
        decreases 32 - i,
    {
        seed[i] = packedpk[i + POLYVECBYTES];
        i += 1;
    }
    assert(seed@ =~= packedpk@.subrange(1152, 1184));
}

/// Serializes the secret key.
pub fn pack_sk(r: &mut [u8; INDCPA_SECRETKEYBYTES], sk: &mut PolyVec)
    requires
        old(sk).wf(),
    ensures
        final(sk).wf(),
        final(sk)@ == polyvec_csubq_spec(old(sk)@),
        final(r)@ == polyvec_tobytes_spec(old(sk)@),
{
    polyvec_tobytes(r, sk);
}

/// Deserializes the secret key: the inverse of `pack_sk`.
pub fn unpack_sk(sk: &mut PolyVec, packedsk: &[u8; INDCPA_SECRETKEYBYTES])
    requires
        old(sk).wf(),
    ensures
        final(sk).wf(),
        final(sk)@ == polyvec_frombytes_spec(packedsk@),
{
    polyvec_frombytes(sk, packedsk);
}

/// Serializes the ciphertext: the compressed vector `b`, then the compressed
/// polynomial `v`.
pub fn pack_ciphertext(r: &mut [u8; INDCPA_BYTES], b: &mut PolyVec, v: &mut Poly)
    requires
        old(b).wf(),
    ensures
        final(b).wf(),
        final(b)@ == polyvec_csubq_spec(old(b)@),
        final(v)@ == poly_csubq_spec(old(v)@),
        final(r)@ == polyvec_compress_spec(old(b)@) + poly_compress_spec(old(v)@),
{
    let mut first = [0u8;POLYVECCOMPRESSEDBYTES];
    let mut second = [0u8;POLYCOMPRESSEDBYTES];
    polyvec_compress(&mut first, b);
    poly_compress(&mut second, v);
    let mut i: usize = 0;
    while i < POLYVECCOMPRESSEDBYTES
        invariant
            0 <= i <= 960,
            forall|k: int| 0 <= k < i ==> r@[k] == first@[k],
        decreases 960 - i,
    {
        r[i] = first[i];
        i += 1;
    }
    let mut i: usize = 0;
    while i < POLYCOMPRESSEDBYTES
        invariant
            0 <= i <= 128,
            forall|k: int| 0 <= k < 960 ==> r@[k] == first@[k],
            forall|k: int| 0 <= k < i ==> r@[960 + k] == second@[k],
        decreases 128 - i,
    {
        r[POLYVECCOMPRESSEDBYTES + i] = second[i];
        i += 1;
    }
    assert(r@ =~= first@ + second@);
}

/// Deserializes and decompresses the ciphertext: the approximate inverse of
/// `pack_ciphertext`.
pub fn unpack_ciphertext(b: &mut PolyVec, v: &mut Poly, c: &[u8; INDCPA_BYTES])
    requires
        old(b).wf(),
    ensures
        final(b).wf(),
        final(b)@ == polyvec_decompress_spec(c@.subrange(0, 960)),
        final(v)@ == poly_decompress_spec(c@.subrange(960, 1088)),
{
    let mut first = [0u8;POLYVECCOMPRESSEDBYTES];
    let mut second = [0u8;POLYCOMPRESSEDBYTES];
    let mut i: usize = 0;
    while i < POLYVECCOMPRESSEDBYTES
        invariant
            0 <= i <= 960,
            forall|k: int| 0 <= k < i ==> first@[k] == c@[k],
        decreases 960 - i,
    {
        first[i] = c[i];
        i += 1;
    }
    let mut i: usize = 0;
    while i < POLYCOMPRESSEDBYTES
        invariant
            0 <= i <= 128,
            forall|k: int| 0 <= k < i ==> second@[k] == c@[960 + k],
        decreases 128 - i,
    {
        second[i] = c[POLYVECCOMPRESSEDBYTES + i];
        i += 1;
    }
    assert(first@ =~= c@.subrange(0, 960));
    assert(second@ =~= c@.subrange(960, 1088));
    polyvec_decompress(b, &first);
    poly_decompress(v, &second);
}

/// The first candidate of the group of three bytes `g`: twelve bits.
pub open spec fn rej_val0(buf: Seq<u8>, g: int) -> int {
    buf[3 * g] + 256 * (buf[3 * g + 1] as int % 16)
}

/// The second candidate of the group of three bytes `g`: twelve bits.
pub open spec fn rej_val1(buf: Seq<u8>, g: int) -> int {
    buf[3 * g + 1] as int / 16 + 16 * buf[3 * g + 2]
}

/// The candidates below `q` among those of the first `groups` groups of
/// three bytes, in the order in which they stand.
pub open spec fn rej_seq(buf: Seq<u8>, groups: int) -> Seq<i16>
    decreases groups,
{
    if groups <= 0 {
        Seq::empty()
    } else {
        let prev = rej_seq(buf, groups - 1);
        let v0 = rej_val0(buf, groups - 1);
        let v1 = rej_val1(buf, groups - 1);
        let with0 = if v0 < 3329 {
            prev.push(v0 as i16)
        } else {
            prev
        };
        if v1 < 3329 {
            with0.push(v1 as i16)
        } else {
            with0
        }
    }
}

/// Every accepted candidate lies in `[0, q)`.
pub proof fn lemma_rej_seq_range(buf: Seq<u8>, groups: int)
    ensures
        forall|k: int| 0 <= k < rej_seq(buf, groups).len() ==> 0 <= #[trigger] rej_seq(
            buf,
            groups,
        )[k] < 3329,
    decreases groups,
{
    if groups > 0 {
        lemma_rej_seq_range(buf, groups - 1);
        let prev = rej_seq(buf, groups - 1);
        let v0 = rej_val0(buf, groups - 1);
        let v1 = rej_val1(buf, groups - 1);
        let with0 = if v0 < 3329 {
            prev.push(v0 as i16)
        } else {
            prev
        };
        assert(0 <= v0 && 0 <= v1);
        assert forall|k: int| 0 <= k < with0.len() implies 0 <= #[trigger] with0[k] < 3329 by {
            if k < prev.len() {
                assert(with0[k] == prev[k]);
            }
        }
        assert forall|k: int| 0 <= k < rej_seq(buf, groups).len() implies 0 <= #[trigger] rej_seq(
            buf,
            groups,
        )[k] < 3329 by {
            if k < with0.len() {
                assert(rej_seq(buf, groups)[k] == with0[k]);
            }
        }
    }
}

/// What is accepted from fewer groups is a prefix of what is accepted from
/// more.
pub proof fn lemma_rej_seq_prefix(buf: Seq<u8>, g: int, groups: int)
    requires
        0 <= g <= groups,
    ensures
        rej_seq(buf, g).len() <= rej_seq(buf, groups).len(),
        forall|k: int| 0 <= k < rej_seq(buf, g).len() ==> rej_seq(buf, g)[k] == rej_seq(
            buf,
            groups,
        )[k],
    decreases groups,
{
    if g < groups {
        lemma_rej_seq_prefix(buf, g, groups - 1);
    }
}

/// What is accepted depends on the bytes of the groups read alone.
pub proof fn lemma_rej_seq_agree(a: Seq<u8>, b: Seq<u8>, groups: int)
    requires
        0 <= groups,
        3 * groups <= a.len(),
        3 * groups <= b.len(),
        forall|k: int| 0 <= k < 3 * groups ==> a[k] == b[k],
    ensures
        rej_seq(a, groups) == rej_seq(b, groups),
    decreases groups,
{
    if groups > 0 {
        lemma_rej_seq_agree(a, b, groups - 1);
    }
}

/// Rejection sampling on uniformly random bytes: reads the first `buflen`
/// bytes of `buf` in groups of three, takes two candidates of twelve bits
/// from each group, and writes those below `q` to `r` until `len` are
/// written or no whole group is left. Returns how many were written.
pub fn rej_uniform(r: &mut [i16], len: usize, buf: &[u8], buflen: usize) -> (ctr: usize)
    requires
        len <= old(r)@.len(),
        buflen <= buf@.len(),
    ensures
        final(r)@.len() == old(r)@.len(),
        ctr <= len,
        ctr == len || ctr == rej_seq(buf@, buflen as int / 3).len(),
        ctr <= rej_seq(buf@, buflen as int / 3).len(),
        forall|k: int| 0 <= k < ctr ==> final(r)@[k] == rej_seq(buf@, buflen as int / 3)[k],
        forall|k: int| 0 <= k < ctr ==> 0 <= #[trigger] final(r)@[k] < 3329,
        forall|k: int| ctr <= k < old(r)@.len() ==> final(r)@[k] == old(r)@[k],
{
    let ghost before = r@;
    let ghost mut g: int = 0;
    let mut ctr: usize = 0;
    let mut pos: usize = 0;
    while ctr < len && buflen - pos >= 3
        invariant
            0 <= ctr <= len,
            len <= before.len(),
            r@.len() == before.len(),
            buflen <= buf@.len(),
            pos == 3 * g,
            pos <= buflen,
            0 <= g <= buflen as int / 3,
            ctr == len || ctr == rej_seq(buf@, g).len(),
            ctr <= rej_seq(buf@, g).len(),
            forall|k: int| 0 <= k < ctr ==> r@[k] == rej_seq(buf@, g)[k],
            forall|k: int| ctr <= k < before.len() ==> r@[k] == before[k],
        decreases buflen - pos,
    {
        let b0: u16 = buf[pos] as u16;
        let b1: u16 = buf[pos + 1] as u16;
        let b2: u16 = buf[pos + 2] as u16;
        let val0: u16 = (b0 | (b1 << 8)) & 0xfff;
        let val1: u16 = ((b1 >> 4) | (b2 << 4)) & 0xfff;
        proof {
            assert(val0 == b0 + 256 * (b1 % 16) && val1 == b1 / 16 + 16 * b2 && val0 < 4096 && val1
                < 4096) by (bit_vector)
                requires
                    b0 < 256,
                    b1 < 256,
                    b2 < 256,
                    val0 == (b0 | (b1 << 8)) & 0xfff,
                    val1 == ((b1 >> 4) | (b2 << 4)) & 0xfff,
            ;
            assert(val0 as int == rej_val0(buf@, g));
            assert(val1 as int == rej_val1(buf@, g));
        }
        pos += 3;
        if val0 < 3329 {
            r[ctr] = val0 as i16;
            ctr += 1;
        }
        if ctr < len && val1 < 3329 {
            r[ctr] = val1 as i16;
            ctr += 1;
        }
        proof {
            g = g + 1;
        }
    }
    proof {
        lemma_rej_seq_prefix(buf@, g, buflen as int / 3);
        lemma_rej_seq_range(buf@, buflen as int / 3);
    }
    ctr
}

/// What the extendable-output function absorbs for one matrix entry: the
/// public seed, then the two coordinate bytes.
pub open spec fn xof_input(seed: Seq<u8>, x: u8, y: u8) -> Seq<u8> {
    seed + seq![x, y]
}

/// The candidates accepted from the first `n` blocks of output.
pub open spec fn accepted(input: Seq<u8>, n: nat) -> Seq<i16> {
    rej_seq(shake128(input, 168 * n), 56 * n as int)
}

/// The number of blocks from which a matrix entry is sampled, counted from
/// `n`: the least number of blocks that holds 256 candidates below `q`, and
/// `GEN_MATRIX_MAXBLOCKS` if no smaller number does.
pub open spec fn matrix_blocks(input: Seq<u8>, n: nat) -> nat
    decreases 8 - n,
{
    if n >= 8 || accepted(input, n).len() >= 256 {
        n
    } else {
        matrix_blocks(input, n + 1)
    }
}

/// The matrix entry with coordinate bytes `x` and `y`: the first 256
/// candidates below `q` in the output for the seed and the coordinates.
/// Should `GEN_MATRIX_MAXBLOCKS` blocks hold fewer, zeros follow them; of
/// the 896 candidates of eight blocks fewer than 256 are below `q` with a
/// probability under `2^-800`.
pub open spec fn matrix_entry_spec(seed: Seq<u8>, x: u8, y: u8) -> Seq<i16> {
    let input = xof_input(seed, x, y);
    let acc = accepted(input, matrix_blocks(input, 3));
    Seq::new(
        256,
        |n: int|
            if n < acc.len() {
                acc[n]
            } else {
                0i16
            },
    )
}

/// The matrix that a public seed expands to, as rows of polynomials: entry
/// `(i, j)` has coordinate bytes `(j, i)`, and `(i, j)` where the transpose
/// is asked for.
pub open spec fn gen_matrix_spec(seed: Seq<u8>, transposed: bool) -> Seq<Seq<Seq<i16>>> {
    Seq::new(
        3,
        |i: int|
            Seq::new(
                3,
                |j: int|
                    if transposed {
                        matrix_entry_spec(seed, i as u8, j as u8)
                    } else {
                        matrix_entry_spec(seed, j as u8, i as u8)
                    },
            ),
    )
}

/// The matrix asked for as the transpose is the transpose of the matrix:
/// its entry `(i, j)` is the entry `(j, i)` of the other.
pub proof fn lemma_gen_matrix_transposed(seed: Seq<u8>, i: int, j: int)
    requires
        0 <= i < 3,
        0 <= j < 3,
    ensures
        gen_matrix_spec(seed, true)[i][j] == gen_matrix_spec(seed, false)[j][i],
{
}

/// The rows of a matrix, each as a sequence of polynomials.
pub open spec fn matrix_view(a: Seq<PolyVec>) -> Seq<Seq<Seq<i16>>> {
    Seq::new(a.len(), |i: int| a[i]@)
}

/// Every row of the matrix holds as many polynomials as the module rank.
pub open spec fn matrix_wf(a: Seq<PolyVec>) -> bool {
    a.len() == 3 && forall|i: int| 0 <= i < 3 ==> (#[trigger] a[i]).wf()
}

/// Samples the matrix entry with coordinate bytes `x` and `y`.
fn sample_entry(seed: &[u8; SYMBYTES], x: u8, y: u8) -> (p: Poly)
    ensures
        p@ == matrix_entry_spec(seed@, x, y),
        canonical(p@),
{
    let ghost input = xof_input(seed@, x, y);
    let mut state = XofState::new();
    xof_absorb(&mut state, seed, x, y);
    let mut buf = [0u8;1344];
    let mut nblocks: usize = GEN_MATRIX_NBLOCKS;
    let mut p = Poly::new();
    xof_squeezeblocks(&mut buf, nblocks, &mut state);
    let mut ctr: usize = rej_uniform(&mut p.coeffs, N, &buf, nblocks * 168);
    proof {
        let stream = shake128(input, (168 * nblocks) as nat);
        assert(stream == buf@.subrange(0, 168 * nblocks));
        assert forall|k: int| 0 <= k < 168 * nblocks implies buf@[k] == stream[k] by {
            assert(buf@.subrange(0, 168 * nblocks)[k] == buf@[k]);
        }
        lemma_rej_seq_agree(buf@, stream, 56 * nblocks);
    }
    while ctr < N && nblocks < GEN_MATRIX_MAXBLOCKS
        invariant
            3 <= nblocks <= 8,
            ctr <= 256,
            state.absorbed(),
            state.input() == input,
            matrix_blocks(input, nblocks as nat) == matrix_blocks(input, 3),
            ctr == 256 || ctr == accepted(input, nblocks as nat).len(),
            ctr <= accepted(input, nblocks as nat).len(),
            forall|k: int| 0 <= k < ctr ==> p.coeffs@[k] == accepted(input, nblocks as nat)[k],
            forall|k: int| ctr <= k < 256 ==> p.coeffs@[k] == 0,
        decreases 8 - nblocks,
    {
        nblocks += 1;
        p = Poly::new();
        xof_squeezeblocks(&mut buf, nblocks, &mut state);
        ctr = rej_uniform(&mut p.coeffs, N, &buf, nblocks * 168);
        proof {
            let stream = shake128(input, (168 * nblocks) as nat);
            assert(stream == buf@.subrange(0, 168 * nblocks));
            assert forall|k: int| 0 <= k < 168 * nblocks implies buf@[k] == stream[k] by {
                assert(buf@.subrange(0, 168 * nblocks)[k] == buf@[k]);
            }
            lemma_rej_seq_agree(buf@, stream, 56 * nblocks);
        }
    }
    proof {
        assert(matrix_blocks(input, nblocks as nat) == nblocks);
        lemma_rej_seq_range(shake128(input, (168 * nblocks) as nat), 56 * nblocks);
        assert(p.coeffs@ =~= matrix_entry_spec(seed@, x, y));
    }
    p
}

/// Generates the matrix, or its transpose, from the public seed. Each entry
/// is sampled by rejection from the output of the extendable-output function
/// for the seed and the entry's coordinates.
pub fn gen_matrix(a: &mut Vec<PolyVec>, seed: &[u8; SYMBYTES], transposed: bool)
    requires
        matrix_wf(old(a)@),
    ensures
        matrix_wf(final(a)@),
        matrix_view(final(a)@) == gen_matrix_spec(seed@, transposed),
        forall|i: int, j: int|
            0 <= i < 3 && 0 <= j < 3 ==> canonical(#[trigger] final(a)@[i].vec@[j].coeffs@),
{
    let mut i: usize = 0;
    while i < K
        invariant
            0 <= i <= 3,
            matrix_wf(a@),
            forall|m: int, n: int|
                0 <= m < i && 0 <= n < 3 ==> #[trigger] a@[m].vec@[n].coeffs@ == gen_matrix_spec(
                    seed@,
                    transposed,
                )[m][n],
            forall|m: int, n: int|
                0 <= m < i && 0 <= n < 3 ==> canonical(#[trigger] a@[m].vec@[n].coeffs@),
        decreases 3 - i,
    {
        let mut row = PolyVec::with_len(K);
        let mut j: usize = 0;
        while j < K
            invariant
                0 <= i < 3,
                0 <= j <= 3,
                row.vec@.len() == 3,
                forall|n: int|
                    0 <= n < j ==> #[trigger] row.vec@[n].coeffs@ == gen_matrix_spec(
                        seed@,
                        transposed,
                    )[i as int][n],
                forall|n: int| 0 <= n < j ==> canonical(#[trigger] row.vec@[n].coeffs@),
            decreases 3 - j,
        {
            let p = if transposed {
                sample_entry(seed, i as u8, j as u8)
            } else {
                sample_entry(seed, j as u8, i as u8)
            };
            row.vec[j] = p;
            j += 1;
        }
        a[i] = row;
        i += 1;
    }
    assert(matrix_view(a@) =~= gen_matrix_spec(seed@, transposed)) by {
        assert forall|m: int| 0 <= m < 3 implies matrix_view(a@)[m] =~= gen_matrix_spec(
            seed@,
            transposed,
        )[m] by {
            assert forall|n: int| 0 <= n < 3 implies matrix_view(a@)[m][n] == gen_matrix_spec(
                seed@,
                transposed,
            )[m][n] by {
                assert(a@[m].vec@[n].coeffs@ == gen_matrix_spec(seed@, transposed)[m][n]);
            }
        }
    }
}

/// The noise vector that a seed determines: three noise polynomials, with
/// the nonces `base`, `base + 1` and `base + 2`.
pub open spec fn noise_vec(seed: Seq<u8>, base: u8) -> Seq<Seq<i16>> {
    Seq::new(3, |i: int| poly_getnoise_spec(seed, (base + i) as u8))
}

/// The product of a matrix and a vector in the transform domain: the inner
/// product of each row with the vector.
pub open spec fn matrix_times(a: Seq<Seq<Seq<i16>>>, v: Seq<Seq<i16>>) -> Seq<Seq<i16>> {
    Seq::new(3, |i: int| polyvec_pointwise_acc_spec(a[i], v))
}

/// Each polynomial of a vector converted to the Montgomery domain.
pub open spec fn polyvec_tomont_spec(v: Seq<Seq<i16>>) -> Seq<Seq<i16>> {
    Seq::new(3, |i: int| poly_tomont_spec(v[i]))
}

/// The public vector `t = A s + e` in the transform domain, reduced, for the
/// matrix `A` of the public seed and the secret `s` and the error `e` of the
/// noise seed.
pub open spec fn indcpa_public_vector(publicseed: Seq<u8>, noiseseed: Seq<u8>) -> Seq<Seq<i16>> {
    let a = gen_matrix_spec(publicseed, false);
    let s_hat = polyvec_ntt_spec(noise_vec(noiseseed, 0));
    let e_hat = polyvec_ntt_spec(noise_vec(noiseseed, 3));
    polyvec_reduce_spec(polyvec_add_spec(polyvec_tomont_spec(matrix_times(a, s_hat)), e_hat))
}

/// The public key of the two seeds: the serialized public vector, then the
/// public seed.
pub open spec fn indcpa_pk_spec(publicseed: Seq<u8>, noiseseed: Seq<u8>) -> Seq<u8> {
    polyvec_tobytes_spec(indcpa_public_vector(publicseed, noiseseed)) + publicseed
}

/// The secret key of the noise seed: the serialized secret vector, reduced
/// and not transformed.
pub open spec fn indcpa_sk_spec(noiseseed: Seq<u8>) -> Seq<u8> {
    polyvec_tobytes_spec(polyvec_reduce_spec(noise_vec(noiseseed, 0)))
}

/// The vector `u = A^T r + e1` of an encryption under the public key `pk`,
/// reduced, where `r` and `e1` are the noise of the coins and `A` is the
/// matrix of the public seed in `pk`.
pub open spec fn enc_u_spec(pk: Seq<u8>, coins: Seq<u8>) -> Seq<Seq<i16>> {
    let at = gen_matrix_spec(pk.subrange(1152, 1184), true);
    let r_hat = polyvec_ntt_spec(noise_vec(coins, 0));
    polyvec_reduce_spec(
        polyvec_add_spec(polyvec_invntt_spec(matrix_times(at, r_hat)), noise_vec(coins, 3)),
    )
}

/// The polynomial `v = t r + e2 + m` of the encryption of the message `m`
/// under the public key `pk`, reduced, where `r` and `e2` are the noise of
/// the coins and `t` is the public vector in `pk`.
pub open spec fn enc_v_spec(m: Seq<u8>, pk: Seq<u8>, coins: Seq<u8>) -> Seq<i16> {
    let t = polyvec_frombytes_spec(pk.subrange(0, 1152));
    let r_hat = polyvec_ntt_spec(noise_vec(coins, 0));
    poly_reduce_spec(
        poly_add_spec(
            poly_add_spec(
                invntt_spec(polyvec_pointwise_acc_spec(t, r_hat)),
                poly_getnoise_spec(coins, 6),
            ),
            poly_frommsg_spec(m),
        ),
    )
}

/// The ciphertext of the message `m` under the public key `pk` with the
/// coins `coins`: the compressed `u = A^T r + e1`, then the compressed
/// `v = t r + e2 + m`, where `r`, `e1` and `e2` are the noise of the coins.
pub open spec fn indcpa_enc_spec(m: Seq<u8>, pk: Seq<u8>, coins: Seq<u8>) -> Seq<u8> {
    polyvec_compress_spec(enc_u_spec(pk, coins)) + poly_compress_spec(enc_v_spec(m, pk, coins))
}

/// The polynomial `v - s u` that a decryption decodes, reduced, for the `u`
/// and `v` that the ciphertext `c` decompresses to and the secret vector `s`
/// in `sk`.
pub open spec fn dec_poly_spec(c: Seq<u8>, sk: Seq<u8>) -> Seq<i16> {
    let u_hat = polyvec_ntt_spec(polyvec_decompress_spec(c.subrange(0, 960)));
    let v = poly_decompress_spec(c.subrange(960, 1088));
    let s_hat = polyvec_ntt_spec(polyvec_frombytes_spec(sk));
    let su = invntt_spec(polyvec_pointwise_acc_spec(s_hat, u_hat));
    poly_reduce_spec(poly_sub_spec(v, su))
}

/// The message that the ciphertext `c` decrypts to under the secret key
/// `sk`: the decoding of `v - s u`.
pub open spec fn indcpa_dec_spec(c: Seq<u8>, sk: Seq<u8>) -> Seq<u8> {
    poly_tomsg_spec(dec_poly_spec(c, sk))
}

/// The keys hold their vectors without loss: the secret key deserializes
/// to the secret vector with every coefficient reduced to `[0, q)`, and the
/// public key to the public vector and the public seed.
pub proof fn lemma_keys_decode(publicseed: Seq<u8>, noiseseed: Seq<u8>)
    requires
        publicseed.len() == 32,
    ensures
        polyvec_frombytes_spec(indcpa_sk_spec(noiseseed)) == polyvec_reduce_spec(
            noise_vec(noiseseed, 0),
        ),
        polyvec_frombytes_spec(indcpa_pk_spec(publicseed, noiseseed).subrange(0, 1152))
            == indcpa_public_vector(publicseed, noiseseed),
        indcpa_pk_spec(publicseed, noiseseed).subrange(1152, 1184) == publicseed,
        indcpa_pk_spec(publicseed, noiseseed).len() == 1184,
        indcpa_sk_spec(noiseseed).len() == 1152,
{
    let s = polyvec_reduce_spec(noise_vec(noiseseed, 0));
    let t = indcpa_public_vector(publicseed, noiseseed);
    assert(polyvec_canonical(s)) by {
        assert forall|k: int| 0 <= k < 3 implies canonical(#[trigger] s[k]) by {
            assert(s[k] == poly_reduce_spec(noise_vec(noiseseed, 0)[k]));
        }
    }
    assert(polyvec_canonical(t)) by {
        let sum = polyvec_add_spec(
            polyvec_tomont_spec(
                matrix_times(
                    gen_matrix_spec(publicseed, false),
                    polyvec_ntt_spec(noise_vec(noiseseed, 0)),
                ),
            ),
            polyvec_ntt_spec(noise_vec(noiseseed, 3)),
        );
        assert forall|k: int| 0 <= k < 3 implies canonical(#[trigger] t[k]) by {
            assert(t[k] == poly_reduce_spec(sum[k]));
        }
    }
    lemma_polyvec_frombytes_tobytes(s);
    lemma_polyvec_frombytes_tobytes(t);
    let pk = indcpa_pk_spec(publicseed, noiseseed);
    assert(pk.subrange(0, 1152) =~= polyvec_tobytes_spec(t));
    assert(pk.subrange(1152, 1184) =~= publicseed);
}

/// A copy of a vector.
fn polyvec_copy(a: &PolyVec) -> (r: PolyVec)
    requires
        a.wf(),
    ensures
        r.wf(),
        r@ == a@,
{
    let mut r = PolyVec::with_len(K);
    let mut i: usize = 0;
    while i < K
        invariant
            0 <= i <= 3,
            a.vec@.len() == 3,
            r.vec@.len() == 3,
            forall|k: int| 0 <= k < i ==> r.vec@[k].coeffs@ == a.vec@[k].coeffs@,
        decreases 3 - i,
    {
        r.vec[i] = a.vec[i];
        i += 1;
    }
    assert(r@ =~= a@);
    r
}

/// A matrix of zero polynomials.
fn zero_matrix() -> (a: Vec<PolyVec>)
    ensures
        matrix_wf(a@),
{
    let mut a: Vec<PolyVec> = Vec::new();
    let mut i: usize = 0;
    while i < K
        invariant
            0 <= i <= 3,
            a@.len() == i,
            forall|k: int| 0 <= k < i ==> (#[trigger] a@[k]).wf(),
        decreases 3 - i,
    {
        a.push(PolyVec::with_len(K));
        i += 1;
    }
    a
}

/// Samples the three noise polynomials with the nonces `base`, `base + 1`
/// and `base + 2`.
fn sample_noise_vec(v: &mut PolyVec, seed: &[u8; SYMBYTES], base: u8)
    requires
        old(v).wf(),
        base <= 252,
    ensures
        final(v).wf(),
        final(v)@ == noise_vec(seed@, base),
{
    let mut nonce: u8 = base;
    let mut i: usize = 0;
    while i < K
        invariant
            0 <= i <= 3,
            base <= 252,
            nonce == base + i,
            v.vec@.len() == 3,
            forall|k: int|
                0 <= k < i ==> v.vec@[k].coeffs@ == poly_getnoise_spec(seed@, (base + k) as u8),
        decreases 3 - i,
    {
        poly_getnoise_eta1(&mut v.vec[i], seed, nonce);
        nonce += 1;
        i += 1;
    }
    assert(v@ =~= noise_vec(seed@, base));
}

/// Multiplies a matrix by a vector in the transform domain.
fn matrix_vector(r: &mut PolyVec, a: &Vec<PolyVec>, v: &PolyVec)
    requires
        old(r).wf(),
        matrix_wf(a@),
        v.wf(),
    ensures
        final(r).wf(),
        final(r)@ == matrix_times(matrix_view(a@), v@),
{
    let mut i: usize = 0;
    while i < K
        invariant
            0 <= i <= 3,
            r.vec@.len() == 3,
            matrix_wf(a@),
            v.wf(),
            forall|k: int|
                0 <= k < i ==> r.vec@[k].coeffs@ == polyvec_pointwise_acc_spec(a@[k]@, v@),
        decreases 3 - i,
    {
        polyvec_pointwise_acc_montgomery(&mut r.vec[i], &a[i], v);
        i += 1;
    }
    assert(r@ =~= matrix_times(matrix_view(a@), v@));
}

/// Converts each polynomial of a vector to the Montgomery domain.
fn polyvec_tomont(r: &mut PolyVec)
    requires
        old(r).wf(),
    ensures
        final(r).wf(),
        final(r)@ == polyvec_tomont_spec(old(r)@),
{
    let ghost v = r@;
    let mut i: usize = 0;
    while i < K
        invariant
            0 <= i <= 3,
            r.vec@.len() == 3,
            v.len() == 3,
            forall|k: int| 0 <= k < i ==> r.vec@[k].coeffs@ == poly_tomont_spec(v[k]),
            forall|k: int| i <= k < 3 ==> r.vec@[k].coeffs@ == v[k],
        decreases 3 - i,
    {
        poly_tomont(&mut r.vec[i]);
        i += 1;
    }
    assert(r@ =~= polyvec_tomont_spec(v));
}

/// Generates the key pair that a public seed and a noise seed determine.
pub fn indcpa_keypair_derand(
    pk: &mut [u8; INDCPA_PUBLICKEYBYTES],
    sk: &mut [u8; INDCPA_SECRETKEYBYTES],
    publicseed: &[u8; SYMBYTES],
    noiseseed: &[u8; SYMBYTES],
)
    ensures
        final(pk)@ == indcpa_pk_spec(publicseed@, noiseseed@),
        final(sk)@ == indcpa_sk_spec(noiseseed@),
{
    let mut a = zero_matrix();
    gen_matrix(&mut a, publicseed, false);
    let mut e = PolyVec::with_len(K);
    let mut pkpv = PolyVec::with_len(K);
    let mut skpv = PolyVec::with_len(K);
    sample_noise_vec(&mut skpv, noiseseed, 0);
    sample_noise_vec(&mut e, noiseseed, 3);
    let mut skpv_ntt = polyvec_copy(&skpv);
    polyvec_ntt(&mut skpv_ntt);
    polyvec_ntt(&mut e);
    matrix_vector(&mut pkpv, &a, &skpv_ntt);
    polyvec_tomont(&mut pkpv);
    let product = polyvec_copy(&pkpv);
    polyvec_add(&mut pkpv, &product, &e);
    polyvec_reduce(&mut pkpv);
    polyvec_reduce(&mut skpv);
    pack_sk(sk, &mut skpv);
    pack_pk(pk, &mut pkpv, publicseed);
}

/// Generates a key pair from two seeds of 32 bytes drawn from the random
/// source. Returns whether the random source gave them; if it did not, the
/// two buffers are left as they were.
pub fn indcpa_keypair(
    pk: &mut [u8; INDCPA_PUBLICKEYBYTES],
    sk: &mut [u8; INDCPA_SECRETKEYBYTES],
) -> (ok: bool)
    ensures
        ok ==> exists|publicseed: Seq<u8>, noiseseed: Seq<u8>|
            #![auto]
            publicseed.len() == 32 && noiseseed.len() == 32 && final(pk)@ == indcpa_pk_spec(
                publicseed,
                noiseseed,
            ) && final(sk)@ == indcpa_sk_spec(noiseseed),
        !ok ==> final(pk)@ == old(pk)@ && final(sk)@ == old(sk)@,
{
    let mut publicseed = [0u8;SYMBYTES];
    let mut noiseseed = [0u8;SYMBYTES];
    if !randombytes(&mut publicseed, SYMBYTES) {
        return false;
    }
    if !randombytes(&mut noiseseed, SYMBYTES) {
        return false;
    }
    indcpa_keypair_derand(pk, sk, &publicseed, &noiseseed);
    true
}

/// Encrypts the message `m` under the public key `pk`. All the randomness
/// of the encryption is derived from `coins`, so equal arguments give equal
/// ciphertexts.
pub fn indcpa_enc(
    c: &mut [u8; INDCPA_BYTES],
    m: &[u8; INDCPA_MSGBYTES],
    pk: &[u8; INDCPA_PUBLICKEYBYTES],
    coins: &[u8; SYMBYTES],
)
    ensures
        final(c)@ == indcpa_enc_spec(m@, pk@, coins@),
{
    let mut seed = [0u8;SYMBYTES];
    let mut sp = PolyVec::with_len(K);
    let mut pkpv = PolyVec::new();
    let mut ep = PolyVec::with_len(K);
    let mut at = zero_matrix();
    let mut bp = PolyVec::with_len(K);
    let mut v = Poly::new();
    let mut k = Poly::new();
    let mut epp = Poly::new();

    unpack_pk(&mut pkpv, &mut seed, pk);
    poly_frommsg(&mut k, m);
    gen_matrix(&mut at, &seed, true);
    sample_noise_vec(&mut sp, coins, 0);
    sample_noise_vec(&mut ep, coins, 3);
    poly_getnoise_eta2(&mut epp, coins, 6);

    polyvec_ntt(&mut sp);
    matrix_vector(&mut bp, &at, &sp);
    polyvec_pointwise_acc_montgomery(&mut v, &pkpv, &sp);

    polyvec_invntt_tomont(&mut bp);
    poly_invntt_tomont(&mut v);

    let inverse = polyvec_copy(&bp);
    polyvec_add(&mut bp, &inverse, &ep);
    let with_product = v;
    poly_add(&mut v, &with_product, &epp);
    let with_noise = v;
    poly_add(&mut v, &with_noise, &k);
    polyvec_reduce(&mut bp);
    poly_reduce(&mut v);

    pack_ciphertext(c, &mut bp, &mut v);
}

/// Decrypts the ciphertext `c` under the secret key `sk`.
pub fn indcpa_dec(
    m: &mut [u8; INDCPA_MSGBYTES],
    c: &[u8; INDCPA_BYTES],
    sk: &[u8; INDCPA_SECRETKEYBYTES],
)
    ensures
        final(m)@ == indcpa_dec_spec(c@, sk@),
{
    let mut bp = PolyVec::new();
    let mut skpv = PolyVec::new();
    let mut v = Poly::new();
    let mut mp = Poly::new();

    unpack_ciphertext(&mut bp, &mut v, c);
    unpack_sk(&mut skpv, sk);
    polyvec_ntt(&mut skpv);
    polyvec_ntt(&mut bp);
    polyvec_pointwise_acc_montgomery(&mut mp, &skpv, &bp);
    poly_invntt_tomont(&mut mp);

    let product = mp;
    poly_sub(&mut mp, &v, &product);
    poly_reduce(&mut mp);

    poly_tomsg(m, &mut mp);
}

} // verus!
