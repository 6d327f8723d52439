//! A vector of as many polynomials as the module rank: the operations of a
//! polynomial applied to each, the compressed serialization, and the inner
//! product in the transform domain.

use vstd::prelude::*;
use crate::params::{K, N, POLYBYTES, POLYVECBYTES, POLYVECCOMPRESSEDBYTES};
use crate::poly::{canonical, poly_add, poly_add_spec, poly_basemul_montgomery, poly_basemul_spec,
    poly_csubq, poly_csubq_spec, poly_frombytes, poly_frombytes_spec, poly_invntt_tomont,
    poly_ntt, poly_ntt_spec, poly_reduce, poly_reduce_spec, poly_tobytes, poly_tobytes_spec,
    Poly};
use crate::poly::{compress_coeff, compress_spec, csubq_spec, decompress_coeff, decompress_spec,
    lemma_frombytes_tobytes, lemma_rounding_at, poly_rounded, word16};
use crate::ntt::invntt_spec;
use vstd::arithmetic::power2::lemma2_to64;

verus! {

/// An ordered sequence of polynomials; one element of the module when it
/// holds as many as the module rank.
#[derive(Clone)]
pub struct PolyVec {
    pub vec: Vec<Poly>,
}

impl View for PolyVec {
    type V = Seq<Seq<i16>>;

    open spec fn view(&self) -> Seq<Seq<i16>> {
        Seq::new(self.vec@.len(), |i: int| self.vec@[i]@)
    }
}

/// The zero polynomial, as a sequence of coefficients.
pub open spec fn zero_poly() -> Seq<i16> {
    Seq::new(256, |i: int| 0i16)
}

impl PolyVec {
    /// The vector holds as many polynomials as the module rank.
    pub open spec fn wf(&self) -> bool {
        self.vec@.len() == 3
    }

    /// The zero vector of the module.
    pub fn new() -> (v: PolyVec)
        ensures
            v.wf(),
            v@ == Seq::new(3, |i: int| zero_poly()),
    {
        PolyVec::with_len(K)
    }

    /// The zero vector of `len` polynomials.
    pub fn with_len(len: usize) -> (v: PolyVec)
        ensures
            v.vec@.len() == len,
            v@ == Seq::new(len as nat, |i: int| zero_poly()),
    {
        let mut vec: Vec<Poly> = Vec::with_capacity(len);
        let mut i: usize = 0;
        while i < len
            invariant
                0 <= i <= len,
                vec@.len() == i,
                forall|k: int| 0 <= k < i ==> vec@[k].coeffs@ == zero_poly(),
            decreases len - i,
        {
            vec.push(Poly::new());
            i += 1;
        }
        let v = PolyVec { vec };
        assert(v@ =~= Seq::new(len as nat, |i: int| zero_poly()));
        v
    }
}

impl Default for PolyVec {
    fn default() -> (v: PolyVec)
        ensures
            v.wf(),
            v@ == Seq::new(3, |i: int| zero_poly()),
    {
        PolyVec::new()
    }
}

/// The forward transform and reduction of each polynomial.
pub open spec fn polyvec_ntt_spec(v: Seq<Seq<i16>>) -> Seq<Seq<i16>> {
    Seq::new(3, |i: int| poly_ntt_spec(v[i]))
}

/// The inverse transform of each polynomial.
pub open spec fn polyvec_invntt_spec(v: Seq<Seq<i16>>) -> Seq<Seq<i16>> {
    Seq::new(3, |i: int| invntt_spec(v[i]))
}

/// The reduction of each polynomial.
pub open spec fn polyvec_reduce_spec(v: Seq<Seq<i16>>) -> Seq<Seq<i16>> {
    Seq::new(3, |i: int| poly_reduce_spec(v[i]))
}

/// The conditional subtraction of `q` in each polynomial.
pub open spec fn polyvec_csubq_spec(v: Seq<Seq<i16>>) -> Seq<Seq<i16>> {
    Seq::new(3, |i: int| poly_csubq_spec(v[i]))
}

/// The sum of two vectors, polynomial by polynomial.
pub open spec fn polyvec_add_spec(a: Seq<Seq<i16>>, b: Seq<Seq<i16>>) -> Seq<Seq<i16>> {
    Seq::new(3, |i: int| poly_add_spec(a[i], b[i]))
}

/// The inner product of two vectors in the transform domain: the sum of the
/// three products, reduced.
pub open spec fn polyvec_pointwise_acc_spec(a: Seq<Seq<i16>>, b: Seq<Seq<i16>>) -> Seq<i16> {
    poly_reduce_spec(
        poly_add_spec(
            poly_add_spec(poly_basemul_spec(a[0], b[0]), poly_basemul_spec(a[1], b[1])),
            poly_basemul_spec(a[2], b[2]),
        ),
    )
}

/// Every polynomial of the vector has its coefficients in `[0, q)`.
pub open spec fn polyvec_canonical(v: Seq<Seq<i16>>) -> bool {
    v.len() == 3 && forall|i: int| 0 <= i < 3 ==> canonical(#[trigger] v[i])
}

/// Applies the forward transform to each polynomial of the vector.
pub fn polyvec_ntt(r: &mut PolyVec)
    requires
        old(r).wf(),
    ensures
        final(r).wf(),
        final(r)@ == polyvec_ntt_spec(old(r)@),
        polyvec_canonical(final(r)@),
{
    let ghost v = r@;
    let mut i: usize = 0;
    while i < K
        invariant
            0 <= i <= 3,
            r.vec@.len() == 3,
            v.len() == 3,
            forall|k: int| 0 <= k < i ==> r.vec@[k].coeffs@ == poly_ntt_spec(v[k]),
            forall|k: int| 0 <= k < i ==> canonical(#[trigger] r.vec@[k].coeffs@),
            forall|k: int| i <= k < 3 ==> r.vec@[k].coeffs@ == v[k],
        decreases 3 - i,
    {
        poly_ntt(&mut r.vec[i]);
        i += 1;
    }
    assert(r@ =~= polyvec_ntt_spec(v));
    assert forall|k: int| 0 <= k < 3 implies canonical(#[trigger] r@[k]) by {
        assert(canonical(r.vec@[k].coeffs@));
    }
}

/// Applies the inverse transform to each polynomial of the vector, with the
/// results times the Montgomery factor.
pub fn polyvec_invntt_tomont(r: &mut PolyVec)
    requires
        old(r).wf(),
    ensures
        final(r).wf(),
        final(r)@ == polyvec_invntt_spec(old(r)@),
{
    let ghost v = r@;
    let mut i: usize = 0;
    while i < K
        invariant
            0 <= i <= 3,
            r.vec@.len() == 3,
            v.len() == 3,
            forall|k: int| 0 <= k < i ==> r.vec@[k].coeffs@ == invntt_spec(v[k]),
            forall|k: int| i <= k < 3 ==> r.vec@[k].coeffs@ == v[k],
        decreases 3 - i,
    {
        poly_invntt_tomont(&mut r.vec[i]);
        i += 1;
    }
    assert(r@ =~= polyvec_invntt_spec(v));
}

/// Multiplies the vectors `a` and `b` polynomial by polynomial in the
/// transform domain, adds the products and reduces the sum.
pub fn polyvec_pointwise_acc_montgomery(r: &mut Poly, a: &PolyVec, b: &PolyVec)
    requires
        a.wf(),
        b.wf(),
    ensures
        final(r)@ == polyvec_pointwise_acc_spec(a@, b@),
        canonical(final(r)@),
{
    poly_basemul_montgomery(r, &a.vec[0], &b.vec[0]);
    let mut i: usize = 1;
    while i < K
        invariant
            1 <= i <= 3,
            a.vec@.len() == 3,
            b.vec@.len() == 3,
            i == 1 ==> r.coeffs@ == poly_basemul_spec(a@[0], b@[0]),
            i == 2 ==> r.coeffs@ == poly_add_spec(
                poly_basemul_spec(a@[0], b@[0]),
                poly_basemul_spec(a@[1], b@[1]),
            ),
            i == 3 ==> r.coeffs@ == poly_add_spec(
                poly_add_spec(poly_basemul_spec(a@[0], b@[0]), poly_basemul_spec(a@[1], b@[1])),
                poly_basemul_spec(a@[2], b@[2]),
            ),
        decreases 3 - i,
    {
        let mut t = Poly::new();
        poly_basemul_montgomery(&mut t, &a.vec[i], &b.vec[i]);
        let acc = *r;
        poly_add(r, &acc, &t);
        i += 1;
    }
    poly_reduce(r);
}

/// Applies Barrett reduction to each coefficient of each polynomial.
pub fn polyvec_reduce(r: &mut PolyVec)
    requires
        old(r).wf(),
    ensures
        final(r).wf(),
        final(r)@ == polyvec_reduce_spec(old(r)@),
        polyvec_canonical(final(r)@),
{
    let ghost v = r@;
    let mut i: usize = 0;
    while i < K
        invariant
            0 <= i <= 3,
            r.vec@.len() == 3,
            v.len() == 3,
            forall|k: int| 0 <= k < i ==> r.vec@[k].coeffs@ == poly_reduce_spec(v[k]),
            forall|k: int| 0 <= k < i ==> canonical(#[trigger] r.vec@[k].coeffs@),
            forall|k: int| i <= k < 3 ==> r.vec@[k].coeffs@ == v[k],
        decreases 3 - i,
    {
        poly_reduce(&mut r.vec[i]);
        i += 1;
    }
    assert(r@ =~= polyvec_reduce_spec(v));
    assert forall|k: int| 0 <= k < 3 implies canonical(#[trigger] r@[k]) by {
        assert(canonical(r.vec@[k].coeffs@));
    }
}

/// Applies the conditional subtraction of `q` to each coefficient of each
/// polynomial.
pub fn polyvec_csubq(r: &mut PolyVec)
    requires
        old(r).wf(),
    ensures
        final(r).wf(),
        final(r)@ == polyvec_csubq_spec(old(r)@),
{
    let ghost v = r@;
    let mut i: usize = 0;
    while i < K
        invariant
            0 <= i <= 3,
            r.vec@.len() == 3,
            v.len() == 3,
            forall|k: int| 0 <= k < i ==> r.vec@[k].coeffs@ == poly_csubq_spec(v[k]),
            forall|k: int| i <= k < 3 ==> r.vec@[k].coeffs@ == v[k],
        decreases 3 - i,
    {
        poly_csubq(&mut r.vec[i]);
        i += 1;
    }
    assert(r@ =~= polyvec_csubq_spec(v));
}

/// Adds two vectors of polynomials.
pub fn polyvec_add(r: &mut PolyVec, a: &PolyVec, b: &PolyVec)
    requires
        old(r).wf(),
        a.wf(),
        b.wf(),
    ensures
        final(r).wf(),
        final(r)@ == polyvec_add_spec(a@, b@),
{
    let mut i: usize = 0;
    while i < K
        invariant
            0 <= i <= 3,
            r.vec@.len() == 3,
            a.vec@.len() == 3,
            b.vec@.len() == 3,
            forall|k: int| 0 <= k < i ==> r.vec@[k].coeffs@ == poly_add_spec(a@[k], b@[k]),
        decreases 3 - i,
    {
        poly_add(&mut r.vec[i], &a.vec[i], &b.vec[i]);
        i += 1;
    }
    assert(r@ =~= polyvec_add_spec(a@, b@));
}

/// The 10-bit compression of coefficient `n` of a polynomial after the
/// conditional subtraction of `q`.
pub open spec fn compress10(p: Seq<i16>, n: int) -> int {
    compress_spec(word16(csubq_spec(p[n])), 10)
}

/// Byte `k` of the compressed form of a vector: four coefficients of ten
/// bits fill five bytes, low bits first, the polynomials one after another.
pub open spec fn polyvec_compress_byte(v: Seq<Seq<i16>>, k: int) -> u8 {
    let g = k / 5;
    let p = v[g / 64];
    let n = 4 * (g % 64);
    let t0 = compress10(p, n);
    let t1 = compress10(p, n + 1);
    let t2 = compress10(p, n + 2);
    let t3 = compress10(p, n + 3);
    if k % 5 == 0 {
        (t0 % 256) as u8
    } else if k % 5 == 1 {
        (t0 / 256 + (t1 % 64) * 4) as u8
    } else if k % 5 == 2 {
        (t1 / 64 + (t2 % 16) * 16) as u8
    } else if k % 5 == 3 {
        (t2 / 16 + (t3 % 4) * 64) as u8
    } else {
        (t3 / 4) as u8
    }
}

/// The compressed form of a vector: 960 bytes.
pub open spec fn polyvec_compress_spec(v: Seq<Seq<i16>>) -> Seq<u8> {
    Seq::new(960, |k: int| polyvec_compress_byte(v, k))
}

/// The ten bits from which coefficient `n` of polynomial `i` is
/// decompressed.
pub open spec fn polyvec_packed10(a: Seq<u8>, i: int, n: int) -> int {
    let base = 5 * (64 * i + n / 4);
    if n % 4 == 0 {
        a[base] + 256 * (a[base + 1] as int % 4)
    } else if n % 4 == 1 {
        a[base + 1] as int / 4 + 64 * (a[base + 2] as int % 16)
    } else if n % 4 == 2 {
        a[base + 2] as int / 16 + 16 * (a[base + 3] as int % 64)
    } else {
        a[base + 3] as int / 64 + 4 * a[base + 4]
    }
}

/// The vector that 960 compressed bytes stand for.
pub open spec fn polyvec_decompress_spec(a: Seq<u8>) -> Seq<Seq<i16>> {
    Seq::new(
        3,
        |i: int| Seq::new(256, |n: int| decompress_spec(polyvec_packed10(a, i, n), 10) as i16),
    )
}

/// The serialization of a vector: that of its polynomials, one after
/// another.
pub open spec fn polyvec_tobytes_spec(v: Seq<Seq<i16>>) -> Seq<u8> {
    poly_tobytes_spec(v[0]) + poly_tobytes_spec(v[1]) + poly_tobytes_spec(v[2])
}

/// The vector that 1152 bytes stand for.
pub open spec fn polyvec_frombytes_spec(a: Seq<u8>) -> Seq<Seq<i16>> {
    Seq::new(3, |i: int| poly_frombytes_spec(a.subrange(384 * i, 384 * i + 384)))
}

/// Compression and serialization of a vector. Subtracts `q` from the
/// coefficients of `a` that are at least `q` before it reads them.
pub fn polyvec_compress(r: &mut [u8; POLYVECCOMPRESSEDBYTES], a: &mut PolyVec)
    requires
        old(a).wf(),
    ensures
        final(a).wf(),
        final(a)@ == polyvec_csubq_spec(old(a)@),
        final(r)@ == polyvec_compress_spec(old(a)@),
{
    assert(POLYVECCOMPRESSEDBYTES == K * 320);
    let ghost v = a@;
    polyvec_csubq(a);
    let mut i: usize = 0;
    while i < K
        invariant
            0 <= i <= 3,
            v.len() == 3,
            a.vec@.len() == 3,
            a@ == polyvec_csubq_spec(v),
            forall|k: int| 0 <= k < 320 * i ==> r@[k] == polyvec_compress_byte(v, k),
        decreases 3 - i,
    {
        let mut j: usize = 0;
        while j < N / 4
            invariant
                0 <= i < 3,
                0 <= j <= 64,
                v.len() == 3,
                a.vec@.len() == 3,
                a@ == polyvec_csubq_spec(v),
                forall|k: int| 0 <= k < 5 * (64 * i + j) ==> r@[k] == polyvec_compress_byte(v, k),
            decreases 64 - j,
        {
            proof {
                assert(a@[i as int] == poly_csubq_spec(v[i as int]));
                assert(a.vec@[i as int].coeffs@ == a@[i as int]);
            }
            let t0: u32 = compress_coeff(a.vec[i].coeffs[4 * j], 10);
            let t1: u32 = compress_coeff(a.vec[i].coeffs[4 * j + 1], 10);
            let t2: u32 = compress_coeff(a.vec[i].coeffs[4 * j + 2], 10);
            let t3: u32 = compress_coeff(a.vec[i].coeffs[4 * j + 3], 10);
            let b0: u32 = t0 & 0xff;
            let b1: u32 = ((t0 >> 8) | (t1 << 2)) & 0xff;
            let b2: u32 = ((t1 >> 6) | (t2 << 4)) & 0xff;
            let b3: u32 = ((t2 >> 4) | (t3 << 6)) & 0xff;
            let b4: u32 = t3 >> 2;
            proof {
                lemma2_to64();
                assert(b0 == t0 % 256 && b1 == t0 / 256 + (t1 % 64) * 4 && b2 == t1 / 64 + (t2
                    % 16) * 16 && b3 == t2 / 16 + (t3 % 4) * 64 && b4 == t3 / 4 && b0 < 256 && b1
                    < 256 && b2 < 256 && b3 < 256 && b4 < 256) by (bit_vector)
                    requires
                        t0 < 1024,
                        t1 < 1024,
                        t2 < 1024,
                        t3 < 1024,
                        b0 == t0 & 0xff,
                        b1 == ((t0 >> 8) | (t1 << 2)) & 0xff,
                        b2 == ((t1 >> 6) | (t2 << 4)) & 0xff,
                        b3 == ((t2 >> 4) | (t3 << 6)) & 0xff,
                        b4 == t3 >> 2,
                ;
            }
            let offset: usize = (i * 64 + j) * 5;
            r[offset] = b0 as u8;
            r[offset + 1] = b1 as u8;
            r[offset + 2] = b2 as u8;
            r[offset + 3] = b3 as u8;
            r[offset + 4] = b4 as u8;
            j += 1;
        }
        i += 1;
    }
    assert(r@ =~= polyvec_compress_spec(v));
}

/// Deserialization and decompression of a vector: the approximate inverse
/// of `polyvec_compress`. Every coefficient of the result lies in `[0, q)`.
pub fn polyvec_decompress(r: &mut PolyVec, a: &[u8; POLYVECCOMPRESSEDBYTES])
    requires
        old(r).wf(),
    ensures
        final(r).wf(),
        final(r)@ == polyvec_decompress_spec(a@),
        polyvec_canonical(final(r)@),
{
    assert(POLYVECCOMPRESSEDBYTES == K * 320);
    let mut i: usize = 0;
    while i < K
        invariant
            0 <= i <= 3,
            r.vec@.len() == 3,
            forall|m: int, n: int|
                0 <= m < i && 0 <= n < 256 ==> #[trigger] r.vec@[m].coeffs@[n] == decompress_spec(
                    polyvec_packed10(a@, m, n),
                    10,
                ) as i16,
            forall|m: int, n: int|
                0 <= m < i && 0 <= n < 256 ==> 0 <= #[trigger] r.vec@[m].coeffs@[n] < 3329,
        decreases 3 - i,
    {
        let mut p = Poly::new();
        let mut j: usize = 0;
        while j < N / 4
            invariant
                0 <= i < 3,
                0 <= j <= 64,
                forall|n: int|
                    0 <= n < 4 * j ==> p.coeffs@[n] == decompress_spec(
                        polyvec_packed10(a@, i as int, n),
                        10,
                    ) as i16,
                forall|n: int| 0 <= n < 4 * j ==> 0 <= #[trigger] p.coeffs@[n] < 3329,
            decreases 64 - j,
        {
            let offset: usize = (i * 64 + j) * 5;
            let a0: u32 = a[offset] as u32;
            let a1: u32 = a[offset + 1] as u32;
            let a2: u32 = a[offset + 2] as u32;
            let a3: u32 = a[offset + 3] as u32;
            let a4: u32 = a[offset + 4] as u32;
            let t0: u32 = (a0 | (a1 << 8)) & 0x3ff;
            let t1: u32 = ((a1 >> 2) | (a2 << 6)) & 0x3ff;
            let t2: u32 = ((a2 >> 4) | (a3 << 4)) & 0x3ff;
            let t3: u32 = ((a3 >> 6) | (a4 << 2)) & 0x3ff;
            proof {
                lemma2_to64();
                assert(t0 == a0 + 256 * (a1 % 4) && t1 == a1 / 4 + 64 * (a2 % 16) && t2 == a2 / 16
                    + 16 * (a3 % 64) && t3 == a3 / 64 + 4 * a4 && t0 < 1024 && t1 < 1024 && t2
                    < 1024 && t3 < 1024) by (bit_vector)
                    requires
                        a0 < 256,
                        a1 < 256,
                        a2 < 256,
                        a3 < 256,
                        a4 < 256,
                        t0 == (a0 | (a1 << 8)) & 0x3ff,
                        t1 == ((a1 >> 2) | (a2 << 6)) & 0x3ff,
                        t2 == ((a2 >> 4) | (a3 << 4)) & 0x3ff,
                        t3 == ((a3 >> 6) | (a4 << 2)) & 0x3ff,
                ;
            }
            p.coeffs[4 * j] = decompress_coeff(t0, 10);
            p.coeffs[4 * j + 1] = decompress_coeff(t1, 10);
            p.coeffs[4 * j + 2] = decompress_coeff(t2, 10);
            p.coeffs[4 * j + 3] = decompress_coeff(t3, 10);
            j += 1;
        }
        r.vec[i] = p;
        i += 1;
    }
    assert(r@ =~= polyvec_decompress_spec(a@)) by {
        assert forall|m: int| 0 <= m < 3 implies r@[m] =~= polyvec_decompress_spec(a@)[m] by {
            assert forall|n: int| 0 <= n < 256 implies r@[m][n] == polyvec_decompress_spec(
                a@,
            )[m][n] by {
                assert(r.vec@[m].coeffs@[n] == decompress_spec(polyvec_packed10(a@, m, n), 10)
                    as i16);
            }
        }
    }
    assert forall|m: int| 0 <= m < 3 implies canonical(#[trigger] r@[m]) by {
        assert forall|n: int| 0 <= n < 256 implies 0 <= #[trigger] r@[m][n] < 3329 by {
            assert(0 <= r.vec@[m].coeffs@[n] < 3329);
        }
    }
}

/// Serialization of a vector. Subtracts `q` from the coefficients of `a`
/// that are at least `q` before it reads them.
pub fn polyvec_tobytes(r: &mut [u8; POLYVECBYTES], a: &mut PolyVec)
    requires
        old(a).wf(),
    ensures
        final(a).wf(),
        final(a)@ == polyvec_csubq_spec(old(a)@),
        final(r)@ == polyvec_tobytes_spec(old(a)@),
{
    let ghost v = a@;
    let mut i: usize = 0;
    while i < K
        invariant
            0 <= i <= 3,
            v.len() == 3,
            a.vec@.len() == 3,
            forall|m: int| 0 <= m < i ==> a.vec@[m].coeffs@ == poly_csubq_spec(v[m]),
            forall|m: int| i <= m < 3 ==> a.vec@[m].coeffs@ == v[m],
            forall|m: int, k: int|
                0 <= m < i && 0 <= k < 384 ==> r@[384 * m + k] == poly_tobytes_spec(v[m])[k],
        decreases 3 - i,
    {
        let mut bytes = [0u8;POLYBYTES];
        poly_tobytes(&mut bytes, &mut a.vec[i]);
        let mut k: usize = 0;
        while k < POLYBYTES
            invariant
                0 <= i < 3,
                0 <= k <= 384,
                bytes@ == poly_tobytes_spec(v[i as int]),
                forall|m: int, n: int|
                    0 <= m < i && 0 <= n < 384 ==> r@[384 * m + n] == poly_tobytes_spec(v[m])[n],
                forall|n: int| 0 <= n < k ==> r@[384 * i + n] == bytes@[n],
            decreases 384 - k,
        {
            r[i * POLYBYTES + k] = bytes[k];
            k += 1;
        }
        i += 1;
    }
    assert(a@ =~= polyvec_csubq_spec(v));
    assert(r@ =~= polyvec_tobytes_spec(v)) by {
        assert forall|n: int| 0 <= n < 1152 implies r@[n] == polyvec_tobytes_spec(v)[n] by {
            let m = n / 384;
            let k = n % 384;
            assert(r@[384 * m + k] == poly_tobytes_spec(v[m])[k]);
        }
    }
}

/// Deserialization of a vector: the inverse of `polyvec_tobytes`.
pub fn polyvec_frombytes(r: &mut PolyVec, a: &[u8; POLYVECBYTES])
    requires
        old(r).wf(),
    ensures
        final(r).wf(),
        final(r)@ == polyvec_frombytes_spec(a@),
{
    let mut i: usize = 0;
    while i < K
        invariant
            0 <= i <= 3,
            r.vec@.len() == 3,
            forall|m: int|
                0 <= m < i ==> r.vec@[m].coeffs@ == poly_frombytes_spec(
                    a@.subrange(384 * m, 384 * m + 384),
                ),
        decreases 3 - i,
    {
        let mut bytes = [0u8;POLYBYTES];
        let mut k: usize = 0;
        while k < POLYBYTES
            invariant
                0 <= i < 3,
                0 <= k <= 384,
                forall|n: int| 0 <= n < k ==> bytes@[n] == a@[384 * i + n],
            decreases 384 - k,
        {
            bytes[k] = a[i * POLYBYTES + k];
            k += 1;
        }
        assert(bytes@ =~= a@.subrange(384 * i, 384 * i + 384));
        poly_frombytes(&mut r.vec[i], &bytes);
        i += 1;
    }
    assert(r@ =~= polyvec_frombytes_spec(a@));
}

/// Deserialization inverts serialization. For a vector whose coefficients
/// lie in `[0, 4096)` once `q` is subtracted from those that are at least
/// `q`, the bytes of its serialization stand for the vector with `q`
/// subtracted so; for coefficients in `[0, q)` that is the vector itself.
pub proof fn lemma_polyvec_frombytes_tobytes(v: Seq<Seq<i16>>)
    requires
        v.len() == 3,
        forall|k: int, i: int|
            0 <= k < 3 && 0 <= i < 256 ==> 0 <= csubq_spec(#[trigger] v[k][i]) < 4096,
        forall|k: int| 0 <= k < 3 ==> (#[trigger] v[k]).len() == 256,
    ensures
        polyvec_frombytes_spec(polyvec_tobytes_spec(v)) == polyvec_csubq_spec(v),
        polyvec_canonical(v) ==> polyvec_frombytes_spec(polyvec_tobytes_spec(v)) == v,
{
    let bytes = polyvec_tobytes_spec(v);
    assert forall|k: int| 0 <= k < 3 implies poly_frombytes_spec(
        bytes.subrange(384 * k, 384 * k + 384),
    ) == poly_csubq_spec(v[k]) by {
        assert(bytes.subrange(384 * k, 384 * k + 384) =~= poly_tobytes_spec(v[k]));
        assert forall|i: int| 0 <= i < 256 implies 0 <= #[trigger] csubq_spec(v[k][i]) < 4096 by {
            assert(0 <= csubq_spec(v[k][i]) < 4096);
        }
        lemma_frombytes_tobytes(v[k]);
    }
    assert(polyvec_frombytes_spec(bytes) =~= polyvec_csubq_spec(v));
    if polyvec_canonical(v) {
        assert forall|k: int| 0 <= k < 3 implies poly_csubq_spec(v[k]) == v[k] by {
            assert(canonical(v[k]));
            assert(poly_csubq_spec(v[k]) =~= v[k]);
        }
        assert(polyvec_csubq_spec(v) =~= v);
    }
}

/// Four numbers of ten bits, packed into five bytes and unpacked again.
proof fn lemma_pack10(t0: int, t1: int, t2: int, t3: int)
    requires
        0 <= t0 < 1024,
        0 <= t1 < 1024,
        0 <= t2 < 1024,
        0 <= t3 < 1024,
    ensures
        ({
            let b0 = t0 % 256;
            let b1 = t0 / 256 + (t1 % 64) * 4;
            let b2 = t1 / 64 + (t2 % 16) * 16;
            let b3 = t2 / 16 + (t3 % 4) * 64;
            let b4 = t3 / 4;
            &&& 0 <= b0 < 256
            &&& 0 <= b1 < 256
            &&& 0 <= b2 < 256
            &&& 0 <= b3 < 256
            &&& 0 <= b4 < 256
            &&& b0 + 256 * (b1 % 4) == t0
            &&& b1 / 4 + 64 * (b2 % 16) == t1
            &&& b2 / 16 + 16 * (b3 % 64) == t2
            &&& b3 / 64 + 4 * b4 == t3
        }),
{
}

/// The ten bits that the compressed bytes of a vector hold for coefficient
/// `n` of polynomial `i` are the 10-bit compression of that coefficient.
proof fn lemma_packed10(v: Seq<Seq<i16>>, i: int, n: int)
    requires
        v.len() == 3,
        0 <= i < 3,
        0 <= n < 256,
    ensures
        polyvec_packed10(polyvec_compress_spec(v), i, n) == compress10(v[i], n),
        0 <= compress10(v[i], n) < 1024,
{
    let bytes = polyvec_compress_spec(v);
    let g = 64 * i + n / 4;
    let base = 5 * g;
    let c = 4 * (n / 4);
    let t0 = compress10(v[i], c);
    let t1 = compress10(v[i], c + 1);
    let t2 = compress10(v[i], c + 2);
    let t3 = compress10(v[i], c + 3);
    lemma2_to64();
    lemma_rounding_at(word16(csubq_spec(v[i][c])), 10, 1024);
    lemma_rounding_at(word16(csubq_spec(v[i][c + 1])), 10, 1024);
    lemma_rounding_at(word16(csubq_spec(v[i][c + 2])), 10, 1024);
    lemma_rounding_at(word16(csubq_spec(v[i][c + 3])), 10, 1024);
    lemma_pack10(t0, t1, t2, t3);
    assert(g / 64 == i && g % 64 == n / 4);
    assert(bytes[base] == polyvec_compress_byte(v, base));
    assert(bytes[base + 1] == polyvec_compress_byte(v, base + 1));
    assert(bytes[base + 2] == polyvec_compress_byte(v, base + 2));
    assert(bytes[base + 3] == polyvec_compress_byte(v, base + 3));
    assert(bytes[base + 4] == polyvec_compress_byte(v, base + 4));
    assert((base + 1) / 5 == g && (base + 2) / 5 == g && (base + 3) / 5 == g && (base + 4) / 5
        == g && base / 5 == g);
    assert(bytes[base] == (t0 % 256) as u8);
    assert(bytes[base + 1] == (t0 / 256 + (t1 % 64) * 4) as u8);
    assert(bytes[base + 2] == (t1 / 64 + (t2 % 16) * 16) as u8);
    assert(bytes[base + 3] == (t2 / 16 + (t3 % 4) * 64) as u8);
    assert(bytes[base + 4] == (t3 / 4) as u8);
}

/// Unpacking inverts packing: the compressed bytes of a vector decompress
/// to the vector with every coefficient compressed to 10 bits and
/// decompressed.
pub proof fn lemma_polyvec_decompress_compress(v: Seq<Seq<i16>>)
    requires
        v.len() == 3,
    ensures
        polyvec_decompress_spec(polyvec_compress_spec(v)) == Seq::new(
            3,
            |i: int| poly_rounded(v[i], 10),
        ),
{
    let bytes = polyvec_compress_spec(v);
    let back = polyvec_decompress_spec(bytes);
    assert forall|i: int| 0 <= i < 3 implies back[i] == poly_rounded(v[i], 10) by {
        assert forall|n: int| 0 <= n < 256 implies back[i][n] == poly_rounded(v[i], 10)[n] by {
            lemma_packed10(v, i, n);
        }
        assert(back[i] =~= poly_rounded(v[i], 10));
    }
    assert(back =~= Seq::new(3, |i: int| poly_rounded(v[i], 10)));
}

} // verus!
