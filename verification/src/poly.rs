//! One element of the ring `Z_q[X]/(X^256 + 1)`: arithmetic on its
//! coefficients, its serialization, its compression and the encoding of
//! messages.

use vstd::prelude::*;
use vstd::arithmetic::power2::{lemma2_to64, pow2};
use crate::params::{INDCPA_MSGBYTES, N, POLYBYTES, POLYCOMPRESSEDBYTES};
use crate::reduce::{barrett_reduce, congruent, csubq, montgomery_reduce, montgomery_spec};
use crate::cbd::{cbd2_spec, cbd_eta1, cbd_eta2, small};
use crate::symmetric::{prf, shake256};
use crate::ntt::{add16, basemul_pair, basemul_spec, invntt, invntt_spec, lemma_zetas_range, ntt,
    ntt_spec, sub16, ZETAS};

verus! {

/// The polynomial `coeffs[0] + coeffs[1] X + ... + coeffs[255] X^255`.
#[derive(Clone, Copy)]
pub struct Poly {
    pub coeffs: [i16; N],
}

impl View for Poly {
    type V = Seq<i16>;

    open spec fn view(&self) -> Seq<i16> {
        self.coeffs@
    }
}

impl Poly {
    /// The zero polynomial.
    pub fn new() -> (p: Poly)
        ensures
            p@ == Seq::new(256, |i: int| 0i16),
    {
        let p = Poly { coeffs: [0;N] };
        assert(p@ =~= Seq::new(256, |i: int| 0i16));
        p
    }
}

impl Default for Poly {
    fn default() -> (p: Poly)
        ensures
            p@ == Seq::new(256, |i: int| 0i16),
    {
        Poly::new()
    }
}

/// A coefficient after the conditional subtraction of `q`.
pub open spec fn csubq_spec(c: i16) -> i16 {
    if c >= 3329 {
        (c - 3329) as i16
    } else {
        c
    }
}

/// The residue of a coefficient in `[0, q)`.
pub open spec fn reduce_spec(c: i16) -> i16 {
    (c as int % 3329) as i16
}

/// `q` subtracted once from each coefficient that is at least `q`.
pub open spec fn poly_csubq_spec(p: Seq<i16>) -> Seq<i16> {
    Seq::new(256, |i: int| csubq_spec(p[i]))
}

/// Each coefficient replaced by its residue in `[0, q)`.
pub open spec fn poly_reduce_spec(p: Seq<i16>) -> Seq<i16> {
    Seq::new(256, |i: int| reduce_spec(p[i]))
}

/// The coefficient-wise sum, each coefficient wrapped to 16 bits.
pub open spec fn poly_add_spec(a: Seq<i16>, b: Seq<i16>) -> Seq<i16> {
    Seq::new(256, |i: int| add16(a[i], b[i]))
}

/// The coefficient-wise difference, each coefficient wrapped to 16 bits.
pub open spec fn poly_sub_spec(a: Seq<i16>, b: Seq<i16>) -> Seq<i16> {
    Seq::new(256, |i: int| sub16(a[i], b[i]))
}

/// Each coefficient multiplied by `2^32 mod q` and Montgomery-reduced, which
/// multiplies it by the Montgomery factor modulo `q`.
pub open spec fn poly_tomont_spec(p: Seq<i16>) -> Seq<i16> {
    Seq::new(256, |i: int| montgomery_spec(p[i] * 1353) as i16)
}

/// The forward transform followed by the reduction of every coefficient.
pub open spec fn poly_ntt_spec(p: Seq<i16>) -> Seq<i16> {
    poly_reduce_spec(ntt_spec(p))
}

/// Every coefficient lies in `[0, q)`.
pub open spec fn canonical(p: Seq<i16>) -> bool {
    p.len() == 256 && forall|i: int| 0 <= i < 256 ==> 0 <= #[trigger] p[i] < 3329
}

/// Applies the conditional subtraction of `q` to each coefficient.
pub fn poly_csubq(r: &mut Poly)
    ensures
        final(r)@ == poly_csubq_spec(old(r)@),
{
    let ghost p = r.coeffs@;
    let mut i: usize = 0;
    while i < N
        invariant
            0 <= i <= 256,
            p.len() == 256,
            forall|k: int| 0 <= k < i ==> r.coeffs@[k] == csubq_spec(p[k]),
            forall|k: int| i <= k < 256 ==> r.coeffs@[k] == p[k],
        decreases 256 - i,
    {
        r.coeffs[i] = csubq(r.coeffs[i]);
        i += 1;
    }
    assert(r.coeffs@ =~= poly_csubq_spec(p));
}

/// Applies Barrett reduction to each coefficient, which leaves every
/// coefficient in `[0, q)`.
pub fn poly_reduce(r: &mut Poly)
    ensures
        final(r)@ == poly_reduce_spec(old(r)@),
        canonical(final(r)@),
{
    let ghost p = r.coeffs@;
    let mut i: usize = 0;
    while i < N
        invariant
            0 <= i <= 256,
            p.len() == 256,
            forall|k: int| 0 <= k < i ==> r.coeffs@[k] == reduce_spec(p[k]),
            forall|k: int| i <= k < 256 ==> r.coeffs@[k] == p[k],
        decreases 256 - i,
    {
        r.coeffs[i] = barrett_reduce(r.coeffs[i]);
        i += 1;
    }
    assert(r.coeffs@ =~= poly_reduce_spec(p));
}

/// Adds two polynomials coefficient by coefficient, without reduction.
pub fn poly_add(r: &mut Poly, a: &Poly, b: &Poly)
    ensures
        final(r)@ == poly_add_spec(a@, b@),
{
    let mut i: usize = 0;
    while i < N
        invariant
            0 <= i <= 256,
            forall|k: int| 0 <= k < i ==> r.coeffs@[k] == add16(a.coeffs@[k], b.coeffs@[k]),
        decreases 256 - i,
    {
        r.coeffs[i] = a.coeffs[i].wrapping_add(b.coeffs[i]);
        i += 1;
    }
    assert(r.coeffs@ =~= poly_add_spec(a@, b@));
}

/// Subtracts two polynomials coefficient by coefficient, without reduction.
pub fn poly_sub(r: &mut Poly, a: &Poly, b: &Poly)
    ensures
        final(r)@ == poly_sub_spec(a@, b@),
{
    let mut i: usize = 0;
    while i < N
        invariant
            0 <= i <= 256,
            forall|k: int| 0 <= k < i ==> r.coeffs@[k] == sub16(a.coeffs@[k], b.coeffs@[k]),
        decreases 256 - i,
    {
        r.coeffs[i] = a.coeffs[i].wrapping_sub(b.coeffs[i]);
        i += 1;
    }
    assert(r.coeffs@ =~= poly_sub_spec(a@, b@));
}

/// Converts every coefficient from the normal to the Montgomery domain.
pub fn poly_tomont(r: &mut Poly)
    ensures
        final(r)@ == poly_tomont_spec(old(r)@),
{
    let ghost p = r.coeffs@;
    let f: i32 = 1353;
    let mut i: usize = 0;
    while i < N
        invariant
            0 <= i <= 256,
            f == 1353,
            p.len() == 256,
            forall|k: int| 0 <= k < i ==> r.coeffs@[k] == montgomery_spec(p[k] * 1353) as i16,
            forall|k: int| i <= k < 256 ==> r.coeffs@[k] == p[k],
        decreases 256 - i,
    {
        r.coeffs[i] = montgomery_reduce((r.coeffs[i] as i32) * f);
        i += 1;
    }
    assert(r.coeffs@ =~= poly_tomont_spec(p));
}

/// The forward transform in place, then a reduction of every coefficient.
/// The input is in standard order, the output in bit-reversed order.
pub fn poly_ntt(r: &mut Poly)
    ensures
        final(r)@ == poly_ntt_spec(old(r)@),
        canonical(final(r)@),
{
    ntt(&mut r.coeffs);
    poly_reduce(r);
}

/// The inverse transform in place, with the result times the Montgomery
/// factor. The input is in bit-reversed order, the output in standard order.
pub fn poly_invntt_tomont(r: &mut Poly)
    ensures
        final(r)@ == invntt_spec(old(r)@),
{
    invntt(&mut r.coeffs);
}

/// A coefficient read as an unsigned 16-bit word, which is how compression
/// and serialization read it. A coefficient that is not negative is its own
/// word.
pub open spec fn word16(c: i16) -> int {
    if c < 0 {
        c + 65536
    } else {
        c as int
    }
}

/// Compression to `d` bits: `x 2^d / q` rounded to the nearest integer,
/// modulo `2^d`.
#[verifier::opaque]
pub open spec fn compress_spec(x: int, d: nat) -> int {
    ((x * pow2(d) + 1664) / 3329) % (pow2(d) as int)
}

/// Decompression from `d` bits: `y q / 2^d` rounded to the nearest integer.
#[verifier::opaque]
pub open spec fn decompress_spec(y: int, d: nat) -> int {
    (y * 3329 + pow2(d) / 2) / (pow2(d) as int)
}

/// The largest distance modulo `q` between a residue and its image under
/// compression to `d` bits and decompression: `q / 2^(d + 1)` rounded to the
/// nearest integer.
#[verifier::opaque]
pub open spec fn compress_error(d: nat) -> int {
    (3329 + pow2(d) as int) / (pow2(d + 1) as int)
}

/// The compression bound at width 1, with every power of two written out.
proof fn lemma_round_trip_1(x: int)
    requires
        0 <= x < 3329,
    ensures
        ({
            let y = ((x * 2 + 1664) / 3329) % 2;
            let back = (y * 3329 + 1) / 2;
            &&& 0 <= y < 2
            &&& 0 <= back < 3329
            &&& ((back - x) % 3329 <= 832 || (back - x) % 3329 >= 2497)
            &&& ((back * 2 + 1664) / 3329) % 2 == y
        }),
{
}

/// The compression bound at width 2, with every power of two written out.
proof fn lemma_round_trip_2(x: int)
    requires
        0 <= x < 3329,
    ensures
        ({
            let y = ((x * 4 + 1664) / 3329) % 4;
            let back = (y * 3329 + 2) / 4;
            &&& 0 <= y < 4
            &&& 0 <= back < 3329
            &&& ((back - x) % 3329 <= 416 || (back - x) % 3329 >= 2913)
            &&& ((back * 4 + 1664) / 3329) % 4 == y
        }),
{
}

/// The compression bound at width 3, with every power of two written out.
proof fn lemma_round_trip_3(x: int)
    requires
        0 <= x < 3329,
    ensures
        ({
            let y = ((x * 8 + 1664) / 3329) % 8;
            let back = (y * 3329 + 4) / 8;
            &&& 0 <= y < 8
            &&& 0 <= back < 3329
            &&& ((back - x) % 3329 <= 208 || (back - x) % 3329 >= 3121)
            &&& ((back * 8 + 1664) / 3329) % 8 == y
        }),
{
}

/// The compression bound at width 4, with every power of two written out.
proof fn lemma_round_trip_4(x: int)
    requires
        0 <= x < 3329,
    ensures
        ({
            let y = ((x * 16 + 1664) / 3329) % 16;
            let back = (y * 3329 + 8) / 16;
            &&& 0 <= y < 16
            &&& 0 <= back < 3329
            &&& ((back - x) % 3329 <= 104 || (back - x) % 3329 >= 3225)
            &&& ((back * 16 + 1664) / 3329) % 16 == y
        }),
{
}

/// The compression bound at width 5, with every power of two written out.
proof fn lemma_round_trip_5(x: int)
    requires
        0 <= x < 3329,
    ensures
        ({
            let y = ((x * 32 + 1664) / 3329) % 32;
            let back = (y * 3329 + 16) / 32;
            &&& 0 <= y < 32
            &&& 0 <= back < 3329
            &&& ((back - x) % 3329 <= 52 || (back - x) % 3329 >= 3277)
            &&& ((back * 32 + 1664) / 3329) % 32 == y
        }),
{
}

/// The compression bound at width 6, with every power of two written out.
proof fn lemma_round_trip_6(x: int)
    requires
        0 <= x < 3329,
    ensures
        ({
            let y = ((x * 64 + 1664) / 3329) % 64;
            let back = (y * 3329 + 32) / 64;
            &&& 0 <= y < 64
            &&& 0 <= back < 3329
            &&& ((back - x) % 3329 <= 26 || (back - x) % 3329 >= 3303)
            &&& ((back * 64 + 1664) / 3329) % 64 == y
        }),
{
}

/// The compression bound at width 7, with every power of two written out.
proof fn lemma_round_trip_7(x: int)
    requires
        0 <= x < 3329,
    ensures
        ({
            let y = ((x * 128 + 1664) / 3329) % 128;
            let back = (y * 3329 + 64) / 128;
            &&& 0 <= y < 128
            &&& 0 <= back < 3329
            &&& ((back - x) % 3329 <= 13 || (back - x) % 3329 >= 3316)
            &&& ((back * 128 + 1664) / 3329) % 128 == y
        }),
{
}

/// The compression bound at width 8, with every power of two written out.
proof fn lemma_round_trip_8(x: int)
    requires
        0 <= x < 3329,
    ensures
        ({
            let y = ((x * 256 + 1664) / 3329) % 256;
            let back = (y * 3329 + 128) / 256;
            &&& 0 <= y < 256
            &&& 0 <= back < 3329
            &&& ((back - x) % 3329 <= 7 || (back - x) % 3329 >= 3322)
            &&& ((back * 256 + 1664) / 3329) % 256 == y
        }),
{
}

/// The compression bound at width 9, with every power of two written out.
proof fn lemma_round_trip_9(x: int)
    requires
        0 <= x < 3329,
    ensures
        ({
            let y = ((x * 512 + 1664) / 3329) % 512;
            let back = (y * 3329 + 256) / 512;
            &&& 0 <= y < 512
            &&& 0 <= back < 3329
            &&& ((back - x) % 3329 <= 3 || (back - x) % 3329 >= 3326)
            &&& ((back * 512 + 1664) / 3329) % 512 == y
        }),
{
}

/// The compression bound at width 10, with every power of two written out.
proof fn lemma_round_trip_10(x: int)
    requires
        0 <= x < 3329,
    ensures
        ({
            let y = ((x * 1024 + 1664) / 3329) % 1024;
            let back = (y * 3329 + 512) / 1024;
            &&& 0 <= y < 1024
            &&& 0 <= back < 3329
            &&& ((back - x) % 3329 <= 2 || (back - x) % 3329 >= 3327)
            &&& ((back * 1024 + 1664) / 3329) % 1024 == y
        }),
{
}

/// The compression bound at width 11, with every power of two written out.
proof fn lemma_round_trip_11(x: int)
    requires
        0 <= x < 3329,
    ensures
        ({
            let y = ((x * 2048 + 1664) / 3329) % 2048;
            let back = (y * 3329 + 1024) / 2048;
            &&& 0 <= y < 2048
            &&& 0 <= back < 3329
            &&& ((back - x) % 3329 <= 1 || (back - x) % 3329 >= 3328)
            &&& ((back * 2048 + 1664) / 3329) % 2048 == y
        }),
{
}

/// The two rounding maps at a width whose power of two is `e`.
pub proof fn lemma_rounding_at(x: int, d: nat, e: int)
    requires
        pow2(d) == e,
    ensures
        compress_spec(x, d) == ((x * e + 1664) / 3329) % e,
        decompress_spec(x, d) == (x * 3329 + e / 2) / e,
        compress_error(d) == (3329 + e) / (pow2(d + 1) as int),
{
    reveal(compress_spec);
    reveal(decompress_spec);
    reveal(compress_error);
}

/// Compression bound. For a residue `x` in `[0, q)` and a width `d` from 1
/// to 11, decompressing the compression of `x` gives a residue whose
/// distance from `x` modulo `q` is at most `compress_error(d)`, which is half
/// of one step `q / 2^d` of the compressed scale, rounded. Compressing that
/// residue again gives the same `d` bits.
pub proof fn lemma_compress_decompress(x: int, d: nat)
    requires
        0 <= x < 3329,
        1 <= d <= 11,
    ensures
        0 <= compress_spec(x, d) < pow2(d),
        0 <= decompress_spec(compress_spec(x, d), d) < 3329,
        ({
            let back = decompress_spec(compress_spec(x, d), d);
            let dist = (back - x) % 3329;
            dist <= compress_error(d) || dist >= 3329 - compress_error(d)
        }),
        compress_spec(decompress_spec(compress_spec(x, d), d), d) == compress_spec(x, d),
{
    lemma2_to64();
    if d == 1 {
        lemma_round_trip_1(x);
        let y = ((x * 2 + 1664) / 3329) % 2;
        let back = (y * 3329 + 1) / 2;
        lemma_rounding_at(x, d, 2);
        lemma_rounding_at(y, d, 2);
        lemma_rounding_at(back, d, 2);
        assert(pow2(d + 1) == 4);
    } else if d == 2 {
        lemma_round_trip_2(x);
        let y = ((x * 4 + 1664) / 3329) % 4;
        let back = (y * 3329 + 2) / 4;
        lemma_rounding_at(x, d, 4);
        lemma_rounding_at(y, d, 4);
        lemma_rounding_at(back, d, 4);
        assert(pow2(d + 1) == 8);
    } else if d == 3 {
        lemma_round_trip_3(x);
        let y = ((x * 8 + 1664) / 3329) % 8;
        let back = (y * 3329 + 4) / 8;
        lemma_rounding_at(x, d, 8);
        lemma_rounding_at(y, d, 8);
        lemma_rounding_at(back, d, 8);
        assert(pow2(d + 1) == 16);
    } else if d == 4 {
        lemma_round_trip_4(x);
        let y = ((x * 16 + 1664) / 3329) % 16;
        let back = (y * 3329 + 8) / 16;
        lemma_rounding_at(x, d, 16);
        lemma_rounding_at(y, d, 16);
        lemma_rounding_at(back, d, 16);
        assert(pow2(d + 1) == 32);
    } else if d == 5 {
        lemma_round_trip_5(x);
        let y = ((x * 32 + 1664) / 3329) % 32;
        let back = (y * 3329 + 16) / 32;
        lemma_rounding_at(x, d, 32);
        lemma_rounding_at(y, d, 32);
        lemma_rounding_at(back, d, 32);
        assert(pow2(d + 1) == 64);
    } else if d == 6 {
        lemma_round_trip_6(x);
        let y = ((x * 64 + 1664) / 3329) % 64;
        let back = (y * 3329 + 32) / 64;
        lemma_rounding_at(x, d, 64);
        lemma_rounding_at(y, d, 64);
        lemma_rounding_at(back, d, 64);
        assert(pow2(d + 1) == 128);
    } else if d == 7 {
        lemma_round_trip_7(x);
        let y = ((x * 128 + 1664) / 3329) % 128;
        let back = (y * 3329 + 64) / 128;
        lemma_rounding_at(x, d, 128);
        lemma_rounding_at(y, d, 128);
        lemma_rounding_at(back, d, 128);
        assert(pow2(d + 1) == 256);
    } else if d == 8 {
        lemma_round_trip_8(x);
        let y = ((x * 256 + 1664) / 3329) % 256;
        let back = (y * 3329 + 128) / 256;
        lemma_rounding_at(x, d, 256);
        lemma_rounding_at(y, d, 256);
        lemma_rounding_at(back, d, 256);
        assert(pow2(d + 1) == 512);
    } else if d == 9 {
        lemma_round_trip_9(x);
        let y = ((x * 512 + 1664) / 3329) % 512;
        let back = (y * 3329 + 256) / 512;
        lemma_rounding_at(x, d, 512);
        lemma_rounding_at(y, d, 512);
        lemma_rounding_at(back, d, 512);
        assert(pow2(d + 1) == 1024);
    } else if d == 10 {
        lemma_round_trip_10(x);
        let y = ((x * 1024 + 1664) / 3329) % 1024;
        let back = (y * 3329 + 512) / 1024;
        lemma_rounding_at(x, d, 1024);
        lemma_rounding_at(y, d, 1024);
        lemma_rounding_at(back, d, 1024);
        assert(pow2(d + 1) == 2048);
    } else if d == 11 {
        lemma_round_trip_11(x);
        let y = ((x * 2048 + 1664) / 3329) % 2048;
        let back = (y * 3329 + 1024) / 2048;
        lemma_rounding_at(x, d, 2048);
        lemma_rounding_at(y, d, 2048);
        lemma_rounding_at(back, d, 2048);
        assert(pow2(d + 1) == 4096);
    }
}

/// Compresses one coefficient, read as a 16-bit word, to `d` bits.
pub(crate) fn compress_coeff(c: i16, d: u32) -> (t: u32)
    requires
        1 <= d <= 11,
    ensures
        t as int == compress_spec(word16(c), d as nat),
        t < pow2(d as nat),
        t < 2048,
{
    let u: u32 = (#[verifier::truncate] (c as u16)) as u32;
    let e: u32 = 1u32 << d;
    proof {
        reveal(compress_spec);
        lemma2_to64();
        assert(u as int == (if c < 0 { c + 65536 } else { c as int })
            && u < 65536) by (bit_vector)
            requires
                u == (c as u16) as u32,
        ;
        assert((u << d) == u * e && (u << d) <= 134215680 && e >= 2 && e <= 2048 && (d == 1 ==> e
            == 2) && (d == 2 ==> e
            == 4) && (d == 3 ==> e == 8) && (d == 4 ==> e == 16) && (d == 5 ==> e == 32) && (d == 6
            ==> e == 64) && (d == 7 ==> e == 128) && (d == 8 ==> e == 256) && (d == 9 ==> e == 512)
            && (d == 10 ==> e == 1024) && (d == 11 ==> e == 2048)) by (bit_vector)
            requires
                u < 65536,
                1 <= d <= 11,
                e == 1u32 << d,
        ;
        assert(e as int == pow2(d as nat));
    }
    let s: u32 = u << d;
    let v: u32 = (s + 1664) / 3329;
    let m: u32 = e - 1;
    let t: u32 = v & m;
    proof {
        assert(t == v % e) by (bit_vector)
            requires
                1 <= d <= 11,
                e == 1u32 << d,
                m == (e - 1) as u32,
                t == v & m,
        ;
        assert(s as int == word16(c) * pow2(d as nat)) by (nonlinear_arith)
            requires
                s == u * e,
                u as int == word16(c),
                e as int == pow2(d as nat),
        ;
    }
    t
}

/// Decompresses a `d`-bit value to a coefficient in `[0, q)`.
pub(crate) fn decompress_coeff(y: u32, d: u32) -> (c: i16)
    requires
        1 <= d <= 11,
        y < pow2(d as nat),
    ensures
        c as int == decompress_spec(y as int, d as nat),
        0 <= c < 3329,
{
    let h: u32 = 1u32 << (d - 1);
    let e: u32 = 1u32 << d;
    proof {
        reveal(decompress_spec);
        lemma2_to64();
        assert(e == 2 * h && e <= 2048 && (d == 1 ==> e == 2) && (d == 2 ==> e == 4) && (d == 3
            ==> e == 8) && (d == 4 ==> e == 16) && (d == 5 ==> e == 32) && (d == 6 ==> e == 64)
            && (d == 7 ==> e == 128) && (d == 8 ==> e == 256) && (d == 9 ==> e == 512) && (d == 10
            ==> e == 1024) && (d == 11 ==> e == 2048)) by (bit_vector)
            requires
                1 <= d <= 11,
                e == 1u32 << d,
                h == 1u32 << ((d - 1) as u32),
        ;
        assert(e as int == pow2(d as nat));
    }
    let v: u32 = y * 3329 + h;
    let c: u32 = v >> d;
    proof {
        assert(c == v / e) by (bit_vector)
            requires
                1 <= d <= 11,
                e == 1u32 << d,
                c == v >> d,
        ;
        assert(v < 3329 * e) by (nonlinear_arith)
            requires
                v == y * 3329 + h,
                y + 1 <= e,
                e == 2 * h,
                2 <= e <= 2048,
        ;
        assert(c < 3329) by (nonlinear_arith)
            requires
                c == v / e,
                v < 3329 * e,
                e >= 2,
        ;
    }
    c as i16
}

/// The 4-bit compression of coefficient `i` after the conditional
/// subtraction of `q`.
pub open spec fn compress4(p: Seq<i16>, i: int) -> int {
    compress_spec(word16(csubq_spec(p[i])), 4)
}

/// The compressed form of a polynomial: 128 bytes, the 4-bit compression of
/// coefficient `2 k` in the low half of byte `k`, that of coefficient
/// `2 k + 1` in the high half.
pub open spec fn poly_compress_spec(p: Seq<i16>) -> Seq<u8> {
    Seq::new(128, |k: int| (compress4(p, 2 * k) + 16 * compress4(p, 2 * k + 1)) as u8)
}

/// The polynomial that 128 compressed bytes stand for: each half byte
/// decompressed from 4 bits.
pub open spec fn poly_decompress_spec(a: Seq<u8>) -> Seq<i16> {
    Seq::new(
        256,
        |i: int|
            decompress_spec(
                if i % 2 == 0 {
                    a[i / 2] as int % 16
                } else {
                    a[i / 2] as int / 16
                },
                4,
            ) as i16,
    )
}

/// Compression and serialization of a polynomial. Subtracts `q` from the
/// coefficients of `a` that are at least `q` before it reads them.
pub fn poly_compress(r: &mut [u8; POLYCOMPRESSEDBYTES], a: &mut Poly)
    ensures
        final(a)@ == poly_csubq_spec(old(a)@),
        final(r)@ == poly_compress_spec(old(a)@),
{
    assert(POLYCOMPRESSEDBYTES == 128);
    let ghost p = a.coeffs@;
    poly_csubq(a);
    let mut k: usize = 0;
    while k < 128
        invariant
            0 <= k <= 128,
            p.len() == 256,
            a.coeffs@ == poly_csubq_spec(p),
            forall|n: int|
                0 <= n < k ==> r@[n] == (compress4(p, 2 * n) + 16 * compress4(p, 2 * n + 1)) as u8,
        decreases 128 - k,
    {
        let t0: u32 = compress_coeff(a.coeffs[2 * k], 4);
        let t1: u32 = compress_coeff(a.coeffs[2 * k + 1], 4);
        proof {
            lemma2_to64();
        }
        let b: u32 = t0 | (t1 << 4);
        proof {
            assert(b == t0 + 16 * t1 && b < 256) by (bit_vector)
                requires
                    t0 < 16,
                    t1 < 16,
                    b == t0 | (t1 << 4),
            ;
        }
        r[k] = b as u8;
        k += 1;
    }
    assert(r@ =~= poly_compress_spec(p));
}

/// Deserialization and decompression of a polynomial: the approximate inverse
/// of `poly_compress`. Every coefficient of the result lies in `[0, q)`.
pub fn poly_decompress(r: &mut Poly, a: &[u8; POLYCOMPRESSEDBYTES])
    ensures
        final(r)@ == poly_decompress_spec(a@),
        canonical(final(r)@),
{
    assert(POLYCOMPRESSEDBYTES == 128);
    let mut i: usize = 0;
    while i < 128
        invariant
            0 <= i <= 128,
            forall|n: int| 0 <= n < 2 * i ==> r.coeffs@[n] == poly_decompress_spec(a@)[n],
            forall|n: int| 0 <= n < 2 * i ==> 0 <= #[trigger] r.coeffs@[n] < 3329,
        decreases 128 - i,
    {
        let x: u8 = a[i];
        let lo: u8 = x & 15;
        let hi: u8 = x >> 4;
        proof {
            lemma2_to64();
            assert(lo == x % 16 && hi == x / 16 && lo < 16 && hi < 16) by (bit_vector)
                requires
                    lo == x & 15,
                    hi == x >> 4,
            ;
        }
        r.coeffs[2 * i] = decompress_coeff(lo as u32, 4);
        r.coeffs[2 * i + 1] = decompress_coeff(hi as u32, 4);
        i += 1;
    }
    assert(r.coeffs@ =~= poly_decompress_spec(a@));
}

/// The low twelve bits of a coefficient, as a number in `[0, 4096)`. A
/// coefficient in `[0, q)` is its own value.
pub open spec fn word12(c: i16) -> int {
    c as int % 4096
}

/// Byte `k` of the serialization: two coefficients of twelve bits fill three
/// bytes, low bits first.
pub open spec fn tobytes_byte(p: Seq<i16>, k: int) -> u8 {
    let w0 = word12(csubq_spec(p[2 * (k / 3)]));
    let w1 = word12(csubq_spec(p[2 * (k / 3) + 1]));
    if k % 3 == 0 {
        (w0 % 256) as u8
    } else if k % 3 == 1 {
        (w0 / 256 + (w1 % 16) * 16) as u8
    } else {
        (w1 / 16) as u8
    }
}

/// The serialization of a polynomial: 384 bytes.
pub open spec fn poly_tobytes_spec(p: Seq<i16>) -> Seq<u8> {
    Seq::new(384, |k: int| tobytes_byte(p, k))
}

/// Coefficient `i` of the polynomial that 384 bytes stand for.
pub open spec fn frombytes_coeff(a: Seq<u8>, i: int) -> i16 {
    if i % 2 == 0 {
        (a[3 * (i / 2)] + 256 * (a[3 * (i / 2) + 1] as int % 16)) as i16
    } else {
        (a[3 * (i / 2) + 1] as int / 16 + 16 * a[3 * (i / 2) + 2]) as i16
    }
}

/// The polynomial that 384 bytes stand for. Every coefficient lies in
/// `[0, 4096)`.
pub open spec fn poly_frombytes_spec(a: Seq<u8>) -> Seq<i16> {
    Seq::new(256, |i: int| frombytes_coeff(a, i))
}

/// Serialization of a polynomial. Subtracts `q` from the coefficients of `a`
/// that are at least `q` before it reads them.
pub fn poly_tobytes(r: &mut [u8; POLYBYTES], a: &mut Poly)
    ensures
        final(a)@ == poly_csubq_spec(old(a)@),
        final(r)@ == poly_tobytes_spec(old(a)@),
{
    let ghost p = a.coeffs@;
    poly_csubq(a);
    let mut i: usize = 0;
    while i < 128
        invariant
            0 <= i <= 128,
            p.len() == 256,
            a.coeffs@ == poly_csubq_spec(p),
            forall|n: int| 0 <= n < 3 * i ==> r@[n] == tobytes_byte(p, n),
        decreases 128 - i,
    {
        let c0: i16 = a.coeffs[2 * i];
        let c1: i16 = a.coeffs[2 * i + 1];
        let t0: u16 = (#[verifier::truncate] (c0 as u16)) & 0xfff;
        let t1: u16 = (#[verifier::truncate] (c1 as u16)) & 0xfff;
        let b0: u16 = t0 & 0xff;
        let b1: u16 = (t0 >> 8) | ((t1 & 0xf) << 4);
        let b2: u16 = t1 >> 4;
        proof {
            assert(t0 as int == (c0 as int) % 4096 && t1 as int == (c1 as int) % 4096) by (bit_vector)
                requires
                    t0 == (c0 as u16) & 0xfff,
                    t1 == (c1 as u16) & 0xfff,
            ;
            assert(b0 == t0 % 256 && b1 == t0 / 256 + (t1 % 16) * 16 && b2 == t1 / 16 && b0 < 256
                && b1 < 256 && b2 < 256) by (bit_vector)
                requires
                    t0 < 4096,
                    t1 < 4096,
                    b0 == t0 & 0xff,
                    b1 == (t0 >> 8) | ((t1 & 0xf) << 4),
                    b2 == t1 >> 4,
            ;
        }
        r[3 * i] = b0 as u8;
        r[3 * i + 1] = b1 as u8;
        r[3 * i + 2] = b2 as u8;
        i += 1;
    }
    assert(r@ =~= poly_tobytes_spec(p));
}

/// Deserialization of a polynomial: the inverse of `poly_tobytes`.
pub fn poly_frombytes(r: &mut Poly, a: &[u8; POLYBYTES])
    ensures
        final(r)@ == poly_frombytes_spec(a@),
        forall|i: int| 0 <= i < 256 ==> 0 <= #[trigger] final(r)@[i] < 4096,
{
    let mut i: usize = 0;
    while i < 128
        invariant
            0 <= i <= 128,
            forall|n: int| 0 <= n < 2 * i ==> r.coeffs@[n] == frombytes_coeff(a@, n),
            forall|n: int| 0 <= n < 2 * i ==> 0 <= #[trigger] r.coeffs@[n] < 4096,
        decreases 128 - i,
    {
        let a0: u16 = a[3 * i] as u16;
        let a1: u16 = a[3 * i + 1] as u16;
        let a2: u16 = a[3 * i + 2] as u16;
        let t0: u16 = (a0 | (a1 << 8)) & 0xfff;
        let t1: u16 = ((a1 >> 4) | (a2 << 4)) & 0xfff;
        proof {
            assert(t0 == a0 + 256 * (a1 % 16) && t1 == a1 / 16 + 16 * a2 && t0 < 4096 && t1
                < 4096) by (bit_vector)
                requires
                    a0 < 256,
                    a1 < 256,
                    a2 < 256,
                    t0 == (a0 | (a1 << 8)) & 0xfff,
                    t1 == ((a1 >> 4) | (a2 << 4)) & 0xfff,
            ;
        }
        r.coeffs[2 * i] = t0 as i16;
        r.coeffs[2 * i + 1] = t1 as i16;
        i += 1;
    }
    assert(r.coeffs@ =~= poly_frombytes_spec(a@));
}

/// Bit `j` of a byte.
pub open spec fn bit_of(x: u8, j: int) -> int {
    (x as int / pow2(j as nat) as int) % 2
}

/// The polynomial that encodes a message of 32 bytes: coefficient `8 i + j`
/// is bit `j` of byte `i` decompressed from one bit, that is 0 or
/// `(q + 1) / 2`.
pub open spec fn poly_frommsg_spec(msg: Seq<u8>) -> Seq<i16> {
    Seq::new(256, |n: int| decompress_spec(bit_of(msg[n / 8], n % 8), 1) as i16)
}

/// The 1-bit compression of coefficient `n` after the conditional
/// subtraction of `q`: 1 if the coefficient is nearer to `q / 2` than to 0
/// modulo `q`, else 0.
pub open spec fn compress1(p: Seq<i16>, n: int) -> int {
    compress_spec(word16(csubq_spec(p[n])), 1)
}

/// The number whose bits 0 to `j - 1` are the 1-bit compressions of
/// coefficients `8 i` to `8 i + j - 1`.
pub open spec fn msg_bits(p: Seq<i16>, i: int, j: int) -> int
    decreases j,
{
    if j <= 0 {
        0
    } else {
        msg_bits(p, i, j - 1) + compress1(p, 8 * i + j - 1) * pow2((j - 1) as nat)
    }
}

/// The message that a polynomial decodes to: 32 bytes, bit `j` of byte `i`
/// the 1-bit compression of coefficient `8 i + j`.
pub open spec fn poly_tomsg_spec(p: Seq<i16>) -> Seq<u8> {
    Seq::new(32, |i: int| msg_bits(p, i, 8) as u8)
}

/// Converts a message of 32 bytes to a polynomial.
pub fn poly_frommsg(r: &mut Poly, msg: &[u8; INDCPA_MSGBYTES])
    ensures
        final(r)@ == poly_frommsg_spec(msg@),
{
    let mut i: usize = 0;
    while i < 32
        invariant
            0 <= i <= 32,
            forall|n: int| 0 <= n < 8 * i ==> r.coeffs@[n] == poly_frommsg_spec(msg@)[n],
        decreases 32 - i,
    {
        let mut j: usize = 0;
        while j < 8
            invariant
                0 <= i < 32,
                0 <= j <= 8,
                forall|n: int| 0 <= n < 8 * i + j ==> r.coeffs@[n] == poly_frommsg_spec(msg@)[n],
            decreases 8 - j,
        {
            let x: u8 = msg[i];
            let b: u8 = (x >> j) & 1;
            let mask: i16 = -(b as i16);
            let c: i16 = mask & 1665;
            proof {
                reveal(decompress_spec);
                lemma2_to64();
                let e: u8 = 1u8 << j;
                assert(b == (x / e) % 2 && e >= 1 && (j == 0 ==> e == 1) && (j == 1 ==> e == 2)
                    && (j == 2 ==> e == 4) && (j == 3 ==> e == 8) && (j == 4 ==> e == 16) && (j
                    == 5 ==> e == 32) && (j == 6 ==> e == 64) && (j == 7 ==> e == 128))
                    by (bit_vector)
                    requires
                        j < 8,
                        b == (x >> j) & 1,
                        e == 1u8 << j,
                ;
                assert(c == if b == 1 { 1665i16 } else { 0i16 }) by (bit_vector)
                    requires
                        b <= 1,
                        mask == (0 - (b as i16)) as i16,
                        c == mask & 1665,
                ;
                assert(e as int == pow2(j as nat));
                assert(b as int == bit_of(x, j as int));
                assert((8 * i + j) / 8 == i && (8 * i + j) % 8 == j);
            }
            r.coeffs[8 * i + j] = c;
            j += 1;
        }
        i += 1;
    }
    assert(r.coeffs@ =~= poly_frommsg_spec(msg@));
}

/// Converts a polynomial to a message of 32 bytes. Subtracts `q` from the
/// coefficients of `a` that are at least `q` before it reads them.
pub fn poly_tomsg(msg: &mut [u8; INDCPA_MSGBYTES], a: &mut Poly)
    ensures
        final(a)@ == poly_csubq_spec(old(a)@),
        final(msg)@ == poly_tomsg_spec(old(a)@),
{
    let ghost p = a.coeffs@;
    poly_csubq(a);
    let mut i: usize = 0;
    while i < 32
        invariant
            0 <= i <= 32,
            p.len() == 256,
            a.coeffs@ == poly_csubq_spec(p),
            forall|n: int| 0 <= n < i ==> msg@[n] == msg_bits(p, n, 8) as u8,
        decreases 32 - i,
    {
        let mut acc: u8 = 0;
        let mut j: usize = 0;
        proof {
            lemma2_to64();
        }
        while j < 8
            invariant
                0 <= i < 32,
                0 <= j <= 8,
                p.len() == 256,
                a.coeffs@ == poly_csubq_spec(p),
                acc as int == msg_bits(p, i as int, j as int),
                acc < pow2(j as nat),
            decreases 8 - j,
        {
            let t32: u32 = compress_coeff(a.coeffs[8 * i + j], 1);
            proof {
                lemma2_to64();
            }
            let t: u8 = t32 as u8;
            let next: u8 = acc | (t << j);
            proof {
                let e: u8 = 1u8 << j;
                assert((j == 0 ==> e == 1) && (j == 1 ==> e == 2) && (j == 2 ==> e == 4) && (j == 3
                    ==> e == 8) && (j == 4 ==> e == 16) && (j == 5 ==> e == 32) && (j == 6 ==> e
                    == 64) && (j == 7 ==> e == 128)) by (bit_vector)
                    requires
                        j < 8,
                        e == 1u8 << j,
                ;
                assert(e as int == pow2(j as nat));
                assert(next == acc + t * e && next < 2 * e) by (bit_vector)
                    requires
                        j < 8,
                        t <= 1,
                        acc < e,
                        e == 1u8 << j,
                        next == acc | (t << j),
                ;
                assert(pow2((j + 1) as nat) == 2 * e);
                assert(t * e == compress1(p, 8 * i + j) * pow2(j as nat)) by (nonlinear_arith)
                    requires
                        t as int == compress1(p, 8 * i + j),
                        e as int == pow2(j as nat),
                ;
            }
            acc = next;
            j += 1;
        }
        msg[i] = acc;
        i += 1;
    }
    assert(msg@ =~= poly_tomsg_spec(p));
}

/// The twiddle factor of the pair of coefficients `2 m` and `2 m + 1` of a
/// transformed polynomial: the pairs of even index take the entries of the
/// upper half of `ZETAS` in turn, each pair of odd index the negative of its
/// predecessor's.
pub open spec fn pair_zeta(m: int) -> i16 {
    if m % 2 == 0 {
        ZETAS[64 + m / 2]
    } else {
        (-ZETAS[64 + m / 2]) as i16
    }
}

/// Coefficient `n` of the product of two transformed polynomials.
pub open spec fn basemul_coeff(a: Seq<i16>, b: Seq<i16>, n: int) -> i16 {
    let m = n / 2;
    let c = basemul_spec(a[2 * m], a[2 * m + 1], b[2 * m], b[2 * m + 1], pair_zeta(m));
    if n % 2 == 0 {
        c.0
    } else {
        c.1
    }
}

/// The product of two polynomials in the transform domain: 128 products of
/// residues of degree one, each with one Montgomery reduction more than its
/// factors.
pub open spec fn poly_basemul_spec(a: Seq<i16>, b: Seq<i16>) -> Seq<i16> {
    Seq::new(256, |n: int| basemul_coeff(a, b, n))
}

/// Multiplication of two polynomials in the transform domain.
pub fn poly_basemul_montgomery(r: &mut Poly, a: &Poly, b: &Poly)
    ensures
        final(r)@ == poly_basemul_spec(a@, b@),
{
    let mut i: usize = 0;
    while i < 64
        invariant
            0 <= i <= 64,
            forall|n: int| 0 <= n < 4 * i ==> r.coeffs@[n] == basemul_coeff(a@, b@, n),
        decreases 64 - i,
    {
        proof {
            lemma_zetas_range(64 + i);
        }
        let zeta: i16 = ZETAS[64 + i];
        let lo = basemul_pair(
            a.coeffs[4 * i],
            a.coeffs[4 * i + 1],
            b.coeffs[4 * i],
            b.coeffs[4 * i + 1],
            zeta,
        );
        let hi = basemul_pair(
            a.coeffs[4 * i + 2],
            a.coeffs[4 * i + 3],
            b.coeffs[4 * i + 2],
            b.coeffs[4 * i + 3],
            -zeta,
        );
        r.coeffs[4 * i] = lo.0;
        r.coeffs[4 * i + 1] = lo.1;
        r.coeffs[4 * i + 2] = hi.0;
        r.coeffs[4 * i + 3] = hi.1;
        i += 1;
    }
    assert(r.coeffs@ =~= poly_basemul_spec(a@, b@));
}

/// The noise polynomial that a seed and a nonce determine: the centered
/// binomial sample from 128 bytes of the pseudorandom function.
pub open spec fn poly_getnoise_spec(seed: Seq<u8>, nonce: u8) -> Seq<i16> {
    cbd2_spec(shake256(seed + seq![nonce], 128))
}

/// Samples a polynomial deterministically from a seed and a nonce, with
/// coefficients of the noise width of secrets.
pub fn poly_getnoise_eta1(r: &mut Poly, seed: &[u8; 32], nonce: u8)
    ensures
        final(r)@ == poly_getnoise_spec(seed@, nonce),
        small(final(r)@),
{
    let mut buf = [0u8;128];
    prf(&mut buf, seed, nonce);
    cbd_eta1(r, &buf);
}

/// Samples a polynomial deterministically from a seed and a nonce, with
/// coefficients of the noise width of errors.
pub fn poly_getnoise_eta2(r: &mut Poly, seed: &[u8; 32], nonce: u8)
    ensures
        final(r)@ == poly_getnoise_spec(seed@, nonce),
        small(final(r)@),
{
    let mut buf = [0u8;128];
    prf(&mut buf, seed, nonce);
    cbd_eta2(r, &buf);
}

/// Deserialization inverts serialization. For a polynomial whose
/// coefficients lie in `[0, 4096)` once `q` is subtracted from those that
/// are at least `q`, the bytes of its serialization stand for the polynomial
/// with `q` subtracted so; for coefficients in `[0, q)` that is the
/// polynomial itself.
pub proof fn lemma_frombytes_tobytes(p: Seq<i16>)
    requires
        p.len() == 256,
        forall|i: int| 0 <= i < 256 ==> 0 <= #[trigger] csubq_spec(p[i]) < 4096,
    ensures
        poly_frombytes_spec(poly_tobytes_spec(p)) == poly_csubq_spec(p),
        canonical(p) ==> poly_frombytes_spec(poly_tobytes_spec(p)) == p,
{
    let bytes = poly_tobytes_spec(p);
    assert forall|i: int| 0 <= i < 256 implies frombytes_coeff(bytes, i) == csubq_spec(p[i]) by {
        let g = i / 2;
        assert(bytes[3 * g] == tobytes_byte(p, 3 * g));
        assert(bytes[3 * g + 1] == tobytes_byte(p, 3 * g + 1));
        assert(bytes[3 * g + 2] == tobytes_byte(p, 3 * g + 2));
        assert(0 <= csubq_spec(p[2 * g]) < 4096);
        assert(0 <= csubq_spec(p[2 * g + 1]) < 4096);
    }
    assert(poly_frombytes_spec(bytes) =~= poly_csubq_spec(p));
    if canonical(p) {
        assert(poly_csubq_spec(p) =~= p);
    }
}

/// The value of the eight bits of a byte: the byte itself.
proof fn lemma_byte_of_bits(x: u8)
    ensures
        bit_of(x, 0) + 2 * bit_of(x, 1) + 4 * bit_of(x, 2) + 8 * bit_of(x, 3) + 16 * bit_of(x, 4)
            + 32 * bit_of(x, 5) + 64 * bit_of(x, 6) + 128 * bit_of(x, 7) == x,
{
    lemma2_to64();
    assert(x % 2 + 2 * ((x / 2) % 2) + 4 * ((x / 4) % 2) + 8 * ((x / 8) % 2) + 16 * ((x / 16) % 2)
        + 32 * ((x / 32) % 2) + 64 * ((x / 64) % 2) + 128 * ((x / 128) % 2) == x) by (bit_vector);
    assert(pow2(0nat) == 1);
    assert(bit_of(x, 0) == (x as int / pow2(0nat) as int) % 2);
    assert(bit_of(x, 0) == x % 2);
    assert(bit_of(x, 1) == (x / 2) % 2);
    assert(bit_of(x, 2) == (x / 4) % 2);
    assert(bit_of(x, 3) == (x / 8) % 2);
    assert(bit_of(x, 4) == (x / 16) % 2);
    assert(bit_of(x, 5) == (x / 32) % 2);
    assert(bit_of(x, 6) == (x / 64) % 2);
    assert(bit_of(x, 7) == (x / 128) % 2);
}

/// A polynomial whose 1-bit compressions are the bits of a message decodes
/// to that message.
proof fn lemma_tomsg_bits(p: Seq<i16>, msg: Seq<u8>)
    requires
        msg.len() == 32,
        forall|n: int| 0 <= n < 256 ==> #[trigger] compress1(p, n) == bit_of(msg[n / 8], n % 8),
    ensures
        poly_tomsg_spec(p) == msg,
{
    lemma2_to64();
    assert forall|i: int| 0 <= i < 32 implies msg_bits(p, i, 8) == msg[i] by {
        reveal_with_fuel(msg_bits, 9);
        lemma_byte_of_bits(msg[i]);
        assert(compress1(p, 8 * i + 0) == bit_of(msg[(8 * i + 0) / 8], (8 * i + 0) % 8));
        assert(compress1(p, 8 * i + 0) * pow2(0) == 1 * bit_of(msg[i], 0)) by (nonlinear_arith)
            requires
                compress1(p, 8 * i + 0) == bit_of(msg[i], 0),
                pow2(0) == 1,
        ;
        assert(compress1(p, 8 * i + 1) == bit_of(msg[(8 * i + 1) / 8], (8 * i + 1) % 8));
        assert(compress1(p, 8 * i + 1) * pow2(1) == 2 * bit_of(msg[i], 1)) by (nonlinear_arith)
            requires
                compress1(p, 8 * i + 1) == bit_of(msg[i], 1),
                pow2(1) == 2,
        ;
        assert(compress1(p, 8 * i + 2) == bit_of(msg[(8 * i + 2) / 8], (8 * i + 2) % 8));
        assert(compress1(p, 8 * i + 2) * pow2(2) == 4 * bit_of(msg[i], 2)) by (nonlinear_arith)
            requires
                compress1(p, 8 * i + 2) == bit_of(msg[i], 2),
                pow2(2) == 4,
        ;
        assert(compress1(p, 8 * i + 3) == bit_of(msg[(8 * i + 3) / 8], (8 * i + 3) % 8));
        assert(compress1(p, 8 * i + 3) * pow2(3) == 8 * bit_of(msg[i], 3)) by (nonlinear_arith)
            requires
                compress1(p, 8 * i + 3) == bit_of(msg[i], 3),
                pow2(3) == 8,
        ;
        assert(compress1(p, 8 * i + 4) == bit_of(msg[(8 * i + 4) / 8], (8 * i + 4) % 8));
        assert(compress1(p, 8 * i + 4) * pow2(4) == 16 * bit_of(msg[i], 4)) by (nonlinear_arith)
            requires
                compress1(p, 8 * i + 4) == bit_of(msg[i], 4),
                pow2(4) == 16,
        ;
        assert(compress1(p, 8 * i + 5) == bit_of(msg[(8 * i + 5) / 8], (8 * i + 5) % 8));
        assert(compress1(p, 8 * i + 5) * pow2(5) == 32 * bit_of(msg[i], 5)) by (nonlinear_arith)
            requires
                compress1(p, 8 * i + 5) == bit_of(msg[i], 5),
                pow2(5) == 32,
        ;
        assert(compress1(p, 8 * i + 6) == bit_of(msg[(8 * i + 6) / 8], (8 * i + 6) % 8));
        assert(compress1(p, 8 * i + 6) * pow2(6) == 64 * bit_of(msg[i], 6)) by (nonlinear_arith)
            requires
                compress1(p, 8 * i + 6) == bit_of(msg[i], 6),
                pow2(6) == 64,
        ;
        assert(compress1(p, 8 * i + 7) == bit_of(msg[(8 * i + 7) / 8], (8 * i + 7) % 8));
        assert(compress1(p, 8 * i + 7) * pow2(7) == 128 * bit_of(msg[i], 7)) by (nonlinear_arith)
            requires
                compress1(p, 8 * i + 7) == bit_of(msg[i], 7),
                pow2(7) == 128,
        ;
    }
    assert(poly_tomsg_spec(p) =~= msg);
}

/// Decoding inverts encoding: the polynomial that encodes a message of 32
/// bytes decodes to that message.
pub proof fn lemma_tomsg_frommsg(msg: Seq<u8>)
    requires
        msg.len() == 32,
    ensures
        poly_tomsg_spec(poly_frommsg_spec(msg)) == msg,
{
    let p = poly_frommsg_spec(msg);
    lemma2_to64();
    assert forall|n: int| 0 <= n < 256 implies #[trigger] compress1(p, n) == bit_of(
        msg[n / 8],
        n % 8,
    ) by {
        reveal(compress_spec);
        reveal(decompress_spec);
        let b = bit_of(msg[n / 8], n % 8);
        assert(b == 0 || b == 1);
        assert(p[n] == decompress_spec(b, 1) as i16);
        assert(decompress_spec(b, 1) == 1665 * b);
    }
    lemma_tomsg_bits(p, msg);
}

/// The noise that decoding bears: a number whose residue modulo `q` is
/// within a quarter of `q` of zero, from -832 to 831.
pub open spec fn small_noise(d: int) -> bool {
    d % 3329 <= 831 || d % 3329 >= 2497
}

/// Decoding bears small noise. A polynomial with coefficients in `[0, q)`,
/// each congruent to the coefficient of the encoding of a message plus small
/// noise, decodes to that message.
pub proof fn lemma_decode(p: Seq<i16>, msg: Seq<u8>, noise: Seq<int>)
    requires
        canonical(p),
        msg.len() == 32,
        forall|n: int|
            0 <= n < 256 ==> congruent(
                #[trigger] p[n] as int,
                poly_frommsg_spec(msg)[n] + noise[n],
            ),
        forall|n: int| 0 <= n < 256 ==> small_noise(#[trigger] noise[n]),
    ensures
        poly_tomsg_spec(p) == msg,
{
    lemma2_to64();
    assert forall|n: int| 0 <= n < 256 implies #[trigger] compress1(p, n) == bit_of(
        msg[n / 8],
        n % 8,
    ) by {
        reveal(compress_spec);
        reveal(decompress_spec);
        reveal(congruent);
        let b = bit_of(msg[n / 8], n % 8);
        let d = noise[n];
        assert(b == 0 || b == 1);
        assert(poly_frommsg_spec(msg)[n] == decompress_spec(b, 1) as i16);
        assert(decompress_spec(b, 1) == 1665 * b);
        assert(congruent(p[n] as int, poly_frommsg_spec(msg)[n] + noise[n]));
        assert(small_noise(d));
        assert(0 <= p[n] < 3329);
        let c = d % 3329;
        let k = d / 3329;
        assert(d == 3329 * k + c);
        let x = p[n] as int;
        assert((x - (1665 * b + d)) % 3329 == 0);
        assert(x == (1665 * b + c) % 3329);
        assert(compress1(p, n) == ((x * 2 + 1664) / 3329) % 2);
    }
    lemma_tomsg_bits(p, msg);
}

/// The polynomial that compression to `d` bits and decompression turn a
/// polynomial into.
pub open spec fn poly_rounded(p: Seq<i16>, d: nat) -> Seq<i16> {
    Seq::new(
        256,
        |i: int| decompress_spec(compress_spec(word16(csubq_spec(p[i])), d), d) as i16,
    )
}

/// Unpacking inverts packing: the compressed bytes of a polynomial
/// decompress to the polynomial with every coefficient compressed to 4 bits
/// and decompressed.
pub proof fn lemma_decompress_compress(p: Seq<i16>)
    requires
        p.len() == 256,
    ensures
        poly_decompress_spec(poly_compress_spec(p)) == poly_rounded(p, 4),
{
    let bytes = poly_compress_spec(p);
    lemma2_to64();
    assert forall|i: int| 0 <= i < 256 implies poly_decompress_spec(bytes)[i] == poly_rounded(
        p,
        4,
    )[i] by {
        let k = i / 2;
        let lo = compress4(p, 2 * k);
        let hi = compress4(p, 2 * k + 1);
        lemma_rounding_at(word16(csubq_spec(p[2 * k])), 4, 16);
        lemma_rounding_at(word16(csubq_spec(p[2 * k + 1])), 4, 16);
        assert(0 <= lo < 16 && 0 <= hi < 16);
        assert(bytes[k] == (lo + 16 * hi) as u8);
    }
    assert(poly_decompress_spec(bytes) =~= poly_rounded(p, 4));
}

/// Every coefficient of the encoding of a message is 0 or `(q + 1) / 2`.
pub proof fn lemma_frommsg_range(msg: Seq<u8>, n: int)
    requires
        0 <= n < 256,
    ensures
        poly_frommsg_spec(msg)[n] == 0 || poly_frommsg_spec(msg)[n] == 1665,
{
    reveal(decompress_spec);
    lemma2_to64();
    let b = bit_of(msg[n / 8], n % 8);
    assert(b == 0 || b == 1);
    assert(decompress_spec(b, 1) == 1665 * b);
}

} // verus!
