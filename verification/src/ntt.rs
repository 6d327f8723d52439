//! The number-theoretic transform of the ring `Z_q[X]/(X^256 + 1)`: seven
//! layers of butterflies forward, seven backward, and the multiplication of
//! two degree-one residues.
//!
//! Every function is specified by what it computes on 16-bit words, wrapping
//! included, so that the contracts hold of every input. The congruences
//! modulo `q` that hold when nothing wraps are proved beside them.

use vstd::prelude::*;
use vstd::arithmetic::div_mod::lemma_fundamental_div_mod_converse;
use crate::params::N;
use crate::ntt_proofs::lemma_basemul_spec;
use crate::reduce::{barrett_reduce, centered16, congruent, double_width_product,
    lemma_montgomery_spec, montgomery_domain, montgomery_reduce, montgomery_spec};

verus! {

/// Powers of the 256th root of unity 17 in bit-reversed order, each times
/// the Montgomery factor.
pub const ZETAS: [i16; 128] = [
    2285, 2571, 2970, 1812, 1493, 1422, 287, 202, 3158, 622, 1577, 182, 962, 2127, 1855, 1468,
    573, 2004, 264, 383, 2500, 1458, 1727, 3199, 2648, 1017, 732, 608, 1787, 411, 3124, 1758,
    1223, 652, 2777, 1015, 2036, 1491, 3047, 1785, 516, 3321, 3009, 2663, 1711, 2167, 126, 1469,
    2476, 3239, 3058, 830, 107, 1908, 3082, 2378, 2931, 961, 1821, 2604, 448, 2264, 677, 2054,
    2226, 430, 555, 843, 2078, 871, 1550, 105, 422, 587, 177, 3094, 3038, 2869, 1574, 1653,
    3083, 778, 1159, 3182, 2552, 1483, 2727, 1119, 1739, 644, 2457, 349, 418, 329, 3173, 3254,
    817, 1097, 603, 610, 1322, 2044, 1864, 384, 2114, 3193, 1218, 1994, 2455, 220, 2142, 1670,
    2144, 1799, 2051, 794, 1819, 2475, 2459, 478, 3221, 3021, 996, 991, 958, 1869, 1522, 1628,
];

/// The inverses of the entries of `ZETAS`, in the order in which the inverse
/// transform meets them; the last entry is `2^32 / 128 mod q`.
pub const ZETAS_INV: [i16; 128] = [
    1701, 1807, 1460, 2371, 2338, 2333, 308, 108, 2851, 870, 854, 1510, 2535, 1278, 1530, 1185,
    1659, 1187, 3109, 874, 1335, 2111, 136, 1215, 2945, 1465, 1285, 2007, 2719, 2726, 2232, 2512,
    75, 156, 3000, 2911, 2980, 872, 2685, 1590, 2210, 602, 1846, 777, 147, 2170, 2551, 246,
    1676, 1755, 460, 291, 235, 3152, 2742, 2907, 3224, 1779, 2458, 1251, 2486, 2774, 2899, 1103,
    1275, 2652, 1065, 2881, 725, 1508, 2368, 398, 951, 247, 1421, 3222, 2499, 271, 90, 853,
    1860, 3203, 1162, 1618, 666, 320, 8, 2813, 1544, 282, 1838, 1293, 2314, 552, 2677, 2106,
    1571, 205, 2918, 1542, 2721, 2597, 2312, 681, 130, 1602, 1871, 829, 2946, 3065, 1325, 2756,
    1861, 1474, 1202, 2367, 3147, 1752, 2707, 171, 3127, 3042, 1907, 1836, 1517, 359, 758, 1441,
];

/// The sum of two words, wrapped to 16 bits.
pub open spec fn add16(a: i16, b: i16) -> i16 {
    centered16(a + b) as i16
}

/// The difference of two words, wrapped to 16 bits.
pub open spec fn sub16(a: i16, b: i16) -> i16 {
    centered16(a - b) as i16
}

/// The Montgomery reduction of the product of two words.
#[verifier::opaque]
pub open spec fn fqmul_spec(a: i16, b: i16) -> i16 {
    montgomery_spec(a * b) as i16
}

/// Every entry of both tables lies in `[0, q)`.
pub proof fn lemma_zetas_range(k: int)
    requires
        0 <= k < 128,
    ensures
        0 <= ZETAS[k] < 3329,
        0 <= ZETAS_INV[k] < 3329,
{
    assert(forall|i: int| 0 <= i < 128 ==> 0 <= #[trigger] ZETAS[i] < 3329);
    assert(forall|i: int| 0 <= i < 128 ==> 0 <= #[trigger] ZETAS_INV[i] < 3329);
}

/// The product of two words is a double-width product, and its Montgomery
/// reduction fits in a word.
pub proof fn lemma_fqmul_spec(a: i16, b: i16)
    ensures
        double_width_product(a * b),
        fqmul_spec(a, b) as int == montgomery_spec(a * b),
        congruent(fqmul_spec(a, b) * 65536, a * b),
        -18049 <= fqmul_spec(a, b) <= 18049,
        montgomery_domain(a * b) ==> -3329 < fqmul_spec(a, b) < 3329,
{
    reveal(fqmul_spec);
    assert(-1073741824 <= a * b <= 1073741824) by (nonlinear_arith)
        requires
            -32768 <= a <= 32767,
            -32768 <= b <= 32767,
    ;
    lemma_montgomery_spec(a * b);
}

/// Multiplication followed by Montgomery reduction: a word congruent to
/// `a b 2^-16` modulo `q`.
pub fn fqmul(a: i16, b: i16) -> (r: i16)
    ensures
        r == fqmul_spec(a, b),
        congruent(r * 65536, a * b),
        montgomery_domain(a * b) ==> -3329 < r < 3329,
{
    proof {
        lemma_fqmul_spec(a, b);
    }
    montgomery_reduce((a as i32) * (b as i32))
}

/// Coefficient `j` after the forward layer of block length `len`: the
/// lower half of each block of `2 len` receives `a + zeta b`, the upper half
/// `a - zeta b`, with one twiddle factor for each block.
pub open spec fn ntt_butterfly(p: Seq<i16>, len: int, j: int) -> i16 {
    let zeta = ZETAS[128int / len + j / (2 * len)];
    if j % (2 * len) < len {
        add16(p[j], fqmul_spec(zeta, p[j + len]))
    } else {
        sub16(p[j - len], fqmul_spec(zeta, p[j]))
    }
}

/// One forward layer.
pub open spec fn ntt_layer(p: Seq<i16>, len: int) -> Seq<i16> {
    Seq::new(256, |j: int| ntt_butterfly(p, len, j))
}

/// The forward layers of block lengths `len`, `len / 2`, ..., 2, in turn.
pub open spec fn ntt_layers(p: Seq<i16>, len: int) -> Seq<i16>
    decreases len,
{
    if len < 2 {
        p
    } else {
        ntt_layers(ntt_layer(p, len), len / 2)
    }
}

/// The forward transform: seven layers, from block length 128 down to 2.
pub open spec fn ntt_spec(p: Seq<i16>) -> Seq<i16> {
    ntt_layers(p, 128)
}

/// Coefficient `j` after the inverse layer of block length `len`: the lower
/// half of each block receives the reduced sum `a + b`, the upper half
/// `zeta (a - b)`.
pub open spec fn invntt_butterfly(p: Seq<i16>, len: int, j: int) -> i16 {
    let zeta = ZETAS_INV[128 - 256int / len + j / (2 * len)];
    if j % (2 * len) < len {
        (add16(p[j], p[j + len]) % 3329) as i16
    } else {
        fqmul_spec(zeta, sub16(p[j - len], p[j]))
    }
}

/// One inverse layer.
pub open spec fn invntt_layer(p: Seq<i16>, len: int) -> Seq<i16> {
    Seq::new(256, |j: int| invntt_butterfly(p, len, j))
}

/// The inverse layers of block lengths `len`, `2 len`, ..., 128, in turn.
pub open spec fn invntt_layers(p: Seq<i16>, len: int) -> Seq<i16>
    decreases 256 - len,
{
    if len > 128 || len < 1 {
        p
    } else {
        invntt_layers(invntt_layer(p, len), 2 * len)
    }
}

/// Every coefficient multiplied by the last entry of `ZETAS_INV`.
pub open spec fn invntt_scale(p: Seq<i16>) -> Seq<i16> {
    Seq::new(256, |j: int| fqmul_spec(p[j], 1441))
}

/// The inverse transform: seven layers, from block length 2 up to 128, and
/// the final scaling. It leaves the result times the Montgomery factor.
pub open spec fn invntt_spec(p: Seq<i16>) -> Seq<i16> {
    invntt_scale(invntt_layers(p, 2))
}

/// Index `blk * 2 len + d` lies in block `blk`, at offset `d`.
proof fn lemma_block_index(len: int, blk: int, d: int)
    requires
        len > 0,
        0 <= d < 2 * len,
    ensures
        (blk * (2 * len) + d) / (2 * len) == blk,
        (blk * (2 * len) + d) % (2 * len) == d,
{
    lemma_fundamental_div_mod_converse(blk * (2 * len) + d, 2 * len, blk, d);
}

/// A quotient that leaves no remainder.
proof fn lemma_exact_quotient(x: int, len: int, c: int)
    requires
        len > 0,
        c * len == x,
    ensures
        x / len == c,
{
    lemma_fundamental_div_mod_converse(x, len, c, 0);
}

/// The two butterflies of the pair `j`, `j + len` in block `blk` of a
/// forward layer.
pub proof fn lemma_ntt_pair(p: Seq<i16>, len: int, k0: int, blk: int, j: int)
    requires
        len > 0,
        k0 * len == 128,
        blk * (2 * len) <= j < blk * (2 * len) + len,
    ensures
        ntt_butterfly(p, len, j) == add16(p[j], fqmul_spec(ZETAS[k0 + blk], p[j + len])),
        ntt_butterfly(p, len, j + len) == sub16(p[j], fqmul_spec(ZETAS[k0 + blk], p[j + len])),
{
    lemma_exact_quotient(128, len, k0);
    lemma_block_index(len, blk, j - blk * (2 * len));
    lemma_block_index(len, blk, j - blk * (2 * len) + len);
}

/// The two butterflies of the pair `j`, `j + len` in block `blk` of an
/// inverse layer.
pub proof fn lemma_invntt_pair(p: Seq<i16>, len: int, nb: int, blk: int, j: int)
    requires
        len > 0,
        nb * len == 128,
        blk * (2 * len) <= j < blk * (2 * len) + len,
    ensures
        invntt_butterfly(p, len, j) == (add16(p[j], p[j + len]) % 3329) as i16,
        invntt_butterfly(p, len, j + len) == fqmul_spec(
            ZETAS_INV[128 - 2 * nb + blk],
            sub16(p[j], p[j + len]),
        ),
{
    assert((2 * nb) * len == 256) by (nonlinear_arith)
        requires
            nb * len == 128,
    ;
    lemma_exact_quotient(256, len, 2 * nb);
    lemma_block_index(len, blk, j - blk * (2 * len));
    lemma_block_index(len, blk, j - blk * (2 * len) + len);
}

/// One butterfly of the forward transform: `a + zeta b` and `a - zeta b`.
fn butterfly(a: i16, b: i16, zeta: i16) -> (r: (i16, i16))
    ensures
        r.0 == add16(a, fqmul_spec(zeta, b)),
        r.1 == sub16(a, fqmul_spec(zeta, b)),
{
    let t = fqmul(zeta, b);
    (a.wrapping_add(t), a.wrapping_sub(t))
}

/// One butterfly of the inverse transform: the reduced `a + b`, and
/// `zeta (a - b)`.
fn inverse_butterfly(a: i16, b: i16, zeta: i16) -> (r: (i16, i16))
    ensures
        r.0 == (add16(a, b) % 3329) as i16,
        r.1 == fqmul_spec(zeta, sub16(a, b)),
{
    (barrett_reduce(a.wrapping_add(b)), fqmul(zeta, a.wrapping_sub(b)))
}

/// In-place forward transform. The input is in standard order, the output in
/// bit-reversed order.
pub fn ntt(r: &mut [i16; N])
    ensures
        final(r)@ == ntt_spec(old(r)@),
{
    let mut k: usize = 1;
    let mut len: usize = 128;
    while len >= 2
        invariant
            1 <= len <= 128,
            k * len == 128,
            len == 1 || len == 2 || len == 4 || len == 8 || len == 16 || len == 32 || len == 64
                || len == 128,
            ntt_layers(r@, len as int) == ntt_spec(old(r)@),
        decreases len,
    {
        let ghost p = r@;
        let ghost target = ntt_layer(p, len as int);
        let ghost k0 = k as int;
        let ghost mut blk: int = 0;
        let mut start: usize = 0;
        proof {
            lemma_exact_quotient(128, len as int, k0);
        }
        while start < 256
            invariant
                2 <= len <= 128,
                k0 * len == 128,
                128int / (len as int) == k0,
                0 <= blk <= k0,
                start == blk * (2 * len),
                k == k0 + blk,
                start <= 256,
                p.len() == 256,
                target == ntt_layer(p, len as int),
                forall|i: int| 0 <= i < start ==> r@[i] == target[i],
                forall|i: int| start <= i < 256 ==> r@[i] == p[i],
            decreases 256 - start,
        {
            proof {
                assert(blk < k0) by (nonlinear_arith)
                    requires
                        blk * (2 * len) < 256,
                        k0 * len == 128,
                        0 <= blk <= k0,
                        len >= 2,
                ;
                assert((blk + 1) * (2 * len) <= 256) by (nonlinear_arith)
                    requires
                        blk + 1 <= k0,
                        k0 * len == 128,
                        len >= 2,
                ;
                assert(k0 <= 64) by (nonlinear_arith)
                    requires
                        k0 * len == 128,
                        len >= 2,
                ;
                assert((blk + 1) * (2 * len) == start + 2 * len) by (nonlinear_arith)
                    requires
                        start == blk * (2 * len),
                ;
            }
            let zeta = ZETAS[k];
            k += 1;
            let mut j: usize = start;
            while j < start + len
                invariant
                    2 <= len <= 128,
                    k0 * len == 128,
                    start == blk * (2 * len),
                    start + 2 * len <= 256,
                    start <= j <= start + len,
                    zeta == ZETAS[k0 + blk],
                    0 <= k0 + blk < 128,
                    p.len() == 256,
                    target == ntt_layer(p, len as int),
                    forall|i: int| 0 <= i < start ==> r@[i] == target[i],
                    forall|i: int| start <= i < j ==> r@[i] == target[i],
                    forall|i: int| start + len <= i < j + len ==> r@[i] == target[i],
                    forall|i: int| j <= i < start + len ==> r@[i] == p[i],
                    forall|i: int| j + len <= i < 256 ==> r@[i] == p[i],
                decreases start + len - j,
            {
                proof {
                    lemma_ntt_pair(p, len as int, k0, blk, j as int);
                    assert(target[j as int] == ntt_butterfly(p, len as int, j as int));
                    assert(target[j + len] == ntt_butterfly(p, len as int, j + len));
                }
                let pair = butterfly(r[j], r[j + len], zeta);
                r[j] = pair.0;
                r[j + len] = pair.1;
                j += 1;
            }
            start = j + len;
            proof {
                blk = blk + 1;
            }
        }
        proof {
            assert(blk == k0) by (nonlinear_arith)
                requires
                    blk * (2 * len) == 256,
                    k0 * len == 128,
                    len >= 2,
            ;
            assert(r@ =~= target);
            assert((2 * k0) * (len as int / 2) == 128) by (nonlinear_arith)
                requires
                    k0 * len == 128,
                    len % 2 == 0,
            ;
        }
        len = len / 2;
    }
}

/// In-place inverse transform and multiplication by the Montgomery factor.
/// The input is in bit-reversed order, the output in standard order.
pub fn invntt(r: &mut [i16; N])
    ensures
        final(r)@ == invntt_spec(old(r)@),
{
    let mut k: usize = 0;
    let mut len: usize = 2;
    while len <= 128
        invariant
            0 <= k <= 127,
            (128 - k) * len == 256,
            len == 2 || len == 4 || len == 8 || len == 16 || len == 32 || len == 64 || len == 128
                || len == 256,
            invntt_layers(r@, len as int) == invntt_layers(old(r)@, 2),
        decreases 256 - len,
    {
        let ghost p = r@;
        let ghost target = invntt_layer(p, len as int);
        let ghost k0 = k as int;
        let ghost nb: int = 128int / (len as int);
        let ghost mut blk: int = 0;
        let mut start: usize = 0;
        proof {
            assert(nb * len == 128);
            assert(128 - k0 == 2 * nb) by (nonlinear_arith)
                requires
                    (128 - k0) * len == 256,
                    nb * len == 128,
                    len >= 2,
            ;
            lemma_exact_quotient(256, len as int, 2 * nb);
        }
        while start < 256
            invariant
                2 <= len <= 128,
                nb * len == 128,
                k0 == 128 - 2 * nb,
                256int / (len as int) == 2 * nb,
                0 <= blk <= nb,
                start == blk * (2 * len),
                k == k0 + blk,
                start <= 256,
                p.len() == 256,
                target == invntt_layer(p, len as int),
                forall|i: int| 0 <= i < start ==> r@[i] == target[i],
                forall|i: int| start <= i < 256 ==> r@[i] == p[i],
            decreases 256 - start,
        {
            proof {
                assert(blk < nb) by (nonlinear_arith)
                    requires
                        blk * (2 * len) < 256,
                        nb * len == 128,
                        0 <= blk <= nb,
                        len >= 2,
                ;
                assert((blk + 1) * (2 * len) <= 256) by (nonlinear_arith)
                    requires
                        blk + 1 <= nb,
                        nb * len == 128,
                        len >= 2,
                ;
                assert(1 <= nb <= 64) by (nonlinear_arith)
                    requires
                        nb * len == 128,
                        2 <= len <= 128,
                ;
                assert((blk + 1) * (2 * len) == start + 2 * len) by (nonlinear_arith)
                    requires
                        start == blk * (2 * len),
                ;
            }
            let zeta = ZETAS_INV[k];
            k += 1;
            let mut j: usize = start;
            while j < start + len
                invariant
                    2 <= len <= 128,
                    nb * len == 128,
                    k0 == 128 - 2 * nb,
                    start == blk * (2 * len),
                    start + 2 * len <= 256,
                    start <= j <= start + len,
                    zeta == ZETAS_INV[k0 + blk],
                    0 <= k0 + blk < 128,
                    p.len() == 256,
                    target == invntt_layer(p, len as int),
                    forall|i: int| 0 <= i < start ==> r@[i] == target[i],
                    forall|i: int| start <= i < j ==> r@[i] == target[i],
                    forall|i: int| start + len <= i < j + len ==> r@[i] == target[i],
                    forall|i: int| j <= i < start + len ==> r@[i] == p[i],
                    forall|i: int| j + len <= i < 256 ==> r@[i] == p[i],
                decreases start + len - j,
            {
                proof {
                    lemma_invntt_pair(p, len as int, nb, blk, j as int);
                    assert(target[j as int] == invntt_butterfly(p, len as int, j as int));
                    assert(target[j + len] == invntt_butterfly(p, len as int, j + len));
                }
                let pair = inverse_butterfly(r[j], r[j + len], zeta);
                r[j] = pair.0;
                r[j + len] = pair.1;
                j += 1;
            }
            start = j + len;
            proof {
                blk = blk + 1;
            }
        }
        proof {
            assert(blk == nb) by (nonlinear_arith)
                requires
                    blk * (2 * len) == 256,
                    nb * len == 128,
                    len >= 2,
            ;
            assert(r@ =~= target);
            assert((128 - (k0 + nb)) * (2 * len) == 256) by (nonlinear_arith)
                requires
                    k0 == 128 - 2 * nb,
                    nb * len == 128,
            ;
        }
        len = 2 * len;
    }
    let ghost p = r@;
    let mut j: usize = 0;
    while j < 256
        invariant
            0 <= j <= 256,
            p.len() == 256,
            forall|i: int| 0 <= i < j ==> r@[i] == fqmul_spec(p[i], 1441),
            forall|i: int| j <= i < 256 ==> r@[i] == p[i],
        decreases 256 - j,
    {
        r[j] = fqmul(r[j], ZETAS_INV[127]);
        j += 1;
    }
    assert(r@ =~= invntt_scale(p));
}

/// The product of `a0 + a1 X` and `b0 + b1 X` modulo `X^2 - zeta`, each
/// coefficient with one Montgomery reduction more than its factors.
pub open spec fn basemul_spec(a0: i16, a1: i16, b0: i16, b1: i16, zeta: i16) -> (i16, i16) {
    (
        add16(fqmul_spec(fqmul_spec(a1, b1), zeta), fqmul_spec(a0, b0)),
        add16(fqmul_spec(a0, b1), fqmul_spec(a1, b0)),
    )
}

/// The two coefficients of the product of `a0 + a1 X` and `b0 + b1 X`
/// modulo `X^2 - zeta`.
pub fn basemul_pair(a0: i16, a1: i16, b0: i16, b1: i16, zeta: i16) -> (r: (i16, i16))
    ensures
        r == basemul_spec(a0, a1, b0, b1, zeta),
        (-3329 < b0 < 3329 && -3329 < b1 < 3329) ==> congruent(
            r.0 * 4294967296,
            a1 * b1 * zeta + a0 * b0 * 65536,
        ) && congruent(r.1 * 65536, a0 * b1 + a1 * b0),
{
    proof {
        if -3329 < b0 < 3329 && -3329 < b1 < 3329 {
            lemma_basemul_spec(a0, a1, b0, b1, zeta);
        }
    }
    let x = fqmul(a1, b1);
    let y = fqmul(x, zeta);
    let r0 = y.wrapping_add(fqmul(a0, b0));
    let z = fqmul(a0, b1);
    let r1 = z.wrapping_add(fqmul(a1, b0));
    (r0, r1)
}

/// Multiplication in `Z_q[X]/(X^2 - zeta)`, the ring in which two
/// transformed polynomials are multiplied pair by pair. Writes the two
/// coefficients of the product to `r[0]` and `r[1]`.
pub fn basemul(r: &mut [i16], a: &[i16], b: &[i16], zeta: i16)
    requires
        old(r)@.len() >= 2,
        a@.len() >= 2,
        b@.len() >= 2,
    ensures
        final(r)@ == old(r)@.update(0, basemul_spec(a@[0], a@[1], b@[0], b@[1], zeta).0).update(
            1,
            basemul_spec(a@[0], a@[1], b@[0], b@[1], zeta).1,
        ),
{
    let c = basemul_pair(a[0], a[1], b[0], b[1], zeta);
    r[0] = c.0;
    r[1] = c.1;
}

} // verus!
