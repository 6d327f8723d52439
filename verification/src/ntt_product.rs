//! Multiplication in the ring `Z_q[X]/(X^256 + 1)`, and why it is what the
//! transform, the base multiplication and the inverse transform compute
//! together.

use vstd::prelude::*;
use crate::ntt::{basemul_spec, invntt_spec, lemma_zetas_range, ntt_spec, ZETAS};
use crate::ntt_evaluation::{block_root, ints, lemma_ntt_residues, lemma_zeta_square,
    residue_sum};
use crate::ntt_proofs::{bounded, lemma_basemul_spec, lemma_invntt_of};
use crate::poly::{basemul_coeff, pair_zeta, poly_basemul_spec, poly_ntt_spec, reduce_spec};
use crate::reduce::{congruent, lemma_congruent_product, lemma_congruent_residue,
    lemma_congruent_scale, lemma_congruent_sum, lemma_congruent_sym, lemma_congruent_trans,
    lemma_unscale};

verus! {

/// The zero polynomial.
pub open spec fn ring_zero() -> Seq<int> {
    Seq::new(256, |k: int| 0int)
}

/// The sum of two polynomials.
pub open spec fn ring_add(u: Seq<int>, v: Seq<int>) -> Seq<int> {
    Seq::new(256, |k: int| u[k] + v[k])
}

/// The polynomial `u` times the number `c`.
pub open spec fn ring_scale(c: int, u: Seq<int>) -> Seq<int> {
    Seq::new(256, |k: int| c * u[k])
}

/// The polynomial `u` times `X`: every coefficient moves one place up, and
/// the last comes back to the front with its sign changed, as `X^256 = -1`.
pub open spec fn ring_shift(u: Seq<int>) -> Seq<int> {
    Seq::new(
        256,
        |k: int|
            if k == 0 {
                -u[255]
            } else {
                u[k - 1]
            },
    )
}

/// The polynomial `(a[i] + a[i + 1] X + ... + a[255] X^(255 - i)) b`.
pub open spec fn ring_mul_from(a: Seq<int>, b: Seq<int>, i: int) -> Seq<int>
    decreases 256 - i,
{
    if i >= 256 {
        ring_zero()
    } else {
        ring_add(ring_scale(a[i], b), ring_shift(ring_mul_from(a, b, i + 1)))
    }
}

/// The product of two polynomials in `Z[X]/(X^256 + 1)`:
/// `a b = a[0] b + X (a[1] b + X (a[2] b + ...))`.
pub open spec fn ring_mul(a: Seq<int>, b: Seq<int>) -> Seq<int> {
    ring_mul_from(a, b, 0)
}

/// `r^n`.
pub open spec fn power(r: int, n: int) -> int
    decreases n,
{
    if n <= 0 {
        1
    } else {
        r * power(r, n - 1)
    }
}

/// The residue sums of a sum of polynomials are the sums of theirs.
pub proof fn lemma_residue_sum_add(u: Seq<int>, v: Seq<int>, start: int, count: int, r: int)
    requires
        0 <= start,
        start + 2 * (count - 1) <= 255,
    ensures
        residue_sum(ring_add(u, v), start, 2, count, r) == residue_sum(u, start, 2, count, r)
            + residue_sum(v, start, 2, count, r),
    decreases count,
{
    if count > 0 {
        lemma_residue_sum_add(u, v, start + 2, count - 1, r);
        let x = residue_sum(u, start + 2, 2, count - 1, r);
        let y = residue_sum(v, start + 2, 2, count - 1, r);
        assert(r * (x + y) == r * x + r * y) by (nonlinear_arith);
    }
}

/// The residue sums of a multiple of a polynomial are the multiples of its
/// residue sums.
pub proof fn lemma_residue_sum_scale(c: int, u: Seq<int>, start: int, count: int, r: int)
    requires
        0 <= start,
        start + 2 * (count - 1) <= 255,
    ensures
        residue_sum(ring_scale(c, u), start, 2, count, r) == c * residue_sum(u, start, 2, count, r),
    decreases count,
{
    if count > 0 {
        lemma_residue_sum_scale(c, u, start + 2, count - 1, r);
        let x = residue_sum(u, start + 2, 2, count - 1, r);
        assert(c * u[start] + r * (c * x) == c * (u[start] + r * x)) by (nonlinear_arith);
    } else {
        assert(c * 0 == 0);
    }
}

/// The residue sums of `X u`, away from the coefficient that wraps, are
/// those of `u` one place lower.
proof fn lemma_residue_sum_shifted(u: Seq<int>, start: int, count: int, r: int)
    requires
        1 <= start,
        start + 2 * (count - 1) <= 255,
    ensures
        residue_sum(ring_shift(u), start, 2, count, r) == residue_sum(u, start - 1, 2, count, r),
    decreases count,
{
    if count > 0 {
        lemma_residue_sum_shifted(u, start + 2, count - 1, r);
    }
}

/// A residue sum of one term more.
proof fn lemma_residue_sum_last(u: Seq<int>, start: int, count: int, r: int)
    requires
        0 <= count,
    ensures
        residue_sum(u, start, 2, count + 1, r) == residue_sum(u, start, 2, count, r) + power(
            r,
            count,
        ) * u[start + 2 * count],
    decreases count,
{
    if count == 0 {
        reveal_with_fuel(residue_sum, 2);
        reveal_with_fuel(power, 1);
        assert(r * 0 == 0);
        assert(1 * u[start] == u[start]);
    } else {
        lemma_residue_sum_last(u, start + 2, count - 1, r);
        let x = residue_sum(u, start + 2, 2, count - 1, r);
        let last = u[start + 2 * count];
        assert(start + 2 + 2 * (count - 1) == start + 2 * count);
        assert(r * (x + power(r, count - 1) * last) == r * x + (r * power(r, count - 1)) * last)
            by (nonlinear_arith);
    }
}

/// `r^(2 n) = (r r)^n`.
proof fn lemma_power_square(r: int, n: int)
    requires
        0 <= n,
    ensures
        power(r, 2 * n) == power(r * r, n),
    decreases n,
{
    if n > 0 {
        lemma_power_square(r, n - 1);
        reveal_with_fuel(power, 3);
        assert(2 * n - 1 - 1 == 2 * (n - 1));
        assert(r * (r * power(r, 2 * (n - 1))) == (r * r) * power(r, 2 * (n - 1)))
            by (nonlinear_arith);
    }
}

/// Powers of congruent numbers are congruent.
proof fn lemma_power_congruent(a: int, b: int, n: int)
    requires
        congruent(a, b),
    ensures
        congruent(power(a, n), power(b, n)),
    decreases n,
{
    if n <= 0 {
        lemma_congruent_residue(1);
    } else {
        lemma_power_congruent(a, b, n - 1);
        let x = power(a, n - 1);
        let y = power(b, n - 1);
        lemma_congruent_scale(x, y, a);
        lemma_congruent_scale(a, b, y);
        assert(x * a == a * x && y * a == a * y && b * y == b * y) by (nonlinear_arith);
        lemma_congruent_trans(a * x, a * y, b * y);
    }
}

/// The number of coefficients of a block with twiddle index `k`, halved:
/// the largest power of two that is at most `k`.
pub open spec fn half_size(k: int) -> int {
    if k >= 128 {
        128
    } else if k >= 64 {
        64
    } else if k >= 32 {
        32
    } else if k >= 16 {
        16
    } else if k >= 8 {
        8
    } else if k >= 4 {
        4
    } else if k >= 2 {
        2
    } else {
        1
    }
}

/// The square of the root of a block is the root of the block it is a half
/// of.
proof fn lemma_root_square(k: int)
    requires
        2 <= k < 256,
    ensures
        congruent(block_root(k) * block_root(k), block_root(k / 2)),
{
    lemma_zeta_square(k / 2);
    let z = 169 * ZETAS[k / 2];
    assert((-z) * (-z) == z * z) by (nonlinear_arith);
}

/// The root of a block with twiddle index `k`, raised to the largest power
/// of two that is at most `k`, is -1: the roots of the blocks of the last
/// layer are roots of `X^128 + 1`.
proof fn lemma_root_order(k: int)
    requires
        1 <= k < 256,
    ensures
        congruent(power(block_root(k), half_size(k)), -1),
    decreases k,
{
    if k == 1 {
        reveal_with_fuel(power, 2);
        assert(power(-1, 1) == -1 * 1);
        lemma_congruent_residue(-1);
    } else {
        let r = block_root(k);
        let e = half_size(k);
        lemma_root_order(k / 2);
        lemma_root_square(k);
        assert(e == 2 * half_size(k / 2));
        lemma_power_square(r, half_size(k / 2));
        lemma_power_congruent(r * r, block_root(k / 2), half_size(k / 2));
        lemma_congruent_trans(
            power(r, e),
            power(block_root(k / 2), half_size(k / 2)),
            -1,
        );
    }
}

/// The residue of a polynomial modulo `X^2 - r`: its constant coefficient.
pub open spec fn residue0(u: Seq<int>, r: int) -> int {
    residue_sum(u, 0, 2, 128, r)
}

/// The residue of a polynomial modulo `X^2 - r`: its coefficient of `X`.
pub open spec fn residue1(u: Seq<int>, r: int) -> int {
    residue_sum(u, 1, 2, 128, r)
}

/// The residue of `X u` modulo `X^2 - r` is `X` times the residue of `u`:
/// for `r` with `r^128 = -1`, which makes `X^2 - r` a factor of
/// `X^256 + 1`.
proof fn lemma_shift_residues(u: Seq<int>, r: int)
    requires
        congruent(power(r, 128), -1),
    ensures
        congruent(residue0(ring_shift(u), r), r * residue1(u, r)),
        residue1(ring_shift(u), r) == residue0(u, r),
{
    lemma_residue_sum_shifted(u, 1, 128, r);
    lemma_residue_sum_shifted(u, 2, 127, r);
    lemma_residue_sum_last(u, 1, 127, r);
    let x = residue_sum(u, 1, 2, 127, r);
    let last = u[255];
    assert(residue0(ring_shift(u), r) == -last + r * x);
    assert(residue1(u, r) == x + power(r, 127) * last);
    assert(power(r, 128) == r * power(r, 127));
    reveal(congruent);
    let k = (power(r, 128) + 1) / 3329;
    assert(power(r, 128) + 1 == 3329 * k);
    assert((-last + r * x) - r * (x + power(r, 127) * last) == 3329 * (-(k * last)))
        by (nonlinear_arith)
        requires
            r * power(r, 127) + 1 == 3329 * k,
    ;
}

/// Residue sums of polynomials with congruent coefficients are congruent.
pub proof fn lemma_residue_sum_coeffs(u: Seq<int>, v: Seq<int>, start: int, count: int, r: int)
    requires
        0 <= start,
        start + 2 * (count - 1) <= 255,
        forall|k: int| 0 <= k < 256 ==> congruent(#[trigger] u[k], v[k]),
    ensures
        congruent(residue_sum(u, start, 2, count, r), residue_sum(v, start, 2, count, r)),
    decreases count,
{
    if count <= 0 {
        lemma_congruent_residue(0);
    } else {
        lemma_residue_sum_coeffs(u, v, start + 2, count - 1, r);
        let x = residue_sum(u, start + 2, 2, count - 1, r);
        let y = residue_sum(v, start + 2, 2, count - 1, r);
        lemma_congruent_scale(x, y, r);
        assert(x * r == r * x && y * r == r * y) by (nonlinear_arith);
        assert(congruent(u[start], v[start]));
        lemma_congruent_sum(u[start], v[start], r * x, r * y);
    }
}

/// The residue of a product modulo `X^2 - r` is the product of the
/// residues, for `r` with `r^128 = -1`. Stated of the part of the product
/// that the coefficients of `a` from `i` on give: with `e0 + e1 X` the
/// residue of `a[i] + a[i + 1] X + ...` and `b0 + b1 X` the residue of `b`,
/// the residue of their product is `(e0 b0 + r e1 b1) + (e0 b1 + e1 b0) X`.
proof fn lemma_mul_residues(a: Seq<int>, b: Seq<int>, r: int, i: int)
    requires
        congruent(power(r, 128), -1),
        0 <= i <= 256,
    ensures
        ({
            let e0 = residue_sum(a, i, 2, (257 - i) / 2, r);
            let e1 = residue_sum(a, i + 1, 2, (256 - i) / 2, r);
            let b0 = residue0(b, r);
            let b1 = residue1(b, r);
            let m = ring_mul_from(a, b, i);
            &&& congruent(residue0(m, r), e0 * b0 + r * (e1 * b1))
            &&& congruent(residue1(m, r), e0 * b1 + e1 * b0)
        }),
    decreases 256 - i,
{
    let e0 = residue_sum(a, i, 2, (257 - i) / 2, r);
    let e1 = residue_sum(a, i + 1, 2, (256 - i) / 2, r);
    let b0 = residue0(b, r);
    let b1 = residue1(b, r);
    let m = ring_mul_from(a, b, i);
    if i == 256 {
        lemma_residue_sum_scale(0, b, 0, 128, r);
        lemma_residue_sum_scale(0, b, 1, 128, r);
        assert(m =~= ring_scale(0, b));
        assert(0 * b0 == 0 && 0 * b1 == 0 && r * 0 == 0);
        assert(e0 == 0 && e1 == 0);
        lemma_congruent_residue(0);
    } else {
        let rest = ring_mul_from(a, b, i + 1);
        let ai = a[i];
        let e1p = residue_sum(a, i + 2, 2, (255 - i) / 2, r);
        lemma_mul_residues(a, b, r, i + 1);
        assert((257 - (i + 1)) / 2 == (256 - i) / 2);
        assert((256 - (i + 1)) / 2 == (255 - i) / 2);
        assert((257 - i) / 2 - 1 == (255 - i) / 2);
        assert(e0 == ai + r * e1p);
        let r0 = residue0(rest, r);
        let r1 = residue1(rest, r);
        let s0 = residue0(ring_shift(rest), r);
        lemma_shift_residues(rest, r);
        lemma_residue_sum_add(ring_scale(ai, b), ring_shift(rest), 0, 128, r);
        lemma_residue_sum_add(ring_scale(ai, b), ring_shift(rest), 1, 128, r);
        lemma_residue_sum_scale(ai, b, 0, 128, r);
        lemma_residue_sum_scale(ai, b, 1, 128, r);
        assert(residue0(m, r) == ai * b0 + s0);
        assert(residue1(m, r) == ai * b1 + r0);
        reveal(congruent);
        // The constant coefficient.
        let k0 = (s0 - r * r1) / 3329;
        let k1 = (r1 - (e1 * b1 + e1p * b0)) / 3329;
        assert(s0 - r * r1 == 3329 * k0);
        assert(r1 - (e1 * b1 + e1p * b0) == 3329 * k1);
        assert((ai * b0 + s0) - (e0 * b0 + r * (e1 * b1)) == 3329 * (k0 + r * k1))
            by (nonlinear_arith)
            requires
                e0 == ai + r * e1p,
                s0 - r * r1 == 3329 * k0,
                r1 - (e1 * b1 + e1p * b0) == 3329 * k1,
        ;
        // The coefficient of X.
        let k2 = (r0 - (e1 * b0 + r * (e1p * b1))) / 3329;
        assert(r0 - (e1 * b0 + r * (e1p * b1)) == 3329 * k2);
        assert((ai * b1 + r0) - (e0 * b1 + e1 * b0) == 3329 * k2) by (nonlinear_arith)
            requires
                e0 == ai + r * e1p,
                r0 - (e1 * b0 + r * (e1p * b1)) == 3329 * k2,
        ;
    }
}

/// The residue of a product modulo `X^2 - r` is the product of the residues
/// of the factors in `Z[X]/(X^2 - r)`, for the root `r` of each pair of
/// coefficients of the transform.
pub proof fn lemma_ring_mul_residues(a: Seq<int>, b: Seq<int>, k: int)
    requires
        128 <= k < 256,
    ensures
        ({
            let r = block_root(k);
            let c = ring_mul(a, b);
            &&& congruent(
                residue0(c, r),
                residue0(a, r) * residue0(b, r) + r * (residue1(a, r) * residue1(b, r)),
            )
            &&& congruent(
                residue1(c, r),
                residue0(a, r) * residue1(b, r) + residue1(a, r) * residue0(b, r),
            )
        }),
{
    lemma_root_order(k);
    lemma_mul_residues(a, b, block_root(k), 0);
}

/// The base multiplication on residues. If the words `x0 + x1 X` and
/// `y0 + y1 X` are congruent to the residues `a0 + a1 X` and `b0 + b1 X`
/// modulo `X^2 - r`, where `r` is `zeta` without its Montgomery factor, and
/// `y0` and `y1` are smaller than `q` in absolute value, then `basemul_spec`
/// gives the product of the residues modulo `X^2 - r`, divided by the
/// Montgomery factor.
pub proof fn lemma_basemul_residues(
    x0: i16,
    x1: i16,
    y0: i16,
    y1: i16,
    zeta: i16,
    a0: int,
    a1: int,
    b0: int,
    b1: int,
)
    requires
        -3329 < y0 < 3329,
        -3329 < y1 < 3329,
        congruent(x0 as int, a0),
        congruent(x1 as int, a1),
        congruent(y0 as int, b0),
        congruent(y1 as int, b1),
    ensures
        ({
            let v = basemul_spec(x0, x1, y0, y1, zeta);
            let r = 169 * zeta;
            &&& congruent(v.0 as int, 169 * (a0 * b0 + r * (a1 * b1)))
            &&& congruent(v.1 as int, 169 * (a0 * b1 + a1 * b0))
            &&& -6658 < v.0 < 6658
            &&& -6658 < v.1 < 6658
        }),
{
    let v = basemul_spec(x0, x1, y0, y1, zeta);
    let r = 169 * zeta;
    lemma_basemul_spec(x0, x1, y0, y1, zeta);
    let p0 = x0 * y0;
    let p1 = x1 * y1;
    let big = x1 * y1 * zeta + x0 * y0 * 65536;
    // The coefficient of X.
    lemma_unscale(v.1 as int, x0 * y1 + x1 * y0);
    lemma_congruent_product(x0 as int, a0, y1 as int, b1);
    lemma_congruent_product(x1 as int, a1, y0 as int, b0);
    lemma_congruent_sum(x0 * y1, a0 * b1, x1 * y0, a1 * b0);
    lemma_congruent_scale(x0 * y1 + x1 * y0, a0 * b1 + a1 * b0, 169);
    assert((x0 * y1 + x1 * y0) * 169 == 169 * (x0 * y1 + x1 * y0));
    assert((a0 * b1 + a1 * b0) * 169 == 169 * (a0 * b1 + a1 * b0));
    lemma_congruent_trans(
        v.1 as int,
        169 * (x0 * y1 + x1 * y0),
        169 * (a0 * b1 + a1 * b0),
    );
    // The constant coefficient.
    assert(v.0 * 4294967296 == (v.0 * 65536) * 65536);
    lemma_unscale(v.0 * 65536, big);
    lemma_unscale(v.0 as int, 169 * big);
    assert(congruent(169 * (169 * big), 169 * (p0 + r * p1))) by {
        reveal(congruent);
        assert(169 * (169 * big) - 169 * (p0 + r * p1) == 3329 * (169 * 3327 * p0))
            by (nonlinear_arith)
            requires
                big == p1 * zeta + p0 * 65536,
                r == 169 * zeta,
        ;
    }
    lemma_congruent_trans(v.0 as int, 169 * (169 * big), 169 * (p0 + r * p1));
    lemma_congruent_product(x0 as int, a0, y0 as int, b0);
    lemma_congruent_product(x1 as int, a1, y1 as int, b1);
    lemma_congruent_scale(p1, a1 * b1, r);
    assert(p1 * r == r * p1 && (a1 * b1) * r == r * (a1 * b1)) by (nonlinear_arith);
    lemma_congruent_sum(p0, a0 * b0, r * p1, r * (a1 * b1));
    lemma_congruent_scale(p0 + r * p1, a0 * b0 + r * (a1 * b1), 169);
    assert((p0 + r * p1) * 169 == 169 * (p0 + r * p1));
    assert((a0 * b0 + r * (a1 * b1)) * 169 == 169 * (a0 * b0 + r * (a1 * b1)));
    lemma_congruent_trans(
        v.0 as int,
        169 * (p0 + r * p1),
        169 * (a0 * b0 + r * (a1 * b1)),
    );
}

/// The product of two polynomials, each coefficient reduced to `[0, q)`.
pub open spec fn ring_mul_reduced(a: Seq<i16>, b: Seq<i16>) -> Seq<i16> {
    Seq::new(256, |k: int| (ring_mul(ints(a), ints(b))[k] % 3329) as i16)
}

/// One pair of coefficients of the product of two transforms: congruent to
/// the pair of the transform of the product, divided by the Montgomery
/// factor.
proof fn lemma_product_pair(a: Seq<i16>, b: Seq<i16>, m: int)
    requires
        a.len() == 256,
        b.len() == 256,
        forall|i: int| 0 <= i < 256 ==> -3329 <= #[trigger] a[i] <= 3329,
        forall|i: int| 0 <= i < 256 ==> -3329 <= #[trigger] b[i] <= 3329,
        0 <= m < 128,
    ensures
        ({
            let v = poly_basemul_spec(poly_ntt_spec(a), poly_ntt_spec(b));
            let t = ntt_spec(ring_mul_reduced(a, b));
            &&& congruent(v[2 * m] as int, 169 * t[2 * m])
            &&& congruent(v[2 * m + 1] as int, 169 * t[2 * m + 1])
            &&& -6658 < v[2 * m] < 6658
            &&& -6658 < v[2 * m + 1] < 6658
        }),
{
    let ah = poly_ntt_spec(a);
    let bh = poly_ntt_spec(b);
    let v = poly_basemul_spec(ah, bh);
    let cp = ring_mul_reduced(a, b);
    let c = ring_mul(ints(a), ints(b));
    let t = ntt_spec(cp);
    let zeta = pair_zeta(m);
    let r = 169 * zeta;
    lemma_zetas_range(64 + m / 2);
    assert(block_root(128 + m) == r);
    let a0 = residue0(ints(a), r);
    let a1 = residue1(ints(a), r);
    let b0 = residue0(ints(b), r);
    let b1 = residue1(ints(b), r);
    // The transforms of the factors hold their residues.
    lemma_ntt_residues(a, m, 0);
    lemma_ntt_residues(a, m, 1);
    lemma_ntt_residues(b, m, 0);
    lemma_ntt_residues(b, m, 1);
    assert(ah[2 * m] == reduce_spec(ntt_spec(a)[2 * m]));
    assert(ah[2 * m + 1] == reduce_spec(ntt_spec(a)[2 * m + 1]));
    assert(bh[2 * m] == reduce_spec(ntt_spec(b)[2 * m]));
    assert(bh[2 * m + 1] == reduce_spec(ntt_spec(b)[2 * m + 1]));
    lemma_congruent_residue(ntt_spec(a)[2 * m] as int);
    lemma_congruent_residue(ntt_spec(a)[2 * m + 1] as int);
    lemma_congruent_residue(ntt_spec(b)[2 * m] as int);
    lemma_congruent_residue(ntt_spec(b)[2 * m + 1] as int);
    lemma_congruent_trans(ah[2 * m] as int, ntt_spec(a)[2 * m] as int, a0);
    lemma_congruent_trans(ah[2 * m + 1] as int, ntt_spec(a)[2 * m + 1] as int, a1);
    lemma_congruent_trans(bh[2 * m] as int, ntt_spec(b)[2 * m] as int, b0);
    lemma_congruent_trans(bh[2 * m + 1] as int, ntt_spec(b)[2 * m + 1] as int, b1);
    // The base multiplication multiplies the residues.
    lemma_basemul_residues(
        ah[2 * m],
        ah[2 * m + 1],
        bh[2 * m],
        bh[2 * m + 1],
        zeta,
        a0,
        a1,
        b0,
        b1,
    );
    assert(v[2 * m] == basemul_coeff(ah, bh, 2 * m));
    assert(v[2 * m + 1] == basemul_coeff(ah, bh, 2 * m + 1));
    // The transform of the product holds the residues of the product.
    assert forall|k: int| 0 <= k < 256 implies congruent(#[trigger] ints(cp)[k], c[k]) by {
        lemma_congruent_residue(c[k]);
    }
    assert forall|i: int| 0 <= i < 256 implies -3329 <= #[trigger] cp[i] <= 3329 by {}
    lemma_ntt_residues(cp, m, 0);
    lemma_ntt_residues(cp, m, 1);
    lemma_residue_sum_coeffs(ints(cp), c, 0, 128, r);
    lemma_residue_sum_coeffs(ints(cp), c, 1, 128, r);
    lemma_ring_mul_residues(ints(a), ints(b), 128 + m);
    let e0 = a0 * b0 + r * (a1 * b1);
    let e1 = a0 * b1 + a1 * b0;
    lemma_congruent_trans(t[2 * m] as int, residue0(ints(cp), r), residue0(c, r));
    lemma_congruent_trans(t[2 * m] as int, residue0(c, r), e0);
    lemma_congruent_trans(t[2 * m + 1] as int, residue1(ints(cp), r), residue1(c, r));
    lemma_congruent_trans(t[2 * m + 1] as int, residue1(c, r), e1);
    lemma_congruent_scale(t[2 * m] as int, e0, 169);
    lemma_congruent_scale(t[2 * m + 1] as int, e1, 169);
    lemma_congruent_sym(t[2 * m] * 169, e0 * 169);
    lemma_congruent_sym(t[2 * m + 1] * 169, e1 * 169);
    assert(e0 * 169 == 169 * e0 && e1 * 169 == 169 * e1);
    assert(t[2 * m] * 169 == 169 * t[2 * m] && t[2 * m + 1] * 169 == 169 * t[2 * m + 1]);
    lemma_congruent_trans(v[2 * m] as int, 169 * e0, 169 * t[2 * m]);
    lemma_congruent_trans(v[2 * m + 1] as int, 169 * e1, 169 * t[2 * m + 1]);
}

/// Multiplication through the transform is multiplication in the ring. For
/// two polynomials whose coefficients are at most `q` in absolute value,
/// transforming both, multiplying the transforms pair by pair with the base
/// multiplication and transforming back gives their product in
/// `Z_q[X]/(X^256 + 1)`: every coefficient of the result is congruent to the
/// coefficient of the product, and is smaller than `q` in absolute value.
/// The Montgomery factor that the base multiplication divides by is the one
/// that the inverse transform multiplies by.
pub proof fn lemma_transform_multiplies(a: Seq<i16>, b: Seq<i16>)
    requires
        a.len() == 256,
        b.len() == 256,
        forall|i: int| 0 <= i < 256 ==> -3329 <= #[trigger] a[i] <= 3329,
        forall|i: int| 0 <= i < 256 ==> -3329 <= #[trigger] b[i] <= 3329,
    ensures
        ({
            let c = invntt_spec(poly_basemul_spec(poly_ntt_spec(a), poly_ntt_spec(b)));
            &&& forall|k: int|
                0 <= k < 256 ==> congruent(#[trigger] c[k] as int, ring_mul(ints(a), ints(b))[k])
            &&& forall|k: int| 0 <= k < 256 ==> -3329 < #[trigger] c[k] < 3329
        }),
{
    let v = poly_basemul_spec(poly_ntt_spec(a), poly_ntt_spec(b));
    let cp = ring_mul_reduced(a, b);
    let t = ntt_spec(cp);
    assert forall|i: int| 0 <= i < 256 implies congruent(#[trigger] v[i] as int, 169 * t[i])
        && -16383 <= v[i] <= 16383 by {
        lemma_product_pair(a, b, i / 2);
    }
    assert(bounded(cp, 3329));
    assert(bounded(v, 16383));
    lemma_invntt_of(cp, v, 169);
    let c = invntt_spec(v);
    assert forall|k: int| 0 <= k < 256 implies congruent(
        #[trigger] c[k] as int,
        ring_mul(ints(a), ints(b))[k],
    ) by {
        let x = ring_mul(ints(a), ints(b))[k];
        assert(congruent(c[k] as int, (169 * cp[k]) * 65536));
        lemma_congruent_residue(x);
        reveal(congruent);
        let k0 = (c[k] - (169 * cp[k]) * 65536) / 3329;
        let k1 = (cp[k] - x) / 3329;
        assert(c[k] - x == 3329 * (k0 + k1 + 3327 * cp[k]));
    }
}

} // verus!
