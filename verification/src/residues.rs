//! The residues of polynomials modulo the quadratic factors of `X^256 + 1`,
//! as pairs of integers, and how the operations on polynomials act on them.
//! A transformed polynomial holds one such pair for each factor, and two
//! polynomials with congruent pairs for every factor are congruent.

use vstd::prelude::*;
use crate::ntt::{add16, invntt_spec, lemma_zetas_range, ntt_spec, sub16};
use crate::ntt_evaluation::{block_root, ints, lemma_ntt_residues};
use crate::ntt_product::{lemma_basemul_residues, lemma_residue_sum_add, lemma_residue_sum_coeffs,
    lemma_residue_sum_scale, lemma_ring_mul_residues, residue0, residue1, ring_add, ring_mul,
    ring_scale};
use crate::ntt_proofs::{bounded, lemma_invntt_of, lemma_ntt_invntt};
use crate::poly::{basemul_coeff, canonical, pair_zeta, poly_add_spec, poly_basemul_spec,
    poly_ntt_spec, poly_reduce_spec, poly_sub_spec, poly_tomont_spec, reduce_spec};
use crate::polyvec::polyvec_pointwise_acc_spec;
use crate::reduce::{congruent, lemma_congruent_by, lemma_congruent_product,
    lemma_congruent_residue, lemma_congruent_scale, lemma_congruent_sum, lemma_congruent_sym,
    lemma_congruent_trans, lemma_montgomery_spec, lemma_unscale, montgomery_domain,
    montgomery_spec};

verus! {

/// The root of the quadratic factor of the pair `m`: the twiddle factor of
/// the pair without its Montgomery factor.
pub open spec fn root_of(m: int) -> int {
    169 * pair_zeta(m)
}

/// The residue of the polynomial `u` modulo the quadratic factor of the pair
/// `m`: its constant coefficient and its coefficient of `X`.
pub open spec fn pair_of(u: Seq<int>, m: int) -> (int, int) {
    (residue0(u, root_of(m)), residue1(u, root_of(m)))
}

/// The sum of two residues.
pub open spec fn pair_add(x: (int, int), y: (int, int)) -> (int, int) {
    (x.0 + y.0, x.1 + y.1)
}

/// The difference of two residues.
pub open spec fn pair_sub(x: (int, int), y: (int, int)) -> (int, int) {
    (x.0 - y.0, x.1 - y.1)
}

/// A residue times a number.
pub open spec fn pair_scale(c: int, x: (int, int)) -> (int, int) {
    (c * x.0, c * x.1)
}

/// The product of two residues modulo `X^2 - r`.
#[verifier::opaque]
pub open spec fn pair_mul(x: (int, int), y: (int, int), r: int) -> (int, int) {
    (x.0 * y.0 + r * (x.1 * y.1), x.0 * y.1 + x.1 * y.0)
}

/// Two residues are congruent modulo `q`, coefficient by coefficient.
pub open spec fn pair_congruent(x: (int, int), y: (int, int)) -> bool {
    congruent(x.0, y.0) && congruent(x.1, y.1)
}

/// The transformed polynomial `x` holds the residue `p` at the pair `m`.
pub open spec fn holds(x: Seq<i16>, m: int, p: (int, int)) -> bool {
    pair_congruent((x[2 * m] as int, x[2 * m + 1] as int), p)
}

/// Congruence of residues is reflexive, symmetric and transitive.
pub proof fn lemma_pair_congruent(x: (int, int), y: (int, int), z: (int, int))
    ensures
        pair_congruent(x, x),
        pair_congruent(x, y) ==> pair_congruent(y, x),
        pair_congruent(x, y) && pair_congruent(y, z) ==> pair_congruent(x, z),
{
    lemma_congruent_residue(x.0);
    lemma_congruent_residue(x.1);
    if pair_congruent(x, y) {
        lemma_congruent_sym(x.0, y.0);
        lemma_congruent_sym(x.1, y.1);
        if pair_congruent(y, z) {
            lemma_congruent_trans(x.0, y.0, z.0);
            lemma_congruent_trans(x.1, y.1, z.1);
        }
    }
}

/// Sums, differences, multiples and products of congruent residues are
/// congruent.
pub proof fn lemma_pair_operations(
    x: (int, int),
    a: (int, int),
    y: (int, int),
    b: (int, int),
    c: int,
    r: int,
)
    requires
        pair_congruent(x, a),
        pair_congruent(y, b),
    ensures
        pair_congruent(pair_add(x, y), pair_add(a, b)),
        pair_congruent(pair_sub(x, y), pair_sub(a, b)),
        pair_congruent(pair_scale(c, x), pair_scale(c, a)),
        pair_congruent(pair_mul(x, y, r), pair_mul(a, b, r)),
{
    reveal(pair_mul);
    lemma_congruent_sum(x.0, a.0, y.0, b.0);
    lemma_congruent_sum(x.1, a.1, y.1, b.1);
    lemma_congruent_scale(x.0, a.0, c);
    lemma_congruent_scale(x.1, a.1, c);
    assert(x.0 * c == c * x.0 && a.0 * c == c * a.0 && x.1 * c == c * x.1 && a.1 * c == c * a.1)
        by (nonlinear_arith);
    lemma_congruent_product(x.0, a.0, y.0, b.0);
    lemma_congruent_product(x.1, a.1, y.1, b.1);
    lemma_congruent_product(x.0, a.0, y.1, b.1);
    lemma_congruent_product(x.1, a.1, y.0, b.0);
    lemma_congruent_scale(x.1 * y.1, a.1 * b.1, r);
    assert((x.1 * y.1) * r == r * (x.1 * y.1) && (a.1 * b.1) * r == r * (a.1 * b.1))
        by (nonlinear_arith);
    lemma_congruent_sum(x.0 * y.0, a.0 * b.0, r * (x.1 * y.1), r * (a.1 * b.1));
    lemma_congruent_sum(x.0 * y.1, a.0 * b.1, x.1 * y.0, a.1 * b.0);
}

/// The root of a pair is the root of its block.
pub proof fn lemma_root_of(m: int)
    requires
        0 <= m < 128,
    ensures
        root_of(m) == block_root(128 + m),
{
    lemma_zetas_range(64 + m / 2);
}

/// The transform of a polynomial, with its coefficients reduced, holds the
/// residues of the polynomial, and its coefficients lie in `[0, q)`.
pub proof fn lemma_ntt_holds(p: Seq<i16>, m: int)
    requires
        bounded(p, 3329),
        0 <= m < 128,
    ensures
        holds(poly_ntt_spec(p), m, pair_of(ints(p), m)),
        holds(ntt_spec(p), m, pair_of(ints(p), m)),
        0 <= poly_ntt_spec(p)[2 * m] < 3329,
        0 <= poly_ntt_spec(p)[2 * m + 1] < 3329,
{
    lemma_ntt_residues(p, m, 0);
    lemma_ntt_residues(p, m, 1);
    let t = ntt_spec(p);
    let h = poly_ntt_spec(p);
    assert(h[2 * m] == reduce_spec(t[2 * m]));
    assert(h[2 * m + 1] == reduce_spec(t[2 * m + 1]));
    lemma_congruent_residue(t[2 * m] as int);
    lemma_congruent_residue(t[2 * m + 1] as int);
    lemma_congruent_trans(h[2 * m] as int, t[2 * m] as int, pair_of(ints(p), m).0);
    lemma_congruent_trans(h[2 * m + 1] as int, t[2 * m + 1] as int, pair_of(ints(p), m).1);
}

/// The base multiplication of two transformed polynomials multiplies the
/// residues they hold, and divides by the Montgomery factor. The second
/// factor has its two coefficients of the pair smaller than `q` in absolute
/// value.
pub proof fn lemma_basemul_holds(
    x: Seq<i16>,
    y: Seq<i16>,
    m: int,
    a: (int, int),
    b: (int, int),
)
    requires
        0 <= m < 128,
        x.len() == 256,
        y.len() == 256,
        holds(x, m, a),
        holds(y, m, b),
        -3329 < y[2 * m] < 3329,
        -3329 < y[2 * m + 1] < 3329,
    ensures
        holds(poly_basemul_spec(x, y), m, pair_scale(169, pair_mul(a, b, root_of(m)))),
        -6658 < poly_basemul_spec(x, y)[2 * m] < 6658,
        -6658 < poly_basemul_spec(x, y)[2 * m + 1] < 6658,
{
    reveal(pair_mul);
    let v = poly_basemul_spec(x, y);
    lemma_basemul_residues(
        x[2 * m],
        x[2 * m + 1],
        y[2 * m],
        y[2 * m + 1],
        pair_zeta(m),
        a.0,
        a.1,
        b.0,
        b.1,
    );
    assert(v[2 * m] == basemul_coeff(x, y, 2 * m));
    assert(v[2 * m + 1] == basemul_coeff(x, y, 2 * m + 1));
}

/// Reducing the coefficients of a transformed polynomial leaves the residues
/// it holds.
pub proof fn lemma_reduce_holds(x: Seq<i16>, m: int, a: (int, int))
    requires
        0 <= m < 128,
        x.len() == 256,
        holds(x, m, a),
    ensures
        holds(poly_reduce_spec(x), m, a),
{
    let h = poly_reduce_spec(x);
    assert(h[2 * m] == reduce_spec(x[2 * m]));
    assert(h[2 * m + 1] == reduce_spec(x[2 * m + 1]));
    lemma_congruent_residue(x[2 * m] as int);
    lemma_congruent_residue(x[2 * m + 1] as int);
    lemma_congruent_trans(h[2 * m] as int, x[2 * m] as int, a.0);
    lemma_congruent_trans(h[2 * m + 1] as int, x[2 * m + 1] as int, a.1);
}

/// The sum and the difference of two transformed polynomials hold the sum
/// and the difference of the residues they hold, where the coefficients of
/// the pair do not wrap.
pub proof fn lemma_add_holds(
    x: Seq<i16>,
    y: Seq<i16>,
    m: int,
    a: (int, int),
    b: (int, int),
)
    requires
        0 <= m < 128,
        x.len() == 256,
        y.len() == 256,
        -16383 <= x[2 * m] <= 16383,
        -16383 <= x[2 * m + 1] <= 16383,
        -16383 <= y[2 * m] <= 16383,
        -16383 <= y[2 * m + 1] <= 16383,
        holds(x, m, a),
        holds(y, m, b),
    ensures
        holds(poly_add_spec(x, y), m, pair_add(a, b)),
        holds(poly_sub_spec(x, y), m, pair_sub(a, b)),
        poly_add_spec(x, y)[2 * m] == x[2 * m] + y[2 * m],
        poly_add_spec(x, y)[2 * m + 1] == x[2 * m + 1] + y[2 * m + 1],
        poly_sub_spec(x, y)[2 * m] == x[2 * m] - y[2 * m],
        poly_sub_spec(x, y)[2 * m + 1] == x[2 * m + 1] - y[2 * m + 1],
{
    let s = poly_add_spec(x, y);
    let d = poly_sub_spec(x, y);
    assert(s[2 * m] == add16(x[2 * m], y[2 * m]));
    assert(s[2 * m + 1] == add16(x[2 * m + 1], y[2 * m + 1]));
    assert(d[2 * m] == sub16(x[2 * m], y[2 * m]));
    assert(d[2 * m + 1] == sub16(x[2 * m + 1], y[2 * m + 1]));
    lemma_congruent_sum(x[2 * m] as int, a.0, y[2 * m] as int, b.0);
    lemma_congruent_sum(x[2 * m + 1] as int, a.1, y[2 * m + 1] as int, b.1);
}

/// One coefficient converted to the Montgomery domain: congruent to the
/// coefficient times `2^16`, and smaller than `q` in absolute value.
proof fn lemma_tomont_coeff(x: i16)
    ensures
        congruent(montgomery_spec(x * 1353), 65536 * x),
        -3329 < montgomery_spec(x * 1353) < 3329,
{
    let a = x * 1353;
    let t = montgomery_spec(a);
    assert(montgomery_domain(a));
    lemma_montgomery_spec(a);
    lemma_unscale(t, a);
    lemma_congruent_by(169 * a, 65536 * x, 49 * x);
    lemma_congruent_trans(t, 169 * a, 65536 * x);
}

/// Conversion to the Montgomery domain multiplies the residues that a
/// transformed polynomial holds by the Montgomery factor `2^16`.
pub proof fn lemma_tomont_holds(x: Seq<i16>, m: int, a: (int, int))
    requires
        0 <= m < 128,
        x.len() == 256,
        holds(x, m, a),
    ensures
        holds(poly_tomont_spec(x), m, pair_scale(65536, a)),
        bounded(poly_tomont_spec(x), 3328),
{
    let t = poly_tomont_spec(x);
    assert forall|i: int| 0 <= i < 256 implies -3328 <= #[trigger] t[i] <= 3328 && congruent(
        t[i] as int,
        65536 * x[i],
    ) by {
        lemma_tomont_coeff(x[i]);
        assert(t[i] == montgomery_spec(x[i] * 1353) as i16);
    }
    lemma_congruent_scale(x[2 * m] as int, a.0, 65536);
    lemma_congruent_scale(x[2 * m + 1] as int, a.1, 65536);
    assert(x[2 * m] * 65536 == 65536 * x[2 * m] && a.0 * 65536 == 65536 * a.0);
    assert(x[2 * m + 1] * 65536 == 65536 * x[2 * m + 1] && a.1 * 65536 == 65536 * a.1);
    lemma_congruent_trans(t[2 * m] as int, 65536 * x[2 * m], 65536 * a.0);
    lemma_congruent_trans(t[2 * m + 1] as int, 65536 * x[2 * m + 1], 65536 * a.1);
}

/// The inverse transform of a transformed polynomial that holds the residue
/// `a` is a polynomial with the residue `2^16 a`: the inverse transform
/// leaves the Montgomery factor.
pub proof fn lemma_invntt_residues(v: Seq<i16>, m: int, a: (int, int))
    requires
        0 <= m < 128,
        bounded(v, 16383),
        holds(v, m, a),
    ensures
        pair_congruent(pair_of(ints(invntt_spec(v)), m), pair_scale(65536, a)),
        bounded(invntt_spec(v), 3328),
{
    let y = invntt_spec(v);
    lemma_ntt_invntt(v);
    assert(bounded(y, 3329));
    lemma_ntt_residues(y, m, 0);
    lemma_ntt_residues(y, m, 1);
    let t = ntt_spec(y);
    let p = pair_of(ints(y), m);
    lemma_congruent_sym(t[2 * m] as int, p.0);
    lemma_congruent_sym(t[2 * m + 1] as int, p.1);
    lemma_congruent_trans(p.0, t[2 * m] as int, 65536 * v[2 * m]);
    lemma_congruent_trans(p.1, t[2 * m + 1] as int, 65536 * v[2 * m + 1]);
    lemma_congruent_scale(v[2 * m] as int, a.0, 65536);
    lemma_congruent_scale(v[2 * m + 1] as int, a.1, 65536);
    lemma_congruent_trans(p.0, 65536 * v[2 * m], 65536 * a.0);
    lemma_congruent_trans(p.1, 65536 * v[2 * m + 1], 65536 * a.1);
}

/// The residues determine the polynomial. Two polynomials with
/// coefficients at most `q` in absolute value whose residues are congruent
/// for every quadratic factor are congruent, coefficient by coefficient.
pub proof fn lemma_residues_determine(x: Seq<i16>, y: Seq<i16>)
    requires
        bounded(x, 3329),
        bounded(y, 3329),
        forall|m: int|
            0 <= m < 128 ==> pair_congruent(#[trigger] pair_of(ints(x), m), pair_of(ints(y), m)),
    ensures
        forall|k: int| 0 <= k < 256 ==> congruent(#[trigger] x[k] as int, y[k] as int),
{
    let v = poly_ntt_spec(x);
    assert forall|i: int| 0 <= i < 256 implies congruent(#[trigger] v[i] as int, 1 * ntt_spec(x)[i])
        && congruent(v[i] as int, 1 * ntt_spec(y)[i]) && -16383 <= v[i] <= 16383 by {
        let m = i / 2;
        lemma_ntt_holds(x, m);
        lemma_ntt_holds(y, m);
        assert(pair_congruent(pair_of(ints(x), m), pair_of(ints(y), m)));
        let px = pair_of(ints(x), m);
        let py = pair_of(ints(y), m);
        lemma_congruent_residue(ntt_spec(x)[i] as int);
        assert(v[i] == reduce_spec(ntt_spec(x)[i]));
        if i == 2 * m {
            lemma_congruent_sym(ntt_spec(y)[i] as int, py.0);
            lemma_congruent_trans(v[i] as int, px.0, py.0);
            lemma_congruent_trans(v[i] as int, py.0, ntt_spec(y)[i] as int);
        } else {
            lemma_congruent_sym(ntt_spec(y)[i] as int, py.1);
            lemma_congruent_trans(v[i] as int, px.1, py.1);
            lemma_congruent_trans(v[i] as int, py.1, ntt_spec(y)[i] as int);
        }
    }
    assert(bounded(v, 16383));
    lemma_invntt_of(x, v, 1);
    lemma_invntt_of(y, v, 1);
    assert forall|k: int| 0 <= k < 256 implies congruent(#[trigger] x[k] as int, y[k] as int) by {
        let w = invntt_spec(v)[k] as int;
        assert(congruent(w, (1 * x[k]) * 65536));
        assert(congruent(w, (1 * y[k]) * 65536));
        reveal(congruent);
        let k0 = (w - x[k] * 65536) / 3329;
        let k1 = (w - y[k] * 65536) / 3329;
        assert(x[k] - y[k] == 3329 * (169 * (k1 - k0) - 3327 * (x[k] - y[k])));
    }
}

/// The sum of the products of three pairs of residues: an inner product of
/// vectors of residues.
pub open spec fn pair_dot(
    a0: (int, int),
    a1: (int, int),
    a2: (int, int),
    b0: (int, int),
    b1: (int, int),
    b2: (int, int),
    r: int,
) -> (int, int) {
    pair_add(pair_add(pair_mul(a0, b0, r), pair_mul(a1, b1, r)), pair_mul(a2, b2, r))
}

/// The inner product of two vectors of transformed polynomials holds the
/// inner product of the residues they hold, divided by the Montgomery
/// factor, and has its coefficients in `[0, q)`. The second vector has its
/// coefficients of the pair smaller than `q` in absolute value.
pub proof fn lemma_acc_holds(
    x: Seq<Seq<i16>>,
    y: Seq<Seq<i16>>,
    m: int,
    a0: (int, int),
    a1: (int, int),
    a2: (int, int),
    b0: (int, int),
    b1: (int, int),
    b2: (int, int),
)
    requires
        0 <= m < 128,
        x.len() == 3,
        y.len() == 3,
        forall|i: int| 0 <= i < 3 ==> (#[trigger] x[i]).len() == 256,
        forall|i: int| 0 <= i < 3 ==> (#[trigger] y[i]).len() == 256,
        forall|i: int|
            0 <= i < 3 ==> -3329 < (#[trigger] y[i])[2 * m] < 3329 && -3329 < y[i][2 * m + 1]
                < 3329,
        holds(x[0], m, a0),
        holds(x[1], m, a1),
        holds(x[2], m, a2),
        holds(y[0], m, b0),
        holds(y[1], m, b1),
        holds(y[2], m, b2),
    ensures
        holds(
            polyvec_pointwise_acc_spec(x, y),
            m,
            pair_scale(169, pair_dot(a0, a1, a2, b0, b1, b2, root_of(m))),
        ),
        canonical(polyvec_pointwise_acc_spec(x, y)),
{
    let r = root_of(m);
    let p0 = poly_basemul_spec(x[0], y[0]);
    let p1 = poly_basemul_spec(x[1], y[1]);
    let p2 = poly_basemul_spec(x[2], y[2]);
    assert(-3329 < y[0][2 * m] < 3329 && -3329 < y[1][2 * m] < 3329 && -3329 < y[2][2 * m] < 3329);
    lemma_basemul_holds(x[0], y[0], m, a0, b0);
    lemma_basemul_holds(x[1], y[1], m, a1, b1);
    lemma_basemul_holds(x[2], y[2], m, a2, b2);
    let q0 = pair_scale(169, pair_mul(a0, b0, r));
    let q1 = pair_scale(169, pair_mul(a1, b1, r));
    let q2 = pair_scale(169, pair_mul(a2, b2, r));
    lemma_add_holds(p0, p1, m, q0, q1);
    let s01 = poly_add_spec(p0, p1);
    lemma_add_holds(s01, p2, m, pair_add(q0, q1), q2);
    let s = poly_add_spec(s01, p2);
    lemma_reduce_holds(s, m, pair_add(pair_add(q0, q1), q2));
    assert(pair_add(pair_add(q0, q1), q2) == pair_scale(
        169,
        pair_dot(a0, a1, a2, b0, b1, b2, r),
    ));
    let out = polyvec_pointwise_acc_spec(x, y);
    assert(out == poly_reduce_spec(s));
    assert forall|i: int| 0 <= i < 256 implies 0 <= #[trigger] out[i] < 3329 by {
        assert(out[i] == reduce_spec(s[i]));
    }
}

/// The difference of two polynomials.
pub open spec fn ring_sub(u: Seq<int>, v: Seq<int>) -> Seq<int> {
    Seq::new(256, |k: int| u[k] - v[k])
}

/// The residues of a sum, of a difference and of a multiple of polynomials
/// are the sum, the difference and the multiple of their residues.
pub proof fn lemma_pair_of_linear(u: Seq<int>, v: Seq<int>, c: int, m: int)
    ensures
        pair_of(ring_add(u, v), m) == pair_add(pair_of(u, m), pair_of(v, m)),
        pair_of(ring_sub(u, v), m) == pair_sub(pair_of(u, m), pair_of(v, m)),
        pair_of(ring_scale(c, u), m) == pair_scale(c, pair_of(u, m)),
{
    let r = root_of(m);
    lemma_residue_sum_add(u, v, 0, 128, r);
    lemma_residue_sum_add(u, v, 1, 128, r);
    lemma_residue_sum_scale(c, u, 0, 128, r);
    lemma_residue_sum_scale(c, u, 1, 128, r);
    let neg = ring_scale(-1, v);
    lemma_residue_sum_scale(-1, v, 0, 128, r);
    lemma_residue_sum_scale(-1, v, 1, 128, r);
    lemma_residue_sum_add(u, neg, 0, 128, r);
    lemma_residue_sum_add(u, neg, 1, 128, r);
    assert(ring_sub(u, v) =~= ring_add(u, neg));
}

/// Polynomials with congruent coefficients have congruent residues.
pub proof fn lemma_pair_of_congruent(u: Seq<int>, v: Seq<int>, m: int)
    requires
        forall|k: int| 0 <= k < 256 ==> congruent(#[trigger] u[k], v[k]),
    ensures
        pair_congruent(pair_of(u, m), pair_of(v, m)),
{
    lemma_residue_sum_coeffs(u, v, 0, 128, root_of(m));
    lemma_residue_sum_coeffs(u, v, 1, 128, root_of(m));
}

/// The residue of a product of polynomials is the product of their
/// residues.
pub proof fn lemma_pair_of_mul(u: Seq<int>, v: Seq<int>, m: int)
    requires
        0 <= m < 128,
    ensures
        pair_congruent(
            pair_of(ring_mul(u, v), m),
            pair_mul(pair_of(u, m), pair_of(v, m), root_of(m)),
        ),
{
    reveal(pair_mul);
    lemma_root_of(m);
    lemma_ring_mul_residues(u, v, 128 + m);
}

/// The coefficients of a sum or a difference of polynomials that does not
/// wrap, and of a polynomial with its coefficients reduced.
pub proof fn lemma_ints(x: Seq<i16>, y: Seq<i16>, bx: int, by: int)
    requires
        bounded(x, bx),
        bounded(y, by),
        0 <= bx,
        0 <= by,
        bx + by <= 32767,
    ensures
        ints(poly_add_spec(x, y)) == ring_add(ints(x), ints(y)),
        ints(poly_sub_spec(x, y)) == ring_sub(ints(x), ints(y)),
        bounded(poly_add_spec(x, y), bx + by),
        bounded(poly_sub_spec(x, y), bx + by),
        canonical(poly_reduce_spec(x)),
        forall|k: int|
            0 <= k < 256 ==> congruent(#[trigger] ints(poly_reduce_spec(x))[k], ints(x)[k]),
{
    let s = poly_add_spec(x, y);
    let d = poly_sub_spec(x, y);
    assert forall|i: int| 0 <= i < 256 implies s[i] == x[i] + y[i] && d[i] == x[i] - y[i] by {
        assert(s[i] == add16(x[i], y[i]));
        assert(d[i] == sub16(x[i], y[i]));
    }
    assert(ints(s) =~= ring_add(ints(x), ints(y)));
    assert(ints(d) =~= ring_sub(ints(x), ints(y)));
    let h = poly_reduce_spec(x);
    assert forall|k: int| 0 <= k < 256 implies 0 <= #[trigger] h[k] < 3329 && congruent(
        ints(h)[k],
        ints(x)[k],
    ) by {
        assert(h[k] == reduce_spec(x[k]));
        lemma_congruent_residue(x[k] as int);
    }
}

/// `(x y) z = y (x z)`.
proof fn lemma_triple(x: int, y: int, z: int)
    ensures
        (x * y) * z == y * (x * z),
{
    assert((x * y) * z == y * (x * z)) by (nonlinear_arith);
}

/// `(x + c y) z = x z + c (y z)` and `z (x + c y) = z x + c (z y)`.
proof fn lemma_spread(x: int, y: int, c: int, z: int)
    ensures
        (x + c * y) * z == x * z + c * (y * z),
        z * (x + c * y) == z * x + c * (z * y),
{
    assert((x + c * y) * z == x * z + c * (y * z)) by (nonlinear_arith);
    assert(z * (x + c * y) == z * x + c * (z * y)) by (nonlinear_arith);
}

/// Multiplication of residues is associative, in the form
/// `(a s) r = s (a r)`.
pub proof fn lemma_pair_mul_associates(a: (int, int), s: (int, int), r: (int, int), root: int)
    ensures
        pair_mul(pair_mul(a, s, root), r, root) == pair_mul(s, pair_mul(a, r, root), root),
{
    reveal(pair_mul);
    let (a0, a1) = a;
    let (s0, s1) = s;
    let (r0, r1) = r;
    let x0 = a0 * s0 + root * (a1 * s1);
    let x1 = a0 * s1 + a1 * s0;
    let y0 = a0 * r0 + root * (a1 * r1);
    let y1 = a0 * r1 + a1 * r0;
    // The constant coefficient.
    lemma_spread(a0 * s0, a1 * s1, root, r0);
    lemma_spread(a0 * s1, a1 * s0, 1, r1);
    lemma_spread(a0 * r0, a1 * r1, root, s0);
    lemma_spread(a0 * r1, a1 * r0, 1, s1);
    lemma_triple(a0, s0, r0);
    lemma_triple(a1, s1, r0);
    lemma_triple(a0, s1, r1);
    lemma_triple(a1, s0, r1);
    let t1 = (a0 * s0) * r0;
    let t2 = (a1 * s1) * r0;
    let t3 = (a0 * s1) * r1;
    let t4 = (a1 * s0) * r1;
    assert(x0 * r0 == t1 + root * t2);
    assert(x1 * r1 == t3 + 1 * t4);
    assert(s0 * y0 == t1 + root * t4);
    assert(s1 * y1 == t3 + 1 * t2);
    assert(root * (t3 + t4) + root * t2 == root * (t3 + t2) + root * t4) by (nonlinear_arith);
    assert(x0 * r0 + root * (x1 * r1) == s0 * y0 + root * (s1 * y1));
    // The coefficient of X.
    lemma_spread(a0 * s0, a1 * s1, root, r1);
    lemma_spread(a0 * s1, a1 * s0, 1, r0);
    lemma_spread(a0 * r1, a1 * r0, 1, s0);
    lemma_spread(a0 * r0, a1 * r1, root, s1);
    lemma_triple(a0, s0, r1);
    lemma_triple(a1, s1, r1);
    lemma_triple(a0, s1, r0);
    lemma_triple(a1, s0, r0);
    assert(x0 * r1 + x1 * r0 == s0 * y1 + s1 * y0);
}

/// Multiplication of residues distributes over addition.
pub proof fn lemma_pair_mul_distributes(a: (int, int), s: (int, int), r: (int, int), root: int)
    ensures
        pair_mul(pair_add(a, s), r, root) == pair_add(pair_mul(a, r, root), pair_mul(s, r, root)),
        pair_mul(r, pair_add(a, s), root) == pair_add(pair_mul(r, a, root), pair_mul(r, s, root)),
{
    reveal(pair_mul);
    let (a0, a1) = a;
    let (s0, s1) = s;
    let (r0, r1) = r;
    assert((a0 + s0) * r0 == a0 * r0 + s0 * r0 && (a1 + s1) * r1 == a1 * r1 + s1 * r1 && (a0 + s0)
        * r1 == a0 * r1 + s0 * r1 && (a1 + s1) * r0 == a1 * r0 + s1 * r0) by (nonlinear_arith);
    assert(r0 * (a0 + s0) == r0 * a0 + r0 * s0 && r1 * (a1 + s1) == r1 * a1 + r1 * s1 && r0 * (a1
        + s1) == r0 * a1 + r0 * s1 && r1 * (a0 + s0) == r1 * a0 + r1 * s0) by (nonlinear_arith);
    assert(root * (a1 * r1 + s1 * r1) == root * (a1 * r1) + root * (s1 * r1))
        by (nonlinear_arith);
    assert(root * (r1 * a1 + r1 * s1) == root * (r1 * a1) + root * (r1 * s1))
        by (nonlinear_arith);
}

/// Multiplying by the Montgomery factor undoes dividing by it: `2^16` times
/// 169 is 1 modulo `q`.
pub proof fn lemma_pair_unit(x: (int, int))
    ensures
        pair_congruent(pair_scale(65536, pair_scale(169, x)), x),
{
    lemma_congruent_by(65536 * (169 * x.0), x.0, 3327 * x.0);
    lemma_congruent_by(65536 * (169 * x.1), x.1, 3327 * x.1);
}

/// A transformed polynomial that holds a residue holds every residue
/// congruent to it.
pub proof fn lemma_holds_congruent(x: Seq<i16>, m: int, p: (int, int), p2: (int, int))
    requires
        holds(x, m, p),
        pair_congruent(p, p2),
    ensures
        holds(x, m, p2),
{
    lemma_pair_congruent((x[2 * m] as int, x[2 * m + 1] as int), p, p2);
}

} // verus!
