//! Reduction modulo `q`: Montgomery reduction of a product, Barrett
//! reduction of a coefficient, and the conditional subtraction of `q`.

use vstd::prelude::*;

verus! {

/// `2^16 mod q`, the Montgomery factor.
pub const MONT: i32 = 2285;

/// `q^-1 mod 2^16`.
pub const QINV: i32 = 62209;

/// `a` and `b` differ by a multiple of `q`.
#[verifier::opaque]
pub open spec fn congruent(a: int, b: int) -> bool {
    (a - b) % 3329 == 0
}

/// Numbers that differ by `k q` are congruent.
pub proof fn lemma_congruent_by(a: int, b: int, k: int)
    requires
        a - b == 3329 * k,
    ensures
        congruent(a, b),
{
    reveal(congruent);
}

/// A number is congruent to its residue.
pub proof fn lemma_congruent_residue(a: int)
    ensures
        congruent(a % 3329, a),
        congruent(a, a),
{
    reveal(congruent);
}

/// Sums and differences of congruent numbers are congruent.
pub proof fn lemma_congruent_sum(a: int, x: int, b: int, y: int)
    requires
        congruent(a, x),
        congruent(b, y),
    ensures
        congruent(a + b, x + y),
        congruent(a - b, x - y),
{
    reveal(congruent);
    let k = (a - x) / 3329;
    let m = (b - y) / 3329;
    assert((a + b) - (x + y) == 3329 * (k + m));
    assert((a - b) - (x - y) == 3329 * (k - m));
}

/// Congruent numbers stay congruent when both are multiplied by `m`.
pub proof fn lemma_congruent_scale(a: int, b: int, m: int)
    requires
        congruent(a, b),
    ensures
        congruent(a * m, b * m),
{
    reveal(congruent);
    let k = (a - b) / 3329;
    assert(a - b == 3329 * k);
    assert(a * m - b * m == 3329 * (k * m)) by (nonlinear_arith)
        requires
            a - b == 3329 * k,
    ;
}

/// Congruence is transitive.
pub proof fn lemma_congruent_trans(a: int, b: int, c: int)
    requires
        congruent(a, b),
        congruent(b, c),
    ensures
        congruent(a, c),
{
    reveal(congruent);
    let k = (a - b) / 3329;
    let m = (b - c) / 3329;
    assert(a - c == 3329 * (k + m));
}

/// A number `r` with `r 2^16` congruent to `a` is congruent to `169 a`:
/// 169 is the inverse of `2^16` modulo `q`.
pub proof fn lemma_unscale(r: int, a: int)
    requires
        congruent(r * 65536, a),
    ensures
        congruent(r, 169 * a),
{
    reveal(congruent);
    let k = (r * 65536 - a) / 3329;
    assert(r * 65536 - a == 3329 * k);
    assert(r - 169 * a == 3329 * (169 * k - 3327 * r));
}

/// Congruence is symmetric.
pub proof fn lemma_congruent_sym(a: int, b: int)
    requires
        congruent(a, b),
    ensures
        congruent(b, a),
{
    reveal(congruent);
    let k = (a - b) / 3329;
    assert(b - a == 3329 * (-k));
}

/// Products of congruent numbers are congruent.
pub proof fn lemma_congruent_product(a: int, x: int, b: int, y: int)
    requires
        congruent(a, x),
        congruent(b, y),
    ensures
        congruent(a * b, x * y),
{
    lemma_congruent_scale(a, x, b);
    lemma_congruent_scale(b, y, x);
    assert(x * b == b * x && y * x == x * y) by (nonlinear_arith);
    lemma_congruent_trans(a * b, x * b, x * y);
}

/// The representative of `x` modulo `2^16` that lies in `[-2^15, 2^15)`.
pub open spec fn centered16(x: int) -> int {
    (x + 32768) % 65536 - 32768
}

/// The integer `(a - u q) / 2^16`, where `u` is the centered representative
/// of `a q^-1` modulo `2^16`. The division is exact.
#[verifier::opaque]
pub open spec fn montgomery_spec(a: int) -> int {
    (a - centered16(a * 62209) * 3329) / 65536
}

/// The inputs for which Montgomery reduction lands strictly between `-q` and `q`.
pub open spec fn montgomery_domain(a: int) -> bool {
    -3329 * 32768 <= a < 3329 * 32768
}

/// `montgomery_spec(a)` times `2^16` differs from `a` by a multiple of `q`,
/// and it is smaller than `q` in absolute value on the Montgomery domain.
pub proof fn lemma_montgomery_spec(a: int)
    ensures
        congruent(montgomery_spec(a) * 65536, a),
        montgomery_spec(a) * 65536 == a - centered16(a * 62209) * 3329,
        a / 65536 - 1665 <= montgomery_spec(a) <= a / 65536 + 1665,
        montgomery_domain(a) ==> -3329 < montgomery_spec(a) < 3329,
{
    reveal(montgomery_spec);
    reveal(congruent);
    let p = a * 62209;
    let k = (p + 32768) / 65536;
    let u = centered16(p);
    assert(u == p - 65536 * k);
    assert(a - u * 3329 == 65536 * (k * 3329 - 3160 * a));
    assert(montgomery_spec(a) == k * 3329 - 3160 * a);
    assert(montgomery_spec(a) * 65536 - a == (-u) * 3329);
    assert(((-u) * 3329) % 3329 == 0) by (nonlinear_arith);
}

/// The products of two 16-bit values.
pub open spec fn double_width_product(a: int) -> bool {
    -1073741824 <= a <= 1073741824
}

/// Montgomery reduction: the 16-bit value `(a - u q) / 2^16`, which is
/// congruent to `a * 2^-16` modulo `q`; no division is executed.
pub fn montgomery_reduce(a: i32) -> (r: i16)
    requires
        double_width_product(a as int),
    ensures
        r as int == montgomery_spec(a as int),
        congruent(r * 65536, a as int),
        montgomery_domain(a as int) ==> -3329 < r < 3329,
{
    let qinv: i64 = QINV as i64;
    assert(qinv == 62209);
    let p: i64 = (a as i64) * qinv;
    let u: i16 = #[verifier::truncate] (p as i16);
    let d: i64 = (a as i64) - (u as i64) * 3329;
    let t: i64 = d >> 16;
    proof {
        assert(u as int == centered16(p as int)) by (bit_vector)
            requires
                u == p as i16,
        ;
        assert(t == d / 65536) by (bit_vector)
            requires
                t == d >> 16,
        ;
        reveal(montgomery_spec);
        lemma_montgomery_spec(a as int);
    }
    t as i16
}

/// Barrett reduction: the residue of `a` modulo `q` in `[0, q)`, computed
/// with the fixed-point approximation `20159 / 2^26` of `1 / q`.
pub fn barrett_reduce(a: i16) -> (r: i16)
    ensures
        r as int == (a as int) % 3329,
        0 <= r < 3329,
        congruent(r as int, a as int),
{
    let v: i32 = 20159;
    let p: i32 = v * (a as i32);
    let t: i32 = p >> 26;
    proof {
        assert(t == p / 67108864) by (bit_vector)
            requires
                t == p >> 26,
        ;
    }
    let r0: i32 = (a as i32) - t * 3329;
    assert(0 <= r0 <= 3329);
    let r: i16 = csubq(r0 as i16);
    assert(r as int == a - (if r0 == 3329 { t + 1 } else { t as int }) * 3329);
    proof {
        reveal(congruent);
    }
    r
}

/// Subtracts `q` once if `a >= q`, and leaves `a` as it is otherwise. The
/// choice is made with the sign bit of the difference, not with a branch.
pub fn csubq(a: i16) -> (r: i16)
    ensures
        r as int == if a >= 3329 { a - 3329 } else { a as int },
{
    let t: i32 = (a as i32) - 3329;
    let m: i32 = (t >> 31) & 3329;
    proof {
        assert(m == if t < 0 { 3329i32 } else { 0i32 }) by (bit_vector)
            requires
                m == (t >> 31) & 3329,
        ;
    }
    (t + m) as i16
}

} // verus!
