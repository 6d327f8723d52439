//! Why decryption inverts encryption: the polynomial that a decryption
//! decodes is the encoding of the message plus a noise polynomial, which is
//! small for all but a negligible share of the keys and coins.

use vstd::prelude::*;
use crate::cbd::lemma_cbd2_range;
use crate::indcpa::{dec_poly_spec, enc_u_spec, enc_v_spec, gen_matrix_spec, indcpa_dec_spec,
    indcpa_enc_spec, indcpa_pk_spec, indcpa_sk_spec, lemma_keys_decode, matrix_times, noise_vec,
    polyvec_tomont_spec};
use crate::ntt::invntt_spec;
use crate::ntt_evaluation::ints;
use crate::ntt_product::{ring_add, ring_mul};
use crate::ntt_proofs::bounded;
use crate::poly::{canonical, lemma_compress_decompress, lemma_decode,
    lemma_decompress_compress, lemma_frommsg_range, poly_add_spec,
    poly_compress_spec, poly_frommsg_spec, poly_getnoise_spec,
    poly_ntt_spec, poly_reduce_spec, poly_rounded, poly_sub_spec, poly_tomont_spec, reduce_spec,
    small_noise};
use crate::polyvec::{lemma_polyvec_decompress_compress, polyvec_add_spec, polyvec_compress_spec,
    polyvec_decompress_spec, polyvec_invntt_spec, polyvec_ntt_spec,
    polyvec_pointwise_acc_spec, polyvec_reduce_spec};
use crate::reduce::{congruent, lemma_congruent_residue, lemma_congruent_trans};
use crate::symmetric::shake256;
use crate::residues::{holds, lemma_acc_holds, lemma_add_holds, lemma_holds_congruent, lemma_ints,
    lemma_invntt_residues, lemma_ntt_holds, lemma_pair_congruent, lemma_pair_mul_associates,
    lemma_pair_mul_distributes, lemma_pair_of_congruent,
    lemma_pair_of_linear, lemma_pair_of_mul, lemma_pair_operations, lemma_pair_unit,
    lemma_reduce_holds, lemma_residues_determine, lemma_tomont_holds, pair_add, pair_congruent,
    pair_dot, pair_mul, pair_of, pair_scale, pair_sub, ring_sub, root_of};

verus! {

/// The two coefficients of the pair `m` of a transformed polynomial, which
/// are the residue that it holds there.
pub open spec fn entry(x: Seq<i16>, m: int) -> (int, int) {
    (x[2 * m] as int, x[2 * m + 1] as int)
}

/// A vector of three polynomials with coefficients at most `b` in absolute
/// value.
pub open spec fn vec_bounded(v: Seq<Seq<i16>>, b: int) -> bool {
    v.len() == 3 && forall|i: int| 0 <= i < 3 ==> bounded(#[trigger] v[i], b)
}

/// A vector of three sequences of 256 coefficients.
pub open spec fn vec_shaped(v: Seq<Seq<i16>>) -> bool {
    v.len() == 3 && forall|i: int| 0 <= i < 3 ==> (#[trigger] v[i]).len() == 256
}

/// The inner product of a vector of transformed polynomials `x` with the
/// transforms of the polynomials `p` holds the inner product of the residues,
/// divided by the Montgomery factor.
proof fn lemma_acc_of_transforms(
    x: Seq<Seq<i16>>,
    p: Seq<Seq<i16>>,
    m: int,
    a0: (int, int),
    a1: (int, int),
    a2: (int, int),
)
    requires
        0 <= m < 128,
        vec_shaped(x),
        vec_bounded(p, 3329),
        holds(x[0], m, a0),
        holds(x[1], m, a1),
        holds(x[2], m, a2),
    ensures
        holds(
            polyvec_pointwise_acc_spec(x, polyvec_ntt_spec(p)),
            m,
            pair_scale(
                169,
                pair_dot(
                    a0,
                    a1,
                    a2,
                    pair_of(ints(p[0]), m),
                    pair_of(ints(p[1]), m),
                    pair_of(ints(p[2]), m),
                    root_of(m),
                ),
            ),
        ),
        canonical(polyvec_pointwise_acc_spec(x, polyvec_ntt_spec(p))),
{
    let y = polyvec_ntt_spec(p);
    assert(bounded(p[0], 3329) && bounded(p[1], 3329) && bounded(p[2], 3329));
    lemma_ntt_holds(p[0], m);
    lemma_ntt_holds(p[1], m);
    lemma_ntt_holds(p[2], m);
    assert(y[0] == poly_ntt_spec(p[0]) && y[1] == poly_ntt_spec(p[1]) && y[2] == poly_ntt_spec(
        p[2],
    ));
    assert forall|i: int| 0 <= i < 3 implies -3329 < (#[trigger] y[i])[2 * m] < 3329 && -3329
        < y[i][2 * m + 1] < 3329 by {
        assert(bounded(p[i], 3329));
        lemma_ntt_holds(p[i], m);
    }
    assert forall|i: int| 0 <= i < 3 implies (#[trigger] y[i]).len() == 256 by {}
    assert(x[0].len() == 256 && x[1].len() == 256 && x[2].len() == 256);
    lemma_acc_holds(
        x,
        y,
        m,
        a0,
        a1,
        a2,
        pair_of(ints(p[0]), m),
        pair_of(ints(p[1]), m),
        pair_of(ints(p[2]), m),
    );
}

/// The inverse transform of such an inner product is a polynomial whose
/// residue is the inner product of the residues: the Montgomery factor that
/// the inverse transform leaves is the one that the base multiplication
/// divided by.
proof fn lemma_product_sum(
    x: Seq<Seq<i16>>,
    p: Seq<Seq<i16>>,
    m: int,
    a0: (int, int),
    a1: (int, int),
    a2: (int, int),
)
    requires
        0 <= m < 128,
        vec_shaped(x),
        vec_bounded(p, 3329),
        holds(x[0], m, a0),
        holds(x[1], m, a1),
        holds(x[2], m, a2),
    ensures
        pair_congruent(
            pair_of(ints(invntt_spec(polyvec_pointwise_acc_spec(x, polyvec_ntt_spec(p)))), m),
            pair_dot(
                a0,
                a1,
                a2,
                pair_of(ints(p[0]), m),
                pair_of(ints(p[1]), m),
                pair_of(ints(p[2]), m),
                root_of(m),
            ),
        ),
        bounded(invntt_spec(polyvec_pointwise_acc_spec(x, polyvec_ntt_spec(p))), 3328),
{
    let acc = polyvec_pointwise_acc_spec(x, polyvec_ntt_spec(p));
    let d = pair_dot(
        a0,
        a1,
        a2,
        pair_of(ints(p[0]), m),
        pair_of(ints(p[1]), m),
        pair_of(ints(p[2]), m),
        root_of(m),
    );
    lemma_acc_of_transforms(x, p, m, a0, a1, a2);
    assert(bounded(acc, 16383));
    lemma_invntt_residues(acc, m, pair_scale(169, d));
    lemma_pair_unit(d);
    lemma_pair_congruent(
        pair_of(ints(invntt_spec(acc)), m),
        pair_scale(65536, pair_scale(169, d)),
        d,
    );
}

/// A transformed polynomial holds its own coefficients.
proof fn lemma_holds_entry(x: Seq<i16>, m: int)
    ensures
        holds(x, m, entry(x, m)),
{
    lemma_pair_congruent(entry(x, m), entry(x, m), entry(x, m));
}

/// The residue of a sum or a difference of polynomials that does not wrap.
proof fn lemma_sum_residues(x: Seq<i16>, y: Seq<i16>, bx: int, by: int, m: int)
    requires
        bounded(x, bx),
        bounded(y, by),
        0 <= bx,
        0 <= by,
        bx + by <= 32767,
    ensures
        pair_of(ints(poly_add_spec(x, y)), m) == pair_add(pair_of(ints(x), m), pair_of(ints(y), m)),
        pair_of(ints(poly_sub_spec(x, y)), m) == pair_sub(pair_of(ints(x), m), pair_of(ints(y), m)),
        bounded(poly_add_spec(x, y), bx + by),
        bounded(poly_sub_spec(x, y), bx + by),
{
    lemma_ints(x, y, bx, by);
    lemma_pair_of_linear(ints(x), ints(y), 1, m);
}

/// The residue of a polynomial with its coefficients reduced.
proof fn lemma_reduced_residues(x: Seq<i16>, m: int)
    requires
        x.len() == 256,
    ensures
        pair_congruent(pair_of(ints(poly_reduce_spec(x)), m), pair_of(ints(x), m)),
        canonical(poly_reduce_spec(x)),
        bounded(poly_reduce_spec(x), 3329),
{
    let h = poly_reduce_spec(x);
    assert forall|k: int| 0 <= k < 256 implies 0 <= #[trigger] h[k] < 3329 by {
        assert(h[k] == reduce_spec(x[k]));
    }
    assert forall|k: int| 0 <= k < 256 implies congruent(#[trigger] ints(h)[k], ints(x)[k]) by {
        assert(h[k] == reduce_spec(x[k]));
        lemma_congruent_residue(x[k] as int);
    }
    lemma_pair_of_congruent(ints(h), ints(x), m);
}

/// The public vector `t = A s + e`. Row `j` of the vector
/// `reduce(tomont(A s) + e)`, computed on the transforms of `s` and `e`,
/// holds the inner product of row `j` of the matrix with the residues of `s`,
/// plus the residue of `e[j]`.
proof fn lemma_public_vector(
    a: Seq<Seq<Seq<i16>>>,
    s: Seq<Seq<i16>>,
    e: Seq<Seq<i16>>,
    j: int,
    m: int,
)
    requires
        0 <= m < 128,
        0 <= j < 3,
        a.len() == 3,
        vec_shaped(a[j]),
        vec_bounded(s, 3329),
        vec_bounded(e, 3329),
    ensures
        ({
            let t = polyvec_reduce_spec(
                polyvec_add_spec(
                    polyvec_tomont_spec(matrix_times(a, polyvec_ntt_spec(s))),
                    polyvec_ntt_spec(e),
                ),
            );
            &&& holds(
                t[j],
                m,
                pair_add(
                    pair_dot(
                        entry(a[j][0], m),
                        entry(a[j][1], m),
                        entry(a[j][2], m),
                        pair_of(ints(s[0]), m),
                        pair_of(ints(s[1]), m),
                        pair_of(ints(s[2]), m),
                        root_of(m),
                    ),
                    pair_of(ints(e[j]), m),
                ),
            )
            &&& canonical(t[j])
        }),
{
    let sh = polyvec_ntt_spec(s);
    let eh = polyvec_ntt_spec(e);
    let acc = polyvec_pointwise_acc_spec(a[j], sh);
    let d = pair_dot(
        entry(a[j][0], m),
        entry(a[j][1], m),
        entry(a[j][2], m),
        pair_of(ints(s[0]), m),
        pair_of(ints(s[1]), m),
        pair_of(ints(s[2]), m),
        root_of(m),
    );
    let ej = pair_of(ints(e[j]), m);
    lemma_holds_entry(a[j][0], m);
    lemma_holds_entry(a[j][1], m);
    lemma_holds_entry(a[j][2], m);
    lemma_acc_of_transforms(a[j], s, m, entry(a[j][0], m), entry(a[j][1], m), entry(a[j][2], m));
    assert(matrix_times(a, sh)[j] == acc);
    let tm = poly_tomont_spec(acc);
    assert(polyvec_tomont_spec(matrix_times(a, sh))[j] == tm);
    lemma_tomont_holds(acc, m, pair_scale(169, d));
    lemma_pair_unit(d);
    lemma_holds_congruent(tm, m, pair_scale(65536, pair_scale(169, d)), d);
    assert(bounded(e[j], 3329));
    lemma_ntt_holds(e[j], m);
    assert(eh[j] == poly_ntt_spec(e[j]));
    lemma_add_holds(tm, eh[j], m, d, ej);
    let sum = poly_add_spec(tm, eh[j]);
    assert(polyvec_add_spec(polyvec_tomont_spec(matrix_times(a, sh)), eh)[j] == sum);
    lemma_reduce_holds(sum, m, pair_add(d, ej));
    lemma_reduced_residues(sum, m);
}

/// The vector `u = A^T r + e1` of an encryption. Polynomial `i` of the
/// vector `reduce(invntt(A^T r) + e1)` has as its residue the inner product
/// of row `i` of the transposed matrix with the residues of `r`, plus the
/// residue of `e1[i]`.
proof fn lemma_u_residues(
    at: Seq<Seq<Seq<i16>>>,
    r: Seq<Seq<i16>>,
    e1: Seq<Seq<i16>>,
    i: int,
    m: int,
)
    requires
        0 <= m < 128,
        0 <= i < 3,
        at.len() == 3,
        vec_shaped(at[i]),
        vec_bounded(r, 3329),
        vec_bounded(e1, 2),
    ensures
        ({
            let u = polyvec_reduce_spec(
                polyvec_add_spec(polyvec_invntt_spec(matrix_times(at, polyvec_ntt_spec(r))), e1),
            );
            &&& pair_congruent(
                pair_of(ints(u[i]), m),
                pair_add(
                    pair_dot(
                        entry(at[i][0], m),
                        entry(at[i][1], m),
                        entry(at[i][2], m),
                        pair_of(ints(r[0]), m),
                        pair_of(ints(r[1]), m),
                        pair_of(ints(r[2]), m),
                        root_of(m),
                    ),
                    pair_of(ints(e1[i]), m),
                ),
            )
            &&& canonical(u[i])
        }),
{
    let rh = polyvec_ntt_spec(r);
    let acc = polyvec_pointwise_acc_spec(at[i], rh);
    let y = invntt_spec(acc);
    let d = pair_dot(
        entry(at[i][0], m),
        entry(at[i][1], m),
        entry(at[i][2], m),
        pair_of(ints(r[0]), m),
        pair_of(ints(r[1]), m),
        pair_of(ints(r[2]), m),
        root_of(m),
    );
    let e1i = pair_of(ints(e1[i]), m);
    lemma_holds_entry(at[i][0], m);
    lemma_holds_entry(at[i][1], m);
    lemma_holds_entry(at[i][2], m);
    lemma_product_sum(at[i], r, m, entry(at[i][0], m), entry(at[i][1], m), entry(at[i][2], m));
    assert(matrix_times(at, rh)[i] == acc);
    assert(polyvec_invntt_spec(matrix_times(at, rh))[i] == y);
    assert(bounded(e1[i], 2));
    lemma_sum_residues(y, e1[i], 3328, 2, m);
    let sum = poly_add_spec(y, e1[i]);
    assert(polyvec_add_spec(polyvec_invntt_spec(matrix_times(at, rh)), e1)[i] == sum);
    lemma_reduced_residues(sum, m);
    lemma_pair_congruent(e1i, e1i, e1i);
    lemma_pair_operations(pair_of(ints(y), m), d, e1i, e1i, 1, root_of(m));
    lemma_pair_congruent(
        pair_of(ints(poly_reduce_spec(sum)), m),
        pair_of(ints(sum), m),
        pair_add(d, e1i),
    );
}

/// The polynomial `v = t r + e2 + m` of an encryption. The polynomial
/// `reduce(invntt(t r) + e2 + k)`, where the transformed vector `t` holds
/// the residues `t0`, `t1` and `t2`, has as its residue their inner product
/// with the residues of `r`, plus the residues of `e2` and of `k`.
proof fn lemma_v_residues(
    t: Seq<Seq<i16>>,
    r: Seq<Seq<i16>>,
    e2: Seq<i16>,
    k: Seq<i16>,
    m: int,
    t0: (int, int),
    t1: (int, int),
    t2: (int, int),
)
    requires
        0 <= m < 128,
        vec_shaped(t),
        vec_bounded(r, 3329),
        bounded(e2, 2),
        bounded(k, 1665),
        holds(t[0], m, t0),
        holds(t[1], m, t1),
        holds(t[2], m, t2),
    ensures
        ({
            let v = poly_reduce_spec(
                poly_add_spec(
                    poly_add_spec(
                        invntt_spec(polyvec_pointwise_acc_spec(t, polyvec_ntt_spec(r))),
                        e2,
                    ),
                    k,
                ),
            );
            &&& pair_congruent(
                pair_of(ints(v), m),
                pair_add(
                    pair_add(
                        pair_dot(
                            t0,
                            t1,
                            t2,
                            pair_of(ints(r[0]), m),
                            pair_of(ints(r[1]), m),
                            pair_of(ints(r[2]), m),
                            root_of(m),
                        ),
                        pair_of(ints(e2), m),
                    ),
                    pair_of(ints(k), m),
                ),
            )
            &&& canonical(v)
        }),
{
    let x = invntt_spec(polyvec_pointwise_acc_spec(t, polyvec_ntt_spec(r)));
    let d = pair_dot(
        t0,
        t1,
        t2,
        pair_of(ints(r[0]), m),
        pair_of(ints(r[1]), m),
        pair_of(ints(r[2]), m),
        root_of(m),
    );
    let pe = pair_of(ints(e2), m);
    let pk = pair_of(ints(k), m);
    lemma_product_sum(t, r, m, t0, t1, t2);
    lemma_sum_residues(x, e2, 3328, 2, m);
    let s1 = poly_add_spec(x, e2);
    lemma_sum_residues(s1, k, 3330, 1665, m);
    let s2 = poly_add_spec(s1, k);
    lemma_reduced_residues(s2, m);
    lemma_pair_congruent(pe, pe, pe);
    lemma_pair_congruent(pk, pk, pk);
    lemma_pair_operations(pair_of(ints(x), m), d, pe, pe, 1, root_of(m));
    lemma_pair_operations(pair_add(pair_of(ints(x), m), pe), pair_add(d, pe), pk, pk, 1, root_of(m));
    lemma_pair_congruent(
        pair_of(ints(poly_reduce_spec(s2)), m),
        pair_of(ints(s2), m),
        pair_add(pair_add(d, pe), pk),
    );
}

/// The polynomial `v - s u` of a decryption. The polynomial
/// `reduce(v - invntt(s u))`, computed on the transforms of `s` and `u`, has
/// as its residue the residue of `v` minus the inner product of the residues
/// of `s` and `u`.
proof fn lemma_dec_residues(s: Seq<Seq<i16>>, u: Seq<Seq<i16>>, v: Seq<i16>, m: int)
    requires
        0 <= m < 128,
        vec_bounded(s, 3329),
        vec_bounded(u, 3329),
        bounded(v, 3329),
    ensures
        ({
            let mp = poly_reduce_spec(
                poly_sub_spec(
                    v,
                    invntt_spec(
                        polyvec_pointwise_acc_spec(polyvec_ntt_spec(s), polyvec_ntt_spec(u)),
                    ),
                ),
            );
            &&& pair_congruent(
                pair_of(ints(mp), m),
                pair_sub(
                    pair_of(ints(v), m),
                    pair_dot(
                        pair_of(ints(s[0]), m),
                        pair_of(ints(s[1]), m),
                        pair_of(ints(s[2]), m),
                        pair_of(ints(u[0]), m),
                        pair_of(ints(u[1]), m),
                        pair_of(ints(u[2]), m),
                        root_of(m),
                    ),
                ),
            )
            &&& canonical(mp)
        }),
{
    let sh = polyvec_ntt_spec(s);
    let w = invntt_spec(polyvec_pointwise_acc_spec(sh, polyvec_ntt_spec(u)));
    let d = pair_dot(
        pair_of(ints(s[0]), m),
        pair_of(ints(s[1]), m),
        pair_of(ints(s[2]), m),
        pair_of(ints(u[0]), m),
        pair_of(ints(u[1]), m),
        pair_of(ints(u[2]), m),
        root_of(m),
    );
    let pv = pair_of(ints(v), m);
    assert(bounded(s[0], 3329) && bounded(s[1], 3329) && bounded(s[2], 3329));
    lemma_ntt_holds(s[0], m);
    lemma_ntt_holds(s[1], m);
    lemma_ntt_holds(s[2], m);
    assert(sh[0] == poly_ntt_spec(s[0]) && sh[1] == poly_ntt_spec(s[1]) && sh[2] == poly_ntt_spec(
        s[2],
    ));
    assert(vec_shaped(sh));
    lemma_product_sum(
        sh,
        u,
        m,
        pair_of(ints(s[0]), m),
        pair_of(ints(s[1]), m),
        pair_of(ints(s[2]), m),
    );
    lemma_sum_residues(v, w, 3329, 3328, m);
    let diff = poly_sub_spec(v, w);
    lemma_reduced_residues(diff, m);
    lemma_pair_congruent(pv, pv, pv);
    lemma_pair_operations(pv, pv, pair_of(ints(w), m), d, 1, root_of(m));
    lemma_pair_congruent(
        pair_of(ints(poly_reduce_spec(diff)), m),
        pair_of(ints(diff), m),
        pair_sub(pv, d),
    );
}

/// One row of the public vector times a residue of `r`, with every product
/// written as a residue of `s` times a product of the matrix and `r`.
proof fn lemma_row_left(
    a0: (int, int),
    a1: (int, int),
    a2: (int, int),
    s0: (int, int),
    s1: (int, int),
    s2: (int, int),
    e: (int, int),
    r: (int, int),
    root: int,
)
    ensures
        pair_mul(pair_add(pair_dot(a0, a1, a2, s0, s1, s2, root), e), r, root) == pair_add(
            pair_add(
                pair_add(
                    pair_mul(s0, pair_mul(a0, r, root), root),
                    pair_mul(s1, pair_mul(a1, r, root), root),
                ),
                pair_mul(s2, pair_mul(a2, r, root), root),
            ),
            pair_mul(e, r, root),
        ),
{
    let x0 = pair_mul(a0, s0, root);
    let x1 = pair_mul(a1, s1, root);
    let x2 = pair_mul(a2, s2, root);
    lemma_pair_mul_distributes(pair_add(pair_add(x0, x1), x2), e, r, root);
    lemma_pair_mul_distributes(pair_add(x0, x1), x2, r, root);
    lemma_pair_mul_distributes(x0, x1, r, root);
    lemma_pair_mul_associates(a0, s0, r, root);
    lemma_pair_mul_associates(a1, s1, r, root);
    lemma_pair_mul_associates(a2, s2, r, root);
}

/// A residue of `s` times one polynomial of `u`, its noise and its rounding
/// error, with every product written out.
proof fn lemma_row_right(
    s: (int, int),
    b0: (int, int),
    b1: (int, int),
    b2: (int, int),
    r0: (int, int),
    r1: (int, int),
    r2: (int, int),
    f: (int, int),
    g: (int, int),
    root: int,
)
    ensures
        pair_mul(s, pair_add(pair_add(pair_dot(b0, b1, b2, r0, r1, r2, root), f), g), root)
            == pair_add(
            pair_add(
                pair_add(
                    pair_mul(s, pair_mul(b0, r0, root), root),
                    pair_mul(s, pair_mul(b1, r1, root), root),
                ),
                pair_mul(s, pair_mul(b2, r2, root), root),
            ),
            pair_mul(s, pair_add(f, g), root),
        ),
{
    let y0 = pair_mul(b0, r0, root);
    let y1 = pair_mul(b1, r1, root);
    let y2 = pair_mul(b2, r2, root);
    let w = pair_add(pair_add(y0, y1), y2);
    lemma_pair_mul_distributes(pair_add(w, f), g, s, root);
    lemma_pair_mul_distributes(w, f, s, root);
    lemma_pair_mul_distributes(pair_add(y0, y1), y2, s, root);
    lemma_pair_mul_distributes(y0, y1, s, root);
    lemma_pair_mul_distributes(f, g, s, root);
}

/// The inner product of two vectors of residues.
pub open spec fn dot(x: Seq<(int, int)>, y: Seq<(int, int)>, root: int) -> (int, int) {
    pair_dot(x[0], x[1], x[2], y[0], y[1], y[2], root)
}

/// The residues that the public vector holds: `t = A s + e`.
pub open spec fn t_pairs(
    a: Seq<Seq<(int, int)>>,
    s: Seq<(int, int)>,
    e: Seq<(int, int)>,
    root: int,
) -> Seq<(int, int)> {
    Seq::new(3, |j: int| pair_add(dot(a[j], s, root), e[j]))
}

/// The residues of the vector of a ciphertext after rounding:
/// `u = A^T r + e1 + cu`.
pub open spec fn u_pairs(
    a: Seq<Seq<(int, int)>>,
    r: Seq<(int, int)>,
    e1: Seq<(int, int)>,
    cu: Seq<(int, int)>,
    root: int,
) -> Seq<(int, int)> {
    Seq::new(
        3,
        |i: int|
            pair_add(
                pair_add(pair_dot(a[0][i], a[1][i], a[2][i], r[0], r[1], r[2], root), e1[i]),
                cu[i],
            ),
    )
}

/// The sums `e1 + cu` of the noise and the rounding error of each polynomial
/// of the vector of a ciphertext.
pub open spec fn f_pairs(e1: Seq<(int, int)>, cu: Seq<(int, int)>) -> Seq<(int, int)> {
    Seq::new(3, |i: int| pair_add(e1[i], cu[i]))
}

/// The residue of `v - s u` in terms of the residues that went into it.
/// With the public vector `t = A s + e`, the vector `u = A^T r + e1 + cu`
/// and the polynomial `v = t r + e2 + k + cv`, the products with the matrix
/// cancel: `v - s u = k + (cv + e2 + e r - s (e1 + cu))`.
proof fn lemma_noise_algebra(
    a: Seq<Seq<(int, int)>>,
    s: Seq<(int, int)>,
    e: Seq<(int, int)>,
    r: Seq<(int, int)>,
    e1: Seq<(int, int)>,
    cu: Seq<(int, int)>,
    e2: (int, int),
    k: (int, int),
    cv: (int, int),
    root: int,
)
    ensures
        ({
            let t = t_pairs(a, s, e, root);
            let u = u_pairs(a, r, e1, cu, root);
            let v = pair_add(pair_add(pair_add(dot(t, r, root), e2), k), cv);
            pair_sub(v, dot(s, u, root)) == pair_add(
                k,
                pair_sub(
                    pair_add(pair_add(cv, e2), dot(e, r, root)),
                    dot(s, f_pairs(e1, cu), root),
                ),
            )
        }),
{
    let t = t_pairs(a, s, e, root);
    let u = u_pairs(a, r, e1, cu, root);
    let f = f_pairs(e1, cu);
    lemma_row_left(a[0][0], a[0][1], a[0][2], s[0], s[1], s[2], e[0], r[0], root);
    lemma_row_left(a[1][0], a[1][1], a[1][2], s[0], s[1], s[2], e[1], r[1], root);
    lemma_row_left(a[2][0], a[2][1], a[2][2], s[0], s[1], s[2], e[2], r[2], root);
    lemma_row_right(s[0], a[0][0], a[1][0], a[2][0], r[0], r[1], r[2], e1[0], cu[0], root);
    lemma_row_right(s[1], a[0][1], a[1][1], a[2][1], r[0], r[1], r[2], e1[1], cu[1], root);
    lemma_row_right(s[2], a[0][2], a[1][2], a[2][2], r[0], r[1], r[2], e1[2], cu[2], root);
    assert(t[0] == pair_add(dot(a[0], s, root), e[0]));
    assert(t[1] == pair_add(dot(a[1], s, root), e[1]));
    assert(t[2] == pair_add(dot(a[2], s, root), e[2]));
    assert(f[0] == pair_add(e1[0], cu[0]) && f[1] == pair_add(e1[1], cu[1]) && f[2] == pair_add(
        e1[2],
        cu[2],
    ));
}

/// The residues of the polynomials of a vector at the pair `m`.
pub open spec fn residues_of(v: Seq<Seq<i16>>, m: int) -> Seq<(int, int)> {
    Seq::new(3, |i: int| pair_of(ints(v[i]), m))
}

/// The residues that the entries of a matrix of transformed polynomials
/// hold at the pair `m`.
pub open spec fn entries_of(a: Seq<Seq<Seq<i16>>>, m: int) -> Seq<Seq<(int, int)>> {
    Seq::new(3, |j: int| Seq::new(3, |i: int| entry(a[j][i], m)))
}

/// What rounding adds to a polynomial: the polynomial compressed to `d`
/// bits and decompressed, minus the polynomial.
pub open spec fn rounding_error(p: Seq<i16>, d: nat) -> Seq<int> {
    ring_sub(ints(poly_rounded(p, d)), ints(p))
}

/// The rounding errors of the polynomials of a vector, as residues at the
/// pair `m`.
pub open spec fn rounding_residues(u: Seq<Seq<i16>>, m: int) -> Seq<(int, int)> {
    Seq::new(3, |i: int| pair_of(rounding_error(u[i], 10), m))
}

/// The residue of `v - s u` as the operations of key generation,
/// encryption and decryption build it from the residues `a` of the matrix,
/// `s` and `e` of the key, `r`, `e1` and `e2` of the coins, `k` of the
/// message and `cu` and `cv` of the rounding errors.
pub open spec fn machine_pair(
    a: Seq<Seq<(int, int)>>,
    s: Seq<(int, int)>,
    e: Seq<(int, int)>,
    r: Seq<(int, int)>,
    e1: Seq<(int, int)>,
    cu: Seq<(int, int)>,
    e2: (int, int),
    k: (int, int),
    cv: (int, int),
    root: int,
) -> (int, int) {
    let t = t_pairs(a, s, e, root);
    let u = u_pairs(a, r, e1, cu, root);
    let v = pair_add(pair_add(pair_add(dot(t, r, root), e2), k), cv);
    pair_sub(v, dot(s, u, root))
}

/// The residue of the message polynomial plus the noise:
/// `k + (cv + e2 + e r - s (e1 + cu))`.
pub open spec fn noise_pair(
    s: Seq<(int, int)>,
    e: Seq<(int, int)>,
    r: Seq<(int, int)>,
    e1: Seq<(int, int)>,
    cu: Seq<(int, int)>,
    e2: (int, int),
    k: (int, int),
    cv: (int, int),
    root: int,
) -> (int, int) {
    pair_add(
        k,
        pair_sub(pair_add(pair_add(cv, e2), dot(e, r, root)), dot(s, f_pairs(e1, cu), root)),
    )
}

/// The products with the matrix cancel.
proof fn lemma_machine_is_noise(
    a: Seq<Seq<(int, int)>>,
    s: Seq<(int, int)>,
    e: Seq<(int, int)>,
    r: Seq<(int, int)>,
    e1: Seq<(int, int)>,
    cu: Seq<(int, int)>,
    e2: (int, int),
    k: (int, int),
    cv: (int, int),
    root: int,
)
    ensures
        machine_pair(a, s, e, r, e1, cu, e2, k, cv, root) == noise_pair(
            s,
            e,
            r,
            e1,
            cu,
            e2,
            k,
            cv,
            root,
        ),
{
    lemma_noise_algebra(a, s, e, r, e1, cu, e2, k, cv, root);
}

/// Inner products of congruent vectors of residues are congruent.
proof fn lemma_dot_congruent(
    x0: (int, int),
    x1: (int, int),
    x2: (int, int),
    y0: (int, int),
    y1: (int, int),
    y2: (int, int),
    a0: (int, int),
    a1: (int, int),
    a2: (int, int),
    b0: (int, int),
    b1: (int, int),
    b2: (int, int),
    root: int,
)
    requires
        pair_congruent(x0, a0),
        pair_congruent(x1, a1),
        pair_congruent(x2, a2),
        pair_congruent(y0, b0),
        pair_congruent(y1, b1),
        pair_congruent(y2, b2),
    ensures
        pair_congruent(
            pair_dot(x0, x1, x2, y0, y1, y2, root),
            pair_dot(a0, a1, a2, b0, b1, b2, root),
        ),
{
    lemma_pair_operations(x0, a0, y0, b0, 1, root);
    lemma_pair_operations(x1, a1, y1, b1, 1, root);
    lemma_pair_operations(x2, a2, y2, b2, 1, root);
    let p0 = pair_mul(x0, y0, root);
    let p1 = pair_mul(x1, y1, root);
    let p2 = pair_mul(x2, y2, root);
    let q0 = pair_mul(a0, b0, root);
    let q1 = pair_mul(a1, b1, root);
    let q2 = pair_mul(a2, b2, root);
    lemma_pair_operations(p0, q0, p1, q1, 1, root);
    lemma_pair_operations(pair_add(p0, p1), pair_add(q0, q1), p2, q2, 1, root);
}

/// A polynomial with coefficients in `[0, q)`, compressed to 4 or to 10
/// bits and decompressed, has its coefficients in `[0, q)`.
proof fn lemma_rounded_canonical(p: Seq<i16>, d: nat)
    requires
        canonical(p),
        d == 4 || d == 10,
    ensures
        canonical(poly_rounded(p, d)),
        bounded(poly_rounded(p, d), 3329),
        ints(poly_rounded(p, d)) == ring_add(ints(p), rounding_error(p, d)),
{
    let q = poly_rounded(p, d);
    assert forall|i: int| 0 <= i < 256 implies 0 <= #[trigger] q[i] < 3329 by {
        assert(0 <= p[i] < 3329);
        lemma_compress_decompress(p[i] as int, d);
    }
    assert(ints(q) =~= ring_add(ints(p), rounding_error(p, d)));
}

/// The public vector `reduce(tomont(A s) + e)`, computed on transforms.
pub open spec fn public_vector_of(
    a: Seq<Seq<Seq<i16>>>,
    s: Seq<Seq<i16>>,
    e: Seq<Seq<i16>>,
) -> Seq<Seq<i16>> {
    polyvec_reduce_spec(
        polyvec_add_spec(
            polyvec_tomont_spec(matrix_times(a, polyvec_ntt_spec(s))),
            polyvec_ntt_spec(e),
        ),
    )
}

/// The vector `reduce(invntt(A^T r) + e1)` of an encryption.
pub open spec fn u_of(at: Seq<Seq<Seq<i16>>>, r: Seq<Seq<i16>>, e1: Seq<Seq<i16>>) -> Seq<
    Seq<i16>,
> {
    polyvec_reduce_spec(
        polyvec_add_spec(polyvec_invntt_spec(matrix_times(at, polyvec_ntt_spec(r))), e1),
    )
}

/// The polynomial `reduce(invntt(t r) + e2 + k)` of an encryption.
pub open spec fn v_of(t: Seq<Seq<i16>>, r: Seq<Seq<i16>>, e2: Seq<i16>, k: Seq<i16>) -> Seq<i16> {
    poly_reduce_spec(
        poly_add_spec(
            poly_add_spec(invntt_spec(polyvec_pointwise_acc_spec(t, polyvec_ntt_spec(r))), e2),
            k,
        ),
    )
}

/// A vector with every coefficient compressed to 10 bits and decompressed.
pub open spec fn rounded_vec(u: Seq<Seq<i16>>) -> Seq<Seq<i16>> {
    Seq::new(3, |i: int| poly_rounded(u[i], 10))
}

/// The polynomial `reduce(v - invntt(s u))` that a decryption decodes.
pub open spec fn decoded_of(s: Seq<Seq<i16>>, u: Seq<Seq<i16>>, v: Seq<i16>) -> Seq<i16> {
    poly_reduce_spec(
        poly_sub_spec(
            v,
            invntt_spec(polyvec_pointwise_acc_spec(polyvec_ntt_spec(s), polyvec_ntt_spec(u))),
        ),
    )
}

/// A matrix of three rows of three sequences of 256 coefficients.
pub open spec fn matrix_shaped(a: Seq<Seq<Seq<i16>>>) -> bool {
    a.len() == 3 && forall|j: int| 0 <= j < 3 ==> vec_shaped(#[trigger] a[j])
}

/// A vector bounded by 2 is bounded by `q`.
proof fn lemma_small_vec(s: Seq<Seq<i16>>)
    requires
        vec_bounded(s, 2),
    ensures
        vec_bounded(s, 3329),
{
    assert forall|i: int| 0 <= i < 3 implies bounded(#[trigger] s[i], 3329) by {
        assert(bounded(s[i], 2));
    }
}

/// The residues that the public vector holds.
proof fn lemma_public_vector_holds(
    a: Seq<Seq<Seq<i16>>>,
    s: Seq<Seq<i16>>,
    e: Seq<Seq<i16>>,
    m: int,
)
    requires
        0 <= m < 128,
        matrix_shaped(a),
        vec_bounded(s, 2),
        vec_bounded(e, 2),
    ensures
        ({
            let t = public_vector_of(a, s, e);
            let tp = t_pairs(entries_of(a, m), residues_of(s, m), residues_of(e, m), root_of(m));
            &&& vec_shaped(t)
            &&& holds(t[0], m, tp[0])
            &&& holds(t[1], m, tp[1])
            &&& holds(t[2], m, tp[2])
        }),
{
    lemma_small_vec(s);
    lemma_small_vec(e);
    assert(vec_shaped(a[0]) && vec_shaped(a[1]) && vec_shaped(a[2]));
    lemma_public_vector(a, s, e, 0, m);
    lemma_public_vector(a, s, e, 1, m);
    lemma_public_vector(a, s, e, 2, m);
    let t = public_vector_of(a, s, e);
    assert forall|i: int| 0 <= i < 3 implies (#[trigger] t[i]).len() == 256 by {}
}

/// The residue of the polynomial `v` of a ciphertext after rounding.
proof fn lemma_v_pair(
    a: Seq<Seq<Seq<i16>>>,
    s: Seq<Seq<i16>>,
    e: Seq<Seq<i16>>,
    r: Seq<Seq<i16>>,
    e2: Seq<i16>,
    k: Seq<i16>,
    m: int,
)
    requires
        0 <= m < 128,
        matrix_shaped(a),
        vec_bounded(s, 2),
        vec_bounded(e, 2),
        vec_bounded(r, 2),
        bounded(e2, 2),
        bounded(k, 1665),
    ensures
        ({
            let v = v_of(public_vector_of(a, s, e), r, e2, k);
            let tp = t_pairs(entries_of(a, m), residues_of(s, m), residues_of(e, m), root_of(m));
            &&& pair_congruent(
                pair_of(ints(poly_rounded(v, 4)), m),
                pair_add(
                    pair_add(
                        pair_add(dot(tp, residues_of(r, m), root_of(m)), pair_of(ints(e2), m)),
                        pair_of(ints(k), m),
                    ),
                    pair_of(rounding_error(v, 4), m),
                ),
            )
            &&& canonical(poly_rounded(v, 4))
        }),
{
    let t = public_vector_of(a, s, e);
    let v = v_of(t, r, e2, k);
    let tp = t_pairs(entries_of(a, m), residues_of(s, m), residues_of(e, m), root_of(m));
    lemma_public_vector_holds(a, s, e, m);
    lemma_small_vec(r);
    lemma_v_residues(t, r, e2, k, m, tp[0], tp[1], tp[2]);
    lemma_rounded_canonical(v, 4);
    let cv = pair_of(rounding_error(v, 4), m);
    lemma_pair_of_linear(ints(v), rounding_error(v, 4), 1, m);
    lemma_pair_congruent(cv, cv, cv);
    let target = pair_add(
        pair_add(dot(tp, residues_of(r, m), root_of(m)), pair_of(ints(e2), m)),
        pair_of(ints(k), m),
    );
    lemma_pair_operations(pair_of(ints(v), m), target, cv, cv, 1, root_of(m));
}

/// The residue of polynomial `i` of the vector `u` of a ciphertext after
/// rounding.
proof fn lemma_u_pair(
    a: Seq<Seq<Seq<i16>>>,
    at: Seq<Seq<Seq<i16>>>,
    r: Seq<Seq<i16>>,
    e1: Seq<Seq<i16>>,
    i: int,
    m: int,
)
    requires
        0 <= m < 128,
        0 <= i < 3,
        matrix_shaped(a),
        matrix_shaped(at),
        forall|x: int, y: int| 0 <= x < 3 && 0 <= y < 3 ==> #[trigger] at[x][y] == a[y][x],
        vec_bounded(r, 2),
        vec_bounded(e1, 2),
    ensures
        ({
            let u = u_of(at, r, e1);
            let ap = entries_of(a, m);
            let rp = residues_of(r, m);
            &&& pair_congruent(
                pair_of(ints(rounded_vec(u)[i]), m),
                u_pairs(ap, rp, residues_of(e1, m), rounding_residues(u, m), root_of(m))[i],
            )
            &&& canonical(rounded_vec(u)[i])
            &&& bounded(rounded_vec(u)[i], 3329)
        }),
{
    let u = u_of(at, r, e1);
    lemma_small_vec(r);
    assert(vec_shaped(at[i]));
    lemma_u_residues(at, r, e1, i, m);
    assert(at[i][0] == a[0][i] && at[i][1] == a[1][i] && at[i][2] == a[2][i]);
    lemma_rounded_canonical(u[i], 10);
    let cu = pair_of(rounding_error(u[i], 10), m);
    lemma_pair_of_linear(ints(u[i]), rounding_error(u[i], 10), 1, m);
    lemma_pair_congruent(cu, cu, cu);
    let ap = entries_of(a, m);
    let rp = residues_of(r, m);
    let target = pair_add(
        pair_dot(ap[0][i], ap[1][i], ap[2][i], rp[0], rp[1], rp[2], root_of(m)),
        residues_of(e1, m)[i],
    );
    lemma_pair_operations(pair_of(ints(u[i]), m), target, cu, cu, 1, root_of(m));
}

/// The polynomials of an inner product of integer polynomials.
pub open spec fn ring_dot(x: Seq<Seq<int>>, y: Seq<Seq<int>>) -> Seq<int> {
    ring_add(ring_add(ring_mul(x[0], y[0]), ring_mul(x[1], y[1])), ring_mul(x[2], y[2]))
}

/// The coefficients of the polynomials of a vector as integers.
pub open spec fn ints_of(v: Seq<Seq<i16>>) -> Seq<Seq<int>> {
    Seq::new(3, |i: int| ints(v[i]))
}

/// The noise of each polynomial of `u` plus its rounding error.
pub open spec fn u_noise(e1: Seq<Seq<i16>>, u: Seq<Seq<i16>>) -> Seq<Seq<int>> {
    Seq::new(3, |i: int| ring_add(ints(e1[i]), rounding_error(u[i], 10)))
}

/// The noise polynomial of a decryption: `cv + e2 + e r - s (e1 + cu)`,
/// where `s` and `e` are the noise of the key, `r`, `e1` and `e2` the noise
/// of the coins, and `cu` and `cv` the rounding errors of the vector `u` and
/// the polynomial `v` of the ciphertext. The products are those of the ring.
pub open spec fn noise_of(
    s: Seq<Seq<i16>>,
    e: Seq<Seq<i16>>,
    r: Seq<Seq<i16>>,
    e1: Seq<Seq<i16>>,
    e2: Seq<i16>,
    u: Seq<Seq<i16>>,
    v: Seq<i16>,
) -> Seq<int> {
    ring_sub(
        ring_add(ring_add(rounding_error(v, 4), ints(e2)), ring_dot(ints_of(e), ints_of(r))),
        ring_dot(ints_of(s), u_noise(e1, u)),
    )
}

/// The residue of an inner product of polynomials is the inner product of
/// their residues.
proof fn lemma_ring_dot_pair(x: Seq<Seq<int>>, y: Seq<Seq<int>>, m: int)
    requires
        0 <= m < 128,
    ensures
        pair_congruent(
            pair_of(ring_dot(x, y), m),
            pair_dot(
                pair_of(x[0], m),
                pair_of(x[1], m),
                pair_of(x[2], m),
                pair_of(y[0], m),
                pair_of(y[1], m),
                pair_of(y[2], m),
                root_of(m),
            ),
        ),
{
    let p0 = ring_mul(x[0], y[0]);
    let p1 = ring_mul(x[1], y[1]);
    let p2 = ring_mul(x[2], y[2]);
    lemma_pair_of_mul(x[0], y[0], m);
    lemma_pair_of_mul(x[1], y[1], m);
    lemma_pair_of_mul(x[2], y[2], m);
    lemma_pair_of_linear(p0, p1, 1, m);
    lemma_pair_of_linear(ring_add(p0, p1), p2, 1, m);
    let q0 = pair_mul(pair_of(x[0], m), pair_of(y[0], m), root_of(m));
    let q1 = pair_mul(pair_of(x[1], m), pair_of(y[1], m), root_of(m));
    let q2 = pair_mul(pair_of(x[2], m), pair_of(y[2], m), root_of(m));
    lemma_pair_operations(pair_of(p0, m), q0, pair_of(p1, m), q1, 1, root_of(m));
    lemma_pair_operations(
        pair_add(pair_of(p0, m), pair_of(p1, m)),
        pair_add(q0, q1),
        pair_of(p2, m),
        q2,
        1,
        root_of(m),
    );
}

/// The residue of the message polynomial plus the noise polynomial.
proof fn lemma_noise_side(
    s: Seq<Seq<i16>>,
    e: Seq<Seq<i16>>,
    r: Seq<Seq<i16>>,
    e1: Seq<Seq<i16>>,
    e2: Seq<i16>,
    k: Seq<i16>,
    u: Seq<Seq<i16>>,
    v: Seq<i16>,
    m: int,
)
    requires
        0 <= m < 128,
    ensures
        pair_congruent(
            pair_of(ring_add(ints(k), noise_of(s, e, r, e1, e2, u, v)), m),
            noise_pair(
                residues_of(s, m),
                residues_of(e, m),
                residues_of(r, m),
                residues_of(e1, m),
                rounding_residues(u, m),
                pair_of(ints(e2), m),
                pair_of(ints(k), m),
                pair_of(rounding_error(v, 4), m),
                root_of(m),
            ),
        ),
{
    let root = root_of(m);
    let cv = rounding_error(v, 4);
    let er = ring_dot(ints_of(e), ints_of(r));
    let f = u_noise(e1, u);
    let sf = ring_dot(ints_of(s), f);
    let noise = noise_of(s, e, r, e1, e2, u, v);
    // Linearity, exactly.
    lemma_pair_of_linear(cv, ints(e2), 1, m);
    lemma_pair_of_linear(ring_add(cv, ints(e2)), er, 1, m);
    lemma_pair_of_linear(ring_add(ring_add(cv, ints(e2)), er), sf, 1, m);
    lemma_pair_of_linear(ints(k), noise, 1, m);
    lemma_pair_of_linear(ints(e1[0]), rounding_error(u[0], 10), 1, m);
    lemma_pair_of_linear(ints(e1[1]), rounding_error(u[1], 10), 1, m);
    lemma_pair_of_linear(ints(e1[2]), rounding_error(u[2], 10), 1, m);
    // The products, up to congruence.
    lemma_ring_dot_pair(ints_of(e), ints_of(r), m);
    lemma_ring_dot_pair(ints_of(s), f, m);
    let sp = residues_of(s, m);
    let ep = residues_of(e, m);
    let rp = residues_of(r, m);
    let fp = f_pairs(residues_of(e1, m), rounding_residues(u, m));
    assert(pair_of(f[0], m) == fp[0] && pair_of(f[1], m) == fp[1] && pair_of(f[2], m) == fp[2]);
    let d_er = dot(ep, rp, root);
    let d_sf = dot(sp, fp, root);
    assert(pair_congruent(pair_of(er, m), d_er));
    assert(pair_congruent(pair_of(sf, m), d_sf));
    let c0 = pair_add(pair_of(cv, m), pair_of(ints(e2), m));
    lemma_pair_congruent(c0, c0, c0);
    lemma_pair_operations(c0, c0, pair_of(er, m), d_er, 1, root);
    lemma_pair_operations(
        pair_add(c0, pair_of(er, m)),
        pair_add(c0, d_er),
        pair_of(sf, m),
        d_sf,
        1,
        root,
    );
    let kp = pair_of(ints(k), m);
    lemma_pair_congruent(kp, kp, kp);
    lemma_pair_operations(
        kp,
        kp,
        pair_of(noise, m),
        pair_sub(pair_add(c0, d_er), d_sf),
        1,
        root,
    );
}

/// The residue of the polynomial that a decryption decodes, as the
/// operations of key generation, encryption and decryption build it.
proof fn lemma_machine_side(
    a: Seq<Seq<Seq<i16>>>,
    at: Seq<Seq<Seq<i16>>>,
    s: Seq<Seq<i16>>,
    e: Seq<Seq<i16>>,
    r: Seq<Seq<i16>>,
    e1: Seq<Seq<i16>>,
    e2: Seq<i16>,
    k: Seq<i16>,
    m: int,
)
    requires
        0 <= m < 128,
        matrix_shaped(a),
        matrix_shaped(at),
        forall|x: int, y: int| 0 <= x < 3 && 0 <= y < 3 ==> #[trigger] at[x][y] == a[y][x],
        vec_bounded(s, 2),
        vec_bounded(e, 2),
        vec_bounded(r, 2),
        vec_bounded(e1, 2),
        bounded(e2, 2),
        bounded(k, 1665),
    ensures
        ({
            let u = u_of(at, r, e1);
            let v = v_of(public_vector_of(a, s, e), r, e2, k);
            let mp = decoded_of(polyvec_reduce_spec(s), rounded_vec(u), poly_rounded(v, 4));
            &&& pair_congruent(
                pair_of(ints(mp), m),
                machine_pair(
                    entries_of(a, m),
                    residues_of(s, m),
                    residues_of(e, m),
                    residues_of(r, m),
                    residues_of(e1, m),
                    rounding_residues(u, m),
                    pair_of(ints(e2), m),
                    pair_of(ints(k), m),
                    pair_of(rounding_error(v, 4), m),
                    root_of(m),
                ),
            )
            &&& canonical(mp)
        }),
{
    let root = root_of(m);
    let u = u_of(at, r, e1);
    let v = v_of(public_vector_of(a, s, e), r, e2, k);
    let s2 = polyvec_reduce_spec(s);
    let ud = rounded_vec(u);
    let vd = poly_rounded(v, 4);
    let mp = decoded_of(s2, ud, vd);
    let ap = entries_of(a, m);
    let sp = residues_of(s, m);
    let ep = residues_of(e, m);
    let rp = residues_of(r, m);
    let up = u_pairs(ap, rp, residues_of(e1, m), rounding_residues(u, m), root);
    let tp = t_pairs(ap, sp, ep, root);
    lemma_v_pair(a, s, e, r, e2, k, m);
    lemma_u_pair(a, at, r, e1, 0, m);
    lemma_u_pair(a, at, r, e1, 1, m);
    lemma_u_pair(a, at, r, e1, 2, m);
    assert(vec_bounded(ud, 3329)) by {
        assert forall|i: int| 0 <= i < 3 implies bounded(#[trigger] ud[i], 3329) by {
            if i == 0 {
            } else if i == 1 {
            } else {
            }
        }
    }
    assert(bounded(s[0], 2) && bounded(s[1], 2) && bounded(s[2], 2));
    lemma_reduced_residues(s[0], m);
    lemma_reduced_residues(s[1], m);
    lemma_reduced_residues(s[2], m);
    assert(s2[0] == poly_reduce_spec(s[0]) && s2[1] == poly_reduce_spec(s[1]) && s2[2]
        == poly_reduce_spec(s[2]));
    assert(vec_bounded(s2, 3329)) by {
        assert forall|i: int| 0 <= i < 3 implies bounded(#[trigger] s2[i], 3329) by {
            if i == 0 {
            } else if i == 1 {
            } else {
            }
        }
    }
    assert(bounded(vd, 3329));
    lemma_dec_residues(s2, ud, vd, m);
    lemma_dot_congruent(
        pair_of(ints(s2[0]), m),
        pair_of(ints(s2[1]), m),
        pair_of(ints(s2[2]), m),
        pair_of(ints(ud[0]), m),
        pair_of(ints(ud[1]), m),
        pair_of(ints(ud[2]), m),
        sp[0],
        sp[1],
        sp[2],
        up[0],
        up[1],
        up[2],
        root,
    );
    let vt = pair_add(
        pair_add(pair_add(dot(tp, rp, root), pair_of(ints(e2), m)), pair_of(ints(k), m)),
        pair_of(rounding_error(v, 4), m),
    );
    let dm = pair_dot(
        pair_of(ints(s2[0]), m),
        pair_of(ints(s2[1]), m),
        pair_of(ints(s2[2]), m),
        pair_of(ints(ud[0]), m),
        pair_of(ints(ud[1]), m),
        pair_of(ints(ud[2]), m),
        root,
    );
    lemma_pair_operations(pair_of(ints(vd), m), vt, dm, dot(sp, up, root), 1, root);
    lemma_pair_congruent(
        pair_of(ints(mp), m),
        pair_sub(pair_of(ints(vd), m), dm),
        pair_sub(vt, dot(sp, up, root)),
    );
}

/// The polynomial that a decryption decodes is the message polynomial plus
/// the noise polynomial, coefficient by coefficient, modulo `q`.
proof fn lemma_decoded_is_noisy_message(
    a: Seq<Seq<Seq<i16>>>,
    at: Seq<Seq<Seq<i16>>>,
    s: Seq<Seq<i16>>,
    e: Seq<Seq<i16>>,
    r: Seq<Seq<i16>>,
    e1: Seq<Seq<i16>>,
    e2: Seq<i16>,
    k: Seq<i16>,
)
    requires
        matrix_shaped(a),
        matrix_shaped(at),
        forall|x: int, y: int| 0 <= x < 3 && 0 <= y < 3 ==> #[trigger] at[x][y] == a[y][x],
        vec_bounded(s, 2),
        vec_bounded(e, 2),
        vec_bounded(r, 2),
        vec_bounded(e1, 2),
        bounded(e2, 2),
        bounded(k, 1665),
    ensures
        ({
            let u = u_of(at, r, e1);
            let v = v_of(public_vector_of(a, s, e), r, e2, k);
            let mp = decoded_of(polyvec_reduce_spec(s), rounded_vec(u), poly_rounded(v, 4));
            let noise = noise_of(s, e, r, e1, e2, u, v);
            &&& canonical(mp)
            &&& forall|n: int|
                0 <= n < 256 ==> congruent(#[trigger] mp[n] as int, k[n] + noise[n])
        }),
{
    let u = u_of(at, r, e1);
    let v = v_of(public_vector_of(a, s, e), r, e2, k);
    let mp = decoded_of(polyvec_reduce_spec(s), rounded_vec(u), poly_rounded(v, 4));
    let noise = noise_of(s, e, r, e1, e2, u, v);
    let z = ring_add(ints(k), noise);
    let zc = Seq::new(256, |n: int| (z[n] % 3329) as i16);
    lemma_machine_side(a, at, s, e, r, e1, e2, k, 0);
    assert forall|n: int| 0 <= n < 256 implies congruent(#[trigger] ints(zc)[n], z[n]) by {
        lemma_congruent_residue(z[n]);
    }
    assert(bounded(zc, 3329));
    assert(bounded(mp, 3329));
    assert forall|m: int| 0 <= m < 128 implies pair_congruent(
        #[trigger] pair_of(ints(mp), m),
        pair_of(ints(zc), m),
    ) by {
        lemma_machine_side(a, at, s, e, r, e1, e2, k, m);
        lemma_machine_is_noise(
            entries_of(a, m),
            residues_of(s, m),
            residues_of(e, m),
            residues_of(r, m),
            residues_of(e1, m),
            rounding_residues(u, m),
            pair_of(ints(e2), m),
            pair_of(ints(k), m),
            pair_of(rounding_error(v, 4), m),
            root_of(m),
        );
        lemma_noise_side(s, e, r, e1, e2, k, u, v, m);
        lemma_pair_of_congruent(ints(zc), z, m);
        let target = noise_pair(
            residues_of(s, m),
            residues_of(e, m),
            residues_of(r, m),
            residues_of(e1, m),
            rounding_residues(u, m),
            pair_of(ints(e2), m),
            pair_of(ints(k), m),
            pair_of(rounding_error(v, 4), m),
            root_of(m),
        );
        lemma_pair_congruent(pair_of(z, m), target, target);
        lemma_pair_congruent(pair_of(ints(zc), m), pair_of(z, m), target);
        lemma_pair_congruent(pair_of(ints(zc), m), target, target);
        lemma_pair_congruent(pair_of(ints(mp), m), target, pair_of(ints(zc), m));
    }
    lemma_residues_determine(mp, zc);
    assert forall|n: int| 0 <= n < 256 implies congruent(#[trigger] mp[n] as int, k[n] + noise[n]) by {
        assert(congruent(mp[n] as int, zc[n] as int));
        assert(congruent(ints(zc)[n], z[n]));
        lemma_congruent_trans(mp[n] as int, zc[n] as int, z[n]);
    }
}

/// The noise polynomial of the decryption of the encryption of `m` with
/// the coins `coins`, under the key pair of the two seeds.
pub open spec fn decryption_noise(
    publicseed: Seq<u8>,
    noiseseed: Seq<u8>,
    m: Seq<u8>,
    coins: Seq<u8>,
) -> Seq<int> {
    let pk = indcpa_pk_spec(publicseed, noiseseed);
    noise_of(
        noise_vec(noiseseed, 0),
        noise_vec(noiseseed, 3),
        noise_vec(coins, 0),
        noise_vec(coins, 3),
        poly_getnoise_spec(coins, 6),
        enc_u_spec(pk, coins),
        enc_v_spec(m, pk, coins),
    )
}

/// Every coefficient of the noise polynomial is within a quarter of `q` of
/// zero, modulo `q`.
pub open spec fn noise_is_small(noise: Seq<int>) -> bool {
    forall|n: int| 0 <= n < 256 ==> small_noise(#[trigger] noise[n])
}

/// The polynomials of a noise vector have coefficients in `[-2, 2]`.
proof fn lemma_noise_vec_small(seed: Seq<u8>, base: u8)
    ensures
        vec_bounded(noise_vec(seed, base), 2),
        bounded(poly_getnoise_spec(seed, base), 2),
{
    let v = noise_vec(seed, base);
    assert forall|i: int| 0 <= i < 3 implies bounded(#[trigger] v[i], 2) by {
        let nonce = (base + i) as u8;
        assert(v[i] == poly_getnoise_spec(seed, nonce));
        lemma_cbd2_range(shake256(seed + seq![nonce], 128));
    }
    lemma_cbd2_range(shake256(seed + seq![base], 128));
}

/// The matrix of a seed and its transpose.
proof fn lemma_matrix_shapes(seed: Seq<u8>)
    ensures
        matrix_shaped(gen_matrix_spec(seed, false)),
        matrix_shaped(gen_matrix_spec(seed, true)),
        forall|x: int, y: int|
            0 <= x < 3 && 0 <= y < 3 ==> #[trigger] gen_matrix_spec(seed, true)[x][y]
                == gen_matrix_spec(seed, false)[y][x],
{
    let a = gen_matrix_spec(seed, false);
    let at = gen_matrix_spec(seed, true);
    assert forall|j: int| 0 <= j < 3 implies vec_shaped(#[trigger] a[j]) && vec_shaped(at[j]) by {
        assert forall|i: int| 0 <= i < 3 implies (#[trigger] a[j][i]).len() == 256 by {}
        assert forall|i: int| 0 <= i < 3 implies (#[trigger] at[j][i]).len() == 256 by {}
    }
}

/// What the parts of an encryption and of its decryption are, in terms of
/// the matrix and the noise of the seeds and the coins.
proof fn lemma_structure(publicseed: Seq<u8>, noiseseed: Seq<u8>, m: Seq<u8>, coins: Seq<u8>)
    requires
        publicseed.len() == 32,
    ensures
        ({
            let pk = indcpa_pk_spec(publicseed, noiseseed);
            let sk = indcpa_sk_spec(noiseseed);
            let a = gen_matrix_spec(publicseed, false);
            let at = gen_matrix_spec(publicseed, true);
            let s = noise_vec(noiseseed, 0);
            let e = noise_vec(noiseseed, 3);
            let r = noise_vec(coins, 0);
            let e1 = noise_vec(coins, 3);
            let e2 = poly_getnoise_spec(coins, 6);
            let k = poly_frommsg_spec(m);
            let u = u_of(at, r, e1);
            let v = v_of(public_vector_of(a, s, e), r, e2, k);
            &&& enc_u_spec(pk, coins) == u
            &&& enc_v_spec(m, pk, coins) == v
            &&& dec_poly_spec(indcpa_enc_spec(m, pk, coins), sk) == decoded_of(
                polyvec_reduce_spec(s),
                rounded_vec(u),
                poly_rounded(v, 4),
            )
        }),
{
    let pk = indcpa_pk_spec(publicseed, noiseseed);
    let sk = indcpa_sk_spec(noiseseed);
    let u = enc_u_spec(pk, coins);
    let v = enc_v_spec(m, pk, coins);
    lemma_keys_decode(publicseed, noiseseed);
    let ct = indcpa_enc_spec(m, pk, coins);
    let first = polyvec_compress_spec(u);
    let second = poly_compress_spec(v);
    assert(ct == first + second);
    assert(ct.subrange(0, 960) =~= first);
    assert(ct.subrange(960, 1088) =~= second);
    assert(u.len() == 3);
    lemma_polyvec_decompress_compress(u);
    assert(polyvec_decompress_spec(first) =~= rounded_vec(u));
    assert(v.len() == 256);
    lemma_decompress_compress(v);
}

/// Decryption inverts encryption where the noise is small. For the key
/// pair of a public seed and a noise seed, a message of 32 bytes and any
/// coins: if every coefficient of the noise polynomial
/// `cv + e2 + e r - s (e1 + cu)` of this key, message and coins is within a
/// quarter of `q` of zero, the ciphertext of the message decrypts to the
/// message.
pub proof fn lemma_decryption_inverts(
    publicseed: Seq<u8>,
    noiseseed: Seq<u8>,
    m: Seq<u8>,
    coins: Seq<u8>,
)
    requires
        publicseed.len() == 32,
        m.len() == 32,
        noise_is_small(decryption_noise(publicseed, noiseseed, m, coins)),
    ensures
        indcpa_dec_spec(
            indcpa_enc_spec(m, indcpa_pk_spec(publicseed, noiseseed), coins),
            indcpa_sk_spec(noiseseed),
        ) == m,
{
    let pk = indcpa_pk_spec(publicseed, noiseseed);
    let sk = indcpa_sk_spec(noiseseed);
    let a = gen_matrix_spec(publicseed, false);
    let at = gen_matrix_spec(publicseed, true);
    let s = noise_vec(noiseseed, 0);
    let e = noise_vec(noiseseed, 3);
    let r = noise_vec(coins, 0);
    let e1 = noise_vec(coins, 3);
    let e2 = poly_getnoise_spec(coins, 6);
    let k = poly_frommsg_spec(m);
    let u = u_of(at, r, e1);
    let v = v_of(public_vector_of(a, s, e), r, e2, k);
    let mp = decoded_of(polyvec_reduce_spec(s), rounded_vec(u), poly_rounded(v, 4));
    let noise = noise_of(s, e, r, e1, e2, u, v);
    lemma_structure(publicseed, noiseseed, m, coins);
    lemma_matrix_shapes(publicseed);
    lemma_noise_vec_small(noiseseed, 0);
    lemma_noise_vec_small(noiseseed, 3);
    lemma_noise_vec_small(coins, 0);
    lemma_noise_vec_small(coins, 3);
    lemma_noise_vec_small(coins, 6);
    assert(bounded(k, 1665)) by {
        assert forall|n: int| 0 <= n < 256 implies -1665 <= #[trigger] k[n] <= 1665 by {
            lemma_frommsg_range(m, n);
        }
    }
    lemma_decoded_is_noisy_message(a, at, s, e, r, e1, e2, k);
    assert(noise == decryption_noise(publicseed, noiseseed, m, coins));
    lemma_decode(mp, m, noise);
}

} // verus!
