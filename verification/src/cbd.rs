//! Sampling from the centered binomial distribution of width two.

use vstd::prelude::*;
use crate::params::{ETA1, ETA2, N};
use crate::poly::Poly;

verus! {

/// Loads four bytes into a 32-bit integer, the first byte lowest.
pub fn load32_littleendian(x: &[u8; 4]) -> (r: u32)
    ensures
        r == x@[0] + 256 * x@[1] + 65536 * x@[2] + 16777216 * x@[3],
{
    let x0: u32 = x[0] as u32;
    let x1: u32 = x[1] as u32;
    let x2: u32 = x[2] as u32;
    let x3: u32 = x[3] as u32;
    let r: u32 = x0 | (x1 << 8) | (x2 << 16) | (x3 << 24);
    proof {
        assert(r == x0 + 256 * x1 + 65536 * x2 + 16777216 * x3) by (bit_vector)
            requires
                x0 < 256,
                x1 < 256,
                x2 < 256,
                x3 < 256,
                r == x0 | (x1 << 8) | (x2 << 16) | (x3 << 24),
        ;
    }
    r
}

/// The half byte from which coefficient `n` is sampled: coefficient `2 k`
/// takes the low half of byte `k`, coefficient `2 k + 1` the high half.
pub open spec fn cbd2_nibble(buf: Seq<u8>, n: int) -> int {
    if n % 2 == 0 {
        buf[n / 2] as int % 16
    } else {
        buf[n / 2] as int / 16
    }
}

/// Coefficient `n` of the sample: the number of ones among the two low bits
/// of its half byte, minus the number of ones among the two high bits.
pub open spec fn cbd2_coeff(buf: Seq<u8>, n: int) -> i16 {
    let h = cbd2_nibble(buf, n);
    ((h % 2 + (h / 2) % 2) - ((h / 4) % 2 + h / 8)) as i16
}

/// The polynomial sampled from 128 bytes. Every coefficient lies in
/// `[-2, 2]`.
pub open spec fn cbd2_spec(buf: Seq<u8>) -> Seq<i16> {
    Seq::new(256, |n: int| cbd2_coeff(buf, n))
}

/// Every coefficient lies in `[-2, 2]`.
pub open spec fn small(p: Seq<i16>) -> bool {
    p.len() == 256 && forall|i: int| 0 <= i < 256 ==> -2 <= #[trigger] p[i] <= 2
}

/// Every coefficient of a sample lies in `[-2, 2]`.
pub proof fn lemma_cbd2_range(buf: Seq<u8>)
    ensures
        small(cbd2_spec(buf)),
{
    assert forall|i: int| 0 <= i < 256 implies -2 <= #[trigger] cbd2_spec(buf)[i] <= 2 by {
        assert(cbd2_spec(buf)[i] == cbd2_coeff(buf, i));
    }
}

/// Given 128 uniformly random bytes, computes a polynomial whose
/// coefficients follow the centered binomial distribution of width two.
pub fn cbd2(r: &mut Poly, buf: &[u8])
    requires
        buf@.len() >= 128,
    ensures
        final(r)@ == cbd2_spec(buf@),
        small(final(r)@),
{
    proof {
        lemma_cbd2_range(buf@);
    }
    let mut i: usize = 0;
    while i < N / 8
        invariant
            0 <= i <= 32,
            buf@.len() >= 128,
            forall|n: int| 0 <= n < 8 * i ==> r.coeffs@[n] == cbd2_coeff(buf@, n),
        decreases 32 - i,
    {
        let x0: u8 = buf[4 * i];
        let x1: u8 = buf[4 * i + 1];
        let x2: u8 = buf[4 * i + 2];
        let x3: u8 = buf[4 * i + 3];
        let t: u32 = load32_littleendian(&[x0, x1, x2, x3]);
        let lo: u32 = t & 0x55555555;
        let hi: u32 = (t >> 1) & 0x55555555;
        proof {
            assert(lo <= 0x55555555 && hi <= 0x55555555) by (bit_vector)
                requires
                    lo == t & 0x55555555,
                    hi == (t >> 1) & 0x55555555,
            ;
        }
        let d: u32 = lo + hi;
        let mut j: usize = 0;
        while j < 8
            invariant
                0 <= i < 32,
                0 <= j <= 8,
                buf@.len() >= 128,
                x0 == buf@[4 * i],
                x1 == buf@[4 * i + 1],
                x2 == buf@[4 * i + 2],
                x3 == buf@[4 * i + 3],
                t == x0 + 256 * x1 + 65536 * x2 + 16777216 * x3,
                lo == t & 0x55555555,
                hi == (t >> 1) & 0x55555555,
                d == lo + hi,
                forall|n: int| 0 <= n < 8 * i + j ==> r.coeffs@[n] == cbd2_coeff(buf@, n),
            decreases 8 - j,
        {
            let sh: u32 = (4 * j) as u32;
            let a: u32 = (d >> sh) & 0x3;
            let b: u32 = (d >> (sh + 2)) & 0x3;
            proof {
                let w0: u32 = x0 as u32;
                let w1: u32 = x1 as u32;
                let w2: u32 = x2 as u32;
                let w3: u32 = x3 as u32;
                let y: u32 = if sh < 8 {
                    w0
                } else if sh < 16 {
                    w1
                } else if sh < 24 {
                    w2
                } else {
                    w3
                };
                let h: u32 = if sh % 8 == 0 {
                    y % 16
                } else {
                    y / 16
                };
                assert(a == h % 2 + (h / 2) % 2 && b == (h / 4) % 2 + h / 8 && a <= 2 && b <= 2)
                    by (bit_vector)
                    requires
                        sh == 0 || sh == 4 || sh == 8 || sh == 12 || sh == 16 || sh == 20 || sh
                            == 24 || sh == 28,
                        w0 < 256,
                        w1 < 256,
                        w2 < 256,
                        w3 < 256,
                        t == w0 + 256 * w1 + 65536 * w2 + 16777216 * w3,
                        lo == t & 0x55555555,
                        hi == (t >> 1) & 0x55555555,
                        d == lo + hi,
                        a == (d >> sh) & 0x3,
                        b == (d >> ((sh + 2) as u32)) & 0x3,
                        y == (if sh < 8 {
                            w0
                        } else if sh < 16 {
                            w1
                        } else if sh < 24 {
                            w2
                        } else {
                            w3
                        }),
                        h == (if sh % 8 == 0 {
                            y % 16
                        } else {
                            y / 16
                        }),
                ;
                assert((8 * i + j) / 2 == 4 * i + j / 2);
                assert((8 * i + j) % 2 == j % 2);
                assert(h as int == cbd2_nibble(buf@, 8 * i + j));
            }
            r.coeffs[8 * i + j] = (a as i16) - (b as i16);
            j += 1;
        }
        i += 1;
    }
    assert(r.coeffs@ =~= cbd2_spec(buf@));
}

/// Noise of the width of secrets. That this width is two is checked here,
/// when the library is verified.
pub fn cbd_eta1(r: &mut Poly, buf: &[u8])
    requires
        buf@.len() >= 128,
    ensures
        final(r)@ == cbd2_spec(buf@),
        small(final(r)@),
{
    assert(ETA1 == 2);
    cbd2(r, buf);
}

/// Noise of the width of errors. That this width is two is checked here,
/// when the library is verified.
pub fn cbd_eta2(r: &mut Poly, buf: &[u8])
    requires
        buf@.len() >= 128,
    ensures
        final(r)@ == cbd2_spec(buf@),
        small(final(r)@),
{
    assert(ETA2 == 2);
    cbd2(r, buf);
}

} // verus!
