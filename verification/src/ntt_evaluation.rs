//! What the forward transform computes: the residues of a polynomial modulo
//! the 128 quadratic factors `X^2 - r` of `X^256 + 1`, where `r` runs over
//! the odd powers of the root of unity.

use vstd::prelude::*;
use crate::ntt::{fqmul_spec, lemma_zetas_range, ntt_layer, ntt_spec, ZETAS};
use crate::ntt_proofs::{bounded, forward_stage, layer_blocks, lemma_forward_pair,
    lemma_forward_stage, lemma_stages, stage_bound, two_pow};
use crate::poly::pair_zeta;
use crate::reduce::{congruent, lemma_congruent_residue, lemma_congruent_scale,
    lemma_congruent_sum, lemma_congruent_sym, lemma_congruent_trans};

verus! {

/// The coefficients of a polynomial as integers.
pub open spec fn ints(p: Seq<i16>) -> Seq<int> {
    Seq::new(256, |i: int| p[i] as int)
}

/// The sum of `p[start + t stride] root^t` over `t` from 0 to `count - 1`:
/// a residue of the polynomial `p` modulo `X^stride - root`, at the power
/// `X^start`.
pub open spec fn residue_sum(p: Seq<int>, start: int, stride: int, count: int, root: int) -> int
    decreases count,
{
    if count <= 0 {
        0
    } else {
        p[start] + root * residue_sum(p, start + stride, stride, count - 1, root)
    }
}

/// The number `r` for which the block with twiddle index `k` holds the
/// residues modulo `X^s - r`, `s` the size of the block: -1 for the whole
/// polynomial, and for a half of a block the twiddle factor of that block,
/// without its Montgomery factor, for the lower half and its negative for the
/// upper half.
pub open spec fn block_root(k: int) -> int {
    if k <= 1 {
        -1
    } else if k % 2 == 0 {
        169 * ZETAS[k / 2]
    } else {
        -169 * ZETAS[k / 2]
    }
}

/// The squares of the twiddle factors 1 to 31.
proof fn lemma_zeta_square_1(k: int)
    requires
        1 <= k < 32,
    ensures
        (28561 * ZETAS[k] * ZETAS[k] - block_root(k)) % 3329 == 0,
{
    let a = ZETAS[k] as int;
    if k == 1 {
        assert(28561 * a * a == 188789381001) by (nonlinear_arith)
            requires a == 2571;
    } else if k == 2 {
        assert(ZETAS[1] == 2571);
        assert(28561 * a * a == 251933724900) by (nonlinear_arith)
            requires a == 2970;
    } else if k == 3 {
        assert(ZETAS[1] == 2571);
        assert(28561 * a * a == 93775587984) by (nonlinear_arith)
            requires a == 1812;
    } else if k == 4 {
        assert(ZETAS[2] == 2970);
        assert(28561 * a * a == 63663868489) by (nonlinear_arith)
            requires a == 1493;
    } else if k == 5 {
        assert(ZETAS[2] == 2970);
        assert(28561 * a * a == 57752741124) by (nonlinear_arith)
            requires a == 1422;
    } else if k == 6 {
        assert(ZETAS[3] == 1812);
        assert(28561 * a * a == 2352541009) by (nonlinear_arith)
            requires a == 287;
    } else if k == 7 {
        assert(ZETAS[3] == 1812);
        assert(28561 * a * a == 1165403044) by (nonlinear_arith)
            requires a == 202;
    } else if k == 8 {
        assert(ZETAS[4] == 1493);
        assert(28561 * a * a == 284837824804) by (nonlinear_arith)
            requires a == 3158;
    } else if k == 9 {
        assert(ZETAS[4] == 1493);
        assert(28561 * a * a == 11049793924) by (nonlinear_arith)
            requires a == 622;
    } else if k == 10 {
        assert(ZETAS[5] == 1422);
        assert(28561 * a * a == 71029179169) by (nonlinear_arith)
            requires a == 1577;
    } else if k == 11 {
        assert(ZETAS[5] == 1422);
        assert(28561 * a * a == 946054564) by (nonlinear_arith)
            requires a == 182;
    } else if k == 12 {
        assert(ZETAS[6] == 287);
        assert(28561 * a * a == 26431606084) by (nonlinear_arith)
            requires a == 962;
    } else if k == 13 {
        assert(ZETAS[6] == 287);
        assert(28561 * a * a == 129213648369) by (nonlinear_arith)
            requires a == 2127;
    } else if k == 14 {
        assert(ZETAS[7] == 202);
        assert(28561 * a * a == 98279115025) by (nonlinear_arith)
            requires a == 1855;
    } else if k == 15 {
        assert(ZETAS[7] == 202);
        assert(28561 * a * a == 61549640464) by (nonlinear_arith)
            requires a == 1468;
    } else if k == 16 {
        assert(ZETAS[8] == 3158);
        assert(28561 * a * a == 9377404569) by (nonlinear_arith)
            requires a == 573;
    } else if k == 17 {
        assert(ZETAS[8] == 3158);
        assert(28561 * a * a == 114701432976) by (nonlinear_arith)
            requires a == 2004;
    } else if k == 18 {
        assert(ZETAS[9] == 622);
        assert(28561 * a * a == 1990587456) by (nonlinear_arith)
            requires a == 264;
    } else if k == 19 {
        assert(ZETAS[9] == 622);
        assert(28561 * a * a == 4189584529) by (nonlinear_arith)
            requires a == 383;
    } else if k == 20 {
        assert(ZETAS[10] == 1577);
        assert(28561 * a * a == 178506250000) by (nonlinear_arith)
            requires a == 2500;
    } else if k == 21 {
        assert(ZETAS[10] == 1577);
        assert(28561 * a * a == 60713945604) by (nonlinear_arith)
            requires a == 1458;
    } else if k == 22 {
        assert(ZETAS[11] == 182);
        assert(28561 * a * a == 85184010769) by (nonlinear_arith)
            requires a == 1727;
    } else if k == 23 {
        assert(ZETAS[11] == 182);
        assert(28561 * a * a == 292281878161) by (nonlinear_arith)
            requires a == 3199;
    } else if k == 24 {
        assert(ZETAS[12] == 962);
        assert(28561 * a * a == 200266990144) by (nonlinear_arith)
            requires a == 2648;
    } else if k == 25 {
        assert(ZETAS[12] == 962);
        assert(28561 * a * a == 29540328129) by (nonlinear_arith)
            requires a == 1017;
    } else if k == 26 {
        assert(ZETAS[13] == 2127);
        assert(28561 * a * a == 15303669264) by (nonlinear_arith)
            requires a == 732;
    } else if k == 27 {
        assert(ZETAS[13] == 2127);
        assert(28561 * a * a == 10557973504) by (nonlinear_arith)
            requires a == 608;
    } else if k == 28 {
        assert(ZETAS[14] == 1855);
        assert(28561 * a * a == 91205812009) by (nonlinear_arith)
            requires a == 1787;
    } else if k == 29 {
        assert(ZETAS[14] == 1855);
        assert(28561 * a * a == 4824552681) by (nonlinear_arith)
            requires a == 411;
    } else if k == 30 {
        assert(ZETAS[15] == 1468);
        assert(28561 * a * a == 278737537936) by (nonlinear_arith)
            requires a == 3124;
    } else if k == 31 {
        assert(ZETAS[15] == 1468);
        assert(28561 * a * a == 88269598404) by (nonlinear_arith)
            requires a == 1758;
    }
}

/// The squares of the twiddle factors 32 to 63.
proof fn lemma_zeta_square_32(k: int)
    requires
        32 <= k < 64,
    ensures
        (28561 * ZETAS[k] * ZETAS[k] - block_root(k)) % 3329 == 0,
{
    let a = ZETAS[k] as int;
    if k == 32 {
        assert(ZETAS[16] == 573);
        assert(28561 * a * a == 42719515969) by (nonlinear_arith)
            requires a == 1223;
    } else if k == 33 {
        assert(ZETAS[16] == 573);
        assert(28561 * a * a == 12141395344) by (nonlinear_arith)
            requires a == 652;
    } else if k == 34 {
        assert(ZETAS[17] == 2004);
        assert(28561 * a * a == 220254691969) by (nonlinear_arith)
            requires a == 2777;
    } else if k == 35 {
        assert(ZETAS[17] == 2004);
        assert(28561 * a * a == 29424256225) by (nonlinear_arith)
            requires a == 1015;
    } else if k == 36 {
        assert(ZETAS[18] == 264);
        assert(28561 * a * a == 118393799056) by (nonlinear_arith)
            requires a == 2036;
    } else if k == 37 {
        assert(ZETAS[18] == 264);
        assert(28561 * a * a == 63493416441) by (nonlinear_arith)
            requires a == 1491;
    } else if k == 38 {
        assert(ZETAS[19] == 383);
        assert(28561 * a * a == 265166293249) by (nonlinear_arith)
            requires a == 3047;
    } else if k == 39 {
        assert(ZETAS[19] == 383);
        assert(28561 * a * a == 91001772225) by (nonlinear_arith)
            requires a == 1785;
    } else if k == 40 {
        assert(ZETAS[20] == 2500);
        assert(28561 * a * a == 7604537616) by (nonlinear_arith)
            requires a == 516;
    } else if k == 41 {
        assert(ZETAS[20] == 2500);
        assert(28561 * a * a == 315000440001) by (nonlinear_arith)
            requires a == 3321;
    } else if k == 42 {
        assert(ZETAS[21] == 1458);
        assert(28561 * a * a == 258593607441) by (nonlinear_arith)
            requires a == 3009;
    } else if k == 43 {
        assert(ZETAS[21] == 1458);
        assert(28561 * a * a == 202542302209) by (nonlinear_arith)
            requires a == 2663;
    } else if k == 44 {
        assert(ZETAS[22] == 1727);
        assert(28561 * a * a == 83612927281) by (nonlinear_arith)
            requires a == 1711;
    } else if k == 45 {
        assert(ZETAS[22] == 1727);
        assert(28561 * a * a == 134119285729) by (nonlinear_arith)
            requires a == 2167;
    } else if k == 46 {
        assert(ZETAS[23] == 3199);
        assert(28561 * a * a == 453434436) by (nonlinear_arith)
            requires a == 126;
    } else if k == 47 {
        assert(ZETAS[23] == 3199);
        assert(28561 * a * a == 61633524121) by (nonlinear_arith)
            requires a == 1469;
    } else if k == 48 {
        assert(ZETAS[24] == 2648);
        assert(28561 * a * a == 175095381136) by (nonlinear_arith)
            requires a == 2476;
    } else if k == 49 {
        assert(ZETAS[24] == 2648);
        assert(28561 * a * a == 299636906881) by (nonlinear_arith)
            requires a == 3239;
    } else if k == 50 {
        assert(ZETAS[25] == 1017);
        assert(28561 * a * a == 267084307204) by (nonlinear_arith)
            requires a == 3058;
    } else if k == 51 {
        assert(ZETAS[25] == 1017);
        assert(28561 * a * a == 19675672900) by (nonlinear_arith)
            requires a == 830;
    } else if k == 52 {
        assert(ZETAS[26] == 732);
        assert(28561 * a * a == 326994889) by (nonlinear_arith)
            requires a == 107;
    } else if k == 53 {
        assert(ZETAS[26] == 732);
        assert(28561 * a * a == 103975292304) by (nonlinear_arith)
            requires a == 1908;
    } else if k == 54 {
        assert(ZETAS[27] == 608);
        assert(28561 * a * a == 271293056164) by (nonlinear_arith)
            requires a == 3082;
    } else if k == 55 {
        assert(ZETAS[27] == 608);
        assert(28561 * a * a == 161509141924) by (nonlinear_arith)
            requires a == 2378;
    } else if k == 56 {
        assert(ZETAS[28] == 1787);
        assert(28561 * a * a == 245360724921) by (nonlinear_arith)
            requires a == 2931;
    } else if k == 57 {
        assert(ZETAS[28] == 1787);
        assert(28561 * a * a == 26376683281) by (nonlinear_arith)
            requires a == 961;
    } else if k == 58 {
        assert(ZETAS[29] == 411);
        assert(28561 * a * a == 94709447001) by (nonlinear_arith)
            requires a == 1821;
    } else if k == 59 {
        assert(ZETAS[29] == 411);
        assert(28561 * a * a == 193666885776) by (nonlinear_arith)
            requires a == 2604;
    } else if k == 60 {
        assert(ZETAS[30] == 3124);
        assert(28561 * a * a == 5732306944) by (nonlinear_arith)
            requires a == 448;
    } else if k == 61 {
        assert(ZETAS[30] == 3124);
        assert(28561 * a * a == 146395003456) by (nonlinear_arith)
            requires a == 2264;
    } else if k == 62 {
        assert(ZETAS[31] == 1758);
        assert(28561 * a * a == 13090334569) by (nonlinear_arith)
            requires a == 677;
    } else if k == 63 {
        assert(ZETAS[31] == 1758);
        assert(28561 * a * a == 120496459876) by (nonlinear_arith)
            requires a == 2054;
    }
}

/// The squares of the twiddle factors 64 to 95.
proof fn lemma_zeta_square_64(k: int)
    requires
        64 <= k < 96,
    ensures
        (28561 * ZETAS[k] * ZETAS[k] - block_root(k)) % 3329 == 0,
{
    let a = ZETAS[k] as int;
    if k == 64 {
        assert(ZETAS[32] == 1223);
        assert(28561 * a * a == 141521925636) by (nonlinear_arith)
            requires a == 2226;
    } else if k == 65 {
        assert(ZETAS[32] == 1223);
        assert(28561 * a * a == 5280928900) by (nonlinear_arith)
            requires a == 430;
    } else if k == 66 {
        assert(ZETAS[33] == 652);
        assert(28561 * a * a == 8797502025) by (nonlinear_arith)
            requires a == 555;
    } else if k == 67 {
        assert(ZETAS[33] == 652);
        assert(28561 * a * a == 20296846089) by (nonlinear_arith)
            requires a == 843;
    } else if k == 68 {
        assert(ZETAS[34] == 2777);
        assert(28561 * a * a == 123328797124) by (nonlinear_arith)
            requires a == 2078;
    } else if k == 69 {
        assert(ZETAS[34] == 2777);
        assert(28561 * a * a == 21667545601) by (nonlinear_arith)
            requires a == 871;
    } else if k == 70 {
        assert(ZETAS[35] == 1015);
        assert(28561 * a * a == 68617802500) by (nonlinear_arith)
            requires a == 1550;
    } else if k == 71 {
        assert(ZETAS[35] == 1015);
        assert(28561 * a * a == 314885025) by (nonlinear_arith)
            requires a == 105;
    } else if k == 72 {
        assert(ZETAS[36] == 2036);
        assert(28561 * a * a == 5086257124) by (nonlinear_arith)
            requires a == 422;
    } else if k == 73 {
        assert(ZETAS[36] == 2036);
        assert(28561 * a * a == 9841235209) by (nonlinear_arith)
            requires a == 587;
    } else if k == 74 {
        assert(ZETAS[37] == 1491);
        assert(28561 * a * a == 894787569) by (nonlinear_arith)
            requires a == 177;
    } else if k == 75 {
        assert(ZETAS[37] == 1491);
        assert(28561 * a * a == 273409768996) by (nonlinear_arith)
            requires a == 3094;
    } else if k == 76 {
        assert(ZETAS[38] == 3047);
        assert(28561 * a * a == 263602150084) by (nonlinear_arith)
            requires a == 3038;
    } else if k == 77 {
        assert(ZETAS[38] == 3047);
        assert(28561 * a * a == 235090189321) by (nonlinear_arith)
            requires a == 2869;
    } else if k == 78 {
        assert(ZETAS[39] == 1785);
        assert(28561 * a * a == 70759192036) by (nonlinear_arith)
            requires a == 1574;
    } else if k == 79 {
        assert(ZETAS[39] == 1785);
        assert(28561 * a * a == 78040333449) by (nonlinear_arith)
            requires a == 1653;
    } else if k == 80 {
        assert(ZETAS[40] == 516);
        assert(28561 * a * a == 271469134729) by (nonlinear_arith)
            requires a == 3083;
    } else if k == 81 {
        assert(ZETAS[40] == 516);
        assert(28561 * a * a == 17287516324) by (nonlinear_arith)
            requires a == 778;
    } else if k == 82 {
        assert(ZETAS[41] == 3321);
        assert(28561 * a * a == 38365448641) by (nonlinear_arith)
            requires a == 1159;
    } else if k == 83 {
        assert(ZETAS[41] == 3321);
        assert(28561 * a * a == 289183666564) by (nonlinear_arith)
            requires a == 3182;
    } else if k == 84 {
        assert(ZETAS[42] == 3009);
        assert(28561 * a * a == 186009338944) by (nonlinear_arith)
            requires a == 2552;
    } else if k == 85 {
        assert(ZETAS[42] == 3009);
        assert(28561 * a * a == 62813893129) by (nonlinear_arith)
            requires a == 1483;
    } else if k == 86 {
        assert(ZETAS[43] == 2663);
        assert(28561 * a * a == 212394704769) by (nonlinear_arith)
            requires a == 2727;
    } else if k == 87 {
        assert(ZETAS[43] == 2663);
        assert(28561 * a * a == 35762970321) by (nonlinear_arith)
            requires a == 1119;
    } else if k == 88 {
        assert(ZETAS[44] == 1711);
        assert(28561 * a * a == 86371919881) by (nonlinear_arith)
            requires a == 1739;
    } else if k == 89 {
        assert(ZETAS[44] == 1711);
        assert(28561 * a * a == 11845274896) by (nonlinear_arith)
            requires a == 644;
    } else if k == 90 {
        assert(ZETAS[45] == 2167);
        assert(28561 * a * a == 172418444289) by (nonlinear_arith)
            requires a == 2457;
    } else if k == 91 {
        assert(ZETAS[45] == 2167);
        assert(28561 * a * a == 3478758361) by (nonlinear_arith)
            requires a == 349;
    } else if k == 92 {
        assert(ZETAS[46] == 126);
        assert(28561 * a * a == 4990292164) by (nonlinear_arith)
            requires a == 418;
    } else if k == 93 {
        assert(ZETAS[46] == 126);
        assert(28561 * a * a == 3091471201) by (nonlinear_arith)
            requires a == 329;
    } else if k == 94 {
        assert(ZETAS[47] == 1469);
        assert(28561 * a * a == 287550120169) by (nonlinear_arith)
            requires a == 3173;
    } else if k == 95 {
        assert(ZETAS[47] == 1469);
        assert(28561 * a * a == 302418605476) by (nonlinear_arith)
            requires a == 3254;
    }
}

/// The squares of the twiddle factors 96 to 127.
proof fn lemma_zeta_square_96(k: int)
    requires
        96 <= k < 128,
    ensures
        (28561 * ZETAS[k] * ZETAS[k] - block_root(k)) % 3329 == 0,
{
    let a = ZETAS[k] as int;
    if k == 96 {
        assert(ZETAS[48] == 2476);
        assert(28561 * a * a == 19064153329) by (nonlinear_arith)
            requires a == 817;
    } else if k == 97 {
        assert(ZETAS[48] == 2476);
        assert(28561 * a * a == 34370564449) by (nonlinear_arith)
            requires a == 1097;
    } else if k == 98 {
        assert(ZETAS[49] == 3239);
        assert(28561 * a * a == 10385036649) by (nonlinear_arith)
            requires a == 603;
    } else if k == 99 {
        assert(ZETAS[49] == 3239);
        assert(28561 * a * a == 10627548100) by (nonlinear_arith)
            requires a == 610;
    } else if k == 100 {
        assert(ZETAS[50] == 3058);
        assert(28561 * a * a == 49915602724) by (nonlinear_arith)
            requires a == 1322;
    } else if k == 101 {
        assert(ZETAS[50] == 3058);
        assert(28561 * a * a == 119326030096) by (nonlinear_arith)
            requires a == 2044;
    } else if k == 102 {
        assert(ZETAS[51] == 830);
        assert(28561 * a * a == 99235080256) by (nonlinear_arith)
            requires a == 1864;
    } else if k == 103 {
        assert(ZETAS[51] == 830);
        assert(28561 * a * a == 4211490816) by (nonlinear_arith)
            requires a == 384;
    } else if k == 104 {
        assert(ZETAS[52] == 107);
        assert(28561 * a * a == 127638994756) by (nonlinear_arith)
            requires a == 2114;
    } else if k == 105 {
        assert(ZETAS[52] == 107);
        assert(28561 * a * a == 291186506689) by (nonlinear_arith)
            requires a == 3193;
    } else if k == 106 {
        assert(ZETAS[53] == 1908);
        assert(28561 * a * a == 42370928964) by (nonlinear_arith)
            requires a == 1218;
    } else if k == 107 {
        assert(ZETAS[53] == 1908);
        assert(28561 * a * a == 113559564196) by (nonlinear_arith)
            requires a == 1994;
    } else if k == 108 {
        assert(ZETAS[54] == 3082);
        assert(28561 * a * a == 172137861025) by (nonlinear_arith)
            requires a == 2455;
    } else if k == 109 {
        assert(ZETAS[54] == 3082);
        assert(28561 * a * a == 1382352400) by (nonlinear_arith)
            requires a == 220;
    } else if k == 110 {
        assert(ZETAS[55] == 2378);
        assert(28561 * a * a == 131042552004) by (nonlinear_arith)
            requires a == 2142;
    } else if k == 111 {
        assert(ZETAS[55] == 2378);
        assert(28561 * a * a == 79653772900) by (nonlinear_arith)
            requires a == 1670;
    } else if k == 112 {
        assert(ZETAS[56] == 2931);
        assert(28561 * a * a == 131287376896) by (nonlinear_arith)
            requires a == 2144;
    } else if k == 113 {
        assert(ZETAS[56] == 2931);
        assert(28561 * a * a == 92434848961) by (nonlinear_arith)
            requires a == 1799;
    } else if k == 114 {
        assert(ZETAS[57] == 961);
        assert(28561 * a * a == 120144731161) by (nonlinear_arith)
            requires a == 2051;
    } else if k == 115 {
        assert(ZETAS[57] == 961);
        assert(28561 * a * a == 18005882596) by (nonlinear_arith)
            requires a == 794;
    } else if k == 116 {
        assert(ZETAS[58] == 1821);
        assert(28561 * a * a == 94501522921) by (nonlinear_arith)
            requires a == 1819;
    } else if k == 117 {
        assert(ZETAS[58] == 1821);
        assert(28561 * a * a == 174953975625) by (nonlinear_arith)
            requires a == 2475;
    } else if k == 118 {
        assert(ZETAS[59] == 2604);
        assert(28561 * a * a == 172699256041) by (nonlinear_arith)
            requires a == 2459;
    } else if k == 119 {
        assert(ZETAS[59] == 2604);
        assert(28561 * a * a == 6525731524) by (nonlinear_arith)
            requires a == 478;
    } else if k == 120 {
        assert(ZETAS[60] == 448);
        assert(28561 * a * a == 296315833801) by (nonlinear_arith)
            requires a == 3221;
    } else if k == 121 {
        assert(ZETAS[60] == 448);
        assert(28561 * a * a == 260660281401) by (nonlinear_arith)
            requires a == 3021;
    } else if k == 122 {
        assert(ZETAS[61] == 2264);
        assert(28561 * a * a == 28332968976) by (nonlinear_arith)
            requires a == 996;
    } else if k == 123 {
        assert(ZETAS[61] == 2264);
        assert(28561 * a * a == 28049215441) by (nonlinear_arith)
            requires a == 991;
    } else if k == 124 {
        assert(ZETAS[62] == 677);
        assert(28561 * a * a == 26212257604) by (nonlinear_arith)
            requires a == 958;
    } else if k == 125 {
        assert(ZETAS[62] == 677);
        assert(28561 * a * a == 99768171321) by (nonlinear_arith)
            requires a == 1869;
    } else if k == 126 {
        assert(ZETAS[63] == 2054);
        assert(28561 * a * a == 66161099524) by (nonlinear_arith)
            requires a == 1522;
    } else if k == 127 {
        assert(ZETAS[63] == 2054);
        assert(28561 * a * a == 75697617424) by (nonlinear_arith)
            requires a == 1628;
    }
}

/// The square of a twiddle factor, without its Montgomery factor, is the
/// root of its block: the two halves of a block hold the residues modulo the
/// two factors `X^(s/2) - z` and `X^(s/2) + z` of `X^s - z^2`.
pub proof fn lemma_zeta_square(k: int)
    requires
        1 <= k < 128,
    ensures
        congruent((169 * ZETAS[k]) * (169 * ZETAS[k]), block_root(k)),
{
    if k < 32 {
        lemma_zeta_square_1(k);
    } else if k < 64 {
        lemma_zeta_square_32(k);
    } else if k < 96 {
        lemma_zeta_square_64(k);
    } else {
        lemma_zeta_square_96(k);
    }
    let a = ZETAS[k] as int;
    assert((169 * a) * (169 * a) == 28561 * a * a) by (nonlinear_arith);
    reveal(congruent);
}

/// A residue modulo `X^h - z` from the residues modulo `X^(2 h) - w`, where
/// `w` is congruent to `z^2`: the sum over `2 m` terms at stride `h` splits
/// into the terms of even index, which are a sum at stride `2 h` and root
/// `w`, and `z` times the same for the terms of odd index.
proof fn lemma_residue_sum_split(p: Seq<int>, start: int, h: int, m: int, z: int, w: int)
    requires
        congruent(z * z, w),
        0 <= m,
    ensures
        congruent(
            residue_sum(p, start, h, 2 * m, z),
            residue_sum(p, start, 2 * h, m, w) + z * residue_sum(p, start + h, 2 * h, m, w),
        ),
    decreases m,
{
    if m == 0 {
        assert(z * 0 == 0);
        lemma_congruent_residue(0);
    } else {
        let x = residue_sum(p, start + 2 * h, h, 2 * (m - 1), z);
        let a = residue_sum(p, start + 2 * h, 2 * h, m - 1, w);
        let b = residue_sum(p, start + 3 * h, 2 * h, m - 1, w);
        lemma_residue_sum_split(p, start + 2 * h, h, m - 1, z, w);
        assert(start + 2 * h + h == start + 3 * h);
        assert(start + h + h == start + 2 * h);
        assert(start + h + 2 * h == start + 3 * h);
        assert(residue_sum(p, start, h, 2 * m, z) == p[start] + z * (p[start + h] + z * x)) by {
            reveal_with_fuel(residue_sum, 3);
        }
        assert(residue_sum(p, start, 2 * h, m, w) == p[start] + w * a);
        assert(residue_sum(p, start + h, 2 * h, m, w) == p[start + h] + w * b);
        let lhs = p[start] + z * (p[start + h] + z * x);
        let rhs = (p[start] + w * a) + z * (p[start + h] + w * b);
        // lhs - rhs = z z x - w y with y = a + z b, and x = y, z z = w modulo q.
        let zz = z * z;
        let y = a + z * b;
        let p0 = p[start];
        let p1 = p[start + h];
        assert(lhs == p0 + z * p1 + zz * x) by (nonlinear_arith)
            requires
                lhs == p0 + z * (p1 + z * x),
                zz == z * z,
        ;
        assert(rhs == p0 + z * p1 + w * y) by (nonlinear_arith)
            requires
                rhs == (p0 + w * a) + z * (p1 + w * b),
                y == a + z * b,
        ;
        reveal(congruent);
        let k1 = (x - y) / 3329;
        let k2 = (zz - w) / 3329;
        assert(x - y == 3329 * k1);
        assert(zz - w == 3329 * k2);
        assert(zz * x - w * y == 3329 * (zz * k1 + k2 * y)) by (nonlinear_arith)
            requires
                x - y == 3329 * k1,
                zz - w == 3329 * k2,
        ;
        assert(lhs - rhs == 3329 * (zz * k1 + k2 * y));
    }
}

/// Coefficient `j` of block `c`, of blocks of size `size`, is the residue of
/// `p` that belongs there: the residue sum at the power `X^j` and the root of
/// the block.
pub open spec fn residue_at(g: Seq<i16>, p: Seq<int>, nb: int, size: int, c: int, j: int) -> bool {
    congruent(g[c * size + j] as int, residue_sum(p, j, size, nb, block_root(nb + c)))
}

/// The coefficients `g` are the residues of `p` modulo the `nb` factors of
/// degree `size` that `nb` blocks stand for.
pub open spec fn holds_residues(g: Seq<i16>, p: Seq<int>, nb: int, size: int) -> bool {
    forall|c: int, j: int|
        0 <= c < nb && 0 <= j < size ==> #[trigger] residue_at(g, p, nb, size, c, j)
}

/// One pair of a forward layer: from the residues modulo `X^(2 len) - w` of
/// a block, the residues modulo `X^len - z` and `X^len + z` of its halves.
proof fn lemma_residue_pair(
    s: Seq<i16>,
    p: Seq<int>,
    len: int,
    nb: int,
    c: int,
    j: int,
    b: int,
)
    requires
        len > 0,
        layer_blocks(nb),
        nb * len == 128,
        0 <= c < nb,
        0 <= j < len,
        bounded(s, b),
        0 <= b <= 16383,
        holds_residues(s, p, nb, 2 * len),
    ensures
        residue_at(ntt_layer(s, len), p, 2 * nb, len, 2 * c, j),
        residue_at(ntt_layer(s, len), p, 2 * nb, len, 2 * c + 1, j),
{
    let size = 2 * len;
    let pos = c * size + j;
    let out = ntt_layer(s, len);
    let k = nb + c;
    lemma_forward_pair(s, len, nb, c, pos, b);
    lemma_zetas_range(k);
    lemma_zeta_square(k);
    let zeta = 169 * ZETAS[k];
    let w = block_root(k);
    let t = fqmul_spec(ZETAS[k], s[pos + len]) as int;
    let rs1 = residue_sum(p, j, size, nb, w);
    let rs2 = residue_sum(p, j + len, size, nb, w);
    assert(residue_at(s, p, nb, size, c, j));
    assert(residue_at(s, p, nb, size, c, j + len));
    assert(c * size + (j + len) == pos + len);
    assert((2 * c) * len + j == pos && (2 * c + 1) * len + j == pos + len) by (nonlinear_arith)
        requires
            pos == c * (2 * len) + j,
    ;
    assert(block_root(2 * nb + 2 * c) == zeta && block_root(2 * nb + 2 * c + 1) == -zeta);
    // t = zeta s[pos + len] = zeta rs2 modulo q.
    assert(169 * (ZETAS[k] * s[pos + len]) == s[pos + len] * zeta) by (nonlinear_arith)
        requires
            zeta == 169 * ZETAS[k],
    ;
    lemma_congruent_scale(s[pos + len] as int, rs2, zeta);
    lemma_congruent_trans(t, s[pos + len] * zeta, rs2 * zeta);
    assert(rs2 * zeta == zeta * rs2 && (-zeta) * rs2 == -(zeta * rs2)) by (nonlinear_arith);
    lemma_congruent_sum(s[pos] as int, rs1, t, zeta * rs2);
    // The lower half: root zeta.
    lemma_residue_sum_split(p, j, len, nb, zeta, w);
    lemma_congruent_sym(residue_sum(p, j, len, 2 * nb, zeta), rs1 + zeta * rs2);
    lemma_congruent_trans(
        out[pos] as int,
        rs1 + zeta * rs2,
        residue_sum(p, j, len, 2 * nb, zeta),
    );
    // The upper half: root -zeta.
    assert((-zeta) * (-zeta) == zeta * zeta) by (nonlinear_arith);
    lemma_residue_sum_split(p, j, len, nb, -zeta, w);
    lemma_congruent_sym(residue_sum(p, j, len, 2 * nb, -zeta), rs1 + (-zeta) * rs2);
    lemma_congruent_trans(
        out[pos + len] as int,
        rs1 - zeta * rs2,
        residue_sum(p, j, len, 2 * nb, -zeta),
    );
}

/// One forward layer: from the residues modulo the factors of degree
/// `2 len` to the residues modulo the factors of degree `len`.
proof fn lemma_residue_layer(s: Seq<i16>, p: Seq<int>, len: int, nb: int, b: int)
    requires
        len > 0,
        layer_blocks(nb),
        nb * len == 128,
        bounded(s, b),
        0 <= b <= 16383,
        holds_residues(s, p, nb, 2 * len),
    ensures
        holds_residues(ntt_layer(s, len), p, 2 * nb, len),
{
    let out = ntt_layer(s, len);
    assert forall|c: int, j: int| 0 <= c < 2 * nb && 0 <= j < len implies #[trigger] residue_at(
        out,
        p,
        2 * nb,
        len,
        c,
        j,
    ) by {
        lemma_residue_pair(s, p, len, nb, c / 2, j, b);
    }
}

/// After `n` layers the forward transform holds the residues modulo the
/// `2^n` factors of degree `2^(8 - n)`.
proof fn lemma_residue_stage(p: Seq<i16>, n: int)
    requires
        bounded(p, 3329),
        0 <= n <= 7,
    ensures
        holds_residues(forward_stage(p, n), ints(p), two_pow(n), two_pow(8 - n)),
    decreases n,
{
    if n == 0 {
        assert forall|c: int, j: int| 0 <= c < 1 && 0 <= j < 256 implies #[trigger] residue_at(
            p,
            ints(p),
            1,
            256,
            c,
            j,
        ) by {
            reveal_with_fuel(residue_sum, 2);
            assert(residue_sum(ints(p), j, 256, 1, block_root(1)) == p[j] + block_root(1) * 0);
            lemma_congruent_residue(p[j] as int);
        }
    } else {
        lemma_residue_stage(p, n - 1);
        lemma_forward_stage(p, n - 1);
        lemma_residue_layer(
            forward_stage(p, n - 1),
            ints(p),
            two_pow(8 - n),
            two_pow(n - 1),
            stage_bound(n - 1),
        );
    }
}

/// What the forward transform computes. For a polynomial `p` whose
/// coefficients are at most `q` in absolute value, the coefficients `2 m`
/// and `2 m + 1` of the transform are the two coefficients of the residue of
/// `p` modulo `X^2 - r`, where `r` is the twiddle factor of the pair `m`
/// without its Montgomery factor: coefficient `2 m + b` is congruent to the
/// sum of `p[2 j + b] r^j` over `j` from 0 to 127. These are the residue
/// rings in which `basemul` multiplies.
pub proof fn lemma_ntt_residues(p: Seq<i16>, m: int, b: int)
    requires
        p.len() == 256,
        forall|i: int| 0 <= i < 256 ==> -3329 <= #[trigger] p[i] <= 3329,
        0 <= m < 128,
        0 <= b < 2,
    ensures
        congruent(
            ntt_spec(p)[2 * m + b] as int,
            residue_sum(ints(p), b, 2, 128, 169 * pair_zeta(m)),
        ),
{
    assert(bounded(p, 3329));
    lemma_stages(p);
    lemma_residue_stage(p, 7);
    assert(residue_at(forward_stage(p, 7), ints(p), 128, 2, m, b));
    lemma_zetas_range(64 + m / 2);
    assert(block_root(128 + m) == 169 * pair_zeta(m));
}

} // verus!
