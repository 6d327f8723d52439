//! Why the inverse transform undoes the forward transform: the bounds that
//! keep the butterflies from wrapping, the pairing of the two tables of
//! twiddle factors, and the round trip itself.

use vstd::prelude::*;
use vstd::arithmetic::div_mod::{lemma_fundamental_div_mod, lemma_mod_pos_bound};
use crate::ntt::{add16, basemul_spec, fqmul_spec, invntt_butterfly, invntt_layer, invntt_layers, invntt_scale,
    invntt_spec, lemma_fqmul_spec, lemma_invntt_pair, lemma_ntt_pair, lemma_zetas_range,
    ntt_butterfly, ntt_layer, ntt_layers, ntt_spec, sub16, ZETAS, ZETAS_INV};
use crate::reduce::{congruent, lemma_congruent_residue, lemma_congruent_scale,
    lemma_congruent_sum, lemma_congruent_trans, lemma_montgomery_spec, lemma_unscale,
    montgomery_domain};

verus! {

/// The numbers of blocks that a layer can have: the powers of two up to 64.
pub open spec fn layer_blocks(nb: int) -> bool {
    nb == 1 || nb == 2 || nb == 4 || nb == 8 || nb == 16 || nb == 32 || nb == 64
}

/// The pairing of the two tables for the twiddle factors 1 to 31.
proof fn lemma_zeta_pair_1(nb: int, blk: int)
    requires
        layer_blocks(nb),
        0 <= blk < nb,
        1 <= nb + blk < 32,
    ensures
        (28561 * ZETAS[nb + blk] * ZETAS_INV[128 - 2 * nb + blk]) % 3329 == 1,
{
    let i = nb + blk;
    let a = ZETAS[nb + blk] as int;
    let b = ZETAS_INV[128 - 2 * nb + blk] as int;
    if i == 1 {
        assert(28561 * a * b == 55660190898) by (nonlinear_arith)
            requires a == 2571, b == 758;
    } else if i == 2 {
        assert(28561 * a * b == 128681299890) by (nonlinear_arith)
            requires a == 2970, b == 1517;
    } else if i == 3 {
        assert(28561 * a * b == 18579158988) by (nonlinear_arith)
            requires a == 1812, b == 359;
    } else if i == 4 {
        assert(28561 * a * b == 133340198771) by (nonlinear_arith)
            requires a == 1493, b == 3127;
    } else if i == 5 {
        assert(28561 * a * b == 123547003164) by (nonlinear_arith)
            requires a == 1422, b == 3042;
    } else if i == 6 {
        assert(28561 * a * b == 15631692349) by (nonlinear_arith)
            requires a == 287, b == 1907;
    } else if i == 7 {
        assert(28561 * a * b == 10592475192) by (nonlinear_arith)
            requires a == 202, b == 1836;
    } else if i == 8 {
        assert(28561 * a * b == 167854082318) by (nonlinear_arith)
            requires a == 3158, b == 1861;
    } else if i == 9 {
        assert(28561 * a * b == 26185524508) by (nonlinear_arith)
            requires a == 622, b == 1474;
    } else if i == 10 {
        assert(28561 * a * b == 54138917794) by (nonlinear_arith)
            requires a == 1577, b == 1202;
    } else if i == 11 {
        assert(28561 * a * b == 12303907434) by (nonlinear_arith)
            requires a == 182, b == 2367;
    } else if i == 12 {
        assert(28561 * a * b == 86465971254) by (nonlinear_arith)
            requires a == 962, b == 3147;
    } else if i == 13 {
        assert(28561 * a * b == 106432680744) by (nonlinear_arith)
            requires a == 2127, b == 1752;
    } else if i == 14 {
        assert(28561 * a * b == 143418633085) by (nonlinear_arith)
            requires a == 1855, b == 2707;
    } else if i == 15 {
        assert(28561 * a * b == 7169610708) by (nonlinear_arith)
            requires a == 1468, b == 171;
    } else if i == 16 {
        assert(28561 * a * b == 25710126663) by (nonlinear_arith)
            requires a == 573, b == 1571;
    } else if i == 17 {
        assert(28561 * a * b == 11733430020) by (nonlinear_arith)
            requires a == 2004, b == 205;
    } else if i == 18 {
        assert(28561 * a * b == 22002023472) by (nonlinear_arith)
            requires a == 264, b == 2918;
    } else if i == 19 {
        assert(28561 * a * b == 16867726746) by (nonlinear_arith)
            requires a == 383, b == 1542;
    } else if i == 20 {
        assert(28561 * a * b == 194286202500) by (nonlinear_arith)
            requires a == 2500, b == 2721;
    } else if i == 21 {
        assert(28561 * a * b == 108144112986) by (nonlinear_arith)
            requires a == 1458, b == 2597;
    } else if i == 22 {
        assert(28561 * a * b == 114039046264) by (nonlinear_arith)
            requires a == 1727, b == 2312;
    } else if i == 23 {
        assert(28561 * a * b == 62220681159) by (nonlinear_arith)
            requires a == 3199, b == 681;
    } else if i == 24 {
        assert(28561 * a * b == 9831838640) by (nonlinear_arith)
            requires a == 2648, b == 130;
    } else if i == 25 {
        assert(28561 * a * b == 46532552274) by (nonlinear_arith)
            requires a == 1017, b == 1602;
    } else if i == 26 {
        assert(28561 * a * b == 39116345892) by (nonlinear_arith)
            requires a == 732, b == 1871;
    } else if i == 27 {
        assert(28561 * a * b == 14395657952) by (nonlinear_arith)
            requires a == 608, b == 829;
    } else if i == 28 {
        assert(28561 * a * b == 150359441622) by (nonlinear_arith)
            requires a == 1787, b == 2946;
    } else if i == 29 {
        assert(28561 * a * b == 35978720115) by (nonlinear_arith)
            requires a == 411, b == 3065;
    } else if i == 30 {
        assert(28561 * a * b == 118222547300) by (nonlinear_arith)
            requires a == 3124, b == 1325;
    } else if i == 31 {
        assert(28561 * a * b == 138379415928) by (nonlinear_arith)
            requires a == 1758, b == 2756;
    }
}

/// The pairing of the two tables for the twiddle factors 32 to 63.
proof fn lemma_zeta_pair_32(nb: int, blk: int)
    requires
        layer_blocks(nb),
        0 <= blk < nb,
        32 <= nb + blk < 64,
    ensures
        (28561 * ZETAS[nb + blk] * ZETAS_INV[128 - 2 * nb + blk]) % 3329 == 1,
{
    let i = nb + blk;
    let a = ZETAS[nb + blk] as int;
    let b = ZETAS_INV[128 - 2 * nb + blk] as int;
    if i == 32 {
        assert(28561 * a * b == 44535881325) by (nonlinear_arith)
            requires a == 1223, b == 1275;
    } else if i == 33 {
        assert(28561 * a * b == 49384939344) by (nonlinear_arith)
            requires a == 652, b == 2652;
    } else if i == 34 {
        assert(28561 * a * b == 84469300305) by (nonlinear_arith)
            requires a == 2777, b == 1065;
    } else if i == 35 {
        assert(28561 * a * b == 83518504615) by (nonlinear_arith)
            requires a == 1015, b == 2881;
    } else if i == 36 {
        assert(28561 * a * b == 42158892100) by (nonlinear_arith)
            requires a == 2036, b == 725;
    } else if i == 37 {
        assert(28561 * a * b == 64217352108) by (nonlinear_arith)
            requires a == 1491, b == 1508;
    } else if i == 38 {
        assert(28561 * a * b == 206076069056) by (nonlinear_arith)
            requires a == 3047, b == 2368;
    } else if i == 39 {
        assert(28561 * a * b == 20290591230) by (nonlinear_arith)
            requires a == 1785, b == 398;
    } else if i == 40 {
        assert(28561 * a * b == 14015339676) by (nonlinear_arith)
            requires a == 516, b == 951;
    } else if i == 41 {
        assert(28561 * a * b == 23428217007) by (nonlinear_arith)
            requires a == 3321, b == 247;
    } else if i == 42 {
        assert(28561 * a * b == 122120809629) by (nonlinear_arith)
            requires a == 3009, b == 1421;
    } else if i == 43 {
        assert(28561 * a * b == 245058692346) by (nonlinear_arith)
            requires a == 2663, b == 3222;
    } else if i == 44 {
        assert(28561 * a * b == 122120809629) by (nonlinear_arith)
            requires a == 1711, b == 2499;
    } else if i == 45 {
        assert(28561 * a * b == 16772647177) by (nonlinear_arith)
            requires a == 2167, b == 271;
    } else if i == 46 {
        assert(28561 * a * b == 323881740) by (nonlinear_arith)
            requires a == 126, b == 90;
    } else if i == 47 {
        assert(28561 * a * b == 35788560977) by (nonlinear_arith)
            requires a == 1469, b == 853;
    } else if i == 48 {
        assert(28561 * a * b == 131533686960) by (nonlinear_arith)
            requires a == 2476, b == 1860;
    } else if i == 49 {
        assert(28561 * a * b == 296306580037) by (nonlinear_arith)
            requires a == 3239, b == 3203;
    } else if i == 50 {
        assert(28561 * a * b == 101488543156) by (nonlinear_arith)
            requires a == 3058, b == 1162;
    } else if i == 51 {
        assert(28561 * a * b == 38355709340) by (nonlinear_arith)
            requires a == 830, b == 1618;
    } else if i == 52 {
        assert(28561 * a * b == 2035313982) by (nonlinear_arith)
            requires a == 107, b == 666;
    } else if i == 53 {
        assert(28561 * a * b == 17438204160) by (nonlinear_arith)
            requires a == 1908, b == 320;
    } else if i == 54 {
        assert(28561 * a * b == 704200016) by (nonlinear_arith)
            requires a == 3082, b == 8;
    } else if i == 55 {
        assert(28561 * a * b == 191053497154) by (nonlinear_arith)
            requires a == 2378, b == 2813;
    } else if i == 56 {
        assert(28561 * a * b == 129251777304) by (nonlinear_arith)
            requires a == 2931, b == 1544;
    } else if i == 57 {
        assert(28561 * a * b == 7740088122) by (nonlinear_arith)
            requires a == 961, b == 282;
    } else if i == 58 {
        assert(28561 * a * b == 95593609878) by (nonlinear_arith)
            requires a == 1821, b == 1838;
    } else if i == 59 {
        assert(28561 * a * b == 96164087292) by (nonlinear_arith)
            requires a == 2604, b == 1293;
    } else if i == 60 {
        assert(28561 * a * b == 29608388992) by (nonlinear_arith)
            requires a == 448, b == 2314;
    } else if i == 61 {
        assert(28561 * a * b == 35693481408) by (nonlinear_arith)
            requires a == 2264, b == 552;
    } else if i == 62 {
        assert(28561 * a * b == 51761928569) by (nonlinear_arith)
            requires a == 677, b == 2677;
    } else if i == 63 {
        assert(28561 * a * b == 123547003164) by (nonlinear_arith)
            requires a == 2054, b == 2106;
    }
}

/// The pairing of the two tables for the twiddle factors 64 to 95.
proof fn lemma_zeta_pair_64(nb: int, blk: int)
    requires
        layer_blocks(nb),
        0 <= blk < nb,
        64 <= nb + blk < 96,
    ensures
        (28561 * ZETAS[nb + blk] * ZETAS_INV[128 - 2 * nb + blk]) % 3329 == 1,
{
    let i = nb + blk;
    let a = ZETAS[nb + blk] as int;
    let b = ZETAS_INV[128 - 2 * nb + blk] as int;
    if i == 64 {
        assert(28561 * a * b == 108144112986) by (nonlinear_arith)
            requires a == 2226, b == 1701;
    } else if i == 65 {
        assert(28561 * a * b == 22192182610) by (nonlinear_arith)
            requires a == 430, b == 1807;
    } else if i == 66 {
        assert(28561 * a * b == 23142978300) by (nonlinear_arith)
            requires a == 555, b == 1460;
    } else if i == 67 {
        assert(28561 * a * b == 57086384433) by (nonlinear_arith)
            requires a == 843, b == 2371;
    } else if i == 68 {
        assert(28561 * a * b == 138759734204) by (nonlinear_arith)
            requires a == 2078, b == 2338;
    } else if i == 69 {
        assert(28561 * a * b == 58037180123) by (nonlinear_arith)
            requires a == 871, b == 2333;
    } else if i == 70 {
        assert(28561 * a * b == 13635021400) by (nonlinear_arith)
            requires a == 1550, b == 308;
    } else if i == 71 {
        assert(28561 * a * b == 323881740) by (nonlinear_arith)
            requires a == 105, b == 108;
    } else if i == 72 {
        assert(28561 * a * b == 34362367442) by (nonlinear_arith)
            requires a == 422, b == 2851;
    } else if i == 73 {
        assert(28561 * a * b == 14585817090) by (nonlinear_arith)
            requires a == 587, b == 870;
    } else if i == 74 {
        assert(28561 * a * b == 4317223638) by (nonlinear_arith)
            requires a == 177, b == 854;
    } else if i == 75 {
        assert(28561 * a * b == 133435278340) by (nonlinear_arith)
            requires a == 3094, b == 1510;
    } else if i == 76 {
        assert(28561 * a * b == 219957686130) by (nonlinear_arith)
            requires a == 3038, b == 2535;
    } else if i == 77 {
        assert(28561 * a * b == 104721248502) by (nonlinear_arith)
            requires a == 2869, b == 1278;
    } else if i == 78 {
        assert(28561 * a * b == 68781171420) by (nonlinear_arith)
            requires a == 1574, b == 1530;
    } else if i == 79 {
        assert(28561 * a * b == 55945429605) by (nonlinear_arith)
            requires a == 1653, b == 1185;
    } else if i == 80 {
        assert(28561 * a * b == 146080861017) by (nonlinear_arith)
            requires a == 3083, b == 1659;
    } else if i == 81 {
        assert(28561 * a * b == 26375683646) by (nonlinear_arith)
            requires a == 778, b == 1187;
    } else if i == 82 {
        assert(28561 * a * b == 102914736691) by (nonlinear_arith)
            requires a == 1159, b == 3109;
    } else if i == 83 {
        assert(28561 * a * b == 79430083148) by (nonlinear_arith)
            requires a == 3182, b == 874;
    } else if i == 84 {
        assert(28561 * a * b == 97305042120) by (nonlinear_arith)
            requires a == 2552, b == 1335;
    } else if i == 85 {
        assert(28561 * a * b == 89413437893) by (nonlinear_arith)
            requires a == 1483, b == 2111;
    } else if i == 86 {
        assert(28561 * a * b == 10592475192) by (nonlinear_arith)
            requires a == 2727, b == 136;
    } else if i == 87 {
        assert(28561 * a * b == 38831107185) by (nonlinear_arith)
            requires a == 1119, b == 1215;
    } else if i == 88 {
        assert(28561 * a * b == 146271020155) by (nonlinear_arith)
            requires a == 1739, b == 2945;
    } else if i == 89 {
        assert(28561 * a * b == 26946161060) by (nonlinear_arith)
            requires a == 644, b == 1465;
    } else if i == 90 {
        assert(28561 * a * b == 90174074445) by (nonlinear_arith)
            requires a == 2457, b == 1285;
    } else if i == 91 {
        assert(28561 * a * b == 20005352523) by (nonlinear_arith)
            requires a == 349, b == 2007;
    } else if i == 92 {
        assert(28561 * a * b == 32460776062) by (nonlinear_arith)
            requires a == 418, b == 2719;
    } else if i == 93 {
        assert(28561 * a * b == 25615047094) by (nonlinear_arith)
            requires a == 329, b == 2726;
    } else if i == 94 {
        assert(28561 * a * b == 202272886296) by (nonlinear_arith)
            requires a == 3173, b == 2232;
    } else if i == 95 {
        assert(28561 * a * b == 233458984928) by (nonlinear_arith)
            requires a == 3254, b == 2512;
    }
}

/// The pairing of the two tables for the twiddle factors 96 to 127.
proof fn lemma_zeta_pair_96(nb: int, blk: int)
    requires
        layer_blocks(nb),
        0 <= blk < nb,
        96 <= nb + blk < 128,
    ensures
        (28561 * ZETAS[nb + blk] * ZETAS_INV[128 - 2 * nb + blk]) % 3329 == 1,
{
    let i = nb + blk;
    let a = ZETAS[nb + blk] as int;
    let b = ZETAS_INV[128 - 2 * nb + blk] as int;
    if i == 96 {
        assert(28561 * a * b == 1750075275) by (nonlinear_arith)
            requires a == 817, b == 75;
    } else if i == 97 {
        assert(28561 * a * b == 4887701052) by (nonlinear_arith)
            requires a == 1097, b == 156;
    } else if i == 98 {
        assert(28561 * a * b == 51666849000) by (nonlinear_arith)
            requires a == 603, b == 3000;
    } else if i == 99 {
        assert(28561 * a * b == 50716053310) by (nonlinear_arith)
            requires a == 610, b == 2911;
    } else if i == 100 {
        assert(28561 * a * b == 112517773160) by (nonlinear_arith)
            requires a == 1322, b == 2980;
    } else if i == 101 {
        assert(28561 * a * b == 50906212448) by (nonlinear_arith)
            requires a == 2044, b == 872;
    } else if i == 102 {
        assert(28561 * a * b == 142943235240) by (nonlinear_arith)
            requires a == 1864, b == 2685;
    } else if i == 103 {
        assert(28561 * a * b == 17438204160) by (nonlinear_arith)
            requires a == 384, b == 1590;
    } else if i == 104 {
        assert(28561 * a * b == 133435278340) by (nonlinear_arith)
            requires a == 2114, b == 2210;
    } else if i == 105 {
        assert(28561 * a * b == 54899554346) by (nonlinear_arith)
            requires a == 3193, b == 602;
    } else if i == 106 {
        assert(28561 * a * b == 64217352108) by (nonlinear_arith)
            requires a == 1218, b == 1846;
    } else if i == 107 {
        assert(28561 * a * b == 44250642618) by (nonlinear_arith)
            requires a == 1994, b == 777;
    } else if i == 108 {
        assert(28561 * a * b == 10307236485) by (nonlinear_arith)
            requires a == 2455, b == 147;
    } else if i == 109 {
        assert(28561 * a * b == 13635021400) by (nonlinear_arith)
            requires a == 220, b == 2170;
    } else if i == 110 {
        assert(28561 * a * b == 156064215762) by (nonlinear_arith)
            requires a == 2142, b == 2551;
    } else if i == 111 {
        assert(28561 * a * b == 11733430020) by (nonlinear_arith)
            requires a == 1670, b == 246;
    } else if i == 112 {
        assert(28561 * a * b == 102629497984) by (nonlinear_arith)
            requires a == 2144, b == 1676;
    } else if i == 113 {
        assert(28561 * a * b == 90174074445) by (nonlinear_arith)
            requires a == 1799, b == 1755;
    } else if i == 114 {
        assert(28561 * a * b == 26946161060) by (nonlinear_arith)
            requires a == 2051, b == 460;
    } else if i == 115 {
        assert(28561 * a * b == 6599133294) by (nonlinear_arith)
            requires a == 794, b == 291;
    } else if i == 116 {
        assert(28561 * a * b == 12208827865) by (nonlinear_arith)
            requires a == 1819, b == 235;
    } else if i == 117 {
        assert(28561 * a * b == 222810073200) by (nonlinear_arith)
            requires a == 2475, b == 3152;
    } else if i == 118 {
        assert(28561 * a * b == 192574770258) by (nonlinear_arith)
            requires a == 2459, b == 2742;
    } else if i == 119 {
        assert(28561 * a * b == 39686823306) by (nonlinear_arith)
            requires a == 478, b == 2907;
    } else if i == 120 {
        assert(28561 * a * b == 296591818744) by (nonlinear_arith)
            requires a == 3221, b == 3224;
    } else if i == 121 {
        assert(28561 * a * b == 153497067399) by (nonlinear_arith)
            requires a == 3021, b == 1779;
    } else if i == 122 {
        assert(28561 * a * b == 69922126248) by (nonlinear_arith)
            requires a == 996, b == 2458;
    } else if i == 123 {
        assert(28561 * a * b == 35408242701) by (nonlinear_arith)
            requires a == 991, b == 1251;
    } else if i == 124 {
        assert(28561 * a * b == 68020534868) by (nonlinear_arith)
            requires a == 958, b == 2486;
    } else if i == 125 {
        assert(28561 * a * b == 148077531966) by (nonlinear_arith)
            requires a == 1869, b == 2774;
    } else if i == 126 {
        assert(28561 * a * b == 126019071958) by (nonlinear_arith)
            requires a == 1522, b == 2899;
    } else if i == 127 {
        assert(28561 * a * b == 51286530724) by (nonlinear_arith)
            requires a == 1628, b == 1103;
    }
}

/// The pairing of the two tables: in a layer of `nb` blocks, the twiddle
/// factor of block `blk` in the forward transform and the one of the same
/// block in the inverse transform are inverse to each other modulo `q`. Both
/// carry the Montgomery factor, whose inverse modulo `q` is 169, and 28561 is
/// the square of 169.
pub proof fn lemma_zeta_pair(nb: int, blk: int)
    requires
        layer_blocks(nb),
        0 <= blk < nb,
    ensures
        0 <= nb + blk < 128,
        0 <= 128 - 2 * nb + blk < 128,
        (28561 * ZETAS[nb + blk] * ZETAS_INV[128 - 2 * nb + blk]) % 3329 == 1,
{
    let i = nb + blk;
    if i < 32 {
        lemma_zeta_pair_1(nb, blk);
    } else if i < 64 {
        lemma_zeta_pair_32(nb, blk);
    } else if i < 96 {
        lemma_zeta_pair_64(nb, blk);
    } else {
        lemma_zeta_pair_96(nb, blk);
    }
}

/// The sequence holds 256 coefficients of absolute value at most `b`.
pub open spec fn bounded(p: Seq<i16>, b: int) -> bool {
    p.len() == 256 && forall|i: int| 0 <= i < 256 ==> -b <= #[trigger] p[i] <= b
}

/// The pair `j`, `j + len` of a forward layer on coefficients of absolute
/// value at most `b`: nothing wraps, and the product with the twiddle factor
/// is small and congruent to what it stands for.
pub proof fn lemma_forward_pair(s: Seq<i16>, len: int, nb: int, blk: int, j: int, b: int)
    requires
        len > 0,
        layer_blocks(nb),
        nb * len == 128,
        0 <= blk < nb,
        blk * (2 * len) <= j < blk * (2 * len) + len,
        bounded(s, b),
        0 <= b <= 16383,
    ensures
        0 <= j,
        j + len < 256,
        0 <= nb + blk < 128,
        ({
            let t = fqmul_spec(ZETAS[nb + blk], s[j + len]);
            &&& ntt_layer(s, len)[j] == s[j] + t
            &&& ntt_layer(s, len)[j + len] == s[j] - t
            &&& -(b / 19 + 1667) <= t <= b / 19 + 1667
            &&& congruent(t as int, 169 * (ZETAS[nb + blk] * s[j + len]))
        }),
{
    assert(0 <= blk * (2 * len) && (blk + 1) * (2 * len) <= 256 && (blk + 1) * (2 * len) == blk * (
        2 * len) + 2 * len) by (nonlinear_arith)
        requires
            len > 0,
            nb * len == 128,
            0 <= blk < nb,
    ;
    lemma_ntt_pair(s, len, nb, blk, j);
    lemma_zetas_range(nb + blk);
    let z = ZETAS[nb + blk];
    let x = s[j + len];
    let t = fqmul_spec(z, x);
    lemma_fqmul_spec(z, x);
    lemma_montgomery_spec(z * x);
    assert(-3328 * b <= z * x <= 3328 * b) by (nonlinear_arith)
        requires
            0 <= z <= 3328,
            -b <= x <= b,
            0 <= b,
    ;
    assert((z * x) / 65536 <= b / 19);
    assert((z * x) / 65536 >= -(b / 19) - 1);
    lemma_unscale(t as int, z * x);
    assert(ntt_layer(s, len)[j] == ntt_butterfly(s, len, j));
    assert(ntt_layer(s, len)[j + len] == ntt_butterfly(s, len, j + len));
    assert(-32767 <= s[j] + t <= 32767);
    assert(-32767 <= s[j] - t <= 32767);
}

/// A forward layer on coefficients of absolute value at most `b` gives
/// coefficients of absolute value at most `b + b / 19 + 1667`.
proof fn lemma_forward_layer(s: Seq<i16>, len: int, nb: int, b: int)
    requires
        len > 0,
        layer_blocks(nb),
        nb * len == 128,
        bounded(s, b),
        0 <= b <= 16383,
    ensures
        bounded(ntt_layer(s, len), b + b / 19 + 1667),
{
    let out = ntt_layer(s, len);
    assert forall|i: int| 0 <= i < 256 implies -(b + b / 19 + 1667) <= #[trigger] out[i] <= b + b
        / 19 + 1667 by {
        let (blk, off) = lemma_index_split(i, len, nb);
        if off < len {
            lemma_forward_pair(s, len, nb, blk, i, b);
        } else {
            lemma_forward_pair(s, len, nb, blk, i - len, b);
        }
    }
}

/// The pair `j`, `j + len` of an inverse layer, applied to coefficients `v`
/// that are congruent to `c` times the forward layer of `s`: if neither the
/// sum nor the difference of the pair wraps, the results are congruent to
/// `2 c` times the pair of `s`, and smaller than `q` in absolute value.
proof fn lemma_inverse_pair(
    s: Seq<i16>,
    v: Seq<i16>,
    len: int,
    nb: int,
    blk: int,
    j: int,
    c: int,
    b: int,
)
    requires
        len > 0,
        layer_blocks(nb),
        nb * len == 128,
        0 <= blk < nb,
        blk * (2 * len) <= j < blk * (2 * len) + len,
        bounded(s, b),
        0 <= b <= 16383,
        v.len() == 256,
        congruent(v[j] as int, c * ntt_layer(s, len)[j]),
        congruent(v[j + len] as int, c * ntt_layer(s, len)[j + len]),
        -32767 <= v[j] + v[j + len] <= 32767,
        -32767 <= v[j] - v[j + len] <= 32767,
    ensures
        0 <= j,
        j + len < 256,
        congruent(invntt_layer(v, len)[j] as int, 2 * c * s[j]),
        congruent(invntt_layer(v, len)[j + len] as int, 2 * c * s[j + len]),
        0 <= invntt_layer(v, len)[j] < 3329,
        -3329 < invntt_layer(v, len)[j + len] < 3329,
{
    lemma_forward_pair(s, len, nb, blk, j, b);
    lemma_invntt_pair(v, len, nb, blk, j);
    lemma_zeta_pair(nb, blk);
    lemma_zetas_range(nb + blk);
    lemma_zetas_range(128 - 2 * nb + blk);
    let z = ZETAS[nb + blk] as int;
    let zi = ZETAS_INV[128 - 2 * nb + blk] as int;
    let sl = s[j + len] as int;
    let t = fqmul_spec(ZETAS[nb + blk], s[j + len]) as int;
    let w0 = ntt_layer(s, len)[j] as int;
    let w1 = ntt_layer(s, len)[j + len] as int;
    let r0 = invntt_layer(v, len)[j];
    let r1 = invntt_layer(v, len)[j + len];
    assert(r0 == invntt_butterfly(v, len, j));
    assert(r1 == invntt_butterfly(v, len, j + len));

    // The lower half: the reduced sum.
    assert(add16(v[j], v[j + len]) == v[j] + v[j + len]);
    assert(c * w0 + c * w1 == 2 * c * s[j]) by (nonlinear_arith)
        requires
            w0 == s[j] + t,
            w1 == s[j] - t,
    ;
    lemma_congruent_sum(v[j] as int, c * w0, v[j + len] as int, c * w1);
    lemma_congruent_residue(v[j] + v[j + len]);
    lemma_congruent_trans(r0 as int, v[j] + v[j + len], 2 * c * s[j]);

    // The upper half: the difference times the inverse twiddle factor.
    let d = sub16(v[j], v[j + len]);
    assert(d == v[j] - v[j + len]);
    assert(montgomery_domain(ZETAS_INV[128 - 2 * nb + blk] * d)) by (nonlinear_arith)
        requires
            0 <= ZETAS_INV[128 - 2 * nb + blk] <= 3328,
            -32767 <= d <= 32767,
    ;
    lemma_fqmul_spec(ZETAS_INV[128 - 2 * nb + blk], d);
    lemma_unscale(r1 as int, zi * d);
    assert(c * w0 - c * w1 == 2 * c * t) by (nonlinear_arith)
        requires
            w0 == s[j] + t,
            w1 == s[j] - t,
    ;
    // r1 = 169 zi d = 169 zi 2 c t = 169 zi 2 c 169 z sl = (28561 z zi) (2 c sl) = 2 c sl.
    lemma_congruent_scale(d as int, 2 * c * t, 169 * zi);
    assert(169 * (zi * d) == d * (169 * zi)) by (nonlinear_arith);
    lemma_congruent_scale(t, 169 * (z * sl), 2 * c * (169 * zi));
    assert((2 * c * t) * (169 * zi) == t * (2 * c * (169 * zi))) by (nonlinear_arith);
    assert((169 * (z * sl)) * (2 * c * (169 * zi)) == (28561 * z * zi) * (2 * c * sl))
        by (nonlinear_arith);
    assert(congruent(28561 * z * zi, 1)) by {
        reveal(congruent);
    }
    lemma_congruent_scale(28561 * z * zi, 1, 2 * c * sl);
    assert(1 * (2 * c * sl) == 2 * c * sl);
    lemma_congruent_trans(r1 as int, d * (169 * zi), t * (2 * c * (169 * zi)));
    lemma_congruent_trans(
        r1 as int,
        t * (2 * c * (169 * zi)),
        (28561 * z * zi) * (2 * c * sl),
    );
    lemma_congruent_trans(r1 as int, (28561 * z * zi) * (2 * c * sl), 2 * c * sl);
}

/// Splits an index into its block and its place in the block.
pub proof fn lemma_index_split(i: int, len: int, nb: int) -> (r: (int, int))
    requires
        0 <= i < 256,
        len > 0,
        nb * len == 128,
    ensures
        0 <= r.0 < nb,
        0 <= r.1 < 2 * len,
        i == r.0 * (2 * len) + r.1,
{
    let blk = i / (2 * len);
    let off = i % (2 * len);
    lemma_fundamental_div_mod(i, 2 * len);
    lemma_mod_pos_bound(i, 2 * len);
    assert(i == blk * (2 * len) + off) by (nonlinear_arith)
        requires
            i == (2 * len) * blk + off,
    ;
    assert(0 <= blk < nb) by (nonlinear_arith)
        requires
            i == blk * (2 * len) + off,
            0 <= off < 2 * len,
            0 <= i < 256,
            nb * len == 128,
            len > 0,
    ;
    (blk, off)
}

/// An inverse layer undoes a forward layer up to a factor of two. Let `v`
/// hold coefficients below `2^14` in absolute value, each congruent to `c`
/// times its counterpart in the forward layer of `s`. Then the inverse layer
/// of `v` is congruent to `2 c` times `s`, coefficient by coefficient, and
/// its coefficients are smaller than `q` in absolute value.
proof fn lemma_inverse_layer(s: Seq<i16>, v: Seq<i16>, len: int, nb: int, c: int, b: int)
    requires
        len > 0,
        layer_blocks(nb),
        nb * len == 128,
        bounded(s, b),
        0 <= b <= 16383,
        bounded(v, 16383),
        forall|i: int| 0 <= i < 256 ==> congruent(#[trigger] v[i] as int, c * ntt_layer(s, len)[i]),
    ensures
        bounded(invntt_layer(v, len), 3328),
        forall|i: int|
            0 <= i < 256 ==> congruent(#[trigger] invntt_layer(v, len)[i] as int, 2 * c * s[i]),
{
    let out = invntt_layer(v, len);
    assert forall|i: int| 0 <= i < 256 implies -3328 <= #[trigger] out[i] <= 3328 && congruent(
        out[i] as int,
        2 * c * s[i],
    ) by {
        let (blk, off) = lemma_index_split(i, len, nb);
        let j = if off < len {
            i
        } else {
            i - len
        };
        assert(0 <= blk * (2 * len) && (blk + 1) * (2 * len) <= 256 && (blk + 1) * (2 * len)
            == blk * (2 * len) + 2 * len) by (nonlinear_arith)
            requires
                len > 0,
                nb * len == 128,
                0 <= blk < nb,
        ;
        lemma_inverse_pair(s, v, len, nb, blk, j, c, b);
    }
}

/// The inverse layer of block length two undoes the forward layer of block
/// length two up to a factor of two, on coefficients below `2^14` in absolute
/// value.
proof fn lemma_inverse_of_forward(s: Seq<i16>, b: int)
    requires
        bounded(s, b),
        0 <= b <= 16383,
    ensures
        bounded(invntt_layer(ntt_layer(s, 2), 2), 3328),
        forall|i: int|
            0 <= i < 256 ==> congruent(
                #[trigger] invntt_layer(ntt_layer(s, 2), 2)[i] as int,
                2 * s[i],
            ),
{
    let v = ntt_layer(s, 2);
    let out = invntt_layer(v, 2);
    assert forall|i: int| 0 <= i < 256 implies -3328 <= #[trigger] out[i] <= 3328 && congruent(
        out[i] as int,
        2 * s[i],
    ) by {
        let (blk, off) = lemma_index_split(i, 2, 64);
        let j = if off < 2 {
            i
        } else {
            i - 2
        };
        lemma_forward_pair(s, 2, 64, blk, j, b);
        lemma_congruent_residue(v[j] as int);
        lemma_congruent_residue(v[j + 2] as int);
        lemma_inverse_pair(s, v, 2, 64, blk, j, 1, b);
    }
}

/// `2^n`, for `n` from 0 to 8.
pub open spec fn two_pow(n: int) -> int {
    if n <= 0 {
        1
    } else if n == 1 {
        2
    } else if n == 2 {
        4
    } else if n == 3 {
        8
    } else if n == 4 {
        16
    } else if n == 5 {
        32
    } else if n == 6 {
        64
    } else if n == 7 {
        128
    } else {
        256
    }
}

/// The polynomial after the first `n` layers of the forward transform.
pub open spec fn forward_stage(p: Seq<i16>, n: int) -> Seq<i16>
    decreases n,
{
    if n <= 0 {
        p
    } else {
        ntt_layer(forward_stage(p, n - 1), two_pow(8 - n))
    }
}

/// The polynomial after the first `n` layers of the inverse transform.
pub open spec fn inverse_stage(v: Seq<i16>, n: int) -> Seq<i16>
    decreases n,
{
    if n <= 0 {
        v
    } else {
        invntt_layer(inverse_stage(v, n - 1), two_pow(n))
    }
}

/// A bound on the coefficients after `n` forward layers, for coefficients at
/// most `q` in absolute value at the start: each layer adds a nineteenth and
/// 1667.
pub open spec fn stage_bound(n: int) -> int {
    if n <= 0 {
        3329
    } else if n == 1 {
        5171
    } else if n == 2 {
        7110
    } else if n == 3 {
        9151
    } else if n == 4 {
        11299
    } else if n == 5 {
        13560
    } else {
        15940
    }
}

/// The forward transform is its seven layers in turn, and so is the inverse
/// transform before its final scaling.
pub proof fn lemma_stages(p: Seq<i16>)
    ensures
        ntt_spec(p) == forward_stage(p, 7),
        invntt_layers(p, 2) == inverse_stage(p, 7),
{
    reveal_with_fuel(ntt_layers, 8);
    reveal_with_fuel(invntt_layers, 8);
    reveal_with_fuel(forward_stage, 8);
    reveal_with_fuel(inverse_stage, 8);
}

/// Nothing wraps in the first six layers of the forward transform of a
/// polynomial with coefficients at most `q` in absolute value.
pub proof fn lemma_forward_stage(p: Seq<i16>, n: int)
    requires
        bounded(p, 3329),
        0 <= n <= 6,
    ensures
        bounded(forward_stage(p, n), stage_bound(n)),
    decreases n,
{
    if n > 0 {
        lemma_forward_stage(p, n - 1);
        lemma_forward_layer(
            forward_stage(p, n - 1),
            two_pow(8 - n),
            two_pow(n - 1),
            stage_bound(n - 1),
        );
    }
}

/// After `n` layers of the inverse transform, coefficients `v` that are
/// congruent to `f` times the forward transform of `p` are back at what `p`
/// was `n` layers before the end of the forward transform, times `f 2^n`,
/// modulo `q`. Here `p` has coefficients at most `q` in absolute value, and
/// `v` is the forward transform itself or has coefficients below `2^14` in
/// absolute value.
proof fn lemma_inverse_stage(p: Seq<i16>, v: Seq<i16>, f: int, n: int)
    requires
        bounded(p, 3329),
        (v == forward_stage(p, 7) && f == 1) || bounded(v, 16383),
        v.len() == 256,
        forall|i: int|
            0 <= i < 256 ==> congruent(#[trigger] v[i] as int, f * forward_stage(p, 7)[i]),
        1 <= n <= 7,
    ensures
        bounded(inverse_stage(v, n), 3328),
        forall|i: int|
            0 <= i < 256 ==> congruent(
                #[trigger] inverse_stage(v, n)[i] as int,
                (f * two_pow(n)) * forward_stage(p, 7 - n)[i],
            ),
    decreases n,
{
    let s = forward_stage(p, 7 - n);
    lemma_forward_stage(p, 7 - n);
    if n == 1 {
        assert(forward_stage(p, 7) == ntt_layer(s, 2));
        assert(inverse_stage(v, 1) == invntt_layer(v, 2)) by {
            reveal_with_fuel(inverse_stage, 2);
        }
        let out = inverse_stage(v, 1);
        if v == forward_stage(p, 7) && f == 1 {
            lemma_inverse_of_forward(s, 15940);
            assert forall|i: int| 0 <= i < 256 implies congruent(
                #[trigger] out[i] as int,
                (f * two_pow(1)) * s[i],
            ) by {
                assert(congruent(out[i] as int, 2 * s[i]));
            }
        } else {
            lemma_inverse_layer(s, v, 2, 64, f, 15940);
            assert forall|i: int| 0 <= i < 256 implies congruent(
                #[trigger] out[i] as int,
                (f * two_pow(1)) * s[i],
            ) by {
                assert(congruent(out[i] as int, 2 * f * s[i]));
                assert(2 * f * s[i] == (f * 2) * s[i]) by (nonlinear_arith);
            }
        }
    } else {
        lemma_inverse_stage(p, v, f, n - 1);
        let u = inverse_stage(v, n - 1);
        let c = f * two_pow(n - 1);
        assert(forward_stage(p, 8 - n) == ntt_layer(s, two_pow(n)));
        lemma_inverse_layer(s, u, two_pow(n), two_pow(7 - n), c, stage_bound(7 - n));
        let out = inverse_stage(v, n);
        assert(out == invntt_layer(u, two_pow(n)));
        assert forall|i: int| 0 <= i < 256 implies congruent(
            #[trigger] out[i] as int,
            (f * two_pow(n)) * s[i],
        ) by {
            assert(congruent(out[i] as int, 2 * c * s[i]));
            assert(2 * two_pow(n - 1) == two_pow(n));
            assert(2 * c * s[i] == (f * two_pow(n)) * s[i]) by (nonlinear_arith)
                requires
                    c == f * two_pow(n - 1),
                    2 * two_pow(n - 1) == two_pow(n),
            ;
        }
    }
}

/// The final scaling of the inverse transform strips the factor 128 that
/// the seven layers leave, and leaves the Montgomery factor.
proof fn lemma_final_scale(h: i16, c: i16, f: int)
    requires
        congruent(h as int, (f * 128) * c),
        -3328 <= h <= 3328,
    ensures
        congruent(fqmul_spec(h, 1441) as int, (f * c) * 65536),
        -3329 < fqmul_spec(h, 1441) < 3329,
{
    let r = fqmul_spec(h, 1441);
    lemma_fqmul_spec(h, 1441);
    lemma_unscale(r as int, h * 1441);
    reveal(congruent);
    let fc = f * c;
    assert((f * 128) * c == 128 * fc) by (nonlinear_arith)
        requires
            fc == f * c,
    ;
    let k0 = (r - 169 * (h * 1441)) / 3329;
    let k1 = (h - 128 * fc) / 3329;
    assert(r - fc * 65536 == 3329 * (k0 + 243529 * k1 + 9344 * fc));
}

/// The inverse transform of coefficients `v` that are congruent to `f`
/// times the forward transform of `p`: `f` times `p` times the Montgomery
/// factor, modulo `q`. Here `p` has coefficients at most `q` in absolute
/// value, and `v` is the forward transform itself or has coefficients below
/// `2^14` in absolute value.
pub proof fn lemma_invntt_of(p: Seq<i16>, v: Seq<i16>, f: int)
    requires
        bounded(p, 3329),
        (v == ntt_spec(p) && f == 1) || bounded(v, 16383),
        v.len() == 256,
        forall|i: int| 0 <= i < 256 ==> congruent(#[trigger] v[i] as int, f * ntt_spec(p)[i]),
    ensures
        forall|i: int|
            0 <= i < 256 ==> congruent(#[trigger] invntt_spec(v)[i] as int, (f * p[i]) * 65536),
        forall|i: int| 0 <= i < 256 ==> -3329 < #[trigger] invntt_spec(v)[i] < 3329,
{
    lemma_stages(p);
    lemma_stages(v);
    lemma_inverse_stage(p, v, f, 7);
    let h = inverse_stage(v, 7);
    let out = invntt_spec(v);
    assert(out == invntt_scale(h));
    assert forall|i: int| 0 <= i < 256 implies congruent(
        #[trigger] out[i] as int,
        (f * p[i]) * 65536,
    ) && -3329 < out[i] < 3329 by {
        assert(out[i] == fqmul_spec(h[i], 1441));
        assert(congruent(h[i] as int, (f * two_pow(7)) * forward_stage(p, 0)[i]));
        assert(-3328 <= h[i] <= 3328);
        lemma_final_scale(h[i], p[i], f);
    }
}

/// An inverse layer gives coefficients smaller than `q` in absolute value,
/// whatever it is given.
proof fn lemma_inverse_layer_bounded(w: Seq<i16>, len: int, nb: int)
    requires
        len > 0,
        layer_blocks(nb),
        nb * len == 128,
        w.len() == 256,
    ensures
        bounded(invntt_layer(w, len), 3328),
{
    let out = invntt_layer(w, len);
    assert forall|i: int| 0 <= i < 256 implies -3328 <= #[trigger] out[i] <= 3328 by {
        let (blk, off) = lemma_index_split(i, len, nb);
        let j = if off < len {
            i
        } else {
            i - len
        };
        assert(0 <= blk * (2 * len) && (blk + 1) * (2 * len) <= 256 && (blk + 1) * (2 * len)
            == blk * (2 * len) + 2 * len) by (nonlinear_arith)
            requires
                len > 0,
                nb * len == 128,
                0 <= blk < nb,
        ;
        lemma_invntt_pair(w, len, nb, blk, j);
        lemma_zeta_pair(nb, blk);
        lemma_zetas_range(128 - 2 * nb + blk);
        let d = sub16(w[j], w[j + len]);
        assert(montgomery_domain(ZETAS_INV[128 - 2 * nb + blk] * d)) by (nonlinear_arith)
            requires
                0 <= ZETAS_INV[128 - 2 * nb + blk] <= 3328,
                -32768 <= d <= 32767,
        ;
        lemma_fqmul_spec(ZETAS_INV[128 - 2 * nb + blk], d);
        assert(out[j] == invntt_butterfly(w, len, j));
        assert(out[j + len] == invntt_butterfly(w, len, j + len));
    }
}

/// The pair `j`, `j + len` of a forward layer, applied to coefficients `s`
/// that are congruent to `c` times the inverse layer of `w`: the results are
/// congruent to `2 c` times the pair of `w`.
proof fn lemma_forward_of_inverse_pair(
    w: Seq<i16>,
    s: Seq<i16>,
    len: int,
    nb: int,
    blk: int,
    j: int,
    c: int,
    b: int,
)
    requires
        len > 0,
        layer_blocks(nb),
        nb * len == 128,
        0 <= blk < nb,
        blk * (2 * len) <= j < blk * (2 * len) + len,
        bounded(w, 16383),
        bounded(s, b),
        0 <= b <= 16383,
        congruent(s[j] as int, c * invntt_layer(w, len)[j]),
        congruent(s[j + len] as int, c * invntt_layer(w, len)[j + len]),
    ensures
        0 <= j,
        j + len < 256,
        congruent(ntt_layer(s, len)[j] as int, 2 * c * w[j]),
        congruent(ntt_layer(s, len)[j + len] as int, 2 * c * w[j + len]),
{
    lemma_forward_pair(s, len, nb, blk, j, b);
    lemma_invntt_pair(w, len, nb, blk, j);
    lemma_zeta_pair(nb, blk);
    lemma_zetas_range(nb + blk);
    lemma_zetas_range(128 - 2 * nb + blk);
    let z = ZETAS[nb + blk] as int;
    let zi = ZETAS_INV[128 - 2 * nb + blk] as int;
    let t = fqmul_spec(ZETAS[nb + blk], s[j + len]) as int;
    let sum = w[j] + w[j + len];
    let d = w[j] - w[j + len];
    let i0 = invntt_layer(w, len)[j] as int;
    let i1 = invntt_layer(w, len)[j + len] as int;
    assert(i0 == invntt_butterfly(w, len, j));
    assert(i1 == invntt_butterfly(w, len, j + len));
    assert(add16(w[j], w[j + len]) == sum);
    assert(sub16(w[j], w[j + len]) == d);
    // i0 = sum and i1 = 169 zi d modulo q.
    lemma_congruent_residue(sum);
    lemma_fqmul_spec(ZETAS_INV[128 - 2 * nb + blk], sub16(w[j], w[j + len]));
    lemma_unscale(i1, zi * d);
    // s[j] = c sum and s[j + len] = c 169 zi d modulo q.
    lemma_congruent_scale(i0, sum, c);
    lemma_congruent_scale(i1, 169 * (zi * d), c);
    assert(i0 * c == c * i0 && i1 * c == c * i1) by (nonlinear_arith);
    lemma_congruent_trans(s[j] as int, c * i0, sum * c);
    lemma_congruent_trans(s[j + len] as int, c * i1, (169 * (zi * d)) * c);
    // t = 169 z s[j + len] = (28561 z zi) (c d) = c d modulo q.
    lemma_congruent_scale(s[j + len] as int, (169 * (zi * d)) * c, 169 * z);
    assert(169 * (z * s[j + len]) == s[j + len] * (169 * z)) by (nonlinear_arith);
    assert(((169 * (zi * d)) * c) * (169 * z) == (28561 * z * zi) * (c * d)) by (nonlinear_arith);
    assert(congruent(28561 * z * zi, 1)) by {
        reveal(congruent);
    }
    lemma_congruent_scale(28561 * z * zi, 1, c * d);
    assert(1 * (c * d) == c * d);
    lemma_congruent_trans(t, s[j + len] * (169 * z), (28561 * z * zi) * (c * d));
    lemma_congruent_trans(t, (28561 * z * zi) * (c * d), c * d);
    // The two results.
    lemma_congruent_sum(s[j] as int, sum * c, t, c * d);
    assert(sum * c + c * d == 2 * c * w[j] && sum * c - c * d == 2 * c * w[j + len])
        by (nonlinear_arith)
        requires
            sum == w[j] + w[j + len],
            d == w[j] - w[j + len],
    ;
}

/// A forward layer undoes an inverse layer up to a factor of two. Let `s`
/// hold coefficients each congruent to `c` times its counterpart in the
/// inverse layer of `w`, where `w` has coefficients below `2^14` in absolute
/// value. Then the forward layer of `s` is congruent to `2 c` times `w`.
proof fn lemma_forward_of_inverse_layer(
    w: Seq<i16>,
    s: Seq<i16>,
    len: int,
    nb: int,
    c: int,
    b: int,
)
    requires
        len > 0,
        layer_blocks(nb),
        nb * len == 128,
        bounded(w, 16383),
        bounded(s, b),
        0 <= b <= 16383,
        forall|i: int|
            0 <= i < 256 ==> congruent(#[trigger] s[i] as int, c * invntt_layer(w, len)[i]),
    ensures
        forall|i: int|
            0 <= i < 256 ==> congruent(#[trigger] ntt_layer(s, len)[i] as int, 2 * c * w[i]),
{
    let out = ntt_layer(s, len);
    assert forall|i: int| 0 <= i < 256 implies congruent(#[trigger] out[i] as int, 2 * c * w[i]) by {
        let (blk, off) = lemma_index_split(i, len, nb);
        let j = if off < len {
            i
        } else {
            i - len
        };
        assert(0 <= blk * (2 * len) && (blk + 1) * (2 * len) <= 256 && (blk + 1) * (2 * len)
            == blk * (2 * len) + 2 * len) by (nonlinear_arith)
            requires
                len > 0,
                nb * len == 128,
                0 <= blk < nb,
        ;
        lemma_forward_of_inverse_pair(w, s, len, nb, blk, j, c, b);
    }
}

/// Every stage of the inverse transform but its input has coefficients
/// smaller than `q` in absolute value.
proof fn lemma_inverse_stage_bounded(v: Seq<i16>, n: int)
    requires
        v.len() == 256,
        1 <= n <= 7,
    ensures
        bounded(inverse_stage(v, n), 3328),
{
    reveal_with_fuel(inverse_stage, 2);
    let w = inverse_stage(v, n - 1);
    assert(w.len() == 256) by {
        reveal_with_fuel(inverse_stage, 2);
    }
    lemma_inverse_layer_bounded(w, two_pow(n), two_pow(7 - n));
}

/// After `n` layers of the forward transform, the inverse transform of `v`
/// is back at what `v` was `n` layers before the end of the inverse
/// transform, times `512` and `2^n`, modulo `q`; 512 is what the final
/// scaling of the inverse transform multiplies by.
proof fn lemma_forward_of_inverse_stage(v: Seq<i16>, n: int)
    requires
        bounded(v, 16383),
        0 <= n <= 7,
    ensures
        bounded(invntt_spec(v), 3328),
        forall|i: int|
            0 <= i < 256 ==> congruent(
                #[trigger] forward_stage(invntt_spec(v), n)[i] as int,
                (512 * two_pow(n)) * inverse_stage(v, 7 - n)[i],
            ),
    decreases n,
{
    let y = invntt_spec(v);
    let h = inverse_stage(v, 7);
    lemma_stages(v);
    lemma_inverse_stage_bounded(v, 7);
    assert(y == invntt_scale(h));
    assert forall|i: int| 0 <= i < 256 implies -3328 <= #[trigger] y[i] <= 3328 && congruent(
        y[i] as int,
        512 * h[i],
    ) by {
        assert(y[i] == fqmul_spec(h[i], 1441));
        assert(montgomery_domain(h[i] * 1441));
        lemma_fqmul_spec(h[i], 1441);
        lemma_unscale(y[i] as int, h[i] * 1441);
        reveal(congruent);
        let k = (y[i] - 169 * (h[i] * 1441)) / 3329;
        assert(y[i] - 512 * h[i] == 3329 * (k + 73 * h[i]));
    }
    if n == 0 {
        assert forall|i: int| 0 <= i < 256 implies congruent(
            #[trigger] forward_stage(y, 0)[i] as int,
            (512 * two_pow(0)) * inverse_stage(v, 7)[i],
        ) by {
            assert(congruent(y[i] as int, 512 * h[i]));
        }
    } else {
        lemma_forward_of_inverse_stage(v, n - 1);
        let s = forward_stage(y, n - 1);
        let w = inverse_stage(v, 7 - n);
        let c = 512 * two_pow(n - 1);
        assert(bounded(y, 3329));
        lemma_forward_stage(y, n - 1);
        if n < 7 {
            lemma_inverse_stage_bounded(v, 7 - n);
        }
        assert(bounded(w, 16383));
        assert(inverse_stage(v, 8 - n) == invntt_layer(w, two_pow(8 - n)));
        lemma_forward_of_inverse_layer(
            w,
            s,
            two_pow(8 - n),
            two_pow(n - 1),
            c,
            stage_bound(n - 1),
        );
        let out = forward_stage(y, n);
        assert(out == ntt_layer(s, two_pow(8 - n)));
        assert forall|i: int| 0 <= i < 256 implies congruent(
            #[trigger] out[i] as int,
            (512 * two_pow(n)) * w[i],
        ) by {
            assert(congruent(out[i] as int, 2 * c * w[i]));
            assert(2 * two_pow(n - 1) == two_pow(n));
        }
    }
}

/// The other round trip. For coefficients below `2^14` in absolute value,
/// the forward transform of the inverse transform gives back every
/// coefficient times the Montgomery factor `2^16`, modulo `q`. So every such
/// sequence is, up to that factor, the transform of a polynomial.
pub proof fn lemma_ntt_invntt(v: Seq<i16>)
    requires
        v.len() == 256,
        forall|i: int| 0 <= i < 256 ==> -16383 <= #[trigger] v[i] <= 16383,
    ensures
        forall|i: int|
            0 <= i < 256 ==> congruent(
                #[trigger] ntt_spec(invntt_spec(v))[i] as int,
                65536 * v[i],
            ),
        forall|i: int| 0 <= i < 256 ==> -3329 < #[trigger] invntt_spec(v)[i] < 3329,
{
    assert(bounded(v, 16383));
    lemma_forward_of_inverse_stage(v, 7);
    lemma_stages(invntt_spec(v));
    assert forall|i: int| 0 <= i < 256 implies congruent(
        #[trigger] ntt_spec(invntt_spec(v))[i] as int,
        65536 * v[i],
    ) by {
        assert(congruent(
            forward_stage(invntt_spec(v), 7)[i] as int,
            (512 * two_pow(7)) * inverse_stage(v, 0)[i],
        ));
    }
}

/// Transform round trip. For a polynomial whose coefficients are at most
/// `q` in absolute value, the inverse transform of the forward transform
/// gives back every coefficient times the Montgomery factor `2^16`, modulo
/// `q`; and every coefficient of the result is smaller than `q` in absolute
/// value.
pub proof fn lemma_invntt_ntt(p: Seq<i16>)
    requires
        p.len() == 256,
        forall|i: int| 0 <= i < 256 ==> -3329 <= #[trigger] p[i] <= 3329,
    ensures
        forall|i: int|
            0 <= i < 256 ==> congruent(
                #[trigger] invntt_spec(ntt_spec(p))[i] as int,
                p[i] * 65536,
            ),
        forall|i: int| 0 <= i < 256 ==> -3329 < #[trigger] invntt_spec(ntt_spec(p))[i] < 3329,
{
    assert(bounded(p, 3329));
    let v = ntt_spec(p);
    lemma_stages(p);
    assert(v.len() == 256) by {
        reveal_with_fuel(forward_stage, 2);
    }
    assert forall|i: int| 0 <= i < 256 implies congruent(#[trigger] v[i] as int, 1 * v[i]) by {
        lemma_congruent_residue(v[i] as int);
    }
    lemma_invntt_of(p, v, 1);
    assert forall|i: int| 0 <= i < 256 implies congruent(
        #[trigger] invntt_spec(v)[i] as int,
        p[i] * 65536,
    ) by {
        assert(congruent(invntt_spec(v)[i] as int, (1 * p[i]) * 65536));
    }
}

/// Transform round trip with the reduction between the two transforms, as
/// `poly_ntt` and `poly_invntt_tomont` run them: the coefficients of the
/// forward transform may be replaced by their residues before the inverse
/// transform, the result is congruent to the same.
pub proof fn lemma_invntt_reduced_ntt(p: Seq<i16>)
    requires
        p.len() == 256,
        forall|i: int| 0 <= i < 256 ==> -3329 <= #[trigger] p[i] <= 3329,
    ensures
        ({
            let v = Seq::new(256, |i: int| (ntt_spec(p)[i] as int % 3329) as i16);
            &&& forall|i: int|
                0 <= i < 256 ==> congruent(#[trigger] invntt_spec(v)[i] as int, p[i] * 65536)
            &&& forall|i: int| 0 <= i < 256 ==> -3329 < #[trigger] invntt_spec(v)[i] < 3329
        }),
{
    assert(bounded(p, 3329));
    let v = Seq::new(256, |i: int| (ntt_spec(p)[i] as int % 3329) as i16);
    assert forall|i: int| 0 <= i < 256 implies congruent(
        #[trigger] v[i] as int,
        1 * ntt_spec(p)[i],
    ) by {
        lemma_congruent_residue(ntt_spec(p)[i] as int);
    }
    assert(bounded(v, 16383));
    lemma_invntt_of(p, v, 1);
    assert forall|i: int| 0 <= i < 256 implies congruent(
        #[trigger] invntt_spec(v)[i] as int,
        p[i] * 65536,
    ) by {
        assert(congruent(invntt_spec(v)[i] as int, (1 * p[i]) * 65536));
    }
}

/// Nothing wraps in the forward transform of a polynomial whose
/// coefficients are at most `q` in absolute value: every coefficient of the
/// transform is below `6 q` in absolute value.
pub proof fn lemma_ntt_bounded(p: Seq<i16>)
    requires
        p.len() == 256,
        forall|i: int| 0 <= i < 256 ==> -3329 <= #[trigger] p[i] <= 3329,
    ensures
        forall|i: int| 0 <= i < 256 ==> -18445 <= #[trigger] ntt_spec(p)[i] <= 18445,
{
    assert(bounded(p, 3329));
    lemma_stages(p);
    lemma_forward_stage(p, 6);
    lemma_forward_layer(forward_stage(p, 6), 2, 64, 15940);
    assert(forward_stage(p, 7) == ntt_layer(forward_stage(p, 6), 2));
}

/// What the base multiplication computes, when the second factor is smaller
/// than `q` in absolute value: nothing wraps, and with `R = 2^16` the two
/// coefficients `r0` and `r1` of the result satisfy `r0 R^2 = a1 b1 zeta +
/// a0 b0 R` and `r1 R = a0 b1 + a1 b0` modulo `q`. With `zeta` carrying the
/// factor `R`, this is the product of `a0 + a1 X` and `b0 + b1 X` modulo
/// `X^2 - zeta / R`, divided by `R`.
pub proof fn lemma_basemul_spec(a0: i16, a1: i16, b0: i16, b1: i16, zeta: i16)
    requires
        -3329 < b0 < 3329,
        -3329 < b1 < 3329,
    ensures
        ({
            let r = basemul_spec(a0, a1, b0, b1, zeta);
            &&& congruent(r.0 * 4294967296, a1 * b1 * zeta + a0 * b0 * 65536)
            &&& congruent(r.1 * 65536, a0 * b1 + a1 * b0)
            &&& -6658 < r.0 < 6658
            &&& -6658 < r.1 < 6658
        }),
{
    let x = fqmul_spec(a1, b1);
    let y = fqmul_spec(x, zeta);
    let z0 = fqmul_spec(a0, b0);
    let u = fqmul_spec(a0, b1);
    let w = fqmul_spec(a1, b0);
    assert(montgomery_domain(a1 * b1) && montgomery_domain(a0 * b0) && montgomery_domain(a0 * b1)
        && montgomery_domain(a1 * b0)) by (nonlinear_arith)
        requires
            -32768 <= a0 <= 32767,
            -32768 <= a1 <= 32767,
            -3329 < b0 < 3329,
            -3329 < b1 < 3329,
    ;
    lemma_fqmul_spec(a1, b1);
    assert(montgomery_domain(x * zeta)) by (nonlinear_arith)
        requires
            -3329 < x < 3329,
            -32768 <= zeta <= 32767,
    ;
    lemma_fqmul_spec(x, zeta);
    lemma_fqmul_spec(a0, b0);
    lemma_fqmul_spec(a0, b1);
    lemma_fqmul_spec(a1, b0);
    let r = basemul_spec(a0, a1, b0, b1, zeta);
    assert(r.0 == y + z0);
    assert(r.1 == u + w);
    // r1 R = u R + w R.
    lemma_congruent_sum(u * 65536, a0 * b1, w * 65536, a1 * b0);
    assert(r.1 * 65536 == u * 65536 + w * 65536);
    // y R^2 = (y R) R = x zeta R = (x R) zeta = a1 b1 zeta.
    lemma_congruent_scale(y * 65536, x * zeta, 65536);
    lemma_congruent_scale(x * 65536, a1 * b1, zeta as int);
    assert((x * zeta) * 65536 == (x * 65536) * zeta) by (nonlinear_arith);
    lemma_congruent_trans((y * 65536) * 65536, (x * zeta) * 65536, (a1 * b1) * zeta);
    lemma_congruent_scale(z0 * 65536, a0 * b0, 65536);
    lemma_congruent_sum(
        (y * 65536) * 65536,
        (a1 * b1) * zeta,
        (z0 * 65536) * 65536,
        (a0 * b0) * 65536,
    );
    assert(r.0 * 4294967296 == (y * 65536) * 65536 + (z0 * 65536) * 65536);
}

} // verus!
