//! The cached powers of ten are powers of ten.
//!
//! Each entry of the table is checked against the power of ten that it
//! stands for: its fraction is that power, scaled by the entry's power of
//! two and rounded to the nearest integer. The powers of ten and of two
//! that this takes are reached in steps, each a multiplication by a
//! constant, so that every check is one of linear arithmetic on large
//! numbers.

use vstd::prelude::*;
use vstd::arithmetic::power::{pow, lemma_pow_adds, lemma_pow0};
use vstd::arithmetic::power2::{pow2, lemma_pow2_adds, lemma2_to64, lemma2_to64_rest};
use crate::cached::{is_rounded_power_of_ten, spec_power_of_ten, FIRSTPOWER};

verus! {

/// `10^64`, by squaring three times.
proof fn lemma_ten_64()
    ensures
        pow(10, 8) == 100000000,
        pow(10, 64) == 10000000000000000000000000000000000000000000000000000000000000000,
{
    assert(pow(10, 8) == 100000000) by {
        reveal_with_fuel(pow, 9);
    }
    lemma_pow_adds(10, 8, 8);
    lemma_pow_adds(10, 16, 16);
    lemma_pow_adds(10, 32, 32);
    let a = pow(10, 8);
    let b = pow(10, 16);
    let c = pow(10, 32);
    assert(a * a == 10000000000000000) by (nonlinear_arith)
        requires
            a == 100000000,
    ;
    assert(b * b == 100000000000000000000000000000000) by (nonlinear_arith)
        requires
            b == 10000000000000000,
    ;
    assert(c * c == 10000000000000000000000000000000000000000000000000000000000000000)
        by (nonlinear_arith)
        requires
            c == 100000000000000000000000000000000,
    ;
}

/// `2^256`, by squaring twice.
proof fn lemma_two_256()
    ensures
        pow2(256)
            == 115792089237316195423570985008687907853269984665640564039457584007913129639936,
{
    lemma2_to64();
    lemma_pow2_adds(64, 64);
    lemma_pow2_adds(128, 128);
    let a = pow2(64) as int;
    let b = pow2(128) as int;
    assert(a * a == 340282366920938463463374607431768211456) by (nonlinear_arith)
        requires
            a == 18446744073709551616,
    ;
    assert(b * b
        == 115792089237316195423570985008687907853269984665640564039457584007913129639936)
        by (nonlinear_arith)
        requires
            b == 340282366920938463463374607431768211456,
    ;
}

/// Eight decimal places more, or sixty-four.
proof fn lemma_ten_step(n: nat)
    ensures
        pow(10, n + 8) == pow(10, n) * 100000000,
        pow(10, n + 64) == pow(10, n)
            * 10000000000000000000000000000000000000000000000000000000000000000,
{
    lemma_pow_adds(10, n, 8);
    lemma_pow_adds(10, n, 64);
    lemma_ten_64();
}

/// 26 or 27 binary places more, or 64, or 256.
proof fn lemma_two_step(n: nat)
    ensures
        pow2(n + 26) == pow2(n) * 67108864,
        pow2(n + 27) == pow2(n) * 134217728,
        pow2(n + 64) == pow2(n) * 18446744073709551616,
        pow2(n + 256) == pow2(n)
            * 115792089237316195423570985008687907853269984665640564039457584007913129639936,
{
    lemma_pow2_adds(n, 26);
    lemma_pow2_adds(n, 27);
    lemma_pow2_adds(n, 64);
    lemma_pow2_adds(n, 256);
    lemma2_to64();
    lemma_two_256();
}

/// The entry at `i`, below one, has the fraction `frac`, rounded from
/// `2^two / 10^ten`.
proof fn lemma_entry_below(i: int, frac: int, ten: nat, two: nat)
    requires
        0 <= i < 87,
        spec_power_of_ten(i).frac == frac,
        spec_power_of_ten(i).exp == -two,
        FIRSTPOWER + 8 * i == -ten,
        ten > 0,
        two > 0,
        -pow(10, ten) <= 2 * (frac * pow(10, ten) - pow2(two)) <= pow(10, ten),
    ensures
        is_rounded_power_of_ten(spec_power_of_ten(i), FIRSTPOWER + 8 * i),
{
    lemma2_to64();
    lemma_pow0(10);
    let x = spec_power_of_ten(i);
    let t = pow(10, ten);
    let p = pow2(two) as int;
    assert(x.frac * 1 * t == frac * t && 1 * p == p && 1 * t == t) by (nonlinear_arith)
        requires
            x.frac == frac,
    ;
}

/// The entry at `i`, above one, has the fraction `frac`, rounded from
/// `10^ten / 2^two`.
proof fn lemma_entry_above(i: int, frac: int, ten: nat, two: nat)
    requires
        0 <= i < 87,
        spec_power_of_ten(i).frac == frac,
        spec_power_of_ten(i).exp == two,
        FIRSTPOWER + 8 * i == ten,
        -pow2(two) <= 2 * (frac * pow2(two) - pow(10, ten)) <= pow2(two),
    ensures
        is_rounded_power_of_ten(spec_power_of_ten(i), FIRSTPOWER + 8 * i),
{
    lemma2_to64();
    lemma_pow0(10);
    let x = spec_power_of_ten(i);
    let t = pow(10, ten);
    let p = pow2(two) as int;
    assert(x.frac * p * 1 == frac * p && t * 1 == t && p * 1 == p) by (nonlinear_arith)
        requires
            x.frac == frac,
    ;
}

/// The entry at `i` has the fraction `frac`, which is `10^ten * 2^two`
/// exactly.
proof fn lemma_entry_exact(i: int, frac: int, ten: nat, two: nat)
    requires
        0 <= i < 87,
        spec_power_of_ten(i).frac == frac,
        spec_power_of_ten(i).exp == -two,
        FIRSTPOWER + 8 * i == ten,
        two > 0,
        frac == pow(10, ten) * pow2(two),
    ensures
        is_rounded_power_of_ten(spec_power_of_ten(i), FIRSTPOWER + 8 * i),
{
    lemma2_to64();
    lemma_pow0(10);
    let x = spec_power_of_ten(i);
    assert(x.frac * 1 * 1 == frac && 1 * 1 == 1) by (nonlinear_arith)
        requires
            x.frac == frac,
    ;
}

/// The entries for `10^-348` to `10^-268`.
proof fn lemma_powers_0_to_10(i: int)
    requires
        0 <= i < 11,
    ensures
        is_rounded_power_of_ten(spec_power_of_ten(i), FIRSTPOWER + 8 * i),
{
    lemma2_to64();
    lemma2_to64_rest();
    assert(pow(10, 4) == 10000) by {
        reveal_with_fuel(pow, 5);
    }
    lemma_ten_step(4);
    lemma_ten_step(68);
    lemma_ten_step(132);
    lemma_ten_step(196);
    lemma_ten_step(260);
    lemma_ten_step(268);
    lemma_ten_step(276);
    lemma_ten_step(284);
    lemma_ten_step(292);
    lemma_ten_step(300);
    lemma_ten_step(308);
    lemma_ten_step(316);
    lemma_ten_step(324);
    lemma_ten_step(332);
    lemma_ten_step(340);
    lemma_two_step(58);
    lemma_two_step(314);
    lemma_two_step(570);
    lemma_two_step(826);
    lemma_two_step(890);
    lemma_two_step(954);
    lemma_two_step(980);
    lemma_two_step(1007);
    lemma_two_step(1034);
    lemma_two_step(1060);
    lemma_two_step(1087);
    lemma_two_step(1113);
    lemma_two_step(1140);
    lemma_two_step(1166);
    lemma_two_step(1193);
    if i == 0 {
        lemma_entry_below(0, 18054884314459144840, 348, 1220);
    } else if i == 1 {
        lemma_entry_below(1, 13451937075301367670, 340, 1193);
    } else if i == 2 {
        lemma_entry_below(2, 10022474136428063862, 332, 1166);
    } else if i == 3 {
        lemma_entry_below(3, 14934650266808366570, 324, 1140);
    } else if i == 4 {
        lemma_entry_below(4, 11127181549972568877, 316, 1113);
    } else if i == 5 {
        lemma_entry_below(5, 16580792590934885855, 308, 1087);
    } else if i == 6 {
        lemma_entry_below(6, 12353653155963782858, 300, 1060);
    } else if i == 7 {
        lemma_entry_below(7, 18408377700990114895, 292, 1034);
    } else if i == 8 {
        lemma_entry_below(8, 13715310171984221708, 284, 1007);
    } else if i == 9 {
        lemma_entry_below(9, 10218702384817765436, 276, 980);
    } else if i == 10 {
        lemma_entry_below(10, 15227053142812498563, 268, 954);
    }
}

/// The entries for `10^-260` to `10^-180`.
proof fn lemma_powers_11_to_21(i: int)
    requires
        11 <= i < 22,
    ensures
        is_rounded_power_of_ten(spec_power_of_ten(i), FIRSTPOWER + 8 * i),
{
    lemma2_to64();
    lemma2_to64_rest();
    assert(pow(10, 4) == 10000) by {
        reveal_with_fuel(pow, 5);
    }
    lemma_ten_step(4);
    lemma_ten_step(68);
    lemma_ten_step(132);
    lemma_ten_step(140);
    lemma_ten_step(148);
    lemma_ten_step(156);
    lemma_ten_step(164);
    lemma_ten_step(172);
    lemma_ten_step(180);
    lemma_ten_step(188);
    lemma_ten_step(196);
    lemma_ten_step(204);
    lemma_ten_step(212);
    lemma_ten_step(220);
    lemma_ten_step(228);
    lemma_ten_step(236);
    lemma_ten_step(244);
    lemma_ten_step(252);
    lemma_two_step(21);
    lemma_two_step(277);
    lemma_two_step(533);
    lemma_two_step(597);
    lemma_two_step(661);
    lemma_two_step(688);
    lemma_two_step(715);
    lemma_two_step(741);
    lemma_two_step(768);
    lemma_two_step(794);
    lemma_two_step(821);
    lemma_two_step(847);
    lemma_two_step(874);
    lemma_two_step(901);
    if i == 11 {
        lemma_entry_below(11, 11345038669416679861, 260, 927);
    } else if i == 12 {
        lemma_entry_below(12, 16905424996341287883, 252, 901);
    } else if i == 13 {
        lemma_entry_below(13, 12595523146049147757, 244, 874);
    } else if i == 14 {
        lemma_entry_below(14, 9384396036005875287, 236, 847);
    } else if i == 15 {
        lemma_entry_below(15, 13983839803942852151, 228, 821);
    } else if i == 16 {
        lemma_entry_below(16, 10418772551374772303, 220, 794);
    } else if i == 17 {
        lemma_entry_below(17, 15525180923007089351, 212, 768);
    } else if i == 18 {
        lemma_entry_below(18, 11567161174868858868, 204, 741);
    } else if i == 19 {
        lemma_entry_below(19, 17236413322193710309, 196, 715);
    } else if i == 20 {
        lemma_entry_below(20, 12842128665889583758, 188, 688);
    } else if i == 21 {
        lemma_entry_below(21, 9568131466127621947, 180, 661);
    }
}

/// The entries for `10^-172` to `10^-92`.
proof fn lemma_powers_22_to_32(i: int)
    requires
        22 <= i < 33,
    ensures
        is_rounded_power_of_ten(spec_power_of_ten(i), FIRSTPOWER + 8 * i),
{
    lemma2_to64();
    lemma2_to64_rest();
    assert(pow(10, 4) == 10000) by {
        reveal_with_fuel(pow, 5);
    }
    lemma_ten_step(4);
    lemma_ten_step(68);
    lemma_ten_step(76);
    lemma_ten_step(84);
    lemma_ten_step(92);
    lemma_ten_step(100);
    lemma_ten_step(108);
    lemma_ten_step(116);
    lemma_ten_step(124);
    lemma_ten_step(132);
    lemma_ten_step(140);
    lemma_ten_step(148);
    lemma_ten_step(156);
    lemma_ten_step(164);
    lemma_two_step(49);
    lemma_two_step(305);
    lemma_two_step(369);
    lemma_two_step(396);
    lemma_two_step(422);
    lemma_two_step(449);
    lemma_two_step(475);
    lemma_two_step(502);
    lemma_two_step(529);
    lemma_two_step(555);
    lemma_two_step(582);
    lemma_two_step(608);
    if i == 22 {
        lemma_entry_below(22, 14257626930069360058, 172, 635);
    } else if i == 23 {
        lemma_entry_below(23, 10622759856335341974, 164, 608);
    } else if i == 24 {
        lemma_entry_below(24, 15829145694278690180, 156, 582);
    } else if i == 25 {
        lemma_entry_below(25, 11793632577567316726, 148, 555);
    } else if i == 26 {
        lemma_entry_below(26, 17573882009934360870, 140, 529);
    } else if i == 27 {
        lemma_entry_below(27, 13093562431584567480, 132, 502);
    } else if i == 28 {
        lemma_entry_below(28, 9755464219737475723, 124, 475);
    } else if i == 29 {
        lemma_entry_below(29, 14536774485912137811, 116, 449);
    } else if i == 30 {
        lemma_entry_below(30, 10830740992659433045, 108, 422);
    } else if i == 31 {
        lemma_entry_below(31, 16139061738043178685, 100, 396);
    } else if i == 32 {
        lemma_entry_below(32, 12024538023802026127, 92, 369);
    }
}

/// The entries for `10^-84` to `10^-4`.
proof fn lemma_powers_33_to_43(i: int)
    requires
        33 <= i < 44,
    ensures
        is_rounded_power_of_ten(spec_power_of_ten(i), FIRSTPOWER + 8 * i),
{
    lemma2_to64();
    lemma2_to64_rest();
    assert(pow(10, 4) == 10000) by {
        reveal_with_fuel(pow, 5);
    }
    lemma_ten_step(4);
    lemma_ten_step(12);
    lemma_ten_step(20);
    lemma_ten_step(28);
    lemma_ten_step(36);
    lemma_ten_step(44);
    lemma_ten_step(52);
    lemma_ten_step(60);
    lemma_ten_step(68);
    lemma_ten_step(76);
    lemma_two_step(13);
    lemma_two_step(77);
    lemma_two_step(103);
    lemma_two_step(130);
    lemma_two_step(157);
    lemma_two_step(183);
    lemma_two_step(210);
    lemma_two_step(236);
    lemma_two_step(263);
    lemma_two_step(289);
    lemma_two_step(316);
    if i == 33 {
        lemma_entry_below(33, 17917957937422433684, 84, 343);
    } else if i == 34 {
        lemma_entry_below(34, 13349918974505688015, 76, 316);
    } else if i == 35 {
        lemma_entry_below(35, 9946464728195732843, 68, 289);
    } else if i == 36 {
        lemma_entry_below(36, 14821387422376473014, 60, 263);
    } else if i == 37 {
        lemma_entry_below(37, 11042794154864902060, 52, 236);
    } else if i == 38 {
        lemma_entry_below(38, 16455045573212060422, 44, 210);
    } else if i == 39 {
        lemma_entry_below(39, 12259964326927110867, 36, 183);
    } else if i == 40 {
        lemma_entry_below(40, 18268770466636286478, 28, 157);
    } else if i == 41 {
        lemma_entry_below(41, 13611294676837538539, 20, 130);
    } else if i == 42 {
        lemma_entry_below(42, 10141204801825835212, 12, 103);
    } else if i == 43 {
        lemma_entry_below(43, 15111572745182864684, 4, 77);
    }
}

/// The entries for `10^4` and `10^12`.
proof fn lemma_powers_44_to_45(i: int)
    requires
        44 <= i < 46,
    ensures
        is_rounded_power_of_ten(spec_power_of_ten(i), FIRSTPOWER + 8 * i),
{
    lemma2_to64();
    lemma_two_step(24);
    assert(pow(10, 4) == 10000) by {
        reveal_with_fuel(pow, 5);
    }
    lemma_ten_step(4);
    if i == 44 {
        lemma_entry_exact(44, 11258999068426240000, 4, 50);
    } else {
        lemma_entry_exact(45, 16777216000000000000, 12, 24);
    }
}

/// The entries for `10^20` to `10^100`.
proof fn lemma_powers_46_to_56(i: int)
    requires
        46 <= i < 57,
    ensures
        is_rounded_power_of_ten(spec_power_of_ten(i), FIRSTPOWER + 8 * i),
{
    lemma2_to64();
    lemma2_to64_rest();
    assert(pow(10, 4) == 10000) by {
        reveal_with_fuel(pow, 5);
    }
    lemma_ten_step(4);
    lemma_ten_step(12);
    lemma_ten_step(20);
    lemma_ten_step(28);
    lemma_ten_step(36);
    lemma_ten_step(44);
    lemma_ten_step(52);
    lemma_ten_step(60);
    lemma_ten_step(68);
    lemma_ten_step(76);
    lemma_ten_step(84);
    lemma_ten_step(92);
    lemma_two_step(3);
    lemma_two_step(30);
    lemma_two_step(56);
    lemma_two_step(83);
    lemma_two_step(109);
    lemma_two_step(136);
    lemma_two_step(162);
    lemma_two_step(189);
    lemma_two_step(216);
    lemma_two_step(242);
    if i == 46 {
        lemma_entry_above(46, 12500000000000000000, 20, 3);
    } else if i == 47 {
        lemma_entry_above(47, 9313225746154785156, 28, 30);
    } else if i == 48 {
        lemma_entry_above(48, 13877787807814456755, 36, 56);
    } else if i == 49 {
        lemma_entry_above(49, 10339757656912845936, 44, 83);
    } else if i == 50 {
        lemma_entry_above(50, 15407439555097886824, 52, 109);
    } else if i == 51 {
        lemma_entry_above(51, 11479437019748901445, 60, 136);
    } else if i == 52 {
        lemma_entry_above(52, 17105694144590052135, 68, 162);
    } else if i == 53 {
        lemma_entry_above(53, 12744735289059618216, 76, 189);
    } else if i == 54 {
        lemma_entry_above(54, 9495567745759798747, 84, 216);
    } else if i == 55 {
        lemma_entry_above(55, 14149498560666738074, 92, 242);
    } else if i == 56 {
        lemma_entry_above(56, 10542197943230523224, 100, 269);
    }
}

/// The entries for `10^108` to `10^188`.
proof fn lemma_powers_57_to_67(i: int)
    requires
        57 <= i < 68,
    ensures
        is_rounded_power_of_ten(spec_power_of_ten(i), FIRSTPOWER + 8 * i),
{
    lemma2_to64();
    lemma2_to64_rest();
    assert(pow(10, 4) == 10000) by {
        reveal_with_fuel(pow, 5);
    }
    lemma_ten_step(4);
    lemma_ten_step(68);
    lemma_ten_step(76);
    lemma_ten_step(84);
    lemma_ten_step(92);
    lemma_ten_step(100);
    lemma_ten_step(108);
    lemma_ten_step(116);
    lemma_ten_step(124);
    lemma_ten_step(132);
    lemma_ten_step(140);
    lemma_ten_step(148);
    lemma_ten_step(156);
    lemma_ten_step(164);
    lemma_ten_step(172);
    lemma_ten_step(180);
    lemma_two_step(39);
    lemma_two_step(295);
    lemma_two_step(322);
    lemma_two_step(348);
    lemma_two_step(375);
    lemma_two_step(402);
    lemma_two_step(428);
    lemma_two_step(455);
    lemma_two_step(481);
    lemma_two_step(508);
    lemma_two_step(534);
    if i == 57 {
        lemma_entry_above(57, 15709099088952724970, 108, 295);
    } else if i == 58 {
        lemma_entry_above(58, 11704190886730495818, 116, 322);
    } else if i == 59 {
        lemma_entry_above(59, 17440603504673385349, 124, 348);
    } else if i == 60 {
        lemma_entry_above(60, 12994262207056124023, 132, 375);
    } else if i == 61 {
        lemma_entry_above(61, 9681479787123295682, 140, 402);
    } else if i == 62 {
        lemma_entry_above(62, 14426529090290212157, 148, 428);
    } else if i == 63 {
        lemma_entry_above(63, 10748601772107342003, 156, 455);
    } else if i == 64 {
        lemma_entry_above(64, 16016664761464807395, 164, 481);
    } else if i == 65 {
        lemma_entry_above(65, 11933345169920330789, 172, 508);
    } else if i == 66 {
        lemma_entry_above(66, 17782069995880619868, 180, 534);
    } else if i == 67 {
        lemma_entry_above(67, 13248674568444952270, 188, 561);
    }
}

/// The entries for `10^196` to `10^276`.
proof fn lemma_powers_68_to_78(i: int)
    requires
        68 <= i < 79,
    ensures
        is_rounded_power_of_ten(spec_power_of_ten(i), FIRSTPOWER + 8 * i),
{
    lemma2_to64();
    lemma2_to64_rest();
    assert(pow(10, 4) == 10000) by {
        reveal_with_fuel(pow, 5);
    }
    lemma_ten_step(4);
    lemma_ten_step(68);
    lemma_ten_step(132);
    lemma_ten_step(196);
    lemma_ten_step(204);
    lemma_ten_step(212);
    lemma_ten_step(220);
    lemma_ten_step(228);
    lemma_ten_step(236);
    lemma_ten_step(244);
    lemma_ten_step(252);
    lemma_ten_step(260);
    lemma_ten_step(268);
    lemma_two_step(12);
    lemma_two_step(268);
    lemma_two_step(524);
    lemma_two_step(588);
    lemma_two_step(614);
    lemma_two_step(641);
    lemma_two_step(667);
    lemma_two_step(694);
    lemma_two_step(720);
    lemma_two_step(747);
    lemma_two_step(774);
    lemma_two_step(800);
    lemma_two_step(827);
    if i == 68 {
        lemma_entry_above(68, 9871031767461413346, 196, 588);
    } else if i == 69 {
        lemma_entry_above(69, 14708983551653345445, 204, 614);
    } else if i == 70 {
        lemma_entry_above(70, 10959046745042015199, 212, 641);
    } else if i == 71 {
        lemma_entry_above(71, 16330252207878254650, 220, 667);
    } else if i == 72 {
        lemma_entry_above(72, 12166986024289022870, 228, 694);
    } else if i == 73 {
        lemma_entry_above(73, 18130221999122236476, 236, 720);
    } else if i == 74 {
        lemma_entry_above(74, 13508068024458167312, 244, 747);
    } else if i == 75 {
        lemma_entry_above(75, 10064294952495520794, 252, 774);
    } else if i == 76 {
        lemma_entry_above(76, 14996968138956309548, 260, 800);
    } else if i == 77 {
        lemma_entry_above(77, 11173611982879273257, 268, 827);
    } else if i == 78 {
        lemma_entry_above(78, 16649979327439178909, 276, 853);
    }
}

/// The entries for `10^284` to `10^340`.
proof fn lemma_powers_79_to_86(i: int)
    requires
        79 <= i < 87,
    ensures
        is_rounded_power_of_ten(spec_power_of_ten(i), FIRSTPOWER + 8 * i),
{
    lemma2_to64();
    lemma2_to64_rest();
    assert(pow(10, 4) == 10000) by {
        reveal_with_fuel(pow, 5);
    }
    lemma_ten_step(4);
    lemma_ten_step(68);
    lemma_ten_step(132);
    lemma_ten_step(196);
    lemma_ten_step(260);
    lemma_ten_step(268);
    lemma_ten_step(276);
    lemma_ten_step(284);
    lemma_ten_step(292);
    lemma_ten_step(300);
    lemma_ten_step(308);
    lemma_ten_step(316);
    lemma_ten_step(324);
    lemma_ten_step(332);
    lemma_two_step(48);
    lemma_two_step(304);
    lemma_two_step(560);
    lemma_two_step(816);
    lemma_two_step(880);
    lemma_two_step(907);
    lemma_two_step(933);
    lemma_two_step(960);
    lemma_two_step(986);
    lemma_two_step(1013);
    lemma_two_step(1039);
    if i == 79 {
        lemma_entry_above(79, 12405201291620119593, 284, 880);
    } else if i == 80 {
        lemma_entry_above(80, 9242595204427927429, 292, 907);
    } else if i == 81 {
        lemma_entry_above(81, 13772540099066387757, 300, 933);
    } else if i == 82 {
        lemma_entry_above(82, 10261342003245940623, 308, 960);
    } else if i == 83 {
        lemma_entry_above(83, 15290591125556738113, 316, 986);
    } else if i == 84 {
        lemma_entry_above(84, 11392378155556871081, 324, 1013);
    } else if i == 85 {
        lemma_entry_above(85, 16975966327722178521, 332, 1039);
    } else if i == 86 {
        lemma_entry_above(86, 12648080533535911531, 340, 1066);
    }
}

/// Every cached power is the power of ten of its place in the table,
/// rounded to a fraction of 64 bits.
pub proof fn lemma_power_of_ten_rounded(i: int)
    requires
        0 <= i < 87,
    ensures
        is_rounded_power_of_ten(spec_power_of_ten(i), FIRSTPOWER + 8 * i),
{
    if i < 11 {
        lemma_powers_0_to_10(i);
    } else if i < 22 {
        lemma_powers_11_to_21(i);
    } else if i < 33 {
        lemma_powers_22_to_32(i);
    } else if i < 44 {
        lemma_powers_33_to_43(i);
    } else if i < 46 {
        lemma_powers_44_to_45(i);
    } else if i < 57 {
        lemma_powers_46_to_56(i);
    } else if i < 68 {
        lemma_powers_57_to_67(i);
    } else if i < 79 {
        lemma_powers_68_to_78(i);
    } else if i < 87 {
        lemma_powers_79_to_86(i);
    }
}

} // verus!
