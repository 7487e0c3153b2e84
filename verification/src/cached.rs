//! Cached powers of ten.
//!
//! A table of 87 extended-precision floats that approximate `10^k` for
//! `k` from -348 to 340 in steps of 8, each with a fraction of 64 bits, and
//! the lookup of the power that brings a binary exponent into a fixed window.

use vstd::prelude::*;
use vstd::arithmetic::power::pow;
use vstd::arithmetic::power2::pow2;
use crate::float::FloatType;
use crate::powers::lemma_power_of_ten_rounded;

verus! {

/// Number of cached powers.
pub const NPOWERS: i32 = 87;

/// The decimal exponent of the first cached power: `10^-348`.
pub const FIRSTPOWER: i32 = -348;

/// The step between the decimal exponents of two cached powers.
pub const STEPPOWERS: i32 = 8;

/// The upper end of the window for the binary exponent of a product.
pub const EXPMAX: i32 = -32;

/// The lower end of the window for the binary exponent of a product.
pub const EXPMIN: i32 = -60;

/// The least binary exponent for which a cached power reaches the window.
pub const CACHED_EXP_MIN: i32 = -1190;

/// The greatest binary exponent for which a cached power stays in the window.
pub const CACHED_EXP_MAX: i32 = 1124;

/// The fractions of the cached powers of ten.
pub const POWERS_OF_TEN_FRAC: [u64; 87] = [
    18054884314459144840, 13451937075301367670, 10022474136428063862, 14934650266808366570,
    11127181549972568877, 16580792590934885855, 12353653155963782858, 18408377700990114895,
    13715310171984221708, 10218702384817765436, 15227053142812498563, 11345038669416679861,
    16905424996341287883, 12595523146049147757, 9384396036005875287, 13983839803942852151,
    10418772551374772303, 15525180923007089351, 11567161174868858868, 17236413322193710309,
    12842128665889583758, 9568131466127621947, 14257626930069360058, 10622759856335341974,
    15829145694278690180, 11793632577567316726, 17573882009934360870, 13093562431584567480,
    9755464219737475723, 14536774485912137811, 10830740992659433045, 16139061738043178685,
    12024538023802026127, 17917957937422433684, 13349918974505688015, 9946464728195732843,
    14821387422376473014, 11042794154864902060, 16455045573212060422, 12259964326927110867,
    18268770466636286478, 13611294676837538539, 10141204801825835212, 15111572745182864684,
    11258999068426240000, 16777216000000000000, 12500000000000000000, 9313225746154785156,
    13877787807814456755, 10339757656912845936, 15407439555097886824, 11479437019748901445,
    17105694144590052135, 12744735289059618216, 9495567745759798747, 14149498560666738074,
    10542197943230523224, 15709099088952724970, 11704190886730495818, 17440603504673385349,
    12994262207056124023, 9681479787123295682, 14426529090290212157, 10748601772107342003,
    16016664761464807395, 11933345169920330789, 17782069995880619868, 13248674568444952270,
    9871031767461413346, 14708983551653345445, 10959046745042015199, 16330252207878254650,
    12166986024289022870, 18130221999122236476, 13508068024458167312, 10064294952495520794,
    14996968138956309548, 11173611982879273257, 16649979327439178909, 12405201291620119593,
    9242595204427927429, 13772540099066387757, 10261342003245940623, 15290591125556738113,
    11392378155556871081, 16975966327722178521, 12648080533535911531,
];

/// The binary exponents of the cached powers of ten.
pub const POWERS_OF_TEN_EXP: [i32; 87] = [
    -1220, -1193, -1166, -1140, -1113, -1087, -1060, -1034, -1007, -980, -954, -927,
    -901, -874, -847, -821, -794, -768, -741, -715, -688, -661, -635, -608,
    -582, -555, -529, -502, -475, -449, -422, -396, -369, -343, -316, -289,
    -263, -236, -210, -183, -157, -130, -103, -77, -50, -24, 3, 30,
    56, 83, 109, 136, 162, 189, 216, 242, 269, 295, 322, 348,
    375, 402, 428, 455, 481, 508, 534, 561, 588, 614, 641, 667,
    694, 720, 747, 774, 800, 827, 853, 880, 907, 933, 960, 986,
    1013, 1039, 1066,
];

/// The cached power at `index`.
pub open spec fn spec_power_of_ten(index: int) -> FloatType {
    FloatType { frac: POWERS_OF_TEN_FRAC[index], exp: POWERS_OF_TEN_EXP[index] }
}

/// `x` is `10^k` with the fraction rounded to the nearest integer:
/// `|frac * 2^exp - 10^k| <= 2^exp / 2`, with both sides multiplied by the
/// powers that stand in a denominator.
pub open spec fn is_rounded_power_of_ten(x: FloatType, k: int) -> bool {
    let ten_above = pow(10, if k >= 0 { k as nat } else { 0 });
    let ten_below = pow(10, if k < 0 { (-k) as nat } else { 0 });
    let two_above = pow2(if x.exp >= 0 { x.exp as nat } else { 0 }) as int;
    let two_below = pow2(if x.exp < 0 { (-x.exp) as nat } else { 0 }) as int;
    let unit = two_above * ten_below;
    -unit <= 2 * (x.frac * two_above * ten_below - ten_above * two_below) <= unit
}

/// The binary exponent of a 64-bit fraction at the exponent `exp` times
/// the cached power at `index`.
pub open spec fn product_exponent(exp: int, index: int) -> int {
    exp + POWERS_OF_TEN_EXP[index] + 64
}

/// `index` is the first cached power whose product with a value of the
/// exponent `exp` reaches the window, and that product stays in it.
pub open spec fn is_cached_index(exp: int, index: int) -> bool {
    &&& 0 <= index < 87
    &&& EXPMIN <= product_exponent(exp, index) <= EXPMAX
    &&& forall|j: int| 0 <= j < index ==> #[trigger] product_exponent(exp, j) < EXPMIN
}

/// The fraction of every cached power has its top bit set.
pub proof fn lemma_powers_normalized(i: int)
    requires
        0 <= i < 87,
    ensures
        spec_power_of_ten(i).is_normalized(),
{
    if i == 0 {
    } else if i == 1 {
    } else if i == 2 {
    } else if i == 3 {
    } else if i == 4 {
    } else if i == 5 {
    } else if i == 6 {
    } else if i == 7 {
    } else if i == 8 {
    } else if i == 9 {
    } else if i == 10 {
    } else if i == 11 {
    } else if i == 12 {
    } else if i == 13 {
    } else if i == 14 {
    } else if i == 15 {
    } else if i == 16 {
    } else if i == 17 {
    } else if i == 18 {
    } else if i == 19 {
    } else if i == 20 {
    } else if i == 21 {
    } else if i == 22 {
    } else if i == 23 {
    } else if i == 24 {
    } else if i == 25 {
    } else if i == 26 {
    } else if i == 27 {
    } else if i == 28 {
    } else if i == 29 {
    } else if i == 30 {
    } else if i == 31 {
    } else if i == 32 {
    } else if i == 33 {
    } else if i == 34 {
    } else if i == 35 {
    } else if i == 36 {
    } else if i == 37 {
    } else if i == 38 {
    } else if i == 39 {
    } else if i == 40 {
    } else if i == 41 {
    } else if i == 42 {
    } else if i == 43 {
    } else if i == 44 {
    } else if i == 45 {
    } else if i == 46 {
    } else if i == 47 {
    } else if i == 48 {
    } else if i == 49 {
    } else if i == 50 {
    } else if i == 51 {
    } else if i == 52 {
    } else if i == 53 {
    } else if i == 54 {
    } else if i == 55 {
    } else if i == 56 {
    } else if i == 57 {
    } else if i == 58 {
    } else if i == 59 {
    } else if i == 60 {
    } else if i == 61 {
    } else if i == 62 {
    } else if i == 63 {
    } else if i == 64 {
    } else if i == 65 {
    } else if i == 66 {
    } else if i == 67 {
    } else if i == 68 {
    } else if i == 69 {
    } else if i == 70 {
    } else if i == 71 {
    } else if i == 72 {
    } else if i == 73 {
    } else if i == 74 {
    } else if i == 75 {
    } else if i == 76 {
    } else if i == 77 {
    } else if i == 78 {
    } else if i == 79 {
    } else if i == 80 {
    } else if i == 81 {
    } else if i == 82 {
    } else if i == 83 {
    } else if i == 84 {
    } else if i == 85 {
    } else if i == 86 {
    }
}

/// From one cached power to the next the binary exponent grows by 26 or 27.
pub proof fn lemma_powers_step(i: int)
    requires
        0 <= i < 86,
    ensures
        26 <= POWERS_OF_TEN_EXP[i + 1] - POWERS_OF_TEN_EXP[i] <= 27,
{
    if i == 0 {
    } else if i == 1 {
    } else if i == 2 {
    } else if i == 3 {
    } else if i == 4 {
    } else if i == 5 {
    } else if i == 6 {
    } else if i == 7 {
    } else if i == 8 {
    } else if i == 9 {
    } else if i == 10 {
    } else if i == 11 {
    } else if i == 12 {
    } else if i == 13 {
    } else if i == 14 {
    } else if i == 15 {
    } else if i == 16 {
    } else if i == 17 {
    } else if i == 18 {
    } else if i == 19 {
    } else if i == 20 {
    } else if i == 21 {
    } else if i == 22 {
    } else if i == 23 {
    } else if i == 24 {
    } else if i == 25 {
    } else if i == 26 {
    } else if i == 27 {
    } else if i == 28 {
    } else if i == 29 {
    } else if i == 30 {
    } else if i == 31 {
    } else if i == 32 {
    } else if i == 33 {
    } else if i == 34 {
    } else if i == 35 {
    } else if i == 36 {
    } else if i == 37 {
    } else if i == 38 {
    } else if i == 39 {
    } else if i == 40 {
    } else if i == 41 {
    } else if i == 42 {
    } else if i == 43 {
    } else if i == 44 {
    } else if i == 45 {
    } else if i == 46 {
    } else if i == 47 {
    } else if i == 48 {
    } else if i == 49 {
    } else if i == 50 {
    } else if i == 51 {
    } else if i == 52 {
    } else if i == 53 {
    } else if i == 54 {
    } else if i == 55 {
    } else if i == 56 {
    } else if i == 57 {
    } else if i == 58 {
    } else if i == 59 {
    } else if i == 60 {
    } else if i == 61 {
    } else if i == 62 {
    } else if i == 63 {
    } else if i == 64 {
    } else if i == 65 {
    } else if i == 66 {
    } else if i == 67 {
    } else if i == 68 {
    } else if i == 69 {
    } else if i == 70 {
    } else if i == 71 {
    } else if i == 72 {
    } else if i == 73 {
    } else if i == 74 {
    } else if i == 75 {
    } else if i == 76 {
    } else if i == 77 {
    } else if i == 78 {
    } else if i == 79 {
    } else if i == 80 {
    } else if i == 81 {
    } else if i == 82 {
    } else if i == 83 {
    } else if i == 84 {
    } else if i == 85 {
    }
}

/// The binary exponents of the cached powers grow with the index.
pub proof fn lemma_powers_increase(i: int, j: int)
    requires
        0 <= i <= j < 87,
    ensures
        POWERS_OF_TEN_EXP[i] <= POWERS_OF_TEN_EXP[j],
    decreases j - i,
{
    if i < j {
        lemma_powers_step(j - 1);
        lemma_powers_increase(i, j - 1);
    }
}

/// There is one cached index for an exponent, at most.
pub proof fn lemma_cached_index_unique(exp: int, a: int, b: int)
    requires
        is_cached_index(exp, a),
        is_cached_index(exp, b),
    ensures
        a == b,
{
    if a < b {
        assert(product_exponent(exp, a) < EXPMIN);
    } else if b < a {
        assert(product_exponent(exp, b) < EXPMIN);
    }
}

/// The cached power at `index`: `10^(FIRSTPOWER + 8 * index)`, with a
/// fraction of 64 bits.
pub fn power_of_ten(index: usize) -> (power: FloatType)
    requires
        index < 87,
    ensures
        power == spec_power_of_ten(index as int),
        is_rounded_power_of_ten(power, FIRSTPOWER + 8 * index),
        power.is_normalized(),
{
    proof {
        lemma_power_of_ten_rounded(index as int);
        lemma_powers_normalized(index as int);
    }
    FloatType { frac: POWERS_OF_TEN_FRAC[index], exp: POWERS_OF_TEN_EXP[index] }
}

/// Find cached power of 10 from the exponent.
///
/// For the binary exponent `exp` of a value with a 64-bit fraction, returns
/// the cached power and its decimal exponent `k`: the first power `10^k` of
/// the table for which the exponent of the product, `exp` plus that of the
/// power plus 64, lies in the window from `EXPMIN` to `EXPMAX`. The index is
/// first estimated from `exp` times the decimal logarithm of two, and then
/// corrected step by step.
pub fn cached_power(exp: i32) -> (r: (FloatType, i32))
    requires
        CACHED_EXP_MIN <= exp <= CACHED_EXP_MAX,
    ensures
        is_cached_index(exp as int, (r.1 - FIRSTPOWER) / 8),
        r.1 == FIRSTPOWER + 8 * ((r.1 - FIRSTPOWER) / 8),
        r.0 == spec_power_of_ten((r.1 - FIRSTPOWER) / 8),
        EXPMIN <= exp + r.0.exp + 64 <= EXPMAX,
        is_rounded_power_of_ten(r.0, r.1 as int),
        r.0.is_normalized(),
{
    // Estimate the decimal exponent as -(exp + 87) * log10(2), in
    // thousandths of a percent, rounded towards zero.
    let n: i32 = -(exp + NPOWERS);
    let approx: i32 = if n >= 0 {
        (n * 30103) / 100000
    } else {
        -(((-n) * 30103) / 100000)
    };
    let offset: i32 = approx - FIRSTPOWER;
    let mut idx: usize = if offset < 0 {
        0
    } else if offset / STEPPOWERS > 86 {
        86
    } else {
        (offset / STEPPOWERS) as usize
    };
    // Step down while the power before also reaches the window.
    while idx > 0 && exp + POWERS_OF_TEN_EXP[idx - 1] + 64 >= EXPMIN
        invariant
            idx < 87,
            CACHED_EXP_MIN <= exp <= CACHED_EXP_MAX,
        decreases idx,
    {
        idx = idx - 1;
    }
    // Step up until the power reaches the window.
    while exp + POWERS_OF_TEN_EXP[idx as usize] + 64 < EXPMIN
        invariant
            idx < 87,
            CACHED_EXP_MIN <= exp <= CACHED_EXP_MAX,
            idx > 0 ==> product_exponent(exp as int, idx - 1) < EXPMIN,
        decreases 87 - idx,
    {
        idx = idx + 1;
    }
    proof {
        if idx > 0 {
            lemma_powers_step(idx - 1);
        }
        assert forall|j: int| 0 <= j < idx implies #[trigger] product_exponent(exp as int, j)
            < EXPMIN by {
            lemma_powers_increase(j, idx - 1);
        }
        lemma_power_of_ten_rounded(idx as int);
        lemma_powers_normalized(idx as int);
    }
    let k: i32 = FIRSTPOWER + (idx as i32) * STEPPOWERS;
    (power_of_ten(idx), k)
}

} // verus!
