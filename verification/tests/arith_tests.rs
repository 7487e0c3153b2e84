use radix_format::arith::{MUL_LIMIT, MUL_SHIFT};
use radix_format::float::FloatType;

fn as_f64(x: &FloatType) -> f64 {
    f64::from_bits(x.as_f64())
}

#[test]
fn float_constants_test() {
    assert_eq!(FloatType::F32_SIGN_MASK, 0x0000000080000000);
    assert_eq!(FloatType::F32_EXPONENT_MASK, 0x000000007F800000);
    assert_eq!(FloatType::F32_HIDDEN_BIT_MASK, 0x0000000000800000);
    assert_eq!(FloatType::F32_FRACTION_MASK, 0x00000000007FFFFF);
    assert_eq!(FloatType::F64_SIGN_MASK, 0x8000000000000000);
    assert_eq!(FloatType::F64_EXPONENT_MASK, 0x7FF0000000000000);
    assert_eq!(FloatType::F64_HIDDEN_BIT_MASK, 0x0010000000000000);
    assert_eq!(FloatType::F64_FRACTION_MASK, 0x000FFFFFFFFFFFFF);
    assert_eq!(FloatType::U32_INFINITY, f32::INFINITY.to_bits());
    assert_eq!(FloatType::U64_INFINITY, f64::INFINITY.to_bits());
    assert_eq!(FloatType::F32_EXPONENT_SIZE, 32 - 23 - 1);
    assert_eq!(FloatType::F32_EXPONENT_BIAS, 127 + 23);
    assert_eq!(FloatType::F32_DENORMAL_EXPONENT, -FloatType::F32_EXPONENT_BIAS + 1);
    assert_eq!(FloatType::F32_MAX_EXPONENT, 0xFF - FloatType::F32_EXPONENT_BIAS);
    assert_eq!(FloatType::F32_MIN_EXPONENT, -FloatType::F32_EXPONENT_BIAS);
    assert_eq!(FloatType::F64_EXPONENT_SIZE, 64 - 52 - 1);
    assert_eq!(FloatType::F64_EXPONENT_BIAS, 1023 + 52);
    assert_eq!(FloatType::F64_DENORMAL_EXPONENT, -FloatType::F64_EXPONENT_BIAS + 1);
    assert_eq!(FloatType::F64_MAX_EXPONENT, 0x7FF - FloatType::F64_EXPONENT_BIAS);
    assert_eq!(FloatType::F64_MIN_EXPONENT, -FloatType::F64_EXPONENT_BIAS);
}

#[test]
fn add_unchecked_test() {
    let x = FloatType { frac: 5, exp: 7 };
    let y = FloatType { frac: 9, exp: 7 };
    assert_eq!(x.add_unchecked(&y), FloatType { frac: 14, exp: 7 });
    // The sum takes 65 bits: the halves are added at the next exponent.
    let x = FloatType { frac: u64::MAX, exp: -3 };
    let y = FloatType { frac: 3, exp: -3 };
    assert_eq!(x.add_unchecked(&y), FloatType { frac: (u64::MAX >> 1) + 1, exp: -2 });
    let x = FloatType { frac: 1 << 63, exp: 0 };
    assert_eq!(x.add_unchecked(&x), FloatType { frac: 1 << 63, exp: 1 });
}

#[test]
fn add_less_equal_test() {
    // Equal exponents.
    let x = FloatType { frac: 3, exp: 2 };
    let y = FloatType { frac: 4, exp: 2 };
    assert_eq!(x.add_less_equal(&y), FloatType { frac: 7, exp: 2 });
    // The smaller exponent is brought up; the bits below are dropped.
    let x = FloatType { frac: 3, exp: 2 };
    let y = FloatType { frac: 0b1011, exp: 0 };
    assert_eq!(x.add_less_equal(&y), FloatType { frac: 5, exp: 2 });
    // 63 bits apart.
    let x = FloatType { frac: 1, exp: 63 };
    let y = FloatType { frac: u64::MAX, exp: 0 };
    assert_eq!(x.add_less_equal(&y), FloatType { frac: 2, exp: 63 });
    // 64 bits apart or more: insignificant.
    let x = FloatType { frac: 1, exp: 64 };
    assert_eq!(x.add_less_equal(&y), x);
    let x = FloatType { frac: 1, exp: i32::MAX };
    let y = FloatType { frac: u64::MAX, exp: i32::MIN };
    assert_eq!(x.add_less_equal(&y), x);
}

#[test]
fn add_order_test() {
    let x = FloatType { frac: 3, exp: 2 };
    let y = FloatType { frac: 0b1011, exp: 0 };
    assert_eq!(x.add(&y), FloatType { frac: 5, exp: 2 });
    assert_eq!(y.add(&x), FloatType { frac: 5, exp: 2 });
    assert_eq!(x.add(&x), FloatType { frac: 6, exp: 2 });
}

#[test]
fn add_u64_test() {
    let x = FloatType { frac: 1, exp: 4 };
    assert_eq!(x.add_u64(35), FloatType { frac: 3, exp: 4 });
    assert_eq!(x.add_less_equal_u64(35), FloatType { frac: 3, exp: 4 });
    let x = FloatType { frac: 1 << 20, exp: -4 };
    assert_eq!(x.add_u64(3), FloatType { frac: 3 + (1 << 16), exp: 0 });
    let x = FloatType { frac: 7, exp: 0 };
    assert_eq!(x.add_u64(8), FloatType { frac: 15, exp: 0 });
    assert_eq!(x.add_less_equal_u64(8), FloatType { frac: 15, exp: 0 });
    assert_eq!(as_f64(&FloatType::from_u64(12).add_u64(30)), 42.0);
}

#[test]
fn sub_unchecked_test() {
    let x = FloatType { frac: 10, exp: -5 };
    let y = FloatType { frac: 4, exp: -5 };
    assert_eq!(x.sub_unchecked(&y), FloatType { frac: 6, exp: -5 });
    assert_eq!(x.sub_unchecked(&x), FloatType { frac: 0, exp: -5 });
}

#[test]
fn fast_multiply_test() {
    // 1.0 * 1.0, both normalized.
    let one = FloatType { frac: 1 << 63, exp: -63 };
    assert_eq!(one.fast_multiply(&one), FloatType { frac: 1 << 62, exp: -62 });
    // 3 * 5 = 15.
    let x = FloatType { frac: 3 << 62, exp: -62 };
    let y = FloatType { frac: 5 << 61, exp: -61 };
    let z = x.fast_multiply(&y);
    assert_eq!(z, FloatType { frac: 15 << 59, exp: -59 });
    assert_eq!(as_f64(&z), 15.0);
    // The lower half is rounded, a half upwards.
    let x = FloatType { frac: 1 << 32, exp: 0 };
    let y = FloatType { frac: 1 << 31, exp: 0 };
    assert_eq!(x.fast_multiply(&y), FloatType { frac: 1, exp: 64 });
    let y = FloatType { frac: (1 << 31) - 1, exp: 0 };
    assert_eq!(x.fast_multiply(&y), FloatType { frac: 0, exp: 64 });
    let x = FloatType { frac: u64::MAX, exp: 0 };
    assert_eq!(x.fast_multiply(&x), FloatType { frac: u64::MAX - 1, exp: 64 });
    // 10^4 * 10^12 = 10^16, by the cached powers.
    let x = FloatType { frac: 11258999068426240000, exp: -50 };
    let y = FloatType { frac: 16777216000000000000, exp: -24 };
    assert_eq!(as_f64(&x.fast_multiply(&y)), 1e16);
}

#[test]
fn mul_tables_test() {
    for n in 2..=36u64 {
        let bits = 64 - n.leading_zeros() as i32;
        if n.is_power_of_two() {
            assert_eq!(MUL_LIMIT[n as usize], 0);
            assert_eq!(MUL_SHIFT[n as usize], bits - 1);
        } else {
            assert_eq!(MUL_LIMIT[n as usize], u64::MAX / n + 1);
            assert_eq!(MUL_SHIFT[n as usize], bits);
        }
    }
}

#[test]
fn mul_n_test() {
    let x = FloatType { frac: 7, exp: 3 };
    assert_eq!(x.mul_n(2), FloatType { frac: 7, exp: 4 });
    assert_eq!(x.mul_n(3), FloatType { frac: 21, exp: 3 });
    assert_eq!(x.mul_n(8), FloatType { frac: 7, exp: 6 });
    assert_eq!(x.mul_n(10), FloatType { frac: 70, exp: 3 });
    assert_eq!(x.mul_n(32), FloatType { frac: 7, exp: 8 });
    assert_eq!(x.mul_n(36), FloatType { frac: 252, exp: 3 });
    assert_eq!(as_f64(&FloatType::from_u8(1).mul_n(36)), 36.0);
    // The product would not fit: the fraction is shifted right first.
    let x = FloatType { frac: u64::MAX, exp: 0 };
    assert_eq!(x.mul_n(10), FloatType { frac: (u64::MAX >> 4) * 10, exp: 4 });
    assert_eq!(x.mul_n(3), FloatType { frac: (u64::MAX >> 2) * 3, exp: 2 });
    assert_eq!(x.mul_n(36), FloatType { frac: (u64::MAX >> 6) * 36, exp: 6 });
    // The largest fraction whose product fits, and the next.
    let x = FloatType { frac: u64::MAX / 10, exp: 0 };
    assert_eq!(x.mul_n(10), FloatType { frac: 18446744073709551610, exp: 0 });
    let x = FloatType { frac: u64::MAX / 10 + 1, exp: 0 };
    assert_eq!(x.mul_n(10), FloatType { frac: ((u64::MAX / 10 + 1) >> 4) * 10, exp: 4 });
}

#[test]
fn mul_n_checked_test() {
    // Past `F64_MAX_EXPONENT` the checked product leaves the value; at it,
    // the product is still taken.
    let x = FloatType { frac: 7, exp: FloatType::F64_MAX_EXPONENT + 1 };
    let y = FloatType { frac: 7, exp: FloatType::F64_MAX_EXPONENT };
    for n in 2..=36u64 {
        assert_eq!(x.mul_n(n), x);
        assert_eq!(x.mul_n_unchecked(n).exp >= x.exp, true);
        assert_eq!(y.mul_n(n), y.mul_n_unchecked(n));
    }
    assert_eq!(x.mul_n_unchecked(10), FloatType { frac: 70, exp: 973 });
    assert_eq!(x.mul_n_unchecked(16), FloatType { frac: 7, exp: 977 });
    assert_eq!(y.mul_n(10), FloatType { frac: 70, exp: 972 });
    assert_eq!(y.mul_n(16), FloatType { frac: 7, exp: 976 });
    assert_eq!(FloatType { frac: 1, exp: 972 }.mul_n(3), FloatType { frac: 3, exp: 972 });
    assert_eq!(FloatType { frac: 1, exp: 973 }.mul_n(3), FloatType { frac: 1, exp: 973 });
    let top = FloatType { frac: 7, exp: i32::MAX };
    assert_eq!(top.mul_n(36), top);
}

#[test]
fn normalized_boundaries_test() {
    // 1.0: the fraction is the hidden bit alone.
    let x = FloatType { frac: 1 << 52, exp: -52 };
    let (lower, upper) = x.normalized_boundaries();
    assert_eq!(upper, FloatType { frac: ((1 << 53) + 1) << 10, exp: -63 });
    assert_eq!(lower, FloatType { frac: ((1 << 54) - 1) << 9, exp: -63 });
    // 1.5
    let x = FloatType { frac: 3 << 51, exp: -52 };
    let (lower, upper) = x.normalized_boundaries();
    assert_eq!(upper, FloatType { frac: ((3 << 52) + 1) << 10, exp: -63 });
    assert_eq!(lower, FloatType { frac: ((3 << 52) - 1) << 10, exp: -63 });
    // The smallest denormal.
    let x = FloatType { frac: 1, exp: -1074 };
    let (lower, upper) = x.normalized_boundaries();
    assert_eq!(upper, FloatType { frac: 3 << 62, exp: -1137 });
    assert_eq!(lower, FloatType { frac: 1 << 62, exp: -1137 });
    assert_eq!(lower.exp, upper.exp);
}

#[test]
fn normalize_idempotent_test() {
    let values: [FloatType; 5] = [
        FloatType { frac: 1, exp: 0 },
        FloatType { frac: 71362, exp: -149 },
        FloatType { frac: 1 << 63, exp: 12 },
        FloatType { frac: u64::MAX, exp: -7 },
        FloatType { frac: 6448907850777164, exp: -883 },
    ];
    for value in values.iter() {
        let mut once = *value;
        once.normalize();
        assert!(once.frac >= 1 << 63);
        // The same number: the fraction only moved up.
        assert!(once.exp <= value.exp);
        assert_eq!(once.frac >> (value.exp - once.exp), value.frac);
        let mut twice = once;
        twice.normalize();
        assert_eq!(twice, once);
    }
    // Zero stays zero, and its exponent drops by 63 each time.
    let mut zero = FloatType { frac: 0, exp: 0 };
    zero.normalize();
    assert_eq!(zero, FloatType { frac: 0, exp: -63 });
    zero.normalize();
    assert_eq!(zero, FloatType { frac: 0, exp: -126 });
}

#[test]
fn float_bits_round_trip_test() {
    let doubles: [f64; 10] = [
        0.0,
        5e-324,
        2.2250738585072009e-308,
        2.2250738585072014e-308,
        1e-45,
        0.1,
        1.0,
        123.45,
        1e300,
        1.7976931348623157e308,
    ];
    for value in doubles.iter() {
        let x = FloatType::from_f64(value.to_bits());
        assert_eq!(x.as_f64(), value.to_bits());
    }
    let floats: [f32; 8] = [0.0, 1e-45, 1.1754942e-38, 1.17549435e-38, 0.1, 1.0, 1e20, 3.402823e38];
    for value in floats.iter() {
        let x = FloatType::from_f32(value.to_bits());
        assert_eq!(x.as_f32(), value.to_bits());
    }
}

#[test]
fn as_float_extremes_test() {
    // Far outside the range of any float.
    assert_eq!(FloatType { frac: 1, exp: i32::MIN }.as_f64(), 0);
    assert_eq!(FloatType { frac: u64::MAX, exp: i32::MIN }.as_f32(), 0);
    assert_eq!(FloatType { frac: 1, exp: -2000 }.as_f64(), 0);
    assert_eq!(FloatType { frac: 1, exp: 2000 }.as_f64(), f64::INFINITY.to_bits());
    assert_eq!(FloatType { frac: 1, exp: i32::MAX }.as_f64(), f64::INFINITY.to_bits());
    assert_eq!(FloatType { frac: 1, exp: i32::MAX }.as_f32(), f32::INFINITY.to_bits());
    assert_eq!(FloatType { frac: 0, exp: i32::MAX }.as_f64(), 0);
    assert_eq!(FloatType { frac: 0, exp: i32::MIN }.as_f32(), 0);
    // Ties go to the even fraction.
    assert_eq!(f64::from_bits(FloatType { frac: (1 << 53) + 1, exp: 0 }.as_f64()), 9007199254740992.0);
    assert_eq!(f64::from_bits(FloatType { frac: (1 << 53) + 3, exp: 0 }.as_f64()), 9007199254740996.0);
    assert_eq!(f32::from_bits(FloatType { frac: (1 << 24) + 1, exp: 0 }.as_f32()), 16777216.0);
    assert_eq!(f32::from_bits(FloatType { frac: (1 << 24) + 3, exp: 0 }.as_f32()), 16777220.0);
    // Rounding that carries into the next power of two.
    assert_eq!(f64::from_bits(FloatType { frac: u64::MAX, exp: 0 }.as_f64()), 18446744073709551616.0);
    assert_eq!(f32::from_bits(FloatType { frac: u64::MAX, exp: 0 }.as_f32()), 18446744073709551616.0);
}

#[test]
fn as_f32_denormal_test() {
    // Multiples of a quarter of the smallest denormal, 2^-149: rounded once,
    // to the nearest, a tie to the even fraction.
    let expected: [u32; 13] = [0, 0, 0, 1, 1, 1, 2, 2, 2, 2, 2, 3, 3];
    for quarters in 0..13u64 {
        let x = FloatType { frac: quarters, exp: -151 };
        assert_eq!(x.as_f32(), expected[quarters as usize], "{} quarters", quarters);
    }
    assert_eq!(FloatType { frac: 7, exp: -151 }.as_f32(), 2);
    assert_eq!(FloatType { frac: 3, exp: -151 }.as_f32(), 1);
    assert_eq!(FloatType { frac: 1, exp: -149 }.as_f32(), 1);
    // Half of the smallest denormal is a tie with zero; a little more is not.
    assert_eq!(FloatType { frac: 1 << 63, exp: -213 }.as_f32(), 0);
    assert_eq!(FloatType { frac: (1 << 63) + 1, exp: -213 }.as_f32(), 1);
    assert_eq!(FloatType { frac: u64::MAX, exp: -214 }.as_f32(), 0);
    // Up to the smallest normal float, 2^-126.
    assert_eq!(FloatType { frac: (1 << 24) - 1, exp: -150 }.as_f32(), 0x0080_0000);
    assert_eq!(FloatType { frac: (1 << 24) - 3, exp: -150 }.as_f32(), 0x007F_FFFE);
    assert_eq!(FloatType { frac: u64::MAX, exp: -190 }.as_f32(), 0x0080_0000);
}

#[test]
fn as_f32_nearest_test() {
    // Every value here is held by a double without error, and the
    // conversion of a double to a 32-bit float rounds to the nearest.
    let fractions: [u64; 12] = [
        1,
        3,
        5,
        7,
        0xFF_FFFF,
        0x100_0001,
        0x1FF_FFFF,
        0x123_4567,
        0x1234_5678_9ABC,
        0xF_FFFF_FFFF_FFFF,
        0x10_0000_0000_0001,
        0x1F_FFFF_FFFF_FFFF,
    ];
    for frac in fractions.iter() {
        for exp in -260..140 {
            let exact = (*frac as f64) * 2f64.powi(exp);
            let x = FloatType { frac: *frac, exp };
            assert_eq!(x.as_f32(), (exact as f32).to_bits(), "{} * 2^{}", frac, exp);
        }
    }
}

#[test]
fn as_f64_denormal_test() {
    // Multiples of a quarter of the smallest denormal, 2^-1074.
    let expected: [u64; 13] = [0, 0, 0, 1, 1, 1, 2, 2, 2, 2, 2, 3, 3];
    for quarters in 0..13u64 {
        let x = FloatType { frac: quarters, exp: -1076 };
        assert_eq!(x.as_f64(), expected[quarters as usize], "{} quarters", quarters);
    }
    assert_eq!(FloatType { frac: 7, exp: -1076 }.as_f64(), 2);
    assert_eq!(FloatType { frac: 3, exp: -1076 }.as_f64(), 1);
    assert_eq!(FloatType { frac: 1, exp: -1074 }.as_f64(), 1);
    assert_eq!(FloatType { frac: 1 << 63, exp: -1138 }.as_f64(), 0);
    assert_eq!(FloatType { frac: (1 << 63) + 1, exp: -1138 }.as_f64(), 1);
    assert_eq!(FloatType { frac: u64::MAX, exp: -1139 }.as_f64(), 0);
    // Up to the smallest normal float, 2^-1022.
    assert_eq!(FloatType { frac: (1 << 53) - 1, exp: -1075 }.as_f64(), 0x0010_0000_0000_0000);
    assert_eq!(FloatType { frac: (1 << 53) - 3, exp: -1075 }.as_f64(), 0x000F_FFFF_FFFF_FFFE);
    // A fraction of 64 bits among the denormals: 2^63 at 2^-1126 is 2^11
    // units of 2^-1074, and a fraction of all ones just less than 2^12.
    assert_eq!(FloatType { frac: 0x8000_0000_0000_0000, exp: -1126 }.as_f64(), 1 << 11);
    assert_eq!(FloatType { frac: 0xFFFF_FFFF_FFFF_FFFF, exp: -1126 }.as_f64(), 1 << 12);
    // One and a half units is a tie, and goes to two; parsed decimals to
    // either side of it, for comparison.
    assert_eq!(FloatType { frac: 3, exp: -1075 }.as_f64(), 2);
    let below: f64 = "7.4e-324".parse().unwrap();
    let above: f64 = "7.5e-324".parse().unwrap();
    assert_eq!(FloatType { frac: 0xBFFF_FFFF_FFFF_FFFF, exp: -1137 }.as_f64(), below.to_bits());
    assert_eq!(FloatType { frac: 0xC000_0000_0000_0001, exp: -1137 }.as_f64(), above.to_bits());
}

#[test]
fn normalize_to_denormal_test() {
    // Below the normal range the fraction is rounded once.
    let mut x = FloatType { frac: 7, exp: -151 };
    x.normalize_to_f32();
    assert_eq!(x, FloatType { frac: 2, exp: -149 });
    let mut x = FloatType { frac: 7, exp: -1076 };
    x.normalize_to_f64();
    assert_eq!(x, FloatType { frac: 2, exp: -1074 });
    // Rounded up to the hidden bit: the smallest normal float.
    let mut x = FloatType { frac: (1 << 24) - 1, exp: -150 };
    x.normalize_to_f32();
    assert_eq!(x, FloatType { frac: 1 << 23, exp: -149 });
    // Rounded to nothing: the fraction stays, below the denormals.
    let mut x = FloatType { frac: 1, exp: -151 };
    x.normalize_to_f32();
    assert_eq!(x, FloatType { frac: 1 << 23, exp: -174 });
}
