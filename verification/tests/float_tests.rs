use radix_format::float::FloatType;

// Sample of interesting numbers.
const INTEGERS: [u64; 32] = [
    0,
    1,
    7,
    15,
    112,
    119,
    127,
    240,
    247,
    255,
    2032,
    2039,
    2047,
    4080,
    4087,
    4095,
    65520,
    65527,
    65535,
    1048560,
    1048567,
    1048575,
    16777200,
    16777207,
    16777215,
    268435440,
    268435447,
    268435455,
    4294967280,
    4294967287,
    4294967295,
    18446744073709551615,
];

fn from_f32(f: f32) -> FloatType {
    FloatType::from_f32(f.to_bits())
}

fn from_f64(f: f64) -> FloatType {
    FloatType::from_f64(f.to_bits())
}

fn as_f32(x: &FloatType) -> f32 {
    f32::from_bits(x.as_f32())
}

fn as_f64(x: &FloatType) -> f64 {
    f64::from_bits(x.as_f64())
}

fn normalized(mut x: FloatType) -> FloatType {
    assert!(x.exp >= i32::MIN + 63);
    x.normalize();
    x
}

fn normalized_to_f32(mut x: FloatType) -> FloatType {
    assert!(x.exp >= i32::MIN + 63 && x.exp <= i32::MAX - 41);
    x.normalize_to_f32();
    x
}

fn normalized_to_f64(mut x: FloatType) -> FloatType {
    assert!(x.exp >= i32::MIN + 63 && x.exp <= i32::MAX - 12);
    x.normalize_to_f64();
    x
}

fn assert_normalized_eq(x: FloatType, y: FloatType) {
    assert_eq!(normalized(x), normalized(y));
}

// FROM

#[test]
fn from_int_test() {
    // 0
    assert_eq!(FloatType::from_u8(0), FloatType { frac: 0, exp: 0 });
    assert_eq!(FloatType::from_u16(0), FloatType { frac: 0, exp: 0 });
    assert_eq!(FloatType::from_u32(0), FloatType { frac: 0, exp: 0 });
    assert_eq!(FloatType::from_u64(0), FloatType { frac: 0, exp: 0 });

    // 1
    assert_eq!(FloatType::from_u8(1), FloatType { frac: 1, exp: 0 });
    assert_eq!(FloatType::from_u16(1), FloatType { frac: 1, exp: 0 });
    assert_eq!(FloatType::from_u32(1), FloatType { frac: 1, exp: 0 });
    assert_eq!(FloatType::from_u64(1), FloatType { frac: 1, exp: 0 });

    // (2^8-1) 255
    assert_eq!(FloatType::from_u8(255), FloatType { frac: 255, exp: 0 });
    assert_eq!(FloatType::from_u16(255), FloatType { frac: 255, exp: 0 });
    assert_eq!(FloatType::from_u32(255), FloatType { frac: 255, exp: 0 });
    assert_eq!(FloatType::from_u64(255), FloatType { frac: 255, exp: 0 });

    // (2^16-1) 65535
    assert_eq!(FloatType::from_u16(65535), FloatType { frac: 65535, exp: 0 });
    assert_eq!(FloatType::from_u32(65535), FloatType { frac: 65535, exp: 0 });
    assert_eq!(FloatType::from_u64(65535), FloatType { frac: 65535, exp: 0 });

    // (2^32-1) 4294967295
    assert_eq!(FloatType::from_u32(4294967295), FloatType { frac: 4294967295, exp: 0 });
    assert_eq!(FloatType::from_u64(4294967295), FloatType { frac: 4294967295, exp: 0 });

    // (2^64-1) 18446744073709551615
    assert_eq!(
        FloatType::from_u64(18446744073709551615),
        FloatType { frac: 18446744073709551615, exp: 0 }
    );
}

#[test]
fn from_f32_test() {
    assert_eq!(from_f32(0.), FloatType { frac: 0, exp: -149 });
    assert_eq!(from_f32(-0.), FloatType { frac: 0, exp: -149 });

    assert_eq!(from_f32(1e-45), FloatType { frac: 1, exp: -149 });
    assert_eq!(from_f32(1e-40), FloatType { frac: 71362, exp: -149 });
    assert_eq!(from_f32(2e-40), FloatType { frac: 142725, exp: -149 });
    assert_eq!(from_f32(1e-20), FloatType { frac: 12379400, exp: -90 });
    assert_eq!(from_f32(2e-20), FloatType { frac: 12379400, exp: -89 });
    assert_eq!(from_f32(1.0), FloatType { frac: 8388608, exp: -23 });
    assert_eq!(from_f32(2.0), FloatType { frac: 8388608, exp: -22 });
    assert_eq!(from_f32(1e20), FloatType { frac: 11368684, exp: 43 });
    assert_eq!(from_f32(2e20), FloatType { frac: 11368684, exp: 44 });
    assert_eq!(from_f32(3.402823e38), FloatType { frac: 16777213, exp: 104 });
}

#[test]
fn from_f64_test() {
    assert_eq!(from_f64(0.), FloatType { frac: 0, exp: -1074 });
    assert_eq!(from_f64(-0.), FloatType { frac: 0, exp: -1074 });
    assert_eq!(from_f64(5e-324), FloatType { frac: 1, exp: -1074 });
    assert_eq!(from_f64(1e-250), FloatType { frac: 6448907850777164, exp: -883 });
    assert_eq!(from_f64(1e-150), FloatType { frac: 7371020360979573, exp: -551 });
    assert_eq!(from_f64(1e-45), FloatType { frac: 6427752177035961, exp: -202 });
    assert_eq!(from_f64(1e-40), FloatType { frac: 4903985730770844, exp: -185 });
    assert_eq!(from_f64(2e-40), FloatType { frac: 4903985730770844, exp: -184 });
    assert_eq!(from_f64(1e-20), FloatType { frac: 6646139978924579, exp: -119 });
    assert_eq!(from_f64(2e-20), FloatType { frac: 6646139978924579, exp: -118 });
    assert_eq!(from_f64(1.0), FloatType { frac: 4503599627370496, exp: -52 });
    assert_eq!(from_f64(2.0), FloatType { frac: 4503599627370496, exp: -51 });
    assert_eq!(from_f64(1e20), FloatType { frac: 6103515625000000, exp: 14 });
    assert_eq!(from_f64(2e20), FloatType { frac: 6103515625000000, exp: 15 });
    assert_eq!(from_f64(1e40), FloatType { frac: 8271806125530277, exp: 80 });
    assert_eq!(from_f64(2e40), FloatType { frac: 8271806125530277, exp: 81 });
    assert_eq!(from_f64(1e150), FloatType { frac: 5503284107318959, exp: 446 });
    assert_eq!(from_f64(1e250), FloatType { frac: 6290184345309700, exp: 778 });
    assert_eq!(from_f64(1.7976931348623157e308), FloatType { frac: 9007199254740991, exp: 971 });
}

#[test]
fn from_float() {
    let values: [f32; 26] = [
        1e-40, 2e-40, 1e-35, 2e-35, 1e-30, 2e-30, 1e-25, 2e-25, 1e-20, 2e-20, 1e-15, 2e-15, 1e-10,
        2e-10, 1e-5, 2e-5, 1.0, 2.0, 1e5, 2e5, 1e10, 2e10, 1e15, 2e15, 1e20, 2e20,
    ];
    for value in values.iter() {
        assert_normalized_eq(from_f32(*value), from_f64(*value as f64));
    }
}

// NORMALIZE

#[test]
fn normalize_test() {
    // F32
    // min value
    let x = normalized(FloatType { frac: 1, exp: -149 });
    assert_eq!(x, FloatType { frac: 9223372036854775808, exp: -212 });

    // 1.0e-40
    let x = normalized(FloatType { frac: 71362, exp: -149 });
    assert_eq!(x, FloatType { frac: 10043308644012916736, exp: -196 });

    // 1.0e-20
    let x = normalized(FloatType { frac: 12379400, exp: -90 });
    assert_eq!(x, FloatType { frac: 13611294244890214400, exp: -130 });

    // 1.0
    let x = normalized(FloatType { frac: 8388608, exp: -23 });
    assert_eq!(x, FloatType { frac: 9223372036854775808, exp: -63 });

    // 1e20
    let x = normalized(FloatType { frac: 11368684, exp: 43 });
    assert_eq!(x, FloatType { frac: 12500000250510966784, exp: 3 });

    // max value
    let x = normalized(FloatType { frac: 16777213, exp: 104 });
    assert_eq!(x, FloatType { frac: 18446740775174668288, exp: 64 });

    // F64

    // min value
    let x = normalized(FloatType { frac: 1, exp: -1074 });
    assert_eq!(x, FloatType { frac: 9223372036854775808, exp: -1137 });

    // 1.0e-250
    let x = normalized(FloatType { frac: 6448907850777164, exp: -883 });
    assert_eq!(x, FloatType { frac: 13207363278391631872, exp: -894 });

    // 1.0e-150
    let x = normalized(FloatType { frac: 7371020360979573, exp: -551 });
    assert_eq!(x, FloatType { frac: 15095849699286165504, exp: -562 });

    // 1.0e-45
    let x = normalized(FloatType { frac: 6427752177035961, exp: -202 });
    assert_eq!(x, FloatType { frac: 13164036458569648128, exp: -213 });

    // 1.0e-40
    let x = normalized(FloatType { frac: 4903985730770844, exp: -185 });
    assert_eq!(x, FloatType { frac: 10043362776618688512, exp: -196 });

    // 1.0e-20
    let x = normalized(FloatType { frac: 6646139978924579, exp: -119 });
    assert_eq!(x, FloatType { frac: 13611294676837537792, exp: -130 });

    // 1.0
    let x = normalized(FloatType { frac: 4503599627370496, exp: -52 });
    assert_eq!(x, FloatType { frac: 9223372036854775808, exp: -63 });

    // 1e20
    let x = normalized(FloatType { frac: 6103515625000000, exp: 14 });
    assert_eq!(x, FloatType { frac: 12500000000000000000, exp: 3 });

    // 1e40
    let x = normalized(FloatType { frac: 8271806125530277, exp: 80 });
    assert_eq!(x, FloatType { frac: 16940658945086007296, exp: 69 });

    // 1e150
    let x = normalized(FloatType { frac: 5503284107318959, exp: 446 });
    assert_eq!(x, FloatType { frac: 11270725851789228032, exp: 435 });

    // 1e250
    let x = normalized(FloatType { frac: 6290184345309700, exp: 778 });
    assert_eq!(x, FloatType { frac: 12882297539194265600, exp: 767 });

    // max value
    let x = normalized(FloatType { frac: 9007199254740991, exp: 971 });
    assert_eq!(x, FloatType { frac: 18446744073709549568, exp: 960 });
}

#[test]
fn normalize_to_f32_test() {
    // This is lossy, so some of these values are **slightly** rounded.

    // underflow
    let x = normalized_to_f32(FloatType { frac: 9223372036854775808, exp: -213 });
    assert_eq!(x, FloatType { frac: 8388608, exp: -173 });

    // min value
    let x = normalized_to_f32(FloatType { frac: 9223372036854775808, exp: -212 });
    assert_eq!(x, FloatType { frac: 1, exp: -149 });

    // 1.0e-40
    let x = normalized_to_f32(FloatType { frac: 10043308644012916736, exp: -196 });
    assert_eq!(x, FloatType { frac: 71362, exp: -149 });

    // 1.0e-20
    let x = normalized_to_f32(FloatType { frac: 13611294244890214400, exp: -130 });
    assert_eq!(x, FloatType { frac: 12379400, exp: -90 });

    // 1.0
    let x = normalized_to_f32(FloatType { frac: 9223372036854775808, exp: -63 });
    assert_eq!(x, FloatType { frac: 8388608, exp: -23 });

    // 1e20
    let x = normalized_to_f32(FloatType { frac: 12500000250510966784, exp: 3 });
    assert_eq!(x, FloatType { frac: 11368684, exp: 43 });

    // max value
    let x = normalized_to_f32(FloatType { frac: 18446740775174668288, exp: 64 });
    assert_eq!(x, FloatType { frac: 16777213, exp: 104 });

    // overflow
    let x = normalized_to_f32(FloatType { frac: 18446740775174668288, exp: 65 });
    assert_eq!(x, FloatType { frac: 16777213, exp: 105 });
}

#[test]
fn normalize_to_f64_test() {
    // This is lossy, so some of these values are **slightly** rounded.

    // underflow
    let x = normalized_to_f64(FloatType { frac: 9223372036854775808, exp: -1138 });
    assert_eq!(x, FloatType { frac: 4503599627370496, exp: -1127 });

    // min value
    let x = normalized_to_f64(FloatType { frac: 9223372036854775808, exp: -1137 });
    assert_eq!(x, FloatType { frac: 1, exp: -1074 });

    // 1.0e-250
    let x = normalized_to_f64(FloatType { frac: 13207363278391631872, exp: -894 });
    assert_eq!(x, FloatType { frac: 6448907850777164, exp: -883 });

    // 1.0e-150
    let x = normalized_to_f64(FloatType { frac: 15095849699286165504, exp: -562 });
    assert_eq!(x, FloatType { frac: 7371020360979573, exp: -551 });

    // 1.0e-45
    let x = normalized_to_f64(FloatType { frac: 13164036458569648128, exp: -213 });
    assert_eq!(x, FloatType { frac: 6427752177035961, exp: -202 });

    // 1.0e-40
    let x = normalized_to_f64(FloatType { frac: 10043362776618688512, exp: -196 });
    assert_eq!(x, FloatType { frac: 4903985730770844, exp: -185 });

    // 1.0e-20
    let x = normalized_to_f64(FloatType { frac: 13611294676837537792, exp: -130 });
    assert_eq!(x, FloatType { frac: 6646139978924579, exp: -119 });

    // 1.0
    let x = normalized_to_f64(FloatType { frac: 9223372036854775808, exp: -63 });
    assert_eq!(x, FloatType { frac: 4503599627370496, exp: -52 });

    // 1e20
    let x = normalized_to_f64(FloatType { frac: 12500000000000000000, exp: 3 });
    assert_eq!(x, FloatType { frac: 6103515625000000, exp: 14 });

    // 1e40
    let x = normalized_to_f64(FloatType { frac: 16940658945086007296, exp: 69 });
    assert_eq!(x, FloatType { frac: 8271806125530277, exp: 80 });

    // 1e150
    let x = normalized_to_f64(FloatType { frac: 11270725851789228032, exp: 435 });
    assert_eq!(x, FloatType { frac: 5503284107318959, exp: 446 });

    // 1e250
    let x = normalized_to_f64(FloatType { frac: 12882297539194265600, exp: 767 });
    assert_eq!(x, FloatType { frac: 6290184345309700, exp: 778 });

    // max value
    let x = normalized_to_f64(FloatType { frac: 18446744073709549568, exp: 960 });
    assert_eq!(x, FloatType { frac: 9007199254740991, exp: 971 });

    // overflow
    let x = normalized_to_f64(FloatType { frac: 18446744073709549568, exp: 961 });
    assert_eq!(x, FloatType { frac: 9007199254740991, exp: 972 });
}

// TO

#[test]
fn to_f32_test() {
    // underflow
    let x = FloatType { frac: 9223372036854775808, exp: -213 };
    assert_eq!(as_f32(&x), 0.0);

    // min value
    let x = FloatType { frac: 9223372036854775808, exp: -212 };
    assert_eq!(as_f32(&x), 1e-45);

    // 1.0e-40
    let x = FloatType { frac: 10043308644012916736, exp: -196 };
    assert_eq!(as_f32(&x), 1e-40);

    // 1.0e-20
    let x = FloatType { frac: 13611294244890214400, exp: -130 };
    assert_eq!(as_f32(&x), 1e-20);

    // 1.0
    let x = FloatType { frac: 9223372036854775808, exp: -63 };
    assert_eq!(as_f32(&x), 1.0);

    // 1e20
    let x = FloatType { frac: 12500000250510966784, exp: 3 };
    assert_eq!(as_f32(&x), 1e20);

    // max value
    let x = FloatType { frac: 18446740775174668288, exp: 64 };
    assert_eq!(as_f32(&x), 3.402823e38);

    // almost max, high exp
    let x = FloatType { frac: 1048575, exp: 108 };
    assert_eq!(as_f32(&x), 3.4028204e38);

    // max value + 1
    let x = FloatType { frac: 16777216, exp: 104 };
    assert_eq!(as_f32(&x), f32::INFINITY);

    // max value + 1
    let x = FloatType { frac: 1048576, exp: 108 };
    assert_eq!(as_f32(&x), f32::INFINITY);

    // 1e40
    let x = FloatType { frac: 16940658945086007296, exp: 69 };
    assert_eq!(as_f32(&x), f32::INFINITY);

    // Integers.
    for int in INTEGERS.iter() {
        let fp = FloatType { frac: *int, exp: 0 };
        assert_eq!(as_f32(&fp), *int as f32, "{:?} as f32", *int);
    }
}

#[test]
fn to_f64_test() {
    // underflow
    let x = FloatType { frac: 9223372036854775808, exp: -1138 };
    assert_eq!(as_f64(&x), 0.0);

    // min value
    let x = FloatType { frac: 9223372036854775808, exp: -1137 };
    assert_eq!(as_f64(&x), 5e-324);

    // 1.0e-250
    let x = FloatType { frac: 13207363278391631872, exp: -894 };
    assert_eq!(as_f64(&x), 1e-250);

    // 1.0e-150
    let x = FloatType { frac: 15095849699286165504, exp: -562 };
    assert_eq!(as_f64(&x), 1e-150);

    // 1.0e-45
    let x = FloatType { frac: 13164036458569648128, exp: -213 };
    assert_eq!(as_f64(&x), 1e-45);

    // 1.0e-40
    let x = FloatType { frac: 10043362776618688512, exp: -196 };
    assert_eq!(as_f64(&x), 1e-40);

    // 1.0e-20
    let x = FloatType { frac: 13611294676837537792, exp: -130 };
    assert_eq!(as_f64(&x), 1e-20);

    // 1.0
    let x = FloatType { frac: 9223372036854775808, exp: -63 };
    assert_eq!(as_f64(&x), 1.0);

    // 1e20
    let x = FloatType { frac: 12500000000000000000, exp: 3 };
    assert_eq!(as_f64(&x), 1e20);

    // 1e40
    let x = FloatType { frac: 16940658945086007296, exp: 69 };
    assert_eq!(as_f64(&x), 1e40);

    // 1e150
    let x = FloatType { frac: 11270725851789228032, exp: 435 };
    assert_eq!(as_f64(&x), 1e150);

    // 1e250
    let x = FloatType { frac: 12882297539194265600, exp: 767 };
    assert_eq!(as_f64(&x), 1e250);

    // max value
    let x = FloatType { frac: 9007199254740991, exp: 971 };
    assert_eq!(as_f64(&x), 1.7976931348623157e308);

    // max value
    let x = FloatType { frac: 18446744073709549568, exp: 960 };
    assert_eq!(as_f64(&x), 1.7976931348623157e308);

    // overflow
    let x = FloatType { frac: 9007199254740992, exp: 971 };
    assert_eq!(as_f64(&x), f64::INFINITY);

    // overflow
    let x = FloatType { frac: 18446744073709549568, exp: 961 };
    assert_eq!(as_f64(&x), f64::INFINITY);

    // Integers.
    for int in INTEGERS.iter() {
        let fp = FloatType { frac: *int, exp: 0 };
        assert_eq!(as_f64(&fp), *int as f64, "{:?} as f64", *int);
    }
}

// OPERATIONS

#[test]
fn add_test() {
    // Simple
    let x = FloatType::from_u8(1);
    let y = FloatType::from_u8(2);
    let z = x.add_unchecked(&y);
    assert_eq!(as_f64(&z), 3.0);

    // Different exponents
    let x = from_f32(1.0);
    let y = from_f64(2.0);
    let z = x.add(&y);
    assert_eq!(as_f64(&z), 3.0);

    let x = FloatType::from_u8(1);
    let y = from_f64(2.0);
    let z = x.add(&y);
    assert_eq!(as_f64(&z), 3.0);

    // Normally underflowing
    let x = from_f32(1e-45);
    let y = from_f64(2.0);
    let z = x.add(&y);
    assert_eq!(as_f64(&z), 2.0);

    let x = from_f64(2.0);
    let y = from_f32(1e-45);
    let z = x.add(&y);
    assert_eq!(as_f64(&z), 2.0);

    // Normally overflowing
    let x = FloatType::from_u64(10000000000000000000);
    let y = FloatType::from_u64(10000000000000000000);
    let z = x.add(&y);
    assert_eq!(as_f64(&z), 2e19);

    // Actually overflowing
    let x = FloatType { frac: u64::MAX, exp: FloatType::F64_MAX_EXPONENT };
    let y = x;
    let z = x.add(&y);
    assert_eq!(as_f64(&z), f64::INFINITY);
}

#[test]
fn subtract_test() {
    // Simple
    let x = FloatType::from_u8(5);
    let y = FloatType::from_u8(3);
    let z = x.sub_unchecked(&y);
    assert_eq!(as_f64(&z), 2.0);
}

#[test]
fn multiply_test() {
    let x = FloatType::from_u8(1);
    let y = FloatType::from_u64(10000000000000000000);
    let z = from_f64(1.7976931348623157e308);

    for i in 2..36 {
        let f = i as f64;
        assert_eq!(as_f64(&x.mul_n(i)), f);
        assert_eq!(as_f64(&y.mul_n(i)), f * 1e19);
        assert_eq!(as_f64(&z.mul_n(i)), f64::INFINITY);

        assert_eq!(as_f64(&x.mul_n_unchecked(i)), f);
    }
}
