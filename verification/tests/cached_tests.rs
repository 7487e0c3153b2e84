use radix_format::cached::{
    cached_power, power_of_ten, CACHED_EXP_MAX, CACHED_EXP_MIN, EXPMAX, EXPMIN, FIRSTPOWER,
    NPOWERS, POWERS_OF_TEN_EXP, POWERS_OF_TEN_FRAC, STEPPOWERS,
};
use radix_format::float::FloatType;

#[test]
fn cached_constants_test() {
    assert_eq!(NPOWERS, 87);
    assert_eq!(FIRSTPOWER, -348);
    assert_eq!(STEPPOWERS, 8);
    assert_eq!(EXPMAX, -32);
    assert_eq!(EXPMIN, -60);
    assert_eq!(POWERS_OF_TEN_FRAC.len(), 87);
    assert_eq!(POWERS_OF_TEN_EXP.len(), 87);
}

#[test]
fn power_of_ten_test() {
    assert_eq!(power_of_ten(0), FloatType { frac: 18054884314459144840, exp: -1220 });
    assert_eq!(power_of_ten(1), FloatType { frac: 13451937075301367670, exp: -1193 });
    // 10^-4, 10^4 and 10^12.
    assert_eq!(power_of_ten(43), FloatType { frac: 15111572745182864684, exp: -77 });
    assert_eq!(power_of_ten(44), FloatType { frac: 11258999068426240000, exp: -50 });
    assert_eq!(power_of_ten(45), FloatType { frac: 16777216000000000000, exp: -24 });
    assert_eq!(power_of_ten(86), FloatType { frac: 12648080533535911531, exp: 1066 });
    // 10^4 and 10^12 are held without error.
    assert_eq!(f64::from_bits(power_of_ten(44).as_f64()), 1e4);
    assert_eq!(f64::from_bits(power_of_ten(45).as_f64()), 1e12);
    assert_eq!(f64::from_bits(power_of_ten(46).as_f64()), 1e20);
    // Every fraction is normalized, and the exponents grow.
    for index in 0..87 {
        assert!(power_of_ten(index).frac >= 1 << 63);
        if index > 0 {
            let step = power_of_ten(index).exp - power_of_ten(index - 1).exp;
            assert!(step == 26 || step == 27);
        }
        let k = FIRSTPOWER + 8 * index as i32;
        if (-300..=300).contains(&k) {
            let expected: f64 = format!("1e{}", k).parse().unwrap();
            assert_eq!(f64::from_bits(power_of_ten(index).as_f64()), expected);
        }
    }
}

#[test]
fn cached_power_test() {
    assert_eq!(
        cached_power(-1190),
        (FloatType { frac: 12648080533535911531, exp: 1066 }, 340)
    );
    assert_eq!(
        cached_power(-1137),
        (FloatType { frac: 11392378155556871081, exp: 1013 }, 324)
    );
    assert_eq!(
        cached_power(-1074),
        (FloatType { frac: 10261342003245940623, exp: 960 }, 308)
    );
    assert_eq!(cached_power(-63), (FloatType { frac: 11258999068426240000, exp: -50 }, 4));
    assert_eq!(cached_power(-52), (FloatType { frac: 11258999068426240000, exp: -50 }, 4));
    assert_eq!(cached_power(0), (FloatType { frac: 10141204801825835212, exp: -103 }, -12));
    assert_eq!(cached_power(3), (FloatType { frac: 10141204801825835212, exp: -103 }, -12));
    assert_eq!(cached_power(63), (FloatType { frac: 12259964326927110867, exp: -183 }, -36));
    assert_eq!(cached_power(-500), (FloatType { frac: 9681479787123295682, exp: 402 }, 140));
    assert_eq!(cached_power(500), (FloatType { frac: 10622759856335341974, exp: -608 }, -164));
    assert_eq!(
        cached_power(960),
        (FloatType { frac: 12353653155963782858, exp: -1060 }, -300)
    );
    assert_eq!(
        cached_power(1095),
        (FloatType { frac: 13451937075301367670, exp: -1193 }, -340)
    );
    assert_eq!(
        cached_power(1124),
        (FloatType { frac: 18054884314459144840, exp: -1220 }, -348)
    );
}

#[test]
fn cached_power_window_test() {
    for exp in CACHED_EXP_MIN..=CACHED_EXP_MAX {
        let (power, k) = cached_power(exp);
        let current = exp + power.exp + 64;
        assert!(EXPMIN <= current && current <= EXPMAX, "{}", exp);
        assert_eq!((k - FIRSTPOWER) % STEPPOWERS, 0);
        let index = ((k - FIRSTPOWER) / STEPPOWERS) as usize;
        assert_eq!(power, power_of_ten(index));
        // No power before reaches the window.
        if index > 0 {
            assert!(exp + power_of_ten(index - 1).exp + 64 < EXPMIN, "{}", exp);
        }
    }
}
