use radix_format::error::FormatError;
use radix_format::itoa::{
    algorithm, algorithm_u128, digit_count, digit_pair_table, fill_digit_pair_table,
    format_integer, forward, is_valid_table, write_digits, write_step_digits, MAX_TABLE_SIZE,
};

// Digit by digit, for comparison.
fn reference(mut value: u128, radix: u32) -> String {
    let chars = b"0123456789ABCDEFGHIJKLMNOPQRSTUVWXYZ";
    let mut digits: Vec<u8> = Vec::new();
    loop {
        digits.push(chars[(value % radix as u128) as usize]);
        value /= radix as u128;
        if value == 0 {
            break;
        }
    }
    digits.reverse();
    String::from_utf8(digits).unwrap()
}

fn format_u64(value: u64, radix: u32) -> String {
    let table = digit_pair_table(radix);
    let mut buffer = [b'#'; 64];
    let start = algorithm(value, radix, &table, &mut buffer);
    assert!(buffer[..start].iter().all(|b| *b == b'#'));
    String::from_utf8(buffer[start..].to_vec()).unwrap()
}

fn format_u128(value: u128, radix: u32) -> String {
    let table = digit_pair_table(radix);
    let mut buffer = [b'#'; 128];
    let start = algorithm_u128(value, radix, &table, &mut buffer);
    assert!(buffer[..start].iter().all(|b| *b == b'#'));
    String::from_utf8(buffer[start..].to_vec()).unwrap()
}

#[test]
fn digit_pair_table_test() {
    let table = digit_pair_table(10);
    assert_eq!(table.len(), 200);
    for i in 0..100usize {
        assert_eq!(table[2 * i], b'0' + (i / 10) as u8);
        assert_eq!(table[2 * i + 1], b'0' + (i % 10) as u8);
    }
    let table = digit_pair_table(2);
    assert_eq!(table, b"00011011".to_vec());
    let table = digit_pair_table(16);
    assert_eq!(table.len(), 512);
    assert_eq!(&table[..4], b"0001");
    assert_eq!(&table[2 * 0xAB..2 * 0xAB + 2], b"AB");
    assert_eq!(&table[510..], b"FF");
    let table = digit_pair_table(36);
    assert_eq!(table.len(), 2592);
    assert_eq!(&table[2590..], b"ZZ");
}

#[test]
fn algorithm_decimal_test() {
    assert_eq!(format_u64(0, 10), "0");
    assert_eq!(format_u64(1, 10), "1");
    assert_eq!(format_u64(9, 10), "9");
    assert_eq!(format_u64(10, 10), "10");
    assert_eq!(format_u64(99, 10), "99");
    assert_eq!(format_u64(100, 10), "100");
    assert_eq!(format_u64(9999, 10), "9999");
    assert_eq!(format_u64(10000, 10), "10000");
    assert_eq!(format_u64(10001, 10), "10001");
    assert_eq!(format_u64(1000000007, 10), "1000000007");
    assert_eq!(format_u64(4294967295, 10), "4294967295");
    assert_eq!(format_u64(18446744073709551615, 10), "18446744073709551615");
}

#[test]
fn algorithm_std_radix_test() {
    let values: [u64; 12] = [
        0,
        1,
        2,
        7,
        8,
        255,
        256,
        65535,
        65536,
        4294967296,
        0x0123_4567_89AB_CDEF,
        u64::MAX,
    ];
    for value in values.iter() {
        assert_eq!(format_u64(*value, 2), format!("{:b}", value));
        assert_eq!(format_u64(*value, 8), format!("{:o}", value));
        assert_eq!(format_u64(*value, 10), format!("{}", value));
        assert_eq!(format_u64(*value, 16), format!("{:X}", value));
    }
}

#[test]
fn algorithm_every_radix_test() {
    for radix in 2..=36u32 {
        let r = radix as u64;
        let values: [u64; 14] = [
            0,
            1,
            r - 1,
            r,
            r + 1,
            r * r - 1,
            r * r,
            r * r * r,
            r * r * r * r - 1,
            r * r * r * r,
            r * r * r * r + 1,
            r * r * r * r * r * r - 1,
            1234567890123456789,
            u64::MAX,
        ];
        for value in values.iter() {
            assert_eq!(format_u64(*value, radix), reference(*value as u128, radix));
        }
    }
}

#[test]
fn algorithm_exact_buffer_test() {
    // The buffer may be as short as the digits.
    let table = digit_pair_table(10);
    let mut buffer = [b'#'; 5];
    let start = algorithm(12345, 10, &table, &mut buffer);
    assert_eq!(start, 0);
    assert_eq!(&buffer, b"12345");
}

#[test]
fn algorithm_u128_test() {
    assert_eq!(format_u128(0, 10), "0");
    assert_eq!(format_u128(18446744073709551615, 10), "18446744073709551615");
    assert_eq!(format_u128(18446744073709551616, 10), "18446744073709551616");
    assert_eq!(format_u128(10000000000000000000, 10), "10000000000000000000");
    assert_eq!(format_u128(100000000000000000000, 10), "100000000000000000000");
    // Zeros inside the number are kept.
    assert_eq!(
        format_u128(100000000000000000000000000000000000000, 10),
        "100000000000000000000000000000000000000"
    );
    assert_eq!(
        format_u128(100000000000000000000000000000000000001, 10),
        "100000000000000000000000000000000000001"
    );
    assert_eq!(
        format_u128(340282366920938463463374607431768211455, 10),
        "340282366920938463463374607431768211455"
    );
    assert_eq!(format_u128(u128::MAX, 16), "FFFFFFFFFFFFFFFFFFFFFFFFFFFFFFFF");
    assert_eq!(format_u128(1u128 << 64, 16), "10000000000000000");
    assert_eq!(format_u128(1u128 << 64, 2), format!("{:b}", 1u128 << 64));
    assert_eq!(format_u128(u128::MAX, 2), format!("{:b}", u128::MAX));
    assert_eq!(format_u128(u128::MAX, 8), format!("{:o}", u128::MAX));
}

#[test]
fn algorithm_u128_every_radix_test() {
    for radix in 2..=36u32 {
        let r = radix as u128;
        let mut power: u128 = 1;
        while power <= u128::MAX / r {
            power *= r;
        }
        let values: [u128; 10] = [
            u64::MAX as u128,
            u64::MAX as u128 + 1,
            u64::MAX as u128 * 3 + 7,
            1u128 << 100,
            (1u128 << 100) + 1,
            power,
            power - 1,
            power + 1,
            u128::MAX - 1,
            u128::MAX,
        ];
        for value in values.iter() {
            assert_eq!(format_u128(*value, radix), reference(*value, radix));
        }
    }
}

#[test]
fn integer_round_trip_test() {
    for radix in 2..=36u32 {
        let values: [u128; 6] =
            [0, 35, 36, 18446744073709551615, 18446744073709551616, u128::MAX];
        for value in values.iter() {
            let text = format_u128(*value, radix);
            assert_eq!(u128::from_str_radix(&text, radix), Ok(*value));
        }
        let values: [u64; 4] = [0, 1295, 1679616, u64::MAX];
        for value in values.iter() {
            let text = format_u64(*value, radix);
            assert_eq!(u64::from_str_radix(&text, radix), Ok(*value));
        }
    }
}

#[test]
fn write_digits_test() {
    let table = digit_pair_table(10);
    let mut buffer = [b'#'; 10];
    let start = write_digits(1234, 10, &table, &mut buffer, 7);
    assert_eq!(start, 3);
    assert_eq!(&buffer, b"###1234###");
    let start = write_digits(5, 10, &table, &mut buffer, 3);
    assert_eq!(start, 2);
    assert_eq!(&buffer, b"##51234###");
}

#[test]
fn write_step_digits_test() {
    let table = digit_pair_table(10);
    let mut buffer = [b'#'; 10];
    let end = write_step_digits(5, 10, &table, &mut buffer, 8, 4);
    assert_eq!(end, 4);
    assert_eq!(&buffer, b"####0005##");
    let end = write_step_digits(0, 10, &table, &mut buffer, 4, 3);
    assert_eq!(end, 1);
    assert_eq!(&buffer, b"#0000005##");
    let table = digit_pair_table(16);
    let mut buffer = [b'#'; 6];
    let end = write_step_digits(0xABCD, 16, &table, &mut buffer, 6, 4);
    assert_eq!(end, 2);
    assert_eq!(&buffer, b"##ABCD");
}

#[test]
fn forward_test() {
    let table = digit_pair_table(10);
    let mut buffer = [b'#'; 10];
    let end = forward(308, 10, &table, &mut buffer, 2);
    assert_eq!(end, 5);
    assert_eq!(&buffer, b"##308#####");
    let end = forward(0, 10, &table, &mut buffer, 5);
    assert_eq!(end, 6);
    assert_eq!(&buffer, b"##3080####");
    let table = digit_pair_table(2);
    let mut buffer = [b'#'; 12];
    let end = forward(1074, 2, &table, &mut buffer, 0);
    assert_eq!(end, 11);
    assert_eq!(&buffer, b"10000110010#");
}

#[test]
fn digit_count_test() {
    assert_eq!(digit_count(0, 10), 1);
    assert_eq!(digit_count(9, 10), 1);
    assert_eq!(digit_count(10, 10), 2);
    assert_eq!(digit_count(u64::MAX as u128, 10), 20);
    assert_eq!(digit_count(u128::MAX, 10), 39);
    assert_eq!(digit_count(u128::MAX, 2), 128);
    assert_eq!(digit_count(u128::MAX, 16), 32);
    assert_eq!(digit_count(u128::MAX, 36), 25);
    assert_eq!(digit_count(35, 36), 1);
    assert_eq!(digit_count(36, 36), 2);
    for radix in 2..=36u32 {
        assert_eq!(digit_count(u128::MAX, radix), reference(u128::MAX, radix).len());
        assert_eq!(digit_count(1 << 64, radix), reference(1 << 64, radix).len());
    }
}

#[test]
fn is_valid_table_test() {
    for radix in 2..=36u32 {
        let table = digit_pair_table(radix);
        assert!(is_valid_table(&table, radix));
        if radix < 36 {
            assert!(!is_valid_table(&table, radix + 1));
        }
        let mut wrong = table.clone();
        let last = wrong.len() - 1;
        wrong[last] = b'0';
        assert!(!is_valid_table(&wrong, radix));
        let mut wrong = table.clone();
        wrong[2] = b'1';
        assert!(!is_valid_table(&wrong, radix));
        assert!(!is_valid_table(&table[1..], radix));
    }
    assert!(is_valid_table(b"00011011", 2));
    assert!(!is_valid_table(b"00011010", 2));
    assert!(!is_valid_table(b"", 2));
    // Lower-case digits are no digits of the table.
    let lower: Vec<u8> = digit_pair_table(16).iter().map(|b| b.to_ascii_lowercase()).collect();
    assert!(!is_valid_table(&lower, 16));
}

#[test]
fn format_integer_test() {
    let table = digit_pair_table(10);
    let mut buffer = [b'#'; 8];
    assert_eq!(format_integer(12345, 10, &table, &mut buffer), Ok(3));
    assert_eq!(&buffer, b"###12345");
    let mut buffer = [b'#'; 39];
    assert_eq!(format_integer(u128::MAX, 10, &table, &mut buffer), Ok(0));
    assert_eq!(&buffer[..], b"340282366920938463463374607431768211455");
}

#[test]
fn format_integer_error_test() {
    let table = digit_pair_table(10);
    let mut buffer = [b'#'; 4];
    assert_eq!(format_integer(12345, 1, &table, &mut buffer), Err(FormatError::InvalidRadix));
    assert_eq!(format_integer(12345, 0, &table, &mut buffer), Err(FormatError::InvalidRadix));
    assert_eq!(format_integer(12345, 37, &table, &mut buffer), Err(FormatError::InvalidRadix));
    assert_eq!(format_integer(12345, 16, &table, &mut buffer), Err(FormatError::InvalidTable));
    assert_eq!(format_integer(12345, 10, &table[2..], &mut buffer), Err(FormatError::InvalidTable));
    assert_eq!(format_integer(12345, 10, &table, &mut buffer), Err(FormatError::BufferTooSmall));
    assert_eq!(
        format_integer(u128::MAX, 10, &table, &mut buffer),
        Err(FormatError::BufferTooSmall)
    );
    let mut empty: [u8; 0] = [];
    assert_eq!(format_integer(0, 10, &table, &mut empty), Err(FormatError::BufferTooSmall));
    // Nothing is written where the call fails.
    assert_eq!(&buffer, b"####");
    assert_eq!(format_integer(1234, 10, &table, &mut buffer), Ok(0));
    assert_eq!(&buffer, b"1234");
}

#[test]
fn fill_digit_pair_table_test() {
    assert_eq!(MAX_TABLE_SIZE, 2 * 36 * 36);
    for radix in 2..=36u32 {
        let mut table = [b'#'; MAX_TABLE_SIZE];
        let len = fill_digit_pair_table(radix, &mut table);
        assert_eq!(len, (2 * radix * radix) as usize);
        assert_eq!(&table[..len], &digit_pair_table(radix)[..]);
        assert!(is_valid_table(&table[..len], radix));
        assert!(table[len..].iter().all(|b| *b == b'#'));
    }
}
