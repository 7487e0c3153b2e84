use radix_format::digits::{char_to_digit, digit_to_char};

#[test]
fn digit_to_char_test() {
    assert_eq!(digit_to_char(0), b'0');
    assert_eq!(digit_to_char(9), b'9');
    assert_eq!(digit_to_char(10), b'A');
    assert_eq!(digit_to_char(15), b'F');
    assert_eq!(digit_to_char(35), b'Z');
    let all: Vec<u8> = (0..36).map(digit_to_char).collect();
    assert_eq!(all, b"0123456789ABCDEFGHIJKLMNOPQRSTUVWXYZ".to_vec());
}

#[test]
fn char_to_digit_test() {
    assert_eq!(char_to_digit(b'0', 2), Some(0));
    assert_eq!(char_to_digit(b'1', 2), Some(1));
    assert_eq!(char_to_digit(b'2', 2), None);
    assert_eq!(char_to_digit(b'9', 10), Some(9));
    assert_eq!(char_to_digit(b'A', 10), None);
    assert_eq!(char_to_digit(b'A', 11), Some(10));
    assert_eq!(char_to_digit(b'a', 11), Some(10));
    assert_eq!(char_to_digit(b'F', 16), Some(15));
    assert_eq!(char_to_digit(b'f', 16), Some(15));
    assert_eq!(char_to_digit(b'G', 16), None);
    assert_eq!(char_to_digit(b'Z', 36), Some(35));
    assert_eq!(char_to_digit(b'z', 36), Some(35));
    assert_eq!(char_to_digit(b'Z', 35), None);
    assert_eq!(char_to_digit(b'/', 36), None);
    assert_eq!(char_to_digit(b':', 36), None);
    assert_eq!(char_to_digit(b'@', 36), None);
    assert_eq!(char_to_digit(b'[', 36), None);
    assert_eq!(char_to_digit(b'`', 36), None);
    assert_eq!(char_to_digit(b'{', 36), None);
    assert_eq!(char_to_digit(0, 36), None);
    assert_eq!(char_to_digit(255, 36), None);
}

#[test]
fn digit_char_round_trip_test() {
    for radix in 2..=36 {
        for digit in 0..radix {
            assert_eq!(char_to_digit(digit_to_char(digit), radix), Some(digit));
        }
    }
}
