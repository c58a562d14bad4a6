use echanger::hex::{append_numeral, digit_of, from_numeral, to_numeral, HexError};

fn kind(e: HexError) -> std::num::IntErrorKind {
    match e {
        HexError::Empty => std::num::IntErrorKind::Empty,
        HexError::InvalidDigit => std::num::IntErrorKind::InvalidDigit,
        HexError::TooLarge => std::num::IntErrorKind::PosOverflow,
    }
}

#[test]
fn numeral_of_sixteen_is_10() {
    assert_eq!(to_numeral(16), "10");
}

#[test]
fn numerals_are_lower_case_without_leading_zeros() {
    assert_eq!(to_numeral(0), "0");
    assert_eq!(to_numeral(9), "9");
    assert_eq!(to_numeral(10), "a");
    assert_eq!(to_numeral(15), "f");
    assert_eq!(to_numeral(255), "ff");
    assert_eq!(to_numeral(256), "100");
    assert_eq!(to_numeral(0xabcdef), "abcdef");
    assert_eq!(to_numeral(u32::MAX), "ffffffff");
}

#[test]
fn numerals_are_what_std_formats() {
    let mut n: u32 = 0;
    for step in 0..5000u32 {
        assert_eq!(to_numeral(n), format!("{:x}", n));
        n = n.wrapping_mul(1_664_525).wrapping_add(1_013_904_223).wrapping_add(step);
    }
    for n in 0..1000u32 {
        assert_eq!(to_numeral(n), format!("{:x}", n));
    }
}

#[test]
fn append_numeral_keeps_what_is_there() {
    let mut out = String::from("id ");
    append_numeral(0x1f, &mut out);
    assert_eq!(out, "id 1f");
}

#[test]
fn digits_in_either_case() {
    assert_eq!(digit_of('0'), Some(0));
    assert_eq!(digit_of('9'), Some(9));
    assert_eq!(digit_of('a'), Some(10));
    assert_eq!(digit_of('f'), Some(15));
    assert_eq!(digit_of('A'), Some(10));
    assert_eq!(digit_of('F'), Some(15));
    assert_eq!(digit_of('g'), None);
    assert_eq!(digit_of('G'), None);
    assert_eq!(digit_of('/'), None);
    assert_eq!(digit_of(':'), None);
    assert_eq!(digit_of('@'), None);
    assert_eq!(digit_of('`'), None);
    assert_eq!(digit_of('٣'), None);
    for d in 0..16u32 {
        let text = to_numeral(d);
        assert_eq!(text.chars().count(), 1);
        assert_eq!(digit_of(text.chars().next().unwrap()), Some(d));
        assert_eq!(text.chars().next().unwrap().to_digit(16), Some(d));
    }
}

#[test]
fn from_numeral_reads_numbers() {
    assert_eq!(from_numeral("0"), Ok(0));
    assert_eq!(from_numeral("b"), Ok(11));
    assert_eq!(from_numeral("10"), Ok(16));
    assert_eq!(from_numeral("1F"), Ok(31));
    assert_eq!(from_numeral("ffffffff"), Ok(u32::MAX));
    assert_eq!(from_numeral("FFFFFFFF"), Ok(u32::MAX));
    assert_eq!(from_numeral("000000000000001"), Ok(1));
}

#[test]
fn from_numeral_takes_no_sign() {
    assert_eq!(from_numeral("+"), Err(HexError::InvalidDigit));
    assert_eq!(from_numeral("+7f"), Err(HexError::InvalidDigit));
    assert_eq!(from_numeral("+b"), Err(HexError::InvalidDigit));
    assert_eq!(from_numeral("+0"), Err(HexError::InvalidDigit));
    assert_eq!(from_numeral("+ffffffff"), Err(HexError::InvalidDigit));
    assert_eq!(from_numeral("+100000000"), Err(HexError::InvalidDigit));
    assert_eq!(from_numeral("-"), Err(HexError::InvalidDigit));
    assert_eq!(from_numeral("-7f"), Err(HexError::InvalidDigit));
    assert_eq!(from_numeral("7+f"), Err(HexError::InvalidDigit));
}

#[test]
fn from_numeral_says_what_is_wrong() {
    assert_eq!(from_numeral(""), Err(HexError::Empty));
    assert_eq!(from_numeral("+"), Err(HexError::InvalidDigit));
    assert_eq!(from_numeral("-"), Err(HexError::InvalidDigit));
    assert_eq!(from_numeral("-1"), Err(HexError::InvalidDigit));
    assert_eq!(from_numeral("++1"), Err(HexError::InvalidDigit));
    assert_eq!(from_numeral("0x10"), Err(HexError::InvalidDigit));
    assert_eq!(from_numeral("1_0"), Err(HexError::InvalidDigit));
    assert_eq!(from_numeral("12 "), Err(HexError::InvalidDigit));
    assert_eq!(from_numeral("é"), Err(HexError::InvalidDigit));
    assert_eq!(from_numeral("100000000"), Err(HexError::TooLarge));
    assert_eq!(from_numeral("fffffffff"), Err(HexError::TooLarge));
    assert_eq!(from_numeral("ffffffffz"), Err(HexError::InvalidDigit));
    assert_eq!(from_numeral("fffffffffz"), Err(HexError::TooLarge));
    assert_eq!(from_numeral("zfffffffff"), Err(HexError::InvalidDigit));
}

#[test]
fn from_numeral_agrees_with_std_on_unsigned_text() {
    let texts = [
        "", "-", "0", "00", "-0", "1", "a", "A", "g", "ff", "fF", "ffffffff", "100000000",
        "0ffffffff", "00000000000", "fffffffff", "ffffffffg", "fffffffffg", "gfffffffff", "1 2",
        " 1", "1 ", "0x1", "1e5", "١", "deadbeef", "DEADBEEF", "7fffffff", "80000000",
    ];
    for text in texts {
        let expected = u32::from_str_radix(text, 16);
        match (from_numeral(text), expected) {
            (Ok(n), Ok(m)) => assert_eq!(n, m, "{:?}", text),
            (Err(e), Err(f)) => {
                assert_eq!(&kind(e), f.kind(), "{:?}", text);
                assert_eq!(e.message(), f.to_string(), "{:?}", text);
            }
            (got, expected) => panic!("{:?}: {:?} but std says {:?}", text, got, expected),
        }
    }
}

#[test]
fn numerals_read_back() {
    let mut n: u32 = 1;
    for _ in 0..2000 {
        assert_eq!(from_numeral(&to_numeral(n)), Ok(n));
        n = n.wrapping_mul(22_695_477).wrapping_add(1);
    }
}
