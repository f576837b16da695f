use moc_cli::uint::{parse_u64, IntErrorKind};

fn std_parse(s: &str) -> Result<u64, IntErrorKind> {
    s.parse::<u64>().map_err(|e| match e.kind() {
        std::num::IntErrorKind::Empty => IntErrorKind::Empty,
        std::num::IntErrorKind::InvalidDigit => IntErrorKind::InvalidDigit,
        std::num::IntErrorKind::PosOverflow => IntErrorKind::PosOverflow,
        k => panic!("unexpected kind {:?}", k),
    })
}

#[test]
fn parse_u64_values() {
    assert_eq!(parse_u64("42"), Ok(42));
    assert_eq!(parse_u64("+7"), Ok(7));
    assert_eq!(parse_u64("007"), Ok(7));
    assert_eq!(parse_u64("0"), Ok(0));
    assert_eq!(parse_u64("18446744073709551615"), Ok(u64::MAX));
}

#[test]
fn parse_u64_errors() {
    assert_eq!(parse_u64(""), Err(IntErrorKind::Empty));
    assert_eq!(parse_u64("+"), Err(IntErrorKind::InvalidDigit));
    assert_eq!(parse_u64("-"), Err(IntErrorKind::InvalidDigit));
    assert_eq!(parse_u64("-1"), Err(IntErrorKind::InvalidDigit));
    assert_eq!(parse_u64("12x"), Err(IntErrorKind::InvalidDigit));
    assert_eq!(parse_u64(" 12"), Err(IntErrorKind::InvalidDigit));
    assert_eq!(parse_u64("++1"), Err(IntErrorKind::InvalidDigit));
    assert_eq!(parse_u64("18446744073709551616"), Err(IntErrorKind::PosOverflow));
    assert_eq!(parse_u64("99999999999999999999x"), Err(IntErrorKind::PosOverflow));
    assert_eq!(parse_u64("9999999999999999999x"), Err(IntErrorKind::InvalidDigit));
}

#[test]
fn parse_u64_agrees_with_std() {
    let inputs = [
        "", "+", "-", "0", "+0", "-0", "00000000000000000000000001", "123456789012345678901",
        "18446744073709551615", "18446744073709551616", "1844674407370955161x", "1.5", "1e3",
        "٣", "+-1", "12 ", "4294967296", "99999999999999999999999999999999x",
    ];
    for s in inputs.iter() {
        assert_eq!(parse_u64(s), std_parse(s), "on {:?}", s);
    }
}

#[test]
fn parse_u64_reads_back_decimal() {
    for n in [0u64, 1, 9, 10, 99, 100, 12345, 4294967296, u64::MAX - 1, u64::MAX].iter() {
        assert_eq!(parse_u64(&n.to_string()), Ok(*n));
        assert_eq!(parse_u64(&format!("+{}", n)), Ok(*n));
    }
}
