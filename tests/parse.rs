use acmegen::{parse_seconds, Duration, Instant, IntErrorKind};

#[test]
fn parses_whole_seconds() {
    assert_eq!(parse_seconds("60"), Ok(Duration::from_secs(60)));
    assert_eq!(parse_seconds("600").unwrap().nanos, 600_000_000_000);
    assert_eq!(parse_seconds("0"), Ok(Duration::from_nanos(0)));
    assert_eq!(parse_seconds("+7"), Ok(Duration::from_secs(7)));
    assert_eq!(parse_seconds("007"), Ok(Duration::from_secs(7)));
}

#[test]
fn largest_value_parses() {
    assert_eq!(
        parse_seconds("18446744073709551615"),
        Ok(Duration::from_secs(u64::MAX))
    );
}

#[test]
fn parse_errors() {
    assert_eq!(parse_seconds(""), Err(IntErrorKind::Empty));
    assert_eq!(parse_seconds("+"), Err(IntErrorKind::InvalidDigit));
    assert_eq!(parse_seconds("-"), Err(IntErrorKind::InvalidDigit));
    assert_eq!(parse_seconds("-5"), Err(IntErrorKind::InvalidDigit));
    assert_eq!(parse_seconds("12a"), Err(IntErrorKind::InvalidDigit));
    assert_eq!(parse_seconds(" 1"), Err(IntErrorKind::InvalidDigit));
    assert_eq!(parse_seconds("18446744073709551616"), Err(IntErrorKind::PosOverflow));
    assert_eq!(parse_seconds("99999999999999999999x"), Err(IntErrorKind::PosOverflow));
}

#[test]
fn parse_agrees_with_std() {
    for s in ["1", "+1", "-1", "", "+", "1x", "x1", "300", "18446744073709551615", "18446744073709551616", "٣"] {
        let ours = parse_seconds(s).map(|d| d.nanos);
        let std_result = s.parse::<u64>().map(|v| v as u128 * 1_000_000_000).map_err(|_| ());
        assert_eq!(ours.map_err(|_| ()), std_result, "input {:?}", s);
    }
}

#[test]
fn instant_since() {
    let a = Instant::from_nanos(5);
    let b = Instant::from_nanos(12);
    assert_eq!(b.since(&a), Duration::from_nanos(7));
    assert_eq!(a.since(&b), Duration::from_nanos(0));
}
