use moc_cli::time::{parse_iso_simple, parse_rfc3339, TimeError};

const USEC_PER_DAY: u64 = 86_400_000_000;
const UNIX_EPOCH_USEC: u64 = 210_866_760_000_000_000;

/// Days since 1970-01-01 of a proleptic Gregorian date (an independent
/// formula, used as the reference).
fn days_from_civil(y: i64, m: i64, d: i64) -> i64 {
    let y = if m <= 2 { y - 1 } else { y };
    let era = if y >= 0 { y } else { y - 399 } / 400;
    let yoe = y - era * 400;
    let mp = (m + 9) % 12;
    let doy = (153 * mp + 2) / 5 + d - 1;
    let doe = yoe * 365 + yoe / 4 - yoe / 100 + doy;
    era * 146097 + doe - 719468
}

fn expected(y: i64, m: i64, d: i64, h: u64, mi: u64, s: u64) -> u64 {
    let days = days_from_civil(y, m, d);
    (UNIX_EPOCH_USEC as i64 + days * USEC_PER_DAY as i64) as u64 + (h * 3600 + mi * 60 + s) * 1_000_000
}

#[test]
fn iso_simple_epochs() {
    assert_eq!(parse_iso_simple("1970-01-01T00:00:00"), Ok(UNIX_EPOCH_USEC));
    // JD 2451545.0 is 2000-01-01T12:00:00.
    assert_eq!(parse_iso_simple("2000-01-01T12:00:00"), Ok(2_451_545 * USEC_PER_DAY));
    assert_eq!(parse_iso_simple("0000-01-01T00:00:00"), Ok(148_699_540_800_000_000));
    assert_eq!(parse_iso_simple("2003-04-15T10:20:30"), Ok(expected(2003, 4, 15, 10, 20, 30)));
}

#[test]
fn iso_simple_agrees_with_civil_days() {
    for y in [0i64, 1, 4, 99, 100, 400, 1582, 1899, 1900, 1999, 2000, 2001, 2024, 9999].iter() {
        for m in 1..=12i64 {
            for d in [1i64, 15, 28].iter() {
                let s = format!("{:04}-{:02}-{:02}T23:59:59", y, m, d);
                assert_eq!(parse_iso_simple(&s), Ok(expected(*y, m, *d, 23, 59, 59)), "{}", s);
            }
        }
    }
}

#[test]
fn iso_simple_days_are_consecutive() {
    let mut prev = parse_iso_simple("1999-12-31T00:00:00").unwrap();
    for s in ["2000-01-01T00:00:00", "2000-01-02T00:00:00"].iter() {
        let t = parse_iso_simple(s).unwrap();
        assert_eq!(t - prev, USEC_PER_DAY);
        prev = t;
    }
    let a = parse_iso_simple("2000-02-28T00:00:00").unwrap();
    let b = parse_iso_simple("2000-02-29T00:00:00").unwrap();
    let c = parse_iso_simple("2000-03-01T00:00:00").unwrap();
    assert_eq!((b - a, c - b), (USEC_PER_DAY, USEC_PER_DAY));
    let e = parse_iso_simple("1900-02-28T00:00:00").unwrap();
    let f = parse_iso_simple("1900-03-01T00:00:00").unwrap();
    assert_eq!(f - e, USEC_PER_DAY);
}

#[test]
fn iso_simple_errors() {
    assert_eq!(parse_iso_simple("1900-02-29T00:00:00"), Err(TimeError::OutOfRange));
    assert_eq!(parse_iso_simple("2001-13-01T00:00:00"), Err(TimeError::OutOfRange));
    assert_eq!(parse_iso_simple("2001-00-01T00:00:00"), Err(TimeError::OutOfRange));
    assert_eq!(parse_iso_simple("2001-04-31T00:00:00"), Err(TimeError::OutOfRange));
    assert_eq!(parse_iso_simple("2001-01-01T24:00:00"), Err(TimeError::OutOfRange));
    assert_eq!(parse_iso_simple("2001-01-01T00:60:00"), Err(TimeError::OutOfRange));
    assert_eq!(parse_iso_simple("2001-01-01T00:00:60"), Err(TimeError::OutOfRange));
    assert_eq!(parse_iso_simple("2001-01-01 00:00:00"), Err(TimeError::Malformed));
    assert_eq!(parse_iso_simple("2001-01-01t00:00:00"), Err(TimeError::Malformed));
    assert_eq!(parse_iso_simple("2001-01-01T00:00:0"), Err(TimeError::Malformed));
    assert_eq!(parse_iso_simple("2001-01-01T00:00:00Z"), Err(TimeError::Malformed));
    assert_eq!(parse_iso_simple("2001/01/01T00:00:00"), Err(TimeError::Malformed));
    assert_eq!(parse_iso_simple("20a1-01-01T00:00:00"), Err(TimeError::Malformed));
    assert_eq!(parse_iso_simple(""), Err(TimeError::Malformed));
}

#[test]
fn rfc3339_values() {
    assert_eq!(parse_rfc3339("1970-01-01T00:00:00Z"), Ok(UNIX_EPOCH_USEC));
    assert_eq!(parse_rfc3339("1970-01-01t00:00:00z"), Ok(UNIX_EPOCH_USEC));
    assert_eq!(parse_rfc3339("1970-01-01T01:00:00+01:00"), Ok(UNIX_EPOCH_USEC));
    assert_eq!(parse_rfc3339("1970-01-01T00:00:00-00:30"), Ok(UNIX_EPOCH_USEC + 1_800_000_000));
    assert_eq!(parse_rfc3339("1970-01-01T00:00:00.5Z"), Ok(UNIX_EPOCH_USEC + 500_000));
    assert_eq!(parse_rfc3339("1970-01-01T00:00:00.000001Z"), Ok(UNIX_EPOCH_USEC + 1));
    assert_eq!(parse_rfc3339("1970-01-01T00:00:00.1234567Z"), Ok(UNIX_EPOCH_USEC + 123_456));
}

#[test]
fn rfc3339_utc_is_iso_simple() {
    for s in ["1970-01-01T00:00:00", "2024-02-29T13:14:15", "0001-12-31T23:59:59"].iter() {
        assert_eq!(parse_rfc3339(&format!("{}Z", s)), parse_iso_simple(s));
    }
}

#[test]
fn rfc3339_errors() {
    assert_eq!(parse_rfc3339("1970-01-01T00:00:00"), Err(TimeError::Malformed));
    assert_eq!(parse_rfc3339("1970-01-01T00:00:00.Z"), Err(TimeError::Malformed));
    assert_eq!(parse_rfc3339("1970-01-01T00:00:00+0100"), Err(TimeError::Malformed));
    assert_eq!(parse_rfc3339("1970-01-01T00:00:00ZZ"), Err(TimeError::Malformed));
    assert_eq!(parse_rfc3339("1970-01-01 00:00:00Z"), Err(TimeError::Malformed));
    assert_eq!(parse_rfc3339("1970-01-01T00:00:00+24:00"), Err(TimeError::OutOfRange));
    assert_eq!(parse_rfc3339("1970-01-01T00:00:00+00:60"), Err(TimeError::OutOfRange));
    assert_eq!(parse_rfc3339("1970-02-30T00:00:00Z"), Err(TimeError::OutOfRange));
}
