use moc_cli::lines::{
    checked_time_range, range_pos_fields, time_pos_fields, two_fields, uniq_and_value, LineError,
};
use moc_cli::uint::IntErrorKind;

#[test]
fn two_fields_of_a_position() {
    assert_eq!(two_fields("  10.5 -20.25 \n", " "), Ok(("10.5", "-20.25")));
    assert_eq!(two_fields("10.5,-20.25", ","), Ok(("10.5", "-20.25")));
    assert_eq!(two_fields("1 2 3", " "), Ok(("1", "2 3")));
    assert_eq!(two_fields("10.5", " "), Err(LineError::NoSeparator));
    assert_eq!(two_fields("  10.5  ", " "), Err(LineError::NoSeparator));
}

#[test]
fn two_fields_rejoin_to_the_trimmed_line() {
    for line in [" a b ", "x,y,z", "\t1;2\n"].iter() {
        for sep in [" ", ",", ";"].iter() {
            if let Ok((a, b)) = two_fields(line, sep) {
                assert_eq!(format!("{}{}{}", a, sep, b), line.trim());
            }
        }
    }
}

#[test]
fn uniq_and_value_of_a_valued_cell() {
    assert_eq!(uniq_and_value("1024,0.125", ","), Ok((1024, "0.125")));
    assert_eq!(uniq_and_value(" 16 1e-3 ", " "), Ok((16, "1e-3")));
    assert_eq!(uniq_and_value("16", ","), Err(LineError::NoSeparator));
    assert_eq!(uniq_and_value("x,1", ","), Err(LineError::BadUniq(IntErrorKind::InvalidDigit)));
    assert_eq!(uniq_and_value(",1", ","), Err(LineError::BadUniq(IntErrorKind::Empty)));
    assert_eq!(
        uniq_and_value("99999999999999999999,1", ","),
        Err(LineError::BadUniq(IntErrorKind::PosOverflow))
    );
}

#[test]
fn time_pos_fields_of_a_line() {
    assert_eq!(time_pos_fields("2450000.5,10.0,20.0", ","), Ok(("2450000.5", "10.0", "20.0")));
    assert_eq!(time_pos_fields(" 1 2 3 4 ", " "), Ok(("1", "2", "3 4")));
    assert_eq!(time_pos_fields("2450000.5", ","), Err(LineError::NoSeparatorAfterTime));
    assert_eq!(time_pos_fields("2450000.5,10.0", ","), Err(LineError::NoSeparator));
}

#[test]
fn range_pos_fields_of_a_line() {
    assert_eq!(
        range_pos_fields("2000-01-01T00:00:00,2000-01-02T00:00:00,10,20", ","),
        Ok(("2000-01-01T00:00:00", "2000-01-02T00:00:00", "10", "20"))
    );
    assert_eq!(range_pos_fields("a   b c d", " "), Ok(("a", "b", "c", "d")));
    assert_eq!(range_pos_fields("a", ","), Err(LineError::NoSeparatorAfterTmin));
    assert_eq!(range_pos_fields("a,b", ","), Err(LineError::NoSeparatorAfterTmax));
    assert_eq!(range_pos_fields("a,b,c", ","), Err(LineError::NoSeparator));
}

#[test]
fn time_range_order() {
    assert_eq!(checked_time_range(3, 5), Ok((3, 5)));
    assert_eq!(checked_time_range(5, 5), Ok((5, 5)));
    assert_eq!(checked_time_range(6, 5), Err(LineError::TminAfterTmax { tmin: 6, tmax: 5 }));
}

#[test]
fn time_pos_fields_rejoin_to_the_trimmed_line() {
    for line in [" 1,2,3 ", "1,2,3,4", "t x y"].iter() {
        for sep in [",", " "].iter() {
            if let Ok((t, lon, lat)) = time_pos_fields(line, sep) {
                assert_eq!(format!("{}{}{}{}{}", t, sep, lon, sep, lat), line.trim());
            }
        }
    }
}

#[test]
fn range_pos_fields_rejoin() {
    let line = " 1, 2,3,4 ";
    let (tmin, tmax, lon, lat) = range_pos_fields(line, ",").unwrap();
    let (_, rest) = line.trim().split_once(",").unwrap();
    assert_eq!(format!("{},{}", tmin, rest), line.trim());
    assert_eq!(format!("{},{},{}", tmax, lon, lat), rest.trim());
}
