//! The fields of one line of a textual input: a pair of coordinates, a
//! valued cell, a time range, a time and a position, a time range and a
//! position.

use vstd::prelude::*;

use crate::text::{law_split_once_rejoins, split_once, split_once_at, trim, trimmed};
use crate::uint::{decimal, law_parse_u64_decimal, parse_u64, parse_u64_spec, IntErrorKind};

verus! {

/// Why a line of input is skipped.
#[derive(Debug, Clone, Copy, PartialEq, Eq, Structural)]
pub enum LineError {
    /// The separator does not occur between the last two fields.
    NoSeparator,
    /// The separator does not occur after the time of a time and position.
    NoSeparatorAfterTime,
    /// The separator does not occur after the lower bound of a time range.
    NoSeparatorAfterTmin,
    /// The separator does not occur after the upper bound of a time range.
    NoSeparatorAfterTmax,
    /// The uniq field of a valued cell is not a `u64`.
    BadUniq(IntErrorKind),
    /// The cell is deeper than the MOC to build.
    CellTooDeep { cell_depth: u8, depth: u8 },
    /// The lower bound of a time range is larger than its upper bound.
    TminAfterTmax { tmin: u64, tmax: u64 },
}

/// The two fields of a line: the trimmed line split at the first separator.
pub open spec fn two_fields_spec(line: Seq<char>, sep: Seq<char>) -> Result<
    (Seq<char>, Seq<char>),
    LineError,
> {
    match split_once_at(trimmed(line), sep) {
        Some((a, b)) => Ok((a, b)),
        None => Err(LineError::NoSeparator),
    }
}

/// The two fields of `line` (coordinates, or the two bounds of a time
/// range): the trimmed line split at the first `sep`.
pub fn two_fields<'a>(line: &'a str, sep: &str) -> (r: Result<(&'a str, &'a str), LineError>)
    ensures
        match two_fields_spec(line@, sep@) {
            Ok((a, b)) => r matches Ok((x, y)) && x@ == a && y@ == b,
            Err(e) => r == Err::<(&str, &str), LineError>(e),
        },
{
    let t = trim(line);
    match split_once(t, sep) {
        Some((a, b)) => Ok((a, b)),
        None => Err(LineError::NoSeparator),
    }
}

/// A valued-cell line: its uniq number and the text of its value.
pub open spec fn uniq_and_value_spec(line: Seq<char>, sep: Seq<char>) -> Result<
    (u64, Seq<char>),
    LineError,
> {
    match two_fields_spec(line, sep) {
        Err(e) => Err(e),
        Ok((u, v)) => match parse_u64_spec(u) {
            Err(k) => Err(LineError::BadUniq(k)),
            Ok(n) => Ok((n, v)),
        },
    }
}

/// The uniq number and the (unparsed) value of a valued-cell line.
pub fn uniq_and_value<'a>(line: &'a str, sep: &str) -> (r: Result<(u64, &'a str), LineError>)
    ensures
        match uniq_and_value_spec(line@, sep@) {
            Ok((n, v)) => r matches Ok((m, y)) && m == n && y@ == v,
            Err(e) => r == Err::<(u64, &str), LineError>(e),
        },
{
    let (u, v) = two_fields(line, sep)?;
    match parse_u64(u) {
        Ok(n) => Ok((n, v)),
        Err(k) => Err(LineError::BadUniq(k)),
    }
}

/// A time-and-position line: time, longitude, latitude. The time is
/// separated from the trimmed line, then the rest is split once more.
pub open spec fn time_pos_fields_spec(line: Seq<char>, sep: Seq<char>) -> Result<
    (Seq<char>, Seq<char>, Seq<char>),
    LineError,
> {
    match split_once_at(trimmed(line), sep) {
        None => Err(LineError::NoSeparatorAfterTime),
        Some((t, rest)) => match split_once_at(rest, sep) {
            None => Err(LineError::NoSeparator),
            Some((lon, lat)) => Ok((t, lon, lat)),
        },
    }
}

/// The time, longitude and latitude fields of a time-and-position line.
pub fn time_pos_fields<'a>(line: &'a str, sep: &str) -> (r: Result<
    (&'a str, &'a str, &'a str),
    LineError,
>)
    ensures
        match time_pos_fields_spec(line@, sep@) {
            Ok((t, lon, lat)) => r matches Ok((x, y, z)) && x@ == t && y@ == lon && z@ == lat,
            Err(e) => r == Err::<(&str, &str, &str), LineError>(e),
        },
{
    let t = trim(line);
    match split_once(t, sep) {
        None => Err(LineError::NoSeparatorAfterTime),
        Some((time, rest)) => match split_once(rest, sep) {
            None => Err(LineError::NoSeparator),
            Some((lon, lat)) => Ok((time, lon, lat)),
        },
    }
}

/// A time-range-and-position line: lower bound, upper bound, longitude,
/// latitude. Each bound is separated from the trimmed rest of the line, then
/// the position is split once more.
pub open spec fn range_pos_fields_spec(line: Seq<char>, sep: Seq<char>) -> Result<
    (Seq<char>, Seq<char>, Seq<char>, Seq<char>),
    LineError,
> {
    match split_once_at(trimmed(line), sep) {
        None => Err(LineError::NoSeparatorAfterTmin),
        Some((tmin, rest)) => match split_once_at(trimmed(rest), sep) {
            None => Err(LineError::NoSeparatorAfterTmax),
            Some((tmax, pos)) => match split_once_at(pos, sep) {
                None => Err(LineError::NoSeparator),
                Some((lon, lat)) => Ok((tmin, tmax, lon, lat)),
            },
        },
    }
}

/// The lower bound, upper bound, longitude and latitude fields of a
/// time-range-and-position line.
pub fn range_pos_fields<'a>(line: &'a str, sep: &str) -> (r: Result<
    (&'a str, &'a str, &'a str, &'a str),
    LineError,
>)
    ensures
        match range_pos_fields_spec(line@, sep@) {
            Ok((a, b, c, d)) => r matches Ok((w, x, y, z)) && w@ == a && x@ == b && y@ == c && z@
                == d,
            Err(e) => r == Err::<(&str, &str, &str, &str), LineError>(e),
        },
{
    let t = trim(line);
    match split_once(t, sep) {
        None => Err(LineError::NoSeparatorAfterTmin),
        Some((tmin, rest)) => {
            let rest = trim(rest);
            match split_once(rest, sep) {
                None => Err(LineError::NoSeparatorAfterTmax),
                Some((tmax, pos)) => match split_once(pos, sep) {
                    None => Err(LineError::NoSeparator),
                    Some((lon, lat)) => Ok((tmin, tmax, lon, lat)),
                },
            }
        },
    }
}

/// A time range `[tmin, tmax]`, refused where `tmin > tmax`.
pub fn checked_time_range(tmin: u64, tmax: u64) -> (r: Result<(u64, u64), LineError>)
    ensures
        tmin <= tmax ==> r == Ok::<(u64, u64), LineError>((tmin, tmax)),
        tmin > tmax ==> r == Err::<(u64, u64), LineError>(LineError::TminAfterTmax { tmin, tmax }),
{
    if tmin > tmax {
        Err(LineError::TminAfterTmax { tmin, tmax })
    } else {
        Ok((tmin, tmax))
    }
}

// ---------------------------------------------------------------------------
// Laws
// ---------------------------------------------------------------------------

/// The fields of a line, joined again by the separator, give back the
/// trimmed line; a line is refused for want of a separator exactly where the
/// separator does not occur in the trimmed line.
pub proof fn law_two_fields_rejoin(line: Seq<char>, sep: Seq<char>)
    ensures
        two_fields_spec(line, sep) matches Ok((a, b)) ==> a + sep + b == trimmed(line),
        two_fields_spec(line, sep) is Err <==> forall|k: int|
            !crate::text::occurs_at(trimmed(line), sep, k),
{
    law_split_once_rejoins(trimmed(line), sep);
}

/// The time, longitude and latitude of a time-and-position line, joined again
/// by the separator, give back the trimmed line.
pub proof fn law_time_pos_fields_rejoin(line: Seq<char>, sep: Seq<char>)
    ensures
        time_pos_fields_spec(line, sep) matches Ok((t, lon, lat)) ==> t + sep + lon + sep + lat
            == trimmed(line),
{
    law_split_once_rejoins(trimmed(line), sep);
    if let Some((t, rest)) = split_once_at(trimmed(line), sep) {
        law_split_once_rejoins(rest, sep);
        if let Some((lon, lat)) = split_once_at(rest, sep) {
            assert(t + sep + lon + sep + lat =~= t + sep + (lon + sep + lat));
        }
    }
}

/// The fields of a time-range-and-position line: the lower bound, the
/// separator and some rest give back the trimmed line, and the upper bound,
/// longitude and latitude joined by the separator give back that rest,
/// trimmed.
pub proof fn law_range_pos_fields_rejoin(line: Seq<char>, sep: Seq<char>)
    ensures
        range_pos_fields_spec(line, sep) matches Ok((tmin, tmax, lon, lat)) ==> exists|
            rest: Seq<char>,
        |
            tmin + sep + rest == trimmed(line) && tmax + sep + lon + sep + lat == trimmed(rest),
{
    law_split_once_rejoins(trimmed(line), sep);
    if let Some((tmin, rest)) = split_once_at(trimmed(line), sep) {
        law_split_once_rejoins(trimmed(rest), sep);
        if let Some((tmax, pos)) = split_once_at(trimmed(rest), sep) {
            law_split_once_rejoins(pos, sep);
            if let Some((lon, lat)) = split_once_at(pos, sep) {
                assert(tmax + sep + lon + sep + lat =~= tmax + sep + (lon + sep + lat));
                assert(tmin + sep + rest == trimmed(line));
            }
        }
    }
}

/// A valued-cell line gives the number its first field is and the text of
/// its second field: every `u64` written in decimal is read back, and a first
/// field that is not a `u64` refuses the line for that reason.
pub proof fn law_uniq_and_value_reads_first_field(line: Seq<char>, sep: Seq<char>, n: u64)
    ensures
        two_fields_spec(line, sep) matches Ok((u, v)) ==> (parse_u64_spec(u) matches Ok(m) ==> (
        uniq_and_value_spec(line, sep) == Ok::<(u64, Seq<char>), LineError>((m, v)))),
        two_fields_spec(line, sep) matches Ok((u, v)) ==> (parse_u64_spec(u) matches Err(k) ==> (
        uniq_and_value_spec(line, sep) == Err::<(u64, Seq<char>), LineError>(
            LineError::BadUniq(k),
        ))),
        two_fields_spec(line, sep) matches Ok((u, v)) ==> (u == decimal(n as nat) ==> (
        uniq_and_value_spec(line, sep) == Ok::<(u64, Seq<char>), LineError>((n, v)))),
        two_fields_spec(line, sep) matches Err(e) ==> uniq_and_value_spec(line, sep) == Err::<
            (u64, Seq<char>),
            LineError,
        >(e),
{
    law_parse_u64_decimal(n);
}

} // verus!
