//! Gregorian date-times, written `YYYY-MM-DDTHH:MM:SS` or in RFC 3339,
//! turned into microseconds since JD=0 (the origin of the julian dates),
//! with no conversion of the time scale.

use vstd::prelude::*;

use crate::text::chars_of;
use crate::uint::{
    digit_char,
    digits_value,
    is_digit,
    leading_digits,
    lemma_digit_char,
    lemma_leading_digits_at,
};

verus! {

broadcast use vstd::seq_lib::group_seq_properties;

/// Why a text is not a date-time.
#[derive(Debug, Clone, Copy, PartialEq, Eq, Structural)]
pub enum TimeError {
    /// The text does not have the shape of the notation.
    Malformed,
    /// A field is out of its range: month, day of the month, hour, minute,
    /// second, or time offset.
    OutOfRange,
}

/// Microseconds in a second.
pub const USEC_PER_SEC: u64 = 1_000_000;

/// The julian date of 0000-01-01T00:00 (proleptic Gregorian calendar) is
/// this number of days plus one half.
pub const JD0_TO_YEAR0_DAYS: u64 = 1_721_059;

/// `y` is a leap year of the Gregorian calendar.
pub open spec fn is_leap_year(y: int) -> bool {
    y % 4 == 0 && (y % 100 != 0 || y % 400 == 0)
}

/// The number of days of month `m` (1 to 12) of year `y`.
pub open spec fn days_in_month(y: int, m: int) -> int {
    if m == 2 {
        if is_leap_year(y) {
            29
        } else {
            28
        }
    } else if m == 4 || m == 6 || m == 9 || m == 11 {
        30
    } else {
        31
    }
}

/// The number of days from 0000-01-01 to the first day of year `y`.
pub open spec fn days_before_year(y: nat) -> nat
    decreases y,
{
    if y == 0 {
        0
    } else {
        days_before_year((y - 1) as nat) + if is_leap_year(y - 1) {
            366nat
        } else {
            365nat
        }
    }
}

/// The number of days from the first day of year `y` to the first day of
/// its month `m`.
pub open spec fn days_before_month(y: int, m: nat) -> nat
    decreases m,
{
    if m <= 1 {
        0
    } else {
        days_before_month(y, (m - 1) as nat) + days_in_month(y, m - 1) as nat
    }
}

/// The number of days from 0000-01-01 to the date `y-m-d`.
pub open spec fn day_number(y: nat, m: nat, d: nat) -> int {
    days_before_year(y) + days_before_month(y as int, m) + d - 1
}

/// Microseconds since JD=0 of the date-time `y-m-dTh:mi:s`.
pub open spec fn usec_since_jd0(y: nat, m: nat, d: nat, h: nat, mi: nat, s: nat) -> int {
    ((day_number(y, m, d) + JD0_TO_YEAR0_DAYS) * 86400 + 43200 + 3600 * h + 60 * mi + s)
        * USEC_PER_SEC
}

/// Every character of `ds` is a decimal digit.
pub open spec fn all_digits(ds: Seq<char>) -> bool {
    forall|i: int| 0 <= i < ds.len() ==> is_digit(#[trigger] ds[i])
}

/// The value of the `n` digits of `s` from position `i`.
pub open spec fn field(s: Seq<char>, i: int, n: int) -> nat {
    digits_value(s.subrange(i, i + n))
}

/// `s` starts with `YYYY-MM-DD?HH:MM:SS`, each letter a digit, whatever the
/// character at `?`.
pub open spec fn has_date_time_shape(s: Seq<char>) -> bool {
    &&& s.len() >= 19
    &&& all_digits(s.subrange(0, 4))
    &&& s[4] == '-'
    &&& all_digits(s.subrange(5, 7))
    &&& s[7] == '-'
    &&& all_digits(s.subrange(8, 10))
    &&& all_digits(s.subrange(11, 13))
    &&& s[13] == ':'
    &&& all_digits(s.subrange(14, 16))
    &&& s[16] == ':'
    &&& all_digits(s.subrange(17, 19))
}

/// The fields of a date-time are in their ranges.
pub open spec fn valid_date_time(y: nat, m: nat, d: nat, h: nat, mi: nat, s: nat) -> bool {
    &&& 1 <= m <= 12
    &&& 1 <= d <= days_in_month(y as int, m as int)
    &&& h < 24
    &&& mi < 60
    &&& s < 60
}

/// Microseconds since JD=0 of the date-time at the start of `s`, or why it
/// is not one.
pub open spec fn date_time_spec(s: Seq<char>) -> Result<u64, TimeError> {
    let y = field(s, 0, 4);
    let m = field(s, 5, 2);
    let d = field(s, 8, 2);
    let h = field(s, 11, 2);
    let mi = field(s, 14, 2);
    let sec = field(s, 17, 2);
    if !has_date_time_shape(s) {
        Err(TimeError::Malformed)
    } else if !valid_date_time(y, m, d, h, mi, sec) {
        Err(TimeError::OutOfRange)
    } else {
        Ok(usec_since_jd0(y, m, d, h, mi, sec) as u64)
    }
}

/// What a simple ISO date-time `YYYY-MM-DDTHH:MM:SS` (exactly, with a
/// capital `T`) gives.
pub open spec fn iso_simple_spec(s: Seq<char>) -> Result<u64, TimeError> {
    if s.len() != 19 || s[10] != 'T' {
        Err(TimeError::Malformed)
    } else {
        date_time_spec(s)
    }
}

/// `10^k`.
pub open spec fn pow10(k: nat) -> nat
    decreases k,
{
    if k == 0 {
        1
    } else {
        10 * pow10((k - 1) as nat)
    }
}

proof fn lemma_pow10_bound(k: nat)
    requires
        k <= 6,
    ensures
        1 <= pow10(k) <= 1_000_000,
{
    reveal_with_fuel(pow10, 7);
}

/// Reads the `n` digits of `v` from position `from`.
fn read_digits(v: &Vec<char>, from: usize, n: usize) -> (r: Option<u64>)
    requires
        from + n <= v.len(),
        n <= 6,
    ensures
        all_digits(v@.subrange(from as int, from + n)) ==> (r matches Some(x) && x
            == digits_value(v@.subrange(from as int, from + n))),
        !all_digits(v@.subrange(from as int, from + n)) ==> r is None,
        r matches Some(x) ==> x < pow10(n as nat),
{
    let ghost ds = v@.subrange(from as int, from + n);
    let mut acc: u64 = 0;
    let mut k: usize = 0;
    proof {
        lemma_pow10_bound(0);
        assert(ds.take(0) =~= Seq::<char>::empty());
    }
    while k < n
        invariant
            k <= n <= 6,
            from + n <= v.len(),
            ds == v@.subrange(from as int, from + n),
            forall|q: int| 0 <= q < k ==> is_digit(#[trigger] ds[q]),
            acc == digits_value(ds.take(k as int)),
            acc < pow10(k as nat),
        decreases n - k,
    {
        let c = v[from + k];
        assert(ds[k as int] == c);
        let u = c as u32;
        if u < 48 || u > 57 {
            return None;
        }
        proof {
            lemma_pow10_bound((k + 1) as nat);
            assert(ds.take(k + 1).drop_last() =~= ds.take(k as int));
            assert(ds.take(k + 1).last() == c);
        }
        acc = acc * 10 + (u - 48) as u64;
        k = k + 1;
    }
    proof {
        assert(ds.take(n as int) =~= ds);
    }
    Some(acc)
}

/// The days of month `m` (1 to 12) of year `y`.
fn month_days(y: u64, m: u64) -> (r: u64)
    requires
        1 <= m <= 12,
    ensures
        r == days_in_month(y as int, m as int),
{
    if m == 2 {
        if y % 4 == 0 && (y % 100 != 0 || y % 400 == 0) {
            29
        } else {
            28
        }
    } else if m == 4 || m == 6 || m == 9 || m == 11 {
        30
    } else {
        31
    }
}

proof fn lemma_step_4(z: int)
    requires
        z >= 0,
    ensures
        (z + 4) / 4 == (z + 3) / 4 + if z % 4 == 0 {
            1int
        } else {
            0int
        },
{
}

proof fn lemma_step_100(z: int)
    requires
        z >= 0,
    ensures
        (z + 100) / 100 == (z + 99) / 100 + if z % 100 == 0 {
            1int
        } else {
            0int
        },
{
}

proof fn lemma_step_400(z: int)
    requires
        z >= 0,
    ensures
        (z + 400) / 400 == (z + 399) / 400 + if z % 400 == 0 {
            1int
        } else {
            0int
        },
{
}

proof fn lemma_days_before_year_closed(y: nat)
    ensures
        days_before_year(y) == 365 * y + (y + 3) / 4 - (y + 99) / 100 + (y + 399) / 400,
    decreases y,
{
    if y > 0 {
        let z = (y - 1) as nat;
        lemma_days_before_year_closed(z);
        lemma_step_4(z as int);
        lemma_step_100(z as int);
        lemma_step_400(z as int);
        assert(y == z + 1);
        assert(days_before_year(y) == days_before_year(z) + if is_leap_year(z as int) {
            366nat
        } else {
            365nat
        });
    }
}

/// The days from 0000-01-01 to the first day of year `y`.
fn year_days(y: u64) -> (r: u64)
    requires
        y <= 9999,
    ensures
        r == days_before_year(y as nat),
        r <= 3_652_060,
{
    proof {
        lemma_days_before_year_closed(y as nat);
    }
    365 * y + (y + 3) / 4 - (y + 99) / 100 + (y + 399) / 400
}

/// The days from the first day of year `y` to the first day of its month `m`.
fn month_offset_days(y: u64, m: u64) -> (r: u64)
    requires
        1 <= m <= 12,
    ensures
        r == days_before_month(y as int, m as nat),
        r <= 335,
{
    reveal_with_fuel(days_before_month, 13);
    let leap: bool = y % 4 == 0 && (y % 100 != 0 || y % 400 == 0);
    let extra: u64 = if leap && m > 2 {
        1
    } else {
        0
    };
    let base: u64 = if m == 1 {
        0
    } else if m == 2 {
        31
    } else if m == 3 {
        59
    } else if m == 4 {
        90
    } else if m == 5 {
        120
    } else if m == 6 {
        151
    } else if m == 7 {
        181
    } else if m == 8 {
        212
    } else if m == 9 {
        243
    } else if m == 10 {
        273
    } else if m == 11 {
        304
    } else {
        334
    };
    base + extra
}

/// Reads the date-time at the start of `v` as `date_time_spec` does.
fn date_time(v: &Vec<char>) -> (r: Result<u64, TimeError>)
    requires
        v.len() >= 19,
    ensures
        r == date_time_spec(v@),
        r matches Ok(x) ==> 148_000_000_000_000_000 <= x <= 465_000_000_000_000_000,
{
    let ghost s = v@;
    if v[4] != '-' || v[7] != '-' || v[13] != ':' || v[16] != ':' {
        return Err(TimeError::Malformed);
    }
    let oy = read_digits(v, 0, 4);
    let om = read_digits(v, 5, 2);
    let od = read_digits(v, 8, 2);
    let oh = read_digits(v, 11, 2);
    let omi = read_digits(v, 14, 2);
    let os = read_digits(v, 17, 2);
    match (oy, om, od, oh, omi, os) {
        (Some(y), Some(m), Some(d), Some(h), Some(mi), Some(sec)) => {
            proof {
                lemma_pow10_bound(4);
                lemma_pow10_bound(2);
                reveal_with_fuel(pow10, 5);
            }
            if m < 1 || m > 12 || h >= 24 || mi >= 60 || sec >= 60 {
                return Err(TimeError::OutOfRange);
            }
            let md = month_days(y, m);
            if d < 1 || d > md {
                return Err(TimeError::OutOfRange);
            }
            let days = year_days(y) + month_offset_days(y, m) + d - 1;
            proof {
                assert(days == day_number(y as nat, m as nat, d as nat));
                assert(days <= 9999 * 366 + 366 + 31);
            }
            let secs = (days + JD0_TO_YEAR0_DAYS) * 86400 + 43200 + 3600 * h + 60 * mi + sec;
            Ok(secs * USEC_PER_SEC)
        },
        _ => Err(TimeError::Malformed),
    }
}

/// Microseconds since JD=0 of the simple ISO date-time `s`, written exactly
/// `YYYY-MM-DDTHH:MM:SS` (Gregorian calendar, no time scale conversion).
pub fn parse_iso_simple(s: &str) -> (r: Result<u64, TimeError>)
    ensures
        r == iso_simple_spec(s@),
{
    let v = chars_of(s);
    if v.len() != 19 || v[10] != 'T' {
        return Err(TimeError::Malformed);
    }
    date_time(&v)
}

/// The time zone that ends an RFC 3339 date-time: `Z` (or `z`) for UTC, or
/// `+HH:MM` / `-HH:MM`; gives whether the offset is negative, its hours and
/// its minutes.
pub open spec fn zone_spec(z: Seq<char>) -> Option<(bool, nat, nat)> {
    if z.len() == 1 && (z[0] == 'Z' || z[0] == 'z') {
        Some((false, 0nat, 0nat))
    } else if z.len() == 6 && (z[0] == '+' || z[0] == '-') && all_digits(z.subrange(1, 3)) && z[3]
        == ':' && all_digits(z.subrange(4, 6)) {
        Some((z[0] == '-', field(z, 1, 2), field(z, 4, 2)))
    } else {
        None
    }
}

/// The microseconds that the `k` fraction digits `ds` of a second stand for
/// (digits after the sixth are dropped).
pub open spec fn fraction_usec(ds: Seq<char>, k: nat) -> nat {
    let n = if k < 6 {
        k
    } else {
        6
    };
    digits_value(ds.take(n as int)) * pow10((6 - n) as nat)
}

/// What an RFC 3339 date-time `YYYY-MM-DDTHH:MM:SS[.F...](Z|+HH:MM|-HH:MM)`
/// (with `T` or `t`) gives: microseconds since JD=0 of the UTC instant.
pub open spec fn rfc3339_spec(s: Seq<char>) -> Result<u64, TimeError> {
    if s.len() < 20 || !(s[10] == 'T' || s[10] == 't') {
        Err(TimeError::Malformed)
    } else {
        match date_time_spec(s) {
            Err(e) => Err(e),
            Ok(local) => {
                let tail = s.subrange(19, s.len() as int);
                let dot = tail[0] == '.';
                let k = if dot {
                    leading_digits(tail.drop_first())
                } else {
                    0
                };
                let zone = tail.subrange(if dot { 1 + k as int } else { 0 }, tail.len() as int);
                if dot && k == 0 {
                    Err(TimeError::Malformed)
                } else {
                    match zone_spec(zone) {
                        None => Err(TimeError::Malformed),
                        Some((neg, oh, om)) => if oh >= 24 || om >= 60 {
                            Err(TimeError::OutOfRange)
                        } else {
                            let frac = fraction_usec(tail.drop_first(), k);
                            let off = (3600 * oh + 60 * om) * USEC_PER_SEC;
                            Ok(
                                (if neg {
                                    local + frac + off
                                } else {
                                    local + frac - off
                                }) as u64,
                            )
                        },
                    }
                }
            },
        }
    }
}

/// The scale `10^(6 - n)` of `n` fraction digits.
fn fraction_scale(n: u64) -> (r: u64)
    requires
        1 <= n <= 6,
    ensures
        r == pow10((6 - n) as nat),
        r <= 100_000,
{
    reveal_with_fuel(pow10, 7);
    if n == 1 {
        100_000
    } else if n == 2 {
        10_000
    } else if n == 3 {
        1_000
    } else if n == 4 {
        100
    } else if n == 5 {
        10
    } else {
        1
    }
}

#[verifier::rlimit(60)]
#[verifier::spinoff_prover]
/// Microseconds since JD=0 of the RFC 3339 date-time `s`
/// (`YYYY-MM-DDTHH:MM:SS`, an optional fraction of second, then `Z` or an
/// offset `+HH:MM` / `-HH:MM`; Gregorian calendar, no time scale conversion).
pub fn parse_rfc3339(s: &str) -> (r: Result<u64, TimeError>)
    ensures
        r == rfc3339_spec(s@),
{
    let v = chars_of(s);
    let len = v.len();
    if len < 20 || !(v[10] == 'T' || v[10] == 't') {
        return Err(TimeError::Malformed);
    }
    let local = match date_time(&v) {
        Err(e) => {
            return Err(e);
        },
        Ok(x) => x,
    };
    let ghost tail = v@.subrange(19, len as int);
    assert(tail[0] == v@[19]);
    let dot = v[19] == '.';
    let mut frac: u64 = 0;
    let mut zs: usize = 19;
    let ghost mut kk: nat = 0;
    proof {
        assert(tail.drop_first().take(0) =~= Seq::<char>::empty());
        assert(digits_value(Seq::<char>::empty()) == 0);
        assert(fraction_usec(tail.drop_first(), 0) == 0);
    }
    if dot {
        let ghost ds = tail.drop_first();
        let mut e: usize = 20;
        while e < len && v[e] as u32 >= 48 && v[e] as u32 <= 57
            invariant
                20 <= e <= len == v.len(),
                ds == v@.subrange(20, len as int),
                forall|q: int| 0 <= q < e - 20 ==> is_digit(#[trigger] ds[q]),
            decreases len - e,
        {
            assert(ds[e - 20] == v@[e as int]);
            e = e + 1;
        }
        proof {
            if e < len {
                assert(ds[e - 20] == v@[e as int]);
            }
            lemma_leading_digits_at(ds, e - 20);
            assert(tail.drop_first() =~= ds);
        }
        let k = e - 20;
        if k == 0 {
            return Err(TimeError::Malformed);
        }
        let n: usize = if k < 6 {
            k
        } else {
            6
        };
        let value = match read_digits(&v, 20, n) {
            Some(x) => x,
            None => {
                proof {
                    assert forall|q: int| 0 <= q < n implies is_digit(
                        #[trigger] v@.subrange(20, 20 + n)[q],
                    ) by {
                        assert(v@.subrange(20, 20 + n)[q] == ds[q]);
                    }
                }
                return Err(TimeError::Malformed);
            },
        };
        proof {
            assert forall|q: int| 0 <= q < n implies is_digit(
                #[trigger] v@.subrange(20, 20 + n)[q],
            ) by {
                assert(v@.subrange(20, 20 + n)[q] == ds[q]);
            }
            assert(v@.subrange(20, 20 + n) =~= ds.take(n as int));
            lemma_pow10_bound(n as nat);
        }
        let scale = fraction_scale(n as u64);
        assert(value * scale <= 999_999 * 100_000) by (nonlinear_arith)
            requires
                value < 1_000_000,
                scale <= 100_000,
        ;
        frac = value * scale;
        zs = e;
        proof {
            kk = k as nat;
            assert(frac == fraction_usec(tail.drop_first(), kk));
        }
    }
    assert(frac == fraction_usec(tail.drop_first(), kk));
    assert(kk == if dot {
        leading_digits(tail.drop_first())
    } else {
        0
    });
    assert(zs == 19 + if dot {
        1 + kk
    } else {
        0
    });
    let ghost zone = tail.subrange(if dot { 1 + (zs - 20) as int } else { 0 }, tail.len() as int);
    assert(zone =~= v@.subrange(zs as int, len as int));
    let zl = len - zs;
    if zl == 1 && (v[zs] == 'Z' || v[zs] == 'z') {
        assert(zone[0] == v@[zs as int]);
        return Ok(local + frac);
    }
    if zl != 6 || !(v[zs] == '+' || v[zs] == '-') || v[zs + 3] != ':' {
        proof {
            if zl == 1 {
                assert(zone[0] == v@[zs as int]);
            }
            if zl == 6 {
                assert(zone[0] == v@[zs as int]);
                assert(zone[3] == v@[zs + 3]);
            }
        }
        return Err(TimeError::Malformed);
    }
    assert(zone[0] == v@[zs as int]);
    assert(zone[3] == v@[zs + 3]);
    assert(zone.subrange(1, 3) =~= v@.subrange(zs + 1, zs + 3));
    assert(zone.subrange(4, 6) =~= v@.subrange(zs + 4, zs + 6));
    let ooh = read_digits(&v, zs + 1, 2);
    let oom = read_digits(&v, zs + 4, 2);
    match (ooh, oom) {
        (Some(oh), Some(om)) => {
            if oh >= 24 || om >= 60 {
                return Err(TimeError::OutOfRange);
            }
            let off = (3600 * oh + 60 * om) * USEC_PER_SEC;
            if v[zs] == '-' {
                Ok(local + frac + off)
            } else {
                Ok(local + frac - off)
            }
        },
        _ => Err(TimeError::Malformed),
    }
}

// ---------------------------------------------------------------------------
// Laws
// ---------------------------------------------------------------------------

/// The calendar has no gap: the day after a valid date has the next day
/// number, within a month, from the last day of a month to the first of the
/// next, and from December 31 to January 1.
pub proof fn law_days_consecutive(y: nat, m: nat, d: nat)
    requires
        1 <= m <= 12,
        1 <= d <= days_in_month(y as int, m as int),
    ensures
        d < days_in_month(y as int, m as int) ==> day_number(y, m, d + 1) == day_number(y, m, d)
            + 1,
        d == days_in_month(y as int, m as int) && m < 12 ==> day_number(y, m + 1, 1)
            == day_number(y, m, d) + 1,
        d == days_in_month(y as int, m as int) && m == 12 ==> day_number(y + 1, 1, 1)
            == day_number(y, m, d) + 1,
{
    reveal_with_fuel(days_before_month, 13);
    assert(days_before_year(y + 1) == days_before_year(y) + if is_leap_year(y as int) {
        366nat
    } else {
        365nat
    });
}

/// A time of day adds its seconds to the start of the day.
pub proof fn law_time_of_day(y: nat, m: nat, d: nat, h: nat, mi: nat, s: nat)
    ensures
        usec_since_jd0(y, m, d, h, mi, s) == usec_since_jd0(y, m, d, 0, 0, 0) + (3600 * h + 60
            * mi + s) * USEC_PER_SEC,
{
    assert(((day_number(y, m, d) + JD0_TO_YEAR0_DAYS) * 86400 + 43200 + 3600 * h + 60 * mi + s)
        * USEC_PER_SEC == ((day_number(y, m, d) + JD0_TO_YEAR0_DAYS) * 86400 + 43200)
        * USEC_PER_SEC + (3600 * h + 60 * mi + s) * USEC_PER_SEC) by (nonlinear_arith);
}

/// An RFC 3339 date-time in UTC (`Z`) is the simple ISO date-time that
/// precedes the `Z`.
pub proof fn law_rfc3339_utc_is_iso_simple(s: Seq<char>)
    requires
        s.len() == 19,
        s[10] == 'T',
    ensures
        rfc3339_spec(s.push('Z')) == iso_simple_spec(s),
{
    let t = s.push('Z');
    assert forall|i: int, j: int| 0 <= i <= j <= 19 implies #[trigger] t.subrange(i, j)
        == s.subrange(i, j) by {
        assert(t.subrange(i, j) =~= s.subrange(i, j));
    }
    assert(date_time_spec(t) == date_time_spec(s));
    let tail = t.subrange(19, 20);
    assert(tail =~= seq!['Z']);
    assert(tail.subrange(0, 1) =~= seq!['Z']);
    if let Ok(local) = date_time_spec(s) {
        assert(tail.drop_first().take(0) =~= Seq::<char>::empty());
        assert(digits_value(Seq::<char>::empty()) == 0);
    }
}

/// `x` (below 100) written with two digits.
pub open spec fn two_digits(x: nat) -> Seq<char> {
    seq![digit_char(x / 10), digit_char(x % 10)]
}

/// `x` (below 10000) written with four digits.
pub open spec fn four_digits(x: nat) -> Seq<char> {
    seq![digit_char(x / 1000), digit_char((x / 100) % 10), digit_char((x / 10) % 10), digit_char(x % 10)]
}

/// The simple ISO text `YYYY-MM-DDTHH:MM:SS` of a date-time.
pub open spec fn iso_text(y: nat, m: nat, d: nat, h: nat, mi: nat, s: nat) -> Seq<char> {
    four_digits(y) + seq!['-'] + two_digits(m) + seq!['-'] + two_digits(d) + seq!['T'] + two_digits(h)
        + seq![':'] + two_digits(mi) + seq![':'] + two_digits(s)
}

proof fn lemma_two_digits(x: nat)
    requires
        x < 100,
    ensures
        all_digits(two_digits(x)),
        digits_value(two_digits(x)) == x,
{
    lemma_digit_char(x / 10);
    lemma_digit_char(x % 10);
    let t = two_digits(x);
    assert(t.drop_last() =~= seq![digit_char(x / 10)]);
    assert(t.drop_last().drop_last() =~= Seq::<char>::empty());
    assert(digits_value(Seq::<char>::empty()) == 0);
    assert(digits_value(t.drop_last()) == x / 10);
}

proof fn lemma_four_digits(x: nat)
    requires
        x < 10000,
    ensures
        all_digits(four_digits(x)),
        digits_value(four_digits(x)) == x,
{
    lemma_digit_char(x / 1000);
    lemma_digit_char((x / 100) % 10);
    lemma_digit_char((x / 10) % 10);
    lemma_digit_char(x % 10);
    let t = four_digits(x);
    let t3 = t.drop_last();
    let t2 = t3.drop_last();
    let t1 = t2.drop_last();
    assert(t1 =~= seq![digit_char(x / 1000)]);
    assert(t1.drop_last() =~= Seq::<char>::empty());
    assert(digits_value(Seq::<char>::empty()) == 0);
    assert(digits_value(t1) == x / 1000);
    assert(digits_value(t2) == (x / 1000) * 10 + (x / 100) % 10);
    assert(digits_value(t3) == ((x / 1000) * 10 + (x / 100) % 10) * 10 + (x / 10) % 10);
    assert((((x / 1000) * 10 + (x / 100) % 10) * 10 + (x / 10) % 10) * 10 + x % 10 == x);
}

/// The fields of the text of a date-time read back as its numbers.
proof fn lemma_iso_text_fields(y: nat, m: nat, d: nat, h: nat, mi: nat, s: nat)
    requires
        y < 10000,
        m < 100,
        d < 100,
        h < 100,
        mi < 100,
        s < 100,
    ensures
        iso_text(y, m, d, h, mi, s).len() == 19,
        iso_text(y, m, d, h, mi, s)[10] == 'T',
        has_date_time_shape(iso_text(y, m, d, h, mi, s)),
        field(iso_text(y, m, d, h, mi, s), 0, 4) == y,
        field(iso_text(y, m, d, h, mi, s), 5, 2) == m,
        field(iso_text(y, m, d, h, mi, s), 8, 2) == d,
        field(iso_text(y, m, d, h, mi, s), 11, 2) == h,
        field(iso_text(y, m, d, h, mi, s), 14, 2) == mi,
        field(iso_text(y, m, d, h, mi, s), 17, 2) == s,
{
    let t = iso_text(y, m, d, h, mi, s);
    lemma_four_digits(y);
    lemma_two_digits(m);
    lemma_two_digits(d);
    lemma_two_digits(h);
    lemma_two_digits(mi);
    lemma_two_digits(s);
    assert(t.subrange(0, 4) =~= four_digits(y));
    assert(t.subrange(5, 7) =~= two_digits(m));
    assert(t.subrange(8, 10) =~= two_digits(d));
    assert(t.subrange(11, 13) =~= two_digits(h));
    assert(t.subrange(14, 16) =~= two_digits(mi));
    assert(t.subrange(17, 19) =~= two_digits(s));
    assert(t[4] == '-' && t[7] == '-' && t[10] == 'T' && t[13] == ':' && t[16] == ':');
}

/// The days of month `m` of year `y` in the Gregorian calendar, written out.
pub open spec fn gregorian_month_length(y: int, m: int) -> int {
    if m == 1 || m == 3 || m == 5 || m == 7 || m == 8 || m == 10 || m == 12 {
        31
    } else if m == 4 || m == 6 || m == 9 || m == 11 {
        30
    } else if y % 400 == 0 || (y % 4 == 0 && y % 100 != 0) {
        29
    } else {
        28
    }
}

/// A simple ISO date-time is accepted exactly when it names a day of the
/// Gregorian calendar (January, March, May, July, August, October and
/// December have 31 days, April, June, September and November 30, February
/// 29 in leap years and 28 otherwise) and a time of day from 00:00:00 to
/// 23:59:59; otherwise it is refused as out of range.
pub proof fn law_iso_simple_accepts_calendar_days(y: nat, m: nat, d: nat, h: nat, mi: nat, s: nat)
    requires
        y < 10000,
        m < 100,
        d < 100,
        h < 100,
        mi < 100,
        s < 100,
    ensures
        (1 <= m <= 12 && 1 <= d <= gregorian_month_length(y as int, m as int) && h < 24 && mi < 60
            && s < 60) ==> iso_simple_spec(iso_text(y, m, d, h, mi, s)) is Ok,
        !(1 <= m <= 12 && 1 <= d <= gregorian_month_length(y as int, m as int) && h < 24 && mi
            < 60 && s < 60) ==> iso_simple_spec(iso_text(y, m, d, h, mi, s)) == Err::<
            u64,
            TimeError,
        >(TimeError::OutOfRange),
{
    lemma_iso_text_fields(y, m, d, h, mi, s);
}

proof fn lemma_usec_bounds(y: nat, m: nat, d: nat, h: nat, mi: nat, s: nat)
    requires
        y < 10000,
        valid_date_time(y, m, d, h, mi, s),
    ensures
        148_000_000_000_000_000 <= usec_since_jd0(y, m, d, h, mi, s) <= 465_000_000_000_000_000,
{
    lemma_days_before_year_closed(y);
    reveal_with_fuel(days_before_month, 13);
    assert(days_before_year(y) <= 3_652_060);
    assert(days_before_month(y as int, m) <= 335);
    let dn = day_number(y, m, d);
    assert(0 <= dn <= 3_652_060 + 335 + 30);
    assert(((dn + JD0_TO_YEAR0_DAYS) * 86400 + 43200 + 3600 * h + 60 * mi + s) * USEC_PER_SEC
        <= 465_000_000_000_000_000) by (nonlinear_arith)
        requires
            0 <= dn <= 3_652_060 + 335 + 30,
            h < 24,
            mi < 60,
            s < 60,
    ;
    assert(((dn + JD0_TO_YEAR0_DAYS) * 86400 + 43200 + 3600 * h + 60 * mi + s) * USEC_PER_SEC
        >= 148_000_000_000_000_000) by (nonlinear_arith)
        requires
            0 <= dn,
    ;
}

/// The zone `+HH:MM` or `-HH:MM`.
pub open spec fn zone_text(neg: bool, oh: nat, om: nat) -> Seq<char> {
    seq![if neg { '-' } else { '+' }] + two_digits(oh) + seq![':'] + two_digits(om)
}

/// An RFC 3339 date-time with an offset is the same local date-time in UTC
/// minus the offset: `+HH:MM` takes `HH` hours and `MM` minutes off, `-HH:MM`
/// adds them; a date-time refused in UTC is refused with any offset, and an
/// offset out of range is refused. In UTC, it is the simple ISO date-time.
pub proof fn law_rfc3339_offset(
    y: nat,
    m: nat,
    d: nat,
    h: nat,
    mi: nat,
    sec: nat,
    neg: bool,
    oh: nat,
    om: nat,
)
    requires
        y < 10000,
        m < 100,
        d < 100,
        h < 100,
        mi < 100,
        sec < 100,
        oh < 100,
        om < 100,
    ensures
        rfc3339_spec(iso_text(y, m, d, h, mi, sec).push('Z')) == iso_simple_spec(
            iso_text(y, m, d, h, mi, sec),
        ),
        rfc3339_spec(iso_text(y, m, d, h, mi, sec).push('Z')) is Err ==> rfc3339_spec(
            iso_text(y, m, d, h, mi, sec) + zone_text(neg, oh, om),
        ) == rfc3339_spec(iso_text(y, m, d, h, mi, sec).push('Z')),
        rfc3339_spec(iso_text(y, m, d, h, mi, sec).push('Z')) matches Ok(u) ==> (oh < 24 && om < 60
            ==> (rfc3339_spec(iso_text(y, m, d, h, mi, sec) + zone_text(neg, oh, om)) matches Ok(x)
            && (neg ==> x == u + (3600 * oh + 60 * om) * 1_000_000) && (!neg ==> x == u - (3600 * oh
            + 60 * om) * 1_000_000))),
        rfc3339_spec(iso_text(y, m, d, h, mi, sec).push('Z')) is Ok ==> (oh >= 24 || om >= 60 ==> (
        rfc3339_spec(iso_text(y, m, d, h, mi, sec) + zone_text(neg, oh, om)) == Err::<
            u64,
            TimeError,
        >(TimeError::OutOfRange))),
{
    let s = iso_text(y, m, d, h, mi, sec);
    lemma_iso_text_fields(y, m, d, h, mi, sec);
    law_rfc3339_utc_is_iso_simple(s);
    let zone = zone_text(neg, oh, om);
    let z = s.push('Z');
    let o = s + zone;
    lemma_two_digits(oh);
    lemma_two_digits(om);
    assert forall|i: int, j: int| 0 <= i <= j <= 19 implies #[trigger] o.subrange(i, j)
        == s.subrange(i, j) by {
        assert(o.subrange(i, j) =~= s.subrange(i, j));
    }
    assert(date_time_spec(o) == date_time_spec(s));
    assert(o[10] == 'T');
    assert(o.len() == 25);
    let ot = o.subrange(19, 25);
    assert(ot =~= zone);
    assert(ot[0] != '.');
    assert(ot.subrange(0, 6) =~= zone);
    assert(zone.subrange(1, 3) =~= two_digits(oh));
    assert(zone.subrange(4, 6) =~= two_digits(om));
    assert(zone[3] == ':');
    assert(zone[0] == if neg {
        '-'
    } else {
        '+'
    });
    assert(zone_spec(zone) == Some((neg, oh, om)));
    assert(ot.drop_first().take(0) =~= Seq::<char>::empty());
    assert(digits_value(Seq::<char>::empty()) == 0);
    assert(fraction_usec(ot.drop_first(), 0) == 0);
    if valid_date_time(y, m, d, h, mi, sec) {
        lemma_usec_bounds(y, m, d, h, mi, sec);
    }
}

} // verus!
