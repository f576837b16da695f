//! Decimal parsing of unsigned 64-bit integers, with the rules and the error
//! kinds of `u64::from_str`.

use vstd::prelude::*;

use crate::text::chars_of;

verus! {

broadcast use vstd::seq_lib::group_seq_properties;

/// Why a text is not a `u64` (the kinds that `u64::from_str` reports).
#[derive(Debug, Clone, Copy, PartialEq, Eq, Structural)]
pub enum IntErrorKind {
    /// The text is empty.
    Empty,
    /// The text holds a character that is not a decimal digit where one is
    /// expected (a sign alone counts as such).
    InvalidDigit,
    /// The number is larger than `u64::MAX`.
    PosOverflow,
}

/// `c` is one of `'0'..='9'`.
pub open spec fn is_digit(c: char) -> bool {
    48 <= (c as u32) <= 57
}

/// The value of the digit `c`.
pub open spec fn digit_value(c: char) -> nat {
    ((c as u32) - 48) as nat
}

/// The value of the decimal numeral `ds` (most significant digit first).
pub open spec fn digits_value(ds: Seq<char>) -> nat
    decreases ds.len(),
{
    if ds.len() == 0 {
        0
    } else {
        digits_value(ds.drop_last()) * 10 + digit_value(ds.last())
    }
}

/// The number of decimal digits at the start of `ds`.
pub open spec fn leading_digits(ds: Seq<char>) -> nat
    decreases ds.len(),
{
    if ds.len() > 0 && is_digit(ds[0]) {
        1 + leading_digits(ds.drop_first())
    } else {
        0
    }
}

/// Reading the digits `ds` from left to right: the number overflows as soon
/// as the digits read so far exceed `u64::MAX`, and a non-digit is refused
/// where it is met first.
pub open spec fn unsigned_from_digits(ds: Seq<char>) -> Result<u64, IntErrorKind> {
    let k = leading_digits(ds);
    if digits_value(ds.take(k as int)) > u64::MAX {
        Err(IntErrorKind::PosOverflow)
    } else if k < ds.len() {
        Err(IntErrorKind::InvalidDigit)
    } else {
        Ok(digits_value(ds) as u64)
    }
}

/// What `u64::from_str` gives for the text `s`: an optional leading `+`,
/// then decimal digits.
pub open spec fn parse_u64_spec(s: Seq<char>) -> Result<u64, IntErrorKind> {
    if s.len() == 0 {
        Err(IntErrorKind::Empty)
    } else if s.len() == 1 && (s[0] == '+' || s[0] == '-') {
        Err(IntErrorKind::InvalidDigit)
    } else if s[0] == '+' {
        unsigned_from_digits(s.drop_first())
    } else {
        unsigned_from_digits(s)
    }
}

/// Where the first `i` characters are digits and the next is not (or there
/// is none), `ds` has `i` leading digits.
pub proof fn lemma_leading_digits_at(ds: Seq<char>, i: int)
    requires
        0 <= i <= ds.len(),
        forall|q: int| 0 <= q < i ==> is_digit(#[trigger] ds[q]),
        i == ds.len() || !is_digit(ds[i]),
    ensures
        leading_digits(ds) == i,
    decreases i,
{
    if i > 0 {
        let t = ds.drop_first();
        assert forall|q: int| 0 <= q < i - 1 implies is_digit(#[trigger] t[q]) by {
            assert(t[q] == ds[q + 1]);
        }
        lemma_leading_digits_at(t, i - 1);
    }
}

proof fn lemma_leading_digits_at_least(ds: Seq<char>, i: int)
    requires
        0 <= i <= ds.len(),
        forall|q: int| 0 <= q < i ==> is_digit(#[trigger] ds[q]),
    ensures
        i <= leading_digits(ds) <= ds.len(),
    decreases ds.len(),
{
    if ds.len() > 0 {
        let t = ds.drop_first();
        if i > 0 {
            assert forall|q: int| 0 <= q < i - 1 implies is_digit(#[trigger] t[q]) by {
                assert(t[q] == ds[q + 1]);
            }
            lemma_leading_digits_at_least(t, i - 1);
        } else {
            lemma_leading_digits_at_least(t, 0);
        }
    }
}

proof fn lemma_digits_value_monotone(ds: Seq<char>, j1: int, j2: int)
    requires
        0 <= j1 <= j2 <= ds.len(),
    ensures
        digits_value(ds.take(j1)) <= digits_value(ds.take(j2)),
    decreases j2 - j1,
{
    if j1 < j2 {
        lemma_digits_value_monotone(ds, j1, j2 - 1);
        assert(ds.take(j2).drop_last() =~= ds.take(j2 - 1));
    }
}

/// Reads the digits `v[start..]` as `unsigned_from_digits` does.
fn parse_digits(v: &Vec<char>, start: usize) -> (r: Result<u64, IntErrorKind>)
    requires
        start <= v.len(),
    ensures
        r == unsigned_from_digits(v@.subrange(start as int, v@.len() as int)),
{
    let ghost ds = v@.subrange(start as int, v@.len() as int);
    let n = v.len();
    let mut acc: u64 = 0;
    let mut i: usize = start;
    assert(ds.take(0) =~= Seq::<char>::empty());
    while i < n
        invariant
            start <= i <= n == v.len(),
            ds == v@.subrange(start as int, n as int),
            forall|q: int| 0 <= q < i - start ==> is_digit(#[trigger] ds[q]),
            acc == digits_value(ds.take(i - start)),
        decreases n - i,
    {
        let c = v[i];
        let ghost j = i - start;
        assert(ds[j] == c);
        let u = c as u32;
        if u < 48 || u > 57 {
            proof {
                lemma_leading_digits_at(ds, j);
            }
            return Err(IntErrorKind::InvalidDigit);
        }
        let d = (u - 48) as u64;
        proof {
            assert(ds.take(j + 1).drop_last() =~= ds.take(j));
            assert(ds.take(j + 1).last() == c);
        }
        if acc > (u64::MAX - d) / 10 {
            proof {
                assert(digits_value(ds.take(j + 1)) == acc * 10 + d);
                assert(acc * 10 + d > u64::MAX) by (nonlinear_arith)
                    requires
                        acc > (u64::MAX - d) / 10,
                        d <= 9,
                ;
                lemma_leading_digits_at_least(ds, j + 1);
                let k = leading_digits(ds) as int;
                lemma_digits_value_monotone(ds, j + 1, k);
            }
            return Err(IntErrorKind::PosOverflow);
        }
        proof {
            assert(acc * 10 + d <= u64::MAX) by (nonlinear_arith)
                requires
                    acc <= (u64::MAX - d) / 10,
                    d <= 9,
            ;
        }
        acc = acc * 10 + d;
        i = i + 1;
    }
    proof {
        lemma_leading_digits_at(ds, ds.len() as int);
        assert(ds.take(ds.len() as int) =~= ds);
    }
    Ok(acc)
}

/// `u64::from_str`: the value of the decimal numeral `s` (an optional leading
/// `+`, then digits), or why it is not one.
pub fn parse_u64(s: &str) -> (r: Result<u64, IntErrorKind>)
    ensures
        r == parse_u64_spec(s@),
{
    let v = chars_of(s);
    let n = v.len();
    if n == 0 {
        return Err(IntErrorKind::Empty);
    }
    if n == 1 && (v[0] == '+' || v[0] == '-') {
        return Err(IntErrorKind::InvalidDigit);
    }
    if v[0] == '+' {
        assert(v@.subrange(1, n as int) =~= s@.drop_first());
        parse_digits(&v, 1)
    } else {
        assert(v@.subrange(0, n as int) =~= s@);
        parse_digits(&v, 0)
    }
}

// ---------------------------------------------------------------------------
// Laws
// ---------------------------------------------------------------------------

/// The decimal digit of value `d` (`d < 10`).
pub open spec fn digit_char(d: nat) -> char {
    ((d + 48) as u32) as char
}

/// The decimal numeral of `n`, without leading zeros (what `n.to_string()`
/// writes).
pub open spec fn decimal(n: nat) -> Seq<char>
    decreases n,
{
    if n < 10 {
        seq![digit_char(n)]
    } else {
        decimal(n / 10).push(digit_char(n % 10))
    }
}

/// The digit of value `d` is a digit, of value `d`.
pub proof fn lemma_digit_char(d: nat)
    requires
        d < 10,
    ensures
        is_digit(digit_char(d)),
        digit_value(digit_char(d)) == d,
{
}

proof fn lemma_decimal(n: nat)
    ensures
        decimal(n).len() >= 1,
        forall|q: int| 0 <= q < decimal(n).len() ==> is_digit(#[trigger] decimal(n)[q]),
        digits_value(decimal(n)) == n,
    decreases n,
{
    if n < 10 {
        lemma_digit_char(n);
        assert(decimal(n).drop_last() =~= Seq::<char>::empty());
        assert(digits_value(Seq::<char>::empty()) == 0);
        assert(decimal(n).last() == digit_char(n));
    } else {
        lemma_decimal(n / 10);
        lemma_digit_char(n % 10);
        assert(decimal(n).drop_last() =~= decimal(n / 10));
        assert(decimal(n).last() == digit_char(n % 10));
        assert(digits_value(decimal(n)) == digits_value(decimal(n / 10)) * 10 + digit_value(
            digit_char(n % 10),
        ));
        assert(n == (n / 10) * 10 + n % 10);
        assert forall|q: int| 0 <= q < decimal(n).len() implies is_digit(
            #[trigger] decimal(n)[q],
        ) by {
            if q < decimal(n).len() - 1 {
                assert(decimal(n)[q] == decimal(n / 10)[q]);
            }
        }
    }
}

/// Parsing gives back every `u64` from its decimal numeral, with or without
/// a leading `+`.
pub proof fn law_parse_u64_decimal(n: u64)
    ensures
        parse_u64_spec(decimal(n as nat)) == Ok::<u64, IntErrorKind>(n),
        parse_u64_spec(seq!['+'] + decimal(n as nat)) == Ok::<u64, IntErrorKind>(n),
{
    let ds = decimal(n as nat);
    lemma_decimal(n as nat);
    lemma_leading_digits_at(ds, ds.len() as int);
    assert(ds.take(ds.len() as int) =~= ds);
    assert(is_digit(ds[0]));
    let p = seq!['+'] + ds;
    assert(p.drop_first() =~= ds);
}

/// A numeral of digits only is refused exactly where its value is larger
/// than `u64::MAX`; an empty text is refused as empty.
pub proof fn law_parse_u64_digits(ds: Seq<char>)
    requires
        ds.len() >= 1,
        forall|q: int| 0 <= q < ds.len() ==> is_digit(#[trigger] ds[q]),
    ensures
        digits_value(ds) <= u64::MAX ==> parse_u64_spec(ds) == Ok::<u64, IntErrorKind>(
            digits_value(ds) as u64,
        ),
        digits_value(ds) > u64::MAX ==> parse_u64_spec(ds) == Err::<u64, IntErrorKind>(
            IntErrorKind::PosOverflow,
        ),
        parse_u64_spec(Seq::empty()) == Err::<u64, IntErrorKind>(IntErrorKind::Empty),
{
    lemma_leading_digits_at(ds, ds.len() as int);
    assert(ds.take(ds.len() as int) =~= ds);
    assert(is_digit(ds[0]));
}

} // verus!
