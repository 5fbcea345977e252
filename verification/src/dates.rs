//! Reading numbers and dates out of configuration text.
//!
//! A decimal integer is an optional sign and at least one digit, and it must
//! fit in 64 bits. A date is `YYYY-MM-DD` naming a day that exists, counted in
//! days from 1970-01-01 in the proleptic Gregorian calendar.

use vstd::prelude::*;
use crate::text::chars_of;

verus! {

/// Whether a character is a decimal digit.
pub open spec fn is_digit(c: char) -> bool {
    '0' <= c && c <= '9'
}

/// The value of a decimal digit.
pub open spec fn digit_value(c: char) -> int {
    c as int - '0' as int
}

/// Whether every character is a decimal digit.
pub open spec fn all_digits(s: Seq<char>) -> bool {
    forall|i: int| 0 <= i < s.len() ==> #[trigger] is_digit(s[i])
}

/// The value of a run of decimal digits, most significant first.
pub open spec fn digits_value(s: Seq<char>) -> int
    decreases s.len(),
{
    if s.len() == 0 {
        0
    } else {
        digits_value(s.drop_last()) * 10 + digit_value(s.last())
    }
}

/// A decimal integer, as `str::parse::<i64>` reads one: an optional `+` or
/// `-`, then one or more digits, the whole fitting in 64 bits.
pub open spec fn parse_int(s: Seq<char>) -> Option<int> {
    let negative = s.len() > 0 && s[0] == '-';
    let signed = s.len() > 0 && (s[0] == '-' || s[0] == '+');
    let body = if signed { s.drop_first() } else { s };
    let v = if negative { -digits_value(body) } else { digits_value(body) };
    if body.len() > 0 && all_digits(body) && i64::MIN <= v <= i64::MAX {
        Some(v)
    } else {
        None
    }
}

/// Digits only ever add value as they are appended.
proof fn lemma_digits_grow(s: Seq<char>, i: int, j: int)
    requires
        0 <= i <= j <= s.len(),
        all_digits(s),
    ensures
        digits_value(s.take(i)) <= digits_value(s.take(j)),
        0 <= digits_value(s.take(i)),
    decreases j - i,
{
    if i < j {
        lemma_digits_grow(s, i, j - 1);
        assert(s.take(j).drop_last() =~= s.take(j - 1));
        assert(is_digit(s[j - 1]));
    } else {
        lemma_digits_nonneg(s.take(i));
    }
}

pub(crate) proof fn lemma_digits_nonneg(s: Seq<char>)
    requires
        all_digits(s),
    ensures
        0 <= digits_value(s),
    decreases s.len(),
{
    if s.len() > 0 {
        assert(is_digit(s.last()));
        lemma_digits_nonneg(s.drop_last());
    }
}

/// Read a decimal integer.
pub fn parse_i64(s: &str) -> (r: Option<i64>)
    ensures
        match r {
            Some(v) => parse_int(s@) == Some(v as int),
            None => parse_int(s@) is None,
        },
{
    let cs = chars_of(s);
    let n = cs.len();
    if n == 0 {
        return None;
    }
    let negative = cs[0] == '-';
    let start: usize = if cs[0] == '-' || cs[0] == '+' { 1 } else { 0 };
    let ghost body = if start == 1 { cs@.drop_first() } else { cs@ };
    assert(body =~= cs@.subrange(start as int, n as int));
    assert(s@ == cs@);
    assert((s@.len() > 0 && (s@[0] == '-' || s@[0] == '+')) == (start == 1));
    assert(negative == (s@.len() > 0 && s@[0] == '-'));
    if start == n {
        return None;
    }
    let mut acc: i128 = 0;
    let mut i: usize = start;
    assert(body.take(0) =~= Seq::<char>::empty());
    let bound: i128 = 9_223_372_036_854_775_808;
    while i < n
        invariant
            start <= i <= n,
            n == cs@.len(),
            cs@ == s@,
            body == (if s@.len() > 0 && (s@[0] == '-' || s@[0] == '+') { s@.drop_first() } else { s@ }),
            negative == (s@.len() > 0 && s@[0] == '-'),
            body == cs@.subrange(start as int, n as int),
            bound == 9_223_372_036_854_775_808i128,
            0 <= acc <= bound,
            acc == digits_value(body.take(i - start)),
            all_digits(body.take(i - start)),
        decreases n - i,
    {
        let c = cs[i];
        if !('0' <= c && c <= '9') {
            proof {
                assert(body[i - start] == cs@[i as int]);
                assert(!is_digit(body[i - start]));
            }
            return None;
        }
        let d: i128 = (c as u32 - '0' as u32) as i128;
        proof {
            let t = body.take(i + 1 - start);
            assert(t.drop_last() =~= body.take(i - start));
            assert(t.last() == c);
        }
        acc = acc * 10 + d;
        i = i + 1;
        assert(all_digits(body.take(i - start)));
        if acc > bound {
            proof {
                assert(body.take(body.len() as int) =~= body);
                if all_digits(body) {
                    lemma_digits_grow(body, i - start, body.len() as int);
                    assert(digits_value(body) > bound);
                }
            }
            return None;
        }
    }
    assert(body.take(n - start) =~= body);
    if negative {
        proof {
            assert(body == cs@.drop_first());
        }
        Some((-acc) as i64)
    } else {
        if acc == bound {
            return None;
        }
        Some(acc as i64)
    }
}

/// Whether a year is a leap year.
pub open spec fn is_leap(y: int) -> bool {
    (y % 4 == 0 && y % 100 != 0) || y % 400 == 0
}

/// The days in a month of a year.
pub open spec fn days_in_month(y: int, m: int) -> int {
    if m == 2 {
        if is_leap(y) { 29 } else { 28 }
    } else if m == 4 || m == 6 || m == 9 || m == 11 {
        30
    } else {
        31
    }
}

/// The day number of a date, counted from 1970-01-01, for a year from 0.
pub open spec fn civil_day(y: int, m: int, d: int) -> int {
    let yy = if m <= 2 { y - 1 } else { y };
    let shifted = yy + 400;
    let era = shifted / 400 - 1;
    let yoe = yy - era * 400;
    let mp = if m > 2 { m - 3 } else { m + 9 };
    let doy = (153 * mp + 2) / 5 + d - 1;
    let doe = yoe * 365 + yoe / 4 - yoe / 100 + doy;
    era * 146097 + doe - 719468
}

/// The value of four, or two, digits of a text at a position.
pub open spec fn field(s: Seq<char>, from: int, to: int) -> int {
    digits_value(s.subrange(from, to))
}

/// The day a `YYYY-MM-DD` text names, if it names one.
pub open spec fn iso_day(s: Seq<char>) -> Option<int> {
    if s.len() == 10 && all_digits(s.subrange(0, 4)) && s[4] == '-' && all_digits(s.subrange(5, 7))
        && s[7] == '-' && all_digits(s.subrange(8, 10))
        && 1 <= field(s, 5, 7) <= 12
        && 1 <= field(s, 8, 10) <= days_in_month(field(s, 0, 4), field(s, 5, 7)) {
        Some(civil_day(field(s, 0, 4), field(s, 5, 7), field(s, 8, 10)))
    } else {
        None
    }
}

/// The value of the digits of `cs` from `from` to `to`, if all are digits.
fn digits_at(cs: &Vec<char>, from: usize, to: usize) -> (r: Option<i64>)
    requires
        from <= to <= cs@.len(),
        to - from <= 4,
    ensures
        match r {
            Some(v) => all_digits(cs@.subrange(from as int, to as int))
                && v == digits_value(cs@.subrange(from as int, to as int))
                && 0 <= v < 10000,
            None => !all_digits(cs@.subrange(from as int, to as int)),
        },
{
    let mut acc: i64 = 0;
    let mut i: usize = from;
    assert(cs@.subrange(from as int, from as int) =~= Seq::<char>::empty());
    while i < to
        invariant
            from <= i <= to <= cs@.len(),
            to - from <= 4,
            acc == digits_value(cs@.subrange(from as int, i as int)),
            all_digits(cs@.subrange(from as int, i as int)),
            0 <= acc,
            i - from == 0 ==> acc == 0,
            i - from == 1 ==> acc < 10,
            i - from == 2 ==> acc < 100,
            i - from == 3 ==> acc < 1000,
            i - from == 4 ==> acc < 10000,
        decreases to - i,
    {
        let c = cs[i];
        if !('0' <= c && c <= '9') {
            proof {
                assert(cs@.subrange(from as int, to as int)[i - from] == cs@[i as int]);
                assert(!is_digit(cs@.subrange(from as int, to as int)[i - from]));
            }
            return None;
        }
        proof {
            let t = cs@.subrange(from as int, i + 1);
            assert(t.drop_last() =~= cs@.subrange(from as int, i as int));
            assert(t.last() == c);
        }
        acc = acc * 10 + (c as u32 - '0' as u32) as i64;
        i = i + 1;
        assert(all_digits(cs@.subrange(from as int, i as int)));
    }
    Some(acc)
}

/// The day a `YYYY-MM-DD` text names, counted from 1970-01-01.
pub fn days_from_iso_date(s: &str) -> (r: Option<i64>)
    ensures
        match r {
            Some(v) => iso_day(s@) == Some(v as int),
            None => iso_day(s@) is None,
        },
{
    let cs = chars_of(s);
    if cs.len() != 10 || cs[4] != '-' || cs[7] != '-' {
        return None;
    }
    let y = match digits_at(&cs, 0, 4) {
        Some(v) => v,
        None => return None,
    };
    let m = match digits_at(&cs, 5, 7) {
        Some(v) => v,
        None => return None,
    };
    let d = match digits_at(&cs, 8, 10) {
        Some(v) => v,
        None => return None,
    };
    if m < 1 || m > 12 {
        return None;
    }
    let leap = (y % 4 == 0 && y % 100 != 0) || y % 400 == 0;
    let dim: i64 = if m == 2 {
        if leap { 29 } else { 28 }
    } else if m == 4 || m == 6 || m == 9 || m == 11 {
        30
    } else {
        31
    };
    if d < 1 || d > dim {
        return None;
    }
    let yy: i64 = if m <= 2 { y - 1 } else { y };
    let shifted: i64 = yy + 400;
    let era: i64 = shifted / 400 - 1;
    let yoe: i64 = yy - era * 400;
    let mp: i64 = if m > 2 { m - 3 } else { m + 9 };
    let doy: i64 = (153 * mp + 2) / 5 + d - 1;
    let doe: i64 = yoe * 365 + yoe / 4 - yoe / 100 + doy;
    proof {
        assert(0 <= yoe < 400) by (nonlinear_arith)
            requires
                -1 <= yy < 10000,
                shifted == yy + 400,
                era == shifted / 400 - 1,
                yoe == yy - era * 400,
        ;
    }
    Some(era * 146097 + doe - 719468)
}

} // verus!
