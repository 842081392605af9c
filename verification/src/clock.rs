//! Timestamps of agent auth records: seconds since the Unix epoch and the
//! ISO-8601 text `YYYY-MM-DDTHH:MM:SS.000Z` that stores them.

use vstd::prelude::*;

use crate::text::{is_ascii_digit, lemma_trailing_count, owned, push_char, push_str, strip_end};

verus! {

// ---------------------------------------------------------------- calendar

/// Integer division as Rust computes it: rounded toward zero.
pub open spec fn tdiv(a: int, b: int) -> int {
    if a >= 0 {
        a / b
    } else {
        -((-a) / b)
    }
}

/// Days from 1970-01-01 to the given proleptic Gregorian date, by the
/// era-based count that `days_from_civil` performs.
pub open spec fn days_from_civil_spec(year: int, month: int, day: int) -> int {
    let y = year - (if month <= 2 { 1int } else { 0int });
    let era = tdiv(if y >= 0 { y } else { y - 399 }, 400);
    let yoe = y - era * 400;
    let mp = month + (if month > 2 { -3int } else { 9int });
    let doy = (153 * mp + 2) / 5 + day - 1;
    let doe = yoe * 365 + yoe / 4 - yoe / 100 + doy;
    era * 146097 + doe - 719468
}

pub open spec fn fits_i32(v: int) -> bool {
    i32::MIN <= v <= i32::MAX
}

/// Every intermediate value of `days_from_civil`'s 32-bit arithmetic stays
/// in range, so the computation does not overflow.
pub open spec fn civil_fits_i32(year: int, month: int, day: int) -> bool {
    let y = year - (if month <= 2 { 1int } else { 0int });
    let y2 = if y >= 0 { y } else { y - 399 };
    let era = tdiv(y2, 400);
    let yoe = y - era * 400;
    let mp = month + (if month > 2 { -3int } else { 9int });
    let doy = (153 * mp + 2) / 5 + day - 1;
    let doe = yoe * 365 + yoe / 4 - yoe / 100 + doy;
    !(1 <= month <= 12 && 1 <= day <= 31) || (fits_i32(y) && fits_i32(y2) && fits_i32(era * 400)
        && fits_i32(era * 146097) && fits_i32(era * 146097 + doe) && fits_i32(
        era * 146097 + doe - 719468,
    ))
}

/// Days since the epoch of a date; `None` for a month outside 1..=12 or a
/// day outside 1..=31.
pub fn days_from_civil(year: i32, month: u32, day: u32) -> (r: Option<i64>)
    requires
        civil_fits_i32(year as int, month as int, day as int),
    ensures
        r == (if 1 <= month <= 12 && 1 <= day <= 31 {
            Some(days_from_civil_spec(year as int, month as int, day as int) as i64)
        } else {
            None
        }),
{
    if !(1 <= month && month <= 12) || !(1 <= day && day <= 31) {
        return None;
    }
    let y: i64 = year as i64 - if month <= 2 { 1 } else { 0 };
    let era: i64 = if y >= 0 {
        y / 400
    } else {
        -((399 - y) / 400)
    };
    assert(era == tdiv(if y >= 0 { y as int } else { y - 399 }, 400));
    let yoe: i64 = y - era * 400;
    let mp: i64 = month as i64 + if month > 2 { -3 } else { 9 };
    let doy: i64 = (153 * mp + 2) / 5 + day as i64 - 1;
    assert(0 <= yoe < 400) by {
        if y < 0 {
            assert((399 - y) / 400 * 400 <= 399 - y);
            assert((399 - y) / 400 * 400 > 399 - y - 400);
        }
    }
    let doe: i64 = yoe * 365 + yoe / 4 - yoe / 100 + doy;
    Some(era * 146097 + doe - 719468)
}

/// The date of a day count, as `civil_from_days` computes it (year, month,
/// day), before the year is narrowed to 32 bits.
pub open spec fn civil_from_days_spec(days: int) -> (int, int, int) {
    let z = days + 719468;
    let era = tdiv(if z >= 0 { z } else { z - 146096 }, 146097);
    let doe = z - era * 146097;
    let yoe = (doe - doe / 1460 + doe / 36524 - doe / 146096) / 365;
    let y = yoe + era * 400;
    let doy = doe - (365 * yoe + yoe / 4 - yoe / 100);
    let mp = (5 * doy + 2) / 153;
    let d = doy - (153 * mp + 2) / 5 + 1;
    let m = mp + (if mp < 10 { 3int } else { -9int });
    (y + (if m <= 2 { 1int } else { 0int }), m, d)
}

/// The year of an era, and the day of that year, stay in range.
proof fn lemma_year_of_era(doe: u32)
    by (bit_vector)
    requires
        doe <= 146096,
    ensures
        (doe - doe / 1460 + doe / 36524 - doe / 146096) / 365 <= 399,
        doe >= 365 * ((doe - doe / 1460 + doe / 36524 - doe / 146096) / 365) + ((doe - doe
            / 1460 + doe / 36524 - doe / 146096) / 365) / 4 - ((doe - doe / 1460 + doe / 36524
            - doe / 146096) / 365) / 100,
        doe - (365 * ((doe - doe / 1460 + doe / 36524 - doe / 146096) / 365) + ((doe - doe
            / 1460 + doe / 36524 - doe / 146096) / 365) / 4 - ((doe - doe / 1460 + doe / 36524
            - doe / 146096) / 365) / 100) <= 365,
{
}

/// The month index and day of a day of the year stay in range.
proof fn lemma_month_of_year(doy: u32)
    by (bit_vector)
    requires
        doy <= 365,
    ensures
        (5 * doy + 2) / 153 <= 11,
        (153 * ((5 * doy + 2) / 153) + 2) / 5 <= doy,
        doy - (153 * ((5 * doy + 2) / 153) + 2) / 5 <= 30,
{
}

/// Bounds on the parts of a date that `civil_from_days` computes.
pub proof fn lemma_civil_ranges(days: int)
    requires
        days + 719468 >= 0,
    ensures
        ({
            let z = days + 719468;
            let era = z / 146097;
            let doe = z - era * 146097;
            let yoe = (doe - doe / 1460 + doe / 36524 - doe / 146096) / 365;
            let doy = doe - (365 * yoe + yoe / 4 - yoe / 100);
            let mp = (5 * doy + 2) / 153;
            let d = doy - (153 * mp + 2) / 5 + 1;
            &&& 0 <= doe <= 146096
            &&& 0 <= yoe <= 399
            &&& 0 <= doy <= 365
            &&& 0 <= mp <= 11
            &&& 1 <= d <= 31
        }),
{
    let z = days + 719468;
    let era = z / 146097;
    let doe = z - era * 146097;
    assert(0 <= doe <= 146096);
    lemma_year_of_era(doe as u32);
    let yoe = (doe - doe / 1460 + doe / 36524 - doe / 146096) / 365;
    assert(doe - doe / 1460 + doe / 36524 - doe / 146096 >= 0);
    let doy = doe - (365 * yoe + yoe / 4 - yoe / 100);
    lemma_month_of_year(doy as u32);
}

/// The date of a day count since the epoch.
pub fn civil_from_days(days: i64) -> (r: (i32, u32, u32))
    requires
        days + 719468 <= i64::MAX,
        days + 719468 - 146096 >= i64::MIN,
    ensures
        r.0 == (civil_from_days_spec(days as int).0 as i32),
        r.1 == (civil_from_days_spec(days as int).1 as u32),
        r.2 == (civil_from_days_spec(days as int).2 as u32),
{
    let z: i64 = days + 719468;
    let era: i64 = if z >= 0 {
        z / 146097
    } else {
        -((146096 - z) / 146097)
    };
    let doe: i64 = z - era * 146097;
    assert(0 <= doe <= 146096) by {
        if z < 0 {
            assert((146096 - z) / 146097 * 146097 <= 146096 - z);
            assert((146096 - z) / 146097 * 146097 > 146096 - z - 146097);
        }
    }
    proof {
        lemma_year_of_era(doe as u32);
    }
    assert(doe - doe / 1460 + doe / 36524 - doe / 146096 >= 0);
    let yoe: i64 = (doe - doe / 1460 + doe / 36524 - doe / 146096) / 365;
    let y: i64 = yoe + era * 400;
    let doy: i64 = doe - (365 * yoe + yoe / 4 - yoe / 100);
    proof {
        lemma_month_of_year(doy as u32);
    }
    let mp: i64 = (5 * doy + 2) / 153;
    let d: i64 = doy - (153 * mp + 2) / 5 + 1;
    let m: i64 = mp + if mp < 10 { 3 } else { -9 };
    ((y + if m <= 2 { 1 } else { 0 }) as i32, m as u32, d as u32)
}

/// Law: for every day on or after 1970-01-01 (and before the 32-bit day
/// count ends), `days_from_civil` undoes `civil_from_days`.
pub proof fn law_civil_round_trip(days: int)
    requires
        days >= 0,
        days + 719468 <= i32::MAX,
    ensures
        ({
            let (y, m, d) = civil_from_days_spec(days);
            &&& 1 <= m <= 12
            &&& 1 <= d <= 31
            &&& 0 <= y <= i32::MAX
            &&& civil_fits_i32(y, m, d)
            &&& days_from_civil_spec(y, m, d) == days
        }),
{
    lemma_civil_ranges(days);
    let z = days + 719468;
    let era = z / 146097;
    let doe = z - era * 146097;
    let yoe = (doe - doe / 1460 + doe / 36524 - doe / 146096) / 365;
    let y0 = yoe + era * 400;
    let doy = doe - (365 * yoe + yoe / 4 - yoe / 100);
    let mp = (5 * doy + 2) / 153;
    let d = doy - (153 * mp + 2) / 5 + 1;
    let m = mp + (if mp < 10 { 3int } else { -9int });
    let year = y0 + (if m <= 2 { 1int } else { 0int });
    assert(civil_from_days_spec(days) == (year, m, d));
    // Undo the month shift: the shifted year and month index come back.
    let y = year - (if m <= 2 { 1int } else { 0int });
    assert(y == y0);
    assert(y >= 0);
    assert(y / 400 == era) by {
        assert(y == era * 400 + yoe);
    }
    assert(tdiv(y, 400) == era);
    let mp2 = m + (if m > 2 { -3int } else { 9int });
    assert(mp2 == mp);
    assert(y - era * 400 == yoe);
    assert(z <= i32::MAX);
    assert(era * 146097 + doe == z);
    assert(days_from_civil_spec(year, m, d) == days);
}

// ---------------------------------------------------------------- decimal text

pub open spec fn digit_char(n: int) -> char {
    ((n + 48) as u8) as char
}

pub open spec fn digit_val(c: char) -> int {
    (c as int) - 48
}

/// Decimal digits of `n`, without leading zeros.
pub open spec fn decimal(n: nat) -> Seq<char>
    decreases n,
{
    if n < 10 {
        seq![digit_char(n as int)]
    } else {
        decimal(n / 10).push(digit_char((n % 10) as int))
    }
}

pub open spec fn zeros(k: nat) -> Seq<char> {
    Seq::new(k, |i: int| '0')
}

/// `{:0w}` of a non-negative number.
pub open spec fn padded(n: nat, w: nat) -> Seq<char> {
    let d = decimal(n);
    if d.len() < w {
        zeros((w - d.len()) as nat) + d
    } else {
        d
    }
}

/// `{:0w}` of a signed number: the sign counts toward the width.
pub open spec fn padded_signed(n: int, w: nat) -> Seq<char> {
    if n >= 0 {
        padded(n as nat, w)
    } else {
        seq!['-'] + padded((-n) as nat, if w > 0 { (w - 1) as nat } else { 0 })
    }
}

/// The value of a run of decimal digits.
pub open spec fn digits_value(s: Seq<char>) -> int
    decreases s.len(),
{
    if s.len() == 0 {
        0
    } else {
        digits_value(s.drop_last()) * 10 + digit_val(s.last())
    }
}

pub open spec fn all_digits(s: Seq<char>) -> bool {
    forall|i: int| 0 <= i < s.len() ==> is_ascii_digit(#[trigger] s[i])
}

/// `str::parse` for an unsigned type whose largest value is `max`: an
/// optional `+`, then at least one digit, nothing else.
pub open spec fn parse_unsigned(s: Seq<char>, max: int) -> Option<int> {
    let body = if s.len() > 0 && s[0] == '+' {
        s.drop_first()
    } else {
        s
    };
    if body.len() == 0 || !all_digits(body) || digits_value(body) > max {
        None
    } else {
        Some(digits_value(body))
    }
}

/// `str::parse::<i32>`: an optional sign, then at least one digit.
pub open spec fn parse_i32_spec(s: Seq<char>) -> Option<int> {
    if s.len() > 0 && s[0] == '-' {
        let body = s.drop_first();
        if body.len() == 0 || !all_digits(body) || digits_value(body) > 2147483648 {
            None
        } else {
            Some(-digits_value(body))
        }
    } else {
        parse_unsigned(s, i32::MAX as int)
    }
}

proof fn lemma_digits_value_nonneg(s: Seq<char>)
    requires
        all_digits(s),
    ensures
        digits_value(s) >= 0,
    decreases s.len(),
{
    if s.len() > 0 {
        lemma_digits_value_nonneg(s.drop_last());
    }
}

proof fn lemma_digits_value_grows(s: Seq<char>, i: int)
    requires
        all_digits(s),
        0 <= i <= s.len(),
    ensures
        digits_value(s.subrange(0, i)) <= digits_value(s),
    decreases s.len(),
{
    if i < s.len() {
        let t = s.drop_last();
        assert(all_digits(t));
        assert(t.subrange(0, i) =~= s.subrange(0, i));
        lemma_digits_value_grows(t, i);
        lemma_digits_value_nonneg(t);
    } else {
        assert(s.subrange(0, i) =~= s);
    }
}

/// Reads digits; `None` when a character is not a digit or the value
/// passes `max`.
fn digits_upto(s: &str, from: usize, max: u64) -> (r: Option<u64>)
    requires
        from <= s@.len(),
        max <= u32::MAX + 1,
    ensures
        ({
            let body = s@.subrange(from as int, s@.len() as int);
            r == (if !all_digits(body) || digits_value(body) > max {
                None::<u64>
            } else {
                Some(digits_value(body) as u64)
            })
        }),
        r matches Some(v) ==> v == digits_value(s@.subrange(from as int, s@.len() as int)) && v
            <= max,
{
    let n = s.unicode_len();
    let ghost body = s@.subrange(from as int, s@.len() as int);
    let mut v: u64 = 0;
    let mut i: usize = from;
    while i < n
        invariant
            n == s@.len(),
            from <= i <= n,
            body == s@.subrange(from as int, s@.len() as int),
            max <= u32::MAX + 1,
            all_digits(body.subrange(0, i - from)),
            v == digits_value(body.subrange(0, i - from)),
            v <= max,
        decreases n - i,
    {
        let c = s.get_char(i);
        if !('0' <= c && c <= '9') {
            assert(!is_ascii_digit(body[i - from]));
            return None;
        }
        let nv = v * 10 + ((c as u32) - 48) as u64;
        proof {
            let t = body.subrange(0, i + 1 - from);
            assert(t.drop_last() =~= body.subrange(0, i - from));
            assert(t.last() == c);
            assert(all_digits(t));
            assert(nv == digits_value(t));
        }
        if nv > max {
            proof {
                if all_digits(body) {
                    lemma_digits_value_grows(body, i + 1 - from);
                }
            }
            return None;
        }
        v = nv;
        i = i + 1;
    }
    assert(body.subrange(0, n - from) =~= body);
    proof {
        lemma_digits_value_nonneg(body);
    }
    Some(v)
}

/// `str::parse::<u32>`.
pub fn parse_u32(s: &str) -> (r: Option<u32>)
    ensures
        r matches Some(v) ==> parse_unsigned(s@, u32::MAX as int) == Some(v as int),
        r is None ==> parse_unsigned(s@, u32::MAX as int) is None,
{
    let n = s.unicode_len();
    let from: usize = if n > 0 && s.get_char(0) == '+' {
        1
    } else {
        0
    };
    if from == n {
        return None;
    }
    proof {
        if from == 1 {
            assert(s@.drop_first() =~= s@.subrange(1, s@.len() as int));
        } else {
            assert(s@ =~= s@.subrange(0, s@.len() as int));
        }
    }
    match digits_upto(s, from, u32::MAX as u64) {
        Some(v) => Some(v as u32),
        None => None,
    }
}

/// `str::parse::<i32>`.
pub fn parse_i32(s: &str) -> (r: Option<i32>)
    ensures
        r matches Some(v) ==> parse_i32_spec(s@) == Some(v as int),
        r is None ==> parse_i32_spec(s@) is None,
{
    let n = s.unicode_len();
    if n > 0 && s.get_char(0) == '-' {
        if n == 1 {
            return None;
        }
        assert(s@.drop_first() =~= s@.subrange(1, s@.len() as int));
        match digits_upto(s, 1, 2147483648) {
            Some(v) => Some((0 - (v as i64)) as i32),
            None => None,
        }
    } else {
        let from: usize = if n > 0 && s.get_char(0) == '+' {
            1
        } else {
            0
        };
        if from == n {
            return None;
        }
        proof {
            if from == 1 {
                assert(s@.drop_first() =~= s@.subrange(1, s@.len() as int));
            } else {
                assert(s@ =~= s@.subrange(0, s@.len() as int));
            }
        }
        match digits_upto(s, from, i32::MAX as u64) {
            Some(v) => Some(v as i32),
            None => None,
        }
    }
}

/// Appends the decimal digits of `n`.
pub fn push_decimal(out: &mut String, n: u64)
    ensures
        final(out)@ == old(out)@ + decimal(n as nat),
    decreases n,
{
    if n >= 10 {
        push_decimal(out, n / 10);
    }
    let d = ((n % 10) as u32 + 48) as u8 as char;
    push_char(out, d);
    proof {
        if n < 10 {
            assert(n % 10 == n);
        }
    }
}

proof fn lemma_decimal_len(n: nat)
    ensures
        decimal(n).len() >= 1,
        n < 10 ==> decimal(n).len() == 1,
        10 <= n < 100 ==> decimal(n).len() == 2,
        100 <= n < 1000 ==> decimal(n).len() == 3,
        1000 <= n < 10000 ==> decimal(n).len() == 4,
    decreases n,
{
    if n >= 10 {
        lemma_decimal_len(n / 10);
    }
}

fn decimal_len(n: u64) -> (r: usize)
    ensures
        r == decimal(n as nat).len(),
    decreases n,
{
    if n < 10 {
        1
    } else {
        let k = decimal_len(n / 10);
        proof {
            reveal_with_fuel(pow10, 21);
            lemma_decimal_len_lt((n / 10) as nat, 19);
        }
        k + 1
    }
}

pub open spec fn pow10(k: nat) -> nat
    decreases k,
{
    if k == 0 {
        1
    } else {
        10 * pow10((k - 1) as nat)
    }
}

proof fn lemma_decimal_len_lt(n: nat, k: nat)
    requires
        k >= 1,
        n < pow10(k),
    ensures
        decimal(n).len() <= k,
    decreases k,
{
    if n >= 10 {
        if k == 1 {
            assert(pow10(1) == 10 * pow10(0));
        } else {
            assert(pow10(k) == 10 * pow10((k - 1) as nat));
            lemma_decimal_len_lt(n / 10, (k - 1) as nat);
        }
    }
}

/// Appends `{:0w}` of `n`.
fn push_padded(out: &mut String, n: u64, w: usize)
    ensures
        final(out)@ == old(out)@ + padded(n as nat, w as nat),
{
    let len = decimal_len(n);
    let ghost start = out@;
    if len < w {
        let mut k: usize = 0;
        while k < w - len
            invariant
                len < w,
                k <= w - len,
                out@ == start + zeros(k as nat),
            decreases w - len - k,
        {
            push_char(out, '0');
            assert(zeros((k + 1) as nat) =~= zeros(k as nat).push('0'));
            k = k + 1;
        }
    }
    let ghost mid = out@;
    push_decimal(out, n);
    proof {
        if len < w {
            assert(out@ =~= start + padded(n as nat, w as nat));
        } else {
            assert(out@ =~= start + padded(n as nat, w as nat));
        }
    }
}

// ---------------------------------------------------------------- ISO text

/// The stored form of a timestamp: `YYYY-MM-DDTHH:MM:SS.000Z`.
pub open spec fn iso_text(year: int, month: nat, day: nat, hour: nat, minute: nat, second: nat) -> Seq<
    char,
> {
    padded_signed(year, 4) + seq!['-'] + padded(month, 2) + seq!['-'] + padded(day, 2) + seq!['T']
        + padded(hour, 2) + seq![':'] + padded(minute, 2) + seq![':'] + padded(second, 2)
        + ".000Z"@
}

/// The ISO text of a Unix timestamp; a year past the 32-bit range is
/// narrowed as `civil_from_days` narrows it.
pub open spec fn unix_to_iso_spec(t: nat) -> Seq<char> {
    let (y, m, d) = civil_from_days_spec((t / 86400) as int);
    let secs = t % 86400;
    iso_text(
        (y as i32) as int,
        (m as u32) as nat,
        (d as u32) as nat,
        (secs / 3600) as nat,
        ((secs % 3600) / 60) as nat,
        (secs % 60) as nat,
    )
}

/// Formats a Unix timestamp as ISO-8601 text in UTC.
pub fn unix_to_iso(timestamp: u64) -> (r: String)
    ensures
        r@ == unix_to_iso_spec(timestamp as nat),
{
    let days = (timestamp / 86400) as i64;
    let seconds = timestamp % 86400;
    let (year, month, day) = civil_from_days(days);
    let hour = seconds / 3600;
    let minute = (seconds % 3600) / 60;
    let second = seconds % 60;
    let mut out = String::new();
    if year >= 0 {
        push_padded(&mut out, year as u64, 4);
    } else {
        push_char(&mut out, '-');
        let mag: u64 = (0 - (year as i64)) as u64;
        push_padded(&mut out, mag, 3);
    }
    push_char(&mut out, '-');
    push_padded(&mut out, month as u64, 2);
    push_char(&mut out, '-');
    push_padded(&mut out, day as u64, 2);
    push_char(&mut out, 'T');
    push_padded(&mut out, hour, 2);
    push_char(&mut out, ':');
    push_padded(&mut out, minute, 2);
    push_char(&mut out, ':');
    push_padded(&mut out, second, 2);
    push_str(&mut out, ".000Z");
    assert(out@ =~= unix_to_iso_spec(timestamp as nat));
    out
}

// ---------------------------------------------------------------- reading ISO text

/// Index of the first `c` in `s`; `s.len()` when there is none.
pub open spec fn first_index(s: Seq<char>, c: char) -> int
    decreases s.len(),
{
    if s.len() == 0 {
        0
    } else if s[0] == c {
        0
    } else {
        1 + first_index(s.drop_first(), c)
    }
}

pub proof fn lemma_first_index(s: Seq<char>, c: char)
    ensures
        0 <= first_index(s, c) <= s.len(),
        forall|j: int| 0 <= j < first_index(s, c) ==> s[j] != c,
        first_index(s, c) < s.len() ==> s[first_index(s, c)] == c,
    decreases s.len(),
{
    if s.len() > 0 && s[0] != c {
        lemma_first_index(s.drop_first(), c);
        assert forall|j: int| 0 <= j < first_index(s, c) implies s[j] != c by {
            if j > 0 {
                assert(s[j] == s.drop_first()[j - 1]);
            }
        }
    }
}

pub proof fn lemma_first_index_at(s: Seq<char>, c: char, i: int)
    requires
        0 <= i <= s.len(),
        forall|j: int| 0 <= j < i ==> s[j] != c,
        i == s.len() || s[i] == c,
    ensures
        first_index(s, c) == i,
    decreases s.len(),
{
    if s.len() > 0 && i > 0 {
        lemma_first_index_at(s.drop_first(), c, i - 1);
    }
}

/// The `k`-th piece of `s` split at `sep`, as `str::split` yields it.
pub open spec fn piece(s: Seq<char>, sep: char, k: nat) -> Option<Seq<char>>
    decreases s.len(),
{
    let i = first_index(s, sep);
    if i >= s.len() {
        if k == 0 {
            Some(s)
        } else {
            None
        }
    } else if k == 0 {
        Some(s.subrange(0, i))
    } else if 0 <= i {
        piece(s.subrange(i + 1, s.len() as int), sep, (k - 1) as nat)
    } else {
        None
    }
}

/// The six numeric fields of ISO text, parsed as `parse_iso_unix` parses
/// them: year, month, day, hour, minute, second.
pub open spec fn iso_fields(s: Seq<char>) -> Option<(int, int, int, int, int, int)> {
    let t = first_index(s, 'T');
    if t >= s.len() {
        None
    } else {
        let date = s.subrange(0, t);
        let rest = s.subrange(t + 1, s.len() as int);
        let time = strip_end(rest, |c: char| c == 'Z');
        let clock = piece(time, '.', 0).unwrap();
        match (piece(date, '-', 0), piece(date, '-', 1), piece(date, '-', 2)) {
            (Some(ys), Some(ms), Some(ds)) => match (
                piece(clock, ':', 0),
                piece(clock, ':', 1),
                piece(clock, ':', 2),
            ) {
                (Some(hs), Some(mis), Some(ss)) => match (
                    parse_i32_spec(ys),
                    parse_unsigned(ms, u32::MAX as int),
                    parse_unsigned(ds, u32::MAX as int),
                    parse_unsigned(hs, u32::MAX as int),
                    parse_unsigned(mis, u32::MAX as int),
                    parse_unsigned(ss, u32::MAX as int),
                ) {
                    (Some(y), Some(mo), Some(d), Some(h), Some(mi), Some(se)) => Some(
                        (y, mo, d, h, mi, se),
                    ),
                    _ => None,
                },
                _ => None,
            },
            _ => None,
        }
    }
}

/// The timestamp ISO text stands for.
pub open spec fn parse_iso_unix_spec(s: Seq<char>) -> Option<int> {
    match iso_fields(s) {
        Some((y, mo, d, h, mi, se)) => if 1 <= mo <= 12 && 1 <= d <= 31 {
            Some(days_from_civil_spec(y, mo, d) * 86400 + h * 3600 + mi * 60 + se)
        } else {
            None
        },
        None => None,
    }
}

/// ISO text that `parse_iso_unix` reads without overflowing: its date, if it
/// reads as one, lies on or after 1970-01-01 and within the 32-bit day count.
pub open spec fn iso_in_range(s: Seq<char>) -> bool {
    match iso_fields(s) {
        Some((y, mo, d, h, mi, se)) => civil_fits_i32(y, mo, d) && (!(1 <= mo <= 12 && 1 <= d
            <= 31) || days_from_civil_spec(y, mo, d) >= 0),
        None => true,
    }
}

fn find_char(s: &str, c: char) -> (r: usize)
    ensures
        r == first_index(s@, c),
{
    let n = s.unicode_len();
    let mut i: usize = 0;
    while i < n
        invariant
            n == s@.len(),
            i <= n,
            forall|j: int| 0 <= j < i ==> s@[j] != c,
        decreases n - i,
    {
        if s.get_char(i) == c {
            proof {
                lemma_first_index_at(s@, c, i as int);
            }
            return i;
        }
        i = i + 1;
    }
    proof {
        lemma_first_index_at(s@, c, i as int);
    }
    i
}

fn piece_of(s: &str, sep: char, k: usize) -> (r: Option<String>)
    ensures
        match r {
            Some(p) => piece(s@, sep, k as nat) == Some(p@),
            None => piece(s@, sep, k as nat) is None,
        },
    decreases s@.len(),
{
    let n = s.unicode_len();
    let i = find_char(s, sep);
    if i >= n {
        if k == 0 {
            Some(owned(s))
        } else {
            None
        }
    } else if k == 0 {
        Some(owned(s.substring_char(0, i)))
    } else {
        piece_of(s.substring_char(i + 1, n), sep, k - 1)
    }
}

fn strip_trailing_z(s: &str) -> (r: String)
    ensures
        r@ == strip_end(s@, |c: char| c == 'Z'),
{
    let ghost p = |c: char| c == 'Z';
    let n = s.unicode_len();
    let mut k: usize = 0;
    let mut done = false;
    while k < n && !done
        invariant
            n == s@.len(),
            k <= n,
            p == (|c: char| c == 'Z'),
            forall|j: int| n - k <= j < n ==> s@[j] == 'Z',
            done ==> k < n && s@[n - k - 1] != 'Z',
        decreases n - k + (if done { 0int } else { 1int }),
    {
        if s.get_char(n - k - 1) != 'Z' {
            done = true;
        } else {
            k = k + 1;
        }
    }
    proof {
        lemma_trailing_count(s@, p, k as int);
    }
    owned(s.substring_char(0, n - k))
}

/// Whether `parse_iso_unix` reads `value` without overflowing.
pub fn iso_text_in_range(value: &str) -> (r: bool)
    ensures
        r == iso_in_range(value@),
{
    match read_iso_fields(value) {
        Some((y, mo, d, _h, _mi, _se)) => {
            if !(1 <= mo && mo <= 12 && 1 <= d && d <= 31) {
                return check_civil_fits(y, mo, d);
            }
            if !check_civil_fits(y, mo, d) {
                return false;
            }
            match days_from_civil(y, mo, d) {
                Some(days) => days >= 0,
                None => false,
            }
        },
        None => true,
    }
}

fn check_civil_fits(year: i32, month: u32, day: u32) -> (r: bool)
    ensures
        r == civil_fits_i32(year as int, month as int, day as int),
{
    if !(1 <= month && month <= 12) || !(1 <= day && day <= 31) {
        return true;
    }
    let y: i64 = year as i64 - if month <= 2 { 1 } else { 0 };
    let y2: i64 = if y >= 0 { y } else { y - 399 };
    let era: i64 = if y2 >= 0 {
        y2 / 400
    } else {
        -((0 - y2) / 400)
    };
    assert(era == tdiv(y2 as int, 400));
    let yoe: i64 = y - era * 400;
    let mp: i64 = month as i64 + if month > 2 { -3 } else { 9 };
    let doy: i64 = (153 * mp + 2) / 5 + day as i64 - 1;
    let doe: i64 = yoe * 365 + yoe / 4 - yoe / 100 + doy;
    let lo: i64 = i32::MIN as i64;
    let hi: i64 = i32::MAX as i64;
    let a = era * 146097;
    lo <= y && y <= hi && lo <= y2 && y2 <= hi && lo <= era * 400 && era * 400 <= hi && lo <= a
        && a <= hi && lo <= a + doe && a + doe <= hi && lo <= a + doe - 719468 && a + doe - 719468
        <= hi
}

fn read_iso_fields(value: &str) -> (r: Option<(i32, u32, u32, u32, u32, u32)>)
    ensures
        match r {
            Some((y, mo, d, h, mi, se)) => iso_fields(value@) == Some(
                (y as int, mo as int, d as int, h as int, mi as int, se as int),
            ),
            None => iso_fields(value@) is None,
        },
{
    let n = value.unicode_len();
    let t = find_char(value, 'T');
    if t >= n {
        return None;
    }
    let date = value.substring_char(0, t);
    let rest = value.substring_char(t + 1, n);
    let time = strip_trailing_z(rest);
    let clock = match piece_of(time.as_str(), '.', 0) {
        Some(c) => c,
        None => {
            proof {
                lemma_first_index(time@, '.');
            }
            return None;
        },
    };
    let ys = match piece_of(date, '-', 0) {
        Some(p) => p,
        None => return None,
    };
    let ms = match piece_of(date, '-', 1) {
        Some(p) => p,
        None => return None,
    };
    let ds = match piece_of(date, '-', 2) {
        Some(p) => p,
        None => return None,
    };
    let hs = match piece_of(clock.as_str(), ':', 0) {
        Some(p) => p,
        None => return None,
    };
    let mis = match piece_of(clock.as_str(), ':', 1) {
        Some(p) => p,
        None => return None,
    };
    let ss = match piece_of(clock.as_str(), ':', 2) {
        Some(p) => p,
        None => return None,
    };
    let y = match parse_i32(ys.as_str()) {
        Some(v) => v,
        None => return None,
    };
    let mo = match parse_u32(ms.as_str()) {
        Some(v) => v,
        None => return None,
    };
    let d = match parse_u32(ds.as_str()) {
        Some(v) => v,
        None => return None,
    };
    let h = match parse_u32(hs.as_str()) {
        Some(v) => v,
        None => return None,
    };
    let mi = match parse_u32(mis.as_str()) {
        Some(v) => v,
        None => return None,
    };
    let se = match parse_u32(ss.as_str()) {
        Some(v) => v,
        None => return None,
    };
    Some((y, mo, d, h, mi, se))
}

/// Reads ISO text back into a Unix timestamp.
pub fn parse_iso_unix(value: &str) -> (r: Option<u64>)
    requires
        iso_in_range(value@),
    ensures
        match r {
            Some(v) => parse_iso_unix_spec(value@) == Some(v as int),
            None => parse_iso_unix_spec(value@) is None,
        },
{
    let (y, mo, d, h, mi, se) = match read_iso_fields(value) {
        Some(f) => f,
        None => return None,
    };
    let days = match days_from_civil(y, mo, d) {
        Some(v) => v,
        None => return None,
    };
    assert(days <= i32::MAX);
    Some(days as u64 * 86400 + h as u64 * 3600 + mi as u64 * 60 + se as u64)
}

// ---------------------------------------------------------------- the round trip

proof fn lemma_digit(d: int)
    requires
        0 <= d < 10,
    ensures
        digit_val(digit_char(d)) == d,
        is_ascii_digit(digit_char(d)),
{
    assert(((d + 48) as u8) as int == d + 48);
}

proof fn lemma_decimal_digits(n: nat)
    ensures
        all_digits(decimal(n)),
        digits_value(decimal(n)) == n,
        decimal(n).len() >= 1,
    decreases n,
{
    if n < 10 {
        lemma_digit(n as int);
        let s = decimal(n);
        assert(s.drop_last() =~= Seq::<char>::empty());
        assert(digits_value(s.drop_last()) == 0);
        assert(s.last() == digit_char(n as int));
        assert(digits_value(s) == digits_value(s.drop_last()) * 10 + digit_val(s.last()));
    } else {
        lemma_decimal_digits(n / 10);
        lemma_digit((n % 10) as int);
        let s = decimal(n);
        assert(s.drop_last() =~= decimal(n / 10));
        assert(s.last() == digit_char((n % 10) as int));
        assert(digits_value(s) == digits_value(decimal(n / 10)) * 10 + digit_val(s.last()));
        assert(n == (n / 10) * 10 + n % 10);
        assert forall|i: int| 0 <= i < s.len() implies is_ascii_digit(#[trigger] s[i]) by {
            if i < s.len() - 1 {
                assert(s[i] == decimal(n / 10)[i]);
            }
        }
    }
}

proof fn lemma_zeros_prefix(k: nat, x: Seq<char>)
    requires
        all_digits(x),
    ensures
        all_digits(zeros(k) + x),
        digits_value(zeros(k) + x) == digits_value(x),
    decreases x.len(),
{
    let s = zeros(k) + x;
    assert forall|i: int| 0 <= i < s.len() implies is_ascii_digit(#[trigger] s[i]) by {
        if i >= k {
            assert(s[i] == x[i - k]);
        }
    }
    if x.len() == 0 {
        assert(s =~= zeros(k));
        lemma_zeros_value(k);
    } else {
        let y = x.drop_last();
        assert(all_digits(y));
        lemma_zeros_prefix(k, y);
        assert(s.drop_last() =~= zeros(k) + y);
    }
}

proof fn lemma_zeros_value(k: nat)
    ensures
        digits_value(zeros(k)) == 0,
    decreases k,
{
    if k > 0 {
        assert(zeros(k).drop_last() =~= zeros((k - 1) as nat));
        lemma_zeros_value((k - 1) as nat);
    }
}

proof fn lemma_padded(n: nat, w: nat)
    ensures
        all_digits(padded(n, w)),
        digits_value(padded(n, w)) == n,
        padded(n, w).len() >= 1,
        padded(n, w)[0] != '+' && padded(n, w)[0] != '-',
        n <= u32::MAX ==> parse_unsigned(padded(n, w), u32::MAX as int) == Some(n as int),
        n <= i32::MAX ==> parse_i32_spec(padded(n, w)) == Some(n as int),
{
    lemma_decimal_digits(n);
    let d = decimal(n);
    if d.len() < w {
        lemma_zeros_prefix((w - d.len()) as nat, d);
    }
    assert(is_ascii_digit(padded(n, w)[0]));
}

/// A run of digits holds none of the separators of ISO text.
proof fn lemma_no_sep(x: Seq<char>, c: char)
    requires
        all_digits(x),
        !is_ascii_digit(c),
    ensures
        forall|j: int| 0 <= j < x.len() ==> x[j] != c,
{
    assert forall|j: int| 0 <= j < x.len() implies x[j] != c by {
        assert(is_ascii_digit(x[j]));
    }
}

proof fn lemma_piece_whole(a: Seq<char>, c: char)
    requires
        forall|j: int| 0 <= j < a.len() ==> a[j] != c,
    ensures
        piece(a, c, 0) == Some(a),
{
    lemma_first_index_at(a, c, a.len() as int);
}

proof fn lemma_piece_split(a: Seq<char>, c: char, b: Seq<char>, k: nat)
    requires
        forall|j: int| 0 <= j < a.len() ==> a[j] != c,
    ensures
        piece(a + seq![c] + b, c, 0) == Some(a),
        piece(a + seq![c] + b, c, k + 1) == piece(b, c, k),
{
    let s = a + seq![c] + b;
    assert forall|j: int| 0 <= j < a.len() implies s[j] != c by {
        assert(s[j] == a[j]);
    }
    assert(s[a.len() as int] == c);
    lemma_first_index_at(s, c, a.len() as int);
    assert(s.subrange(0, a.len() as int) =~= a);
    assert(s.subrange(a.len() as int + 1, s.len() as int) =~= b);
}

proof fn lemma_three_pieces(a: Seq<char>, b: Seq<char>, c: Seq<char>, sep: char)
    requires
        all_digits(a),
        all_digits(b),
        all_digits(c),
        !is_ascii_digit(sep),
    ensures
        ({
            let s = a + seq![sep] + b + seq![sep] + c;
            &&& piece(s, sep, 0) == Some(a)
            &&& piece(s, sep, 1) == Some(b)
            &&& piece(s, sep, 2) == Some(c)
        }),
{
    lemma_no_sep(a, sep);
    lemma_no_sep(b, sep);
    lemma_no_sep(c, sep);
    lemma_piece_split(a, sep, b + seq![sep] + c, 0);
    lemma_piece_split(a, sep, b + seq![sep] + c, 1);
    lemma_piece_split(b, sep, c, 0);
    lemma_piece_split(b, sep, c, 1);
    lemma_piece_whole(c, sep);
    assert(a + seq![sep] + b + seq![sep] + c =~= a + seq![sep] + (b + seq![sep] + c));
}

proof fn lemma_three_no_sep(a: Seq<char>, b: Seq<char>, c: Seq<char>, sep: char, other: char)
    requires
        all_digits(a),
        all_digits(b),
        all_digits(c),
        !is_ascii_digit(other),
        sep != other,
    ensures
        forall|j: int|
            0 <= j < (a + seq![sep] + b + seq![sep] + c).len() ==> (a + seq![sep] + b + seq![sep]
                + c)[j] != other,
{
    let s = a + seq![sep] + b + seq![sep] + c;
    lemma_no_sep(a, other);
    lemma_no_sep(b, other);
    lemma_no_sep(c, other);
    assert forall|j: int| 0 <= j < s.len() implies s[j] != other by {
        if j < a.len() {
            assert(s[j] == a[j]);
        } else if j == a.len() {
        } else if j < a.len() + 1 + b.len() {
            assert(s[j] == b[j - a.len() - 1]);
        } else if j == a.len() + 1 + b.len() {
        } else {
            assert(s[j] == c[j - a.len() - 2 - b.len()]);
        }
    }
}

/// ISO text of in-range fields reads back as the same fields.
proof fn lemma_iso_fields(y: nat, m: nat, d: nat, h: nat, mi: nat, se: nat)
    requires
        y <= i32::MAX,
        m <= u32::MAX,
        d <= u32::MAX,
        h <= u32::MAX,
        mi <= u32::MAX,
        se <= u32::MAX,
    ensures
        iso_fields(iso_text(y as int, m, d, h, mi, se)) == Some(
            (y as int, m as int, d as int, h as int, mi as int, se as int),
        ),
{
    let ys = padded(y, 4);
    let ms = padded(m, 2);
    let ds = padded(d, 2);
    let hs = padded(h, 2);
    let mis = padded(mi, 2);
    let ss = padded(se, 2);
    lemma_padded(y, 4);
    lemma_padded(m, 2);
    lemma_padded(d, 2);
    lemma_padded(h, 2);
    lemma_padded(mi, 2);
    lemma_padded(se, 2);
    let date = ys + seq!['-'] + ms + seq!['-'] + ds;
    let clock = hs + seq![':'] + mis + seq![':'] + ss;
    let rest = clock + ".000Z"@;
    let s = date + seq!['T'] + rest;
    assert(s =~= iso_text(y as int, m, d, h, mi, se));
    lemma_three_no_sep(ys, ms, ds, '-', 'T');
    assert forall|j: int| 0 <= j < date.len() implies s[j] != 'T' by {
        assert(s[j] == date[j]);
    }
    assert(s[date.len() as int] == 'T');
    lemma_first_index_at(s, 'T', date.len() as int);
    assert(s.subrange(0, date.len() as int) =~= date);
    assert(s.subrange(date.len() as int + 1, s.len() as int) =~= rest);
    let pz = |c: char| c == 'Z';
    reveal_strlit(".000Z");
    assert(rest[rest.len() - 1] == 'Z');
    assert(rest[rest.len() - 2] == '0');
    lemma_trailing_count(rest, pz, 1);
    let time = strip_end(rest, pz);
    assert(time =~= clock + seq!['.'] + seq!['0', '0', '0']);
    lemma_three_no_sep(hs, mis, ss, ':', '.');
    lemma_piece_split(clock, '.', seq!['0', '0', '0'], 0);
    lemma_three_pieces(ys, ms, ds, '-');
    lemma_three_pieces(hs, mis, ss, ':');
}

/// Law: a timestamp written as ISO text reads back as the same timestamp,
/// for every timestamp whose day count fits the 32-bit date arithmetic
/// (past the year five million).
#[verifier::rlimit(40)]
pub proof fn law_iso_round_trip(t: nat)
    requires
        t / 86400 + 719468 <= i32::MAX,
    ensures
        iso_in_range(unix_to_iso_spec(t)),
        parse_iso_unix_spec(unix_to_iso_spec(t)) == Some(t as int),
{
    let days = (t / 86400) as int;
    law_civil_round_trip(days);
    let (y, m, d) = civil_from_days_spec(days);
    assert((y as i32) as int == y);
    assert((m as u32) as nat == m);
    assert((d as u32) as nat == d);
    let secs = t % 86400;
    let h = secs / 3600;
    let mi = (secs % 3600) / 60;
    let se = secs % 60;
    assert(padded_signed(y, 4) == padded(y as nat, 4));
    lemma_iso_fields(y as nat, m as nat, d as nat, h as nat, mi as nat, se as nat);
    let s = unix_to_iso_spec(t);
    assert(s == iso_text(y, m as nat, d as nat, h as nat, mi as nat, se as nat));
    assert(iso_fields(s) == Some((y, m, d, h as int, mi as int, se as int)));
    assert(days * 86400 + h * 3600 + mi * 60 + se == t);
}

} // verus!
