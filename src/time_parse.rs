//! Time expressions: a relative duration such as `1d 3h 10m`, or a UTC date such as
//! `2027-06-10 12:23:00`.
use vstd::prelude::*;
use crate::calendar::{
    checked_add_seconds, hour_of, is_representable, is_valid_date, is_valid_time, minute_of,
    second_of, time_of_day, timestamp_of, utc_timestamp,
};
use crate::text::{
    chars_of, contains_char, decimal_value, digit_prefix_len, is_ascii_digit, is_first_index_of,
    is_word, parse_i32, parse_signed, parse_u32, parse_unsigned, split, split_chars, sub_chars,
    trim, trimmed, IntErrorKind,
};

verus! {

/// The largest duration, in seconds, that a relative time expression may add up to; beyond it
/// no sum stays representable.
pub const MAX_DURATION_SECONDS: u64 = 9223372036854775;

/// The seconds that one unit spelled `u` stands for, if `u` is a unit.
pub open spec fn unit_seconds(u: Seq<char>) -> Option<int> {
    if u == "d"@ || u == "day"@ || u == "days"@ {
        Some(86400)
    } else if u == "h"@ || u == "hr"@ || u == "hrs"@ || u == "hour"@ || u == "hours"@ {
        Some(3600)
    } else if u == "m"@ || u == "min"@ || u == "mins"@ || u == "minute"@ || u == "minutes"@ {
        Some(60)
    } else if u == "s"@ || u == "sec"@ || u == "secs"@ || u == "second"@ || u == "seconds"@ {
        Some(1)
    } else {
        None
    }
}

/// The seconds that one space-separated piece of a relative duration stands for: none for a
/// blank piece, else a number followed by a unit, with whitespace around either trimmed.
pub open spec fn token_seconds(piece: Seq<char>) -> Option<int> {
    let t = trim(piece);
    let k = digit_prefix_len(t) as int;
    if t.len() == 0 {
        Some(0)
    } else if k == 0 {
        None
    } else {
        match unit_seconds(trim(t.subrange(k, t.len() as int))) {
            Some(u) => Some(decimal_value(t.subrange(0, k)) * u),
            None => None,
        }
    }
}

/// The sum of the seconds of the pieces, if each of them is a number followed by a unit.
pub open spec fn total_seconds(pieces: Seq<Seq<char>>) -> Option<int>
    decreases pieces.len(),
{
    if pieces.len() == 0 {
        Some(0)
    } else {
        match (total_seconds(pieces.drop_last()), token_seconds(pieces.last())) {
            (Some(a), Some(b)) => Some(a + b),
            _ => None,
        }
    }
}

/// The duration, in seconds, that `input` writes, if it is a relative duration.
pub open spec fn relative_duration(input: Seq<char>) -> Option<int> {
    total_seconds(split(input, ' '))
}

/// `x` where it is at most `MAX_DURATION_SECONDS`, and one more than that bound above it.
pub open spec fn capped(x: int) -> int {
    if x <= MAX_DURATION_SECONDS {
        x
    } else {
        MAX_DURATION_SECONDS + 1
    }
}

fn unit_seconds_of(u: &Vec<char>) -> (r: Option<u64>)
    ensures
        match unit_seconds(u@) {
            Some(s) => r == Some(s as u64),
            None => r is None,
        },
{
    if is_word(u, "d") || is_word(u, "day") || is_word(u, "days") {
        Some(86400)
    } else if is_word(u, "h") || is_word(u, "hr") || is_word(u, "hrs") || is_word(u, "hour")
        || is_word(u, "hours") {
        Some(3600)
    } else if is_word(u, "m") || is_word(u, "min") || is_word(u, "mins") || is_word(u, "minute")
        || is_word(u, "minutes") {
        Some(60)
    } else if is_word(u, "s") || is_word(u, "sec") || is_word(u, "secs") || is_word(u, "second")
        || is_word(u, "seconds") {
        Some(1)
    } else {
        None
    }
}

proof fn lemma_digit_prefix_len(s: Seq<char>, k: int)
    requires
        0 <= k <= s.len(),
        forall|j: int| 0 <= j < k ==> is_ascii_digit(#[trigger] s[j]),
        k == s.len() || !is_ascii_digit(s[k]),
    ensures
        digit_prefix_len(s) == k,
    decreases k,
{
    if k > 0 {
        let t = s.drop_first();
        assert forall|j: int| 0 <= j < k - 1 implies is_ascii_digit(#[trigger] t[j]) by {
            assert(t[j] == s[j + 1]);
        }
        lemma_digit_prefix_len(t, k - 1);
    }
}

/// The number that the digits `v[..k]` write, capped.
fn capped_decimal(v: &Vec<char>, k: usize) -> (r: u64)
    requires
        k <= v.len(),
        forall|j: int| 0 <= j < k ==> is_ascii_digit(#[trigger] v@[j]),
    ensures
        r as int == capped(decimal_value(v@.subrange(0, k as int)) as int),
{
    let mut acc: u64 = 0;
    let mut i: usize = 0;
    assert(v@.subrange(0, 0) =~= Seq::<char>::empty());
    while i < k
        invariant
            i <= k <= v.len(),
            forall|j: int| 0 <= j < k ==> is_ascii_digit(#[trigger] v@[j]),
            acc as int == capped(decimal_value(v@.subrange(0, i as int)) as int),
        decreases k - i,
    {
        let ghost before = decimal_value(v@.subrange(0, i as int));
        assert(v@.subrange(0, i + 1).drop_last() == v@.subrange(0, i as int));
        assert(is_ascii_digit(v@[i as int]));
        let d = (v[i] as u32 - '0' as u32) as u64;
        assert(decimal_value(v@.subrange(0, i + 1)) == before * 10 + d);
        if acc <= MAX_DURATION_SECONDS {
            let next = acc * 10 + d;
            acc = if next <= MAX_DURATION_SECONDS {
                next
            } else {
                MAX_DURATION_SECONDS + 1
            };
        }
        i = i + 1;
    }
    acc
}

proof fn lemma_capped_product(n: int, u: int)
    requires
        0 <= n,
        0 < u,
    ensures
        n <= (MAX_DURATION_SECONDS as int) / u ==> n * u <= MAX_DURATION_SECONDS,
        n > (MAX_DURATION_SECONDS as int) / u ==> n * u > MAX_DURATION_SECONDS,
        n > MAX_DURATION_SECONDS ==> n * u > MAX_DURATION_SECONDS,
{
    let c: int = MAX_DURATION_SECONDS as int;
    vstd::arithmetic::div_mod::lemma_fundamental_div_mod(c, u);
    let q = c / u;
    assert(0 <= c % u < u);
    if n <= q {
        assert(n * u <= q * u) by (nonlinear_arith)
            requires
                n <= q,
                0 < u,
        ;
        assert(q * u <= c) by (nonlinear_arith)
            requires
                c == u * q + c % u,
                0 <= c % u,
        ;
    } else {
        assert(n * u >= (q + 1) * u) by (nonlinear_arith)
            requires
                n >= q + 1,
                0 < u,
        ;
        assert((q + 1) * u > c) by (nonlinear_arith)
            requires
                c == u * q + c % u,
                c % u < u,
        ;
    }
    if n > c {
        assert(n * u >= n) by (nonlinear_arith)
            requires
                n >= 0,
                u >= 1,
        ;
    }
}

/// The seconds of one piece of a relative duration, capped.
fn piece_seconds(piece: &Vec<char>) -> (r: Option<u64>)
    ensures
        match token_seconds(piece@) {
            Some(x) => r == Some(capped(x) as u64),
            None => r is None,
        },
        token_seconds(piece@) matches Some(x) ==> x >= 0,
{
    let t = trimmed(piece);
    if t.len() == 0 {
        return Some(0);
    }
    let mut k: usize = 0;
    while k < t.len() && '0' <= t[k] && t[k] <= '9'
        invariant
            k <= t.len(),
            forall|j: int| 0 <= j < k ==> is_ascii_digit(#[trigger] t@[j]),
        decreases t.len() - k,
    {
        k = k + 1;
    }
    proof {
        lemma_digit_prefix_len(t@, k as int);
    }
    if k == 0 {
        return None;
    }
    let rest = sub_chars(&t, k, t.len());
    let unit = trimmed(&rest);
    let u = match unit_seconds_of(&unit) {
        Some(u) => u,
        None => {
            return None;
        },
    };
    let n = capped_decimal(&t, k);
    let ghost value = decimal_value(t@.subrange(0, k as int)) as int;
    proof {
        lemma_capped_product(value, u as int);
        lemma_capped_product(n as int, u as int);
    }
    if n <= MAX_DURATION_SECONDS / u {
        Some(n * u)
    } else {
        Some(MAX_DURATION_SECONDS + 1)
    }
}

proof fn lemma_total_seconds_nonnegative(pieces: Seq<Seq<char>>)
    requires
        forall|i: int|
            0 <= i < pieces.len() ==> (#[trigger] token_seconds(pieces[i]) matches Some(x) ==> x
                >= 0),
    ensures
        total_seconds(pieces) matches Some(x) ==> x >= 0,
    decreases pieces.len(),
{
    if pieces.len() > 0 {
        let init = pieces.drop_last();
        assert forall|i: int| 0 <= i < init.len() implies (#[trigger] token_seconds(init[i]) matches Some(
            x,
        ) ==> x >= 0) by {
            assert(init[i] == pieces[i]);
        }
        lemma_total_seconds_nonnegative(init);
        assert(token_seconds(pieces[pieces.len() - 1]) matches Some(x) ==> x >= 0);
    }
}

/// The time `now` plus the duration that `input` writes, if `input` is a relative duration:
/// space-separated pieces, each a number directly followed by a unit (`d`, `day`, `days`, `h`,
/// `hr`, `hrs`, `hour`, `hours`, `m`, `min`, `mins`, `minute`, `minutes`, `s`, `sec`, `secs`,
/// `second`, `seconds`). `None` when a piece is not of that form, or when the sum leaves the
/// representable range.
pub fn parse_time_delta(now: i64, input: &str) -> (r: Option<i64>)
    requires
        is_representable(now as int),
    ensures
        r is Some <==> (relative_duration(input@) matches Some(d) && is_representable(now + d)),
        r matches Some(t) ==> relative_duration(input@) == Some(t - now),
{
    let chars = chars_of(input);
    let pieces = split_chars(&chars, ' ');
    let ghost ps = split(input@, ' ');
    let mut total: u64 = 0;
    let mut valid = true;
    let mut i: usize = 0;
    while i < pieces.len()
        invariant
            i <= pieces.len(),
            ps == pieces@.map_values(|p: Vec<char>| p@),
            valid == total_seconds(ps.take(i as int)) is Some,
            valid ==> total as int == capped(total_seconds(ps.take(i as int))->0),
            valid ==> total_seconds(ps.take(i as int))->0 >= 0,
            total <= MAX_DURATION_SECONDS + 1,
        decreases pieces.len() - i,
    {
        assert(ps.take(i + 1).drop_last() == ps.take(i as int));
        assert(ps.take(i + 1).last() == pieces@[i as int]@);
        match piece_seconds(&pieces[i]) {
            None => {
                valid = false;
            },
            Some(x) => {
                if valid {
                    total = if total + x > MAX_DURATION_SECONDS {
                        MAX_DURATION_SECONDS + 1
                    } else {
                        total + x
                    };
                }
            },
        }
        i = i + 1;
    }
    assert(ps.take(pieces.len() as int) == ps);
    if !valid || total > MAX_DURATION_SECONDS {
        return None;
    }
    checked_add_seconds(now, total as i64)
}

/// Why a string is not a UTC date, in the order in which the checks are made.
#[derive(Debug, Clone, Copy, PartialEq, Eq, Structural)]
pub enum ParseDateTimeError {
    UnrecognizedDateFormat,
    UnrecognizedTimeFormat,
    ParseYear(IntErrorKind),
    ParseMonth(IntErrorKind),
    ParseDay(IntErrorKind),
    InvalidDate,
    InvalidMonth,
    InvalidDay,
    ParseHour(IntErrorKind),
    ParseMin(IntErrorKind),
    ParseSec(IntErrorKind),
    InvalidHour,
    InvalidMin,
    InvalidSec,
}

/// The hour, minute and second that `text` writes as `hh:mm` or `hh:mm:ss`.
pub open spec fn time_fields(text: Seq<char>) -> Result<(int, int, int), ParseDateTimeError> {
    let parts = split(trim(text), ':');
    if parts.len() != 2 && parts.len() != 3 {
        Err(ParseDateTimeError::UnrecognizedTimeFormat)
    } else {
        match parse_unsigned(parts[0], u32::MAX as int) {
            Err(e) => Err(ParseDateTimeError::ParseHour(e)),
            Ok(h) => match parse_unsigned(parts[1], u32::MAX as int) {
                Err(e) => Err(ParseDateTimeError::ParseMin(e)),
                Ok(mi) => match (if parts.len() == 3 {
                    parse_unsigned(parts[2], u32::MAX as int)
                } else {
                    Ok(0)
                }) {
                    Err(e) => Err(ParseDateTimeError::ParseSec(e)),
                    Ok(s) => if h >= 24 {
                        Err(ParseDateTimeError::InvalidHour)
                    } else if mi >= 60 {
                        Err(ParseDateTimeError::InvalidMin)
                    } else if s >= 60 {
                        Err(ParseDateTimeError::InvalidSec)
                    } else {
                        Ok((h, mi, s))
                    },
                },
            },
        }
    }
}

/// The year, month and day that `text` writes as `YYYY-MM-DD`, with the month at most 12
/// and the day at most 31; whether that day exists is checked apart.
pub open spec fn date_fields(text: Seq<char>) -> Result<(int, int, int), ParseDateTimeError> {
    let parts = split(text, '-');
    if parts.len() != 3 {
        Err(ParseDateTimeError::UnrecognizedDateFormat)
    } else {
        match parse_signed(parts[0], i32::MAX as int) {
            Err(e) => Err(ParseDateTimeError::ParseYear(e)),
            Ok(y) => match parse_unsigned(parts[1], u32::MAX as int) {
                Err(e) => Err(ParseDateTimeError::ParseMonth(e)),
                Ok(m) => match parse_unsigned(parts[2], u32::MAX as int) {
                    Err(e) => Err(ParseDateTimeError::ParseDay(e)),
                    Ok(d) => if m > 12 {
                        Err(ParseDateTimeError::InvalidMonth)
                    } else if d > 31 {
                        Err(ParseDateTimeError::InvalidDay)
                    } else {
                        Ok((y, m, d))
                    },
                },
            },
        }
    }
}

/// The timestamp of the date fields `date` at the time of day `h:mi:s`.
pub open spec fn date_at(
    date: Result<(int, int, int), ParseDateTimeError>,
    h: int,
    mi: int,
    s: int,
) -> Result<int, ParseDateTimeError> {
    match date {
        Err(e) => Err(e),
        Ok((y, m, d)) => if is_valid_date(y, m, d) {
            Ok(timestamp_of(y, m, d, h, mi, s))
        } else {
            Err(ParseDateTimeError::InvalidDate)
        },
    }
}

/// What `input` gives as a UTC date: `date time`, split at the first space, with the time
/// checked first; or a date alone, at the time of day of `now`.
pub open spec fn absolute_time(now: int, input: Seq<char>) -> Result<int, ParseDateTimeError> {
    let s = trim(input);
    if contains_char(s, ' ') {
        let i = choose|i: int| is_first_index_of(s, ' ', i);
        match time_fields(s.subrange(i + 1, s.len() as int)) {
            Err(e) => Err(e),
            Ok((h, mi, sec)) => date_at(date_fields(trim(s.subrange(0, i))), h, mi, sec),
        }
    } else {
        date_at(date_fields(s), hour_of(now), minute_of(now), second_of(now))
    }
}

fn read_time_fields(text: &Vec<char>) -> (r: Result<(u32, u32, u32), ParseDateTimeError>)
    ensures
        match r {
            Ok((h, mi, s)) => time_fields(text@) == Ok::<(int, int, int), ParseDateTimeError>(
                (h as int, mi as int, s as int),
            ),
            Err(e) => time_fields(text@) == Err::<(int, int, int), ParseDateTimeError>(e),
        },
{
    let t = trimmed(text);
    let parts = split_chars(&t, ':');
    let ghost ps = split(trim(text@), ':');
    assert(ps.len() == parts.len());
    if parts.len() != 2 && parts.len() != 3 {
        return Err(ParseDateTimeError::UnrecognizedTimeFormat);
    }
    assert(ps[0] == parts@[0]@ && ps[1] == parts@[1]@);
    let hour = match parse_u32(&parts[0]) {
        Ok(h) => h,
        Err(e) => {
            return Err(ParseDateTimeError::ParseHour(e));
        },
    };
    let min = match parse_u32(&parts[1]) {
        Ok(m) => m,
        Err(e) => {
            return Err(ParseDateTimeError::ParseMin(e));
        },
    };
    let sec = if parts.len() == 3 {
        assert(ps[2] == parts@[2]@);
        match parse_u32(&parts[2]) {
            Ok(s) => s,
            Err(e) => {
                return Err(ParseDateTimeError::ParseSec(e));
            },
        }
    } else {
        0
    };
    if hour >= 24 {
        return Err(ParseDateTimeError::InvalidHour);
    }
    if min >= 60 {
        return Err(ParseDateTimeError::InvalidMin);
    }
    if sec >= 60 {
        return Err(ParseDateTimeError::InvalidSec);
    }
    Ok((hour, min, sec))
}

fn read_date_fields(text: &Vec<char>) -> (r: Result<(i32, u32, u32), ParseDateTimeError>)
    ensures
        match r {
            Ok((y, m, d)) => date_fields(text@) == Ok::<(int, int, int), ParseDateTimeError>(
                (y as int, m as int, d as int),
            ),
            Err(e) => date_fields(text@) == Err::<(int, int, int), ParseDateTimeError>(e),
        },
{
    let parts = split_chars(text, '-');
    let ghost ps = split(text@, '-');
    assert(ps.len() == parts.len());
    if parts.len() != 3 {
        return Err(ParseDateTimeError::UnrecognizedDateFormat);
    }
    assert(ps[0] == parts@[0]@ && ps[1] == parts@[1]@ && ps[2] == parts@[2]@);
    let year = match parse_i32(&parts[0]) {
        Ok(y) => y,
        Err(e) => {
            return Err(ParseDateTimeError::ParseYear(e));
        },
    };
    let month = match parse_u32(&parts[1]) {
        Ok(m) => m,
        Err(e) => {
            return Err(ParseDateTimeError::ParseMonth(e));
        },
    };
    let day = match parse_u32(&parts[2]) {
        Ok(d) => d,
        Err(e) => {
            return Err(ParseDateTimeError::ParseDay(e));
        },
    };
    if month > 12 {
        return Err(ParseDateTimeError::InvalidMonth);
    }
    if day > 31 {
        return Err(ParseDateTimeError::InvalidDay);
    }
    Ok((year, month, day))
}

fn timestamp_at(
    date: Result<(i32, u32, u32), ParseDateTimeError>,
    hour: u32,
    min: u32,
    sec: u32,
) -> (r: Result<i64, ParseDateTimeError>)
    requires
        is_valid_time(hour as int, min as int, sec as int),
    ensures
        match r {
            Ok(t) => date_at(
                match date {
                    Ok((y, m, d)) => Ok::<(int, int, int), ParseDateTimeError>(
                        (y as int, m as int, d as int),
                    ),
                    Err(e) => Err(e),
                },
                hour as int,
                min as int,
                sec as int,
            ) == Ok::<int, ParseDateTimeError>(t as int),
            Err(e) => date_at(
                match date {
                    Ok((y, m, d)) => Ok::<(int, int, int), ParseDateTimeError>(
                        (y as int, m as int, d as int),
                    ),
                    Err(e) => Err(e),
                },
                hour as int,
                min as int,
                sec as int,
            ) == Err::<int, ParseDateTimeError>(e),
        },
{
    match date {
        Err(e) => Err(e),
        Ok((year, month, day)) => match utc_timestamp(year, month, day, hour, min, sec) {
            Some(t) => Ok(t),
            None => Err(ParseDateTimeError::InvalidDate),
        },
    }
}

/// The timestamp that `input` writes as a UTC date: `YYYY-MM-DD`, `YYYY-MM-DD hh:mm` or
/// `YYYY-MM-DD hh:mm:ss`. A date alone stands for that day at the time of day of `now`.
pub fn parse_date_time(now: i64, input: &str) -> (r: Result<i64, ParseDateTimeError>)
    requires
        is_representable(now as int),
    ensures
        match r {
            Ok(t) => absolute_time(now as int, input@) == Ok::<int, ParseDateTimeError>(t as int),
            Err(e) => absolute_time(now as int, input@) == Err::<int, ParseDateTimeError>(e),
        },
{
    let all = chars_of(input);
    let s = trimmed(&all);
    let mut i: usize = 0;
    while i < s.len() && s[i] != ' '
        invariant
            i <= s.len(),
            forall|j: int| 0 <= j < i ==> s@[j] != ' ',
        decreases s.len() - i,
    {
        i = i + 1;
    }
    if i < s.len() {
        assert(contains_char(s@, ' '));
        assert(is_first_index_of(s@, ' ', i as int));
        let ghost k = choose|k: int| is_first_index_of(s@, ' ', k);
        assert(k == i) by {
            if k < i {
                assert(s@[k] != ' ');
            } else if k > i {
                assert(s@[i as int] != ' ');
            }
        }
        let time_text = sub_chars(&s, i + 1, s.len());
        let (hour, min, sec) = match read_time_fields(&time_text) {
            Ok(fields) => fields,
            Err(e) => {
                return Err(e);
            },
        };
        let date_text = trimmed(&sub_chars(&s, 0, i));
        timestamp_at(read_date_fields(&date_text), hour, min, sec)
    } else {
        assert(!contains_char(s@, ' '));
        let (hour, min, sec) = time_of_day(now);
        timestamp_at(read_date_fields(&s), hour, min, sec)
    }
}

} // verus!
