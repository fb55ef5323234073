use chrono::{Datelike, Timelike};

use ai_chan::calendar::{is_representable_timestamp, time_of_day, MAX_TIMESTAMP, MIN_TIMESTAMP};
use ai_chan::text::IntErrorKind;
use ai_chan::time_parse::{parse_date_time, parse_time_delta, ParseDateTimeError};

// 2024-01-01T00:00:00Z
const NEW_YEAR_2024: i64 = 1704067200;

#[test]
fn relative_duration_of_several_units() {
    assert_eq!(parse_time_delta(NEW_YEAR_2024, "1d 3h 10m"), Some(1704165000));
}

#[test]
fn relative_duration_long_unit_names() {
    let expected = NEW_YEAR_2024 + 23 * 86400;
    assert_eq!(parse_time_delta(NEW_YEAR_2024, "23day"), Some(expected));
    assert_eq!(parse_time_delta(NEW_YEAR_2024, "35hrs 4min"), Some(NEW_YEAR_2024 + 35 * 3600 + 240));
    assert_eq!(parse_time_delta(NEW_YEAR_2024, "727secs"), Some(NEW_YEAR_2024 + 727));
    assert_eq!(
        parse_time_delta(NEW_YEAR_2024, "1days 1hour 1hours 1minute 1minutes 1second 1seconds 1hr 1mins 1sec"),
        Some(NEW_YEAR_2024 + 86400 + 3 * 3600 + 3 * 60 + 3)
    );
}

#[test]
fn relative_duration_sums_repeated_units() {
    assert_eq!(parse_time_delta(NEW_YEAR_2024, "5m 5m 5s"), Some(NEW_YEAR_2024 + 605));
}

#[test]
fn relative_duration_ignores_extra_spaces() {
    assert_eq!(parse_time_delta(NEW_YEAR_2024, "  2h   30m  "), Some(NEW_YEAR_2024 + 9000));
    assert_eq!(parse_time_delta(NEW_YEAR_2024, "5\tm"), Some(NEW_YEAR_2024 + 300));
}

#[test]
fn relative_duration_of_nothing_is_now() {
    assert_eq!(parse_time_delta(NEW_YEAR_2024, ""), Some(NEW_YEAR_2024));
    assert_eq!(parse_time_delta(NEW_YEAR_2024, "   "), Some(NEW_YEAR_2024));
}

#[test]
fn relative_duration_rejects_unknown_units() {
    assert_eq!(parse_time_delta(NEW_YEAR_2024, "3w"), None);
    assert_eq!(parse_time_delta(NEW_YEAR_2024, "3 h"), None);
    assert_eq!(parse_time_delta(NEW_YEAR_2024, "h"), None);
    assert_eq!(parse_time_delta(NEW_YEAR_2024, "1D"), None);
    assert_eq!(parse_time_delta(NEW_YEAR_2024, "1d 2x"), None);
    assert_eq!(parse_time_delta(NEW_YEAR_2024, "2024-01-02"), None);
}

#[test]
fn relative_duration_beyond_range_fails() {
    assert_eq!(parse_time_delta(NEW_YEAR_2024, "99999999999999999999s"), None);
    assert_eq!(parse_time_delta(NEW_YEAR_2024, "100000000d"), None);
    assert_eq!(parse_time_delta(MAX_TIMESTAMP, "1s"), None);
    assert_eq!(parse_time_delta(MAX_TIMESTAMP - 1, "1s"), Some(MAX_TIMESTAMP));
}

#[test]
fn date_with_full_time() {
    assert_eq!(parse_date_time(NEW_YEAR_2024, "2027-06-10 12:23:00"), Ok(1812630180));
    assert_eq!(parse_date_time(NEW_YEAR_2024, "2024-01-02 03:10:00"), Ok(1704165000));
}

#[test]
fn date_with_hours_and_minutes() {
    assert_eq!(parse_date_time(NEW_YEAR_2024, "2024-01-02 03:10"), Ok(1704165000));
    assert_eq!(parse_date_time(NEW_YEAR_2024, "  2024-01-02   03:10  "), Ok(1704165000));
}

#[test]
fn date_alone_takes_time_of_day_of_now() {
    let now = NEW_YEAR_2024 + 5 * 3600 + 6 * 60 + 7;
    assert_eq!(parse_date_time(now, "2024-03-01"), Ok(1709251200 + 5 * 3600 + 6 * 60 + 7));
    assert_eq!(parse_date_time(now, " 2024-03-01 \t"), Ok(1709251200 + 18367));
}

#[test]
fn date_before_epoch() {
    assert_eq!(parse_date_time(NEW_YEAR_2024, "1969-12-31 23:59:59"), Ok(-1));
    assert_eq!(parse_date_time(NEW_YEAR_2024, "0000-03-01 00:00:00"), Ok(-62162035200));
    assert_eq!(parse_date_time(NEW_YEAR_2024, "+2000-02-29 00:00"), Ok(951782400));
}

#[test]
fn date_that_does_not_exist() {
    assert_eq!(parse_date_time(NEW_YEAR_2024, "2024-02-30"), Err(ParseDateTimeError::InvalidDate));
    assert_eq!(parse_date_time(NEW_YEAR_2024, "2023-02-29"), Err(ParseDateTimeError::InvalidDate));
    assert_eq!(parse_date_time(NEW_YEAR_2024, "1900-02-29"), Err(ParseDateTimeError::InvalidDate));
    assert_eq!(parse_date_time(NEW_YEAR_2024, "2024-04-31"), Err(ParseDateTimeError::InvalidDate));
    assert_eq!(parse_date_time(NEW_YEAR_2024, "2024-00-10"), Err(ParseDateTimeError::InvalidDate));
    assert_eq!(parse_date_time(NEW_YEAR_2024, "2024-01-00"), Err(ParseDateTimeError::InvalidDate));
    assert_eq!(parse_date_time(NEW_YEAR_2024, "300000-01-01"), Err(ParseDateTimeError::InvalidDate));
}

#[test]
fn leap_day_exists() {
    assert_eq!(parse_date_time(NEW_YEAR_2024, "2024-02-29 00:00"), Ok(1709164800));
    assert_eq!(parse_date_time(NEW_YEAR_2024, "2000-02-29 00:00"), Ok(951782400));
}

#[test]
fn time_component_with_second_sixty() {
    assert_eq!(parse_date_time(NEW_YEAR_2024, "2024-01-01 23:59:60"), Err(ParseDateTimeError::InvalidSec));
}

#[test]
fn time_out_of_range() {
    assert_eq!(parse_date_time(NEW_YEAR_2024, "2024-01-01 24:00"), Err(ParseDateTimeError::InvalidHour));
    assert_eq!(parse_date_time(NEW_YEAR_2024, "2024-01-01 12:60"), Err(ParseDateTimeError::InvalidMin));
}

#[test]
fn time_fields_that_are_not_numbers() {
    assert_eq!(
        parse_date_time(NEW_YEAR_2024, "2024-01-01 ab:00"),
        Err(ParseDateTimeError::ParseHour(IntErrorKind::InvalidDigit))
    );
    assert_eq!(
        parse_date_time(NEW_YEAR_2024, "2024-01-01 12:"),
        Err(ParseDateTimeError::ParseMin(IntErrorKind::Empty))
    );
    assert_eq!(
        parse_date_time(NEW_YEAR_2024, "2024-01-01 12:00:99999999999"),
        Err(ParseDateTimeError::ParseSec(IntErrorKind::PosOverflow))
    );
    assert_eq!(
        parse_date_time(NEW_YEAR_2024, "2024-01-01 -1:00"),
        Err(ParseDateTimeError::ParseHour(IntErrorKind::InvalidDigit))
    );
}

#[test]
fn time_with_wrong_number_of_fields() {
    assert_eq!(parse_date_time(NEW_YEAR_2024, "2024-01-01 12"), Err(ParseDateTimeError::UnrecognizedTimeFormat));
    assert_eq!(parse_date_time(NEW_YEAR_2024, "2024-01-01 1:2:3:4"), Err(ParseDateTimeError::UnrecognizedTimeFormat));
}

#[test]
fn time_is_checked_before_date() {
    assert_eq!(parse_date_time(NEW_YEAR_2024, "nonsense 25:00"), Err(ParseDateTimeError::InvalidHour));
}

#[test]
fn date_with_wrong_number_of_fields() {
    assert_eq!(parse_date_time(NEW_YEAR_2024, "2024-01"), Err(ParseDateTimeError::UnrecognizedDateFormat));
    assert_eq!(parse_date_time(NEW_YEAR_2024, "-5-01-01"), Err(ParseDateTimeError::UnrecognizedDateFormat));
    assert_eq!(parse_date_time(NEW_YEAR_2024, "tomorrow"), Err(ParseDateTimeError::UnrecognizedDateFormat));
}

#[test]
fn date_fields_that_are_not_numbers() {
    assert_eq!(
        parse_date_time(NEW_YEAR_2024, "y-01-01"),
        Err(ParseDateTimeError::ParseYear(IntErrorKind::InvalidDigit))
    );
    assert_eq!(
        parse_date_time(NEW_YEAR_2024, "2024--01"),
        Err(ParseDateTimeError::ParseMonth(IntErrorKind::Empty))
    );
    assert_eq!(
        parse_date_time(NEW_YEAR_2024, "2024-01-+"),
        Err(ParseDateTimeError::ParseDay(IntErrorKind::InvalidDigit))
    );
    assert_eq!(
        parse_date_time(NEW_YEAR_2024, "99999999999-01-01"),
        Err(ParseDateTimeError::ParseYear(IntErrorKind::PosOverflow))
    );
}

#[test]
fn month_and_day_out_of_range() {
    assert_eq!(parse_date_time(NEW_YEAR_2024, "2024-13-01"), Err(ParseDateTimeError::InvalidMonth));
    assert_eq!(parse_date_time(NEW_YEAR_2024, "2024-12-32"), Err(ParseDateTimeError::InvalidDay));
    assert_eq!(parse_date_time(NEW_YEAR_2024, "2024-13-32"), Err(ParseDateTimeError::InvalidMonth));
}

#[test]
fn representable_range() {
    assert!(is_representable_timestamp(0));
    assert!(is_representable_timestamp(MIN_TIMESTAMP));
    assert!(is_representable_timestamp(MAX_TIMESTAMP));
    assert!(!is_representable_timestamp(MIN_TIMESTAMP - 1));
    assert!(!is_representable_timestamp(MAX_TIMESTAMP + 1));
}

#[test]
fn time_of_day_fields() {
    assert_eq!(time_of_day(1704165000), (3, 10, 0));
    assert_eq!(time_of_day(-1), (23, 59, 59));
    assert_eq!(time_of_day(MIN_TIMESTAMP), (0, 0, 0));
    assert_eq!(time_of_day(MAX_TIMESTAMP), (23, 59, 59));
}

#[test]
fn round_trip_of_date_fields_through_chrono() {
    // The timestamps that the parser gives agree with chrono's own reading of them.
    for (text, fields) in [
        ("2024-02-29 13:14:15", (2024, 2, 29, 13, 14, 15)),
        ("1970-01-01 00:00:00", (1970, 1, 1, 0, 0, 0)),
        ("1601-12-31 23:59:59", (1601, 12, 31, 23, 59, 59)),
        ("262142-12-31 23:59:59", (262142, 12, 31, 23, 59, 59)),
    ] {
        let t = parse_date_time(NEW_YEAR_2024, text).unwrap();
        let dt = chrono::DateTime::from_timestamp(t, 0).unwrap();
        assert_eq!(
            (dt.year(), dt.month(), dt.day(), dt.hour(), dt.minute(), dt.second()),
            fields
        );
        assert_eq!(time_of_day(t), (fields.3, fields.4, fields.5));
    }
}

#[test]
fn integer_error_messages() {
    assert_eq!(IntErrorKind::Empty.message(), "cannot parse integer from empty string");
    assert_eq!(IntErrorKind::InvalidDigit.message(), "invalid digit found in string");
    assert_eq!("x".parse::<u32>().unwrap_err().to_string(), IntErrorKind::InvalidDigit.message());
    assert_eq!("".parse::<u32>().unwrap_err().to_string(), IntErrorKind::Empty.message());
    assert_eq!(
        "99999999999".parse::<u32>().unwrap_err().to_string(),
        IntErrorKind::PosOverflow.message()
    );
    assert_eq!(
        "-99999999999".parse::<i32>().unwrap_err().to_string(),
        IntErrorKind::NegOverflow.message()
    );
}

fn days_from_epoch(y: i64, m: i64, d: i64) -> i64 {
    let leaps_before = |y: i64| (y - 1).div_euclid(4) - (y - 1).div_euclid(100) + (y - 1).div_euclid(400);
    let leap = (y.rem_euclid(4) == 0 && y.rem_euclid(100) != 0) || y.rem_euclid(400) == 0;
    let before_month = [0, 31, 59, 90, 120, 151, 181, 212, 243, 273, 304, 334][(m - 1) as usize]
        + if leap && m > 2 { 1 } else { 0 };
    365 * (y - 1970) + leaps_before(y) - leaps_before(1970) + before_month + d - 1
}

#[test]
fn calendar_formula_agrees_with_chrono() {
    let mut years: Vec<i64> = (-2005..=2405).step_by(7).collect();
    years.extend([-262143, -262142, -401, -400, -100, -4, -1, 0, 1, 100, 1900, 2000, 262141, 262142]);
    assert!(chrono::NaiveDate::from_ymd_opt(-262144, 12, 31).is_none());
    assert!(chrono::NaiveDate::from_ymd_opt(262143, 1, 1).is_none());
    for y in years {
        for (m, d) in [(1, 1), (2, 28), (2, 29), (3, 1), (6, 30), (12, 31)] {
            let leap = (y.rem_euclid(4) == 0 && y.rem_euclid(100) != 0) || y.rem_euclid(400) == 0;
            let exists = !(m == 2 && d == 29 && !leap);
            let expected = days_from_epoch(y, m, d) * 86400 + 3723;
            // chrono itself, for every year
            let by_chrono = chrono::NaiveDate::from_ymd_opt(y as i32, m as u32, d as u32)
                .map(|date| date.and_hms_opt(1, 2, 3).unwrap().and_utc().timestamp());
            assert_eq!(by_chrono, if exists { Some(expected) } else { None }, "{y}-{m}-{d}");
            // the parser, for the years that can be written without a sign
            if y >= 0 {
                let text = format!("{y}-{m:02}-{d:02} 01:02:03");
                let parsed = parse_date_time(NEW_YEAR_2024, &text);
                if exists {
                    assert_eq!(parsed, Ok(expected), "{text}");
                } else {
                    assert_eq!(parsed, Err(ParseDateTimeError::InvalidDate), "{text}");
                }
            }
        }
    }
}
