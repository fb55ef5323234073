use ai_chan::commands::{
    create_reminder, nanos_until_next_second, preview, quote_for_code_block, resolve_due_time,
    soliloquy_verdict, CreateError, DueTime, SoliloquyVerdict, LIST_LIMIT, PREVIEW_KEEP_CHARS,
    PREVIEW_MAX_CHARS,
};
use ai_chan::reminders::ReminderStore;
use ai_chan::time_parse::ParseDateTimeError;

const NEW_YEAR_2024: i64 = 1704067200;

#[test]
fn create_from_relative_duration() {
    let mut store = ReminderStore::new();
    let r = create_reminder(&mut store, NEW_YEAR_2024, "1d 3h 10m", 5, 6, "tea".to_string());
    assert_eq!(r, Ok((DueTime::Relative(1704165000), 0)));
    let saved = store.find(5, 0).unwrap();
    assert_eq!(saved.timestamp, 1704165000);
    assert_eq!(saved.channel_id, 6);
    assert_eq!(saved.message, "tea");
}

#[test]
fn create_from_date() {
    let mut store = ReminderStore::new();
    let r = create_reminder(&mut store, NEW_YEAR_2024, "2027-06-10 12:23:00", 5, 6, "x".to_string());
    assert_eq!(r, Ok((DueTime::Absolute(1812630180), 0)));
    assert_eq!(store.len(), 1);
}

#[test]
fn create_at_now_is_refused() {
    let mut store = ReminderStore::new();
    let r = create_reminder(&mut store, NEW_YEAR_2024, "0s", 5, 6, "x".to_string());
    assert_eq!(r, Err(CreateError::NoTimeMachine));
    let r = create_reminder(&mut store, NEW_YEAR_2024, "2024-01-01 00:00:00", 5, 6, "x".to_string());
    assert_eq!(r, Err(CreateError::NoTimeMachine));
    let r = create_reminder(&mut store, NEW_YEAR_2024 + 30, "2024-01-01", 5, 6, "x".to_string());
    assert_eq!(r, Err(CreateError::NoTimeMachine));
    assert_eq!(store.len(), 0);
}

#[test]
fn create_in_the_past_is_refused() {
    let mut store = ReminderStore::new();
    let r = create_reminder(&mut store, NEW_YEAR_2024, "2023-12-31 23:59:59", 5, 6, "x".to_string());
    assert_eq!(r, Err(CreateError::NoTimeMachine));
    assert_eq!(store.len(), 0);
}

#[test]
fn create_with_unreadable_time_reports_date_error() {
    let mut store = ReminderStore::new();
    let r = create_reminder(&mut store, NEW_YEAR_2024, "2024-02-30", 5, 6, "x".to_string());
    assert_eq!(r, Err(CreateError::Parse(ParseDateTimeError::InvalidDate)));
    let r = create_reminder(&mut store, NEW_YEAR_2024, "soon", 5, 6, "x".to_string());
    assert_eq!(r, Err(CreateError::Parse(ParseDateTimeError::UnrecognizedDateFormat)));
    assert_eq!(store.len(), 0);
}

#[test]
fn relative_duration_wins_over_date() {
    assert_eq!(resolve_due_time(NEW_YEAR_2024, "10m"), Ok(DueTime::Relative(NEW_YEAR_2024 + 600)));
    assert_eq!(
        resolve_due_time(NEW_YEAR_2024, "2024-06-01 10:00"),
        Ok(DueTime::Absolute(1717236000))
    );
    assert_eq!(DueTime::Absolute(5).timestamp(), 5);
    assert_eq!(DueTime::Relative(7).timestamp(), 7);
}

#[test]
fn preview_of_short_message_is_whole() {
    assert_eq!(preview("hello", PREVIEW_MAX_CHARS, PREVIEW_KEEP_CHARS), "hello");
    let eighty = "a".repeat(80);
    assert_eq!(preview(&eighty, PREVIEW_MAX_CHARS, PREVIEW_KEEP_CHARS), eighty);
}

#[test]
fn preview_of_long_message_is_cut() {
    let long = "b".repeat(81);
    let expected = format!("{}...", "b".repeat(37));
    assert_eq!(preview(&long, PREVIEW_MAX_CHARS, PREVIEW_KEEP_CHARS), expected);
    let accents = "é".repeat(81);
    assert_eq!(preview(&accents, PREVIEW_MAX_CHARS, PREVIEW_KEEP_CHARS), format!("{}...", "é".repeat(37)));
    assert_eq!(preview("abcdef", 3, 10), "abcdef...");
}

#[test]
fn preview_replaces_characters_that_break_listing() {
    assert_eq!(preview("a`b\nc\td", PREVIEW_MAX_CHARS, PREVIEW_KEEP_CHARS), "a\u{02cb}b c d");
}

#[test]
fn quoting_escapes_backticks() {
    assert_eq!(quote_for_code_block("a```b"), "a\u{200b}`\u{200b}`\u{200b}`b");
    assert_eq!(quote_for_code_block("plain"), "plain");
    assert_eq!(quote_for_code_block(""), "");
}

#[test]
fn soliloquy_rule() {
    assert_eq!(soliloquy_verdict(false, false, true, true, "hi"), SoliloquyVerdict::Allow);
    assert_eq!(soliloquy_verdict(true, true, true, true, "hi"), SoliloquyVerdict::Allow);
    assert_eq!(soliloquy_verdict(true, false, true, false, "hi"), SoliloquyVerdict::NoMentions);
    assert_eq!(soliloquy_verdict(true, false, true, true, "[meta]"), SoliloquyVerdict::NoMentions);
    assert_eq!(soliloquy_verdict(true, false, false, true, "hi"), SoliloquyVerdict::NoReplies);
    assert_eq!(soliloquy_verdict(true, false, false, true, "[meta]"), SoliloquyVerdict::Allow);
    assert_eq!(soliloquy_verdict(true, false, false, true, "[meta"), SoliloquyVerdict::NoReplies);
    assert_eq!(soliloquy_verdict(true, false, false, false, "hi"), SoliloquyVerdict::Allow);
}

#[test]
fn delay_to_next_second() {
    assert_eq!(nanos_until_next_second(0), 1_000_000_000);
    assert_eq!(nanos_until_next_second(250_000_000), 750_000_000);
    assert_eq!(nanos_until_next_second(999_999_999), 1);
}

#[test]
fn listing_limit() {
    assert_eq!(LIST_LIMIT, 40);
}
