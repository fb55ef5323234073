//! The decisions of the bot's commands: creating a reminder from a time expression, showing
//! reminders, and the rule of the soliloquy channel.
use vstd::prelude::*;
use crate::calendar::is_representable;
use crate::reminders::{insert_position, Reminder, ReminderStore};
use crate::text::chars_of;
use crate::time_parse::{
    absolute_time, parse_date_time, parse_time_delta, relative_duration, ParseDateTimeError,
};

verus! {

/// How many reminders a listing shows at most.
pub const LIST_LIMIT: usize = 40;

/// Messages with more characters than this are cut short in a listing.
pub const PREVIEW_MAX_CHARS: usize = 80;

/// How many characters of a long message a listing keeps, before an ellipsis.
pub const PREVIEW_KEEP_CHARS: usize = 37;

/// When a reminder is due: a relative duration after now, or a date that was written out.
#[derive(Debug, Clone, Copy, PartialEq, Eq, Structural)]
pub enum DueTime {
    Relative(i64),
    Absolute(i64),
}

impl DueTime {
    pub open spec fn spec_timestamp(self) -> int {
        match self {
            DueTime::Relative(t) => t as int,
            DueTime::Absolute(t) => t as int,
        }
    }

    /// The due time, in seconds since the Unix epoch.
    pub fn timestamp(&self) -> (r: i64)
        ensures
            r == self.spec_timestamp(),
    {
        match self {
            DueTime::Relative(t) => *t,
            DueTime::Absolute(t) => *t,
        }
    }
}

/// Why no reminder was created.
#[derive(Debug, Clone, Copy, PartialEq, Eq, Structural)]
pub enum CreateError {
    /// The time is neither a relative duration nor a date; the error is the date's.
    Parse(ParseDateTimeError),
    /// The time is not after now.
    NoTimeMachine,
    /// No id is left for a new reminder.
    IdsExhausted,
}

/// What a time expression gives: a relative duration when it is one whose sum is
/// representable, else what it gives as a date.
pub open spec fn due_time_of(now: int, input: Seq<char>) -> Result<DueTime, ParseDateTimeError> {
    match relative_duration(input) {
        Some(d) if is_representable(now + d) => Ok(DueTime::Relative((now + d) as i64)),
        _ => match absolute_time(now, input) {
            Ok(t) => Ok(DueTime::Absolute(t as i64)),
            Err(e) => Err(e),
        },
    }
}

/// Reads the time expression `input`, first as a relative duration, then as a date.
pub fn resolve_due_time(now: i64, input: &str) -> (r: Result<DueTime, ParseDateTimeError>)
    requires
        is_representable(now as int),
    ensures
        r == due_time_of(now as int, input@),
{
    match parse_time_delta(now, input) {
        Some(t) => Ok(DueTime::Relative(t)),
        None => match parse_date_time(now, input) {
            Ok(t) => Ok(DueTime::Absolute(t)),
            Err(e) => Err(e),
        },
    }
}

/// Creates the reminder of `user_id` in `channel_id` that the time expression `time` asks
/// for, and returns when it is due and its id. Nothing changes when the time is not
/// understood, when it is not after `now`, or when no id is left.
pub fn create_reminder(
    store: &mut ReminderStore,
    now: i64,
    time: &str,
    user_id: u64,
    channel_id: u64,
    message: String,
) -> (r: Result<(DueTime, i64), CreateError>)
    requires
        old(store).wf(),
        is_representable(now as int),
    ensures
        final(store).wf(),
        match due_time_of(now as int, time@) {
            Err(e) => r == Err::<(DueTime, i64), CreateError>(CreateError::Parse(e)),
            Ok(due) => if due.spec_timestamp() <= now {
                r == Err::<(DueTime, i64), CreateError>(CreateError::NoTimeMachine)
            } else if old(store).next_id() == i64::MAX {
                r == Err::<(DueTime, i64), CreateError>(CreateError::IdsExhausted)
            } else {
                r == Ok::<(DueTime, i64), CreateError>((due, old(store).next_id() as i64))
            },
        },
        r is Err ==> final(store)@ == old(store)@ && final(store).next_id() == old(
            store,
        ).next_id(),
        r matches Ok((due, id)) ==> {
            &&& final(store).next_id() == id + 1
            &&& final(store)@ == old(store)@.insert(
                insert_position(old(store)@, due.spec_timestamp()),
                (Reminder { id, timestamp: due.spec_timestamp() as i64, user_id, channel_id, message }),
            )
        },
{
    let due = match resolve_due_time(now, time) {
        Ok(due) => due,
        Err(e) => {
            return Err(CreateError::Parse(e));
        },
    };
    let timestamp = due.timestamp();
    if timestamp <= now {
        return Err(CreateError::NoTimeMachine);
    }
    match store.insert(timestamp, user_id, channel_id, message) {
        Some(id) => Ok((due, id)),
        None => Err(CreateError::IdsExhausted),
    }
}

/// How a character of a message shows in a listing: a backtick as a grave accent, which
/// does not end the code span around it, and a newline or a tab as a space.
pub open spec fn display_char(c: char) -> char {
    if c == '`' {
        '\u{02cb}'
    } else if c == '\n' || c == '\t' {
        ' '
    } else {
        c
    }
}

/// `m` itself when it has at most `max_chars` characters, else its first `keep_chars`
/// characters and an ellipsis.
pub open spec fn shortened(m: Seq<char>, max_chars: nat, keep_chars: nat) -> Seq<char> {
    if m.len() <= max_chars {
        m
    } else {
        m.take(
            if keep_chars < m.len() {
                keep_chars as int
            } else {
                m.len() as int
            },
        ) + seq!['.', '.', '.']
    }
}

pub open spec fn preview_of(m: Seq<char>, max_chars: nat, keep_chars: nat) -> Seq<char> {
    let s = shortened(m, max_chars, keep_chars);
    Seq::new(s.len(), |i: int| display_char(s[i]))
}

/// Relies on std's `FromIterator<&char>` for `String`: the string holds the characters in
/// their order.
#[verifier::external_body]
fn string_of(chars: &Vec<char>) -> (r: String)
    ensures
        r@ == chars@,
{
    chars.iter().collect()
}

/// The message as a listing shows it: shortened, and with the characters that would break
/// the listing replaced.
pub fn preview(message: &str, max_chars: usize, keep_chars: usize) -> (r: String)
    ensures
        r@ == preview_of(message@, max_chars as nat, keep_chars as nat),
{
    let chars = chars_of(message);
    let ghost short = shortened(message@, max_chars as nat, keep_chars as nat);
    let n = chars.len();
    let take = if n <= max_chars {
        n
    } else if keep_chars < n {
        keep_chars
    } else {
        n
    };
    let mut out: Vec<char> = Vec::new();
    let mut i: usize = 0;
    while i < take
        invariant
            take <= n == chars@.len(),
            chars@ == message@,
            i <= take,
            out@.len() == i,
            forall|j: int| 0 <= j < i ==> out@[j] == display_char(#[trigger] chars@[j]),
        decreases take - i,
    {
        let c = chars[i];
        let shown = if c == '`' {
            '\u{02cb}'
        } else if c == '\n' || c == '\t' {
            ' '
        } else {
            c
        };
        out.push(shown);
        i = i + 1;
    }
    if n > max_chars {
        out.push('.');
        out.push('.');
        out.push('.');
    }
    assert(out@ =~= preview_of(message@, max_chars as nat, keep_chars as nat)) by {
        if n > max_chars {
            assert(short == chars@.take(take as int) + seq!['.', '.', '.']);
            assert(seq!['.', '.', '.'].len() == 3);
        } else {
            assert(short == chars@);
        }
        assert(short.len() == out@.len());
        assert forall|j: int| 0 <= j < out@.len() implies out@[j] == display_char(short[j]) by {
            if j < take {
                assert(short[j] == chars@[j]);
            }
        }
    }
    string_of(&out)
}

/// `content` with a zero-width space before each backtick, so that it cannot close the code
/// block that quotes it.
pub open spec fn quoted(content: Seq<char>) -> Seq<char>
    decreases content.len(),
{
    if content.len() == 0 {
        Seq::empty()
    } else {
        let rest = quoted(content.drop_last());
        if content.last() == '`' {
            rest + seq!['\u{200b}', '`']
        } else {
            rest.push(content.last())
        }
    }
}

/// The text of a message, made safe to quote in a code block.
pub fn quote_for_code_block(content: &str) -> (r: String)
    ensures
        r@ == quoted(content@),
{
    let chars = chars_of(content);
    let mut out: Vec<char> = Vec::new();
    let mut i: usize = 0;
    while i < chars.len()
        invariant
            i <= chars@.len(),
            chars@ == content@,
            out@ == quoted(chars@.take(i as int)),
        decreases chars@.len() - i,
    {
        assert(chars@.take(i + 1).drop_last() == chars@.take(i as int));
        if chars[i] == '`' {
            out.push('\u{200b}');
            out.push('`');
            assert(out@ == quoted(chars@.take(i as int)) + seq!['\u{200b}', '`']);
        } else {
            out.push(chars[i]);
        }
        i = i + 1;
    }
    assert(chars@.take(chars@.len() as int) == chars@);
    string_of(&out)
}

/// What to do about a message posted where only monologues are allowed.
#[derive(Debug, Clone, Copy, PartialEq, Eq, Structural)]
pub enum SoliloquyVerdict {
    /// Nothing: the message is elsewhere, the bot's own, or keeps to the rule.
    Allow,
    /// The message mentions someone.
    NoMentions,
    /// The message replies to another one.
    NoReplies,
}

/// A message in square brackets speaks about the channel, and may reply.
pub open spec fn is_meta_message(content: Seq<char>) -> bool {
    content.len() > 0 && content[0] == '[' && content.last() == ']'
}

/// The rule of the soliloquy channel: no mentions, and no replies but meta messages. Messages
/// of other channels and of the bot itself are left alone.
pub fn soliloquy_verdict(
    in_soliloquy: bool,
    from_bot: bool,
    has_mentions: bool,
    is_reply: bool,
    content: &str,
) -> (r: SoliloquyVerdict)
    ensures
        r == (if !in_soliloquy || from_bot {
            SoliloquyVerdict::Allow
        } else if has_mentions {
            SoliloquyVerdict::NoMentions
        } else if is_reply && !is_meta_message(content@) {
            SoliloquyVerdict::NoReplies
        } else {
            SoliloquyVerdict::Allow
        }),
{
    if !in_soliloquy || from_bot {
        return SoliloquyVerdict::Allow;
    }
    if has_mentions {
        return SoliloquyVerdict::NoMentions;
    }
    let chars = chars_of(content);
    let n = chars.len();
    let meta = n > 0 && chars[0] == '[' && chars[n - 1] == ']';
    if is_reply && !meta {
        SoliloquyVerdict::NoReplies
    } else {
        SoliloquyVerdict::Allow
    }
}

/// The nanoseconds from a time `subsec_nanos` past a whole second to the next whole second.
pub fn nanos_until_next_second(subsec_nanos: u32) -> (r: u64)
    requires
        subsec_nanos < 1_000_000_000,
    ensures
        r == 1_000_000_000 - subsec_nanos,
        0 < r <= 1_000_000_000,
{
    1_000_000_000 - subsec_nanos as u64
}

} // verus!
