//! The file format of the reminder queue: a record count, then the records, all integers
//! as 8 little-endian bytes.
//!
//! A record is its id, its due time, its user id, its channel id, the length of its message
//! in bytes, then the message in UTF-8.
use std::collections::VecDeque;
use vstd::bytes::{
    lemma_auto_spec_u64_to_from_le_bytes, spec_u64_from_le_bytes, spec_u64_to_le_bytes,
    u64_from_le_bytes, u64_to_le_bytes,
};
use vstd::prelude::*;
use vstd::slice::{slice_subrange, slice_to_vec};
use vstd::utf8::{
    decode_utf8, encode_utf8, encode_utf8_decode_utf8, encode_utf8_valid_utf8, valid_utf8,
};
use crate::reminders::{data_of, is_sorted, Reminder, ReminderData, ReminderStore};

verus! {

/// Why bytes are not a reminder queue.
#[derive(Debug, Clone, Copy, PartialEq, Eq, Structural)]
pub enum LoadError {
    /// The bytes end inside a record, or before the record count.
    Truncated,
    /// A message is not valid UTF-8.
    InvalidUtf8,
    /// The reminders are not in ascending order of due time.
    Unsorted,
    /// A reminder has the largest id there is, so no new reminder could get an id.
    IdsExhausted,
}

/// The integer that the 8 bytes of `b` at `pos` write.
pub open spec fn read_u64(b: Seq<u8>, pos: int) -> u64 {
    spec_u64_from_le_bytes(b.subrange(pos, pos + 8))
}

pub open spec fn encode_record(r: ReminderData) -> Seq<u8> {
    let body = encode_utf8(r.message);
    spec_u64_to_le_bytes(r.id as u64) + spec_u64_to_le_bytes(r.timestamp as u64)
        + spec_u64_to_le_bytes(r.user_id) + spec_u64_to_le_bytes(r.channel_id)
        + spec_u64_to_le_bytes(body.len() as u64) + body
}

pub open spec fn encode_records(q: Seq<ReminderData>) -> Seq<u8>
    decreases q.len(),
{
    if q.len() == 0 {
        Seq::empty()
    } else {
        encode_record(q[0]) + encode_records(q.drop_first())
    }
}

pub open spec fn encode_queue(q: Seq<ReminderData>) -> Seq<u8> {
    spec_u64_to_le_bytes(q.len() as u64) + encode_records(q)
}

/// The record that starts at `pos` in `b`, and where the bytes after it start.
pub open spec fn parse_record(b: Seq<u8>, pos: int) -> Result<(ReminderData, int), LoadError> {
    if b.len() - pos < 40 {
        Err(LoadError::Truncated)
    } else {
        let len = read_u64(b, pos + 32) as int;
        if b.len() - pos - 40 < len {
            Err(LoadError::Truncated)
        } else {
            let body = b.subrange(pos + 40, pos + 40 + len);
            if !valid_utf8(body) {
                Err(LoadError::InvalidUtf8)
            } else {
                Ok(
                    (
                        ReminderData {
                            id: read_u64(b, pos) as i64,
                            timestamp: read_u64(b, pos + 8) as i64,
                            user_id: read_u64(b, pos + 16),
                            channel_id: read_u64(b, pos + 24),
                            message: decode_utf8(body),
                        },
                        pos + 40 + len,
                    ),
                )
            }
        }
    }
}

/// The `count` records that start at `pos` in `b`.
pub open spec fn parse_records(b: Seq<u8>, pos: int, count: nat) -> Result<
    Seq<ReminderData>,
    LoadError,
>
    decreases count,
{
    if count == 0 {
        Ok(Seq::empty())
    } else {
        match parse_record(b, pos) {
            Err(e) => Err(e),
            Ok((r, next)) => match parse_records(b, next, (count - 1) as nat) {
                Err(e) => Err(e),
                Ok(rest) => Ok(seq![r] + rest),
            },
        }
    }
}

/// The reminders that `b` holds; bytes after the last record are not read.
pub open spec fn parse_queue(b: Seq<u8>) -> Result<Seq<ReminderData>, LoadError> {
    if b.len() < 8 {
        Err(LoadError::Truncated)
    } else {
        parse_records(b, 8, read_u64(b, 0) as nat)
    }
}

pub open spec fn prepend(
    s: Seq<ReminderData>,
    r: Result<Seq<ReminderData>, LoadError>,
) -> Result<Seq<ReminderData>, LoadError> {
    match r {
        Ok(x) => Ok(s + x),
        Err(e) => Err(e),
    }
}

/// Relies on std's `String::from_utf8`, which accepts exactly the valid UTF-8 byte sequences
/// and then holds the characters that they encode.
#[verifier::external_body]
fn string_from_utf8(bytes: Vec<u8>) -> (r: Option<String>)
    ensures
        r is Some == valid_utf8(bytes@),
        r matches Some(s) ==> s@ == decode_utf8(bytes@),
{
    String::from_utf8(bytes).ok()
}

fn read_u64_at(b: &[u8], pos: usize) -> (r: u64)
    requires
        pos + 8 <= b.len(),
    ensures
        r == read_u64(b@, pos as int),
{
    u64_from_le_bytes(slice_subrange(b, pos, pos + 8))
}

impl Reminder {
    /// Appends the record of this reminder to `out`.
    pub fn write(&self, out: &mut Vec<u8>)
        ensures
            final(out)@ == old(out)@ + encode_record(self@),
    {
        let body = self.message.as_str().as_bytes();
        let mut id = u64_to_le_bytes(self.id as u64);
        let mut timestamp = u64_to_le_bytes(self.timestamp as u64);
        let mut user_id = u64_to_le_bytes(self.user_id);
        let mut channel_id = u64_to_le_bytes(self.channel_id);
        let mut len = u64_to_le_bytes(body.len() as u64);
        let mut message = slice_to_vec(body);
        out.append(&mut id);
        out.append(&mut timestamp);
        out.append(&mut user_id);
        out.append(&mut channel_id);
        out.append(&mut len);
        out.append(&mut message);
        assert(final(out)@ == old(out)@ + encode_record(self@));
    }

    /// The reminder whose record starts at `pos` in `b`, and where the bytes after it start.
    pub fn read(b: &[u8], pos: usize) -> (r: Result<(Reminder, usize), LoadError>)
        requires
            pos <= b@.len(),
        ensures
            match r {
                Ok((rem, next)) => parse_record(b@, pos as int) == Ok::<
                    (ReminderData, int),
                    LoadError,
                >((rem@, next as int)),
                Err(e) => parse_record(b@, pos as int) == Err::<(ReminderData, int), LoadError>(e),
            },
    {
        if b.len() - pos < 40 {
            return Err(LoadError::Truncated);
        }
        let len = read_u64_at(b, pos + 32);
        if ((b.len() - pos - 40) as u64) < len {
            return Err(LoadError::Truncated);
        }
        let start = pos + 40;
        let end = start + len as usize;
        let body = slice_to_vec(slice_subrange(b, start, end));
        let message = match string_from_utf8(body) {
            Some(m) => m,
            None => {
                return Err(LoadError::InvalidUtf8);
            },
        };
        let rem = Reminder {
            id: read_u64_at(b, pos) as i64,
            timestamp: read_u64_at(b, pos + 8) as i64,
            user_id: read_u64_at(b, pos + 16),
            channel_id: read_u64_at(b, pos + 24),
            message,
        };
        Ok((rem, end))
    }
}

proof fn lemma_encode_records_push(q: Seq<ReminderData>, r: ReminderData)
    ensures
        encode_records(q.push(r)) == encode_records(q) + encode_record(r),
    decreases q.len(),
{
    if q.len() == 0 {
        assert(q.push(r).drop_first() == Seq::<ReminderData>::empty());
        assert(q.push(r)[0] == r);
        assert(encode_records(Seq::<ReminderData>::empty()) == Seq::<u8>::empty());
        assert(encode_records(q.push(r)) == encode_record(r) + Seq::<u8>::empty());
        assert(encode_record(r) + Seq::<u8>::empty() == encode_record(r));
    } else {
        lemma_encode_records_push(q.drop_first(), r);
        assert(q.push(r).drop_first() == q.drop_first().push(r));
        assert(q.push(r)[0] == q[0]);
        assert(encode_record(q[0]) + (encode_records(q.drop_first()) + encode_record(r)) == (
        encode_record(q[0]) + encode_records(q.drop_first())) + encode_record(r));
    }
}

/// The bytes of the queue `q`.
pub fn encode_reminders(q: &VecDeque<Reminder>) -> (r: Vec<u8>)
    ensures
        r@ == encode_queue(data_of(q@)),
{
    let mut out = u64_to_le_bytes(q.len() as u64);
    let ghost data = data_of(q@);
    let mut i: usize = 0;
    while i < q.len()
        invariant
            i <= q@.len(),
            data == data_of(q@),
            out@ == spec_u64_to_le_bytes(q@.len() as u64) + encode_records(data.take(i as int)),
        decreases q@.len() - i,
    {
        proof {
            lemma_encode_records_push(data.take(i as int), data[i as int]);
            assert(data.take(i + 1) == data.take(i as int).push(data[i as int]));
        }
        q[i].write(&mut out);
        i = i + 1;
    }
    assert(data.take(q@.len() as int) == data);
    out
}

/// The reminders that `b` holds.
pub fn decode_reminders(b: &[u8]) -> (r: Result<VecDeque<Reminder>, LoadError>)
    ensures
        match r {
            Ok(q) => parse_queue(b@) == Ok::<Seq<ReminderData>, LoadError>(data_of(q@)),
            Err(e) => parse_queue(b@) == Err::<Seq<ReminderData>, LoadError>(e),
        },
{
    if b.len() < 8 {
        return Err(LoadError::Truncated);
    }
    let count = read_u64_at(b, 0);
    let mut q: VecDeque<Reminder> = VecDeque::new();
    let mut pos: usize = 8;
    let mut i: u64 = 0;
    while i < count
        invariant
            i <= count,
            count == read_u64(b@, 0),
            8 <= pos <= b@.len(),
            parse_queue(b@) == prepend(data_of(q@), parse_records(b@, pos as int, (count - i) as nat)),
        decreases count - i,
    {
        match Reminder::read(b, pos) {
            Err(e) => {
                return Err(e);
            },
            Ok((rem, next)) => {
                let ghost before = data_of(q@);
                q.push_back(rem);
                assert(data_of(q@) == before.push(rem@));
                proof {
                    let rest = parse_records(b@, next as int, (count - i - 1) as nat);
                    if let Ok(tail) = rest {
                        assert(before + (seq![rem@] + tail) == before.push(rem@) + tail);
                    }
                }
                pos = next;
            },
        }
        i = i + 1;
    }
    assert(data_of(q@) + Seq::<ReminderData>::empty() == data_of(q@));
    Ok(q)
}

/// The reminders of `q` are in ascending order of due time.
pub open spec fn in_due_order(q: Seq<ReminderData>) -> bool {
    forall|i: int, j: int| 0 <= i <= j < q.len() ==> q[i].timestamp <= q[j].timestamp
}

/// No reminder of `q` has the largest id there is.
pub open spec fn ids_below_max(q: Seq<ReminderData>) -> bool {
    forall|i: int| 0 <= i < q.len() ==> q[i].id < i64::MAX
}

/// The store that `b` holds: its reminders, and the next id one above the largest of theirs.
/// Besides the errors of the bytes themselves, `Unsorted` when the reminders are out of order
/// and `IdsExhausted` when one of them has the largest id.
pub fn load_store(b: &[u8]) -> (r: Result<ReminderStore, LoadError>)
    ensures
        match parse_queue(b@) {
            Err(e) => r == Err::<ReminderStore, LoadError>(e),
            Ok(q) => {
                &&& r is Ok <==> (in_due_order(q) && ids_below_max(q))
                &&& r matches Ok(s) ==> s.wf() && data_of(s@) == q
                &&& r matches Err(e) ==> (e == LoadError::Unsorted && !in_due_order(q)) || (e
                    == LoadError::IdsExhausted && !ids_below_max(q))
            },
        },
{
    let queue = decode_reminders(b)?;
    proof {
        lemma_data_of_order(queue@);
    }
    ReminderStore::from_queue(queue)
}

impl ReminderStore {
    /// The bytes of this store's queue.
    pub fn encode(&self) -> (r: Vec<u8>)
        ensures
            r@ == encode_queue(data_of(self@)),
    {
        encode_reminders(self.queue())
    }
}

/// The messages of `q` fit the length field of a record.
pub open spec fn messages_fit(q: Seq<ReminderData>) -> bool {
    forall|i: int| 0 <= i < q.len() ==> encode_utf8(#[trigger] q[i].message).len() <= u64::MAX
}

proof fn lemma_signed_bits(x: i64)
    ensures
        (x as u64) as i64 == x,
{
    assert((x as u64) as i64 == x) by (bit_vector);
}

proof fn lemma_parse_encoded_record(b: Seq<u8>, pos: int, r: ReminderData)
    requires
        0 <= pos,
        pos + encode_record(r).len() <= b.len(),
        b.subrange(pos, pos + encode_record(r).len()) == encode_record(r),
        encode_utf8(r.message).len() <= u64::MAX,
    ensures
        parse_record(b, pos) == Ok::<(ReminderData, int), LoadError>(
            (r, pos + encode_record(r).len()),
        ),
{
    lemma_auto_spec_u64_to_from_le_bytes();
    encode_utf8_valid_utf8(r.message);
    encode_utf8_decode_utf8(r.message);
    lemma_signed_bits(r.id);
    lemma_signed_bits(r.timestamp);
    let body = encode_utf8(r.message);
    let enc = encode_record(r);
    let len: int = body.len() as int;
    assert(enc.len() == 40 + len);
    let w = b.subrange(pos, pos + enc.len());
    assert(b.subrange(pos, pos + 8) == w.subrange(0, 8));
    assert(b.subrange(pos + 8, pos + 16) == w.subrange(8, 16));
    assert(b.subrange(pos + 16, pos + 24) == w.subrange(16, 24));
    assert(b.subrange(pos + 24, pos + 32) == w.subrange(24, 32));
    assert(b.subrange(pos + 32, pos + 40) == w.subrange(32, 40));
    assert(b.subrange(pos + 40, pos + 40 + len) == w.subrange(40, 40 + len));
    assert(enc.subrange(0, 8) == spec_u64_to_le_bytes(r.id as u64));
    assert(enc.subrange(8, 16) == spec_u64_to_le_bytes(r.timestamp as u64));
    assert(enc.subrange(16, 24) == spec_u64_to_le_bytes(r.user_id));
    assert(enc.subrange(24, 32) == spec_u64_to_le_bytes(r.channel_id));
    assert(enc.subrange(32, 40) == spec_u64_to_le_bytes(len as u64));
    assert(enc.subrange(40, 40 + len) == body);
}

proof fn lemma_parse_encoded_records(b: Seq<u8>, pos: int, q: Seq<ReminderData>)
    requires
        0 <= pos,
        pos + encode_records(q).len() <= b.len(),
        b.subrange(pos, pos + encode_records(q).len()) == encode_records(q),
        messages_fit(q),
    ensures
        parse_records(b, pos, q.len()) == Ok::<Seq<ReminderData>, LoadError>(q),
    decreases q.len(),
{
    if q.len() > 0 {
        let first = encode_record(q[0]);
        let rest = q.drop_first();
        let all = encode_records(q);
        assert(all == first + encode_records(rest));
        assert(b.subrange(pos, pos + first.len()) == all.subrange(0, first.len() as int));
        assert(all.subrange(0, first.len() as int) == first);
        lemma_parse_encoded_record(b, pos, q[0]);
        let next = pos + first.len();
        assert(b.subrange(next, next + encode_records(rest).len()) == all.subrange(
            first.len() as int,
            all.len() as int,
        ));
        assert(all.subrange(first.len() as int, all.len() as int) == encode_records(rest));
        assert forall|i: int| 0 <= i < rest.len() implies encode_utf8(#[trigger] rest[i].message).len()
            <= u64::MAX by {
            assert(rest[i] == q[i + 1]);
        }
        lemma_parse_encoded_records(b, next, rest);
        assert(rest.len() == (q.len() - 1) as nat);
        assert(seq![q[0]] + rest == q);
    } else {
        assert(q == Seq::<ReminderData>::empty());
    }
}

/// Reading back the bytes of a queue gives that queue: the same reminders, in the same
/// order, with the same fields.
pub proof fn lemma_queue_round_trip(q: Seq<ReminderData>)
    requires
        q.len() <= u64::MAX,
        messages_fit(q),
    ensures
        parse_queue(encode_queue(q)) == Ok::<Seq<ReminderData>, LoadError>(q),
{
    lemma_auto_spec_u64_to_from_le_bytes();
    let b = encode_queue(q);
    let records = encode_records(q);
    assert(b.subrange(0, 8) == spec_u64_to_le_bytes(q.len() as u64));
    assert(b.subrange(8, 8 + records.len() as int) == records);
    lemma_parse_encoded_records(b, 8, q);
}

/// Loading the bytes that a store encodes gives back its reminders, in the same order and
/// with the same fields.
pub proof fn lemma_store_reload(s: ReminderStore)
    requires
        s.wf(),
        s@.len() <= u64::MAX,
        messages_fit(data_of(s@)),
    ensures
        parse_queue(encode_queue(data_of(s@))) == Ok::<Seq<ReminderData>, LoadError>(data_of(s@)),
        in_due_order(data_of(s@)),
        ids_below_max(data_of(s@)),
{
    lemma_queue_round_trip(data_of(s@));
    lemma_data_of_order(s@);
}

proof fn lemma_data_of_order(q: Seq<Reminder>)
    ensures
        in_due_order(data_of(q)) == is_sorted(q),
        ids_below_max(data_of(q)) == forall|i: int| 0 <= i < q.len() ==> q[i].id < i64::MAX,
{
    let d = data_of(q);
    assert(d.len() == q.len());
    if is_sorted(q) {
        assert forall|i: int, j: int| 0 <= i <= j < d.len() implies d[i].timestamp
            <= d[j].timestamp by {
            assert(d[i] == q[i]@ && d[j] == q[j]@);
        }
    }
    if in_due_order(d) {
        assert forall|i: int, j: int| 0 <= i <= j < q.len() implies q[i].timestamp
            <= q[j].timestamp by {
            assert(d[i] == q[i]@ && d[j] == q[j]@);
        }
    }
    if ids_below_max(d) {
        assert forall|i: int| 0 <= i < q.len() implies q[i].id < i64::MAX by {
            assert(d[i] == q[i]@);
        }
    }
    if forall|i: int| 0 <= i < q.len() ==> q[i].id < i64::MAX {
        assert forall|i: int| 0 <= i < d.len() implies d[i].id < i64::MAX by {
            assert(d[i] == q[i]@);
        }
    }
}

} // verus!
