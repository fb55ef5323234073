//! Reminders and the time-ordered queue that holds them.
use std::collections::VecDeque;
use vstd::prelude::*;
use crate::codec::LoadError;

verus! {

/// A message to send to `user_id` in channel `channel_id` at `timestamp` (seconds since
/// the Unix epoch).
#[derive(Debug)]
pub struct Reminder {
    pub id: i64,
    pub timestamp: i64,
    pub user_id: u64,
    pub channel_id: u64,
    pub message: String,
}

/// The fields of a reminder, its message as characters.
pub struct ReminderData {
    pub id: i64,
    pub timestamp: i64,
    pub user_id: u64,
    pub channel_id: u64,
    pub message: Seq<char>,
}

impl View for Reminder {
    type V = ReminderData;

    open spec fn view(&self) -> ReminderData {
        ReminderData {
            id: self.id,
            timestamp: self.timestamp,
            user_id: self.user_id,
            channel_id: self.channel_id,
            message: self.message@,
        }
    }
}

/// The fields of each reminder of `q`.
pub open spec fn data_of(q: Seq<Reminder>) -> Seq<ReminderData> {
    q.map_values(|r: Reminder| r@)
}

impl Clone for Reminder {
    fn clone(&self) -> (r: Self)
        ensures
            r == *self,
    {
        Reminder {
            id: self.id,
            timestamp: self.timestamp,
            user_id: self.user_id,
            channel_id: self.channel_id,
            message: self.message.clone(),
        }
    }
}

/// Ascending by due time.
pub open spec fn is_sorted(q: Seq<Reminder>) -> bool {
    forall|i: int, j: int| 0 <= i <= j < q.len() ==> q[i].timestamp <= q[j].timestamp
}

/// Whether `r` belongs to `owner` and, when `id` is given, has that id.
pub open spec fn is_selected(r: Reminder, owner: u64, id: Option<i64>) -> bool {
    r.user_id == owner && (id matches Some(i) ==> r.id == i)
}

/// The reminders of `q` that `is_selected` picks, in queue order.
pub open spec fn selected(q: Seq<Reminder>, owner: u64, id: Option<i64>) -> Seq<Reminder>
    decreases q.len(),
{
    if q.len() == 0 {
        Seq::empty()
    } else {
        let rest = selected(q.drop_last(), owner, id);
        if is_selected(q.last(), owner, id) {
            rest.push(q.last())
        } else {
            rest
        }
    }
}

/// The reminders of `q` that `is_selected` does not pick, in queue order.
pub open spec fn unselected(q: Seq<Reminder>, owner: u64, id: Option<i64>) -> Seq<Reminder>
    decreases q.len(),
{
    if q.len() == 0 {
        Seq::empty()
    } else {
        let rest = unselected(q.drop_last(), owner, id);
        if is_selected(q.last(), owner, id) {
            rest
        } else {
            rest.push(q.last())
        }
    }
}

/// The reminders of `q` that belong to `owner`, in queue order.
pub open spec fn owned_by(q: Seq<Reminder>, owner: u64) -> Seq<Reminder> {
    selected(q, owner, None)
}

/// The reminders of `q` that do not belong to `owner`, in queue order.
pub open spec fn without_owner(q: Seq<Reminder>, owner: u64) -> Seq<Reminder> {
    unselected(q, owner, None)
}

/// `q` without the reminders of `owner` whose id is `id`.
pub open spec fn without_reminder(q: Seq<Reminder>, owner: u64, id: i64) -> Seq<Reminder> {
    unselected(q, owner, Some(id))
}

pub open spec fn is_target(r: Reminder, owner: u64, id: i64) -> bool {
    is_selected(r, owner, Some(id))
}

/// Whether `i` is where a reminder due at `t` goes in `q`: after every reminder due before
/// `t`, before every other.
pub open spec fn is_insert_position(q: Seq<Reminder>, t: int, i: int) -> bool {
    &&& 0 <= i <= q.len()
    &&& forall|j: int| 0 <= j < i ==> q[j].timestamp < t
    &&& forall|j: int| i <= j < q.len() ==> q[j].timestamp >= t
}

/// Where a reminder due at `t` goes in the sorted queue `q`.
pub open spec fn insert_position(q: Seq<Reminder>, t: int) -> int {
    choose|i: int| is_insert_position(q, t, i)
}

/// The largest id in `q`, or 0 for an empty queue.
pub open spec fn max_id(q: Seq<Reminder>) -> int
    decreases q.len(),
{
    if q.len() == 0 {
        0
    } else if q.len() == 1 {
        q[0].id as int
    } else {
        let rest = max_id(q.drop_last());
        if q.last().id > rest {
            q.last().id as int
        } else {
            rest
        }
    }
}

/// The pending reminders, in the order in which they fire, and the id that the next one
/// gets.
pub struct ReminderStore {
    queue: VecDeque<Reminder>,
    next_id: i64,
}

impl View for ReminderStore {
    type V = Seq<Reminder>;

    closed spec fn view(&self) -> Seq<Reminder> {
        self.queue@
    }
}

proof fn lemma_insert_position_unique(q: Seq<Reminder>, t: int, i: int)
    requires
        is_insert_position(q, t, i),
    ensures
        insert_position(q, t) == i,
{
    let k = insert_position(q, t);
    assert(is_insert_position(q, t, k));
    if k < i {
        assert(q[k].timestamp >= t);
    } else if k > i {
        assert(q[i].timestamp >= t);
    }
}

proof fn lemma_max_id_bounds(q: Seq<Reminder>)
    ensures
        forall|i: int| 0 <= i < q.len() ==> q[i].id <= max_id(q),
        q.len() > 0 ==> exists|i: int| 0 <= i < q.len() && q[i].id == max_id(q),
    decreases q.len(),
{
    if q.len() > 1 {
        let init = q.drop_last();
        lemma_max_id_bounds(init);
        assert forall|i: int| 0 <= i < q.len() implies q[i].id <= max_id(q) by {
            if i < q.len() - 1 {
                assert(q[i] == init[i]);
            }
        }
        if q.last().id <= max_id(init) {
            let w = choose|i: int| 0 <= i < init.len() && init[i].id == max_id(init);
            assert(q[w] == init[w]);
        } else {
            assert(q[q.len() - 1].id == max_id(q));
        }
    } else if q.len() == 1 {
        assert(q[0].id == max_id(q));
    }
}

impl ReminderStore {
    /// The id that the next inserted reminder gets.
    pub closed spec fn next_id(&self) -> int {
        self.next_id as int
    }

    /// The queue is sorted by due time, and every id in it is below the next id.
    pub open spec fn wf(&self) -> bool {
        &&& is_sorted(self@)
        &&& self.next_id() <= i64::MAX
        &&& forall|i: int| 0 <= i < self@.len() ==> self@[i].id < self.next_id()
    }

    /// An empty store, whose first reminder gets id 0.
    pub fn new() -> (s: Self)
        ensures
            s.wf(),
            s@ == Seq::<Reminder>::empty(),
            s.next_id() == 0,
    {
        ReminderStore { queue: VecDeque::new(), next_id: 0 }
    }

    /// A store that holds `queue`, which must be sorted by due time; its next id is one more
    /// than the largest id in it (1 for an empty queue). `Unsorted` or `IdsExhausted` when
    /// `queue` is out of order, or holds the largest id that an `i64` can have.
    pub fn from_queue(queue: VecDeque<Reminder>) -> (r: Result<Self, LoadError>)
        ensures
            r is Ok <==> (is_sorted(queue@) && forall|i: int|
                0 <= i < queue@.len() ==> queue@[i].id < i64::MAX),
            r matches Ok(s) ==> s.wf() && s@ == queue@ && s.next_id() == max_id(queue@) + 1,
            r matches Err(e) ==> (e == LoadError::Unsorted && !is_sorted(queue@)) || (e
                == LoadError::IdsExhausted && exists|i: int|
                0 <= i < queue@.len() && queue@[i].id == i64::MAX),
    {
        let n = queue.len();
        let mut i: usize = 0;
        let mut max: i64 = 0;
        while i < n
            invariant
                n == queue@.len(),
                i <= n,
                forall|j: int, k: int| 0 <= j <= k < i ==> queue@[j].timestamp <= queue@[k].timestamp,
                forall|j: int| 0 <= j < i ==> queue@[j].id < i64::MAX,
                max == max_id(queue@.take(i as int)),
            decreases n - i,
        {
            let r = &queue[i];
            if r.id == i64::MAX {
                return Err(LoadError::IdsExhausted);
            }
            if i > 0 && queue[i - 1].timestamp > r.timestamp {
                assert(!is_sorted(queue@)) by {
                    assert(queue@[i - 1].timestamp > queue@[i as int].timestamp);
                }
                return Err(LoadError::Unsorted);
            }
            assert(queue@.take(i + 1).drop_last() == queue@.take(i as int));
            if i == 0 || r.id > max {
                max = r.id;
            }
            i = i + 1;
        }
        assert(queue@.take(n as int) == queue@);
        proof {
            lemma_max_id_bounds(queue@);
        }
        Ok(ReminderStore { queue, next_id: max + 1 })
    }

    /// The reminders, in the order in which they fire.
    pub fn queue(&self) -> (r: &VecDeque<Reminder>)
        ensures
            r@ == self@,
    {
        &self.queue
    }

    pub fn len(&self) -> (r: usize)
        ensures
            r == self@.len(),
    {
        self.queue.len()
    }

    /// Adds a reminder due at `timestamp`, after every reminder due before it and before
    /// every other, and gives it the next id, which it returns. `None`, with nothing
    /// changed, when the ids are used up.
    pub fn insert(&mut self, timestamp: i64, user_id: u64, channel_id: u64, message: String) -> (r:
        Option<i64>)
        requires
            old(self).wf(),
        ensures
            final(self).wf(),
            is_sorted(final(self)@),
            r is None <==> old(self).next_id() == i64::MAX,
            r is None ==> final(self)@ == old(self)@ && final(self).next_id() == old(self).next_id(),
            r matches Some(id) ==> {
                &&& id == old(self).next_id()
                &&& final(self).next_id() == id + 1
                &&& final(self)@ == old(self)@.insert(
                    insert_position(old(self)@, timestamp as int),
                    (Reminder { id, timestamp, user_id, channel_id, message }),
                )
            },
    {
        if self.next_id == i64::MAX {
            return None;
        }
        let mut lo: usize = 0;
        let mut hi: usize = self.queue.len();
        while lo < hi
            invariant
                self.wf(),
                lo <= hi <= self@.len(),
                forall|j: int| 0 <= j < lo ==> self@[j].timestamp < timestamp,
                forall|j: int| hi <= j < self@.len() ==> self@[j].timestamp >= timestamp,
            decreases hi - lo,
        {
            let mid = lo + (hi - lo) / 2;
            if self.queue[mid].timestamp < timestamp {
                lo = mid + 1;
            } else {
                hi = mid;
            }
        }
        proof {
            lemma_insert_position_unique(self@, timestamp as int, lo as int);
        }
        let id = self.next_id;
        let reminder = Reminder { id, timestamp, user_id, channel_id, message };
        self.queue.insert(lo, reminder);
        self.next_id = id + 1;
        Some(id)
    }

    /// Removes and returns the first reminder if it is due at `now`, that is, if its due time
    /// is not after `now`.
    pub fn pop_front_if_due(&mut self, now: i64) -> (r: Option<Reminder>)
        requires
            old(self).wf(),
        ensures
            final(self).wf(),
            final(self).next_id() == old(self).next_id(),
            r is Some <==> (old(self)@.len() > 0 && old(self)@[0].timestamp <= now),
            r is None ==> final(self)@ == old(self)@,
            r matches Some(x) ==> {
                &&& x == old(self)@[0]
                &&& x.timestamp <= now
                &&& final(self)@ == old(self)@.drop_first()
                &&& final(self)@.len() > 0 ==> final(self)@[0].timestamp >= x.timestamp
            },
    {
        if self.queue.len() == 0 || self.queue[0].timestamp > now {
            return None;
        }
        self.queue.pop_front()
    }

    /// Up to `limit` reminders of `owner`, the first due first.
    pub fn list(&self, owner: u64, limit: usize) -> (r: Vec<Reminder>)
        ensures
            r@ == owned_by(self@, owner).take(
                if limit < owned_by(self@, owner).len() {
                    limit as int
                } else {
                    owned_by(self@, owner).len() as int
                },
            ),
    {
        let mut out: Vec<Reminder> = Vec::new();
        let mut i: usize = 0;
        while i < self.queue.len() && out.len() < limit
            invariant
                i <= self@.len(),
                out@ == owned_by(self@.take(i as int), owner),
                out@.len() <= limit,
            decreases self@.len() - i,
        {
            assert(self@.take(i + 1).drop_last() == self@.take(i as int));
            let r = &self.queue[i];
            if r.user_id == owner {
                out.push(r.clone());
            }
            i = i + 1;
        }
        proof {
            lemma_selected_prefix(self@, owner, None, i as int);
        }
        out
    }

    /// The first reminder of `owner` whose id is `id`.
    pub fn find(&self, owner: u64, id: i64) -> (r: Option<Reminder>)
        ensures
            r is None <==> forall|i: int| 0 <= i < self@.len() ==> !is_target(self@[i], owner, id),
            r matches Some(x) ==> exists|i: int|
                0 <= i < self@.len() && self@[i] == x && is_target(x, owner, id) && forall|j: int|
                    0 <= j < i ==> !is_target(self@[j], owner, id),
    {
        let mut i: usize = 0;
        while i < self.queue.len()
            invariant
                i <= self@.len(),
                forall|j: int| 0 <= j < i ==> !is_target(self@[j], owner, id),
            decreases self@.len() - i,
        {
            if self.queue[i].user_id == owner && self.queue[i].id == id {
                return Some(self.queue[i].clone());
            }
            i = i + 1;
        }
        None
    }

    /// Removes the reminders of `owner` whose id is `id`, and returns how many it removed.
    pub fn delete_reminder(&mut self, owner: u64, id: i64) -> (r: usize)
        requires
            old(self).wf(),
        ensures
            final(self).wf(),
            final(self).next_id() == old(self).next_id(),
            final(self)@ == without_reminder(old(self)@, owner, id),
            r == old(self)@.len() - final(self)@.len(),
    {
        self.remove_selected(owner, Some(id))
    }

    /// Removes every reminder of `owner`, and returns how many it removed.
    pub fn delete_all_of(&mut self, owner: u64) -> (r: usize)
        requires
            old(self).wf(),
        ensures
            final(self).wf(),
            final(self).next_id() == old(self).next_id(),
            final(self)@ == without_owner(old(self)@, owner),
            r == old(self)@.len() - final(self)@.len(),
    {
        self.remove_selected(owner, None)
    }

    fn remove_selected(&mut self, owner: u64, id: Option<i64>) -> (r: usize)
        requires
            old(self).wf(),
        ensures
            final(self).wf(),
            final(self).next_id() == old(self).next_id(),
            final(self)@ == unselected(old(self)@, owner, id),
            r == old(self)@.len() - final(self)@.len(),
    {
        let ghost initial = self@;
        let mut kept: VecDeque<Reminder> = VecDeque::new();
        let mut removed: usize = 0;
        let mut i: usize = 0;
        let n = self.queue.len();
        while i < n
            invariant
                n == initial.len(),
                i <= n,
                self.next_id == old(self).next_id,
                initial == old(self)@,
                self@ == initial.subrange(i as int, n as int),
                kept@ == unselected(initial.take(i as int), owner, id),
                removed + kept@.len() == i,
            decreases n - i,
        {
            assert(initial.take(i + 1).drop_last() == initial.take(i as int));
            assert(initial.take(i + 1).last() == initial[i as int]);
            let next = self.queue.pop_front();
            match next {
                Some(x) => {
                    let picked = x.user_id == owner && match id {
                        Some(wanted) => x.id == wanted,
                        None => true,
                    };
                    if picked {
                        removed = removed + 1;
                    } else {
                        kept.push_back(x);
                    }
                },
                None => {},
            }
            i = i + 1;
        }
        assert(initial.take(n as int) == initial);
        proof {
            lemma_unselected_keeps_order(initial, owner, id);
        }
        self.queue = kept;
        removed
    }
}

/// What `unselected` keeps of a sorted queue stays sorted, and comes from the queue.
proof fn lemma_unselected_keeps_order(q: Seq<Reminder>, owner: u64, id: Option<i64>)
    ensures
        is_sorted(q) ==> is_sorted(unselected(q, owner, id)),
        forall|i: int|
            0 <= i < unselected(q, owner, id).len() ==> q.contains(
                #[trigger] unselected(q, owner, id)[i],
            ),
        unselected(q, owner, id).len() <= q.len(),
    decreases q.len(),
{
    if q.len() > 0 {
        let init = q.drop_last();
        lemma_unselected_keeps_order(init, owner, id);
        let f = unselected(q, owner, id);
        let fi = unselected(init, owner, id);
        assert forall|i: int| 0 <= i < f.len() implies q.contains(#[trigger] f[i]) by {
            if i < fi.len() {
                assert(f[i] == fi[i]);
                assert(init.contains(fi[i]));
                let k = choose|k: int| 0 <= k < init.len() && init[k] == fi[i];
                assert(q[k] == init[k]);
            } else {
                assert(f[i] == q.last());
                assert(q[q.len() - 1] == q.last());
            }
        }
        if is_sorted(q) {
            assert(is_sorted(init));
            assert forall|i: int, j: int| 0 <= i <= j < f.len() implies f[i].timestamp
                <= f[j].timestamp by {
                if j < fi.len() {
                    assert(f[i] == fi[i] && f[j] == fi[j]);
                } else if i < fi.len() {
                    assert(f[i] == fi[i]);
                    assert(f[j] == q.last());
                    assert(init.contains(fi[i]));
                    let k = choose|k: int| 0 <= k < init.len() && init[k] == fi[i];
                    assert(q[k] == init[k]);
                    assert(q[k].timestamp <= q[q.len() - 1].timestamp);
                }
            }
        }
    }
}

/// The picks of a prefix of `q` are a prefix of the picks of `q`.
proof fn lemma_selected_prefix(q: Seq<Reminder>, owner: u64, id: Option<i64>, i: int)
    requires
        0 <= i <= q.len(),
    ensures
        selected(q.take(i), owner, id) == selected(q, owner, id).take(
            selected(q.take(i), owner, id).len() as int,
        ),
        selected(q.take(i), owner, id).len() <= selected(q, owner, id).len(),
        i == q.len() ==> selected(q.take(i), owner, id) == selected(q, owner, id),
    decreases q.len() - i,
{
    if i == q.len() {
        assert(q.take(i) == q);
        assert(selected(q, owner, id).take(selected(q, owner, id).len() as int) == selected(
            q,
            owner,
            id,
        ));
    } else {
        lemma_selected_prefix(q, owner, id, i + 1);
        assert(q.take(i + 1).drop_last() == q.take(i));
        assert(q.take(i + 1).last() == q[i]);
        let whole = selected(q, owner, id);
        let shorter = selected(q.take(i), owner, id);
        let longer = selected(q.take(i + 1), owner, id);
        if is_selected(q[i], owner, id) {
            assert(longer == shorter.push(q[i]));
            assert(shorter == longer.take(shorter.len() as int));
            assert(whole.take(longer.len() as int).take(shorter.len() as int) == whole.take(
                shorter.len() as int,
            ));
        } else {
            assert(longer == shorter);
        }
    }
}

/// Deleting every reminder of one owner leaves the reminders of any other owner as they
/// were: the same reminders, as many, in the same order.
pub proof fn lemma_delete_owner_keeps_others(q: Seq<Reminder>, a: u64, b: u64)
    requires
        a != b,
    ensures
        owned_by(without_owner(q, a), b) == owned_by(q, b),
        owned_by(without_owner(q, a), b).len() == owned_by(q, b).len(),
    decreases q.len(),
{
    if q.len() > 0 {
        lemma_delete_owner_keeps_others(q.drop_last(), a, b);
        let w = without_owner(q.drop_last(), a);
        assert(w.push(q.last()).drop_last() == w);
        assert(w.push(q.last()).last() == q.last());
    }
}

} // verus!
