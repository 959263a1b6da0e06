//! The tree hole expiry table: every message observed in a self-deleting
//! channel is tracked with the instant at which it must be deleted.
//!
//! Times are milliseconds since the Unix epoch; durations are milliseconds.

use vstd::prelude::*;

verus! {

/// One tracked message and the instant at which it becomes due for deletion.
#[derive(Clone, Copy, Debug, PartialEq, Eq, Structural)]
pub struct TrackedMessage {
    pub message_id: u64,
    pub channel_id: u64,
    pub deadline: u64,
}

/// The instant at which a message observed (or posted) at `start` expires
/// under a time-to-live of `ttl`; it saturates at the end of time.
pub open spec fn expiry(start: u64, ttl: u64) -> u64 {
    start.saturating_add(ttl)
}

/// A message as listed in a channel's history.
#[derive(Clone, Copy, Debug, PartialEq, Eq, Structural)]
pub struct HistoryMessage {
    pub id: u64,
    pub posted_at: u64,
    pub pinned: bool,
}

/// The entries of `m` that are still waiting at `now`.
pub open spec fn pending_at(m: Map<u64, TrackedMessage>, now: u64) -> Map<u64, TrackedMessage> {
    Map::new(|k: u64| m.contains_key(k) && m[k].deadline > now, |k: u64| m[k])
}

/// Whether `e` is an entry of `m` that is due at `now`.
pub open spec fn due_at(m: Map<u64, TrackedMessage>, now: u64, e: TrackedMessage) -> bool {
    m.contains_key(e.message_id) && m[e.message_id] == e && e.deadline <= now
}

/// The entry that `m` holds for message `k`, if any.
pub open spec fn entry_of(m: Map<u64, TrackedMessage>, k: u64) -> Option<TrackedMessage> {
    if m.contains_key(k) {
        Some(m[k])
    } else {
        None
    }
}

/// Whether position `i` of `h` is the first listing of its message.
pub open spec fn first_listing(h: Seq<HistoryMessage>, i: int) -> bool {
    0 <= i < h.len() && forall|j: int| 0 <= j < i ==> h[j].id != h[i].id
}

/// Whether message `k` is listed among the first `n` positions of `h`.
pub open spec fn listed_before(h: Seq<HistoryMessage>, n: int, k: u64) -> bool {
    exists|j: int| 0 <= j < n && h[j].id == k
}

/// Whether reconciliation deletes message `m` at once: it is not pinned, not
/// tracked yet, and its time-to-live counted from its post time has run out.
pub open spec fn overdue(old: Map<u64, TrackedMessage>, m: HistoryMessage, ttl: u64, now: u64) -> bool {
    !m.pinned && !old.contains_key(m.id) && expiry(m.posted_at, ttl) <= now
}

/// The entry that reconciliation leaves for message `m` of `channel_id`: a
/// pinned message is skipped, so whatever entry it had stays; a tracked one
/// keeps its entry; an overdue one is deleted; and any other is tracked until
/// its post time plus `ttl`.
pub open spec fn reconciled_entry(
    old: Map<u64, TrackedMessage>,
    m: HistoryMessage,
    channel_id: u64,
    ttl: u64,
    now: u64,
) -> Option<TrackedMessage> {
    if m.pinned {
        entry_of(old, m.id)
    } else if old.contains_key(m.id) {
        Some(old[m.id])
    } else if expiry(m.posted_at, ttl) <= now {
        None
    } else {
        Some(TrackedMessage { message_id: m.id, channel_id, deadline: expiry(m.posted_at, ttl) })
    }
}

/// The table after observing message `message_id` of `channel_id` at `now`
/// under a time-to-live of `ttl`: a new entry if the message was not tracked,
/// else the table as it was.
pub open spec fn tracked_after(
    m: Map<u64, TrackedMessage>,
    message_id: u64,
    channel_id: u64,
    ttl: u64,
    now: u64,
) -> Map<u64, TrackedMessage> {
    if m.contains_key(message_id) {
        m
    } else {
        m.insert(message_id, TrackedMessage { message_id, channel_id, deadline: expiry(now, ttl) })
    }
}

/// Observing a message a second time, at any time and under any
/// time-to-live, leaves the table as the first observation left it.
pub proof fn lemma_track_idempotent(
    m: Map<u64, TrackedMessage>,
    message_id: u64,
    channel_id: u64,
    ttl: u64,
    now: u64,
    channel_again: u64,
    ttl_again: u64,
    now_again: u64,
)
    ensures
        tracked_after(
            tracked_after(m, message_id, channel_id, ttl, now),
            message_id,
            channel_again,
            ttl_again,
            now_again,
        ) == tracked_after(m, message_id, channel_id, ttl, now),
{
}

/// A message first observed at `t0` in a channel with time-to-live `ttl` is
/// not handed out by an eviction pass before `t0 + ttl`, and is handed out by
/// any pass at or after it.
pub proof fn lemma_ttl_eviction(
    m: Map<u64, TrackedMessage>,
    message_id: u64,
    channel_id: u64,
    ttl: u64,
    t0: u64,
    now: u64,
)
    requires
        !m.contains_key(message_id),
        t0 + ttl <= u64::MAX,
    ensures
        ({
            let t = tracked_after(m, message_id, channel_id, ttl, t0);
            &&& now < t0 + ttl ==> pending_at(t, now).contains_key(message_id) && !due_at(
                t,
                now,
                t[message_id],
            )
            &&& t0 + ttl <= now ==> due_at(t, now, t[message_id]) && !pending_at(
                t,
                now,
            ).contains_key(message_id)
        }),
{
}

/// A message that reconciliation finds untracked and unpinned is deleted at
/// once if and only if its post time plus `ttl` is not after `now`; otherwise
/// it is tracked until exactly that instant, whatever the time of the pass.
pub proof fn lemma_ttl_reconcile(
    old: Map<u64, TrackedMessage>,
    m: HistoryMessage,
    channel_id: u64,
    ttl: u64,
    now: u64,
)
    requires
        !m.pinned,
        !old.contains_key(m.id),
        m.posted_at + ttl <= u64::MAX,
    ensures
        overdue(old, m, ttl, now) <==> m.posted_at + ttl <= now,
        !overdue(old, m, ttl, now) ==> reconciled_entry(old, m, channel_id, ttl, now) == Some(
            TrackedMessage { message_id: m.id, channel_id, deadline: (m.posted_at + ttl) as u64 },
        ),
{
}

/// The messages that the first `n` positions of `h` list as pinned.
pub open spec fn pinned_ids(h: Seq<HistoryMessage>, n: int) -> Set<u64> {
    Set::new(|k: u64| exists|j: int| 0 <= j < n && h[j].id == k && h[j].pinned)
}

/// The table once every message that `h` lists as pinned has stopped being
/// tracked.
pub open spec fn without_pinned(m: Map<u64, TrackedMessage>, h: Seq<HistoryMessage>) -> Map<
    u64,
    TrackedMessage,
> {
    m.remove_keys(pinned_ids(h, h.len() as int))
}

/// After a pin change, a message that the history lists as pinned is neither
/// deleted by the pass nor left in the table, so no later eviction pass
/// hands it out.
pub proof fn lemma_pinned_never_evicted(
    old: Map<u64, TrackedMessage>,
    table: Map<u64, TrackedMessage>,
    h: Seq<HistoryMessage>,
    i: int,
    channel_id: u64,
    ttl: u64,
    now: u64,
)
    requires
        0 <= i < h.len(),
        h[i].pinned,
        entry_of(table, h[i].id) == reconciled_entry(without_pinned(old, h), h[i], channel_id, ttl, now),
    ensures
        !overdue(without_pinned(old, h), h[i], ttl, now),
        !table.contains_key(h[i].id),
        forall|later: u64, e: TrackedMessage| e.message_id == h[i].id ==> !due_at(table, later, e),
{
    assert(pinned_ids(h, h.len() as int).contains(h[i].id));
}

/// Every entry of `m` is filed under the id of its own message.
pub open spec fn filed_by_id(m: Map<u64, TrackedMessage>) -> bool {
    forall|k: u64| #[trigger] m.contains_key(k) ==> m[k].message_id == k
}

/// In a history that lists each message once, every position is the first
/// listing of its message.
pub proof fn lemma_distinct_history(h: Seq<HistoryMessage>, i: int)
    requires
        0 <= i < h.len(),
        forall|a: int, b: int| 0 <= a < b < h.len() ==> h[a].id != h[b].id,
    ensures
        first_listing(h, i),
{
}

/// Whether some entry of `s` tracks message `k`.
pub open spec fn has_key(s: Seq<TrackedMessage>, k: u64) -> bool {
    exists|i: int| 0 <= i < s.len() && s[i].message_id == k
}

/// No message is tracked twice.
pub open spec fn keys_unique(s: Seq<TrackedMessage>) -> bool {
    forall|i: int, j: int|
        0 <= i < s.len() && 0 <= j < s.len() && i != j ==> s[i].message_id != s[j].message_id
}

/// The table that a sequence of entries stands for: message id to entry.
pub open spec fn table_of(s: Seq<TrackedMessage>) -> Map<u64, TrackedMessage> {
    Map::new(
        |k: u64| has_key(s, k),
        |k: u64| s[choose|i: int| 0 <= i < s.len() && s[i].message_id == k],
    )
}

proof fn lemma_table_at(s: Seq<TrackedMessage>, i: int)
    requires
        keys_unique(s),
        0 <= i < s.len(),
    ensures
        table_of(s).contains_key(s[i].message_id),
        table_of(s)[s[i].message_id] == s[i],
{
    let k = s[i].message_id;
    assert(has_key(s, k));
    let j = choose|j: int| 0 <= j < s.len() && s[j].message_id == k;
    assert(j == i);
}

proof fn lemma_push(s: Seq<TrackedMessage>, e: TrackedMessage)
    requires
        keys_unique(s),
        !has_key(s, e.message_id),
    ensures
        keys_unique(s.push(e)),
        table_of(s.push(e)) == table_of(s).insert(e.message_id, e),
{
    let t = s.push(e);
    assert(forall|i: int| 0 <= i < s.len() ==> t[i] == s[i]);
    assert(keys_unique(t));
    lemma_table_at(t, s.len() as int);
    assert forall|k: u64| #[trigger] table_of(s).contains_key(k) implies table_of(t).contains_key(k)
        && table_of(t)[k] == table_of(s)[k] by {
        let i = choose|i: int| 0 <= i < s.len() && s[i].message_id == k;
        lemma_table_at(s, i);
        lemma_table_at(t, i);
    }
    assert forall|k: u64| #[trigger] table_of(t).contains_key(k) && k != e.message_id implies table_of(
        s,
    ).contains_key(k) by {
        let i = choose|i: int| 0 <= i < t.len() && t[i].message_id == k;
        assert(i < s.len());
    }
    assert(table_of(t) =~= table_of(s).insert(e.message_id, e));
}

proof fn lemma_remove(s: Seq<TrackedMessage>, i: int)
    requires
        keys_unique(s),
        0 <= i < s.len(),
    ensures
        keys_unique(s.remove(i)),
        table_of(s.remove(i)) == table_of(s).remove(s[i].message_id),
{
    let t = s.remove(i);
    let k0 = s[i].message_id;
    assert(forall|j: int| 0 <= j < i ==> t[j] == s[j]);
    assert(forall|j: int| i <= j < t.len() ==> t[j] == s[j + 1]);
    assert(keys_unique(t));
    assert forall|k: u64| #[trigger] table_of(t).contains_key(k) implies k != k0
        && table_of(s).contains_key(k) && table_of(t)[k] == table_of(s)[k] by {
        let j = choose|j: int| 0 <= j < t.len() && t[j].message_id == k;
        lemma_table_at(t, j);
        if j < i {
            lemma_table_at(s, j);
        } else {
            lemma_table_at(s, j + 1);
        }
    }
    assert forall|k: u64| #[trigger] table_of(s).contains_key(k) && k != k0 implies table_of(
        t,
    ).contains_key(k) by {
        let j = choose|j: int| 0 <= j < s.len() && s[j].message_id == k;
        if j < i {
            assert(t[j] == s[j]);
        } else {
            assert(j != i);
            assert(t[j - 1] == s[j]);
        }
    }
    assert(table_of(t) =~= table_of(s).remove(k0));
}

/// The most message ids that one bulk deletion may carry.
pub const BULK_DELETE_LIMIT: usize = 100;

/// One deletion call for overdue messages of a channel.
#[derive(Clone, Debug)]
pub enum DeleteCall {
    /// Delete one message by itself.
    Single(u64),
    /// Delete two to `BULK_DELETE_LIMIT` messages at once.
    Bulk(Vec<u64>),
}

/// The message ids that a deletion call removes.
pub open spec fn call_ids(c: DeleteCall) -> Seq<u64> {
    match c {
        DeleteCall::Single(id) => seq![id],
        DeleteCall::Bulk(ids) => ids@,
    }
}

/// Chunk `k` of `ids`: positions `100 k` up to, not including,
/// `100 k + 100`, cut at the end of `ids`.
pub open spec fn chunk(ids: Seq<u64>, k: int) -> Seq<u64> {
    let start = 100 * k;
    let end = if start + 100 <= ids.len() {
        start + 100
    } else {
        ids.len() as int
    };
    ids.subrange(start, end)
}

/// Groups overdue message ids into deletion calls: consecutive chunks of at
/// most `BULK_DELETE_LIMIT` ids, in order; a chunk of one id is a single
/// deletion, any other a bulk one.
pub fn plan_deletions(ids: &Vec<u64>) -> (r: Vec<DeleteCall>)
    ensures
        r@.len() == (ids@.len() + 99) / 100,
        forall|k: int|
            0 <= k < r@.len() ==> call_ids(#[trigger] r@[k]) == chunk(ids@, k) && (r@[k] is Single
                <==> chunk(ids@, k).len() == 1),
{
    let n = ids.len();
    let mut calls: Vec<DeleteCall> = Vec::new();
    let mut start: usize = 0;
    while start < n
        invariant
            n == ids@.len(),
            0 <= start <= n,
            start < n ==> start == 100 * calls@.len(),
            start == n ==> calls@.len() == (n + 99) / 100,
            forall|k: int|
                0 <= k < calls@.len() ==> call_ids(#[trigger] calls@[k]) == chunk(ids@, k) && (
                calls@[k] is Single <==> chunk(ids@, k).len() == 1),
        decreases n - start,
    {
        let end = if n - start > BULK_DELETE_LIMIT {
            start + BULK_DELETE_LIMIT
        } else {
            n
        };
        let mut part: Vec<u64> = Vec::new();
        let mut j: usize = start;
        while j < end
            invariant
                n == ids@.len(),
                start <= j <= end <= n,
                part@ == ids@.subrange(start as int, j as int),
            decreases end - j,
        {
            part.push(ids[j]);
            j = j + 1;
        }
        let ghost k = calls@.len() as int;
        assert(chunk(ids@, k) == part@);
        let call = if end - start == 1 {
            assert(part@ == seq![ids@[start as int]]);
            DeleteCall::Single(ids[start])
        } else {
            DeleteCall::Bulk(part)
        };
        calls.push(call);
        assert(calls@[k] == call);
        start = end;
    }
    calls
}

/// The in-memory table of messages that are waiting to be deleted.
pub struct TreeHoleEngine {
    entries: Vec<TrackedMessage>,
}

impl View for TreeHoleEngine {
    type V = Map<u64, TrackedMessage>;

    closed spec fn view(&self) -> Map<u64, TrackedMessage> {
        table_of(self.entries@)
    }
}

impl TreeHoleEngine {
    /// The entries behind the table track no message twice.
    pub closed spec fn entries_unique(&self) -> bool {
        keys_unique(self.entries@)
    }

    /// The table holds at most one entry per message, filed under its id.
    pub open spec fn wf(&self) -> bool {
        self.entries_unique() && filed_by_id(self@)
    }

    /// An empty table.
    pub fn new() -> (r: Self)
        ensures
            r.wf(),
            r@ == Map::<u64, TrackedMessage>::empty(),
    {
        let r = TreeHoleEngine { entries: Vec::new() };
        assert(r@ =~= Map::<u64, TrackedMessage>::empty());
        r
    }

    fn position(&self, message_id: u64) -> (r: Option<usize>)
        requires
            self.wf(),
        ensures
            match r {
                Some(i) => i < self.entries@.len() && self.entries@[i as int].message_id
                    == message_id,
                None => !self@.contains_key(message_id),
            },
    {
        let mut i: usize = 0;
        while i < self.entries.len()
            invariant
                0 <= i <= self.entries@.len(),
                forall|j: int| 0 <= j < i ==> self.entries@[j].message_id != message_id,
            decreases self.entries@.len() - i,
        {
            if self.entries[i].message_id == message_id {
                return Some(i);
            }
            i = i + 1;
        }
        None
    }

    /// Whether the message is waiting to be deleted.
    pub fn is_tracked(&self, message_id: u64) -> (r: bool)
        requires
            self.wf(),
        ensures
            r == self@.contains_key(message_id),
    {
        match self.position(message_id) {
            Some(i) => {
                proof {
                    lemma_table_at(self.entries@, i as int);
                }
                true
            },
            None => false,
        }
    }

    /// The entry of a tracked message.
    pub fn get(&self, message_id: u64) -> (r: Option<TrackedMessage>)
        requires
            self.wf(),
        ensures
            match r {
                Some(e) => self@.contains_key(message_id) && self@[message_id] == e,
                None => !self@.contains_key(message_id),
            },
    {
        match self.position(message_id) {
            Some(i) => {
                proof {
                    lemma_table_at(self.entries@, i as int);
                }
                Some(self.entries[i])
            },
            None => None,
        }
    }

    /// How long a tracked message has left at `now`: none once it is due.
    pub fn remaining(&self, message_id: u64, now: u64) -> (r: Option<u64>)
        requires
            self.wf(),
        ensures
            r == (if self@.contains_key(message_id) {
                Some(
                    (if self@[message_id].deadline > now {
                        (self@[message_id].deadline - now) as u64
                    } else {
                        0u64
                    }),
                )
            } else {
                None::<u64>
            }),
    {
        match self.get(message_id) {
            Some(e) => {
                if e.deadline > now {
                    Some(e.deadline - now)
                } else {
                    Some(0)
                }
            },
            None => None,
        }
    }

    /// Starts the countdown of a message observed at `now` in a channel whose
    /// time-to-live is `ttl`, unless the message is tracked already: a second
    /// observation neither resets nor extends its deadline. Returns whether an
    /// entry was added.
    pub fn track_at(&mut self, message_id: u64, channel_id: u64, ttl: u64, now: u64) -> (r: bool)
        requires
            old(self).wf(),
        ensures
            final(self).wf(),
            r == !old(self)@.contains_key(message_id),
            final(self)@ == tracked_after(old(self)@, message_id, channel_id, ttl, now),
    {
        if self.is_tracked(message_id) {
            return false;
        }
        let e = TrackedMessage { message_id, channel_id, deadline: now.saturating_add(ttl) };
        proof {
            lemma_push(self.entries@, e);
        }
        self.entries.push(e);
        true
    }

    /// The eviction pass: removes and returns every entry that is due at
    /// `now`, that is whose deadline is not after `now`.
    pub fn expire_due(&mut self, now: u64) -> (r: Vec<TrackedMessage>)
        requires
            old(self).wf(),
        ensures
            final(self).wf(),
            final(self)@ == pending_at(old(self)@, now),
            forall|e: TrackedMessage| r@.contains(e) <==> due_at(old(self)@, now, e),
            forall|k: u64|
                old(self)@.contains_key(k) && old(self)@[k].deadline <= now ==> r@.contains(
                    #[trigger] old(self)@[k],
                ),
            keys_unique(r@),
    {
        let ghost s = self.entries@;
        let mut kept: Vec<TrackedMessage> = Vec::new();
        let mut due: Vec<TrackedMessage> = Vec::new();
        let mut i: usize = 0;
        while i < self.entries.len()
            invariant
                self.entries@ == s,
                keys_unique(s),
                0 <= i <= s.len(),
                keys_unique(kept@),
                keys_unique(due@),
                forall|e: TrackedMessage|
                    kept@.contains(e) <==> exists|j: int| 0 <= j < i && s[j] == e && e.deadline > now,
                forall|e: TrackedMessage|
                    due@.contains(e) <==> exists|j: int| 0 <= j < i && s[j] == e && e.deadline <= now,
            decreases s.len() - i,
        {
            let e = self.entries[i];
            if e.deadline > now {
                assert forall|a: int| 0 <= a < kept@.len() implies kept@[a].message_id
                    != e.message_id by {
                    assert(kept@.contains(kept@[a]));
                }
                let ghost prev = kept@;
                kept.push(e);
                assert(kept@ == prev.push(e));
                assert forall|x: TrackedMessage| kept@.contains(x) <==> exists|j: int|
                    0 <= j < i + 1 && s[j] == x && x.deadline > now by {
                    if x == e {
                        assert(kept@[kept@.len() - 1] == x);
                    }
                    if kept@.contains(x) && x != e {
                        let a = choose|a: int| 0 <= a < kept@.len() && kept@[a] == x;
                        assert(prev[a] == x);
                        assert(prev.contains(x));
                    }
                    if x != e && prev.contains(x) {
                        let a = choose|a: int| 0 <= a < prev.len() && prev[a] == x;
                        assert(kept@[a] == x);
                    }
                }
            } else {
                assert forall|a: int| 0 <= a < due@.len() implies due@[a].message_id
                    != e.message_id by {
                    assert(due@.contains(due@[a]));
                }
                let ghost prev = due@;
                due.push(e);
                assert(due@ == prev.push(e));
                assert forall|x: TrackedMessage| due@.contains(x) <==> exists|j: int|
                    0 <= j < i + 1 && s[j] == x && x.deadline <= now by {
                    if x == e {
                        assert(due@[due@.len() - 1] == x);
                    }
                    if due@.contains(x) && x != e {
                        let a = choose|a: int| 0 <= a < due@.len() && due@[a] == x;
                        assert(prev[a] == x);
                        assert(prev.contains(x));
                    }
                    if x != e && prev.contains(x) {
                        let a = choose|a: int| 0 <= a < prev.len() && prev[a] == x;
                        assert(due@[a] == x);
                    }
                }
            }
            i = i + 1;
        }
        proof {
            let t = table_of(s);
            assert forall|k: u64| #[trigger] table_of(kept@).contains_key(k) implies pending_at(
                t,
                now,
            ).contains_key(k) && table_of(kept@)[k] == t[k] by {
                let a = choose|a: int| 0 <= a < kept@.len() && kept@[a].message_id == k;
                lemma_table_at(kept@, a);
                assert(kept@.contains(kept@[a]));
                let j = choose|j: int| 0 <= j < i && s[j] == kept@[a] && kept@[a].deadline > now;
                lemma_table_at(s, j);
            }
            assert forall|k: u64| #[trigger] pending_at(t, now).contains_key(k) implies table_of(
                kept@,
            ).contains_key(k) by {
                let j = choose|j: int| 0 <= j < s.len() && s[j].message_id == k;
                lemma_table_at(s, j);
                assert(kept@.contains(s[j]));
                let a = choose|a: int| 0 <= a < kept@.len() && kept@[a] == s[j];
                assert(kept@[a].message_id == k);
            }
            assert(table_of(kept@) =~= pending_at(t, now));
            assert forall|e: TrackedMessage| due@.contains(e) <==> due_at(t, now, e) by {
                if due@.contains(e) {
                    let j = choose|j: int| 0 <= j < i && s[j] == e && e.deadline <= now;
                    lemma_table_at(s, j);
                }
                if due_at(t, now, e) {
                    let j = choose|j: int| 0 <= j < s.len() && s[j].message_id == e.message_id;
                    lemma_table_at(s, j);
                }
            }
        }
        self.entries = kept;
        due
    }

    /// Reconciles the table with the full history of channel `channel_id`,
    /// whose time-to-live is `ttl`, at `now`. For the first listing of each
    /// message: a pinned one is skipped entirely, a tracked one is left as it
    /// is, an overdue one is returned for deletion at once, and any other is
    /// tracked until its post time plus `ttl`. Messages the history does not
    /// list keep their entries.
    pub fn reconcile_at(
        &mut self,
        channel_id: u64,
        ttl: u64,
        history: &Vec<HistoryMessage>,
        now: u64,
    ) -> (r: Vec<u64>)
        requires
            old(self).wf(),
        ensures
            final(self).wf(),
            forall|i: int|
                #![trigger history@[i]]
                first_listing(history@, i) ==> entry_of(final(self)@, history@[i].id)
                    == reconciled_entry(old(self)@, history@[i], channel_id, ttl, now),
            forall|k: u64|
                !listed_before(history@, history@.len() as int, k) ==> entry_of(final(self)@, k)
                    == entry_of(old(self)@, k),
            forall|x: u64|
                r@.contains(x) <==> exists|i: int|
                    first_listing(history@, i) && history@[i].id == x && overdue(
                        old(self)@,
                        history@[i],
                        ttl,
                        now,
                    ),
            r@.no_duplicates(),
    {
        let ghost o = self@;
        let ghost h = history@;
        let mut out: Vec<u64> = Vec::new();
        let mut i: usize = 0;
        while i < history.len()
            invariant
                history@ == h,
                self.wf(),
                0 <= i <= h.len(),
                forall|j: int|
                    #![trigger h[j]]
                    0 <= j < i && first_listing(h, j) ==> entry_of(self@, h[j].id)
                        == reconciled_entry(o, h[j], channel_id, ttl, now),
                forall|k: u64| !listed_before(h, i as int, k) ==> entry_of(self@, k) == entry_of(o, k),
                forall|x: u64|
                    out@.contains(x) <==> exists|j: int|
                        0 <= j < i && first_listing(h, j) && h[j].id == x && overdue(o, h[j], ttl, now),
                out@.no_duplicates(),
            decreases h.len() - i,
        {
            let m = history[i];
            let mut seen = false;
            let mut j: usize = 0;
            while j < i
                invariant
                    history@ == h,
                    0 <= j <= i < h.len(),
                    m == h[i as int],
                    seen <==> exists|a: int| 0 <= a < j && h[a].id == m.id,
                decreases i - j,
            {
                if history[j].id == m.id {
                    seen = true;
                }
                j = j + 1;
            }
            let ghost before = self@;
            let ghost prev_out = out@;
            if !seen {
                assert(first_listing(h, i as int));
                assert(!listed_before(h, i as int, m.id));
                assert(entry_of(before, m.id) == entry_of(o, m.id));
                if m.pinned {
                } else if self.is_tracked(m.id) {
                } else if m.posted_at.saturating_add(ttl) <= now {
                    assert forall|a: int| 0 <= a < out@.len() implies out@[a] != m.id by {
                        assert(out@.contains(out@[a]));
                    }
                    out.push(m.id);
                } else {
                    self.track_at(m.id, channel_id, ttl, m.posted_at);
                }
                assert(entry_of(self@, m.id) == reconciled_entry(o, m, channel_id, ttl, now));
            }
            assert(forall|k: u64| k != m.id ==> entry_of(self@, k) == entry_of(before, k));
            assert(!seen ==> entry_of(self@, m.id) == reconciled_entry(o, m, channel_id, ttl, now));
            assert(seen ==> self@ == before);
            assert(!seen && overdue(o, m, ttl, now) ==> out@ == prev_out.push(m.id));
            assert(!(!seen && overdue(o, m, ttl, now)) ==> out@ == prev_out);
            proof {
                assert forall|j2: int|
                    #![trigger h[j2]]
                    0 <= j2 < i + 1 && first_listing(h, j2) implies entry_of(self@, h[j2].id)
                        == reconciled_entry(o, h[j2], channel_id, ttl, now) by {
                    if j2 < i {
                        if !seen {
                            assert(h[j2].id != m.id);
                        }
                    }
                }
                assert forall|k: u64| !listed_before(h, i + 1, k) implies entry_of(self@, k)
                    == entry_of(o, k) by {
                    assert(!listed_before(h, i as int, k)) by {
                        if listed_before(h, i as int, k) {
                            let a = choose|a: int| 0 <= a < i && h[a].id == k;
                            assert(0 <= a < i + 1 && h[a].id == k);
                        }
                    }
                    assert(k != h[i as int].id);
                }
                assert forall|x: u64| out@.contains(x) <==> exists|j2: int|
                    0 <= j2 < i + 1 && first_listing(h, j2) && h[j2].id == x && overdue(
                        o,
                        h[j2],
                        ttl,
                        now,
                    ) by {
                    let pushed = !seen && overdue(o, m, ttl, now);
                    if pushed && x == m.id {
                        assert(out@[out@.len() - 1] == x);
                    }
                    if out@.contains(x) && !(pushed && x == m.id) {
                        let a = choose|a: int| 0 <= a < out@.len() && out@[a] == x;
                        if pushed {
                            assert(a < prev_out.len());
                        }
                        assert(prev_out[a] == x);
                        assert(prev_out.contains(x));
                    }
                    if exists|j2: int|
                        0 <= j2 < i + 1 && first_listing(h, j2) && h[j2].id == x && overdue(
                            o,
                            h[j2],
                            ttl,
                            now,
                        ) {
                        let j2 = choose|j2: int|
                            0 <= j2 < i + 1 && first_listing(h, j2) && h[j2].id == x && overdue(
                                o,
                                h[j2],
                                ttl,
                                now,
                            );
                        if j2 < i {
                            assert(prev_out.contains(x));
                            let a = choose|a: int| 0 <= a < prev_out.len() && prev_out[a] == x;
                            assert(out@[a] == x);
                        } else {
                            if seen {
                                let a = choose|a: int| 0 <= a < i && h[a].id == m.id;
                                assert(h[a].id == h[j2].id);
                            }
                            assert(out@[out@.len() - 1] == x);
                        }
                    }
                }
            }
            i = i + 1;
        }
        out
    }

    /// Handles a pin change in channel `channel_id`: every message that the
    /// history lists as pinned stops being tracked, without being deleted;
    /// then the channel is reconciled as `reconcile_at` does.
    pub fn pins_updated(
        &mut self,
        channel_id: u64,
        ttl: u64,
        history: &Vec<HistoryMessage>,
        now: u64,
    ) -> (r: Vec<u64>)
        requires
            old(self).wf(),
        ensures
            final(self).wf(),
            forall|i: int|
                #![trigger history@[i]]
                first_listing(history@, i) && history@[i].pinned ==> !final(self)@.contains_key(
                    history@[i].id,
                ) && !r@.contains(history@[i].id),
            forall|i: int|
                #![trigger history@[i]]
                first_listing(history@, i) ==> entry_of(final(self)@, history@[i].id)
                    == reconciled_entry(
                    without_pinned(old(self)@, history@),
                    history@[i],
                    channel_id,
                    ttl,
                    now,
                ),
            forall|k: u64|
                !listed_before(history@, history@.len() as int, k) ==> entry_of(final(self)@, k)
                    == entry_of(old(self)@, k),
            forall|x: u64|
                r@.contains(x) <==> exists|i: int|
                    first_listing(history@, i) && history@[i].id == x && overdue(
                        without_pinned(old(self)@, history@),
                        history@[i],
                        ttl,
                        now,
                    ),
            r@.no_duplicates(),
    {
        let ghost o = self@;
        let ghost h = history@;
        let mut i: usize = 0;
        while i < history.len()
            invariant
                history@ == h,
                self.wf(),
                0 <= i <= h.len(),
                self@ == o.remove_keys(pinned_ids(h, i as int)),
            decreases h.len() - i,
        {
            let m = history[i];
            let ghost before = self@;
            if m.pinned {
                self.invalidate(m.id);
                assert(pinned_ids(h, i + 1) =~= pinned_ids(h, i as int).insert(m.id));
            } else {
                assert(pinned_ids(h, i + 1) =~= pinned_ids(h, i as int));
            }
            assert(self@ =~= o.remove_keys(pinned_ids(h, i + 1)));
            i = i + 1;
        }
        let ghost mid = self@;
        assert(mid == without_pinned(o, h));
        let r = self.reconcile_at(channel_id, ttl, history, now);
        proof {
            assert forall|i: int| first_listing(h, i) && h[i].pinned implies !self@.contains_key(
                h[i].id,
            ) && !r@.contains(h[i].id) by {
                assert(pinned_ids(h, h.len() as int).contains(h[i].id));
                assert(!mid.contains_key(h[i].id));
                assert(entry_of(self@, h[i].id) == reconciled_entry(mid, h[i], channel_id, ttl, now));
                if r@.contains(h[i].id) {
                    let g = choose|g: int|
                        first_listing(h, g) && h[g].id == h[i].id && overdue(mid, h[g], ttl, now);
                    if g < i {
                        assert(h[g].id != h[i].id);
                    } else if g > i {
                        assert(h[i].id != h[g].id);
                    }
                }
            }
            assert forall|k: u64| !listed_before(h, h.len() as int, k) implies entry_of(self@, k)
                == entry_of(o, k) by {
                assert(!pinned_ids(h, h.len() as int).contains(k));
            }
        }
        r
    }

    /// Stops tracking a message without deleting it (it was pinned). Returns
    /// whether it was tracked.
    pub fn invalidate(&mut self, message_id: u64) -> (r: bool)
        requires
            old(self).wf(),
        ensures
            final(self).wf(),
            r == old(self)@.contains_key(message_id),
            final(self)@ == old(self)@.remove(message_id),
    {
        match self.position(message_id) {
            Some(i) => {
                proof {
                    lemma_remove(self.entries@, i as int);
                }
                self.entries.remove(i);
                true
            },
            None => {
                assert(self@ =~= self@.remove(message_id));
                false
            },
        }
    }
}

} // verus!
