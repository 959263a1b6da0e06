//! Flush records: a member nominates a message for removal, and the message is
//! removed once enough distinct members approve by reaction within the vote
//! window. A live record is found by the id of the nominated message or by
//! the id of the notification message that hosts the vote.
//!
//! Times are milliseconds since the Unix epoch; durations are milliseconds.

use crate::votes::{count_voters, lemma_voter_count_step, voters};
use vstd::prelude::*;

verus! {

/// The vote window that applies unless configured otherwise: one hour.
pub const DEFAULT_VOTE_WINDOW: u64 = 3_600_000;

/// A live vote on one message.
#[derive(Clone, Debug)]
pub struct FlushRecord {
    pub message_id: u64,
    pub notification_id: u64,
    pub channel_id: u64,
    pub toilet_id: u64,
    pub author_id: u64,
    pub flusher_id: u64,
    pub threshold: u64,
    pub reason: Option<String>,
    pub created_at: u64,
}

/// Why a proposal was refused.
#[derive(Clone, Copy, Debug, PartialEq, Eq, Structural)]
pub enum ProposeError {
    /// The message is already under vote, or is the notification of a vote.
    AlreadyProposed,
    /// The notification id is already a key of a live vote, or is the
    /// nominated message itself.
    NotificationInUse,
    /// The threshold is below two.
    InvalidThreshold,
}

/// What a reaction on a vote calls for, before the voters are counted.
#[derive(Clone, Copy, Debug, PartialEq, Eq, Structural)]
pub enum VoteCheck {
    /// No live vote is keyed by the reacted message.
    NoRecord,
    /// The vote was older than the window and has been discarded.
    Expired,
    /// The vote is open: count the reactions on both of its messages.
    Open { message_id: u64, notification_id: u64, channel_id: u64 },
}

/// Whether `r` is found by message id `k`.
pub open spec fn keyed(r: FlushRecord, k: u64) -> bool {
    r.message_id == k || r.notification_id == k
}

/// Whether some record of `s` is found by `k`.
pub open spec fn holds_key(s: Seq<FlushRecord>, k: u64) -> bool {
    exists|i: int| 0 <= i < s.len() && keyed(s[i], k)
}

/// Whether two records share no key.
pub open spec fn keys_apart(a: FlushRecord, b: FlushRecord) -> bool {
    !keyed(b, a.message_id) && !keyed(b, a.notification_id)
}

/// The invariant of the live records: no record twice, each with two
/// distinct keys and a threshold of at least two, and no key shared by two
/// records.
pub open spec fn book_wf(s: Seq<FlushRecord>) -> bool {
    &&& s.no_duplicates()
    &&& forall|i: int|
        0 <= i < s.len() ==> s[i].threshold >= 2 && s[i].message_id != s[i].notification_id
    &&& forall|i: int, j: int| 0 <= i < s.len() && 0 <= j < s.len() && i != j ==> keys_apart(s[i], s[j])
}

/// Whether a record created at `created_at` is older than `window` at `now`.
pub open spec fn stale(created_at: u64, now: u64, window: u64) -> bool {
    now - created_at > window
}

/// The answer to a proposal of `rec` while `s` is live.
pub open spec fn propose_outcome(s: Seq<FlushRecord>, rec: FlushRecord) -> Result<(), ProposeError> {
    if holds_key(s, rec.message_id) {
        Err(ProposeError::AlreadyProposed)
    } else if holds_key(s, rec.notification_id) || rec.notification_id == rec.message_id {
        Err(ProposeError::NotificationInUse)
    } else if rec.threshold < 2 {
        Err(ProposeError::InvalidThreshold)
    } else {
        Ok(())
    }
}

/// Whether the reactions approve the vote of `rec`.
pub open spec fn approved(rec: FlushRecord, on_message: Seq<u64>, on_notification: Seq<u64>) -> bool {
    voters(on_message, on_notification).len() >= rec.threshold
}

proof fn lemma_unique_index(s: Seq<FlushRecord>, i: int, j: int, k: u64)
    requires
        book_wf(s),
        0 <= i < s.len(),
        0 <= j < s.len(),
        keyed(s[i], k),
        keyed(s[j], k),
    ensures
        i == j,
{
    if i != j {
        assert(keys_apart(s[i], s[j]));
    }
}

proof fn lemma_remove_wf(s: Seq<FlushRecord>, i: int)
    requires
        book_wf(s),
        0 <= i < s.len(),
    ensures
        book_wf(s.remove(i)),
        !holds_key(s.remove(i), s[i].message_id),
        !holds_key(s.remove(i), s[i].notification_id),
        forall|k: u64| !keyed(s[i], k) ==> (holds_key(s.remove(i), k) <==> holds_key(s, k)),
{
    let t = s.remove(i);
    assert forall|a: int| 0 <= a < t.len() implies t[a] == s[if a < i { a } else { a + 1 }] by {}
    assert forall|a: int, b: int| 0 <= a < t.len() && 0 <= b < t.len() && a != b implies t[a]
        != t[b] && keys_apart(t[a], t[b]) by {
        let a1 = if a < i { a } else { a + 1 };
        let b1 = if b < i { b } else { b + 1 };
        assert(t[a] == s[a1] && t[b] == s[b1]);
    }
    assert(t.no_duplicates());
    assert forall|k: u64| keyed(s[i], k) implies !holds_key(t, k) by {
        if holds_key(t, k) {
            let a = choose|a: int| 0 <= a < t.len() && keyed(t[a], k);
            let a1 = if a < i { a } else { a + 1 };
            assert(t[a] == s[a1]);
            assert(keys_apart(s[i], s[a1]));
        }
    }
    assert forall|k: u64| !keyed(s[i], k) implies (holds_key(t, k) <==> holds_key(s, k)) by {
        if holds_key(s, k) {
            let a = choose|a: int| 0 <= a < s.len() && keyed(s[a], k);
            if a < i {
                assert(t[a] == s[a]);
            } else {
                assert(a != i);
                assert(t[a - 1] == s[a]);
            }
        }
        if holds_key(t, k) {
            let a = choose|a: int| 0 <= a < t.len() && keyed(t[a], k);
            let a1 = if a < i { a } else { a + 1 };
            assert(t[a] == s[a1]);
        }
    }
}

/// A vote passes when its threshold-th distinct member reacts, and not
/// before: one member short, it does not pass; one more distinct member on
/// either message makes it pass; a repeat by a member who voted already, on
/// either message, changes nothing.
pub proof fn lemma_threshold_crossing(
    rec: FlushRecord,
    on_message: Seq<u64>,
    on_notification: Seq<u64>,
    v: u64,
    w: u64,
)
    requires
        voters(on_message, on_notification).len() + 1 == rec.threshold,
        !(on_message + on_notification).contains(v),
        (on_message + on_notification).contains(w),
    ensures
        !approved(rec, on_message, on_notification),
        approved(rec, on_message.push(v), on_notification),
        approved(rec, on_message, on_notification.push(v)),
        !approved(rec, on_message.push(w), on_notification),
        !approved(rec, on_message, on_notification.push(w)),
{
    lemma_voter_count_step(on_message, on_notification, v);
    lemma_voter_count_step(on_message, on_notification, w);
}

/// Once a vote has been claimed, neither of its messages finds a live vote,
/// so `has_flush` answers false and a later reaction changes nothing.
pub proof fn lemma_claimed_vote_is_gone(s: Seq<FlushRecord>, i: int)
    requires
        book_wf(s),
        0 <= i < s.len(),
    ensures
        !holds_key(s.remove(i), s[i].message_id),
        !holds_key(s.remove(i), s[i].notification_id),
{
    lemma_remove_wf(s, i);
}

/// A message under vote cannot be proposed again before the vote resolves,
/// and neither can the message that hosts its vote.
pub proof fn lemma_propose_twice(s: Seq<FlushRecord>, rec: FlushRecord, again: FlushRecord)
    requires
        book_wf(s),
        propose_outcome(s, rec) is Ok,
        again.message_id == rec.message_id || again.message_id == rec.notification_id,
    ensures
        propose_outcome(s.push(rec), again) == Err::<(), ProposeError>(ProposeError::AlreadyProposed),
{
    assert(s.push(rec)[s.len() as int] == rec);
    assert(keyed(s.push(rec)[s.len() as int], again.message_id));
}

/// The live flush records.
pub struct FlushBook {
    records: Vec<FlushRecord>,
}

impl View for FlushBook {
    type V = Seq<FlushRecord>;

    closed spec fn view(&self) -> Seq<FlushRecord> {
        self.records@
    }
}

impl FlushBook {
    /// The live records keep their invariant.
    pub open spec fn wf(&self) -> bool {
        book_wf(self@)
    }

    /// A book with no live vote.
    pub fn new() -> (r: Self)
        ensures
            r.wf(),
            r@ == Seq::<FlushRecord>::empty(),
    {
        FlushBook { records: Vec::new() }
    }

    /// The number of live votes.
    pub fn len(&self) -> (r: usize)
        ensures
            r == self@.len(),
    {
        self.records.len()
    }

    /// The live votes, in no particular order.
    pub fn records(&self) -> (r: &[FlushRecord])
        ensures
            r@ == self@,
    {
        self.records.as_slice()
    }

    fn position(&self, message_id: u64) -> (r: Option<usize>)
        requires
            self.wf(),
        ensures
            match r {
                Some(i) => i < self@.len() && keyed(self@[i as int], message_id),
                None => !holds_key(self@, message_id),
            },
    {
        let mut i: usize = 0;
        while i < self.records.len()
            invariant
                0 <= i <= self@.len(),
                forall|j: int| 0 <= j < i ==> !keyed(self@[j], message_id),
            decreases self@.len() - i,
        {
            let r = &self.records[i];
            if r.message_id == message_id || r.notification_id == message_id {
                return Some(i);
            }
            i = i + 1;
        }
        None
    }

    /// Whether a live vote is keyed by `message_id`, as the nominated message
    /// or as its notification.
    pub fn has_flush(&self, message_id: u64) -> (r: bool)
        requires
            self.wf(),
        ensures
            r == holds_key(self@, message_id),
    {
        self.position(message_id).is_some()
    }

    /// The live vote keyed by `message_id`.
    pub fn get_flush(&self, message_id: u64) -> (r: Option<&FlushRecord>)
        requires
            self.wf(),
        ensures
            match r {
                Some(rec) => exists|i: int|
                    0 <= i < self@.len() && self@[i] == *rec && keyed(*rec, message_id),
                None => !holds_key(self@, message_id),
            },
    {
        match self.position(message_id) {
            Some(i) => Some(&self.records[i]),
            None => None,
        }
    }

    /// Opens a vote on `rec.message_id`, hosted by `rec.notification_id`.
    /// A message already under vote, or that hosts a vote, is refused, as is
    /// a notification id already in use and a threshold below two.
    pub fn propose(&mut self, rec: FlushRecord) -> (r: Result<(), ProposeError>)
        requires
            old(self).wf(),
        ensures
            final(self).wf(),
            r == propose_outcome(old(self)@, rec),
            r is Ok ==> final(self)@ == old(self)@.push(rec),
            r is Err ==> final(self)@ == old(self)@,
    {
        if self.has_flush(rec.message_id) {
            return Err(ProposeError::AlreadyProposed);
        }
        if self.has_flush(rec.notification_id) || rec.notification_id == rec.message_id {
            return Err(ProposeError::NotificationInUse);
        }
        if rec.threshold < 2 {
            return Err(ProposeError::InvalidThreshold);
        }
        let ghost s = self@;
        self.records.push(rec);
        proof {
            let t = self@;
            assert(t == s.push(rec));
            assert forall|a: int| 0 <= a < s.len() implies t[a] == s[a] && keys_apart(t[a], rec)
                && keys_apart(rec, t[a]) by {
                if keyed(rec, s[a].message_id) || keyed(rec, s[a].notification_id) {
                    assert(keyed(s[a], s[a].message_id));
                    assert(keyed(s[a], s[a].notification_id));
                }
            }
            assert forall|a: int| 0 <= a < s.len() implies t[a] != rec by {
                assert(keyed(s[a], s[a].message_id));
            }
            assert(t.no_duplicates());
        }
        Ok(())
    }

    /// Removes the live vote keyed by `message_id` and hands it back; only
    /// the caller that receives it may act on it.
    pub fn remove_flush(&mut self, message_id: u64) -> (r: Option<FlushRecord>)
        requires
            old(self).wf(),
        ensures
            final(self).wf(),
            r is None <==> !holds_key(old(self)@, message_id),
            r is None ==> final(self)@ == old(self)@,
            r matches Some(rec) ==> exists|i: int|
                0 <= i < old(self)@.len() && old(self)@[i] == rec && keyed(rec, message_id)
                    && final(self)@ == old(self)@.remove(i),
            !holds_key(final(self)@, message_id),
    {
        match self.position(message_id) {
            Some(i) => {
                proof {
                    lemma_remove_wf(self@, i as int);
                }
                let rec = self.records.remove(i);
                Some(rec)
            },
            None => None,
        }
    }

    /// Purges every vote older than `window` at `now`, without acting on any
    /// of them. Returns how many were purged.
    pub fn clean_flushes(&mut self, now: u64, window: u64) -> (r: usize)
        requires
            old(self).wf(),
        ensures
            final(self).wf(),
            forall|rec: FlushRecord|
                final(self)@.contains(rec) <==> old(self)@.contains(rec) && !stale(
                    rec.created_at,
                    now,
                    window,
                ),
            r == old(self)@.len() - final(self)@.len(),
    {
        let ghost s = self@;
        let total = self.records.len();
        let mut rest: Vec<FlushRecord> = Vec::new();
        std::mem::swap(&mut rest, &mut self.records);
        let mut purged: usize = 0;
        while rest.len() > 0
            invariant
                book_wf(s),
                s.len() == total,
                rest@ == s.subrange(0, rest@.len() as int),
                book_wf(self@),
                forall|rec: FlushRecord|
                    self@.contains(rec) <==> s.subrange(rest@.len() as int, s.len() as int).contains(
                        rec,
                    ) && !stale(rec.created_at, now, window),
                purged + self@.len() == s.len() - rest@.len(),
            decreases rest@.len(),
        {
            let ghost n = rest@.len() as int;
            let rec = rest.pop().unwrap();
            assert(rec == s[n - 1]);
            let ghost tail = s.subrange(n, s.len() as int);
            let ghost mid = s.subrange(n - 1, s.len() as int);
            assert(forall|x: FlushRecord| #[trigger] mid.contains(x) <==> x == rec || tail.contains(x))
                by {
                assert forall|x: FlushRecord| #[trigger] mid.contains(x) implies x == rec
                    || tail.contains(x) by {
                    let a = choose|a: int| 0 <= a < mid.len() && mid[a] == x;
                    if a > 0 {
                        assert(tail[a - 1] == x);
                    }
                }
                assert forall|x: FlushRecord| x == rec || tail.contains(x) implies #[trigger] mid.contains(
                    x,
                ) by {
                    if x == rec {
                        assert(mid[0] == x);
                    } else {
                        let a = choose|a: int| 0 <= a < tail.len() && tail[a] == x;
                        assert(mid[a + 1] == x);
                    }
                }
            }
            if now > rec.created_at && now - rec.created_at > window {
                purged = purged + 1;
            } else {
                let ghost prev = self@;
                proof {
                    assert forall|a: int| 0 <= a < prev.len() implies prev[a] != rec && keys_apart(
                        prev[a],
                        rec,
                    ) && keys_apart(rec, prev[a]) by {
                        assert(prev.contains(prev[a]));
                        assert(tail.contains(prev[a]));
                        let b = choose|b: int| 0 <= b < tail.len() && tail[b] == prev[a];
                        assert(s[n + b] == prev[a]);
                        assert(n - 1 != n + b);
                    }
                }
                self.records.push(rec);
                proof {
                    let t = self@;
                    assert(t == prev.push(rec));
                    assert forall|a: int, b: int|
                        0 <= a < t.len() && 0 <= b < t.len() && a != b implies keys_apart(t[a], t[b])
                        && t[a] != t[b] by {
                        if a < prev.len() && b < prev.len() {
                            assert(t[a] == prev[a] && t[b] == prev[b]);
                        }
                    }
                    assert forall|x: FlushRecord| t.contains(x) <==> prev.contains(x) || x == rec by {
                        if t.contains(x) && x != rec {
                            let a = choose|a: int| 0 <= a < t.len() && t[a] == x;
                            assert(prev[a] == x);
                        }
                        if prev.contains(x) {
                            let a = choose|a: int| 0 <= a < prev.len() && prev[a] == x;
                            assert(t[a] == x);
                        }
                        if x == rec {
                            assert(t[prev.len() as int] == x);
                        }
                    }
                }
            }
        }
        assert(s.subrange(0, s.len() as int) == s);
        purged
    }

    /// The first step of counting a reaction on message `reacted` at `now`:
    /// a vote older than `window` is discarded with no other effect; an open
    /// vote names the messages whose reactions are to be counted.
    pub fn check_vote(&mut self, reacted: u64, now: u64, window: u64) -> (r: VoteCheck)
        requires
            old(self).wf(),
        ensures
            final(self).wf(),
            !holds_key(old(self)@, reacted) ==> r == VoteCheck::NoRecord && final(self)@ == old(
                self,
            )@,
            forall|i: int|
                0 <= i < old(self)@.len() && keyed(#[trigger] old(self)@[i], reacted) ==> if stale(
                    old(self)@[i].created_at,
                    now,
                    window,
                ) {
                    r == VoteCheck::Expired && final(self)@ == old(self)@.remove(i)
                } else {
                    r == (VoteCheck::Open {
                        message_id: old(self)@[i].message_id,
                        notification_id: old(self)@[i].notification_id,
                        channel_id: old(self)@[i].channel_id,
                    }) && final(self)@ == old(self)@
                },
    {
        match self.position(reacted) {
            None => VoteCheck::NoRecord,
            Some(i) => {
                proof {
                    assert forall|j: int|
                        0 <= j < self@.len() && keyed(#[trigger] self@[j], reacted) implies j
                        == i by {
                        lemma_unique_index(self@, i as int, j, reacted);
                    }
                }
                let created_at = self.records[i].created_at;
                if now > created_at && now - created_at > window {
                    proof {
                        lemma_remove_wf(self@, i as int);
                    }
                    self.records.remove(i);
                    VoteCheck::Expired
                } else {
                    let rec = &self.records[i];
                    VoteCheck::Open {
                        message_id: rec.message_id,
                        notification_id: rec.notification_id,
                        channel_id: rec.channel_id,
                    }
                }
            },
        }
    }

    /// The second step, at `now`: given the members who reacted on the
    /// nominated message and on its notification, claims the vote keyed by
    /// `reacted` if they reach its threshold. A vote that has grown older than
    /// `window` meanwhile is discarded instead, with no other effect. A
    /// claimed record is removed and handed back to exactly one caller, which
    /// then carries out the flush; otherwise nothing changes.
    pub fn claim_if_approved(
        &mut self,
        reacted: u64,
        on_message: &Vec<u64>,
        on_notification: &Vec<u64>,
        now: u64,
        window: u64,
    ) -> (r: Option<FlushRecord>)
        requires
            old(self).wf(),
        ensures
            final(self).wf(),
            !holds_key(old(self)@, reacted) ==> r is None && final(self)@ == old(self)@,
            forall|i: int|
                0 <= i < old(self)@.len() && keyed(#[trigger] old(self)@[i], reacted) ==> if stale(
                    old(self)@[i].created_at,
                    now,
                    window,
                ) {
                    r is None && final(self)@ == old(self)@.remove(i)
                } else if approved(old(self)@[i], on_message@, on_notification@) {
                    r == Some(old(self)@[i]) && final(self)@ == old(self)@.remove(i)
                } else {
                    r is None && final(self)@ == old(self)@
                },
    {
        match self.position(reacted) {
            None => None,
            Some(i) => {
                proof {
                    assert forall|j: int|
                        0 <= j < self@.len() && keyed(#[trigger] self@[j], reacted) implies j
                        == i by {
                        lemma_unique_index(self@, i as int, j, reacted);
                    }
                }
                let created_at = self.records[i].created_at;
                if now > created_at && now - created_at > window {
                    proof {
                        lemma_remove_wf(self@, i as int);
                    }
                    self.records.remove(i);
                    return None;
                }
                let count = count_voters(on_message, on_notification);
                if count as u64 >= self.records[i].threshold {
                    proof {
                        lemma_remove_wf(self@, i as int);
                    }
                    let rec = self.records.remove(i);
                    Some(rec)
                } else {
                    None
                }
            },
        }
    }
}

} // verus!
