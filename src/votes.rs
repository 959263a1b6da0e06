//! Counting the distinct members behind a vote, and the approval threshold
//! that a new vote asks for.

use itertools::Itertools;
use vstd::prelude::*;

verus! {

/// The distinct identifiers that occur in `ids`.
pub open spec fn distinct_ids(ids: Seq<u64>) -> Set<u64> {
    ids.to_set()
}

/// The members who approved a vote: those who reacted on the nominated
/// message or on the notification message, each counted once.
pub open spec fn voters(on_message: Seq<u64>, on_notification: Seq<u64>) -> Set<u64> {
    distinct_ids(on_message + on_notification)
}

/// The threshold of a vote in a channel with `authors` distinct recent
/// authors: half of them, rounded up, and never below two.
pub open spec fn threshold_for(authors: nat) -> nat {
    let half = (authors + 1) / 2;
    if half < 2 {
        2
    } else {
        half
    }
}

proof fn lemma_concat_contains(s: Seq<u64>, t: Seq<u64>, x: u64)
    ensures
        (s + t).contains(x) <==> s.contains(x) || t.contains(x),
{
    if (s + t).contains(x) {
        let i = choose|i: int| 0 <= i < (s + t).len() && (s + t)[i] == x;
        if i < s.len() {
            assert(s[i] == x);
        } else {
            assert(t[i - s.len()] == x);
        }
    }
    if s.contains(x) {
        let i = choose|i: int| 0 <= i < s.len() && s[i] == x;
        assert((s + t)[i] == x);
    }
    if t.contains(x) {
        let i = choose|i: int| 0 <= i < t.len() && t[i] == x;
        assert((s + t)[s.len() + i] == x);
    }
}

/// A reaction adds its member to the voters of a vote, whichever of the two
/// messages it is on.
pub proof fn lemma_reaction_adds_voter(on_message: Seq<u64>, on_notification: Seq<u64>, v: u64)
    ensures
        voters(on_message.push(v), on_notification) == voters(on_message, on_notification).insert(v),
        voters(on_message, on_notification.push(v)) == voters(on_message, on_notification).insert(v),
{
    assert forall|x: u64|
        voters(on_message.push(v), on_notification).contains(x) <==> voters(
            on_message,
            on_notification,
        ).insert(v).contains(x) by {
        lemma_concat_contains(on_message.push(v), on_notification, x);
        lemma_concat_contains(on_message, on_notification, x);
        if on_message.push(v).contains(x) && x != v {
            let i = choose|i: int| 0 <= i < on_message.push(v).len() && on_message.push(v)[i] == x;
            assert(on_message[i] == x);
        }
        if on_message.contains(x) {
            let i = choose|i: int| 0 <= i < on_message.len() && on_message[i] == x;
            assert(on_message.push(v)[i] == x);
        }
        assert(on_message.push(v)[on_message.len() as int] == v);
    }
    assert forall|x: u64|
        voters(on_message, on_notification.push(v)).contains(x) <==> voters(
            on_message,
            on_notification,
        ).insert(v).contains(x) by {
        lemma_concat_contains(on_message, on_notification.push(v), x);
        lemma_concat_contains(on_message, on_notification, x);
        if on_notification.push(v).contains(x) && x != v {
            let i = choose|i: int|
                0 <= i < on_notification.push(v).len() && on_notification.push(v)[i] == x;
            assert(on_notification[i] == x);
        }
        if on_notification.contains(x) {
            let i = choose|i: int| 0 <= i < on_notification.len() && on_notification[i] == x;
            assert(on_notification.push(v)[i] == x);
        }
        assert(on_notification.push(v)[on_notification.len() as int] == v);
    }
    assert(voters(on_message.push(v), on_notification) =~= voters(on_message, on_notification).insert(v));
    assert(voters(on_message, on_notification.push(v)) =~= voters(on_message, on_notification).insert(
        v,
    ));
}

/// A member who has voted already, on either message, does not count again;
/// a new member raises the count by exactly one.
pub proof fn lemma_voter_count_step(on_message: Seq<u64>, on_notification: Seq<u64>, v: u64)
    ensures
        voters(on_message.push(v), on_notification).len() == voters(
            on_message,
            on_notification,
        ).len() + (if (on_message + on_notification).contains(v) {
            0int
        } else {
            1int
        }),
        voters(on_message, on_notification.push(v)).len() == voters(
            on_message,
            on_notification,
        ).len() + (if (on_message + on_notification).contains(v) {
            0int
        } else {
            1int
        }),
{
    lemma_reaction_adds_voter(on_message, on_notification, v);
    vstd::seq_lib::seq_to_set_is_finite(on_message + on_notification);
    vstd::set::axiom_set_insert_len(voters(on_message, on_notification), v);
}

/// Relies on `Itertools::unique`, which yields each value the first time it
/// occurs and skips later repeats, so that counting what it yields counts the
/// distinct values of the input.
#[verifier::external_body]
fn unique_count(ids: &Vec<u64>) -> (r: usize)
    ensures
        r == distinct_ids(ids@).len(),
{
    ids.iter().unique().count()
}

/// The number of distinct members who reacted on either message of a vote.
pub fn count_voters(on_message: &Vec<u64>, on_notification: &Vec<u64>) -> (r: usize)
    ensures
        r == voters(on_message@, on_notification@).len(),
{
    let mut all: Vec<u64> = Vec::new();
    let mut i: usize = 0;
    while i < on_message.len()
        invariant
            0 <= i <= on_message@.len(),
            all@ == on_message@.subrange(0, i as int),
        decreases on_message@.len() - i,
    {
        all.push(on_message[i]);
        i = i + 1;
    }
    let mut j: usize = 0;
    while j < on_notification.len()
        invariant
            0 <= j <= on_notification@.len(),
            all@ == on_message@ + on_notification@.subrange(0, j as int),
        decreases on_notification@.len() - j,
    {
        all.push(on_notification[j]);
        j = j + 1;
    }
    assert(on_notification@.subrange(0, on_notification@.len() as int) == on_notification@);
    unique_count(&all)
}

/// The threshold for a vote, from the authors of the channel's recent
/// messages (one entry per message, repeats allowed).
pub fn flush_threshold(recent_authors: &Vec<u64>) -> (r: u64)
    ensures
        r as nat == threshold_for(distinct_ids(recent_authors@).len()),
{
    let n = unique_count(recent_authors);
    let half = n / 2 + n % 2;
    assert(half as nat == (n as nat + 1) / 2);
    if half < 2 {
        2
    } else {
        half as u64
    }
}

} // verus!
