use dog_bot::flush::{FlushBook, FlushRecord, ProposeError, VoteCheck, DEFAULT_VOTE_WINDOW};
use dog_bot::votes::{count_voters, flush_threshold};

const NOW: u64 = 1_700_000_000_000;

fn record(message_id: u64, notification_id: u64, threshold: u64, created_at: u64) -> FlushRecord {
    FlushRecord {
        message_id,
        notification_id,
        channel_id: 500,
        toilet_id: 600,
        author_id: 700,
        flusher_id: 800,
        threshold,
        reason: Some("spam".to_string()),
        created_at,
    }
}

#[test]
fn propose_then_has_flush_by_either_key() {
    let mut book = FlushBook::new();
    assert_eq!(book.propose(record(1, 2, 3, NOW)), Ok(()));
    assert!(book.has_flush(1));
    assert!(book.has_flush(2));
    assert!(!book.has_flush(3));
    assert_eq!(book.len(), 1);
    assert_eq!(book.get_flush(2).unwrap().message_id, 1);
}

#[test]
fn proposing_twice_is_rejected() {
    let mut book = FlushBook::new();
    assert_eq!(book.propose(record(1, 2, 3, NOW)), Ok(()));
    assert_eq!(book.propose(record(1, 9, 3, NOW)), Err(ProposeError::AlreadyProposed));
    assert_eq!(book.propose(record(2, 9, 3, NOW)), Err(ProposeError::AlreadyProposed));
    assert_eq!(book.len(), 1);
}

#[test]
fn propose_rejects_a_notification_in_use() {
    let mut book = FlushBook::new();
    book.propose(record(1, 2, 3, NOW)).unwrap();
    assert_eq!(book.propose(record(5, 2, 3, NOW)), Err(ProposeError::NotificationInUse));
    assert_eq!(book.propose(record(5, 1, 3, NOW)), Err(ProposeError::NotificationInUse));
    assert_eq!(book.propose(record(5, 5, 3, NOW)), Err(ProposeError::NotificationInUse));
}

#[test]
fn propose_rejects_a_threshold_below_two() {
    let mut book = FlushBook::new();
    assert_eq!(book.propose(record(1, 2, 1, NOW)), Err(ProposeError::InvalidThreshold));
    assert_eq!(book.propose(record(1, 2, 0, NOW)), Err(ProposeError::InvalidThreshold));
    assert!(!book.has_flush(1));
}

#[test]
fn flush_executes_at_the_third_distinct_voter_only_once() {
    let mut book = FlushBook::new();
    book.propose(record(1, 2, 3, NOW)).unwrap();
    assert_eq!(
        book.check_vote(1, NOW + 1, DEFAULT_VOTE_WINDOW),
        VoteCheck::Open { message_id: 1, notification_id: 2, channel_id: 500 }
    );
    assert!(book.claim_if_approved(1, &vec![10, 11], &vec![], NOW + 1, DEFAULT_VOTE_WINDOW).is_none());
    assert!(book.claim_if_approved(2, &vec![10, 11], &vec![11, 10], NOW + 1, DEFAULT_VOTE_WINDOW).is_none());
    assert!(book.has_flush(1));
    let claimed = book.claim_if_approved(2, &vec![10, 11], &vec![12], NOW + 1, DEFAULT_VOTE_WINDOW).unwrap();
    assert_eq!(claimed.message_id, 1);
    assert_eq!(claimed.reason.as_deref(), Some("spam"));
    assert!(!book.has_flush(1));
    assert!(!book.has_flush(2));
    assert!(book.claim_if_approved(1, &vec![10, 11, 12, 13], &vec![], NOW + 1, DEFAULT_VOTE_WINDOW).is_none());
    assert_eq!(book.check_vote(1, NOW + 2, DEFAULT_VOTE_WINDOW), VoteCheck::NoRecord);
}

#[test]
fn reaction_on_an_expired_vote_discards_it() {
    let mut book = FlushBook::new();
    book.propose(record(1, 2, 2, NOW)).unwrap();
    assert_eq!(
        book.check_vote(2, NOW + DEFAULT_VOTE_WINDOW, DEFAULT_VOTE_WINDOW),
        VoteCheck::Open { message_id: 1, notification_id: 2, channel_id: 500 }
    );
    assert_eq!(book.check_vote(2, NOW + DEFAULT_VOTE_WINDOW + 1, DEFAULT_VOTE_WINDOW), VoteCheck::Expired);
    assert!(!book.has_flush(1));
}

#[test]
fn sweep_purges_only_stale_votes() {
    let mut book = FlushBook::new();
    book.propose(record(1, 2, 2, NOW - 2 * DEFAULT_VOTE_WINDOW)).unwrap();
    book.propose(record(3, 4, 2, NOW - DEFAULT_VOTE_WINDOW)).unwrap();
    book.propose(record(5, 6, 2, NOW)).unwrap();
    assert_eq!(book.clean_flushes(NOW, DEFAULT_VOTE_WINDOW), 1);
    assert!(!book.has_flush(1));
    assert!(book.has_flush(3));
    assert!(book.has_flush(5));
    assert_eq!(book.clean_flushes(NOW, DEFAULT_VOTE_WINDOW), 0);
    assert_eq!(book.len(), 2);
}

#[test]
fn remove_by_notification_id() {
    let mut book = FlushBook::new();
    book.propose(record(1, 2, 2, NOW)).unwrap();
    book.propose(record(3, 4, 2, NOW)).unwrap();
    assert_eq!(book.remove_flush(4).unwrap().message_id, 3);
    assert!(book.remove_flush(4).is_none());
    assert!(book.has_flush(1));
}

#[test]
fn voters_are_counted_once_across_both_messages() {
    assert_eq!(count_voters(&vec![1, 2, 2], &vec![2, 3]), 3);
    assert_eq!(count_voters(&vec![], &vec![]), 0);
    assert_eq!(count_voters(&vec![4, 4, 4], &vec![4]), 1);
}

#[test]
fn threshold_is_half_the_authors_and_at_least_two() {
    assert_eq!(flush_threshold(&vec![]), 2);
    assert_eq!(flush_threshold(&vec![1, 1, 1]), 2);
    assert_eq!(flush_threshold(&vec![1, 2, 3, 4, 5]), 3);
    assert_eq!(flush_threshold(&vec![1, 1, 2, 3, 4, 5, 6]), 3);
    assert_eq!(flush_threshold(&vec![1, 2, 3, 4, 5, 6, 7]), 4);
}

#[test]
fn claim_discards_a_vote_that_went_stale() {
    let mut book = FlushBook::new();
    book.propose(record(1, 2, 2, NOW)).unwrap();
    let later = NOW + DEFAULT_VOTE_WINDOW + 1;
    assert!(book.claim_if_approved(1, &vec![10, 11, 12], &vec![], later, DEFAULT_VOTE_WINDOW).is_none());
    assert!(!book.has_flush(1));
    assert!(!book.has_flush(2));
}
