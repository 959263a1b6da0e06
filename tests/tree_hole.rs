use dog_bot::tree_hole::{plan_deletions, DeleteCall, HistoryMessage, TreeHoleEngine};

const SECOND: u64 = 1_000;
const HOUR: u64 = 3_600 * SECOND;
const NOW: u64 = 1_700_000_000_000;

fn msg(id: u64, posted_at: u64, pinned: bool) -> HistoryMessage {
    HistoryMessage { id, posted_at, pinned }
}

#[test]
fn reconcile_deletes_overdue_and_schedules_the_rest() {
    let mut engine = TreeHoleEngine::new();
    let history = vec![
        msg(1, NOW - 4_000 * SECOND, false),
        msg(2, NOW - 1_000 * SECOND, false),
        msg(3, NOW, false),
    ];
    let immediate = engine.reconcile_at(7, HOUR, &history, NOW);
    assert_eq!(immediate, vec![1]);
    assert!(!engine.is_tracked(1));
    assert_eq!(engine.remaining(2, NOW), Some(2_600 * SECOND));
    assert_eq!(engine.remaining(3, NOW), Some(3_600 * SECOND));
    assert_eq!(engine.get(2).unwrap().channel_id, 7);
}

#[test]
fn tracking_twice_keeps_the_first_deadline() {
    let mut engine = TreeHoleEngine::new();
    assert!(engine.track_at(10, 1, HOUR, NOW));
    assert!(!engine.track_at(10, 2, 5 * HOUR, NOW + 30 * SECOND));
    let e = engine.get(10).unwrap();
    assert_eq!(e.deadline, NOW + HOUR);
    assert_eq!(e.channel_id, 1);
}

#[test]
fn eviction_waits_for_the_deadline() {
    let mut engine = TreeHoleEngine::new();
    engine.track_at(10, 1, HOUR, NOW);
    engine.track_at(11, 1, 2 * HOUR, NOW);
    assert!(engine.expire_due(NOW + HOUR - 1).is_empty());
    let due = engine.expire_due(NOW + HOUR);
    assert_eq!(due.len(), 1);
    assert_eq!(due[0].message_id, 10);
    assert!(!engine.is_tracked(10));
    assert!(engine.is_tracked(11));
    assert!(engine.expire_due(NOW + HOUR).is_empty());
    let later = engine.expire_due(NOW + 3 * HOUR);
    assert_eq!(later.len(), 1);
    assert_eq!(later[0].message_id, 11);
}

#[test]
fn pin_change_invalidates_and_never_evicts() {
    let mut engine = TreeHoleEngine::new();
    engine.track_at(20, 1, HOUR, NOW);
    let immediate = engine.pins_updated(1, HOUR, &vec![msg(20, NOW, true)], NOW + 10 * SECOND);
    assert!(immediate.is_empty());
    assert!(!engine.is_tracked(20));
    assert!(engine.expire_due(NOW + 10 * HOUR).is_empty());
}

#[test]
fn reconcile_skips_pinned_messages_entirely() {
    let mut engine = TreeHoleEngine::new();
    engine.track_at(21, 1, HOUR, NOW);
    let history = vec![msg(21, NOW, true), msg(22, NOW - 2 * HOUR, true)];
    let immediate = engine.reconcile_at(1, HOUR, &history, NOW + 10 * SECOND);
    assert!(immediate.is_empty());
    assert_eq!(engine.get(21).unwrap().deadline, NOW + HOUR);
    assert!(!engine.is_tracked(22));
}

#[test]
fn unpinned_message_counts_from_its_post_time() {
    let mut engine = TreeHoleEngine::new();
    engine.track_at(30, 1, HOUR, NOW);
    engine.pins_updated(1, HOUR, &vec![msg(30, NOW, true), msg(31, NOW + HOUR / 2, true)], NOW);
    assert!(!engine.is_tracked(30));
    let history = vec![msg(30, NOW, false), msg(31, NOW + HOUR / 2, false)];
    let immediate = engine.pins_updated(1, HOUR, &history, NOW + HOUR);
    assert_eq!(immediate, vec![30]);
    assert_eq!(engine.remaining(31, NOW + HOUR), Some(HOUR / 2));
}

#[test]
fn reconcile_skips_tracked_messages() {
    let mut engine = TreeHoleEngine::new();
    engine.track_at(40, 1, HOUR, NOW);
    let immediate = engine.reconcile_at(1, HOUR, &vec![msg(40, NOW - 2 * HOUR, false)], NOW);
    assert!(immediate.is_empty());
    assert_eq!(engine.get(40).unwrap().deadline, NOW + HOUR);
}

#[test]
fn reconcile_uses_the_first_listing_of_a_message() {
    let mut engine = TreeHoleEngine::new();
    let history = vec![msg(50, NOW - 2 * HOUR, false), msg(50, NOW, true), msg(50, NOW, false)];
    let immediate = engine.reconcile_at(1, HOUR, &history, NOW);
    assert_eq!(immediate, vec![50]);
    assert!(!engine.is_tracked(50));
}

#[test]
fn reconcile_leaves_unlisted_messages_alone() {
    let mut engine = TreeHoleEngine::new();
    engine.track_at(60, 1, HOUR, NOW);
    engine.reconcile_at(2, HOUR, &vec![msg(61, NOW, false)], NOW);
    assert_eq!(engine.get(60).unwrap().deadline, NOW + HOUR);
    assert_eq!(engine.get(61).unwrap().channel_id, 2);
}

#[test]
fn invalidate_removes_without_eviction() {
    let mut engine = TreeHoleEngine::new();
    engine.track_at(70, 1, HOUR, NOW);
    assert!(engine.invalidate(70));
    assert!(!engine.invalidate(70));
    assert!(engine.expire_due(NOW + 2 * HOUR).is_empty());
}

#[test]
fn deadline_saturates_at_the_end_of_time() {
    let mut engine = TreeHoleEngine::new();
    engine.track_at(80, 1, u64::MAX, NOW);
    assert_eq!(engine.get(80).unwrap().deadline, u64::MAX);
    assert!(engine.expire_due(u64::MAX - 1).is_empty());
}

#[test]
fn evicted_entry_carries_its_message_id() {
    let mut engine = TreeHoleEngine::new();
    engine.track_at(95, 4, HOUR, NOW);
    engine.track_at(96, 4, HOUR, NOW + 1);
    let due = engine.expire_due(NOW + HOUR);
    assert_eq!(due.len(), 1);
    assert_eq!(due[0].message_id, 95);
    assert_eq!(due[0].channel_id, 4);
    assert_eq!(due[0].deadline, NOW + HOUR);
}

#[test]
fn plan_deletions_of_nothing_is_empty() {
    assert!(plan_deletions(&vec![]).is_empty());
}

#[test]
fn plan_deletions_of_one_is_a_single_call() {
    let calls = plan_deletions(&vec![5]);
    assert_eq!(calls.len(), 1);
    assert!(matches!(calls[0], DeleteCall::Single(5)));
}

#[test]
fn plan_deletions_of_two_is_a_bulk_call() {
    let calls = plan_deletions(&vec![5, 6]);
    assert_eq!(calls.len(), 1);
    match &calls[0] {
        DeleteCall::Bulk(ids) => assert_eq!(ids, &vec![5, 6]),
        DeleteCall::Single(_) => panic!("two ids make a bulk call"),
    }
}

#[test]
fn plan_deletions_splits_into_chunks_of_a_hundred() {
    let ids: Vec<u64> = (0..250).collect();
    let calls = plan_deletions(&ids);
    let sizes: Vec<usize> = calls
        .iter()
        .map(|c| match c {
            DeleteCall::Bulk(v) => v.len(),
            DeleteCall::Single(_) => 1,
        })
        .collect();
    assert_eq!(sizes, vec![100, 100, 50]);
    match &calls[2] {
        DeleteCall::Bulk(v) => assert_eq!(v[0], 200),
        DeleteCall::Single(_) => panic!("fifty ids make a bulk call"),
    }
}

#[test]
fn plan_deletions_sends_a_lone_last_id_singly() {
    let ids: Vec<u64> = (0..201).collect();
    let calls = plan_deletions(&ids);
    assert_eq!(calls.len(), 3);
    assert!(matches!(calls[2], DeleteCall::Single(200)));
}
