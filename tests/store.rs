use saf_store::message::StoredMessage;
use saf_store::store::{InsertOutcome, MessageStore, QueryFilter, StoreConfig, StoreError};

fn msg(id: u64, dest: u64, size: usize, priority: u8, stored_at: u64, expires_at: u64) -> StoredMessage {
    StoredMessage::new(id, dest, 99, vec![7u8; size], priority, stored_at, expires_at)
}

fn cfg(max_count: usize) -> StoreConfig {
    StoreConfig { max_item_bytes: 100, max_count, max_total_bytes: 1000 }
}

fn all() -> QueryFilter {
    QueryFilter { destination: None, since: 0, limit: usize::MAX, max_bytes: usize::MAX }
}

fn ids(v: &[StoredMessage]) -> Vec<u64> {
    v.iter().map(|m| m.id).collect()
}

#[test]
fn query_returns_all_inserted_oldest_first() {
    let mut s = MessageStore::new(cfg(10));
    assert_eq!(s.insert(msg(1, 5, 3, 0, 30, 100)), Ok(InsertOutcome::Stored));
    assert_eq!(s.insert(msg(2, 5, 3, 0, 10, 100)), Ok(InsertOutcome::Stored));
    assert_eq!(s.insert(msg(3, 6, 3, 0, 20, 100)), Ok(InsertOutcome::Stored));
    assert_eq!(s.insert(msg(4, 6, 3, 0, 20, 100)), Ok(InsertOutcome::Stored));
    assert_eq!(ids(&s.query(&all())), vec![2, 3, 4, 1]);
    assert_eq!(s.len(), 4);
    assert_eq!(s.total_bytes(), 12);
}

#[test]
fn duplicate_id_is_already_present_and_changes_nothing() {
    let mut s = MessageStore::new(cfg(10));
    assert_eq!(s.insert(msg(1, 5, 3, 0, 10, 100)), Ok(InsertOutcome::Stored));
    assert_eq!(s.insert(msg(1, 8, 9, 7, 20, 200)), Ok(InsertOutcome::AlreadyPresent));
    assert_eq!(s.len(), 1);
    let got = s.query(&all());
    assert_eq!(got[0].destination, 5);
    assert_eq!(got[0].body.len(), 3);
    assert_eq!(got[0].priority, 0);
    assert_eq!(got[0].stored_at, 10);
    assert_eq!(got[0].expires_at, 100);
}

#[test]
fn too_large_and_invalid_are_rejected() {
    let mut s = MessageStore::new(cfg(10));
    assert_eq!(s.insert(msg(1, 5, 101, 0, 10, 100)), Err(StoreError::TooLarge));
    assert_eq!(s.insert(msg(2, 5, 3, 0, 10, 10)), Err(StoreError::Validation));
    assert_eq!(s.len(), 0);
}

#[test]
fn higher_priority_evicts_lowest_then_oldest() {
    let mut s = MessageStore::new(cfg(3));
    s.insert(msg(1, 5, 1, 1, 10, 100)).unwrap();
    s.insert(msg(2, 5, 1, 0, 20, 100)).unwrap();
    s.insert(msg(3, 5, 1, 0, 30, 100)).unwrap();
    assert_eq!(s.insert(msg(4, 5, 1, 2, 40, 100)), Ok(InsertOutcome::Stored));
    assert_eq!(ids(&s.query(&all())), vec![1, 3, 4]);
    assert_eq!(s.insert(msg(5, 5, 1, 2, 50, 100)), Ok(InsertOutcome::Stored));
    assert_eq!(ids(&s.query(&all())), vec![1, 4, 5]);
}

#[test]
fn lower_priority_into_full_store_is_store_full() {
    let mut s = MessageStore::new(cfg(2));
    s.insert(msg(1, 5, 1, 3, 10, 100)).unwrap();
    s.insert(msg(2, 5, 1, 3, 20, 100)).unwrap();
    assert_eq!(s.insert(msg(3, 5, 1, 3, 30, 100)), Err(StoreError::StoreFull));
    assert_eq!(s.insert(msg(4, 5, 1, 1, 30, 100)), Err(StoreError::StoreFull));
    assert_eq!(ids(&s.query(&all())), vec![1, 2]);
}

#[test]
fn byte_ceiling_evicts_enough() {
    let c = StoreConfig { max_item_bytes: 100, max_count: 10, max_total_bytes: 100 };
    let mut s = MessageStore::new(c);
    s.insert(msg(1, 5, 40, 0, 10, 100)).unwrap();
    s.insert(msg(2, 5, 40, 0, 20, 100)).unwrap();
    s.insert(msg(3, 5, 20, 5, 30, 100)).unwrap();
    assert_eq!(s.insert(msg(4, 5, 70, 5, 40, 100)), Ok(InsertOutcome::Stored));
    assert_eq!(ids(&s.query(&all())), vec![3, 4]);
    assert_eq!(s.total_bytes(), 90);
}

#[test]
fn low_high_high_into_ceiling_two() {
    let mut s = MessageStore::new(cfg(2));
    assert_eq!(s.insert(msg(1, 9, 2, 0, 1, 100)), Ok(InsertOutcome::Stored));
    assert_eq!(s.insert(msg(2, 9, 2, 5, 2, 100)), Ok(InsertOutcome::Stored));
    assert_eq!(s.insert(msg(3, 9, 2, 5, 3, 100)), Ok(InsertOutcome::Stored));
    let got = s.query(&all());
    assert_eq!(ids(&got), vec![2, 3]);
    assert!(got.iter().all(|m| m.priority == 5));
}

#[test]
fn sweep_removes_expired_and_is_idempotent() {
    let mut s = MessageStore::new(cfg(10));
    s.insert(msg(1, 5, 1, 0, 10, 50)).unwrap();
    s.insert(msg(2, 5, 1, 0, 11, 60)).unwrap();
    s.insert(msg(3, 5, 1, 0, 12, 51)).unwrap();
    assert_eq!(s.sweep_expired(51), 2);
    assert_eq!(ids(&s.query(&all())), vec![2]);
    assert_eq!(s.sweep_expired(51), 0);
    assert_eq!(s.total_bytes(), 1);
}

#[test]
fn remove_ignores_missing_ids() {
    let mut s = MessageStore::new(cfg(10));
    s.insert(msg(1, 5, 1, 0, 10, 50)).unwrap();
    s.insert(msg(2, 5, 1, 0, 11, 60)).unwrap();
    assert_eq!(s.remove(&[2, 77]), 1);
    assert_eq!(s.remove(&[2, 77]), 0);
    assert_eq!(ids(&s.query(&all())), vec![1]);
    assert!(s.contains_id(1));
    assert!(!s.contains_id(2));
}

#[test]
fn query_respects_since_destination_and_caps() {
    let mut s = MessageStore::new(cfg(10));
    s.insert(msg(1, 5, 10, 0, 10, 500)).unwrap();
    s.insert(msg(2, 6, 10, 0, 20, 500)).unwrap();
    s.insert(msg(3, 5, 10, 0, 30, 500)).unwrap();
    s.insert(msg(4, 5, 10, 0, 40, 500)).unwrap();
    s.insert(msg(5, 5, 10, 0, 50, 500)).unwrap();
    let f = QueryFilter { destination: Some(5), since: 20, limit: 10, max_bytes: 1000 };
    assert_eq!(ids(&s.query(&f)), vec![3, 4, 5]);
    let f = QueryFilter { destination: Some(5), since: 0, limit: 2, max_bytes: 1000 };
    assert_eq!(ids(&s.query(&f)), vec![1, 3]);
    let f = QueryFilter { destination: None, since: 0, limit: 10, max_bytes: 25 };
    assert_eq!(ids(&s.query(&f)), vec![1, 2]);
    let f = QueryFilter { destination: None, since: 0, limit: 10, max_bytes: 9 };
    assert!(s.query(&f).is_empty());
    let f = QueryFilter { destination: None, since: 0, limit: 0, max_bytes: 1000 };
    assert!(s.query(&f).is_empty());
}

#[test]
fn interleaved_submissions_all_land() {
    // Submissions from several callers reach the single owner one at a time,
    // in whatever interleaving; each distinct id is stored once.
    let mut s = MessageStore::new(cfg(12));
    let callers: Vec<Vec<u64>> = vec![vec![1, 4, 7, 10], vec![2, 5, 8, 11], vec![3, 6, 9, 12]];
    let mut t: u64 = 0;
    for round in 0..4 {
        for c in callers.iter().rev() {
            t += 1;
            assert_eq!(s.insert(msg(c[round], 1, 2, 0, t, 1000)), Ok(InsertOutcome::Stored));
        }
    }
    assert_eq!(s.len(), 12);
    let mut got = ids(&s.query(&all()));
    got.sort();
    assert_eq!(got, (1..=12).collect::<Vec<u64>>());
}

#[test]
fn clone_keeps_fields() {
    let m = msg(1, 2, 3, 4, 5, 6);
    let c = m.clone();
    assert_eq!((c.id, c.destination, c.origin, c.body.clone(), c.priority, c.stored_at, c.expires_at),
        (1, 2, 99, vec![7u8; 3], 4, 5, 6));
    assert_eq!(m.size(), 3);
}
