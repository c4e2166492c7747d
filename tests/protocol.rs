use saf_store::actor::{
    split_into_batches, Responsibility, RetrieveRequest, SafActor, SafConfig, SafError, StoreRequest,
};
use saf_store::dedup::DedupWindow;
use saf_store::message::StoredMessage;
use saf_store::pipeline::{
    route, MessageHandlerLayer, Route, RETRIEVE_REQUEST_TAG, RETRIEVE_RESPONSE_TAG, STORE_REQUEST_TAG,
};
use saf_store::retrieval::{RetrievalEvent, RetrievalOutcome, RetrievalState, RetrievalTracker};
use saf_store::store::{InsertOutcome, StoreConfig};

fn config() -> SafConfig {
    SafConfig {
        store: StoreConfig { max_item_bytes: 64, max_count: 10, max_total_bytes: 1000 },
        default_ttl: 100,
        batch_max_count: 2,
        batch_max_bytes: 10,
        retrieval_timeout: 2,
        dedup_window: 16,
    }
}

fn req(id: u64, dest: Option<u64>, size: usize, ttl: Option<u64>) -> StoreRequest {
    StoreRequest { id, destination: dest, origin: 3, body: vec![1u8; size], priority: 0, ttl }
}

fn m(id: u64) -> StoredMessage {
    StoredMessage::new(id, 1, 2, vec![id as u8], 0, 0, 10)
}

#[test]
fn store_request_validation_and_admission() {
    let mut a = SafActor::new(config());
    let r = Responsibility::Responsible;
    assert_eq!(a.handle_store(req(1, None, 3, None), 5, r, false), Err(SafError::Validation));
    assert_eq!(a.handle_store(req(1, Some(4), 0, None), 5, r, false), Err(SafError::Validation));
    assert_eq!(
        a.handle_store(req(1, Some(4), 3, None), 5, Responsibility::NotResponsible, false),
        Err(SafError::NotResponsible)
    );
    assert_eq!(
        a.handle_store(req(1, Some(4), 3, None), 5, Responsibility::Unavailable, false),
        Err(SafError::NotResponsible)
    );
    assert_eq!(
        a.handle_store(req(1, Some(4), 3, None), 5, Responsibility::Unavailable, true),
        Ok(InsertOutcome::Stored)
    );
    assert_eq!(a.handle_store(req(1, Some(4), 3, None), 6, r, false), Ok(InsertOutcome::AlreadyPresent));
    assert_eq!(a.handle_store(req(2, Some(4), 65, None), 5, r, false), Err(SafError::TooLarge));
    assert_eq!(a.handle_store(req(3, Some(4), 3, Some(0)), 5, r, false), Err(SafError::Validation));
    assert_eq!(a.stats(), (1, 3));
}

#[test]
fn default_ttl_and_saturating_expiry() {
    let mut a = SafActor::new(config());
    let r = Responsibility::Responsible;
    a.handle_store(req(1, Some(4), 3, None), 5, r, false).unwrap();
    a.handle_store(req(2, Some(4), 3, Some(u64::MAX)), 6, r, false).unwrap();
    let out = a.handle_retrieve(&RetrieveRequest { requesting_key: Some(4), since: 0, max_count: 10, max_bytes: 100 });
    let all: Vec<&StoredMessage> = out.iter().flat_map(|b| b.batch.iter()).collect();
    assert_eq!(all[0].expires_at, 105);
    assert_eq!(all[0].stored_at, 5);
    assert_eq!(all[1].expires_at, u64::MAX);
    assert_eq!(a.handle_sweep(105), 1);
    assert_eq!(a.handle_sweep(105), 0);
    assert_eq!(a.handle_remove(&[2]), 1);
    assert_eq!(a.stats(), (0, 0));
}

#[test]
fn retrieval_is_cut_into_bounded_batches() {
    let mut a = SafActor::new(config());
    for id in 1..=5u64 {
        a.handle_store(req(id, Some(4), 4, None), id, Responsibility::Responsible, false).unwrap();
    }
    a.handle_store(req(9, Some(8), 4, None), 9, Responsibility::Responsible, false).unwrap();
    let out = a.handle_retrieve(&RetrieveRequest { requesting_key: Some(4), since: 2, max_count: 10, max_bytes: 100 });
    let shape: Vec<(Vec<u64>, bool)> =
        out.iter().map(|r| (r.batch.iter().map(|x| x.id).collect(), r.is_final)).collect();
    assert_eq!(shape, vec![(vec![2, 3], false), (vec![4, 5], true)]);
}

#[test]
fn empty_retrieval_is_one_final_empty_batch() {
    let a = SafActor::new(config());
    let out = a.handle_retrieve(&RetrieveRequest { requesting_key: Some(4), since: 0, max_count: 10, max_bytes: 100 });
    assert_eq!(out.len(), 1);
    assert!(out[0].is_final);
    assert!(out[0].batch.is_empty());
}

#[test]
fn oversized_message_goes_alone() {
    let msgs = vec![
        StoredMessage::new(1, 1, 1, vec![0u8; 3], 0, 0, 9),
        StoredMessage::new(2, 1, 1, vec![0u8; 20], 0, 0, 9),
        StoredMessage::new(3, 1, 1, vec![0u8; 3], 0, 0, 9),
        StoredMessage::new(4, 1, 1, vec![0u8; 6], 0, 0, 9),
    ];
    let out = split_into_batches(&msgs, 5, 8);
    let shape: Vec<(Vec<u64>, bool)> =
        out.iter().map(|r| (r.batch.iter().map(|x| x.id).collect(), r.is_final)).collect();
    assert_eq!(shape, vec![(vec![1], false), (vec![2], false), (vec![3], false), (vec![4], true)]);
}

#[test]
fn two_batches_complete_with_one_signal() {
    let mut t = RetrievalTracker::new(100);
    let mut seen = DedupWindow::new(16);
    assert_eq!(t.state, RetrievalState::Sent);
    let r1 = t.receive_batch(&vec![m(1), m(2)], false, &mut seen);
    assert_eq!(t.state, RetrievalState::PartiallyReceived);
    assert!(!r1.signal);
    assert_eq!(r1.fresh.len(), 2);
    let r2 = t.receive_batch(&vec![m(3)], true, &mut seen);
    assert_eq!(t.state, RetrievalState::Complete);
    assert_eq!(t.outcome, Some(RetrievalOutcome::Full));
    assert!(r2.signal);
    let signals = [r1.signal, r2.signal].iter().filter(|s| **s).count();
    assert_eq!(signals, 1);
    assert!(!t.handle(RetrievalEvent::Tick { now: 1000 }));
}

#[test]
fn deadline_completes_with_partial_result() {
    let mut t = RetrievalTracker::new(2);
    let mut seen = DedupWindow::new(16);
    let r1 = t.receive_batch(&vec![m(1), m(2)], false, &mut seen);
    assert!(!r1.signal);
    assert!(!t.handle(RetrievalEvent::Tick { now: 1 }));
    assert!(t.handle(RetrievalEvent::Tick { now: 2 }));
    assert_eq!(t.state, RetrievalState::Complete);
    assert_eq!(t.outcome, Some(RetrievalOutcome::PartialResult));
    let late = t.receive_batch(&vec![m(2), m(3)], true, &mut seen);
    assert!(!late.signal);
    assert_eq!(t.state, RetrievalState::Complete);
    assert_eq!(t.outcome, Some(RetrievalOutcome::PartialResult));
    let ids: Vec<u64> = late.fresh.iter().map(|x| x.id).collect();
    assert_eq!(ids, vec![3]);
}

#[test]
fn dedup_window_forgets_oldest() {
    let mut w = DedupWindow::new(2);
    assert!(w.observe(1));
    assert!(!w.observe(1));
    assert!(w.observe(2));
    assert!(w.observe(3));
    assert_eq!(w.len(), 2);
    assert!(!w.contains(1));
    assert!(w.contains(2) && w.contains(3));
    assert!(w.observe(1));
}

#[test]
fn routes_by_tag() {
    assert_eq!(route(false, STORE_REQUEST_TAG), Route::Drop);
    assert_eq!(route(true, STORE_REQUEST_TAG), Route::Store);
    assert_eq!(route(true, RETRIEVE_REQUEST_TAG), Route::Retrieve);
    assert_eq!(route(true, RETRIEVE_RESPONSE_TAG), Route::Responses);
    assert_eq!(route(true, 200), Route::Forward);
}

#[test]
fn layer_wraps_next_stage() {
    let layer = MessageHandlerLayer::new(config(), vec![1u8, 2]);
    let mut stage = layer.layer("next");
    assert_eq!(stage.next, "next");
    assert_eq!(stage.handles, vec![1u8, 2]);
    assert_eq!(stage.route(true, 9), Route::Forward);
    let mut t = RetrievalTracker::new(5);
    let r = stage.on_response(&mut t, &vec![m(1), m(1)], true);
    assert!(r.signal);
    assert_eq!(r.fresh.len(), 1);
    assert!(stage.seen.contains(1));
}
