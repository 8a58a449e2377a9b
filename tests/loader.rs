use svc_skill::{CoderDataLoader, Coder, Outcome, ScopeClosed, ScopeState, Skill, StoreError};

const A: u128 = 0xa;
const B: u128 = 0xb;
const C: u128 = 0xc;
const D: u128 = 0xd;

fn row(id: u128, coder: u128) -> Skill {
    Skill::new(id, format!("title {}", id), format!("description {}", id), coder, 1_600_000_000_000_000)
}

fn ids(outcome: Outcome<'_>) -> Vec<u128> {
    match outcome {
        Outcome::Ready(v) => v.iter().map(|s| s.id).collect(),
        other => panic!("not ready: {:?}", other),
    }
}

fn failure(e: &str) -> StoreError {
    StoreError { message: e.to_string() }
}

#[test]
fn keys_a_a_b_are_fetched_once_and_grouped() {
    let mut loader = CoderDataLoader::new();
    let t1 = loader.lookup(A).unwrap();
    let t2 = loader.lookup(A).unwrap();
    let t3 = loader.lookup(B).unwrap();
    assert!(matches!(loader.outcome(t1), Outcome::Pending));
    let batch = loader.drain().unwrap();
    assert_eq!(batch, vec![A, B]);
    assert_eq!(loader.drain(), None);
    assert!(loader.complete(Ok(vec![row(1, A), row(2, B), row(3, A)])));
    assert_eq!(ids(loader.outcome(t1)), vec![1, 3]);
    assert_eq!(ids(loader.outcome(t2)), vec![1, 3]);
    assert_eq!(ids(loader.outcome(t3)), vec![2]);
    match (loader.outcome(t1), loader.outcome(t2)) {
        (Outcome::Ready(x), Outcome::Ready(y)) => assert!(std::ptr::eq(x, y)),
        _ => panic!("both callers of A should be ready"),
    }
}

#[test]
fn key_without_rows_gets_empty_collection() {
    let mut loader = CoderDataLoader::new();
    let t = loader.lookup(C).unwrap();
    assert_eq!(loader.drain(), Some(vec![C]));
    assert!(loader.complete(Ok(vec![])));
    assert_eq!(ids(loader.outcome(t)), Vec::<u128>::new());
}

#[test]
fn store_error_reaches_the_waiter() {
    let mut loader = CoderDataLoader::new();
    let t = loader.lookup(D).unwrap();
    assert_eq!(loader.drain(), Some(vec![D]));
    assert!(loader.complete(Err(failure("connection refused"))));
    match loader.outcome(t) {
        Outcome::Failed(e) => assert_eq!(e.message, "connection refused"),
        other => panic!("expected a store error, got {:?}", other),
    }
}

#[test]
fn failure_fans_out_to_every_waiter_of_the_batch() {
    let mut loader = CoderDataLoader::new();
    let tickets: Vec<usize> = [A, B, A, C].iter().map(|k| loader.lookup(*k).unwrap()).collect();
    loader.drain().unwrap();
    let late = loader.lookup(D).unwrap();
    assert!(loader.complete(Err(failure("timeout"))));
    for t in tickets {
        match loader.outcome(t) {
            Outcome::Failed(e) => assert_eq!(e, &failure("timeout")),
            other => panic!("expected a store error, got {:?}", other),
        }
    }
    assert!(matches!(loader.outcome(late), Outcome::Pending));
    assert_eq!(loader.drain(), Some(vec![D]));
}

#[test]
fn failed_key_is_fetched_again_by_a_fresh_lookup() {
    let mut loader = CoderDataLoader::new();
    let first = loader.lookup(A).unwrap();
    loader.drain().unwrap();
    loader.complete(Err(failure("down")));
    let second = loader.lookup(A).unwrap();
    assert_eq!(loader.drain(), Some(vec![A]));
    loader.complete(Ok(vec![row(7, A)]));
    assert!(matches!(loader.outcome(first), Outcome::Failed(_)));
    assert_eq!(ids(loader.outcome(second)), vec![7]);
}

#[test]
fn many_lookups_form_one_batch_of_distinct_keys() {
    let mut loader = CoderDataLoader::new();
    let keys = [B, A, B, C, A, A, C, B];
    for k in keys {
        loader.lookup(k).unwrap();
    }
    let mut batch = loader.drain().unwrap();
    batch.sort();
    assert_eq!(batch, vec![A, B, C]);
    assert_eq!(loader.state(), ScopeState::Draining);
    assert_eq!(loader.drain(), None);
}

#[test]
fn cached_key_joins_no_later_batch() {
    let mut loader = CoderDataLoader::new();
    loader.lookup(A).unwrap();
    loader.drain().unwrap();
    loader.complete(Ok(vec![row(1, A)]));
    let again = loader.lookup(A).unwrap();
    assert_eq!(ids(loader.outcome(again)), vec![1]);
    assert_eq!(loader.drain(), None);
}

#[test]
fn lookups_during_a_flush_join_the_next_batch() {
    let mut loader = CoderDataLoader::new();
    let a = loader.lookup(A).unwrap();
    loader.drain().unwrap();
    let a2 = loader.lookup(A).unwrap();
    let b = loader.lookup(B).unwrap();
    assert_eq!(loader.drain(), None);
    loader.complete(Ok(vec![row(1, A), row(2, B)]));
    assert_eq!(ids(loader.outcome(a)), vec![1]);
    assert_eq!(ids(loader.outcome(a2)), vec![1]);
    assert!(matches!(loader.outcome(b), Outcome::Pending));
    assert_eq!(loader.drain(), Some(vec![B]));
    loader.complete(Ok(vec![row(2, B)]));
    assert_eq!(ids(loader.outcome(b)), vec![2]);
}

#[test]
fn children_keep_the_store_order() {
    let mut loader = CoderDataLoader::new();
    let a = loader.lookup(A).unwrap();
    let b = loader.lookup(B).unwrap();
    loader.drain().unwrap();
    loader.complete(Ok(vec![row(5, A), row(4, B), row(9, A), row(1, A), row(3, B)]));
    assert_eq!(ids(loader.outcome(a)), vec![5, 9, 1]);
    assert_eq!(ids(loader.outcome(b)), vec![4, 3]);
}

#[test]
fn completion_without_flush_is_discarded() {
    let mut loader = CoderDataLoader::new();
    let t = loader.lookup(A).unwrap();
    assert!(!loader.complete(Ok(vec![row(1, A)])));
    assert!(matches!(loader.outcome(t), Outcome::Pending));
    assert_eq!(loader.drain(), Some(vec![A]));
}

#[test]
fn drain_with_nothing_pending_sends_nothing() {
    let mut loader = CoderDataLoader::new();
    assert_eq!(loader.drain(), None);
    assert_eq!(loader.state(), ScopeState::Open);
}

#[test]
fn closed_scope_refuses_lookups_and_releases_tickets() {
    let mut loader = CoderDataLoader::new();
    let a = loader.lookup(A).unwrap();
    let b = loader.lookup(B).unwrap();
    loader.drain().unwrap();
    loader.close();
    assert_eq!(loader.state(), ScopeState::Closed);
    assert_eq!(loader.lookup(C), Err(ScopeClosed));
    assert!(!loader.complete(Ok(vec![row(1, A)])));
    assert!(matches!(loader.outcome(a), Outcome::ScopeClosed));
    assert!(matches!(loader.outcome(b), Outcome::ScopeClosed));
    assert_eq!(loader.drain(), None);
    assert_eq!(loader.tickets(), 2);
}

#[test]
fn coder_skills_looks_up_its_id() {
    let mut loader = CoderDataLoader::new();
    let coder = Coder::new(A);
    assert_eq!(coder.id(), A);
    let t = coder.skills(&mut loader).unwrap();
    assert_eq!(loader.drain(), Some(vec![A]));
    loader.complete(Ok(vec![row(2, A)]));
    assert_eq!(ids(loader.outcome(t)), vec![2]);
}
