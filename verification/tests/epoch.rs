use dozer_pipeline::epoch::{BarrierAction, EpochTracker};
use dozer_pipeline::errors::ExecutionError;
use dozer_pipeline::storage::Environment;

#[test]
fn an_epoch_is_committed_when_its_barrier_has_come_on_every_port() {
    let mut tracker = EpochTracker::new(vec![10, 20, 30]);
    assert_eq!(tracker.on_operation(10), Ok(1));
    assert_eq!(tracker.on_barrier(10, 1), Ok(BarrierAction::Wait));
    assert_eq!(tracker.on_operation(20), Ok(1));
    assert_eq!(tracker.on_barrier(30, 1), Ok(BarrierAction::Wait));
    assert_eq!(tracker.committed, 0);
    assert_eq!(tracker.on_barrier(20, 1), Ok(BarrierAction::Commit(1)));
    assert_eq!(tracker.committed, 1);
    assert_eq!(tracker.closed, vec![1, 1, 1]);
    assert_eq!(tracker.on_operation(10), Ok(2));
    assert_eq!(tracker.on_operation(30), Ok(2));
}

#[test]
fn a_port_is_closed_between_its_barrier_and_the_commit() {
    let mut tracker = EpochTracker::new(vec![1, 2]);
    assert_eq!(tracker.on_barrier(1, 1), Ok(BarrierAction::Wait));
    assert_eq!(tracker.on_operation(1), Err(ExecutionError::InvalidPortHandle(1)));
    assert_eq!(tracker.on_barrier(1, 2), Err(ExecutionError::InvalidPortHandle(1)));
    assert_eq!(tracker.on_operation(2), Ok(1));
    assert_eq!(tracker.on_barrier(2, 1), Ok(BarrierAction::Commit(1)));
    assert_eq!(tracker.on_operation(1), Ok(2));
}

#[test]
fn barriers_of_other_epochs_and_unknown_ports_are_refused() {
    let mut tracker = EpochTracker::new(vec![1, 2]);
    assert_eq!(
        tracker.on_barrier(1, 2),
        Err(ExecutionError::InconsistentCheckpointMetadata)
    );
    assert_eq!(
        tracker.on_barrier(1, 0),
        Err(ExecutionError::InconsistentCheckpointMetadata)
    );
    assert_eq!(tracker.on_barrier(3, 1), Err(ExecutionError::InvalidPortHandle(3)));
    assert_eq!(tracker.on_operation(3), Err(ExecutionError::InvalidPortHandle(3)));
    assert_eq!(tracker.closed, vec![0, 0]);
    assert_eq!(tracker.committed, 0);
}

#[test]
fn a_node_with_one_port_commits_at_every_barrier() {
    let mut tracker = EpochTracker::new(vec![7]);
    for epoch in 1..=5u64 {
        assert_eq!(tracker.on_operation(7), Ok(epoch));
        assert_eq!(tracker.on_barrier(7, epoch), Ok(BarrierAction::Commit(epoch)));
    }
    let mut none = EpochTracker::new(vec![]);
    assert_eq!(none.on_operation(7), Err(ExecutionError::InvalidPortHandle(7)));
    assert_eq!(none.on_barrier(7, 1), Err(ExecutionError::InvalidPortHandle(7)));
}

#[test]
fn what_an_epoch_wrote_is_seen_whole_or_not_at_all() {
    let mut env = Environment::new();
    let db = env.open_database("state", false);
    let mut txn = env.begin();
    txn.put(db, b"a", b"1").unwrap();
    txn.put(db, b"b", b"2").unwrap();
    let seen = env.begin();
    assert_eq!(seen.get(db, b"a"), Ok(None));
    assert_eq!(seen.get(db, b"b"), Ok(None));
    env.commit(txn);
    let seen = env.begin();
    assert_eq!(seen.get(db, b"a"), Ok(Some(b"1".to_vec())));
    assert_eq!(seen.get(db, b"b"), Ok(Some(b"2".to_vec())));
}

#[test]
fn a_port_takes_changes_until_its_barrier_has_come() {
    let mut tracker = EpochTracker::new(vec![1, 2]);
    assert!(tracker.is_in_order());
    assert!(tracker.takes(1) && tracker.takes(2));
    assert!(!tracker.takes(3));
    assert_eq!(tracker.on_barrier(1, 1), Ok(BarrierAction::Wait));
    assert!(!tracker.takes(1));
    assert!(tracker.takes(2));
    assert_eq!(tracker.on_barrier(2, 1), Ok(BarrierAction::Commit(1)));
    assert!(tracker.takes(1) && tracker.takes(2));
    assert!(tracker.is_in_order());
}

#[test]
fn a_tracker_out_of_order_is_told() {
    let mut tracker = EpochTracker::new(vec![1, 2]);
    tracker.closed[0] = 2;
    assert!(!tracker.is_in_order());
    tracker.closed[0] = 1;
    assert!(tracker.is_in_order());
    tracker.closed.pop();
    assert!(!tracker.is_in_order());
    let mut last = EpochTracker::new(vec![1]);
    last.committed = u64::MAX;
    last.closed[0] = u64::MAX;
    assert!(!last.is_in_order());
}
