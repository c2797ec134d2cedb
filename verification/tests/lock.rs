use rustypi::lock::{Acquire, LockError, LockState};
use rustypi::sched::TaskId;

const A: TaskId = TaskId(1);
const B: TaskId = TaskId(2);
const C: TaskId = TaskId(3);

#[test]
fn free_locks_are_acquired_at_once() {
    let mut lock = LockState::new();
    assert_eq!(lock.lock(A), Ok(Acquire::Acquired));
    assert_eq!(lock.owner(), Some(A));
    assert_eq!(lock.unlock(A), Ok(None));
    assert_eq!(lock.owner(), None);
}

#[test]
fn waiters_are_handed_the_lock_in_arrival_order() {
    let mut lock = LockState::new();
    lock.lock(A).unwrap();
    assert_eq!(lock.lock(B), Ok(Acquire::Queued));
    assert_eq!(lock.lock(C), Ok(Acquire::Queued));
    assert_eq!(lock.unlock(A), Ok(Some(B)));
    assert_eq!(lock.owner(), Some(B));
    // A relocking now queues behind C instead of jumping ahead.
    assert_eq!(lock.lock(A), Ok(Acquire::Queued));
    assert_eq!(lock.unlock(B), Ok(Some(C)));
    assert_eq!(lock.unlock(C), Ok(Some(A)));
    assert_eq!(lock.unlock(A), Ok(None));
}

#[test]
fn relocking_and_foreign_unlocks_are_errors() {
    let mut lock = LockState::new();
    lock.lock(A).unwrap();
    assert_eq!(lock.lock(A), Err(LockError::AlreadyHeld));
    assert_eq!(lock.unlock(B), Err(LockError::NotOwner));
    assert_eq!(lock.owner(), Some(A));
}
