use idx_fixed_store::error::CrustyError;
use idx_fixed_store::ids::{Permissions, TransactionId, ValueId};
use idx_fixed_store::lock_manager::{LockDecision, LockManager};

const TIMEOUT_MS: u64 = 500;

#[test]
fn test_simple_locks() {
    // Set up value, txns, and lock manager.
    let vid1 = ValueId::new_page(1, 1);
    let vid2 = ValueId::new_page(2, 2);
    let vid3 = ValueId::new_page(2, 1);
    let vid4 = ValueId::new_page(2, 3);

    let txn = TransactionId::new();
    let mut lm = LockManager::new(TIMEOUT_MS);

    // Acquire locks.
    assert!(lm.acquire_lock(txn, vid1, Permissions::ReadOnly).is_ok());
    assert!(lm.acquire_lock(txn, vid2, Permissions::ReadWrite).is_ok());

    // Check locks held.
    assert_eq!(lm.locks_held(txn).len(), 2);
    assert!(lm.locks_held(txn).contains(&vid1));
    assert!(lm.locks_held(txn).contains(&vid2));

    // Try to acquire lock on same value.
    assert!(lm.acquire_lock(txn, vid1, Permissions::ReadOnly).is_ok());
    assert_eq!(lm.locks_held(txn).len(), 2);

    // Release and acquire locks.
    assert_eq!(lm.release_lock(txn, vid2), Ok(()));
    assert!(lm.acquire_lock(txn, vid3, Permissions::ReadWrite).is_ok());
    assert!(lm.acquire_lock(txn, vid4, Permissions::ReadWrite).is_ok());
    assert_eq!(lm.locks_held(txn).len(), 3);

    // Release all locks.
    assert_eq!(lm.release_all_locks(txn), Ok(()));
    assert_eq!(lm.locks_held(txn).len(), 0);

    // Reacquire locks.
    assert!(lm.acquire_lock(txn, vid3, Permissions::ReadWrite).is_ok());
    assert_eq!(lm.locks_held(txn), vec![vid3]);
}

#[test]
fn test_simple_shared_lock() {
    let vid = ValueId::new_page(1, 1);
    let txn1 = TransactionId::new();
    let txn2 = TransactionId::new();
    let mut lm = LockManager::new(TIMEOUT_MS);

    // Both threads read.
    assert!(lm.acquire_lock(txn1, vid, Permissions::ReadOnly).is_ok());
    assert!(lm.acquire_lock(txn2, vid, Permissions::ReadOnly).is_ok());

    assert!(lm.locks_held(txn1).contains(&vid));
    assert!(lm.locks_held(txn2).contains(&vid));
}

#[test]
fn test_simple_errors() {
    let mut lm = LockManager::new(TIMEOUT_MS);
    let vid = ValueId::new_page(1, 1);
    let txn = TransactionId::new();
    assert!(lm.release_lock(txn, vid).is_err());
    assert!(lm.release_all_locks(txn).is_err());
}

#[test]
fn test_simple_release_shared_lock() {
    let vid = ValueId::new_page(1, 1);
    let txn1 = TransactionId::new();
    let txn2 = TransactionId::new();
    let mut lm = LockManager::new(TIMEOUT_MS);

    // Both threads read.
    assert!(lm.acquire_lock(txn1, vid, Permissions::ReadOnly).is_ok());
    assert!(lm.acquire_lock(txn2, vid, Permissions::ReadOnly).is_ok());

    // Both threads release.
    lm.release_lock(txn1, vid).unwrap();
    lm.release_lock(txn2, vid).unwrap();
    assert_eq!(lm.locks_held(txn1).len(), 0);
    assert_eq!(lm.locks_held(txn2).len(), 0);
}

#[test]
fn test_simple_release_missing_lock() {
    let vid = ValueId::new_page(1, 1);
    let txn1 = TransactionId::new();
    let txn2 = TransactionId::new();
    let mut lm = LockManager::new(TIMEOUT_MS);

    // txn1 read.
    assert!(lm.acquire_lock(txn1, vid, Permissions::ReadOnly).is_ok());

    // Both threads release, but txn2 never had lock.
    assert!(lm.release_lock(txn1, vid).is_ok());
    assert!(lm.release_lock(txn2, vid).is_err());
}

#[test]
#[should_panic]
fn test_release_missing_value() {
    let vid1 = ValueId::new_page(1, 1);
    let vid2 = ValueId::new_page(2, 2);
    let txn = TransactionId::new();
    let mut lm = LockManager::new(TIMEOUT_MS);

    // Txn acquire lock on vid1.
    assert!(lm.acquire_lock(txn, vid1, Permissions::ReadOnly).is_ok());

    // Txn release, but never had lock on vid2.
    lm.release_lock(txn, vid2).unwrap();
}

#[test]
#[should_panic]
fn test_simple_release_missing_txn() {
    let vid = ValueId::new_page(1, 1);
    let txn = TransactionId::new();
    let mut lm = LockManager::new(TIMEOUT_MS);

    // Txn release, but never had lock.
    lm.release_lock(txn, vid).unwrap();
}

#[test]
#[should_panic]
fn test_simple_release_locks_missing_txn() {
    let txn = TransactionId::new();
    let mut lm = LockManager::new(TIMEOUT_MS);

    // Txn release, but never had lock.
    lm.release_all_locks(txn).unwrap();
}

#[test]
fn test_upgrade_lock_simple() {
    let vid = ValueId::new_page(1, 1);
    let failvid = ValueId::new_page(2, 4);

    let txn1 = TransactionId::new();
    let txn2 = TransactionId::new();
    let mut lm = LockManager::new(TIMEOUT_MS);

    // Read.
    assert!(lm.acquire_lock(txn1, vid, Permissions::ReadOnly).is_ok());

    // Upgrade to write.
    assert!(lm.upgrade_lock(txn1, vid).is_ok());

    // Fail on upgrading non-existent lock.
    assert!(lm.upgrade_lock(txn1, failvid).is_err());

    // Fail on a txn with no locks
    assert!(lm.upgrade_lock(txn2, failvid).is_err());
}

#[test]
fn test_upgrade_lock() {
    let vid = ValueId::new_page(1, 1);
    let txn1 = TransactionId::new();
    let txn2 = TransactionId::new();
    let mut lm = LockManager::new(TIMEOUT_MS);

    // Both threads read.
    assert!(lm.acquire_lock(txn1, vid, Permissions::ReadOnly).is_ok());
    assert!(lm.acquire_lock(txn2, vid, Permissions::ReadOnly).is_ok());

    // Try to upgrade without releasing read.
    assert!(lm.upgrade_lock(txn1, vid).is_err(), "Txn1 should not be able to upgrade");

    // txn2 releases to allow txn1 to write.
    lm.release_lock(txn2, vid).unwrap();
}

fn tid(n: u64) -> TransactionId {
    TransactionId { id: n }
}

#[test]
fn exclusive_waits_until_release() {
    let r = ValueId::new_page(1, 1);
    let mut lm = LockManager::new(TIMEOUT_MS);
    assert_eq!(lm.request_lock(tid(1), r, Permissions::ReadOnly), LockDecision::Granted);
    assert_eq!(lm.request_lock(tid(2), r, Permissions::ReadWrite), LockDecision::Wait);
    assert_eq!(lm.waiting.len(), 1);
    // a later shared request queues behind the waiting writer
    assert_eq!(lm.request_lock(tid(3), r, Permissions::ReadOnly), LockDecision::Wait);
    lm.release_lock(tid(1), r).unwrap();
    assert_eq!(lm.request_lock(tid(2), r, Permissions::ReadWrite), LockDecision::Granted);
    assert_eq!(lm.locks_held(tid(2)), vec![r]);
    assert_eq!(lm.waiting.len(), 1);
    lm.cancel_wait(tid(3));
    assert!(lm.waiting.is_empty());
}

#[test]
fn acquire_times_out_or_detects_deadlock() {
    let a = ValueId::new_page(1, 1);
    let b = ValueId::new_page(1, 2);
    let mut lm = LockManager::new(TIMEOUT_MS);
    lm.acquire_lock(tid(1), a, Permissions::ReadWrite).unwrap();
    lm.acquire_lock(tid(2), b, Permissions::ReadWrite).unwrap();
    assert_eq!(lm.acquire_lock(tid(2), a, Permissions::ReadOnly), Err(CrustyError::LockTimeout));
    assert!(lm.waiting.is_empty());
    // t1 waits for b; t2 asking for a closes the cycle
    assert_eq!(lm.request_lock(tid(1), b, Permissions::ReadWrite), LockDecision::Wait);
    assert_eq!(lm.request_lock(tid(2), a, Permissions::ReadWrite), LockDecision::Deadlock);
    assert_eq!(lm.acquire_lock(tid(2), a, Permissions::ReadOnly), Err(CrustyError::Deadlock));
    // t2 aborts; t1 can go on
    lm.release_all_locks(tid(2)).unwrap();
    assert_eq!(lm.request_lock(tid(1), b, Permissions::ReadWrite), LockDecision::Granted);
    assert!(lm.locks_held(tid(2)).is_empty());
    let mut held = lm.locks_held(tid(1));
    held.sort_by_key(|v| v.page_id);
    assert_eq!(held, vec![a, b]);
}

#[test]
fn upgrade_and_downgrade() {
    let r = ValueId::new_slot(4, 2, 9);
    let page = ValueId::new_page(4, 2);
    let mut lm = LockManager::new(TIMEOUT_MS);
    assert_eq!(lm.downgrade_lock(tid(1), r), Err(CrustyError::LockNotHeld));
    lm.acquire_lock(tid(1), r, Permissions::ReadOnly).unwrap();
    assert_eq!(lm.locks_held(tid(1)), vec![page]);
    assert_eq!(lm.downgrade_lock(tid(1), r), Err(CrustyError::LockConflict));
    lm.acquire_lock(tid(2), page, Permissions::ReadOnly).unwrap();
    assert_eq!(lm.upgrade_lock(tid(1), r), Err(CrustyError::LockConflict));
    lm.release_lock(tid(2), page).unwrap();
    assert_eq!(lm.upgrade_lock(tid(1), r), Ok(()));
    assert_eq!(lm.acquire_lock(tid(2), page, Permissions::ReadOnly), Err(CrustyError::LockTimeout));
    assert_eq!(lm.downgrade_lock(tid(1), r), Ok(()));
    assert!(lm.acquire_lock(tid(2), page, Permissions::ReadOnly).is_ok());
    lm.clear();
    assert!(lm.locks_held(tid(1)).is_empty());
    assert_eq!(lm.timeout_ms, TIMEOUT_MS);
}

#[test]
fn transaction_ids_are_drawn_fresh() {
    let a = TransactionId::new();
    let b = TransactionId::new();
    let c = TransactionId::new();
    assert!(a != b || b != c);
}

#[test]
fn default_lock_manager() {
    let lm = LockManager::default();
    assert_eq!(lm.timeout_ms, 2000);
    assert!(lm.held.is_empty() && lm.waiting.is_empty());
}
