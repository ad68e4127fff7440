use file_backend::lock::{LockAttempt, LockState, OpenError};

#[test]
fn acquired_lock_opens_with_locking() {
    let s = LockState::from_attempt(LockAttempt::Acquired).unwrap();
    assert_eq!(s, LockState::Held);
    assert!(s.lock_supported());
    assert!(!s.needs_warning());
}

#[test]
fn contended_lock_is_already_open() {
    assert_eq!(LockState::from_attempt(LockAttempt::WouldBlock), Err(OpenError::AlreadyOpen));
}

#[test]
fn other_lock_failure_is_lock_failed() {
    assert_eq!(LockState::from_attempt(LockAttempt::Failed), Err(OpenError::LockFailed));
}

#[test]
fn unsupported_locking_always_opens_and_warns_each_time() {
    let mut warnings = 0;
    for _ in 0..3 {
        let s = LockState::from_attempt(LockAttempt::Unsupported).unwrap();
        assert_eq!(s, LockState::NotSupported);
        assert!(!s.lock_supported());
        if s.needs_warning() {
            warnings += 1;
        }
    }
    assert_eq!(warnings, 3);
}

#[test]
fn close_twice_releases_once() {
    let mut s = LockState::from_attempt(LockAttempt::Acquired).unwrap();
    let mut releases = 0;
    for _ in 0..2 {
        if s.unlock_due() {
            releases += 1;
            s.record_unlock(true);
        }
    }
    assert_eq!(releases, 1);
    assert_eq!(s, LockState::Released);
    assert!(s.lock_supported());
}

#[test]
fn close_without_lock_is_noop() {
    let mut s = LockState::from_attempt(LockAttempt::Unsupported).unwrap();
    for _ in 0..2 {
        assert!(!s.unlock_due());
        s.record_unlock(true);
        assert_eq!(s, LockState::NotSupported);
    }
}

#[test]
fn failed_release_can_be_retried() {
    let mut s = LockState::Held;
    s.record_unlock(false);
    assert_eq!(s, LockState::Held);
    assert!(s.unlock_due());
    s.record_unlock(true);
    assert_eq!(s, LockState::Released);
    assert!(!s.unlock_due());
}
