use vstd::prelude::*;

verus! {

/// What a non-blocking attempt at an exclusive advisory lock on the file came to.
#[derive(Clone, Copy, Debug, PartialEq, Eq, Structural)]
pub enum LockAttempt {
    /// The lock is now held by this handle.
    Acquired,
    /// Another handle holds the lock.
    WouldBlock,
    /// The platform or file system has no advisory locks.
    Unsupported,
    /// The attempt failed for another reason.
    Failed,
}

/// Why a backend could not be opened over a file.
#[derive(Clone, Copy, Debug, PartialEq, Eq, Structural)]
pub enum OpenError {
    /// Another process or handle has the file open: the lock is contended.
    AlreadyOpen,
    /// Locking failed with an I/O error, which the caller holds.
    LockFailed,
}

/// The lock that a backend holds on its file.
///
/// `Held --close--> Released`; `NotSupported` stays as it is, and so does
/// `Released`: no operation but construction and close moves it.
#[derive(Clone, Copy, Debug, PartialEq, Eq, Structural)]
pub enum LockState {
    /// The exclusive lock was acquired at construction and is still held.
    Held,
    /// Locking is not available: single-process access is the caller's duty.
    NotSupported,
    /// The lock was acquired and has since been released.
    Released,
}

/// The construction outcome for a lock attempt.
pub open spec fn open_outcome(a: LockAttempt) -> Result<LockState, OpenError> {
    match a {
        LockAttempt::Acquired => Ok(LockState::Held),
        LockAttempt::WouldBlock => Err(OpenError::AlreadyOpen),
        LockAttempt::Unsupported => Ok(LockState::NotSupported),
        LockAttempt::Failed => Err(OpenError::LockFailed),
    }
}

/// Whether closing in state `s` must release the lock.
pub open spec fn unlock_due(s: LockState) -> bool {
    s is Held
}

/// The state after a release attempt that succeeded or not.
pub open spec fn after_unlock(s: LockState, succeeded: bool) -> LockState {
    if unlock_due(s) && succeeded {
        LockState::Released
    } else {
        s
    }
}

/// The state after a close whose release, where one was due, succeeded.
pub open spec fn after_close(s: LockState) -> LockState {
    after_unlock(s, true)
}

impl LockState {
    /// Decides construction from the lock attempt: a held lock or a platform
    /// without locks opens, contention is `AlreadyOpen`, any other failure
    /// is `LockFailed`.
    pub fn from_attempt(a: LockAttempt) -> (r: Result<LockState, OpenError>)
        ensures
            r == open_outcome(a),
    {
        match a {
            LockAttempt::Acquired => Ok(LockState::Held),
            LockAttempt::WouldBlock => Err(OpenError::AlreadyOpen),
            LockAttempt::Unsupported => Ok(LockState::NotSupported),
            LockAttempt::Failed => Err(OpenError::LockFailed),
        }
    }

    /// Whether the lock was acquired at construction.
    pub fn lock_supported(&self) -> (r: bool)
        ensures
            r == !(*self is NotSupported),
    {
        match self {
            LockState::NotSupported => false,
            _ => true,
        }
    }

    /// Whether the caller must be warned, once, that only a single process
    /// may open the file at a time: so when locking is not available.
    pub fn needs_warning(&self) -> (r: bool)
        ensures
            r == (*self is NotSupported),
    {
        match self {
            LockState::NotSupported => true,
            _ => false,
        }
    }

    /// Whether a close must release the lock now.
    pub fn unlock_due(&self) -> (r: bool)
        ensures
            r == unlock_due(*self),
    {
        match self {
            LockState::Held => true,
            _ => false,
        }
    }

    /// Records the outcome of a release attempt: a successful release of a
    /// held lock ends in `Released`; anything else leaves the state as it was,
    /// so a failed release can be tried again.
    pub fn record_unlock(&mut self, succeeded: bool)
        ensures
            *final(self) == after_unlock(*old(self), succeeded),
    {
        if succeeded {
            if let LockState::Held = self {
                *self = LockState::Released;
            }
        }
    }
}

/// Closing is idempotent: after a close whose release succeeded, no release
/// is due, and a second close changes nothing. Without a lock nothing is
/// ever released.
pub proof fn close_twice_is_noop(s: LockState)
    ensures
        !unlock_due(after_close(s)),
        after_close(after_close(s)) == after_close(s),
        s is NotSupported ==> !unlock_due(s) && after_close(s) == s,
{
}

/// A platform without advisory locks always opens, whatever else has the
/// file open, and is the one outcome that asks for the warning.
pub proof fn unsupported_locking_always_opens(a: LockAttempt)
    ensures
        a is Unsupported ==> open_outcome(a) == Ok::<LockState, OpenError>(LockState::NotSupported),
        (open_outcome(a) is Ok && open_outcome(a)->Ok_0 is NotSupported) <==> a is Unsupported,
{
}

/// Contention on the lock is the one attempt that reports the file as
/// already open.
pub proof fn contention_means_already_open(a: LockAttempt)
    ensures
        open_outcome(a) == Err::<LockState, OpenError>(OpenError::AlreadyOpen) <==> a is WouldBlock,
{
}

} // verus!
