use vstd::prelude::*;

verus! {

/// How a data sync is carried out.
#[derive(Clone, Copy, Debug, PartialEq, Eq, Structural)]
pub enum SyncMethod {
    /// Flush the file's data to stable storage and wait for it.
    FullData,
    /// Order the writes issued so far before any later ones, without waiting
    /// for them to reach stable storage.
    Barrier,
}

/// Picks the sync method: the barrier where the caller asked for eventual
/// durability and the platform has one, a full data sync otherwise.
pub fn sync_method(eventual: bool, barrier_available: bool) -> (r: SyncMethod)
    ensures
        r == (if eventual && barrier_available {
            SyncMethod::Barrier
        } else {
            SyncMethod::FullData
        }),
{
    if eventual && barrier_available {
        SyncMethod::Barrier
    } else {
        SyncMethod::FullData
    }
}

/// Reads the status code of a barrier call: `-1` reports a failure, whose
/// cause is then in the platform's last error.
pub fn barrier_succeeded(code: i32) -> (r: bool)
    ensures
        r == (code != -1),
{
    code != -1
}

} // verus!
