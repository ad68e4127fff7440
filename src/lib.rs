//! The decisions of a file-backed byte store: what an attempt at an
//! exclusive advisory lock means for opening the store and when closing
//! must release it, positional reads and writes carried out to completion
//! over primitives that may move fewer bytes than asked for, and which kind
//! of data sync a request gets.
//!
//! The I/O itself (the file handle, the lock calls, the sync calls) is done
//! by the caller, which hands these functions plain values and primitives.

pub mod durability;
pub mod lock;
pub mod transfer;
