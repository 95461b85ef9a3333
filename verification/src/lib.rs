//! Delta synchronisation of a directory tree with a remote store.
//!
//! The crate holds the decisions of the synchronisation pipeline as verified
//! functions: which paths may be touched, which files count as changed, how
//! many transfers may run at once, which request follows which response,
//! and what the store does with a request. Signatures, deltas and patched
//! contents are computed by librsync, on bytes held in memory. Reading
//! files, watching directories and talking HTTP are left to the caller, which
//! performs the actions these functions hand out and feeds the outcomes back
//! in.

pub mod change;
pub mod dispatch;
pub mod engine;
pub mod guard;
pub mod limiter;
pub mod path;
pub mod pathtools;
pub mod protocol;
pub mod store;
pub mod sync;
