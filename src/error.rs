//! Errors that the directory adapter reports to the engine.

use vstd::prelude::*;

use crate::page::StoreError;

verus! {

#[derive(Clone, Copy, Debug, PartialEq, Eq, Structural)]
pub enum DirectoryError {
    /// No such file: a slot that was never written, or a segment the
    /// catalog does not know.
    FileDoesNotExist,
    /// A byte range that is empty once clamped to the file's length.
    InvalidRange,
    /// A path that names neither a slot nor a writable segment.
    UnexpectedPath,
    /// A lock name that maps to no lock page.
    UnexpectedLock,
    /// The lock's page is already locked.
    LockBusy,
    /// The operation is not supported by block storage.
    Unsupported,
    /// A response over the channel that does not answer the request sent.
    UnexpectedResponse,
    /// The storage layer failed.
    Store(StoreError),
}

} // verus!
