//! Errors of the memory subsystem.

use vstd::prelude::*;

verus! {

/// Why a page-table operation on one page failed.
#[derive(Copy, Clone, Debug, PartialEq, Eq, Structural)]
pub enum PageError {
    /// The page already has a valid leaf entry.
    PageAlreadyMapped,
    /// The leaf entry of the page is not valid.
    PageInvalid,
    /// A directory on the way to the leaf entry is absent.
    InvalidDirPage,
}

/// Why a memory operation failed.
#[derive(Copy, Clone, Debug, PartialEq, Eq, Structural)]
pub enum MMError {
    /// The frame allocator has no frame left.
    NotEnoughMemory,
    /// A page-table operation failed.
    PageError(PageError),
}

/// The result of a memory operation.
pub type MMResult<T> = Result<T, MMError>;

} // verus!
