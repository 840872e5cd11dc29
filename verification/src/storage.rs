//! The storage engine: pages and tuples, the page table, frame descriptors,
//! the replacer, the buffer pool and its manager.

use vstd::prelude::*;

pub mod buffer_pool;
pub mod buffer_pool_manager;
pub mod coherence;

pub mod descriptors;
pub mod disk_manager;
pub mod disk_model;
pub mod endian;
pub mod hash_table;
pub mod page;
pub mod protocol;
pub mod replacer;
pub mod tuple;

verus! {

/// Why a storage operation failed.
#[derive(Clone, Copy, Debug, PartialEq, Eq, Structural)]
pub enum StorageError {
    /// The disk could not read, write or measure a table's file, or a read
    /// came back short.
    Io,
    /// The table is not in the catalog.
    CatalogMiss,
    /// Every frame is pinned, so none can host another page.
    NoFreeFrame,
    /// A tuple lacks a column of its table, holds a value of another type
    /// for it, or holds a text of more than 255 bytes.
    InvalidTuple,
    /// A page holds more tuples than its size allows, or a number of tuples
    /// other than its header states.
    InvalidPage,
    /// A byte image is not that of a page or of a tuple of the table.
    InvalidImage,
    /// A frame is held by as many users as the machine can count.
    PinOverflow,
    /// A reply came that answers no request, or an operation was started
    /// while another waits for the disk.
    Protocol,
}

/// The result of a storage operation.
pub type StorageResult<T> = Result<T, StorageError>;

} // verus!
