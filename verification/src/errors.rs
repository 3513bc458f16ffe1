use vstd::prelude::*;

use crate::btree::common::PageId;

verus! {

/// Everything that can go wrong in the store.
#[derive(Debug)]
pub enum KvError {
    KeyNotFound(Vec<u8>),
    IoError(String),
    CorruptedData(String),
    PageNotFound(PageId),
    InvalidPageRequest(Vec<PageId>),
    TreeLogicError(String),
    LockError(),
    LoggingError(String),
}

pub type KvResult<E> = Result<E, KvError>;

} // verus!
