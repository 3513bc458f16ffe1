//! What a server asks of a store of byte keys and byte values.
use vstd::prelude::*;

use crate::errors::KvResult;

verus! {

/// A store of byte keys and byte values that can be made durable.
pub trait StorageEngine {
    /// Stores `value` under `key`, replacing what was stored there.
    fn set(&mut self, key: &[u8], value: &[u8]) -> KvResult<()>;

    /// The value stored under `key`, if any.
    fn get(&self, key: &[u8]) -> KvResult<Option<Vec<u8>>>;

    /// Removes `key` and its value.
    fn delete(&mut self, key: &[u8]) -> KvResult<()>;

    /// Makes everything stored so far durable.
    fn sync(&mut self) -> KvResult<()>;
}

} // verus!
