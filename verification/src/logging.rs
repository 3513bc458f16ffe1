//! Records of what the store does, for whoever wants to keep them.
use std::marker::PhantomData;
use vstd::prelude::*;

use crate::errors::KvResult;

verus! {

/// Something that records items of type `T`.
pub trait Logger<T> {
    /// Records `item`.
    fn log_item(&self, item: T) -> KvResult<()>;
}

/// A message to record.
pub struct MessageItem {
    pub msg: String,
}

/// A logger that records nothing.
pub struct NoopLogger<T> {
    _marker: PhantomData<T>,
}

impl<T> NoopLogger<T> {
    /// A logger that records nothing; the path and the capacity are not used.
    pub fn new(_path: String, _buffer_capacity: usize) -> Self {
        Self { _marker: PhantomData }
    }
}

impl<T> Logger<T> for NoopLogger<T> {
    fn log_item(&self, _item: T) -> (r: KvResult<()>)
        ensures
            r is Ok,
    {
        Ok(())
    }
}

} // verus!
