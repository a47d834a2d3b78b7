//! The interface of a storage engine.

use vstd::prelude::*;
use crate::errors::KvsError;

verus! {

/// A storage engine: a mapping from keys to values that outlives the
/// process. A handle is cloned for each thread that uses the engine.
///
/// An engine is shared between threads and changes under every handle, so
/// nothing is said here of what a call gives. An engine may say that of
/// itself, in the three relations below, which hold of every result where
/// the engine says nothing; a caller learns from them which call was made,
/// and with which key and value.
pub trait KvsEngine: Clone + Send + 'static {
    /// Whether `r` is a result that this engine may give to a `set` of
    /// `key` to `value`.
    open spec fn set_gives(
        &self,
        key: Seq<char>,
        value: Seq<char>,
        r: Result<(), KvsError>,
    ) -> bool {
        true
    }

    /// Whether `r` is a result that this engine may give to a `get` of
    /// `key`.
    open spec fn get_gives(&self, key: Seq<char>, r: Result<Option<String>, KvsError>) -> bool {
        true
    }

    /// Whether `r` is a result that this engine may give to a `remove` of
    /// `key`.
    open spec fn remove_gives(&self, key: Seq<char>, r: Result<(), KvsError>) -> bool {
        true
    }

    /// Sets the value of a key: the key is added where the engine did not
    /// have it, and its value is replaced where it did.
    fn set(&self, key: String, value: String) -> (r: Result<(), KvsError>)
        ensures
            self.set_gives(key@, value@, r),
    ;

    /// The value of a key; `None` where the engine does not have the key.
    fn get(&self, key: String) -> (r: Result<Option<String>, KvsError>)
        ensures
            self.get_gives(key@, r),
    ;

    /// Removes a key. Fails with `NotFoundError` where the engine does not
    /// have it.
    fn remove(&self, key: String) -> (r: Result<(), KvsError>)
        ensures
            self.remove_gives(key@, r),
    ;
}

} // verus!
