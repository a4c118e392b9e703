//! The interface of a storage engine.

use crate::error::KvsError;
use crate::kv::KvStore;
use crate::replay::Contents;
use vstd::prelude::*;

verus! {

/// A key–value storage engine.
///
/// An engine stands for a mapping from keys to values. An operation that
/// succeeds has the effect on the mapping that its name says; one that fails
/// says so, and a read never changes the mapping. A reliable engine fails
/// for no reason of its own: the only operation of it that fails is the
/// removal of a key that is absent.
pub trait KvsEngine {
    /// The invariant that the engine needs and keeps.
    spec fn valid(&self) -> bool;

    /// The mapping that the engine stands for.
    spec fn contents(&self) -> Contents;

    /// Whether the engine never fails for a reason of its own, such as an
    /// error of the storage under it.
    spec fn reliable(&self) -> bool;

    /// Sets the value of `key` to `value`.
    fn set(&mut self, key: String, value: String) -> (r: Result<(), KvsError>)
        requires
            old(self).valid(),
        ensures
            final(self).valid(),
            final(self).reliable() == old(self).reliable(),
            old(self).reliable() ==> r is Ok,
            r is Ok ==> final(self).contents() == old(self).contents().insert(key@, value@),
    ;

    /// Gets the value of `key`, or `None` where the key is absent.
    fn get(&mut self, key: String) -> (r: Result<Option<String>, KvsError>)
        requires
            old(self).valid(),
        ensures
            final(self).valid(),
            final(self).reliable() == old(self).reliable(),
            final(self).contents() == old(self).contents(),
            old(self).reliable() ==> r is Ok,
            r matches Ok(Some(value)) ==> old(self).contents().contains_key(key@) && old(self).contents()[key@] == value@,
            r matches Ok(None) ==> !old(self).contents().contains_key(key@),
    ;

    /// Removes `key`; fails with `KeyNotFound` where the key is absent.
    fn remove(&mut self, key: String) -> (r: Result<(), KvsError>)
        requires
            old(self).valid(),
        ensures
            final(self).valid(),
            final(self).reliable() == old(self).reliable(),
            old(self).reliable() ==> (r is Ok <==> old(self).contents().contains_key(key@)),
            old(self).reliable() ==> (r matches Err(e) ==> e is KeyNotFound),
            r is Ok ==> old(self).contents().contains_key(key@) && final(self).contents() == old(self).contents().remove(key@),
            r matches Err(KvsError::KeyNotFound) ==> !old(self).contents().contains_key(key@)
                && final(self).contents() == old(self).contents(),
    ;
}

impl KvsEngine for KvStore {
    open spec fn valid(&self) -> bool {
        self.wf()
    }

    open spec fn contents(&self) -> Contents {
        self@.contents()
    }

    open spec fn reliable(&self) -> bool {
        true
    }

    fn set(&mut self, key: String, value: String) -> (r: Result<(), KvsError>) {
        KvStore::set(self, key, value)
    }

    fn get(&mut self, key: String) -> (r: Result<Option<String>, KvsError>) {
        KvStore::get(self, key)
    }

    fn remove(&mut self, key: String) -> (r: Result<(), KvsError>) {
        KvStore::remove(self, key)
    }
}

} // verus!
