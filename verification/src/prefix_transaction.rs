//! A part of a database that belongs to one user: every key is written
//! behind the user's prefix, so that users who share a database never meet.

use vstd::prelude::*;
use crate::codec::{be_bytes, put_be, put_bytes};
use crate::errors::StorageError;
use crate::storage::{state_del, state_get, state_put, Database, Transaction};

verus! {

/// The key behind a prefix: the prefix in four bytes, the most significant
/// first, then the key.
pub open spec fn prefixed_key(prefix: u32, key: Seq<u8>) -> Seq<u8> {
    be_bytes(prefix as nat, 4) + key
}

/// The prefix under which one user reads and writes.
#[derive(Clone, Copy, Debug, PartialEq, Eq, Structural)]
pub struct PrefixTransaction {
    pub prefix: u32,
}

impl PrefixTransaction {
    pub fn new(prefix: u32) -> (res: Self)
        ensures
            res.prefix == prefix,
    {
        PrefixTransaction { prefix }
    }

    /// The key behind the prefix.
    pub fn key(&self, key: &[u8]) -> (res: Vec<u8>)
        ensures
            res@ == prefixed_key(self.prefix, key@),
    {
        let mut out: Vec<u8> = Vec::new();
        put_be(&mut out, self.prefix as u128, 4);
        put_bytes(&mut out, key);
        out
    }

    /// The first value under `key` behind the prefix.
    pub fn get(&self, txn: &Transaction, db: Database, key: &[u8]) -> (res: Result<
        Option<Vec<u8>>,
        StorageError,
    >)
        ensures
            match state_get(txn@, db, prefixed_key(self.prefix, key@)) {
                Ok(Some(v)) => res matches Ok(Some(r)) && r@ == v,
                Ok(None) => res matches Ok(None),
                Err(e) => res matches Err(r) && r == e,
            },
    {
        let full = self.key(key);
        txn.get(db, full.as_slice())
    }

    /// Puts `value` under `key` behind the prefix.
    pub fn put(&self, txn: &mut Transaction, db: Database, key: &[u8], value: &[u8]) -> (res:
        Result<(), StorageError>)
        ensures
            final(txn)@ == state_put(old(txn)@, db, prefixed_key(self.prefix, key@), value@),
            db.id < old(txn)@.len() ==> res is Ok,
            db.id >= old(txn)@.len() ==> res == Err::<(), StorageError>(
                StorageError::InvalidDatabase,
            ),
    {
        let full = self.key(key);
        txn.put(db, full.as_slice(), value)
    }

    /// Deletes what is under `key` behind the prefix. Says whether there
    /// was anything.
    pub fn del(&self, txn: &mut Transaction, db: Database, key: &[u8]) -> (res: Result<
        bool,
        StorageError,
    >)
        ensures
            final(txn)@ == state_del(old(txn)@, db, prefixed_key(self.prefix, key@), None),
            db.id < old(txn)@.len() ==> res == Ok::<bool, StorageError>(
                old(txn)@[db.id as int].data.contains_key(prefixed_key(self.prefix, key@)),
            ),
            db.id >= old(txn)@.len() ==> res == Err::<bool, StorageError>(
                StorageError::InvalidDatabase,
            ),
    {
        let full = self.key(key);
        txn.del(db, full.as_slice(), None)
    }
}

} // verus!
