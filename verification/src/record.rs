//! Account records as the cache sees them.
//!
//! The cache treats an account as a small set of plain fields: the balance and
//! nonce, and a flag standing for the storage extension that readers
//! accumulate on the shared copy.  A basic copy strips the extension.

use vstd::prelude::*;

verus! {

/// An account record held in the cache.
#[derive(Clone, Copy, PartialEq, Eq, Structural, Debug)]
pub struct AccountRecord {
    /// Account balance.
    pub balance: u64,
    /// Account nonce.
    pub nonce: u64,
    /// Whether the storage extension has been populated on this copy.
    pub has_storage: bool,
}

/// The storage-less copy of a record that reads hand out.
pub open spec fn basic_of(a: AccountRecord) -> AccountRecord {
    AccountRecord { balance: a.balance, nonce: a.nonce, has_storage: false }
}

/// The record that results from publishing `n` onto an existing entry `e`:
/// the mutable fields are replaced, storage already accumulated is kept.
pub open spec fn overwritten(e: AccountRecord, n: AccountRecord) -> AccountRecord {
    AccountRecord { balance: n.balance, nonce: n.nonce, has_storage: e.has_storage || n.has_storage }
}

impl AccountRecord {
    /// A fresh record with no storage extension.
    pub fn new_basic(balance: u64, nonce: u64) -> (r: AccountRecord)
        ensures
            r == (AccountRecord { balance, nonce, has_storage: false }),
    {
        AccountRecord { balance, nonce, has_storage: false }
    }

    /// A storage-less shallow copy, as returned from cache reads.
    pub fn clone_basic(&self) -> (r: AccountRecord)
        ensures
            r == basic_of(*self),
    {
        AccountRecord { balance: self.balance, nonce: self.nonce, has_storage: false }
    }

    /// Replace the mutable fields with `other`'s when publishing a modified
    /// entry onto this one; storage accumulated on either copy is kept.
    pub fn overwrite_with(&mut self, other: AccountRecord)
        ensures
            *final(self) == overwritten(*old(self), other),
    {
        self.balance = other.balance;
        self.nonce = other.nonce;
        self.has_storage = self.has_storage || other.has_storage;
    }

    /// The account balance.
    pub fn balance(&self) -> (r: u64)
        ensures
            r == self.balance,
    {
        self.balance
    }

    /// The account nonce.
    pub fn nonce(&self) -> (r: u64)
        ensures
            r == self.nonce,
    {
        self.nonce
    }

    /// Mark the storage extension as populated on this copy.
    pub fn note_storage(&mut self)
        ensures
            *final(self) == (AccountRecord { has_storage: true, ..*old(self) }),
    {
        self.has_storage = true;
    }
}

} // verus!
