//! One slot of the open-addressing table: never occupied, holding a live
//! binding, or a tombstone left behind by a removal.
//!
//! Occupied slots and tombstones cache the key's 64-bit hash so that probing
//! and rehashing never recompute it.  A tombstone keeps its key and hash only
//! so that probe sequences that once passed through the slot still terminate
//! in the same place; its key is never read back as live data.

use vstd::prelude::*;

use crate::keys::{bytes_eq, AsBytes};

verus! {

/// One slot of the table.
pub enum Entry<K, V> {
    /// Never occupied since the last clear or rehash.
    Empty,
    /// A live binding, with the key's cached hash.
    Occupied(K, V, u64),
    /// A removed binding: the key and its cached hash remain only for
    /// probe-sequence comparisons.
    Tombstone(K, u64),
}

impl<K: AsBytes, V> Entry<K, V> {
    /// Whether a probe for a key with byte form `kb` hashing to `hash` stops
    /// at this slot: it is empty, or it holds that very key (live or as a
    /// tombstone).
    pub open spec fn spec_matches(self, kb: Seq<u8>, hash: u64) -> bool {
        match self {
            Entry::Empty => true,
            Entry::Occupied(k, _, h) => h == hash && k.bytes() == kb,
            Entry::Tombstone(k, h) => h == hash && k.bytes() == kb,
        }
    }

    /// Whether this slot is empty.
    pub fn is_empty(&self) -> (r: bool)
        ensures
            r == (self is Empty),
    {
        match self {
            Entry::Empty => true,
            _ => false,
        }
    }

    /// Whether this slot holds a live binding.
    pub fn is_full(&self) -> (r: bool)
        ensures
            r == (self is Occupied),
    {
        match self {
            Entry::Occupied(..) => true,
            _ => false,
        }
    }

    /// Whether this slot is a tombstone.
    pub fn is_ghost(&self) -> (r: bool)
        ensures
            r == (self is Tombstone),
    {
        match self {
            Entry::Tombstone(..) => true,
            _ => false,
        }
    }

    /// Whether a probe for `key` (hashing to `hash`) stops at this slot.
    /// The key may be of any serializable type: it is compared by byte form.
    pub fn matches<Q: AsBytes>(&self, key: &Q, hash: u64) -> (r: bool)
        ensures
            r == self.spec_matches(key.bytes(), hash),
    {
        match self {
            Entry::Empty => true,
            Entry::Occupied(k, _, h) => *h == hash && bytes_eq(&k.as_byte_vec(), &key.as_byte_vec()),
            Entry::Tombstone(k, h) => *h == hash && bytes_eq(&k.as_byte_vec(), &key.as_byte_vec()),
        }
    }

    /// The key of a live binding.
    pub fn key(&self) -> (r: Option<&K>)
        ensures
            match r {
                Some(k) => self is Occupied && k == &self->Occupied_0,
                None => !(self is Occupied),
            },
    {
        match self {
            Entry::Occupied(k, _, _) => Some(k),
            _ => None,
        }
    }

    /// The value of a live binding.
    pub fn value(&self) -> (r: Option<&V>)
        ensures
            match r {
                Some(v) => self is Occupied && v == &self->Occupied_1,
                None => !(self is Occupied),
            },
    {
        match self {
            Entry::Occupied(_, v, _) => Some(v),
            _ => None,
        }
    }
}

} // verus!
