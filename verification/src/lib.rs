//! An associative container built on open addressing: a DJB-style byte hash,
//! Python-dictionary-inspired perturbed probing, and tombstones for deletion,
//! together with the small search helpers that its callers use (binary
//! insertion points, combination and permutation enumeration, and the
//! word-list dictionary routines).

pub mod anadict;
pub mod bisect;
pub mod combinations;
pub mod entry;
pub mod hasher;
pub mod keys;
pub mod laws;
pub mod map;
pub mod probe;
pub mod set;
pub mod words;
