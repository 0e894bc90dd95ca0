//! An index-addressed lazy vector over a key-value backend.
//!
//! A bulk-encoded collection stored under one key makes every read or write
//! touch the whole collection. [`vector::StorageVec`] instead gives every
//! element its own backend slot, addressed by a deterministic function of the
//! vector's root key and the element's index, so single-element access cost
//! does not grow with the length of the vector.

pub mod backend;
pub mod codec;
pub mod keys;
pub mod lazy;
pub mod mapping;
pub mod vector;
