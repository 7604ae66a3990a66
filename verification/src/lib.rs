//! A small, encrypted, persistent key-value store.
//!
//! The store keeps an ordered map from composite string keys to byte blobs,
//! guarded by a reader/writer lock. Values are sealed with an authenticated
//! cipher when a password is configured, namespaces multiplex logical
//! sub-stores over one physical map by key prefixing, and the whole store
//! serializes to a single length-prefixed byte record for persistence.

pub mod crypto;
pub mod errors;
pub mod kv;
pub mod namespace;
pub mod persist;
pub mod storage;
pub mod strkit;

pub use crate::kv::MicroKV;
