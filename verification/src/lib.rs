//! A minimal embedded persistent key-value store.
//!
//! The store keeps an in-memory map from string keys to encoded byte
//! payloads and re-encodes the whole map into one snapshot after every
//! mutation.  The caller is responsible for carrying snapshots to and
//! from durable storage; everything the store decides about its contents
//! is specified and verified here.

pub mod codec;
pub mod store;
