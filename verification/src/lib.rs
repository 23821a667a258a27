//! Core of a caching reverse proxy: request keys, a size-bounded LRU policy
//! and a TTL policy over a shared metadata store and a local blob store, and
//! a task manager that routes requests and deduplicates background refills.

pub mod blob;
pub mod data;
pub mod entry;
pub mod kv;
pub mod lru;
pub mod policy;
pub mod store;
pub mod strutil;
pub mod task;
pub mod ttl;
