//! Entry metadata as the size-bounded policy writes it to the metadata
//! store: a hash of path, size, and last access time.

use crate::strutil::{i64_to_dec_string, spec_i64_dec, spec_u64_dec, u64_to_dec_string};
use vstd::prelude::*;
use vstd::string::*;

verus! {

/// Metadata of one entry of the size-bounded policy.
#[derive(Debug)]
pub struct LruCacheMetadata {
    pub size: u64,
    pub atime: i64,
}

/// One cache entry: metadata, a key, and an optional in-memory value.
#[derive(Hash, Eq, PartialEq, Debug)]
pub struct CacheEntry<Metadata, Key, Value> {
    pub metadata: Metadata,
    pub key: Key,
    pub value: Value,
}

impl CacheEntry<LruCacheMetadata, String, ()> {
    /// An entry for `path` of `size` bytes, last accessed at `now`.
    pub fn new(path: &str, size: u64, now: i64) -> (r: CacheEntry<LruCacheMetadata, String, ()>)
        ensures
            r.metadata.size == size,
            r.metadata.atime == now,
            r.key@ == path@,
    {
        CacheEntry {
            metadata: LruCacheMetadata { size: size, atime: now },
            key: String::from_str(path),
            value: (),
        }
    }

    /// The entry as the field names and rendered values of its hash.
    pub fn to_redis_multiple_fields(&self) -> (r: Vec<(&str, String)>)
        ensures
            r@.len() == 3,
            r@[0].0@ == "path"@ && r@[0].1@ == self.key@,
            r@[1].0@ == "size"@ && r@[1].1@ == spec_u64_dec(self.metadata.size as nat),
            r@[2].0@ == "atime"@ && r@[2].1@ == spec_i64_dec(self.metadata.atime as int),
    {
        let mut r: Vec<(&str, String)> = Vec::new();
        r.push(("path", self.key.clone()));
        r.push(("size", u64_to_dec_string(self.metadata.size)));
        r.push(("atime", i64_to_dec_string(self.metadata.atime)));
        r
    }
}

} // verus!
