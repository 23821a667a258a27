//! In-memory model of the blob store: payload bytes addressed by cache key.
//! Each cache instance owns one store rooted at a directory of its own; the
//! root is kept so a host can lay blobs out as `<root>/<cache_key>`.

use crate::kv::KvList;
use vstd::prelude::*;

verus! {

/// The payload store of one cache instance.
pub struct BlobStore {
    root_dir: String,
    blobs: KvList<Vec<u8>>,
}

impl View for BlobStore {
    type V = Map<Seq<char>, Seq<u8>>;

    closed spec fn view(&self) -> Map<Seq<char>, Seq<u8>> {
        self.blobs@
    }
}

impl BlobStore {
    pub closed spec fn wf(&self) -> bool {
        self.blobs.wf()
    }

    pub closed spec fn root(&self) -> Seq<char> {
        self.root_dir@
    }

    pub fn new(root_dir: &str) -> (r: Self)
        ensures
            r.wf(),
            r@ == Map::<Seq<char>, Seq<u8>>::empty(),
            r.root() == root_dir@,
    {
        BlobStore { root_dir: root_dir.to_owned(), blobs: KvList::new() }
    }

    pub fn root_dir(&self) -> (r: &String)
        ensures
            r@ == self.root(),
    {
        &self.root_dir
    }

    /// Writes `data` under `key`, replacing any previous blob.
    pub fn persist(&mut self, key: &String, data: Vec<u8>)
        requires
            old(self).wf(),
        ensures
            final(self).wf(),
            final(self)@ == old(self)@.insert(key@, data@),
            final(self).root() == old(self).root(),
    {
        self.blobs.insert(key, data);
    }

    /// Reads the blob under `key`, if present.
    pub fn read(&self, key: &String) -> (r: Option<Vec<u8>>)
        requires
            self.wf(),
        ensures
            match r {
                Some(v) => self@.dom().contains(key@) && v@ == self@[key@],
                None => !self@.dom().contains(key@),
            },
    {
        match self.blobs.get(key) {
            Some(v) => Some(v.clone()),
            None => None,
        }
    }

    /// Deletes the blob under `key`; deleting an absent blob is a no-op.
    pub fn remove(&mut self, key: &String)
        requires
            old(self).wf(),
        ensures
            final(self).wf(),
            final(self)@ == old(self)@.remove(key@),
            final(self).root() == old(self).root(),
    {
        self.blobs.remove(key);
    }

    /// The keys of all stored blobs, each exactly once.
    pub fn keys(&self) -> (r: Vec<String>)
        requires
            self.wf(),
        ensures
            forall|i: int| 0 <= i < r@.len() ==> self@.dom().contains(#[trigger] r@[i]@),
            forall|k: Seq<char>| #[trigger] self@.dom().contains(k) ==> exists|i: int|
                0 <= i < r@.len() && r@[i]@ == k,
            forall|i: int, j: int| 0 <= i < j < r@.len() ==> r@[i]@ != r@[j]@,
    {
        self.blobs.keys()
    }
}

} // verus!
