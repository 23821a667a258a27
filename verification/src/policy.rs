//! The cache-policy abstraction: the capability set every policy offers, a
//! no-op policy, and the closed sum of policies that the task manager wires
//! in. Policies sharing one metadata store stay independent as long as no
//! instance id is a prefix of another of the same kind.

use crate::data::{spec_data_bytes, spec_data_len, CacheData};
use crate::lru::{
    get_model, has_entry, lemma_isolation, lemma_put_no_new_entries, put_model,
    untouched_outside, LruRedisCache,
};
use crate::store::MetaStore;
use crate::strutil::{is_tagged, lemma_tag_disjoint, tagged};
use crate::ttl::{marker_key, TtlRedisCache};
use vstd::prelude::*;

verus! {

/// The shared capabilities of all cache policies: admit a payload, look one
/// up. Both keep the policy's own consistency against the store.
pub trait CachePolicy: Sized {
    /// The policy's consistency against the store.
    spec fn pol_inv(&self, s: MetaStore) -> bool;

    /// What the policy asks of the clock reading `now`.
    spec fn pol_now_ok(&self, now: i64) -> bool;

    fn put(&mut self, store: &mut MetaStore, now: i64, key: &str, entry: CacheData)
        requires
            old(store).wf(),
            old(self).pol_inv(*old(store)),
            old(self).pol_now_ok(now),
        ensures
            final(store).wf(),
            final(self).pol_inv(*final(store)),
    ;

    fn get(&mut self, store: &mut MetaStore, now: i64, key: &str) -> (r: Option<CacheData>)
        requires
            old(store).wf(),
            old(self).pol_inv(*old(store)),
        ensures
            final(store).wf(),
            final(self).pol_inv(*final(store)),
    ;
}

impl CachePolicy for LruRedisCache {
    open spec fn pol_inv(&self, s: MetaStore) -> bool {
        self.inv(s)
    }

    open spec fn pol_now_ok(&self, now: i64) -> bool {
        true
    }

    fn put(&mut self, store: &mut MetaStore, now: i64, key: &str, entry: CacheData) {
        LruRedisCache::put(self, store, now, key, entry);
    }

    fn get(&mut self, store: &mut MetaStore, now: i64, key: &str) -> (r: Option<CacheData>) {
        LruRedisCache::get(self, store, now, key)
    }
}

impl CachePolicy for TtlRedisCache {
    open spec fn pol_inv(&self, s: MetaStore) -> bool {
        self.inv(s)
    }

    open spec fn pol_now_ok(&self, now: i64) -> bool {
        0 <= now && now + self.spec_ttl() <= i64::MAX
    }

    fn put(&mut self, store: &mut MetaStore, now: i64, key: &str, entry: CacheData) {
        TtlRedisCache::put(self, store, now, key, entry);
    }

    fn get(&mut self, store: &mut MetaStore, now: i64, key: &str) -> (r: Option<CacheData>) {
        TtlRedisCache::get(self, store, now, key)
    }
}

/// The policy that stores nothing and never hits.
pub struct NoCache {}

impl CachePolicy for NoCache {
    open spec fn pol_inv(&self, s: MetaStore) -> bool {
        true
    }

    open spec fn pol_now_ok(&self, now: i64) -> bool {
        true
    }

    fn put(&mut self, store: &mut MetaStore, now: i64, key: &str, entry: CacheData) {
    }

    fn get(&mut self, store: &mut MetaStore, now: i64, key: &str) -> (r: Option<CacheData>)
        ensures
            r is None,
    {
        None
    }
}

/// The closed sum of policies a route can be wired to.
pub enum Policy {
    Lru(LruRedisCache),
    Ttl(TtlRedisCache),
    NoCache(NoCache),
}

/// What identifies a policy for independence: its kind, its instance id,
/// and its bound.
pub ghost enum PolSig {
    Lru { id: Seq<char>, limit: u64 },
    Ttl { id: Seq<char>, ttl: u64 },
    NoCache,
}

/// Two policies of the same kind interfere only through their id prefixes;
/// policies of different kinds use disjoint tables or key shapes.
pub open spec fn independent(a: PolSig, b: PolSig) -> bool {
    match (a, b) {
        (PolSig::Lru { id: x, .. }, PolSig::Lru { id: y, .. }) => !x.is_prefix_of(y)
            && !y.is_prefix_of(x),
        (PolSig::Ttl { id: x, .. }, PolSig::Ttl { id: y, .. }) => !x.is_prefix_of(y)
            && !y.is_prefix_of(x),
        _ => true,
    }
}

/// The marker keys of a time-to-live instance.
pub open spec fn slash_keys(id: Seq<char>) -> Set<Seq<char>> {
    Set::new(|k: Seq<char>| is_tagged(id, '/', k))
}

/// What a policy operation may have changed in the store.
pub open spec fn touched_only(sig: PolSig, s1: MetaStore, s2: MetaStore) -> bool {
    match sig {
        PolSig::Lru { id, .. } => untouched_outside(s1, s2, id),
        PolSig::Ttl { id, .. } => {
            &&& s2.counters_view() == s1.counters_view()
            &&& s2.hashes_view() == s1.hashes_view()
            &&& s2.zsets_view() == s1.zsets_view()
            &&& s2.strings_view().remove_keys(slash_keys(id)) == s1.strings_view().remove_keys(
                slash_keys(id),
            )
        },
        PolSig::NoCache => s2 == s1,
    }
}

impl Policy {
    pub open spec fn sig(&self) -> PolSig {
        match self {
            Policy::Lru(c) => PolSig::Lru { id: c.spec_id(), limit: c.spec_limit() },
            Policy::Ttl(c) => PolSig::Ttl { id: c.spec_id(), ttl: c.spec_ttl() },
            Policy::NoCache(_) => PolSig::NoCache,
        }
    }

    /// The policy's consistency against the store.
    pub open spec fn pinv(&self, s: MetaStore) -> bool {
        match self {
            Policy::Lru(c) => c.inv(s),
            Policy::Ttl(c) => c.inv(s),
            Policy::NoCache(_) => true,
        }
    }

    /// What the policy asks of the clock reading `now`.
    pub open spec fn now_ok(&self, now: i64) -> bool {
        match self {
            Policy::Ttl(c) => 0 <= now && now + c.spec_ttl() <= i64::MAX,
            _ => true,
        }
    }

    /// Whether `key` would hit at `now`.
    pub open spec fn key_present(&self, s: MetaStore, key: Seq<char>, now: i64) -> bool {
        match self {
            Policy::Lru(c) => has_entry(c.spec_entries(s), tagged(c.spec_id(), '_', key)),
            Policy::Ttl(c) => s.str_alive(marker_key(c.spec_id(), key), now),
            Policy::NoCache(_) => false,
        }
    }

    /// The payload stored under `key`.
    pub open spec fn blob_of(&self, key: Seq<char>) -> Seq<u8> {
        match self {
            Policy::Lru(c) => c.blobs()[key],
            Policy::Ttl(c) => c.blobs()[key],
            Policy::NoCache(_) => Seq::empty(),
        }
    }

    /// Whether the policy admits a payload of this accounted length.
    pub open spec fn admits(&self, len: Option<nat>) -> bool {
        match self {
            Policy::Lru(c) => match len {
                Some(sz) => sz <= c.spec_limit(),
                None => false,
            },
            Policy::Ttl(c) => c.spec_ttl() >= 1,
            Policy::NoCache(_) => false,
        }
    }

    /// Admits `entry` under `key` by the policy's own rule.
    pub fn put(&mut self, store: &mut MetaStore, now: i64, key: &str, entry: CacheData)
        requires
            old(store).wf(),
            old(self).pinv(*old(store)),
            old(self).now_ok(now),
        ensures
            final(store).wf(),
            final(self).pinv(*final(store)),
            final(self).sig() == old(self).sig(),
            touched_only(old(self).sig(), *old(store), *final(store)),
            old(self).admits(spec_data_len(entry)) ==> final(self).key_present(
                *final(store),
                key@,
                now,
            ) && final(self).blob_of(key@) == spec_data_bytes(entry),
            forall|k: Seq<char>|
                k != key@ && final(self).key_present(*final(store), k, now) ==> old(
                    self,
                ).key_present(*old(store), k, now),
    {
        match self {
            Policy::Lru(c) => {
                let ghost c0 = *c;
                let ghost m0 = c.model(*store);
                let ghost id = c.spec_id();
                let ghost limit = c.spec_limit();
                c.put(store, now, key, entry);
                proof {
                    assert(*old(self) == Policy::Lru(c0));
                    match spec_data_len(entry) {
                        Some(sz) => {
                            if sz <= limit {
                                let mp = put_model(
                                    m0,
                                    id,
                                    key@,
                                    spec_data_bytes(entry),
                                    sz as u64,
                                    now,
                                    limit,
                                );
                                let m1 = crate::lru::evict_model(m0, id, sz as u64, limit);
                                let rk = tagged(id, '_', key@);
                                if has_entry(m1.entries, rk) {
                                    let j = crate::lru::entry_idx(m1.entries, rk);
                                    assert(mp.entries[j].0 == rk);
                                } else {
                                    assert(mp.entries[mp.entries.len() - 1].0 == rk);
                                }
                                assert(has_entry(mp.entries, rk));
                            }
                        },
                        None => {},
                    }
                    assert forall|k: Seq<char>|
                        k != key@ && final(self).key_present(*final(store), k, now) implies old(
                        self,
                    ).key_present(*old(store), k, now) by {
                        match spec_data_len(entry) {
                            Some(sz) => {
                                if sz <= limit {
                                    crate::strutil::lemma_tagged_roundtrip(id, '_', k);
                                    crate::strutil::lemma_tagged_roundtrip(id, '_', key@);
                                    lemma_put_no_new_entries(
                                        m0,
                                        id,
                                        key@,
                                        spec_data_bytes(entry),
                                        sz as u64,
                                        now,
                                        limit,
                                        tagged(id, '_', k),
                                    );
                                }
                            },
                            None => {},
                        }
                    }
                }
            },
            Policy::Ttl(c) => {
                let ghost c0 = *c;
                c.put(store, now, key, entry);
                proof {
                    assert(*old(self) == Policy::Ttl(c0));
                    crate::strutil::lemma_tagged_roundtrip(c0.spec_id(), '/', key@);
                    assert(final(store).strings_view().remove_keys(slash_keys(c0.spec_id()))
                        =~= old(store).strings_view().remove_keys(slash_keys(c0.spec_id())));
                    assert forall|k: Seq<char>|
                        k != key@ && final(self).key_present(*final(store), k, now) implies old(
                        self,
                    ).key_present(*old(store), k, now) by {
                        crate::strutil::lemma_tagged_roundtrip(c0.spec_id(), '/', k);
                        crate::strutil::lemma_tagged_roundtrip(c0.spec_id(), '/', key@);
                    }
                }
            },
            Policy::NoCache(_) => {},
        }
    }

    /// Looks `key` up by the policy's own rule.
    pub fn get(&mut self, store: &mut MetaStore, now: i64, key: &str) -> (r: Option<CacheData>)
        requires
            old(store).wf(),
            old(self).pinv(*old(store)),
        ensures
            final(store).wf(),
            final(self).pinv(*final(store)),
            final(self).sig() == old(self).sig(),
            touched_only(old(self).sig(), *old(store), *final(store)),
            r is Some <==> old(self).key_present(*old(store), key@, now),
            match r {
                Some(d) => spec_data_bytes(d) == old(self).blob_of(key@),
                None => true,
            },
            forall|k: Seq<char>| final(self).key_present(*final(store), k, now) == old(
                self,
            ).key_present(*old(store), k, now),
    {
        match self {
            Policy::Lru(c) => {
                let ghost c0 = *c;
                let ghost m0 = c.model(*store);
                let ghost id = c.spec_id();
                let r = c.get(store, now, key);
                proof {
                    assert(*old(self) == Policy::Lru(c0));
                    let mg = get_model(m0, id, key@, now);
                    assert(mg.entries.len() == m0.entries.len());
                    assert forall|i: int|
                        0 <= i < m0.entries.len() implies (#[trigger] mg.entries[i]).0
                        == m0.entries[i].0 by {
                        if has_entry(m0.entries, tagged(id, '_', key@)) {
                            let j = crate::lru::entry_idx(m0.entries, tagged(id, '_', key@));
                            assert(m0.entries[j].0 == tagged(id, '_', key@));
                        }
                    }
                    assert forall|m: Seq<char>| has_entry(mg.entries, m) == has_entry(
                        m0.entries,
                        m,
                    ) by {
                        if has_entry(mg.entries, m) {
                            let j = choose|j: int|
                                0 <= j < mg.entries.len() && mg.entries[j].0 == m;
                            assert(m0.entries[j].0 == m);
                        }
                        if has_entry(m0.entries, m) {
                            let j = choose|j: int|
                                0 <= j < m0.entries.len() && m0.entries[j].0 == m;
                            assert(mg.entries[j].0 == m);
                        }
                    }
                }
                r
            },
            Policy::Ttl(c) => {
                let ghost c0 = *c;
                let r = c.get(store, now, key);
                proof {
                    assert(*old(self) == Policy::Ttl(c0));
                }
                r
            },
            Policy::NoCache(_) => None,
        }
    }
}


/// An operation of one policy preserves the consistency of any independent
/// policy against the shared store.
pub proof fn lemma_policy_frame(p: PolSig, s1: MetaStore, s2: MetaStore, q: Policy)
    requires
        q.pinv(s1),
        touched_only(p, s1, s2),
        independent(q.sig(), p),
    ensures
        q.pinv(s2),
{
    match q {
        Policy::Lru(c) => {
            match p {
                PolSig::Lru { id, .. } => {
                    lemma_isolation(s1, s2, c, id);
                },
                PolSig::Ttl { id, .. } => {
                    assert(c.spec_entries(s2) =~= c.spec_entries(s1));
                    assert(c.inv(s2));
                },
                PolSig::NoCache => {},
            }
        },
        Policy::Ttl(c) => {
            match p {
                PolSig::Lru { id, .. } => {
                    assert(c.inv(s2));
                },
                PolSig::Ttl { id, .. } => {
                    assert forall|m: Seq<char>|
                        s2.strings_view().dom().contains(m) && is_tagged(
                            c.spec_id(),
                            '/',
                            m,
                        ) implies c.blobs().dom().contains(
                        crate::strutil::tag_rest(c.spec_id(), m),
                    ) by {
                        lemma_tag_disjoint(id, '/', c.spec_id(), '/', m);
                        assert(!slash_keys(id).contains(m));
                        assert(s2.strings_view().remove_keys(slash_keys(id)).dom().contains(m));
                        assert(s1.strings_view().dom().contains(m));
                    }
                },
                PolSig::NoCache => {},
            }
        },
        Policy::NoCache(_) => {},
    }
}

} // verus!
