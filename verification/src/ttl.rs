//! The time-to-live cache policy. A put writes the payload and a marker in
//! the metadata store that expires after the configured duration; a get
//! serves the payload while the marker lives. Expired payloads are deleted
//! by a reaper driven by keyspace events; its connection handling is a small
//! state machine, and its cumulative effect up to a point in time is the
//! sweep `reap`.

use crate::blob::BlobStore;
use crate::data::{spec_data_bytes, CacheData};
use crate::store::{MetaStore, StrSnap};
use crate::strutil::{
    find_char, is_tagged, lemma_tagged_reconstruct, lemma_tagged_roundtrip, str_has_prefix,
    strip_tag, tag_key, tag_rest, tagged,
};
use vstd::prelude::*;
use vstd::string::*;

verus! {

/// The expiring marker key of `cache_key` under instance `id`.
pub open spec fn marker_key(id: Seq<char>, cache_key: Seq<char>) -> Seq<char> {
    tagged(id, '/', cache_key)
}

/// A cache instance whose entries expire `ttl` seconds after they are put.
pub struct TtlRedisCache {
    storage: BlobStore,
    pub ttl: u64,
    id: String,
}

impl TtlRedisCache {
    pub closed spec fn spec_id(&self) -> Seq<char> {
        self.id@
    }

    pub closed spec fn spec_ttl(&self) -> u64 {
        self.ttl
    }

    pub closed spec fn blobs(&self) -> Map<Seq<char>, Seq<u8>> {
        self.storage@
    }

    pub closed spec fn storage_wf(&self) -> bool {
        self.storage.wf()
    }

    /// Every marker of this instance, live or expired, still has its
    /// payload until the reaper deletes both.
    pub open spec fn inv(&self, s: MetaStore) -> bool {
        &&& self.storage_wf()
        &&& forall|m: Seq<char>|
            #![trigger s.strings_view().dom().contains(m)]
            s.strings_view().dom().contains(m) && is_tagged(self.spec_id(), '/', m)
                ==> self.blobs().dom().contains(tag_rest(self.spec_id(), m))
    }

    /// A store holding no marker of this instance.
    pub open spec fn fresh_for(&self, s: MetaStore) -> bool {
        forall|m: Seq<char>|
            #![trigger s.strings_view().dom().contains(m)]
            s.strings_view().dom().contains(m) ==> !is_tagged(self.spec_id(), '/', m)
    }

    /// A new instance rooted at `root_dir` whose entries live `ttl` seconds.
    pub fn new(root_dir: &str, ttl: u64, id: &str) -> (r: Self)
        ensures
            r.spec_id() == id@,
            r.spec_ttl() == ttl,
            r.blobs() == Map::<Seq<char>, Seq<u8>>::empty(),
            r.storage_wf(),
            forall|s: MetaStore| r.fresh_for(s) ==> r.inv(s),
    {
        TtlRedisCache { storage: BlobStore::new(root_dir), ttl: ttl, id: id.to_owned() }
    }

    /// The marker key of `cache_key` under instance `id`.
    pub fn to_redis_key(id: &str, cache_key: &str) -> (r: String)
        ensures
            r@ == marker_key(id@, cache_key@),
    {
        proof {
            reveal_strlit("/");
        }
        tag_key(id, "/", cache_key)
    }

    /// The cache key that the marker key `key` stands for.
    pub fn from_redis_key(id: &str, key: &str) -> (r: String)
        requires
            id@.len() + 1 <= key@.len(),
        ensures
            r@ == tag_rest(id@, key@),
    {
        strip_tag(id, key)
    }

    /// Writes the payload and a marker that expires `ttl` seconds after
    /// `now`.
    pub fn put(&mut self, store: &mut MetaStore, now: i64, key: &str, entry: CacheData)
        requires
            old(store).wf(),
            old(self).inv(*old(store)),
            0 <= now,
            now + old(self).spec_ttl() <= i64::MAX,
        ensures
            final(store).wf(),
            final(self).inv(*final(store)),
            final(self).spec_id() == old(self).spec_id(),
            final(self).spec_ttl() == old(self).spec_ttl(),
            final(self).blobs() == old(self).blobs().insert(key@, spec_data_bytes(entry)),
            final(store).strings_view() == old(store).strings_view().insert(
                marker_key(old(self).spec_id(), key@),
                StrSnap {
                    value: Seq::empty(),
                    expire_at: Some((now + old(self).spec_ttl()) as i64),
                },
            ),
            final(store).counters_view() == old(store).counters_view(),
            final(store).hashes_view() == old(store).hashes_view(),
            final(store).zsets_view() == old(store).zsets_view(),
    {
        let ghost id = old(self).spec_id();
        let redis_key = Self::to_redis_key(self.id.as_str(), key);
        let filename = String::from_str(key);
        self.storage.persist(&filename, entry.to_vec());
        store.str_set(&redis_key, "");
        let expire_at = now + (self.ttl as i64);
        store.str_expire(&redis_key, expire_at);
        proof {
            reveal_strlit("");
            assert(""@ =~= Seq::<char>::empty());
            assert(final(store).strings_view() =~= old(store).strings_view().insert(
                marker_key(id, key@),
                StrSnap { value: Seq::empty(), expire_at: Some(expire_at) },
            ));
            lemma_tagged_roundtrip(id, '/', key@);
            assert forall|m: Seq<char>|
                final(store).strings_view().dom().contains(m) && is_tagged(
                    id,
                    '/',
                    m,
                ) implies final(self).blobs().dom().contains(tag_rest(id, m)) by {
                if m != marker_key(id, key@) {
                    assert(old(store).strings_view().dom().contains(m));
                }
            }
        }
    }

    /// Serves the payload of `key` while its marker is alive at `now`.
    pub fn get(&mut self, store: &mut MetaStore, now: i64, key: &str) -> (r: Option<CacheData>)
        requires
            old(store).wf(),
            old(self).inv(*old(store)),
        ensures
            *final(self) == *old(self),
            *final(store) == *old(store),
            match r {
                Some(d) => old(store).str_alive(marker_key(old(self).spec_id(), key@), now)
                    && spec_data_bytes(d) == old(self).blobs()[key@],
                None => !old(store).str_alive(marker_key(old(self).spec_id(), key@), now),
            },
    {
        let ghost id = self.spec_id();
        let redis_key = Self::to_redis_key(self.id.as_str(), key);
        let filename = String::from_str(key);
        match store.str_get(&redis_key, now) {
            Some(_) => {
                proof {
                    lemma_tagged_roundtrip(id, '/', key@);
                }
                match self.storage.read(&filename) {
                    Some(v) => Some(CacheData::from_vec(v)),
                    None => {
                        // every marker keeps its payload until the reaper
                        // removes both, so a live marker always finds it
                        proof {
                            assert(false);
                        }
                        None
                    },
                }
            },
            None => None,
        }
    }

    /// The stored payload of `key`, read without consulting the marker.
    pub fn read_blob(&self, key: &str) -> (r: Option<Vec<u8>>)
        requires
            self.storage_wf(),
        ensures
            match r {
                Some(v) => self.blobs().dom().contains(key@) && v@ == self.blobs()[key@],
                None => !self.blobs().dom().contains(key@),
            },
    {
        self.storage.read(&String::from_str(key))
    }

    /// Handles one keyspace event: when `channel` names an expired marker of
    /// this instance, the marker and its payload are deleted.
    pub fn handle_expiry(&mut self, store: &mut MetaStore, channel: &str)
        requires
            old(store).wf(),
            old(self).inv(*old(store)),
        ensures
            final(store).wf(),
            final(self).inv(*final(store)),
            final(self).spec_id() == old(self).spec_id(),
            final(self).spec_ttl() == old(self).spec_ttl(),
            match spec_parse_channel(old(self).spec_id(), channel@) {
                Some(f) => final(self).blobs() == old(self).blobs().remove(f)
                    && final(store).strings_view() == old(store).strings_view().remove(
                    marker_key(old(self).spec_id(), f),
                ),
                None => final(self).blobs() == old(self).blobs() && final(store).strings_view()
                    == old(store).strings_view(),
            },
            final(store).counters_view() == old(store).counters_view(),
            final(store).hashes_view() == old(store).hashes_view(),
            final(store).zsets_view() == old(store).zsets_view(),
    {
        let ghost id = old(self).spec_id();
        match parse_event_channel(self.id.as_str(), channel) {
            Some(file) => {
                let marker = Self::to_redis_key(self.id.as_str(), file.as_str());
                self.storage.remove(&file);
                store.str_remove(&marker);
                proof {
                    lemma_tagged_roundtrip(id, '/', file@);
                    assert forall|m: Seq<char>|
                        final(store).strings_view().dom().contains(m) && is_tagged(
                            id,
                            '/',
                            m,
                        ) implies final(self).blobs().dom().contains(tag_rest(id, m)) by {
                        assert(old(store).strings_view().dom().contains(m));
                        lemma_tagged_reconstruct(id, '/', m);
                        assert(tag_rest(id, m) != file@);
                    }
                }
            },
            None => {},
        }
    }

    /// Deletes every payload whose marker has expired by `now`, and the
    /// expired markers themselves: the cumulative effect of the expiry
    /// events up to `now`. Afterwards no payload of an expired entry
    /// remains.
    pub fn reap(&mut self, store: &mut MetaStore, now: i64)
        requires
            old(store).wf(),
            old(self).inv(*old(store)),
        ensures
            final(store).wf(),
            final(self).inv(*final(store)),
            final(self).spec_id() == old(self).spec_id(),
            final(self).spec_ttl() == old(self).spec_ttl(),
            forall|k: Seq<char>|
                #![trigger final(self).blobs().dom().contains(k)]
                final(self).blobs().dom().contains(k) <==> old(self).blobs().dom().contains(k)
                    && old(store).str_alive(marker_key(old(self).spec_id(), k), now),
            forall|k: Seq<char>|
                #![trigger final(self).blobs()[k]]
                final(self).blobs().dom().contains(k) ==> final(self).blobs()[k] == old(
                    self,
                ).blobs()[k],
            forall|m: Seq<char>|
                #![trigger final(store).strings_view().dom().contains(m)]
                !(is_tagged(old(self).spec_id(), '/', m) && old(self).blobs().dom().contains(
                    tag_rest(old(self).spec_id(), m),
                ) && !old(store).str_alive(m, now)) ==> (final(store).strings_view().dom().contains(
                    m,
                ) == old(store).strings_view().dom().contains(m) && (old(
                    store,
                ).strings_view().dom().contains(m) ==> final(store).strings_view()[m] == old(
                    store,
                ).strings_view()[m])),
            final(store).counters_view() == old(store).counters_view(),
            final(store).hashes_view() == old(store).hashes_view(),
            final(store).zsets_view() == old(store).zsets_view(),
    {
        let ghost id = old(self).spec_id();
        let keys = self.storage.keys();
        let n = keys.len();
        let mut i: usize = 0;
        while i < n
            invariant
                store.wf(),
                self.storage_wf(),
                self.spec_id() == id,
                self.spec_ttl() == old(self).spec_ttl(),
                n == keys@.len(),
                i <= n,
                forall|j: int| 0 <= j < n ==> old(self).blobs().dom().contains(
                    #[trigger] keys@[j]@,
                ),
                forall|j1: int, j2: int| 0 <= j1 < j2 < n ==> keys@[j1]@ != keys@[j2]@,
                // processed dead keys are gone, with their markers
                forall|j: int|
                    #![trigger keys@[j]]
                    0 <= j < i && !old(store).str_alive(marker_key(id, keys@[j]@), now)
                        ==> !self.blobs().dom().contains(keys@[j]@) && !store.strings_view().dom()
                        .contains(marker_key(id, keys@[j]@)),
                // everything else is as it was
                forall|k: Seq<char>|
                    #![trigger self.blobs().dom().contains(k)]
                    #![trigger self.blobs()[k]]
                    !(exists|j: int|
                        0 <= j < i && keys@[j]@ == k && !old(store).str_alive(
                            marker_key(id, k),
                            now,
                        )) ==> (self.blobs().dom().contains(k) == old(self).blobs().dom().contains(
                        k,
                    ) && (old(self).blobs().dom().contains(k) ==> self.blobs()[k] == old(
                        self,
                    ).blobs()[k])),
                forall|m: Seq<char>|
                    #![trigger store.strings_view().dom().contains(m)]
                    !(exists|j: int|
                        0 <= j < i && m == marker_key(id, keys@[j]@) && !old(store).str_alive(
                            m,
                            now,
                        )) ==> (store.strings_view().dom().contains(m) == old(
                        store,
                    ).strings_view().dom().contains(m) && (old(store).strings_view().dom().contains(
                        m,
                    ) ==> store.strings_view()[m] == old(store).strings_view()[m])),
                store.counters_view() == old(store).counters_view(),
                store.hashes_view() == old(store).hashes_view(),
                store.zsets_view() == old(store).zsets_view(),
            decreases n - i,
        {
            let k = &keys[i];
            let marker = Self::to_redis_key(self.id.as_str(), k.as_str());
            proof {
                assert(marker@ == marker_key(id, keys@[i as int]@));
                // this key was not processed before, so its marker is intact
                assert(!(exists|j: int|
                    0 <= j < i && marker@ == marker_key(id, keys@[j]@) && !old(store).str_alive(
                        marker@,
                        now,
                    ))) by {
                    if exists|j: int|
                        0 <= j < i && marker@ == marker_key(id, keys@[j]@) && !old(
                            store,
                        ).str_alive(marker@, now) {
                        let j = choose|j: int|
                            0 <= j < i && marker@ == marker_key(id, keys@[j]@) && !old(
                                store,
                            ).str_alive(marker@, now);
                        lemma_tagged_roundtrip(id, '/', keys@[j]@);
                        lemma_tagged_roundtrip(id, '/', keys@[i as int]@);
                        assert(keys@[j]@ == keys@[i as int]@);
                    }
                }
            }
            let alive = store.str_is_alive(&marker, now);
            proof {
                assert(alive == old(store).str_alive(marker@, now));
            }
            let ghost self_mid = *self;
            let ghost store_mid = *store;
            if !alive {
                self.storage.remove(k);
                store.str_remove(&marker);
                proof {
                    assert(self.blobs() == self_mid.blobs().remove(keys@[i as int]@));
                    assert(store.strings_view() == store_mid.strings_view().remove(marker@));
                    assert forall|m: Seq<char>|
                        !(exists|j: int|
                            0 <= j < i + 1 && m == marker_key(id, keys@[j]@) && !old(
                                store,
                            ).str_alive(m, now)) implies (store.strings_view().dom().contains(m)
                        == old(store).strings_view().dom().contains(m) && (old(
                        store,
                    ).strings_view().dom().contains(m) ==> store.strings_view()[m] == old(
                        store,
                    ).strings_view()[m])) by {
                        if m == marker@ {
                            assert(marker@ == marker_key(id, keys@[i as int]@));
                            assert(false);
                        } else {
                            assert(!(exists|j: int|
                                0 <= j < i && m == marker_key(id, keys@[j]@) && !old(
                                    store,
                                ).str_alive(m, now)));
                            assert(store_mid.strings_view().dom().contains(m) == old(
                                store,
                            ).strings_view().dom().contains(m));
                            assert(store.strings_view().dom().contains(m)
                                == store_mid.strings_view().dom().contains(m));
                        }
                    }
                    assert forall|k2: Seq<char>|
                        !(exists|j: int|
                            0 <= j < i + 1 && keys@[j]@ == k2 && !old(store).str_alive(
                                marker_key(id, k2),
                                now,
                            )) implies (self.blobs().dom().contains(k2) == old(
                        self,
                    ).blobs().dom().contains(k2) && (old(self).blobs().dom().contains(k2)
                        ==> self.blobs()[k2] == old(self).blobs()[k2])) by {
                        if k2 == keys@[i as int]@ {
                            assert(false);
                        } else {
                            assert(!(exists|j: int|
                                0 <= j < i && keys@[j]@ == k2 && !old(store).str_alive(
                                    marker_key(id, k2),
                                    now,
                                )));
                            assert(self_mid.blobs().dom().contains(k2) == old(
                                self,
                            ).blobs().dom().contains(k2));
                            assert(self.blobs().dom().contains(k2) == self_mid.blobs()
                                .dom()
                                .contains(k2));
                        }
                    }
                }
            } else {
                proof {
                    assert forall|m: Seq<char>|
                        !(exists|j: int|
                            0 <= j < i + 1 && m == marker_key(id, keys@[j]@) && !old(
                                store,
                            ).str_alive(m, now)) implies (store.strings_view().dom().contains(m)
                        == old(store).strings_view().dom().contains(m) && (old(
                        store,
                    ).strings_view().dom().contains(m) ==> store.strings_view()[m] == old(
                        store,
                    ).strings_view()[m])) by {
                        assert(!(exists|j: int|
                            0 <= j < i && m == marker_key(id, keys@[j]@) && !old(store).str_alive(
                                m,
                                now,
                            )));
                    }
                    assert forall|k2: Seq<char>|
                        !(exists|j: int|
                            0 <= j < i + 1 && keys@[j]@ == k2 && !old(store).str_alive(
                                marker_key(id, k2),
                                now,
                            )) implies (self.blobs().dom().contains(k2) == old(
                        self,
                    ).blobs().dom().contains(k2) && (old(self).blobs().dom().contains(k2)
                        ==> self.blobs()[k2] == old(self).blobs()[k2])) by {
                        assert(!(exists|j: int|
                            0 <= j < i && keys@[j]@ == k2 && !old(store).str_alive(
                                marker_key(id, k2),
                                now,
                            )));
                    }
                }
            }
            i = i + 1;
        }
        proof {
            // every surviving payload still has a live marker, every dead
            // one is gone
            assert forall|k: Seq<char>|
                #![trigger self.blobs().dom().contains(k)]
                self.blobs().dom().contains(k) <==> old(self).blobs().dom().contains(k) && old(
                    store,
                ).str_alive(marker_key(id, k), now) by {
                if old(self).blobs().dom().contains(k) && !old(store).str_alive(
                    marker_key(id, k),
                    now,
                ) {
                    let j = choose|j: int| 0 <= j < n && keys@[j]@ == k;
                    assert(!self.blobs().dom().contains(k));
                }
                if self.blobs().dom().contains(k) {
                    assert(old(self).blobs().dom().contains(k));
                }
            }
            assert forall|m: Seq<char>|
                !(is_tagged(id, '/', m) && old(self).blobs().dom().contains(tag_rest(id, m))
                    && !old(store).str_alive(m, now)) implies (store.strings_view().dom().contains(
                    m,
                ) == old(store).strings_view().dom().contains(m) && (old(
                    store,
                ).strings_view().dom().contains(m) ==> store.strings_view()[m] == old(
                    store,
                ).strings_view()[m])) by {
                if exists|j: int|
                    0 <= j < n && m == marker_key(id, keys@[j]@) && !old(store).str_alive(m, now) {
                    let j = choose|j: int|
                        0 <= j < n && m == marker_key(id, keys@[j]@) && !old(store).str_alive(
                            m,
                            now,
                        );
                    lemma_tagged_roundtrip(id, '/', keys@[j]@);
                    assert(old(self).blobs().dom().contains(tag_rest(id, m)));
                    assert(false);
                }
            }
            assert forall|m: Seq<char>|
                store.strings_view().dom().contains(m) && is_tagged(id, '/', m) implies self
                .blobs()
                .dom()
                .contains(tag_rest(id, m)) by {
                if !(exists|j: int|
                    0 <= j < n && m == marker_key(id, keys@[j]@) && !old(store).str_alive(
                        m,
                        now,
                    )) {
                    assert(old(store).strings_view().dom().contains(m));
                    assert(old(self).blobs().dom().contains(tag_rest(id, m)));
                    lemma_tagged_reconstruct(id, '/', m);
                    if !old(store).str_alive(m, now) {
                        let j = choose|j: int| 0 <= j < n && keys@[j]@ == tag_rest(id, m);
                        assert(m == marker_key(id, keys@[j]@));
                        assert(false);
                    }
                }
            }
        }
    }
}

/// A marker written to expire at `expire` is dead at any later time.
pub proof fn lemma_marker_expires(s: MetaStore, m: Seq<char>, expire: i64, now: i64)
    requires
        s.strings_view().dom().contains(m),
        s.strings_view()[m].expire_at == Some(expire),
        now >= expire,
    ensures
        !s.str_alive(m, now),
{
}

/// The connection states of the expiry reaper.
pub enum ReaperState {
    Disconnected,
    Subscribing,
    Polling,
    Stopped,
}

/// What the reaper observed since its last step.
pub enum ReaperEvent {
    Connected,
    ConnectFailed,
    Subscribed,
    SubscribeFailed,
    Message,
    ReadTimeout,
    ReadError,
}

/// What the reaper is to do next.
pub enum ReaperAction {
    Connect,
    Subscribe,
    Poll,
    RemoveBlob,
    Backoff,
    Halt,
}

/// The reaper's transition relation: a shutdown request stops it from any
/// state; a read timeout keeps polling; any other read error reconnects
/// after a backoff; a message is handled and polling resumes.
pub open spec fn spec_reaper_step(st: ReaperState, shutdown: bool, ev: ReaperEvent) -> (
    ReaperState,
    ReaperAction,
) {
    if shutdown {
        (ReaperState::Stopped, ReaperAction::Halt)
    } else {
        match st {
            ReaperState::Disconnected => match ev {
                ReaperEvent::Connected => (ReaperState::Subscribing, ReaperAction::Subscribe),
                ReaperEvent::ConnectFailed => (ReaperState::Disconnected, ReaperAction::Backoff),
                _ => (ReaperState::Disconnected, ReaperAction::Connect),
            },
            ReaperState::Subscribing => match ev {
                ReaperEvent::Subscribed => (ReaperState::Polling, ReaperAction::Poll),
                ReaperEvent::SubscribeFailed => (ReaperState::Disconnected, ReaperAction::Connect),
                _ => (ReaperState::Subscribing, ReaperAction::Subscribe),
            },
            ReaperState::Polling => match ev {
                ReaperEvent::Message => (ReaperState::Polling, ReaperAction::RemoveBlob),
                ReaperEvent::ReadTimeout => (ReaperState::Polling, ReaperAction::Poll),
                ReaperEvent::ReadError => (ReaperState::Disconnected, ReaperAction::Backoff),
                _ => (ReaperState::Polling, ReaperAction::Poll),
            },
            ReaperState::Stopped => (ReaperState::Stopped, ReaperAction::Halt),
        }
    }
}

/// One step of the reaper.
pub fn reaper_step(st: &ReaperState, shutdown: bool, ev: &ReaperEvent) -> (r: (
    ReaperState,
    ReaperAction,
))
    ensures
        r == spec_reaper_step(*st, shutdown, *ev),
{
    if shutdown {
        return (ReaperState::Stopped, ReaperAction::Halt);
    }
    match st {
        ReaperState::Disconnected => match ev {
            ReaperEvent::Connected => (ReaperState::Subscribing, ReaperAction::Subscribe),
            ReaperEvent::ConnectFailed => (ReaperState::Disconnected, ReaperAction::Backoff),
            _ => (ReaperState::Disconnected, ReaperAction::Connect),
        },
        ReaperState::Subscribing => match ev {
            ReaperEvent::Subscribed => (ReaperState::Polling, ReaperAction::Poll),
            ReaperEvent::SubscribeFailed => (ReaperState::Disconnected, ReaperAction::Connect),
            _ => (ReaperState::Subscribing, ReaperAction::Subscribe),
        },
        ReaperState::Polling => match ev {
            ReaperEvent::Message => (ReaperState::Polling, ReaperAction::RemoveBlob),
            ReaperEvent::ReadTimeout => (ReaperState::Polling, ReaperAction::Poll),
            ReaperEvent::ReadError => (ReaperState::Disconnected, ReaperAction::Backoff),
            _ => (ReaperState::Polling, ReaperAction::Poll),
        },
        ReaperState::Stopped => (ReaperState::Stopped, ReaperAction::Halt),
    }
}

/// Once shutdown is requested, the very next step stops the reaper.
pub proof fn lemma_reaper_shutdown(st: ReaperState, ev: ReaperEvent)
    ensures
        spec_reaper_step(st, true, ev).0 is Stopped,
{
}

/// The cache key named by a keyspace-event channel of instance `id`: what
/// follows the first colon must be a marker key of the instance.
pub open spec fn spec_parse_channel(id: Seq<char>, ch: Seq<char>) -> Option<Seq<char>> {
    if exists|i: int| 0 <= i < ch.len() && ch[i] == ':' {
        let i = choose|i: int|
            0 <= i < ch.len() && ch[i] == ':' && forall|j: int| 0 <= j < i ==> ch[j] != ':';
        let rest = ch.skip(i + 1);
        if is_tagged(id, '/', rest) {
            Some(tag_rest(id, rest))
        } else {
            None
        }
    } else {
        None
    }
}

/// Extracts the cache key from a keyspace-event channel of instance `id`.
pub fn parse_event_channel(id: &str, channel: &str) -> (r: Option<String>)
    ensures
        match r {
            Some(f) => spec_parse_channel(id@, channel@) == Some(f@),
            None => spec_parse_channel(id@, channel@) is None,
        },
{
    proof {
        reveal_strlit("/");
        reveal_strlit("");
    }
    let n = channel.unicode_len();
    match find_char(channel, ':') {
        Some(i) => {
            let rest = channel.substring_char(i + 1, n);
            let prefix = tag_key(id, "/", "");
            proof {
                assert(prefix@ =~= id@ + seq!['/']);
            }
            if str_has_prefix(rest, prefix.as_str()) {
                let idl = id.unicode_len();
                proof {
                    assert(rest@.take(id@.len() as int + 1) =~= id@ + seq!['/']);
                    assert(is_tagged(id@, '/', rest@));
                    let w = choose|w: int|
                        0 <= w < channel@.len() && channel@[w] == ':' && forall|j: int|
                            0 <= j < w ==> channel@[j] != ':';
                    assert(w == i as int);
                }
                Some(TtlRedisCache::from_redis_key(id, rest))
            } else {
                proof {
                    if is_tagged(id@, '/', rest@) {
                        assert((id@ + seq!['/']).is_prefix_of(rest@)) by {
                            assert(id@ + seq!['/'] =~= rest@.take(id@.len() as int + 1));
                        }
                    }
                    let w = choose|w: int|
                        0 <= w < channel@.len() && channel@[w] == ':' && forall|j: int|
                            0 <= j < w ==> channel@[j] != ':';
                    assert(w == i as int);
                }
                None
            }
        },
        None => None,
    }
}

} // verus!
